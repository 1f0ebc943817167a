use immixcons::blockmeta::BlockMeta;
use immixcons::constants;

#[test]
fn test_find_next_hole() {
    // A set of marked lines with a couple holes.
    // The first hole should be seen as conservatively marked.
    // The second hole should be the one selected.
    let mut meta = BlockMeta::new();

    meta.mark_line(0);
    meta.mark_line(1);
    meta.mark_line(2);
    meta.mark_line(4);
    meta.mark_line(10);

    // line 5 should be conservatively marked
    let expect = Some((10 * constants::LINE_SIZE, 6 * constants::LINE_SIZE));

    let got = meta.find_next_available_hole(10 * constants::LINE_SIZE, constants::LINE_SIZE);

    println!("test_find_next_hole got {got:?} expected {expect:?}");

    assert!(got == expect);
}

#[test]
fn test_find_next_hole_at_line_zero() {
    // Should find the hole starting at the beginning of the block
    let mut meta = BlockMeta::new();

    meta.mark_line(3);
    meta.mark_line(4);
    meta.mark_line(5);

    let expect = Some((3 * constants::LINE_SIZE, 0));

    let got = meta.find_next_available_hole(3 * constants::LINE_SIZE, constants::LINE_SIZE);

    println!("test_find_next_hole_at_line_zero got {got:?} expected {expect:?}");

    assert!(got == expect);
}

#[test]
fn test_find_next_hole_at_block_end() {
    // The first half of the block is marked.
    // The second half of the block should be identified as a hole.
    let mut meta = BlockMeta::new();

    let halfway = constants::LINE_COUNT / 2;

    for i in halfway..constants::LINE_COUNT {
        meta.mark_line(i);
    }

    // because halfway line should be conservatively marked
    let expect = Some((halfway * constants::LINE_SIZE, 0));

    let got = meta.find_next_available_hole(constants::BLOCK_CAPACITY, constants::LINE_SIZE);

    println!("test_find_next_hole_at_block_end got {got:?} expected {expect:?}");

    assert!(got == expect);
}

#[test]
fn test_find_hole_all_conservatively_marked() {
    // Every other line is marked.
    // No hole should be found.
    let mut meta = BlockMeta::new();

    for i in 0..constants::LINE_COUNT {
        if i % 2 == 0 {
            meta.mark_line(i);
        }
    }

    let got = meta.find_next_available_hole(constants::BLOCK_CAPACITY, constants::LINE_SIZE);

    println!("test_find_hole_all_conservatively_marked got {got:?} expected None");
    assert!(got.is_none());
}

#[test]
fn test_find_entire_block() {
    // No marked lines. Entire block is available.
    let meta = BlockMeta::new();

    let expect = Some((constants::BLOCK_CAPACITY, 0));
    let got = meta.find_next_available_hole(constants::BLOCK_CAPACITY, constants::LINE_SIZE);

    println!("test_find_entire_block got {got:?} expected {expect:?}");

    assert!(got == expect);
}

#[test]
fn test_object_map_mark_and_check() {
    // Test marking and checking individual object slots
    let mut meta = BlockMeta::new();

    // Initially, no objects should be marked
    assert!(!meta.is_object_marked(0));
    assert!(!meta.is_object_marked(constants::ALLOC_ALIGN_BYTES));
    assert!(!meta.is_object_marked(constants::ALLOC_ALIGN_BYTES * 2));

    // Mark some objects
    meta.mark_object(0);
    meta.mark_object(constants::ALLOC_ALIGN_BYTES * 5);
    meta.mark_object(constants::ALLOC_ALIGN_BYTES * 100);

    // Check marked objects
    assert!(meta.is_object_marked(0));
    assert!(meta.is_object_marked(constants::ALLOC_ALIGN_BYTES * 5));
    assert!(meta.is_object_marked(constants::ALLOC_ALIGN_BYTES * 100));

    // Check unmarked objects
    assert!(!meta.is_object_marked(constants::ALLOC_ALIGN_BYTES));
    assert!(!meta.is_object_marked(constants::ALLOC_ALIGN_BYTES * 2));
    assert!(!meta.is_object_marked(constants::ALLOC_ALIGN_BYTES * 99));
}

#[test]
fn test_object_map_clear() {
    // Test clearing marked objects
    let mut meta = BlockMeta::new();

    let offset = constants::ALLOC_ALIGN_BYTES * 10;

    // Mark an object
    meta.mark_object(offset);
    assert!(meta.is_object_marked(offset));

    // Clear it
    meta.clear_object(offset);
    assert!(!meta.is_object_marked(offset));
}

#[test]
fn test_object_map_find_next() {
    // Test finding marked objects
    let mut meta = BlockMeta::new();

    // Mark objects at various positions
    meta.mark_object(constants::ALLOC_ALIGN_BYTES * 5);
    meta.mark_object(constants::ALLOC_ALIGN_BYTES * 10);
    meta.mark_object(constants::ALLOC_ALIGN_BYTES * 50);

    // Find from the beginning
    let first = meta.find_next_object(0);
    assert_eq!(first, Some(constants::ALLOC_ALIGN_BYTES * 5));

    // Find from after the first
    let second = meta.find_next_object(constants::ALLOC_ALIGN_BYTES * 6);
    assert_eq!(second, Some(constants::ALLOC_ALIGN_BYTES * 10));

    // Find from after the second
    let third = meta.find_next_object(constants::ALLOC_ALIGN_BYTES * 11);
    assert_eq!(third, Some(constants::ALLOC_ALIGN_BYTES * 50));

    // Find from after all marked objects
    let none = meta.find_next_object(constants::ALLOC_ALIGN_BYTES * 51);
    assert_eq!(none, None);
}

#[test]
fn test_object_map_reset() {
    // Test that reset clears the object map
    let mut meta = BlockMeta::new();

    // Mark several objects
    for i in 0..10 {
        meta.mark_object(constants::ALLOC_ALIGN_BYTES * i);
    }

    // Verify they're marked
    for i in 0..10 {
        assert!(meta.is_object_marked(constants::ALLOC_ALIGN_BYTES * i));
    }

    // Reset
    meta.reset();

    // Verify they're all cleared
    for i in 0..10 {
        assert!(!meta.is_object_marked(constants::ALLOC_ALIGN_BYTES * i));
    }

    // Verify find_next_object returns None
    assert_eq!(meta.find_next_object(0), None);
}

#[test]
fn test_object_map_dense_marking() {
    // Test marking many consecutive objects
    let mut meta = BlockMeta::new();

    let num_objects = 100;

    // Mark consecutive objects
    for i in 0..num_objects {
        meta.mark_object(constants::ALLOC_ALIGN_BYTES * i);
    }

    // Verify all are marked
    for i in 0..num_objects {
        assert!(meta.is_object_marked(constants::ALLOC_ALIGN_BYTES * i));
    }

    // Verify we can find them all
    let mut current_offset = 0;
    let mut found_count = 0;
    while let Some(offset) = meta.find_next_object(current_offset) {
        assert_eq!(offset, constants::ALLOC_ALIGN_BYTES * found_count);
        found_count += 1;
        current_offset = offset + constants::ALLOC_ALIGN_BYTES;
    }
    assert_eq!(found_count, num_objects);
}

// Further cases

#[test]
fn test_reset_clears_line_marks() {
    let mut meta = BlockMeta::new();
    meta.mark_line(7);
    meta.mark_block();
    assert_eq!(meta.line_mark(7), 1);
    assert_eq!(meta.line_mark(constants::LINE_COUNT - 1), 1);
    meta.reset();
    assert_eq!(meta.line_mark(7), 0);
    assert_eq!(meta.line_mark(constants::LINE_COUNT - 1), 0);
}

#[test]
fn test_count_holes() {
    let mut meta = BlockMeta::new();
    assert_eq!(meta.count_holes(), constants::LINE_COUNT);
    meta.mark_line(0);
    meta.mark_line(5);
    meta.mark_block();
    assert_eq!(meta.count_holes(), constants::LINE_COUNT - 3);
}

#[test]
fn test_hole_needs_more_than_one_line() {
    // lines 2 and 6 marked: lines 3, 4, 5 are free; line 3 is conservatively
    // treated as marked, so a 2-line object fits in lines 4..6 only.
    let mut meta = BlockMeta::new();
    meta.mark_line(2);
    meta.mark_line(6);
    let got = meta.find_next_available_hole(6 * constants::LINE_SIZE, 2 * constants::LINE_SIZE);
    assert_eq!(got, Some((6 * constants::LINE_SIZE, 4 * constants::LINE_SIZE)));
    // a 3-line object does not fit above line 2 and nothing fits below it
    // once line 3 is excluded: lines 0 and 1 give a 2-line hole only
    let got = meta.find_next_available_hole(6 * constants::LINE_SIZE, 3 * constants::LINE_SIZE);
    assert_eq!(got, None);
}

#[test]
fn test_find_next_hole_from_line_zero_finds_nothing() {
    let meta = BlockMeta::new();
    assert_eq!(meta.find_next_available_hole(0, constants::LINE_SIZE), None);
    assert_eq!(meta.find_next_available_hole(constants::LINE_SIZE - 1, 0), None);
}

#[test]
fn test_find_next_object_beyond_slots() {
    let mut meta = BlockMeta::new();
    meta.mark_object(constants::BLOCK_CAPACITY - constants::ALLOC_ALIGN_BYTES);
    assert_eq!(
        meta.find_next_object(constants::BLOCK_CAPACITY - constants::ALLOC_ALIGN_BYTES),
        Some(constants::BLOCK_CAPACITY - constants::ALLOC_ALIGN_BYTES)
    );
    assert_eq!(meta.find_next_object(constants::BLOCK_CAPACITY), None);
    // an unaligned start is rounded down to its slot
    assert_eq!(
        meta.find_next_object(constants::BLOCK_CAPACITY - 1),
        Some(constants::BLOCK_CAPACITY - constants::ALLOC_ALIGN_BYTES)
    );
}
