use immixcons::blockmeta::BlockMeta;
use immixcons::bumpblock::BumpBlock;
use immixcons::constants;

const TEST_UNIT_SIZE: usize = constants::ALLOC_ALIGN_BYTES;

// A block address, aligned to the block size as every heap block is.
const BLOCK: usize = 64 * constants::BLOCK_SIZE;

// Helper function: fill all holes of the block with TEST_UNIT_SIZE
// allocations and return how many were made. Also check that no two
// allocations overlap and that every allocation is aligned and lies inside
// the block's allocation space.
fn loop_check_allocate(b: &mut BumpBlock, meta: &BlockMeta) -> usize {
    let mut v: Vec<usize> = Vec::new();

    while let Some(ptr) = b.inner_alloc(meta, TEST_UNIT_SIZE) {
        assert!(!v.contains(&ptr));
        assert!(ptr % constants::ALLOC_ALIGN_BYTES == 0);
        assert!(ptr >= BLOCK && ptr + TEST_UNIT_SIZE <= BLOCK + constants::BLOCK_CAPACITY);
        for other in v.iter() {
            assert!(ptr + TEST_UNIT_SIZE <= *other || *other + TEST_UNIT_SIZE <= ptr);
        }
        v.push(ptr);
    }

    v.len()
}

#[test]
fn test_empty_block() {
    let mut meta = BlockMeta::new();
    let mut b = BumpBlock::new(BLOCK, &mut meta);

    let count = loop_check_allocate(&mut b, &meta);
    let expect = constants::BLOCK_CAPACITY / TEST_UNIT_SIZE;

    println!("expect={expect}, count={count}");
    assert!(count == expect);
}

#[test]
fn test_half_block() {
    // This block has an available hole as the second half of the block
    let mut meta = BlockMeta::new();
    let mut b = BumpBlock::new(BLOCK, &mut meta);
    meta.reset();

    for i in 0..(constants::LINE_COUNT / 2) {
        meta.mark_line(i);
    }
    let occupied_bytes = (constants::LINE_COUNT / 2) * constants::LINE_SIZE;

    b.limit = b.cursor; // block is recycled

    let count = loop_check_allocate(&mut b, &meta);
    let expect =
        (constants::BLOCK_CAPACITY - constants::LINE_SIZE - occupied_bytes) / TEST_UNIT_SIZE;

    println!("expect={expect}, count={count}");
    assert!(count == expect);
}

#[test]
fn test_conservatively_marked_block() {
    // This block has every other line marked, so the alternate lines are
    // conservatively marked. Nothing should be allocated in this block.
    let mut meta = BlockMeta::new();
    let mut b = BumpBlock::new(BLOCK, &mut meta);
    meta.reset();

    for i in 0..constants::LINE_COUNT {
        if i % 2 == 0 {
            meta.mark_line(i);
        }
    }

    b.limit = b.cursor; // block is recycled

    let count = loop_check_allocate(&mut b, &meta);

    println!("count={count}");
    assert!(count == 0);
}

#[test]
fn test_attach_preserves_metadata_and_block_properties() {
    // Initialize metadata and mark a line
    let mut meta = BlockMeta::new();
    meta.reset();
    meta.mark_line(3);

    // Attach to the block (should not reset metadata)
    let b = BumpBlock::attach(BLOCK);

    // block pointer should be correct
    assert_eq!(b.block_ptr(), BLOCK);

    // initial hole should be the entire block
    assert_eq!(b.current_hole_size(), constants::BLOCK_CAPACITY);

    // verify the line mark we set earlier is still present
    assert_eq!(meta.line_mark(3), 1);
}

// Further cases

#[test]
fn test_new_resets_metadata() {
    let mut meta = BlockMeta::new();
    meta.mark_line(9);
    meta.mark_object(32);
    let b = BumpBlock::new(BLOCK, &mut meta);
    assert_eq!(meta.line_mark(9), 0);
    assert!(!meta.is_object_marked(32));
    assert_eq!(b.current_hole_size(), constants::BLOCK_CAPACITY);
}

#[test]
fn test_alloc_rounds_down_to_alignment() {
    let meta = BlockMeta::new();
    let mut b = BumpBlock::attach(BLOCK);
    let p = b.inner_alloc(&meta, 20).unwrap();
    // cursor starts at BLOCK + BLOCK_CAPACITY; 20 bytes below, aligned down
    let top = BLOCK + constants::BLOCK_CAPACITY;
    assert_eq!(p, (top - 20) & !(constants::ALLOC_ALIGN_BYTES - 1));
    assert_eq!(p, top - 32);
    assert_eq!(b.cursor, p);
    let q = b.inner_alloc(&meta, 1).unwrap();
    assert_eq!(q, p - 16);
}

#[test]
fn test_alloc_zero_bytes_at_cursor() {
    let meta = BlockMeta::new();
    let mut b = BumpBlock::attach(BLOCK);
    let p = b.inner_alloc(&meta, 0).unwrap();
    assert_eq!(p, BLOCK + constants::BLOCK_CAPACITY);
}

#[test]
fn test_alloc_too_big_fails_and_keeps_state() {
    let meta = BlockMeta::new();
    let mut b = BumpBlock::attach(BLOCK);
    assert_eq!(b.inner_alloc(&meta, constants::BLOCK_CAPACITY + 1), None);
    assert_eq!(b.cursor, BLOCK + constants::BLOCK_CAPACITY);
    assert_eq!(b.limit, BLOCK);
    assert_eq!(b.inner_alloc(&meta, usize::MAX), None);
    // a whole-capacity object fits exactly
    assert_eq!(b.inner_alloc(&meta, constants::BLOCK_CAPACITY), Some(BLOCK));
}

#[test]
fn test_alloc_moves_to_next_hole() {
    // lines 40 and 150 marked: the hole above line 150 is used first, then
    // the search moves below it; the line just above each marked line is
    // treated as conservatively marked
    let mut meta = BlockMeta::new();
    meta.mark_line(150);
    meta.mark_line(40);
    let mut b = BumpBlock::attach(BLOCK);
    b.limit = b.cursor; // recycled: search for holes from the top
    let p = b.inner_alloc(&meta, constants::LINE_SIZE).unwrap();
    // the first hole found ends at the top of the allocation space and
    // starts above the line after line 150
    assert_eq!(b.limit, BLOCK + 152 * constants::LINE_SIZE);
    assert_eq!(p, BLOCK + constants::BLOCK_CAPACITY - constants::LINE_SIZE);
    // a request larger than that hole moves below line 150
    let big = (constants::BLOCK_CAPACITY - 152 * constants::LINE_SIZE) + 1;
    let q = b.inner_alloc(&meta, big).unwrap();
    assert_eq!(b.limit, BLOCK + 42 * constants::LINE_SIZE);
    assert!(q + big <= BLOCK + 150 * constants::LINE_SIZE);
}
