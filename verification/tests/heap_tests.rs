use immixcons::allocator::{padded_header_size, AllocError, SizeClass, TraceVisitor};
use immixcons::constants;
use immixcons::heap::{BlockList, BlockNeed, HeapTracer, Placement};
use immixcons::rawptr::RawPtr;

const B1: usize = 16 * constants::BLOCK_SIZE;
const B2: usize = 17 * constants::BLOCK_SIZE;
const B3: usize = 18 * constants::BLOCK_SIZE;

fn place(blocks: &mut BlockList, size: usize, fresh: &mut Vec<usize>) -> Result<(usize, usize), AllocError> {
    let class = SizeClass::get_for_size(size)?;
    match blocks.find_space(size, class)? {
        Placement::Placed(d) => Ok((d.block, d.space)),
        Placement::NeedsBlock(need) => {
            let block = fresh.remove(0);
            let d = blocks.install_block(block, need, size);
            Ok((d.block, d.space))
        }
    }
}

#[test]
fn test_block_list_refuses_large() {
    let mut blocks = BlockList::new();
    let size = constants::BLOCK_SIZE + 1 + padded_header_size::<u64>();
    let class = SizeClass::get_for_size(size).unwrap();
    assert_eq!(class, SizeClass::Large);
    assert!(matches!(blocks.find_space(size, class), Err(AllocError::BadRequest)));
}

#[test]
fn test_first_allocation_needs_head_block() {
    let mut blocks = BlockList::new();
    assert!(matches!(
        blocks.find_space(32, SizeClass::Small),
        Ok(Placement::NeedsBlock(BlockNeed::Head))
    ));
    let d = blocks.install_block(B1, BlockNeed::Head, 32);
    assert_eq!(d.block, B1);
    assert_eq!(d.space, B1 + constants::BLOCK_CAPACITY - 32);
    assert!(blocks.contains_block(B1));
}

#[test]
fn test_block_list_alignment() {
    let mut blocks = BlockList::new();
    let mut fresh = vec![B1, B2, B3];
    let header = padded_header_size::<[u8; 24]>();
    assert_eq!(header, 32);
    let (block, space) = place(&mut blocks, header + 24, &mut fresh).unwrap();
    let object = blocks.commit_object(immixcons::heap::AllocDest::new(block, space), header);
    assert!(space & (constants::ALLOC_ALIGN_BYTES - 1) == 0);
    assert!(object & (constants::ALLOC_ALIGN_BYTES - 1) == 0);
    assert_eq!(object - header, space);
}

#[test]
fn test_object_map_marked_on_alloc() {
    let mut blocks = BlockList::new();
    let mut fresh = vec![B1];
    let header = padded_header_size::<u64>();
    let (block, space) = place(&mut blocks, header + 8, &mut fresh).unwrap();
    let object = blocks.commit_object(immixcons::heap::AllocDest::new(block, space), header);
    assert_eq!(blocks.is_conservatively_a_ptr(object), Some(object));
    // the header address is not recorded as an object
    assert_eq!(blocks.is_conservatively_a_ptr(space), None);
    // nor is anything in a block the heap does not know
    assert_eq!(blocks.is_conservatively_a_ptr(B2 + 64), None);
}

#[test]
fn test_block_list_many_placements() {
    // allocate many small objects; they are all placed without overlap,
    // moving on to a fresh head block when one fills up
    let mut blocks = BlockList::new();
    let mut fresh: Vec<usize> = (20..40).map(|i| i * constants::BLOCK_SIZE).collect();
    let header = padded_header_size::<u64>();
    let mut spaces: Vec<(usize, usize)> = Vec::new();
    for _ in 0..(constants::BLOCK_SIZE / 8) {
        let (block, space) = place(&mut blocks, header + 8, &mut fresh).unwrap();
        assert!(space >= block && space + header + 8 <= block + constants::BLOCK_CAPACITY);
        spaces.push((block, space));
    }
    let mut sorted: Vec<usize> = spaces.iter().map(|(_, s)| *s).collect();
    sorted.sort();
    for w in sorted.windows(2) {
        assert!(w[0] + header + 8 <= w[1]);
    }
    // a 24 byte request takes 32 bytes once aligned: a block holds
    // BLOCK_CAPACITY / 32 of them
    let per_block = constants::BLOCK_CAPACITY / 32;
    let blocks_used = (constants::BLOCK_SIZE / 8 + per_block - 1) / per_block;
    assert_eq!(fresh.len(), 20 - blocks_used);
}

#[test]
fn test_medium_object_uses_overflow_block() {
    let mut blocks = BlockList::new();
    let mut fresh = vec![B1, B2, B3];
    // fill most of the head block
    let (b0, _) = place(&mut blocks, constants::BLOCK_CAPACITY - 256, &mut fresh).unwrap();
    assert_eq!(b0, B1);
    // a medium object larger than the hole left goes to an overflow block
    assert!(matches!(
        blocks.find_space(1024, SizeClass::Medium),
        Ok(Placement::NeedsBlock(BlockNeed::Overflow))
    ));
    let d = blocks.install_block(B2, BlockNeed::Overflow, 1024);
    assert_eq!(d.block, B2);
    // a small object still goes to the head block
    let (b1, _) = place(&mut blocks, 16, &mut fresh).unwrap();
    assert_eq!(b1, B1);
    // another medium object too large for the head goes to the overflow block
    let (b2, s2) = place(&mut blocks, 1024, &mut fresh).unwrap();
    assert_eq!(b2, B2);
    assert_eq!(s2, d.space - 1024);
}

#[test]
fn test_mark_object_block_and_manage_blocks() {
    let mut blocks = BlockList::new();
    let mut fresh = vec![B1];
    let header = padded_header_size::<u64>();
    let (block, space) = place(&mut blocks, header + 8, &mut fresh).unwrap();
    let object = blocks.commit_object(immixcons::heap::AllocDest::new(block, space), header);
    blocks.mark_object_block(object);
    // the marked block is not empty: nothing is released, and the reserve
    // is to be filled up
    let m = blocks.manage_blocks();
    assert!(m.released.is_empty());
    assert_eq!(m.additional, constants::BLOCKS_KEEP_EMPTY_COUNT);
    for i in 0..m.additional {
        blocks.add_empty_block(B2 + i * constants::BLOCK_SIZE);
    }
    // all blocks but the marked one are empty now; they are all in the
    // reserve, which is filed again by the next management run
    let m = blocks.manage_blocks();
    assert_eq!(m.additional, 0);
    assert_eq!(m.released.len(), constants::BLOCKS_KEEP_EMPTY_COUNT);
}

#[test]
fn test_unmarked_head_block_is_released_when_surplus() {
    let mut blocks = BlockList::new();
    let mut fresh = vec![B1];
    place(&mut blocks, 64, &mut fresh).unwrap();
    for i in 0..constants::BLOCKS_KEEP_EMPTY_COUNT {
        blocks.add_empty_block(B2 + i * constants::BLOCK_SIZE);
    }
    // every block is unmarked, so every block is empty: the reserve now
    // lists the added blocks twice over plus the head block, and the
    // surplus at its front is released
    let m = blocks.manage_blocks();
    assert_eq!(m.additional, 0);
    assert_eq!(m.released.len(), 2 * constants::BLOCKS_KEEP_EMPTY_COUNT + 1 - constants::BLOCKS_KEEP_EMPTY_COUNT);
    for r in m.released.iter() {
        assert!(!blocks.contains_block(*r));
    }
}

#[test]
fn test_scan_roots() {
    let mut blocks = BlockList::new();
    let mut fresh = vec![B1];
    let header = padded_header_size::<u64>();
    let (block, space) = place(&mut blocks, header + 8, &mut fresh).unwrap();
    let object = blocks.commit_object(immixcons::heap::AllocDest::new(block, space), header);
    let words = vec![0, object, 12345, space, object + 16, object | 0x1, object];
    // only the object's own address counts as a pointer to it: not its
    // header, not the next slot, and not a tagged word left unmasked
    assert_eq!(blocks.scan_roots(&words, !0), vec![object, object]);
    // with the tag bits masked off, the tagged word counts and is kept as found
    assert_eq!(blocks.scan_roots(&words, !0x3), vec![object, object | 0x1, object]);
    // the tag mask is applied before the check, and the word kept as found
    let high = 1usize << 40;
    let tagged = vec![object | high, (object + 16) | high];
    assert!(blocks.scan_roots(&tagged, !0).is_empty());
    assert_eq!(blocks.scan_roots(&tagged, !high), vec![object | high]);
}

#[test]
fn test_heap_tracer() {
    let mut t = HeapTracer::new();
    assert!(t.pop().is_none());
    t.visit(RawPtr::new(16));
    t.visit(RawPtr::new(32));
    assert_eq!(t.pop().map(|p| p.addr()), Some(32));
    assert_eq!(t.pop().map(|p| p.addr()), Some(16));
    assert!(t.pop().is_none());
}

#[test]
fn test_interior_address_is_not_an_object() {
    let mut blocks = BlockList::new();
    let mut fresh = vec![B1];
    let header = padded_header_size::<u64>();
    let (block, space) = place(&mut blocks, header + 32, &mut fresh).unwrap();
    let object = blocks.commit_object(immixcons::heap::AllocDest::new(block, space), header);
    assert_eq!(blocks.is_conservatively_a_ptr(object), Some(object));
    assert_eq!(blocks.is_conservatively_a_ptr(object + 8), None);
    assert_eq!(blocks.is_conservatively_a_ptr(object + 1), None);
}

#[test]
fn test_large_request_refused_whatever_its_size() {
    let mut blocks = BlockList::new();
    assert!(matches!(blocks.find_space(32, SizeClass::Large), Err(AllocError::BadRequest)));
    assert!(!blocks.contains_block(B1));
    // a mismatched small size class is served like any other
    assert!(matches!(
        blocks.find_space(constants::LINE_SIZE + 1, SizeClass::Small),
        Ok(Placement::NeedsBlock(BlockNeed::Head))
    ));
}

#[test]
fn test_medium_object_missing_the_hole_goes_to_a_fresh_overflow_block() {
    let mut blocks = BlockList::new();
    let mut fresh = vec![B1, B2];
    let (b1, s1) = place(&mut blocks, 32, &mut fresh).unwrap();
    assert_eq!(b1, B1);
    assert_eq!(s1, B1 + constants::BLOCK_CAPACITY - 32);
    let size = constants::BLOCK_CAPACITY;
    assert!(matches!(
        blocks.find_space(size, SizeClass::Medium),
        Ok(Placement::NeedsBlock(BlockNeed::Overflow))
    ));
    let d = blocks.install_block(B2, BlockNeed::Overflow, size);
    assert_eq!(d.block, B2);
    assert_eq!(d.space, B2);
    // the head block is left as it was: a small object still goes below s1
    let (b3, s3) = place(&mut blocks, 32, &mut fresh).unwrap();
    assert_eq!(b3, B1);
    assert_eq!(s3, s1 - 32);
}

#[test]
fn test_reserve_block_becomes_overflow_block() {
    let mut blocks = BlockList::new();
    let mut fresh = vec![B1];
    place(&mut blocks, 32, &mut fresh).unwrap();
    blocks.add_empty_block(B2);
    blocks.add_empty_block(B3);
    match blocks.find_space(constants::BLOCK_CAPACITY, SizeClass::Medium) {
        Ok(Placement::Placed(d)) => {
            assert_eq!(d.block, B3);
            assert_eq!(d.space, B3);
        }
        _ => panic!("expected a placement in the last reserve block"),
    }
}
