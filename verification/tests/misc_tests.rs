use immixcons::allocator::{padded_header_size, AllocError, SizeClass};
use immixcons::constants;
use immixcons::stack::{Grows, SystemStackInfo};

#[test]
fn test_size_classes() {
    assert_eq!(SizeClass::get_for_size(0), Err(AllocError::BadRequest));
    assert_eq!(SizeClass::get_for_size(1), Ok(SizeClass::Small));
    assert_eq!(SizeClass::get_for_size(constants::LINE_SIZE), Ok(SizeClass::Small));
    assert_eq!(SizeClass::get_for_size(constants::LINE_SIZE + 1), Ok(SizeClass::Medium));
    assert_eq!(SizeClass::get_for_size(constants::BLOCK_CAPACITY), Ok(SizeClass::Medium));
    assert_eq!(SizeClass::get_for_size(constants::BLOCK_CAPACITY + 1), Ok(SizeClass::Large));
    assert_eq!(SizeClass::get_for_size(u32::MAX as usize), Ok(SizeClass::Large));
    assert_eq!(SizeClass::get_for_size(u32::MAX as usize + 1), Err(AllocError::BadRequest));
}

#[test]
fn test_layout_constants() {
    assert_eq!(constants::BLOCK_SIZE, 32768);
    assert_eq!(constants::LINE_COUNT, 256);
    assert_eq!(constants::OBJECT_MAP_SIZE, 256);
    assert_eq!(constants::BLOCK_CAPACITY, 32256);
    assert_eq!(constants::LINE_MARK_START, 32256);
    assert_eq!(constants::OBJECT_MAP_START, 32512);
    assert_eq!(constants::OBJECT_MAP_SLOTS, 2016);
    assert_eq!(constants::BLOCK_PTR_MASK, !32767usize);
}

#[test]
fn test_padded_header_size() {
    assert_eq!(padded_header_size::<u8>(), 16);
    assert_eq!(padded_header_size::<[u8; 16]>(), 16);
    assert_eq!(padded_header_size::<[u8; 17]>(), 32);
    assert_eq!(padded_header_size::<()>(), 0);
}

#[test]
fn test_stack_orientation_and_extent() {
    assert_eq!(SystemStackInfo::stack_orientation(100, 200), Grows::Down);
    assert_eq!(SystemStackInfo::stack_orientation(200, 100), Grows::Up);
    let down = SystemStackInfo::with_bounds(0x1000, 0x1000, Grows::Down);
    assert_eq!(down.scan_extent(0x1800, 8), (0x1800, 0x100));
    let up = SystemStackInfo::with_bounds(0x1000, 0x1000, Grows::Up);
    assert_eq!(up.scan_extent(0x1800, 8), (0x1000, 0x100));
}
