//! Block layout.
//!
//! ```text
//! [0 .. 32256)          : Object allocation space (BLOCK_CAPACITY)
//! [32256 .. 32512)      : Line marks (256 bytes, one per line)
//! [32512 .. 32768)      : Object map (256 bytes, bitmap)
//! ```
use vstd::prelude::*;

verus! {

pub const BLOCK_SIZE_BITS: usize = 15;

pub const BLOCK_SIZE: usize = 32768;

pub const BLOCK_PTR_MASK: usize = !(BLOCK_SIZE - 1);

pub const LINE_SIZE_BITS: usize = 7;

pub const LINE_SIZE: usize = 128;

/// How many total lines are in a block
pub const LINE_COUNT: usize = BLOCK_SIZE / LINE_SIZE;

/// Allocation alignment
pub const ALLOC_ALIGN_BYTES: usize = 16;

pub const ALLOC_ALIGN_MASK: usize = !(ALLOC_ALIGN_BYTES - 1);

/// Maximum possible object-map slots if the entire block were allocatable
pub const MAX_POSSIBLE_SLOTS: usize = BLOCK_SIZE / ALLOC_ALIGN_BYTES;

/// Object map size in bytes (rounded up to the nearest byte)
pub const OBJECT_MAP_SIZE: usize = (MAX_POSSIBLE_SLOTS + 7) / 8;

/// Total metadata size: line marks + object map
pub const METADATA_SIZE: usize = LINE_COUNT + OBJECT_MAP_SIZE;

/// The capacity of a block is reduced by the total metadata size.
pub const BLOCK_CAPACITY: usize = BLOCK_SIZE - METADATA_SIZE;

/// The first line-mark offset into the block.
pub const LINE_MARK_START: usize = BLOCK_CAPACITY;

/// Object map starts right after line marks
pub const OBJECT_MAP_START: usize = LINE_MARK_START + LINE_COUNT;

/// Actual number of object map slots based on final capacity
pub const OBJECT_MAP_SLOTS: usize = BLOCK_CAPACITY / ALLOC_ALIGN_BYTES;

/// Upper extent (exclusive) of the offsets at which objects may live.
pub const ALLOC_UPPER_EXTENT: usize = BLOCK_CAPACITY;

/// How many empty blocks block management keeps in reserve.
pub const BLOCKS_KEEP_EMPTY_COUNT: usize = 4;

// Object size ranges
pub const MAX_ALLOC_SIZE: usize = 4294967295;

pub const SMALL_OBJECT_MIN: usize = 1;

pub const SMALL_OBJECT_MAX: usize = LINE_SIZE;

pub const MEDIUM_OBJECT_MIN: usize = SMALL_OBJECT_MAX + 1;

pub const MEDIUM_OBJECT_MAX: usize = BLOCK_CAPACITY;

pub const LARGE_OBJECT_MIN: usize = MEDIUM_OBJECT_MAX + 1;

pub const LARGE_OBJECT_MAX: usize = MAX_ALLOC_SIZE;

} // verus!
