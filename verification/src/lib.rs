//! A verified core for a conservative mark-region (Immix style) heap: block
//! layout, line and object-map metadata, hole finding, bump allocation,
//! block management decisions, conservative pointer identification, and the
//! tagged pointer layer used by the interpreter built on top of it.
pub mod constants;
pub mod allocator;
pub mod blockmeta;
pub mod bumpblock;
pub mod ordkeys;
pub mod histogram;
pub mod rawptr;
pub mod pointerops;
pub mod taggedptr;
pub mod safeptr;
pub mod heap;
pub mod trace;
pub mod stack;
pub mod hashable;
pub mod boxheap;
