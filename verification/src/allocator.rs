//! Allocation error types, object size classes, mark states and the traits
//! that a heap and its object headers implement.
use vstd::prelude::*;

use crate::rawptr::RawPtr;

use crate::constants::{
    ALLOC_ALIGN_BYTES, BLOCK_CAPACITY, LINE_SIZE, LARGE_OBJECT_MAX, LARGE_OBJECT_MIN, MEDIUM_OBJECT_MAX, MEDIUM_OBJECT_MIN, SMALL_OBJECT_MAX,
    SMALL_OBJECT_MIN,
};

verus! {

/// An allocation error type
#[derive(Copy, Clone, Debug, PartialEq, Eq, Structural)]
pub enum AllocError {
    /// Some attribute of the allocation, most likely the size requested,
    /// could not be fulfilled
    BadRequest,
    /// Out of memory - allocating the space failed
    OOM,
}

/// A garbage collection error type. Collection currently never fails, so no
/// value of this type is ever produced by the library.
#[derive(Copy, Clone, Debug, PartialEq, Eq, Structural)]
pub struct GcError {}

/// Object size class.
/// - Small objects fit inside a line
/// - Medium objects span more than one line
/// - Large objects span multiple blocks
#[derive(Copy, Clone, Debug, PartialEq, Eq, Structural)]
pub enum SizeClass {
    Small,
    Medium,
    Large,
}

/// The size class that a total allocation size falls into, if any.
pub open spec fn size_class_of(object_size: int) -> Option<SizeClass> {
    if SMALL_OBJECT_MIN <= object_size <= SMALL_OBJECT_MAX {
        Some(SizeClass::Small)
    } else if MEDIUM_OBJECT_MIN <= object_size <= MEDIUM_OBJECT_MAX {
        Some(SizeClass::Medium)
    } else if LARGE_OBJECT_MIN <= object_size <= LARGE_OBJECT_MAX {
        Some(SizeClass::Large)
    } else {
        None
    }
}

/// The size classes partition the sizes by magnitude: up to a line is
/// small, up to a block's capacity is medium, up to the largest allocation
/// is large, and a size of zero or beyond the largest allocation has no
/// class.
pub proof fn lemma_size_class_ranges(n: int)
    ensures
        size_class_of(n) == Some(SizeClass::Small) <==> 1 <= n <= LINE_SIZE,
        size_class_of(n) == Some(SizeClass::Medium) <==> LINE_SIZE < n <= BLOCK_CAPACITY,
        size_class_of(n) == Some(SizeClass::Large) <==> BLOCK_CAPACITY < n <= u32::MAX,
        size_class_of(n) is None <==> (n < 1 || n > u32::MAX),
{
}

/// A larger size never falls into a smaller class.
pub proof fn lemma_size_class_monotone(n: int, m: int)
    requires
        n <= m,
        size_class_of(n) is Some,
        size_class_of(m) is Some,
    ensures
        size_class_of(n) == Some(SizeClass::Large) ==> size_class_of(m) == Some(SizeClass::Large),
        size_class_of(n) == Some(SizeClass::Medium) ==> size_class_of(m) != Some(SizeClass::Small),
{
    lemma_size_class_ranges(n);
    lemma_size_class_ranges(m);
}

impl SizeClass {
    pub fn get_for_size(object_size: usize) -> (r: Result<SizeClass, AllocError>)
        ensures
            match size_class_of(object_size as int) {
                Some(c) => r == Ok::<SizeClass, AllocError>(c),
                None => r == Err::<SizeClass, AllocError>(AllocError::BadRequest),
            },
    {
        if SMALL_OBJECT_MIN <= object_size && object_size <= SMALL_OBJECT_MAX {
            Ok(SizeClass::Small)
        } else if MEDIUM_OBJECT_MIN <= object_size && object_size <= MEDIUM_OBJECT_MAX {
            Ok(SizeClass::Medium)
        } else if LARGE_OBJECT_MIN <= object_size && object_size <= LARGE_OBJECT_MAX {
            Ok(SizeClass::Large)
        } else {
            Err(AllocError::BadRequest)
        }
    }
}

/// The type that describes the bounds of array sizing
pub type ArraySize = u32;

/// Object mark state. Every object is `Allocated` on creation.
#[derive(Copy, Clone, Debug, PartialEq, Eq, Structural)]
pub enum Mark {
    Allocated,
    Unmarked,
    Marked,
}

/// A managed-type type-identifier type should implement this!
pub trait AllocTypeId: Copy + Clone {

}

/// All managed object types must implement this trait in order to be
/// allocatable
pub trait AllocObject<T: AllocTypeId> {
    const TYPE_ID: T;
}

/// `size` rounded up to the allocation alignment.
pub open spec fn align_up(size: int) -> int {
    (size + ALLOC_ALIGN_BYTES - 1) / ALLOC_ALIGN_BYTES as int * ALLOC_ALIGN_BYTES
}

/// The size of a header of type `H`, padded to the allocation alignment so
/// that the object after it stays aligned.
pub open spec fn padded_header_size_spec<H>() -> int {
    align_up(vstd::layout::size_of::<H>() as int)
}

/// The size of a header of type `H`, to the next allocator-aligned number of
/// bytes.
pub fn padded_header_size<H>() -> (n: usize)
    ensures
        n == padded_header_size_spec::<H>(),
        n % ALLOC_ALIGN_BYTES == 0,
        n >= vstd::layout::size_of::<H>(),
{
    vstd::layout::layout_for_type_is_valid::<H>();
    let s = core::mem::size_of::<H>();
    let t = s + (ALLOC_ALIGN_BYTES - 1);
    assert(t & !15usize == t - t % 16) by (bit_vector);
    t & !(ALLOC_ALIGN_BYTES - 1)
}

/// An object header type must provide an implementation of this trait,
/// providing appropriate information to the garbage collector.
pub trait AllocHeader: Sized {
    /// Associated type that identifies the allocated object type
    type TypeId: AllocTypeId;

    /// Create a new header for object type O
    fn new<O: AllocObject<Self::TypeId>>(size: u32, size_class: SizeClass, mark: Mark) -> Self;

    /// Create a new header for an array type
    fn new_array(size: ArraySize, size_class: SizeClass, mark: Mark) -> Self;

    /// Set the Mark value
    fn mark(&mut self, value: Mark);

    /// Get the current Mark value
    fn mark_is(&self, value: Mark) -> bool;

    /// Get the size class of the object
    fn size_class(&self) -> SizeClass;

    /// Get the size of the object in bytes
    fn size(&self) -> u32;

    /// Get the type of the object
    fn type_id(&self) -> Self::TypeId;

    /// Get the header size, to the next allocator-aligned number of bytes
    fn header_size() -> (n: usize)
        default_ensures
            n == padded_header_size_spec::<Self>(),
            n % ALLOC_ALIGN_BYTES == 0,
            n >= vstd::layout::size_of::<Self>(),
    {
        padded_header_size::<Self>()
    }

    /// Trace into this object. The default behavior is to do nothing.
    /// This is appropriate for objects that do not refer to other objects.
    fn trace(&self) {
    }

    /// This constant needs to be set to be able to mask out tagged pointer
    /// tag bits
    const TAG_MASK: usize = !0x0;
}

/// A visitor that collects object pointers during tracing.
pub trait TraceVisitor {
    fn visit(&mut self, object: RawPtr<()>);

    fn pop(&mut self) -> Option<RawPtr<()>>;
}

/// A type that describes allocation of an object into a heap space,
/// returning a bare pointer type on success
pub trait AllocRaw {
    /// An implementation of an object header type
    type Header: AllocHeader;

    /// Allocate a single object of type T.
    fn allocate<T>(&self, object: T) -> Result<RawPtr<T>, AllocError> where
        T: AllocObject<<Self::Header as AllocHeader>::TypeId>,
    ;

    /// Allocate an array of `size_bytes` bytes; the caller is responsible for
    /// its content.
    fn alloc_array(&self, size_bytes: ArraySize) -> Result<RawPtr<u8>, AllocError>;

    /// Given a bare pointer to an object, return the expected header address
    fn get_header(object: RawPtr<()>) -> RawPtr<Self::Header>;

    /// Given a bare pointer to an object's header, return the expected object
    /// address
    fn get_object(header: RawPtr<Self::Header>) -> RawPtr<()>;

    /// Run a garbage collection iteration
    fn gc(&self) -> Result<(), GcError>;
}

} // verus!
