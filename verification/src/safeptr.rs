//! Pointer types whose use is limited to a mutator scope.
use std::marker::PhantomData;
use vstd::prelude::*;

use crate::taggedptr::{number_word, value_of_word, TaggedPtr, Value};

verus! {

/// Type that provides a generic anchor for mutator timeslice lifetimes
pub trait MutatorScope {

}

/// An untagged compile-time typed pointer with scope limited by `MutatorScope`
pub struct ScopedPtr<'guard, T> {
    value: &'guard T,
}

impl<'guard, T> ScopedPtr<'guard, T> {
    /// The object pointed at.
    pub closed spec fn target(&self) -> T {
        *self.value
    }

    pub fn new(_guard: &'guard dyn MutatorScope, value: &'guard T) -> (p: ScopedPtr<'guard, T>)
        ensures
            p.target() == *value,
    {
        ScopedPtr { value }
    }

    /// A reference to the object pointed at, valid for the scope.
    pub fn as_ref(&self) -> (r: &'guard T)
        ensures
            *r == self.target(),
    {
        self.value
    }
}

/// Anything that _has_ a scope lifetime can pass as a scope representation
impl<T> MutatorScope for ScopedPtr<'_, T> {

}

impl<'guard, T> Clone for ScopedPtr<'guard, T> {
    fn clone(&self) -> (p: ScopedPtr<'guard, T>)
        ensures
            p.target() == self.target(),
    {
        ScopedPtr { value: self.value }
    }
}

impl<T> Copy for ScopedPtr<'_, T> {

}

pub trait AsScopedPtr<T> {
    fn scoped_ptr<'scope>(&self, guard: &'scope dyn MutatorScope) -> ScopedPtr<'scope, T>;
}

/// A _tagged_ runtime typed pointer with scope limited by `MutatorScope`,
/// together with the `Value` it denotes.
#[derive(Copy, Clone)]
pub struct TaggedScopedPtr<'guard> {
    ptr: TaggedPtr,
    value: Value,
    _scope: PhantomData<&'guard ()>,
}

impl<'guard> TaggedScopedPtr<'guard> {
    /// The tagged word.
    pub closed spec fn word(&self) -> usize {
        self.ptr.word()
    }

    /// The value carried.
    pub closed spec fn value_spec(&self) -> Value {
        self.value
    }

    /// A scoped pointer carries the value its word denotes.
    pub open spec fn wf(&self) -> bool {
        self.value_spec() == value_of_word(self.word())
    }

    pub fn new(_guard: &'guard dyn MutatorScope, ptr: TaggedPtr) -> (p: TaggedScopedPtr<'guard>)
        ensures
            p.word() == ptr.word(),
            p.wf(),
    {
        TaggedScopedPtr { ptr, value: ptr.value(), _scope: PhantomData }
    }

    pub fn number(guard: &'guard dyn MutatorScope, num: isize) -> (p: TaggedScopedPtr<'guard>)
        ensures
            p.word() == number_word(num),
            p.wf(),
    {
        let ptr_val = TaggedPtr::number(num);
        TaggedScopedPtr { ptr: ptr_val, value: ptr_val.value(), _scope: PhantomData }
    }

    pub fn nil(guard: &'guard dyn MutatorScope) -> (p: TaggedScopedPtr<'guard>)
        ensures
            p.word() == 0,
            p.value_spec() == Value::Nil,
            p.wf(),
    {
        let ptr_val = TaggedPtr::nil();
        TaggedScopedPtr { ptr: ptr_val, value: Value::Nil, _scope: PhantomData }
    }

    pub fn value(&self) -> (v: Value)
        ensures
            v == self.value_spec(),
    {
        self.value
    }

    /// The tagged pointer word.
    pub fn get_ptr(&self) -> (p: TaggedPtr)
        ensures
            p.word() == self.word(),
    {
        self.ptr
    }
}

impl MutatorScope for TaggedScopedPtr<'_> {

}

impl<'guard> PartialEq for TaggedScopedPtr<'guard> {
    fn eq(&self, rhs: &TaggedScopedPtr<'guard>) -> (r: bool) {
        self.ptr == rhs.ptr
    }
}

impl<'guard> vstd::std_specs::cmp::PartialEqSpecImpl for TaggedScopedPtr<'guard> {
    open spec fn obeys_eq_spec() -> bool {
        true
    }

    open spec fn eq_spec(&self, other: &TaggedScopedPtr<'guard>) -> bool {
        self.word() == other.word()
    }
}

/// A holder of a `TaggedPtr` in a data structure, which can be updated to
/// point at different target objects.
pub struct TaggedCellPtr {
    inner: TaggedPtr,
}

impl Clone for TaggedCellPtr {
    fn clone(&self) -> (c: TaggedCellPtr)
        ensures
            c.word() == self.word(),
    {
        TaggedCellPtr { inner: self.inner }
    }
}

impl TaggedCellPtr {
    /// The tagged word held.
    pub closed spec fn word(&self) -> usize {
        self.inner.word()
    }

    /// The cell holding `word`.
    pub closed spec fn holding(word: usize) -> TaggedCellPtr {
        TaggedCellPtr { inner: TaggedPtr::from_word_spec(word) }
    }

    /// Construct a new Nil TaggedCellPtr instance
    pub fn new_nil() -> (c: TaggedCellPtr)
        ensures
            c.word() == 0,
    {
        TaggedCellPtr { inner: TaggedPtr::nil() }
    }

    /// Construct a new TaggedCellPtr from a TaggedScopedPtr
    pub fn new_with(source: TaggedScopedPtr) -> (c: TaggedCellPtr)
        ensures
            c.word() == source.word(),
            c == TaggedCellPtr::holding(source.word()),
    {
        proof {
            TaggedPtr::lemma_word_determines(source.ptr);
        }
        TaggedCellPtr { inner: source.ptr }
    }

    /// Construct a new TaggedCellPtr from another
    pub fn new_copy(source: &TaggedCellPtr) -> (c: TaggedCellPtr)
        ensures
            c.word() == source.word(),
    {
        TaggedCellPtr { inner: source.inner }
    }

    /// Return the pointer as a `TaggedScopedPtr` that carries a copy of the
    /// `TaggedPtr` and the `Value` it denotes
    pub fn get<'guard>(&self, guard: &'guard dyn MutatorScope) -> (p: TaggedScopedPtr<'guard>)
        ensures
            p.word() == self.word(),
            p.wf(),
    {
        TaggedScopedPtr::new(guard, self.inner)
    }

    /// Set this pointer to point at the same object as a given
    /// `TaggedScopedPtr` instance
    pub fn set(&mut self, source: TaggedScopedPtr)
        ensures
            final(self).word() == source.word(),
    {
        self.inner = source.ptr;
    }

    /// Take the pointer of another `TaggedCellPtr` and set this instance to
    /// point at that object too
    pub fn copy_from(&mut self, _guard: &dyn MutatorScope, src: &TaggedCellPtr)
        ensures
            final(self).word() == src.word(),
    {
        self.inner = src.inner;
    }

    /// Set another instance to hold the same pointer as this instance
    pub fn copy_into(&self, _guard: &dyn MutatorScope, dest: &mut TaggedCellPtr)
        ensures
            final(dest).word() == self.word(),
    {
        dest.inner = self.inner;
    }

    /// Return true if the pointer is nil
    pub fn is_nil(&self) -> (r: bool)
        ensures
            r == (self.word() == 0),
    {
        self.inner.is_nil()
    }

    /// Set this pointer to nil
    pub fn set_to_nil(&mut self)
        ensures
            final(self).word() == 0,
    {
        self.inner = TaggedPtr::nil();
    }

    /// Set this pointer to another TaggedPtr
    pub fn set_to_ptr(&mut self, _guard: &dyn MutatorScope, ptr: TaggedPtr)
        ensures
            final(self).word() == ptr.word(),
    {
        self.inner = ptr;
    }

    /// Return the raw TaggedPtr from within
    pub fn get_ptr(&self, _guard: &dyn MutatorScope) -> (p: TaggedPtr)
        ensures
            p.word() == self.word(),
    {
        self.inner
    }
}

impl<'guard> vstd::std_specs::convert::FromSpecImpl<TaggedScopedPtr<'guard>> for TaggedCellPtr {
    open spec fn obeys_from_spec() -> bool {
        true
    }

    open spec fn from_spec(v: TaggedScopedPtr<'guard>) -> TaggedCellPtr {
        TaggedCellPtr::holding(v.word())
    }
}

impl<'guard> From<TaggedScopedPtr<'guard>> for TaggedCellPtr {
    fn from(ptr: TaggedScopedPtr<'guard>) -> (c: TaggedCellPtr)
        ensures
            c.word() == ptr.word(),
    {
        TaggedCellPtr::new_with(ptr)
    }
}

} // verus!
