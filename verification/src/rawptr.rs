//! A container for a bare pointer to an object of type `T`, held as its
//! address. At this level, compile-time type information is still part of
//! the type.
use std::marker::PhantomData;
use vstd::prelude::*;

verus! {

/// A non-null address of an object of type `T`.
pub struct RawPtr<T> {
    addr: usize,
    _marker: PhantomData<T>,
}

impl<T> RawPtr<T> {
    /// The address held.
    pub closed spec fn addr_spec(&self) -> usize {
        self.addr
    }

    /// Create a new RawPtr from an address. The address must not be null.
    pub fn new(addr: usize) -> (p: RawPtr<T>)
        requires
            addr != 0,
        ensures
            p.addr_spec() == addr,
    {
        RawPtr { addr, _marker: PhantomData }
    }

    /// Get the pointer value as a word-sized integer
    pub fn addr(self) -> (a: usize)
        ensures
            a == self.addr_spec(),
            a != 0,
    {
        proof {
            use_type_invariant(&self);
        }
        self.addr
    }

    /// Get the pointer as a null-type value
    pub fn as_untyped(self) -> (p: RawPtr<()>)
        ensures
            p.addr_spec() == self.addr_spec(),
    {
        proof {
            use_type_invariant(&self);
        }
        RawPtr { addr: self.addr, _marker: PhantomData }
    }

    /// Cast the pointer to a different type
    pub fn cast<U>(self) -> (p: RawPtr<U>)
        ensures
            p.addr_spec() == self.addr_spec(),
    {
        proof {
            use_type_invariant(&self);
        }
        RawPtr { addr: self.addr, _marker: PhantomData }
    }

    #[verifier::type_invariant]
    spec fn non_null(self) -> bool {
        self.addr != 0
    }
}

impl<T> Clone for RawPtr<T> {
    fn clone(&self) -> (p: RawPtr<T>)
        ensures
            p.addr_spec() == self.addr_spec(),
    {
        proof {
            use_type_invariant(self);
        }
        RawPtr { addr: self.addr, _marker: PhantomData }
    }
}

impl<T> Copy for RawPtr<T> {

}

impl<T> PartialEq for RawPtr<T> {
    fn eq(&self, other: &RawPtr<T>) -> (r: bool) {
        self.addr == other.addr
    }
}

impl<T> vstd::std_specs::cmp::PartialEqSpecImpl for RawPtr<T> {
    open spec fn obeys_eq_spec() -> bool {
        true
    }

    open spec fn eq_spec(&self, other: &RawPtr<T>) -> bool {
        self.addr_spec() == other.addr_spec()
    }
}

} // verus!
