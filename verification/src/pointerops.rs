//! Miscellaneous pointer operations: tagging the low bits of an address.
use vstd::prelude::*;

use crate::rawptr::RawPtr;
use crate::safeptr::MutatorScope;

verus! {

// Pointer tag values and masks using the lowest 2 bits
pub const TAG_MASK: usize = 0x3;

pub const TAG_SYMBOL: usize = 0x0;

pub const TAG_PAIR: usize = 0x1;

pub const TAG_OBJECT: usize = 0x2;

pub const TAG_NUMBER: usize = 0x3;

pub const PTR_MASK: usize = !0x3;

/// Return the tag from the given word
pub fn get_tag(tagged_word: usize) -> (t: usize)
    ensures
        t == tagged_word % 4,
        t < 4,
{
    assert(tagged_word & 3usize == tagged_word % 4) by (bit_vector);
    tagged_word & TAG_MASK
}

/// Pointer tagging operations on RawPtr<T>
pub trait Tagged<T>: Sized {
    fn tag(self, tag: usize) -> RawPtr<T>;

    /// The untagged address must not be null.
    fn untag(from: RawPtr<T>) -> RawPtr<T>
        requires
            from.addr_spec() & PTR_MASK != 0,
    ;
}

impl<T> Tagged<T> for RawPtr<T> {
    /// The address with the tag bits or'ed in.
    fn tag(self, tag: usize) -> (p: RawPtr<T>)
        ensures
            p.addr_spec() == self.addr_spec() | tag,
    {
        let a = self.addr();
        assert(a != 0usize ==> a | tag != 0usize) by (bit_vector);
        RawPtr::new(a | tag)
    }

    /// The address with the tag bits cleared. The untagged address must not
    /// be null.
    fn untag(from: RawPtr<T>) -> (p: RawPtr<T>)
        ensures
            p.addr_spec() == from.addr_spec() & PTR_MASK,
    {
        RawPtr::new(from.addr() & PTR_MASK)
    }
}

/// For accessing a pointer target, given a lifetime
pub trait AsScopedRef<T> {
    fn scoped_ref<'scope>(&self, guard: &'scope dyn MutatorScope) -> &'scope T;
}

/// For accessing raw pointer values
pub trait DebugPtr {
    fn addr(&self) -> usize;
}

/// Tagging an address whose low two bits are clear with a tag below 4 and
/// then untagging it gives the address back, and the tag can be read back
/// from the tagged word.
pub proof fn lemma_tag_untag(addr: usize, tag: usize)
    requires
        addr % 4 == 0,
        tag < 4,
    ensures
        (addr | tag) & PTR_MASK == addr,
        (addr | tag) % 4 == tag,
{
    assert((addr | tag) & !3usize == addr && (addr | tag) % 4 == tag) by (bit_vector)
        requires
            addr % 4 == 0,
            tag < 4,
    ;
}

} // verus!
