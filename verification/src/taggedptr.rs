//! A runtime-typed pointer word: the low two bits tag what the word holds
//! (a symbol, pair or object address, or an inline number) and the all-zero
//! word is nil.
use vstd::prelude::*;

use crate::pointerops::{PTR_MASK, TAG_NUMBER, TAG_OBJECT, TAG_PAIR, TAG_SYMBOL};

verus! {

/// The word that holds the inline number `value`.
pub open spec fn number_word(value: isize) -> usize {
    ((value as usize) << 2usize) | 3usize
}

/// The number held inline in a number-tagged word.
pub open spec fn word_number(word: usize) -> isize {
    (word as isize) >> 2isize
}

/// A tagged pointer word.
#[derive(Copy, Clone)]
pub struct TaggedPtr {
    tag: usize,
}

/// What a tagged pointer word denotes.
#[derive(Copy, Clone, Debug, PartialEq, Eq, Structural)]
pub enum Value {
    Nil,
    Number(isize),
    Symbol(usize),
    Pair(usize),
    Object(usize),
}

/// The value a tagged word denotes.
pub open spec fn value_of_word(word: usize) -> Value {
    if word == 0 {
        Value::Nil
    } else if word % 4 == TAG_NUMBER {
        Value::Number(word_number(word))
    } else if word % 4 == TAG_SYMBOL {
        Value::Symbol(word & PTR_MASK)
    } else if word % 4 == TAG_PAIR {
        Value::Pair(word & PTR_MASK)
    } else {
        Value::Object(word & PTR_MASK)
    }
}

impl TaggedPtr {
    /// The tagged machine word.
    pub closed spec fn word(&self) -> usize {
        self.tag
    }

    /// The tagged pointer holding `word`.
    pub closed spec fn from_word_spec(word: usize) -> TaggedPtr {
        TaggedPtr { tag: word }
    }

    /// A tagged pointer is determined by its word.
    pub proof fn lemma_word_determines(p: TaggedPtr)
        ensures
            p == TaggedPtr::from_word_spec(p.word()),
    {
    }

    /// The nil pointer.
    pub fn nil() -> (p: TaggedPtr)
        ensures
            p.word() == 0,
    {
        TaggedPtr { tag: 0 }
    }

    /// An inline number.
    pub fn number(value: isize) -> (p: TaggedPtr)
        ensures
            p.word() == number_word(value),
    {
        TaggedPtr { tag: ((value as usize) << 2usize) | TAG_NUMBER }
    }

    /// A tagged word as it stands.
    pub fn from_word(word: usize) -> (p: TaggedPtr)
        ensures
            p.word() == word,
            p == TaggedPtr::from_word_spec(word),
    {
        TaggedPtr { tag: word }
    }

    /// Return true if the pointer is nil
    pub fn is_nil(&self) -> (r: bool)
        ensures
            r == (self.word() == 0),
    {
        self.tag == 0
    }

    /// The value this word denotes.
    pub fn value(&self) -> (v: Value)
        ensures
            v == value_of_word(self.word()),
    {
        let w = self.tag;
        assert(w & 3usize == w % 4) by (bit_vector);
        if w == 0 {
            Value::Nil
        } else if w & 3 == TAG_NUMBER {
            Value::Number((w as isize) >> 2isize)
        } else if w & 3 == TAG_SYMBOL {
            Value::Symbol(w & PTR_MASK)
        } else if w & 3 == TAG_PAIR {
            Value::Pair(w & PTR_MASK)
        } else {
            Value::Object(w & PTR_MASK)
        }
    }
}

impl PartialEq for TaggedPtr {
    fn eq(&self, other: &TaggedPtr) -> (r: bool) {
        self.tag == other.tag
    }
}

impl vstd::std_specs::cmp::PartialEqSpecImpl for TaggedPtr {
    open spec fn obeys_eq_spec() -> bool {
        true
    }

    open spec fn eq_spec(&self, other: &TaggedPtr) -> bool {
        self.word() == other.word()
    }
}

/// Decoding gives back the address that was tagged: a non-null address with
/// its two low bits clear, tagged as a symbol, a pair or an object, decodes
/// to that kind of value carrying the whole address.
pub proof fn lemma_pointer_round_trip(addr: usize)
    requires
        addr % 4 == 0,
        addr != 0,
    ensures
        value_of_word(addr | TAG_SYMBOL) == Value::Symbol(addr),
        value_of_word(addr | TAG_PAIR) == Value::Pair(addr),
        value_of_word(addr | TAG_OBJECT) == Value::Object(addr),
{
    assert({
        &&& (addr | 0usize) == addr
        &&& (addr | 1usize) % 4 == 1 && (addr | 1usize) & !3usize == addr && (addr | 1usize) != 0
        &&& (addr | 2usize) % 4 == 2 && (addr | 2usize) & !3usize == addr && (addr | 2usize) != 0
        &&& addr & !3usize == addr
    }) by (bit_vector)
        requires
            addr % 4 == 0,
    ;
}

/// A number survives the round trip through its tagged word when it fits in
/// the word's bits above the tag, that is, when shifting it past the tag bits
/// loses nothing.
pub proof fn lemma_number_round_trip(value: isize)
    requires
        (value << 2isize) >> 2isize == value,
    ensures
        number_word(value) % 4 == TAG_NUMBER,
        number_word(value) != 0,
        word_number(number_word(value)) == value,
        value_of_word(number_word(value)) == Value::Number(value),
{
    assert(((((value as usize) << 2usize) | 3usize) as isize) >> 2isize == value
        && (((value as usize) << 2usize) | 3usize) % 4 == 3) by (bit_vector)
        requires
            (value << 2isize) >> 2isize == value,
    ;
}

} // verus!
