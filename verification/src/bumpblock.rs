//! Bump allocation into a block: a write cursor that moves downward towards
//! a limit, moving on to the next hole of unmarked lines when the current one
//! is exhausted. A `BumpBlock` does not own its block; it is scaffolding
//! around the block currently being allocated into. Addresses are plain
//! machine words.
use vstd::prelude::*;

use crate::blockmeta::{lemma_hole_is_free, line_marked, lines_required, next_hole, BlockMeta};
use crate::constants::{
    ALLOC_ALIGN_BYTES, ALLOC_ALIGN_MASK, BLOCK_CAPACITY, BLOCK_SIZE, LINE_COUNT, LINE_SIZE,
};

verus! {

/// `x` rounded down to the allocation alignment.
pub open spec fn align_down(x: int) -> int {
    x - x % ALLOC_ALIGN_BYTES as int
}

/// Result of bump-allocating `size` bytes from the hole `[limit, cursor)` of
/// the block at `block`: the address handed out, if any, and the cursor and
/// limit afterwards. The object goes at the top of the current hole, rounded
/// down to the allocation alignment, if it fits there; otherwise, when the
/// block has lines below the hole and a hole big enough is found there, at
/// the top of that hole; otherwise nothing is handed out and the cursor and
/// limit stay.
pub open spec fn bump_alloc(cursor: int, limit: int, block: int, lines: Seq<u8>, size: int) -> (
    Option<int>,
    int,
    int,
) {
    if cursor < size {
        (None, cursor, limit)
    } else if align_down(cursor - size) >= limit {
        (Some(align_down(cursor - size)), align_down(cursor - size), limit)
    } else if limit - block > 0 && next_hole(lines, limit - block, size) is Some {
        let (c, l) = next_hole(lines, limit - block, size).unwrap();
        (Some(align_down(block + c - size)), align_down(block + c - size), block + l)
    } else {
        (None, cursor, limit)
    }
}

/// The search bump allocation makes, hole after hole, as a recursion: the
/// object goes at the top of the current hole, rounded down to the
/// allocation alignment; when it does not fit, the next hole below the
/// current limit is searched for and allocation is retried there.
spec fn bump_search(cursor: int, limit: int, block: int, lines: Seq<u8>, size: int) -> (
    Option<int>,
    int,
    int,
)
    decreases limit - block,
{
    if cursor < size {
        (None, cursor, limit)
    } else {
        let next = align_down(cursor - size);
        if next >= limit {
            (Some(next), next, limit)
        } else if limit - block > 0 {
            match next_hole(lines, limit - block, size) {
                Some((c, l)) => if 0 <= l < limit - block {
                    bump_search(block + c, block + l, block, lines, size)
                } else {
                    (None, cursor, limit)
                },
                None => (None, cursor, limit),
            }
        } else {
            (None, cursor, limit)
        }
    }
}

/// Every line that the hole `[limit, cursor)` of the block at `block`
/// touches is unmarked.
pub open spec fn hole_free(lines: Seq<u8>, block: int, limit: int, cursor: int) -> bool {
    forall|i: int|
        #![trigger line_marked(lines, i)]
        (limit - block) / LINE_SIZE as int <= i && i * LINE_SIZE < cursor - block ==> !line_marked(
            lines,
            i,
        )
}

proof fn lemma_search_free(cursor: int, limit: int, block: int, lines: Seq<u8>, size: int)
    requires
        lines.len() == LINE_COUNT,
        block % ALLOC_ALIGN_BYTES as int == 0,
        block <= limit <= cursor <= block + BLOCK_CAPACITY,
        (limit - block) % LINE_SIZE as int == 0,
        cursor % ALLOC_ALIGN_BYTES as int == 0,
        0 <= size,
        hole_free(lines, block, limit, cursor),
    ensures
        ({
            let (r, c, l) = bump_search(cursor, limit, block, lines, size);
            &&& hole_free(lines, block, l, c)
            &&& r matches Some(p) ==> forall|i: int|
                #![trigger line_marked(lines, i)]
                (p - block) / LINE_SIZE as int <= i && i * LINE_SIZE < p + size - block
                    ==> !line_marked(lines, i)
        }),
    decreases limit - block,
{
    if cursor < size {
    } else {
        let next = align_down(cursor - size);
        if next >= limit {
            assert((next - block) / LINE_SIZE as int >= (limit - block) / LINE_SIZE as int) by {
                assert(next - block >= limit - block);
                assert(LINE_SIZE > 0);
                vstd::arithmetic::div_mod::lemma_div_is_ordered(
                    limit - block,
                    next - block,
                    LINE_SIZE as int,
                );
            }
        } else if limit - block > 0 {
            let rel = limit - block;
            lemma_hole_is_free(lines, rel, size);
            match next_hole(lines, rel, size) {
                Some((c, l)) => {
                    if 0 <= l < rel {
                        assert(hole_free(lines, block, block + l, block + c)) by {
                            assert forall|i: int|
                                #![trigger line_marked(lines, i)]
                                (block + l - block) / LINE_SIZE as int <= i && i * LINE_SIZE
                                    < block + c - block implies !line_marked(lines, i) by {
                                assert(i < c / LINE_SIZE as int);
                            }
                        }
                        assert((block + c) % ALLOC_ALIGN_BYTES as int == 0);
                        lemma_search_free(block + c, block + l, block, lines, size);
                    }
                },
                None => {},
            }
        }
    }
}

proof fn lemma_search_down(cursor: int, limit: int, block: int, lines: Seq<u8>, size: int)
    requires
        lines.len() == LINE_COUNT,
        block <= limit <= cursor <= block + BLOCK_CAPACITY,
        0 <= size,
    ensures
        ({
            let (r, c, l) = bump_search(cursor, limit, block, lines, size);
            &&& block <= c <= cursor
            &&& r matches Some(p) ==> p == c && p + size <= cursor
        }),
    decreases limit - block,
{
    if cursor < size {
    } else {
        let next = align_down(cursor - size);
        if next >= limit {
        } else if limit - block > 0 {
            let rel = limit - block;
            lemma_hole_is_free(lines, rel, size);
            match next_hole(lines, rel, size) {
                Some((c, l)) => {
                    if 0 <= l < rel {
                        assert((rel / LINE_SIZE as int) * LINE_SIZE <= rel) by {
                            vstd::arithmetic::div_mod::lemma_fundamental_div_mod(
                                rel,
                                LINE_SIZE as int,
                            );
                        }
                        lemma_search_down(block + c, block + l, block, lines, size);
                    }
                },
                None => {},
            }
        }
    }
}

/// The search reaches the result stated directly.
#[verifier::rlimit(40)]
proof fn lemma_search_is_direct(cursor: int, limit: int, block: int, lines: Seq<u8>, size: int)
    requires
        lines.len() == LINE_COUNT,
        0 <= block,
        block % ALLOC_ALIGN_BYTES as int == 0,
        block <= limit <= cursor <= block + BLOCK_CAPACITY,
        (limit - block) % LINE_SIZE as int == 0,
        0 <= size,
    ensures
        bump_search(cursor, limit, block, lines, size) == bump_alloc(cursor, limit, block, lines, size),
{
    if cursor >= size && align_down(cursor - size) < limit && limit - block > 0 {
        let rel = limit - block;
        lemma_hole_is_free(lines, rel, size);
        match next_hole(lines, rel, size) {
            Some((c, l)) => {
                assert((rel / LINE_SIZE as int) * LINE_SIZE <= rel) by {
                    vstd::arithmetic::div_mod::lemma_fundamental_div_mod(rel, LINE_SIZE as int);
                }
                assert(lines_required(size) * LINE_SIZE >= size) by {
                    let x = size + LINE_SIZE - 1;
                    assert(x == 128 * (x / 128) + x % 128) by {
                        vstd::arithmetic::div_mod::lemma_fundamental_div_mod(x, 128);
                    }
                    assert(x % 128 < 128) by {
                        vstd::arithmetic::div_mod::lemma_mod_bound(x, 128);
                    }
                    assert(lines_required(size) == x / 128);
                }
                assert(c >= l + lines_required(size) * LINE_SIZE);
                assert((block + l) % ALLOC_ALIGN_BYTES as int == 0);
                assert(block + c >= size);
                let nx = align_down(block + c - size);
                assert(nx >= block + l);
                assert(0 <= l < rel);
                assert(bump_search(block + c, block + l, block, lines, size) == (Some(nx), nx, block + l));
                assert(bump_search(cursor, limit, block, lines, size) == bump_search(
                    block + c,
                    block + l,
                    block,
                    lines,
                    size,
                ));
            },
            None => {},
        }
    }
}

/// Bump allocation never hands out space over a marked line: when the
/// current hole touches only unmarked lines, so do the space handed out and
/// the hole left afterwards. A fresh block starts with a hole over the whole
/// allocation space and no marked line, so every allocation into it, one
/// after another, stays clear of marked lines.
pub proof fn lemma_bump_alloc_free(cursor: int, limit: int, block: int, lines: Seq<u8>, size: int)
    requires
        lines.len() == LINE_COUNT,
        0 <= block,
        block % ALLOC_ALIGN_BYTES as int == 0,
        block <= limit <= cursor <= block + BLOCK_CAPACITY,
        (limit - block) % LINE_SIZE as int == 0,
        cursor % ALLOC_ALIGN_BYTES as int == 0,
        0 <= size,
        hole_free(lines, block, limit, cursor),
    ensures
        ({
            let (r, c, l) = bump_alloc(cursor, limit, block, lines, size);
            &&& hole_free(lines, block, l, c)
            &&& r matches Some(p) ==> forall|i: int|
                #![trigger line_marked(lines, i)]
                (p - block) / LINE_SIZE as int <= i && i * LINE_SIZE < p + size - block
                    ==> !line_marked(lines, i)
        }),
{
    lemma_search_free(cursor, limit, block, lines, size);
    lemma_search_is_direct(cursor, limit, block, lines, size);
}

/// Bump allocation only moves the cursor down, never below the block, and
/// what it hands out lies between the new cursor and the old one.
pub proof fn lemma_bump_alloc_down(cursor: int, limit: int, block: int, lines: Seq<u8>, size: int)
    requires
        lines.len() == LINE_COUNT,
        0 <= block,
        block % ALLOC_ALIGN_BYTES as int == 0,
        block <= limit <= cursor <= block + BLOCK_CAPACITY,
        (limit - block) % LINE_SIZE as int == 0,
        0 <= size,
    ensures
        ({
            let (r, c, l) = bump_alloc(cursor, limit, block, lines, size);
            &&& block <= c <= cursor
            &&& r matches Some(p) ==> p == c && p + size <= cursor
        }),
{
    lemma_search_down(cursor, limit, block, lines, size);
    lemma_search_is_direct(cursor, limit, block, lines, size);
}

proof fn lemma_block_aligned(block: usize)
    requires
        block % BLOCK_SIZE == 0,
    ensures
        block % ALLOC_ALIGN_BYTES == 0,
        (block + BLOCK_CAPACITY) % (ALLOC_ALIGN_BYTES as int) == 0,
{
    assert(block % 32768usize == 0usize ==> block % 16usize == 0usize) by (bit_vector);
    assert((block + BLOCK_CAPACITY) % (ALLOC_ALIGN_BYTES as int) == 0);
}

proof fn lemma_align_mask(x: usize)
    ensures
        x & ALLOC_ALIGN_MASK == x - x % (ALLOC_ALIGN_BYTES as usize),
{
    assert(x & !15usize == x - x % 16usize) by (bit_vector);
}

/// Safe abstraction around allocating into a block: a write cursor and
/// allocation extents.
pub struct BumpBlock {
    pub cursor: usize,
    pub limit: usize,
    pub block: usize,
}

impl BumpBlock {
    /// The cursor and limit delimit a hole inside the block's allocation
    /// space, at line boundaries below and aligned above.
    pub open spec fn wf(&self) -> bool {
        &&& self.block % ALLOC_ALIGN_BYTES == 0
        &&& self.block + BLOCK_SIZE <= usize::MAX + 1
        &&& self.block <= self.limit <= self.cursor <= self.block + BLOCK_CAPACITY
        &&& (self.limit - self.block) % (LINE_SIZE as int) == 0
        &&& self.cursor % ALLOC_ALIGN_BYTES == 0
    }

    /// Start working with a new block, wiping lines and object map clean
    pub fn new(block: usize, meta: &mut BlockMeta) -> (b: BumpBlock)
        requires
            block % BLOCK_SIZE == 0,
            block + BLOCK_SIZE <= usize::MAX + 1,
            old(meta).wf(),
        ensures
            b.wf(),
            b.cursor == block + BLOCK_CAPACITY,
            b.limit == block,
            b.block == block,
            final(meta).wf(),
            final(meta).is_clear(),
            hole_free(final(meta).lines_view(), b.block as int, b.limit as int, b.cursor as int),
    {
        proof {
            lemma_block_aligned(block);
        }
        meta.reset();
        BumpBlock { cursor: block + BLOCK_CAPACITY, limit: block, block: block }
    }

    /// Attach to an existing block, making no modifications
    pub fn attach(block: usize) -> (b: BumpBlock)
        requires
            block % BLOCK_SIZE == 0,
            block + BLOCK_SIZE <= usize::MAX + 1,
        ensures
            b.wf(),
            b.cursor == block + BLOCK_CAPACITY,
            b.limit == block,
            b.block == block,
    {
        proof {
            lemma_block_aligned(block);
        }
        BumpBlock { cursor: block + BLOCK_CAPACITY, limit: block, block: block }
    }

    /// Find a hole of at least the requested size and return Some(address)
    /// of it, or None if this block doesn't have a big enough hole.
    /// Each address handed out lies wholly below the previous cursor, so
    /// successive allocations never overlap.
    #[verifier::spinoff_prover]
    #[verifier::rlimit(40)]
    pub fn inner_alloc(&mut self, meta: &BlockMeta, alloc_size: usize) -> (r: Option<usize>)
        requires
            old(self).wf(),
            meta.wf(),
        ensures
            final(self).wf(),
            final(self).block == old(self).block,
            ({
                let (res, c, l) = bump_alloc(
                    old(self).cursor as int,
                    old(self).limit as int,
                    old(self).block as int,
                    meta.lines_view(),
                    alloc_size as int,
                );
                &&& c == final(self).cursor
                &&& l == final(self).limit
                &&& match r {
                    Some(p) => res == Some(p as int),
                    None => res is None,
                }
            }),
            r matches Some(p) ==> {
                &&& p % ALLOC_ALIGN_BYTES == 0
                &&& p == final(self).cursor
                &&& old(self).block <= p
                &&& p + alloc_size <= old(self).cursor
            },
            // allocation stays clear of marked lines
            hole_free(
                meta.lines_view(),
                old(self).block as int,
                old(self).limit as int,
                old(self).cursor as int,
            ) ==> {
                &&& hole_free(
                    meta.lines_view(),
                    final(self).block as int,
                    final(self).limit as int,
                    final(self).cursor as int,
                )
                &&& r matches Some(p) ==> forall|i: int|
                    #![trigger line_marked(meta.lines_view(), i)]
                    (p - old(self).block) / LINE_SIZE as int <= i && i * LINE_SIZE < p + alloc_size
                        - old(self).block ==> !line_marked(meta.lines_view(), i)
            },
        decreases old(self).limit - old(self).block,
    {
        proof {
            lemma_search_is_direct(
                self.cursor as int,
                self.limit as int,
                self.block as int,
                meta.lines_view(),
                alloc_size as int,
            );
            if hole_free(meta.lines_view(), self.block as int, self.limit as int, self.cursor as int) {
                lemma_bump_alloc_free(
                    self.cursor as int,
                    self.limit as int,
                    self.block as int,
                    meta.lines_view(),
                    alloc_size as int,
                );
            }
        }
        let ptr = self.cursor;
        let limit = self.limit;
        if ptr < alloc_size {
            return None;
        }
        let diff = ptr - alloc_size;
        proof {
            lemma_align_mask(diff);
        }
        let next_ptr = diff & ALLOC_ALIGN_MASK;
        if next_ptr < limit {
            let block_relative_limit = self.limit - self.block;
            if block_relative_limit > 0 {
                proof {
                    lemma_hole_is_free(
                        meta.lines_view(),
                        block_relative_limit as int,
                        alloc_size as int,
                    );
                    // An empty request always fits at an aligned cursor, so a
                    // hole is only searched for requests of at least one byte,
                    // which need at least one line.
                    assert(alloc_size >= 1);
                    assert(lines_required(alloc_size as int) >= 1);
                }
                match meta.find_next_available_hole(block_relative_limit, alloc_size) {
                    Some((cursor, limit)) => {
                        self.cursor = self.block + cursor;
                        self.limit = self.block + limit;
                        proof {
                            lemma_search_is_direct(
                                self.cursor as int,
                                self.limit as int,
                                self.block as int,
                                meta.lines_view(),
                                alloc_size as int,
                            );
                        }
                        return self.inner_alloc(meta, alloc_size);
                    },
                    None => {},
                }
            }
            None
        } else {
            self.cursor = next_ptr;
            Some(self.cursor)
        }
    }

    /// Return the size of the hole we're positioned at
    pub fn current_hole_size(&self) -> (n: usize)
        requires
            self.wf(),
        ensures
            n == self.cursor - self.limit,
    {
        self.cursor - self.limit
    }

    /// Return the block address we're working with
    pub fn block_ptr(&self) -> (b: usize)
        ensures
            b == self.block,
    {
        self.block
    }
}

} // verus!
