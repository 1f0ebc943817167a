//! The block list of the heap: the block currently allocated into, the
//! overflow block for medium objects, the reserve of empty blocks, the
//! marking metadata of every block, and the decisions the heap takes on them:
//! where an object goes, which pointers found on the stack are heap objects,
//! what marking an object does to its block, and which blocks are kept or
//! released after a collection.
//!
//! Block memory itself is obtained and released by the caller. Where a
//! decision needs a fresh block, the decision returns `NeedsBlock`, and the
//! caller hands the new block's address to `install_block`.
use std::collections::HashMap;
use vstd::std_specs::iter::IteratorSpec;
use vstd::prelude::*;

use crate::allocator::{
    AllocError, SizeClass, TraceVisitor,
};
use crate::blockmeta::{map_bit, map_bit_count, unmarked_count, BlockMeta};
use crate::bumpblock::{bump_alloc, lemma_bump_alloc_down, BumpBlock};
use crate::constants::{
    ALLOC_ALIGN_BYTES, ALLOC_UPPER_EXTENT, BLOCKS_KEEP_EMPTY_COUNT, BLOCK_CAPACITY, BLOCK_PTR_MASK,
    BLOCK_SIZE, LINE_COUNT, LINE_SIZE,
};
use crate::histogram::{blocks_at, push_block_spec, Histogram, HistogramMap};
use crate::rawptr::RawPtr;

verus! {

broadcast use vstd::std_specs::hash::group_hash_axioms;

/// Return value of finding a space to allocate into
#[derive(Copy, Clone)]
pub struct AllocDest {
    pub block: usize,
    pub space: usize,
}

impl AllocDest {
    pub fn new(block: usize, space: usize) -> (d: AllocDest)
        ensures
            d.block == block,
            d.space == space,
    {
        AllocDest { block, space }
    }
}

/// Which of the heap's current blocks a fresh block is to become.
#[derive(Copy, Clone, Debug, PartialEq, Eq, Structural)]
pub enum BlockNeed {
    /// The block small objects (and medium ones that fit) are bump
    /// allocated into
    Head,
    /// The block medium objects go to when they do not fit the head's hole
    Overflow,
}

/// Outcome of looking for space for an object.
#[derive(Copy, Clone)]
pub enum Placement {
    /// The object goes here
    Placed(AllocDest),
    /// A fresh block is needed; obtain one and call `install_block`
    NeedsBlock(BlockNeed),
}

/// What block management asks of the caller after a collection.
pub struct BlockManagement {
    /// Blocks no longer managed by the heap, whose memory is to be released
    pub released: Vec<usize>,
    /// How many fresh empty blocks to obtain and add with `add_empty_block`
    pub additional: usize,
}

/// A block address: non-null, aligned to the block size, and the whole block
/// within the address space.
pub open spec fn valid_block_addr(a: usize) -> bool {
    &&& a != 0
    &&& a % BLOCK_SIZE == 0
    &&& a + BLOCK_SIZE <= usize::MAX + 1
}

/// The base address of the block an address falls in.
pub open spec fn block_base(ptr: usize) -> usize {
    (ptr - ptr % BLOCK_SIZE) as usize
}

/// The offset of an address within its block.
pub open spec fn block_offset(ptr: usize) -> usize {
    ptr % BLOCK_SIZE
}

proof fn lemma_block_masks(ptr: usize)
    ensures
        ptr & BLOCK_PTR_MASK == block_base(ptr),
        ptr & !BLOCK_PTR_MASK == block_offset(ptr),
        block_offset(ptr) < BLOCK_SIZE,
        block_base(ptr) % BLOCK_SIZE == 0,
{
    assert(ptr & !32767usize == ptr - ptr % 32768usize && ptr & !!32767usize == ptr % 32768usize
        && ((ptr - ptr % 32768usize) as usize) % 32768usize == 0usize) by (bit_vector);
}

/// `ptr` is, by the heap's best-effort estimate, a pointer to an object: its
/// block is a heap block, its offset is inside the allocation space and
/// aligned as object starts are, and the block's object map records an
/// object there.
pub open spec fn conservative_ptr(blocks: Map<usize, BlockMeta>, ptr: usize) -> bool {
    &&& blocks.contains_key(block_base(ptr))
    &&& block_offset(ptr) < ALLOC_UPPER_EXTENT
    &&& block_offset(ptr) % ALLOC_ALIGN_BYTES == 0
    &&& blocks[block_base(ptr)].object_at(block_offset(ptr) as int)
}

/// The bump block after allocating `size` bytes into it.
pub open spec fn bumped(b: BumpBlock, lines: Seq<u8>, size: int) -> BumpBlock {
    let (_, c, l) = bump_alloc(b.cursor as int, b.limit as int, b.block as int, lines, size);
    BumpBlock { cursor: c as usize, limit: l as usize, block: b.block }
}

/// The address bump allocation of `size` bytes into `b` gives, if any.
pub open spec fn bump_result(b: BumpBlock, lines: Seq<u8>, size: int) -> Option<int> {
    bump_alloc(b.cursor as int, b.limit as int, b.block as int, lines, size).0
}

/// `d` is space for `size` bytes in a heap block, aligned, inside the
/// block's allocation space.
pub open spec fn dest_ok(blocks: Map<usize, BlockMeta>, d: AllocDest, size: int) -> bool {
    &&& blocks.contains_key(d.block)
    &&& d.block <= d.space
    &&& d.space + size <= d.block + BLOCK_CAPACITY
    &&& d.space % ALLOC_ALIGN_BYTES == 0
}

/// A bump block positioned on a freshly reset block.
pub open spec fn fresh_bump(b: BumpBlock, block: usize) -> bool {
    &&& b.block == block
    &&& b.cursor == block + BLOCK_CAPACITY
    &&& b.limit == block
}

/// Number of unmarked lines of a heap block.
pub open spec fn holes_of(blocks: Map<usize, BlockMeta>, b: usize) -> usize {
    unmarked_count(blocks[b].lines_view(), LINE_COUNT as int) as usize
}

/// The histogram of the blocks listed in `keys`, filed in that order.
pub open spec fn hist_of(blocks: Map<usize, BlockMeta>, keys: Seq<usize>) -> HistogramMap
    decreases keys.len(),
{
    if keys.len() == 0 {
        Map::empty()
    } else {
        push_block_spec(
            hist_of(blocks, keys.drop_last()),
            holes_of(blocks, keys.last()),
            keys.last(),
        )
    }
}

/// Whether a block has every line unmarked.
pub open spec fn is_empty_block(blocks: Map<usize, BlockMeta>, b: usize) -> bool {
    holes_of(blocks, b) == LINE_COUNT
}

/// The blocks filed as entirely empty are those of `keys` with every line
/// unmarked, in the order filed.
pub proof fn lemma_hist_empty_blocks(blocks: Map<usize, BlockMeta>, keys: Seq<usize>)
    ensures
        blocks_at(hist_of(blocks, keys), LINE_COUNT) == keys.filter(
            |b: usize| is_empty_block(blocks, b),
        ),
    decreases keys.len(),
{
    reveal(Seq::filter);
    if keys.len() > 0 {
        lemma_hist_empty_blocks(blocks, keys.drop_last());
    }
}

/// The outcome of block management once the reserve of empty blocks has
/// been extended to `ext`: surplus empty blocks beyond the number kept are
/// released from the front of the reserve, or the caller is asked for the
/// missing ones; the head and overflow blocks are let go if released.
pub open spec fn managed(
    ext: Seq<usize>,
    old_blocks: Map<usize, BlockMeta>,
    old_head: Option<BumpBlock>,
    old_overflow: Option<BumpBlock>,
    new_empty: Seq<usize>,
    new_blocks: Map<usize, BlockMeta>,
    new_head: Option<BumpBlock>,
    new_overflow: Option<BumpBlock>,
    released: Seq<usize>,
    additional: usize,
) -> bool {
    &&& if ext.len() > BLOCKS_KEEP_EMPTY_COUNT {
        let take = ext.len() - BLOCKS_KEEP_EMPTY_COUNT;
        &&& released == ext.take(take)
        &&& new_empty == ext.skip(take)
        &&& new_blocks == old_blocks.remove_keys(released.to_set())
        &&& additional == 0
    } else {
        &&& released == Seq::<usize>::empty()
        &&& new_empty == ext
        &&& new_blocks == old_blocks
        &&& additional == BLOCKS_KEEP_EMPTY_COUNT - ext.len()
    }
    &&& new_head == match old_head {
        Some(h) => if released.contains(h.block) {
            None
        } else {
            Some(h)
        },
        None => None,
    }
    &&& new_overflow == match old_overflow {
        Some(o) => if released.contains(o.block) {
            None
        } else {
            Some(o)
        },
        None => None,
    }
}

/// Block management keeps the reserve at the number of empty blocks kept:
/// the released blocks and the new reserve together are the extended
/// reserve, in order; a surplus is released from its front, down to the
/// number kept; a shortfall is asked for, up to the number kept.
pub proof fn lemma_managed_keeps_count(
    ext: Seq<usize>,
    old_blocks: Map<usize, BlockMeta>,
    old_head: Option<BumpBlock>,
    old_overflow: Option<BumpBlock>,
    new_empty: Seq<usize>,
    new_blocks: Map<usize, BlockMeta>,
    new_head: Option<BumpBlock>,
    new_overflow: Option<BumpBlock>,
    released: Seq<usize>,
    additional: usize,
)
    requires
        managed(
            ext,
            old_blocks,
            old_head,
            old_overflow,
            new_empty,
            new_blocks,
            new_head,
            new_overflow,
            released,
            additional,
        ),
    ensures
        released + new_empty == ext,
        ext.len() <= BLOCKS_KEEP_EMPTY_COUNT ==> released.len() == 0 && new_empty.len() + additional
            == BLOCKS_KEEP_EMPTY_COUNT,
        ext.len() > BLOCKS_KEEP_EMPTY_COUNT ==> new_empty.len() == BLOCKS_KEEP_EMPTY_COUNT
            && additional == 0,
        forall|b: usize| released.contains(b) ==> !new_blocks.contains_key(b),
{
    if ext.len() > BLOCKS_KEEP_EMPTY_COUNT {
        let take = ext.len() - BLOCKS_KEEP_EMPTY_COUNT;
        assert(ext.take(take) + ext.skip(take) =~= ext);
        assert forall|b: usize| released.contains(b) implies !new_blocks.contains_key(b) by {
            assert(released.to_set().contains(b));
        }
    } else {
        assert(released + new_empty =~= ext);
    }
}

/// Placing a medium object in the overflow block: when the current overflow
/// block, if any, has no hole for it, the last block of the reserve is
/// taken whenever it is a heap block, the object goes at its top, and the
/// reserve loses that block; a fresh block is asked for only when the
/// reserve is empty or its last block is not a heap block.
pub proof fn lemma_overflow_takes_reserve(
    old: BlockState,
    new: BlockState,
    alloc_size: usize,
    r: Placement,
)
    requires
        overflow_outcome(old, new, alloc_size, r),
        alloc_size <= BLOCK_CAPACITY,
        old.overflow() matches Some(o) ==> bump_result(
            o,
            old.blocks()[o.block].lines_view(),
            alloc_size as int,
        ) is None,
    ensures
        old.empty_blocks().len() > 0 && old.blocks().contains_key(old.empty_blocks().last()) ==> {
            let b = old.empty_blocks().last();
            &&& r matches Placement::Placed(d) && d.block == b && d.space == b + BLOCK_CAPACITY
                - alloc_size - (b + BLOCK_CAPACITY - alloc_size) % ALLOC_ALIGN_BYTES as int
            &&& new.empty_blocks() == old.empty_blocks().drop_last()
            &&& new.overflow() matches Some(o) && o.block == b
        },
        r is NeedsBlock <==> (old.empty_blocks().len() == 0 || !old.blocks().contains_key(
            old.empty_blocks().last(),
        )),
        r is NeedsBlock ==> r == Placement::NeedsBlock(BlockNeed::Overflow) && new.blocks()
            == old.blocks() && new.overflow() is None,
{
}

proof fn lemma_drop_last_facts(s: Seq<usize>)
    requires
        s.len() > 0,
        s.no_duplicates(),
    ensures
        s.drop_last().no_duplicates(),
        !s.drop_last().contains(s.last()),
        forall|x: usize| s.drop_last().contains(x) ==> s.contains(x),
{
    assert forall|x: usize| s.drop_last().contains(x) implies s.contains(x) by {
        let i = choose|i: int| 0 <= i < s.drop_last().len() && s.drop_last()[i] == x;
        assert(s[i] == x);
    }
    if s.drop_last().contains(s.last()) {
        let i = choose|i: int| 0 <= i < s.drop_last().len() && s.drop_last()[i] == s.last();
        assert(s[i] == s[s.len() - 1]);
    }
    assert forall|i: int, j: int|
        0 <= i < j < s.drop_last().len() implies s.drop_last()[i] != s.drop_last()[j] by {
        assert(s[i] == s.drop_last()[i] && s[j] == s.drop_last()[j]);
    }
}

proof fn lemma_push_to_set(s: Seq<usize>, x: usize)
    ensures
        s.push(x).to_set() == s.to_set().insert(x),
{
    assert forall|y: usize|
        s.push(x).to_set().contains(y) <==> s.to_set().insert(x).contains(y) by {
        if s.push(x).contains(y) {
            let i = choose|i: int| 0 <= i < s.push(x).len() && s.push(x)[i] == y;
            if i < s.len() {
                assert(s[i] == y);
            }
        }
        if s.contains(y) {
            let i = choose|i: int| 0 <= i < s.len() && s[i] == y;
            assert(s.push(x)[i] == y);
        }
        if y == x {
            assert(s.push(x)[s.len() as int] == x);
        }
    }
    assert(s.push(x).to_set() =~= s.to_set().insert(x));
}

/// Given a pointer to an object, return the address of its header, which
/// sits `header_size` bytes before it (the header type's `header_size`).
pub fn header_of<H>(object: RawPtr<()>, header_size: usize) -> (h: RawPtr<H>)
    requires
        object.addr_spec() > header_size,
    ensures
        h.addr_spec() == object.addr_spec() - header_size,
{
    RawPtr::new(object.addr() - header_size)
}

/// Given a pointer to an object's header, return the object's address,
/// `header_size` bytes after it.
pub fn object_of<H>(header: RawPtr<H>, header_size: usize) -> (o: RawPtr<()>)
    requires
        header.addr_spec() + header_size <= usize::MAX,
    ensures
        o.addr_spec() == header.addr_spec() + header_size,
{
    RawPtr::new(header.addr() + header_size)
}

/// The header of an object and the object of a header are found from each
/// other: going from an object to its header and back gives the object, and
/// the way back is always defined.
pub proof fn lemma_header_object_inverse(object: usize, header_size: usize)
    requires
        object > header_size,
    ensures
        (object - header_size) + header_size <= usize::MAX,
        (object - header_size) + header_size == object,
{
}

/// The base of the block any address falls in.
pub open spec fn base_of(a: int) -> int {
    a - a % BLOCK_SIZE as int
}

/// The addresses inside the heap's blocks.
pub open spec fn covered(bl: BlockState) -> Set<int> {
    Set::new(|a: int| 0 <= a <= usize::MAX && bl.blocks().contains_key(base_of(a) as usize))
}

/// The addresses outside every block of the heap.
pub open spec fn uncovered(bl: BlockState) -> Set<int> {
    Set::new(|a: int| 0 <= a <= usize::MAX && !bl.blocks().contains_key(base_of(a) as usize))
}

/// How high in block `blk` a bump block may still place objects: up to its
/// cursor where it is positioned on that block, nothing otherwise.
pub open spec fn slot_top(slot: Option<BumpBlock>, blk: int) -> int {
    match slot {
        Some(b) => if b.block == blk {
            b.cursor as int
        } else {
            blk
        },
        None => blk,
    }
}

/// How high in block `blk` objects may still be placed: below the cursor of
/// the head or overflow block positioned on it, or anywhere in its allocation
/// space if it is in the reserve.
pub open spec fn top_of(bl: BlockState, blk: int) -> int {
    let h = slot_top(bl.head(), blk);
    let o = slot_top(bl.overflow(), blk);
    let r = if bl.empty_blocks().contains(blk as usize) {
        blk + BLOCK_CAPACITY
    } else {
        blk
    };
    let ho = if h < o {
        o
    } else {
        h
    };
    if ho < r {
        r
    } else {
        ho
    }
}

/// The space that later placements may take.
pub open spec fn free_space(bl: BlockState) -> Set<int> {
    Set::new(
        |a: int|
            0 <= a <= usize::MAX && bl.blocks().contains_key(base_of(a) as usize) && a < top_of(
                bl,
                base_of(a),
            ),
    )
}

/// The addresses `[lo, lo + n)`.
pub open spec fn span(lo: int, n: int) -> Set<int> {
    Set::new(|a: int| lo <= a < lo + n)
}

/// The space a placement of `size` bytes takes, empty if nothing was placed.
pub open spec fn placed_span(r: Placement, size: usize) -> Set<int> {
    match r {
        Placement::Placed(d) => span(d.space as int, size as int),
        Placement::NeedsBlock(_) => Set::empty(),
    }
}

/// The head, overflow and reserve blocks are distinct heap blocks, and the
/// reserve holds each block once.
pub open spec fn blocks_apart(bl: BlockState) -> bool {
    &&& bl.head() is Some && bl.overflow() is Some ==> bl.head().unwrap().block
        != bl.overflow().unwrap().block
    &&& bl.empty_blocks().no_duplicates()
    &&& forall|i: int|
        0 <= i < bl.empty_blocks().len() ==> bl.blocks().contains_key(#[trigger] bl.empty_blocks()[i])
    &&& bl.head() is Some ==> !bl.empty_blocks().contains(bl.head().unwrap().block)
    &&& bl.overflow() is Some ==> !bl.empty_blocks().contains(bl.overflow().unwrap().block)
}

/// One step of the heap between collections: what was placed came out of
/// the free space or out of a block new to the heap, lies in a heap block,
/// and is no longer free; the free space only shrinks, apart from blocks new
/// to the heap; no block leaves the heap.
pub open spec fn placement_step(s: BlockState, s2: BlockState, placed: Set<int>) -> bool {
    &&& placed.subset_of(free_space(s).union(uncovered(s)))
    &&& placed.subset_of(covered(s2))
    &&& placed.disjoint(free_space(s2))
    &&& free_space(s2).subset_of(free_space(s).union(uncovered(s)))
    &&& s.blocks().dom().subset_of(s2.blocks().dom())
}

/// No block leaves the heap, no heap block gains free space, and what was
/// placed lies in a heap block afterwards, at or above the new top of its
/// block and below the old one.
spec fn tops_step(s: BlockState, s2: BlockState, placed: Set<int>) -> bool {
    &&& s.blocks().dom().subset_of(s2.blocks().dom())
    &&& forall|b: usize| #[trigger]
        s.blocks().contains_key(b) ==> top_of(s2, b as int) <= top_of(s, b as int)
    &&& forall|a: int|
        #[trigger] placed.contains(a) ==> {
            &&& 0 <= a <= usize::MAX
            &&& s2.blocks().contains_key(base_of(a) as usize)
            &&& top_of(s2, base_of(a)) <= a
            &&& (a < top_of(s, base_of(a)) || !s.blocks().contains_key(base_of(a) as usize))
        }
}

proof fn lemma_tops_compose(s: BlockState, m: BlockState, s2: BlockState, placed: Set<int>)
    requires
        tops_step(s, m, Set::empty()),
        tops_step(m, s2, placed),
    ensures
        tops_step(s, s2, placed),
{
    assert forall|b: usize| #[trigger]
        s.blocks().contains_key(b) implies top_of(s2, b as int) <= top_of(s, b as int) by {
        assert(m.blocks().contains_key(b));
    }
    assert forall|a: int| #[trigger] placed.contains(a) implies (a < top_of(s, base_of(a))
        || !s.blocks().contains_key(base_of(a) as usize)) by {
        let b = base_of(a) as usize;
        if s.blocks().contains_key(b) {
            assert(m.blocks().contains_key(b));
            assert(top_of(m, b as int) <= top_of(s, b as int));
        }
    }
}

/// A step is a placement step when it meets `tops_step`.
proof fn lemma_step_from_tops(s: BlockState, s2: BlockState, placed: Set<int>)
    requires
        tops_step(s, s2, placed),
    ensures
        placement_step(s, s2, placed),
{
    assert forall|a: int| free_space(s2).contains(a) implies free_space(s).union(uncovered(s)).contains(a) by {
        let b = base_of(a) as usize;
        assert(base_of(a) >= 0);
        if s.blocks().contains_key(b) {
            assert(top_of(s2, b as int) <= top_of(s, b as int));
        }
    }
    assert forall|a: int| placed.contains(a) implies !free_space(s2).contains(a) by {
    }
    assert(placed.disjoint(free_space(s2)));
}

/// Placements made one after another between collections never overlap:
/// given a run of placement steps, any two placements are disjoint.
pub proof fn lemma_placements_disjoint(
    states: Seq<BlockState>,
    placed: Seq<Set<int>>,
    i: int,
    j: int,
)
    requires
        states.len() == placed.len() + 1,
        forall|k: int|
            0 <= k < placed.len() ==> placement_step(states[k], states[k + 1], #[trigger] placed[k]),
        0 <= i < j < placed.len(),
    ensures
        placed[i].disjoint(placed[j]),
{
    lemma_placed_stays_taken(states, placed, i, j);
    assert(placement_step(states[j], states[j + 1], placed[j]));
    assert forall|a: int| placed[i].contains(a) implies !placed[j].contains(a) by {
        assert(covered(states[j]).contains(a));
        assert(!free_space(states[j]).contains(a));
    }
}

/// Once placed, space stays in the heap's blocks and out of the free space.
proof fn lemma_placed_stays_taken(states: Seq<BlockState>, placed: Seq<Set<int>>, i: int, k: int)
    requires
        states.len() == placed.len() + 1,
        forall|k2: int|
            0 <= k2 < placed.len() ==> placement_step(states[k2], states[k2 + 1], #[trigger] placed[k2]),
        0 <= i < k < states.len(),
    ensures
        placed[i].subset_of(covered(states[k])),
        placed[i].disjoint(free_space(states[k])),
    decreases k - i,
{
    assert(placement_step(states[i], states[i + 1], placed[i]));
    if k > i + 1 {
        lemma_placed_stays_taken(states, placed, i, k - 1);
        let s = states[k - 1];
        let s2 = states[k];
        assert(placement_step(s, s2, placed[k - 1]));
        assert forall|a: int| placed[i].contains(a) implies covered(s2).contains(a) && !free_space(
            s2,
        ).contains(a) by {
            assert(covered(s).contains(a));
            assert(s.blocks().dom().contains(base_of(a) as usize));
            if free_space(s2).contains(a) {
                assert(free_space(s).union(uncovered(s)).contains(a));
            }
        }
    }
}

/// What placing a medium object into the overflow block does: the current
/// overflow block is used while the object fits one of its holes; otherwise
/// the last block of the empty reserve becomes the overflow block, if it is
/// still a heap block, and the object goes at its top; otherwise a fresh
/// overflow block is needed. The head block and the histogram are left as
/// they were.
pub open spec fn overflow_outcome(old: BlockState, new: BlockState, alloc_size: usize, r: Placement) -> bool {
    &&& new.head() == old.head()
    &&& new.histogram() == old.histogram()
    &&& new.blocks().dom() == old.blocks().dom()
    &&& match r {
        Placement::Placed(d) => dest_ok(new.blocks(), d, alloc_size as int) && (new.overflow() matches Some(o)
            && o.block == d.block && o.cursor == d.space),
        Placement::NeedsBlock(need) => need == BlockNeed::Overflow && new.overflow() is None,
    }
    &&& old.overflow() matches Some(o) ==> (bump_result(
        o,
        old.blocks()[o.block].lines_view(),
        alloc_size as int,
    ) matches Some(p) ==> {
        &&& r == Placement::Placed(AllocDest { block: o.block, space: p as usize })
        &&& new.overflow() == Some(bumped(o, old.blocks()[o.block].lines_view(), alloc_size as int))
        &&& new.blocks() == old.blocks()
        &&& new.empty_blocks() == old.empty_blocks()
    })
    &&& !(old.overflow() matches Some(o) && bump_result(
        o,
        old.blocks()[o.block].lines_view(),
        alloc_size as int,
    ) is Some) ==> {
        &&& new.empty_blocks() == if old.empty_blocks().len() == 0 {
            old.empty_blocks()
        } else {
            old.empty_blocks().drop_last()
        }
        &&& r is NeedsBlock <==> (old.empty_blocks().len() == 0 || !old.blocks().contains_key(
            old.empty_blocks().last(),
        ))
        &&& r is NeedsBlock ==> new.blocks() == old.blocks()
        &&& r matches Placement::Placed(d) ==> {
            &&& d.block == old.empty_blocks().last()
            &&& d.space == d.block + BLOCK_CAPACITY - alloc_size - (d.block + BLOCK_CAPACITY
                - alloc_size) % ALLOC_ALIGN_BYTES as int
            &&& new.blocks()[d.block].is_clear()
            &&& forall|a: usize|
                a != d.block && old.blocks().contains_key(a) ==> new.blocks()[a] == old.blocks()[a]
        }
    }
}

/// A list of blocks as the current block being allocated into, an overflow
/// block, a reserve of empty blocks, and the metadata of every block
pub struct BlockState {
    head: Option<BumpBlock>,
    overflow: Option<BumpBlock>,
    empty_blocks: Vec<usize>,
    all_blocks: HashMap<usize, BlockMeta>,
    histogram: Histogram,
}

/// Structure for collecting pointers across the heap during tracing
pub struct HeapTracer {
    visited: Vec<RawPtr<()>>,
}

impl HeapTracer {
    /// The addresses collected and not yet taken, oldest first.
    pub closed spec fn pending(&self) -> Seq<usize> {
        self.visited@.map_values(|p: RawPtr<()>| p.addr_spec())
    }

    pub fn new() -> (t: HeapTracer)
        ensures
            t.pending() == Seq::<usize>::empty(),
    {
        let t = HeapTracer { visited: Vec::new() };
        assert(t.pending() =~= Seq::<usize>::empty());
        t
    }
}

impl TraceVisitor for HeapTracer {
    fn visit(&mut self, object: RawPtr<()>)
        ensures
            final(self).pending() == old(self).pending().push(object.addr_spec()),
    {
        self.visited.push(object);
        assert(self.pending() =~= old(self).pending().push(object.addr_spec()));
    }

    fn pop(&mut self) -> (r: Option<RawPtr<()>>)
        ensures
            old(self).pending().len() == 0 ==> r is None && final(self).pending() == old(self).pending(),
            old(self).pending().len() > 0 ==> (r matches Some(p) && p.addr_spec() == old(self).pending().last()
                && final(self).pending() == old(self).pending().drop_last()),
    {
        let r = self.visited.pop();
        assert(self.pending() =~= if old(self).pending().len() == 0 {
            old(self).pending()
        } else {
            old(self).pending().drop_last()
        });
        r
    }
}

impl BlockState {
    /// The block being allocated into.
    pub closed spec fn head(&self) -> Option<BumpBlock> {
        self.head
    }

    /// The overflow block for medium objects.
    pub closed spec fn overflow(&self) -> Option<BumpBlock> {
        self.overflow
    }

    /// The reserve of empty blocks, most recently added last.
    pub closed spec fn empty_blocks(&self) -> Seq<usize> {
        self.empty_blocks@
    }

    /// Every block of the heap with its metadata.
    pub closed spec fn blocks(&self) -> Map<usize, BlockMeta> {
        self.all_blocks@
    }

    /// The hole histogram built by the last block management.
    pub closed spec fn histogram(&self) -> Map<usize, Seq<usize>> {
        self.histogram.view()
    }

    /// Every block has a valid address and metadata; the head and overflow
    /// blocks are heap blocks.
    pub closed spec fn wf(&self) -> bool {
        &&& forall|a: usize| #[trigger]
            self.all_blocks@.contains_key(a) ==> valid_block_addr(a) && self.all_blocks@[a].wf()
        &&& self.head matches Some(h) ==> h.wf() && self.all_blocks@.contains_key(h.block)
        &&& self.overflow matches Some(o) ==> o.wf() && self.all_blocks@.contains_key(o.block)
    }

    pub open spec fn head_ok(&self) -> bool {
        self.head() matches Some(h) ==> h.wf() && self.blocks().contains_key(h.block)
    }

    pub open spec fn overflow_ok(&self) -> bool {
        self.overflow() matches Some(o) ==> o.wf() && self.blocks().contains_key(o.block)
    }

    proof fn lemma_wf(&self)
        requires
            self.wf(),
        ensures
            self.head_ok(),
            self.overflow_ok(),
            forall|a: usize| #[trigger]
                self.blocks().contains_key(a) ==> valid_block_addr(a) && self.blocks()[a].wf(),
    {
    }

    pub(crate) fn new() -> (l: BlockState)
        ensures
            l.wf(),
            l.head() is None,
            l.overflow() is None,
            l.empty_blocks() == Seq::<usize>::empty(),
            l.blocks() == Map::<usize, BlockMeta>::empty(),
            blocks_apart(l),
    {
        BlockState {
            head: None,
            overflow: None,
            empty_blocks: Vec::new(),
            all_blocks: HashMap::new(),
            histogram: Histogram::new(),
        }
    }

    /// Whether `block` is one of the heap's blocks.
    pub(crate) fn contains_block(&self, block: usize) -> (r: bool)
        ensures
            r == self.blocks().contains_key(block),
    {
        self.all_blocks.contains_key(&block)
    }

    /// Take the metadata of a block out of the map, to be put back with
    /// `put_meta`.
    fn take_meta(&mut self, block: usize) -> (m: BlockMeta)
        requires
            old(self).wf(),
            old(self).all_blocks@.contains_key(block),
        ensures
            m == old(self).all_blocks@[block],
            m.wf(),
            final(self).all_blocks@ == old(self).all_blocks@.remove(block),
            final(self).head == old(self).head,
            final(self).overflow == old(self).overflow,
            final(self).empty_blocks == old(self).empty_blocks,
            final(self).histogram == old(self).histogram,
    {
        self.all_blocks.remove(&block).unwrap()
    }

    /// Get an empty block from the reserve, wiping its metadata, or None if
    /// the reserve yields no heap block and a fresh block is needed.
    fn pop_empty_block(&mut self) -> (r: Option<BumpBlock>)
        requires
            old(self).wf(),
        ensures
            final(self).wf(),
            final(self).head == old(self).head,
            final(self).overflow == old(self).overflow,
            final(self).empty_blocks@ == if old(self).empty_blocks@.len() == 0 {
                old(self).empty_blocks@
            } else {
                old(self).empty_blocks@.drop_last()
            },
            match r {
                Some(b) => {
                    &&& old(self).empty_blocks@.len() > 0
                    &&& b.block == old(self).empty_blocks@.last()
                    &&& old(self).all_blocks@.contains_key(b.block)
                    &&& fresh_bump(b, b.block)
                    &&& b.wf()
                    &&& final(self).all_blocks@.dom() == old(self).all_blocks@.dom()
                    &&& final(self).all_blocks@[b.block].is_clear()
                    &&& final(self).all_blocks@[b.block].wf()
                    &&& forall|a: usize|
                        a != b.block && old(self).all_blocks@.contains_key(a)
                            ==> final(self).all_blocks@[a] == old(self).all_blocks@[a]
                },
                None => {
                    &&& old(self).empty_blocks@.len() > 0 ==> !old(self).all_blocks@.contains_key(old(self).empty_blocks@.last())
                    &&& final(self).all_blocks@ == old(self).all_blocks@
                },
            },
            final(self).histogram == old(self).histogram,
    {
        if let Some(block_base) = self.empty_blocks.pop() {
            if self.all_blocks.contains_key(&block_base) {
                let mut meta = self.take_meta(block_base);
                let b = BumpBlock::new(block_base, &mut meta);
                self.all_blocks.insert(block_base, meta);
                proof {
                    assert(self.all_blocks@.dom() =~= old(self).all_blocks@.dom());
                }
                return Some(b);
            }
        }
        None
    }

    /// Bump allocate into a bump block of a heap block.
    fn alloc_in(&self, b: &mut BumpBlock, alloc_size: usize) -> (r: Option<usize>)
        requires
            self.wf(),
            old(b).wf(),
            self.all_blocks@.contains_key(old(b).block),
        ensures
            *final(b) == bumped(*old(b), self.all_blocks@[old(b).block].lines_view(), alloc_size as int),
            final(b).wf(),
            match r {
                Some(p) => bump_result(
                    *old(b),
                    self.all_blocks@[old(b).block].lines_view(),
                    alloc_size as int,
                ) == Some(p as int),
                None => bump_result(
                    *old(b),
                    self.all_blocks@[old(b).block].lines_view(),
                    alloc_size as int,
                ) is None,
            },
            r matches Some(p) ==> p % ALLOC_ALIGN_BYTES == 0 && old(b).block <= p && p + alloc_size
                <= old(b).cursor && p == final(b).cursor,
    {
        let meta = self.all_blocks.get(&b.block).unwrap();
        b.inner_alloc(meta, alloc_size)
    }

    /// Allocate a space for a medium object into the overflow block
    #[verifier::spinoff_prover]
    #[verifier::rlimit(40)]
    pub(crate) fn find_overflow_space(&mut self, alloc_size: usize) -> (r: Placement)
        requires
            old(self).wf(),
            alloc_size <= BLOCK_CAPACITY,
        ensures
            final(self).wf(),
            overflow_outcome(*old(self), *final(self), alloc_size, r),
            blocks_apart(*old(self)) ==> {
                &&& blocks_apart(*final(self))
                &&& placement_step(*old(self), *final(self), placed_span(r, alloc_size))
            },
    {
        proof {
            self.lemma_wf();
        }
        let taken = self.overflow.take();
        let ghost mid = *self;
        proof {
            let s = *old(self);
            assert(self.blocks().dom() =~= s.blocks().dom());
            assert forall|b: usize| #[trigger] s.blocks().contains_key(b) implies top_of(mid, b as int)
                <= top_of(s, b as int) by {
            }
            assert(tops_step(s, mid, Set::empty()));
        }
        let ghost mut via_reserve = true;
        let r = match taken {
            Some(mut overflow) => {
                match self.alloc_in(&mut overflow, alloc_size) {
                    Some(space) => {
                        let dest = AllocDest::new(overflow.block_ptr(), space);
                        self.overflow = Some(overflow);
                        proof {
                            let s = *old(self);
                            let s2 = *self;
                            let o = s.overflow().unwrap();
                            if blocks_apart(s) {
                                assert forall|b: usize| #[trigger] s.blocks().contains_key(b) implies top_of(
                                    s2,
                                    b as int,
                                ) <= top_of(s, b as int) by {
                                }
                                assert(valid_block_addr(o.block));
                                assert forall|a: int| #[trigger]
                                    span(space as int, alloc_size as int).contains(a) implies {
                                    &&& 0 <= a <= usize::MAX
                                    &&& s2.blocks().contains_key(base_of(a) as usize)
                                    &&& top_of(s2, base_of(a)) <= a
                                    &&& (a < top_of(s, base_of(a)) || !s.blocks().contains_key(
                                        base_of(a) as usize,
                                    ))
                                } by {
                                    assert(o.block % BLOCK_SIZE == 0);
                                    assert(o.block <= a < o.block + BLOCK_SIZE);
                                    assert(base_of(a) == o.block);
                                }
                                assert(self.blocks().dom() =~= s.blocks().dom());
                                lemma_step_from_tops(s, s2, span(space as int, alloc_size as int));
                            }
                            via_reserve = false;
                        }
                        Placement::Placed(dest)
                    },
                    None => self.overflow_from_reserve(alloc_size),
                }
            },
            None => self.overflow_from_reserve(alloc_size),
        };
        proof {
            let s = *old(self);
            if blocks_apart(s) && via_reserve {
                assert(blocks_apart(mid));
                lemma_tops_compose(s, mid, *self, placed_span(r, alloc_size));
                lemma_step_from_tops(s, *self, placed_span(r, alloc_size));
            }
        }
        r
    }

    /// Make the last block of the empty reserve the overflow block and
    /// allocate into it.
    fn overflow_from_reserve(&mut self, alloc_size: usize) -> (r: Placement)
        requires
            old(self).wf(),
            old(self).overflow is None,
            alloc_size <= BLOCK_CAPACITY,
        ensures
            final(self).wf(),
            final(self).head == old(self).head,
            final(self).histogram == old(self).histogram,
            final(self).all_blocks@.dom() == old(self).all_blocks@.dom(),
            final(self).empty_blocks@ == if old(self).empty_blocks@.len() == 0 {
                old(self).empty_blocks@
            } else {
                old(self).empty_blocks@.drop_last()
            },
            r is NeedsBlock <==> (old(self).empty_blocks@.len() == 0 || !old(self).all_blocks@.contains_key(old(self).empty_blocks@.last())),
            match r {
                Placement::Placed(d) => {
                    &&& dest_ok(final(self).all_blocks@, d, alloc_size as int)
                    &&& (final(self).overflow matches Some(o) && o.block == d.block && o.cursor
                        == d.space)
                    &&& d.block == old(self).empty_blocks@.last()
                    &&& d.space == d.block + BLOCK_CAPACITY - alloc_size - (d.block
                        + BLOCK_CAPACITY - alloc_size) % ALLOC_ALIGN_BYTES as int
                    &&& final(self).all_blocks@[d.block].is_clear()
                    &&& forall|a: usize|
                        a != d.block && old(self).all_blocks@.contains_key(a)
                            ==> final(self).all_blocks@[a] == old(self).all_blocks@[a]
                },
                Placement::NeedsBlock(need) => need == BlockNeed::Overflow && final(self).overflow is None
                    && final(self).all_blocks@ == old(self).all_blocks@,
            },
            blocks_apart(*old(self)) ==> {
                &&& blocks_apart(*final(self))
                &&& tops_step(*old(self), *final(self), placed_span(r, alloc_size))
            },
    {
        let ghost s = *self;
        proof {
            if blocks_apart(s) && s.empty_blocks().len() > 0 {
                lemma_drop_last_facts(s.empty_blocks());
            }
        }
        match self.pop_empty_block() {
            Some(mut overflow) => {
                proof {
                    self.lemma_fresh_fits(overflow, alloc_size);
                }
                let space = self.alloc_in(&mut overflow, alloc_size);
                let space = space.unwrap();
                let dest = AllocDest::new(overflow.block_ptr(), space);
                self.overflow = Some(overflow);
                proof {
                    let s2 = *self;
                    let rb = overflow.block;
                    if blocks_apart(s) {
                        assert(s.empty_blocks().contains(rb)) by {
                            assert(s.empty_blocks()[s.empty_blocks().len() - 1] == rb);
                        }
                        assert forall|b: usize| #[trigger] s.blocks().contains_key(b) implies top_of(
                            s2,
                            b as int,
                        ) <= top_of(s, b as int) by {
                        }
                        assert(valid_block_addr(rb));
                        assert forall|a: int| #[trigger]
                            span(space as int, alloc_size as int).contains(a) implies {
                            &&& 0 <= a <= usize::MAX
                            &&& s2.blocks().contains_key(base_of(a) as usize)
                            &&& top_of(s2, base_of(a)) <= a
                            &&& (a < top_of(s, base_of(a)) || !s.blocks().contains_key(
                                base_of(a) as usize,
                            ))
                        } by {
                            assert(rb % BLOCK_SIZE == 0);
                            assert(rb <= a < rb + BLOCK_SIZE);
                            assert(base_of(a) == rb);
                        }
                        assert(s2.blocks().dom() =~= s.blocks().dom());
                        assert forall|i: int| 0 <= i < s2.empty_blocks().len() implies s2.blocks().contains_key(
                            #[trigger] s2.empty_blocks()[i],
                        ) by {
                            assert(s2.empty_blocks()[i] == s.empty_blocks()[i]);
                        }
                    }
                }
                Placement::Placed(dest)
            },
            None => {
                proof {
                    let s2 = *self;
                    if blocks_apart(s) {
                        assert forall|b: usize| #[trigger] s.blocks().contains_key(b) implies top_of(
                            s2,
                            b as int,
                        ) <= top_of(s, b as int) by {
                        }
                        assert(placed_span(Placement::NeedsBlock(BlockNeed::Overflow), alloc_size) =~= Set::<int>::empty());
                        assert forall|i: int| 0 <= i < s2.empty_blocks().len() implies s2.blocks().contains_key(
                            #[trigger] s2.empty_blocks()[i],
                        ) by {
                            assert(s2.empty_blocks()[i] == s.empty_blocks()[i]);
                        }
                    }
                }
                Placement::NeedsBlock(BlockNeed::Overflow)
            },
        }
    }

    /// An object of at most a block's capacity fits at the top of a freshly
    /// reset block.
    proof fn lemma_fresh_fits(&self, b: BumpBlock, alloc_size: usize)
        requires
            b.wf(),
            fresh_bump(b, b.block),
            b.block % BLOCK_SIZE == 0,
            alloc_size <= BLOCK_CAPACITY,
        ensures
            forall|lines: Seq<u8>|
                #![trigger bump_result(b, lines, alloc_size as int)]
                bump_result(b, lines, alloc_size as int) == Some(
                    b.block + BLOCK_CAPACITY - alloc_size - (b.block + BLOCK_CAPACITY
                        - alloc_size) % ALLOC_ALIGN_BYTES as int,
                ),
    {
        let x = b.block + BLOCK_CAPACITY - alloc_size;
        assert(b.block % ALLOC_ALIGN_BYTES == 0);
        assert(x - x % (ALLOC_ALIGN_BYTES as int) >= b.block);
    }

    /// Find a space for a small or medium object. Large objects are refused.
    #[verifier::spinoff_prover]
    #[verifier::rlimit(40)]
    pub(crate) fn find_space(&mut self, alloc_size: usize, size_class: SizeClass) -> (r: Result<
        Placement,
        AllocError,
    >)
        requires
            old(self).wf(),
            size_class != SizeClass::Large ==> alloc_size <= BLOCK_CAPACITY,
        ensures
            // what is placed is taken out of the free space
            blocks_apart(*old(self)) ==> {
                &&& blocks_apart(*final(self))
                &&& placement_step(
                    *old(self),
                    *final(self),
                    match r {
                        Ok(p) => placed_span(p, alloc_size),
                        Err(_) => Set::empty(),
                    },
                )
            },
            final(self).wf(),
            final(self).histogram() == old(self).histogram(),
            final(self).blocks().dom() == old(self).blocks().dom(),
            size_class == SizeClass::Large <==> r == Err::<Placement, AllocError>(
                AllocError::BadRequest,
            ),
            size_class == SizeClass::Large ==> *final(self) == *old(self),
            r matches Ok(Placement::Placed(d)) ==> dest_ok(final(self).blocks(), d, alloc_size as int),
            // with no head block yet, a fresh block is needed
            size_class != SizeClass::Large && old(self).head() is None ==> {
                &&& r == Ok::<Placement, AllocError>(Placement::NeedsBlock(BlockNeed::Head))
                &&& *final(self) == *old(self)
            },
            // a medium object that does not fit the head's hole goes to the
            // overflow block, leaving the head as it was
            size_class == SizeClass::Medium ==> (old(self).head() matches Some(h) ==> (alloc_size
                > h.cursor - h.limit ==> (r matches Ok(p) && overflow_outcome(
                *old(self),
                *final(self),
                alloc_size,
                p,
            )))),
            // otherwise the object is bump allocated into the head block,
            // and a fresh head block is needed when that fails
            size_class != SizeClass::Large ==> (old(self).head() matches Some(h) ==> (!(size_class
                == SizeClass::Medium && alloc_size > h.cursor - h.limit) ==> {
                &&& final(self).head() == Some(
                    bumped(h, old(self).blocks()[h.block].lines_view(), alloc_size as int),
                )
                &&& final(self).overflow() == old(self).overflow()
                &&& final(self).empty_blocks() == old(self).empty_blocks()
                &&& final(self).blocks() == old(self).blocks()
                &&& match bump_result(h, old(self).blocks()[h.block].lines_view(), alloc_size as int) {
                    Some(p) => r == Ok::<Placement, AllocError>(
                        Placement::Placed(AllocDest { block: h.block, space: p as usize }),
                    ),
                    None => r == Ok::<Placement, AllocError>(
                        Placement::NeedsBlock(BlockNeed::Head),
                    ),
                }
            })),
    {
        proof {
            self.lemma_wf();
        }
        proof {
            let s = *old(self);
            assert forall|b: usize| #[trigger] s.blocks().contains_key(b) implies top_of(s, b as int)
                <= top_of(s, b as int) by {
            }
            assert(tops_step(s, s, Set::empty()));
            lemma_step_from_tops(s, s, Set::empty());
        }
        if size_class == SizeClass::Large {
            // simply fail for objects larger than the block size
            return Err(AllocError::BadRequest);
        }
        match self.head.take() {
            Some(mut head) => {
                // If this is a medium object that doesn't fit in the hole, use overflow
                if size_class == SizeClass::Medium && alloc_size > head.current_hole_size() {
                    self.head = Some(head);
                    return Ok(self.find_overflow_space(alloc_size));
                }
                let ghost h = head;
                let r = self.alloc_in(&mut head, alloc_size);
                let block = head.block_ptr();
                self.head = Some(head);
                proof {
                    let s = *old(self);
                    let s2 = *self;
                    let lines = s.blocks()[h.block].lines_view();
                    lemma_bump_alloc_down(
                        h.cursor as int,
                        h.limit as int,
                        h.block as int,
                        lines,
                        alloc_size as int,
                    );
                    if blocks_apart(s) {
                        assert forall|b: usize| #[trigger] s.blocks().contains_key(b) implies top_of(
                            s2,
                            b as int,
                        ) <= top_of(s, b as int) by {
                        }
                        let placed = match r {
                            Some(p) => span(p as int, alloc_size as int),
                            None => Set::empty(),
                        };
                        assert(valid_block_addr(h.block));
                        assert forall|a: int| #[trigger] placed.contains(a) implies {
                            &&& 0 <= a <= usize::MAX
                            &&& s2.blocks().contains_key(base_of(a) as usize)
                            &&& top_of(s2, base_of(a)) <= a
                            &&& (a < top_of(s, base_of(a)) || !s.blocks().contains_key(
                                base_of(a) as usize,
                            ))
                        } by {
                            assert(h.block % BLOCK_SIZE == 0);
                            assert(h.block <= a < h.block + BLOCK_SIZE);
                            assert(base_of(a) == h.block);
                        }
                        assert(s2.blocks() == s.blocks());
                        lemma_step_from_tops(s, s2, placed);
                    }
                }
                match r {
                    // the block has a suitable hole
                    Some(space) => Ok(Placement::Placed(AllocDest::new(block, space))),
                    // the block does not have a suitable hole: a new head block is needed
                    None => Ok(Placement::NeedsBlock(BlockNeed::Head)),
                }
            },
            // We have no blocks to work with yet
            None => Ok(Placement::NeedsBlock(BlockNeed::Head)),
        }
    }

    /// Take a freshly obtained block into the heap as the block `need` asks
    /// for, and allocate `alloc_size` bytes at its top.
    pub(crate) fn install_block(&mut self, block: usize, need: BlockNeed, alloc_size: usize) -> (d:
        AllocDest)
        requires
            old(self).wf(),
            valid_block_addr(block),
            alloc_size <= BLOCK_CAPACITY,
        ensures
            final(self).wf(),
            dest_ok(final(self).blocks(), d, alloc_size as int),
            d.block == block,
            d.space == block + BLOCK_CAPACITY - alloc_size - (block + BLOCK_CAPACITY - alloc_size)
                % ALLOC_ALIGN_BYTES as int,
            final(self).blocks().dom() == old(self).blocks().dom().insert(block),
            final(self).blocks()[block].is_clear(),
            forall|a: usize|
                a != block && old(self).blocks().contains_key(a) ==> final(self).blocks()[a] == old(self).blocks()[a],
            final(self).empty_blocks() == old(self).empty_blocks(),
            final(self).histogram() == old(self).histogram(),
            need == BlockNeed::Head ==> {
                &&& (final(self).head() matches Some(h) && h.block == block && h.cursor == d.space
                    && h.limit == block)
                &&& final(self).overflow() == old(self).overflow()
            },
            need == BlockNeed::Overflow ==> {
                &&& (final(self).overflow() matches Some(o) && o.block == block && o.cursor
                    == d.space && o.limit == block)
                &&& final(self).head() == old(self).head()
            },
            // the object goes into a block new to the heap
            blocks_apart(*old(self)) && !old(self).blocks().contains_key(block) ==> {
                &&& blocks_apart(*final(self))
                &&& placement_step(*old(self), *final(self), span(d.space as int, alloc_size as int))
            },
    {
        proof {
            self.lemma_wf();
        }
        let mut meta = BlockMeta::new();
        let mut bump = BumpBlock::new(block, &mut meta);
        self.all_blocks.insert(block, meta);
        proof {
            self.lemma_fresh_fits(bump, alloc_size);
        }
        let space = self.alloc_in(&mut bump, alloc_size);
        let space = space.unwrap();
        match need {
            BlockNeed::Head => {
                self.head = Some(bump);
            },
            BlockNeed::Overflow => {
                self.overflow = Some(bump);
            },
        }
        proof {
            let s = *old(self);
            let s2 = *self;
            if blocks_apart(s) && !s.blocks().contains_key(block) {
                assert(!s.empty_blocks().contains(block)) by {
                    if s.empty_blocks().contains(block) {
                        let i = choose|i: int| 0 <= i < s.empty_blocks().len() && s.empty_blocks()[i] == block;
                        assert(s.blocks().contains_key(s.empty_blocks()[i]));
                    }
                }
                assert forall|b: usize| #[trigger] s.blocks().contains_key(b) implies top_of(s2, b as int)
                    <= top_of(s, b as int) by {
                    assert(b != block);
                }
                assert(top_of(s2, block as int) == space);
                assert forall|a: int| #[trigger]
                    span(space as int, alloc_size as int).contains(a) implies {
                    &&& 0 <= a <= usize::MAX
                    &&& s2.blocks().contains_key(base_of(a) as usize)
                    &&& top_of(s2, base_of(a)) <= a
                    &&& (a < top_of(s, base_of(a)) || !s.blocks().contains_key(base_of(a) as usize))
                } by {
                    assert(block % BLOCK_SIZE == 0);
                    assert(block <= a < block + BLOCK_SIZE);
                    assert(base_of(a) == block);
                }
                lemma_step_from_tops(s, s2, span(space as int, alloc_size as int));
                assert forall|i: int| 0 <= i < s2.empty_blocks().len() implies s2.blocks().contains_key(
                    #[trigger] s2.empty_blocks()[i],
                ) by {
                    assert(s.blocks().contains_key(s.empty_blocks()[i]));
                }
            }
        }
        AllocDest::new(block, space)
    }

    /// Add a freshly obtained block to the reserve of empty blocks.
    pub(crate) fn add_empty_block(&mut self, block: usize)
        requires
            old(self).wf(),
            valid_block_addr(block),
        ensures
            final(self).wf(),
            final(self).blocks().dom() == old(self).blocks().dom().insert(block),
            final(self).blocks()[block].is_clear(),
            forall|a: usize|
                a != block && old(self).blocks().contains_key(a) ==> final(self).blocks()[a] == old(self).blocks()[a],
            final(self).empty_blocks() == old(self).empty_blocks().push(block),
            final(self).head() == old(self).head(),
            final(self).overflow() == old(self).overflow(),
            final(self).histogram() == old(self).histogram(),
            // a block new to the heap adds free space and takes none away
            blocks_apart(*old(self)) && !old(self).blocks().contains_key(block) ==> {
                &&& blocks_apart(*final(self))
                &&& placement_step(*old(self), *final(self), Set::empty())
            },
    {
        let meta = BlockMeta::new();
        self.all_blocks.insert(block, meta);
        self.empty_blocks.push(block);
        proof {
            let s = *old(self);
            let s2 = *self;
            if blocks_apart(s) && !s.blocks().contains_key(block) {
                assert forall|b: usize| #[trigger] s.blocks().contains_key(b) implies top_of(s2, b as int)
                    <= top_of(s, b as int) by {
                    assert(b != block);
                    if s2.empty_blocks().contains(b) {
                        let i = choose|i: int| 0 <= i < s2.empty_blocks().len() && s2.empty_blocks()[i] == b;
                        assert(s.empty_blocks()[i] == b);
                    }
                }
                lemma_step_from_tops(s, s2, Set::empty());
                assert forall|i: int| 0 <= i < s2.empty_blocks().len() implies s2.blocks().contains_key(
                    #[trigger] s2.empty_blocks()[i],
                ) by {
                    if i < s.empty_blocks().len() {
                        assert(s2.empty_blocks()[i] == s.empty_blocks()[i]);
                    }
                }
                assert(!s.empty_blocks().contains(block));
                assert forall|i: int, j: int|
                    0 <= i < j < s2.empty_blocks().len() implies s2.empty_blocks()[i]
                        != s2.empty_blocks()[j] by {
                    if j == s.empty_blocks().len() {
                        assert(s.empty_blocks()[i] == s2.empty_blocks()[i]);
                    } else {
                        assert(s.empty_blocks()[i] == s2.empty_blocks()[i]);
                        assert(s.empty_blocks()[j] == s2.empty_blocks()[j]);
                    }
                }
                assert(s2.head() is Some ==> !s2.empty_blocks().contains(s2.head().unwrap().block)) by {
                    if s2.head() is Some && s2.empty_blocks().contains(s2.head().unwrap().block) {
                        let i = choose|i: int| 0 <= i < s2.empty_blocks().len() && s2.empty_blocks()[i] == s2.head().unwrap().block;
                        if i < s.empty_blocks().len() {
                            assert(s.empty_blocks()[i] == s2.empty_blocks()[i]);
                        }
                    }
                }
                assert(s2.overflow() is Some ==> !s2.empty_blocks().contains(s2.overflow().unwrap().block)) by {
                    if s2.overflow() is Some && s2.empty_blocks().contains(s2.overflow().unwrap().block) {
                        let i = choose|i: int| 0 <= i < s2.empty_blocks().len() && s2.empty_blocks()[i] == s2.overflow().unwrap().block;
                        if i < s.empty_blocks().len() {
                            assert(s.empty_blocks()[i] == s2.empty_blocks()[i]);
                        }
                    }
                }
            }
        }
    }

    /// Record an object written at `dest.space` behind a header of
    /// `header_size` bytes in the block's object map, and return the
    /// object's address.
    pub(crate) fn commit_object(&mut self, dest: AllocDest, header_size: usize) -> (object: usize)
        requires
            old(self).wf(),
            old(self).blocks().contains_key(dest.block),
            dest.block <= dest.space,
            dest.space % ALLOC_ALIGN_BYTES == 0,
            header_size % ALLOC_ALIGN_BYTES == 0,
            dest.space + header_size < dest.block + BLOCK_CAPACITY,
        ensures
            final(self).wf(),
            object == dest.space + header_size,
            conservative_ptr(final(self).blocks(), object),
            final(self).blocks().dom() == old(self).blocks().dom(),
            final(self).blocks()[dest.block].lines_view() == old(self).blocks()[dest.block].lines_view(),
            forall|s: int|
                0 <= s < map_bit_count() ==> map_bit(final(self).blocks()[dest.block].map_view(), s)
                    == (s == (object - dest.block) / ALLOC_ALIGN_BYTES as int || map_bit(
                    old(self).blocks()[dest.block].map_view(),
                    s,
                )),
            forall|a: usize|
                a != dest.block && old(self).blocks().contains_key(a) ==> final(self).blocks()[a]
                    == old(self).blocks()[a],
            final(self).head() == old(self).head(),
            final(self).overflow() == old(self).overflow(),
            final(self).empty_blocks() == old(self).empty_blocks(),
            final(self).histogram() == old(self).histogram(),
            blocks_apart(*old(self)) ==> blocks_apart(*final(self)),
            placement_step(*old(self), *final(self), Set::empty()),
    {
        proof {
            self.lemma_wf();
        }
        let object = dest.space + header_size;
        let object_offset = object - dest.block;
        let mut meta = self.take_meta(dest.block);
        meta.mark_object(object_offset);
        self.all_blocks.insert(dest.block, meta);
        proof {
            assert(object % BLOCK_SIZE == object_offset) by {
                assert(dest.block % BLOCK_SIZE == 0);
                assert(object_offset < BLOCK_SIZE);
            }
            assert(block_base(object) == dest.block);
            assert(block_offset(object) == object_offset);
            assert(object_offset % ALLOC_ALIGN_BYTES == 0) by {
                assert(dest.block % ALLOC_ALIGN_BYTES == 0) by {
                    assert(dest.block % BLOCK_SIZE == 0);
                }
            }
            assert(map_bit_count() > (object_offset / ALLOC_ALIGN_BYTES) as int);
            assert(self.blocks().dom() =~= old(self).blocks().dom());
            lemma_step_from_tops(*old(self), *self, Set::empty());
        }
        object
    }

    /// Using best effort logic, estimate if a word is a valid heap pointer.
    ///
    /// 1. Masking the pointer to get a potential block base, check that the
    ///    base exists in the block list
    /// 2. Masking the pointer to get a potential block offset, check that the
    ///    offset is an aligned object start marked in the block's object map
    pub(crate) fn is_conservatively_a_ptr(&self, ptr: usize) -> (r: Option<usize>)
        requires
            self.wf(),
        ensures
            r == if conservative_ptr(self.blocks(), ptr) {
                Some(ptr)
            } else {
                None::<usize>
            },
    {
        proof {
            self.lemma_wf();
            lemma_block_masks(ptr);
        }
        let block_base = ptr & BLOCK_PTR_MASK;
        match self.all_blocks.get(&block_base) {
            Some(meta) => {
                let block_offset = ptr & !BLOCK_PTR_MASK;
                if block_offset < ALLOC_UPPER_EXTENT && block_offset % ALLOC_ALIGN_BYTES == 0
                    && meta.is_object_marked(block_offset) {
                    return Some(ptr);
                }
                None
            },
            None => None,
        }
    }

    /// Of the words found on the stack, those that are non-null and, with
    /// `tag_mask` applied, are conservatively heap pointers, in stack order.
    pub(crate) fn scan_roots(&self, words: &Vec<usize>, tag_mask: usize) -> (roots: Vec<usize>)
        requires
            self.wf(),
        ensures
            roots@ == words@.filter(|w: usize| w != 0 && conservative_ptr(self.blocks(), w & tag_mask)),
    {
        let ghost pred = |w: usize| w != 0 && conservative_ptr(self.blocks(), w & tag_mask);
        let mut roots: Vec<usize> = Vec::new();
        let mut i: usize = 0;
        while i < words.len()
            invariant
                self.wf(),
                i <= words@.len(),
                pred == (|w: usize| w != 0 && conservative_ptr(self.blocks(), w & tag_mask)),
                roots@ == words@.take(i as int).filter(pred),
            decreases words@.len() - i,
        {
            let w = words[i];
            proof {
                assert(words@.take(i + 1).drop_last() =~= words@.take(i as int));
                reveal(Seq::filter);
            }
            if w != 0 && self.is_conservatively_a_ptr(w & tag_mask).is_some() {
                roots.push(w);
            }
            i = i + 1;
        }
        proof {
            assert(words@.take(words@.len() as int) =~= words@);
        }
        roots
    }

    /// The block-level part of marking an object: mark the line the object
    /// starts in, and the block itself.
    pub(crate) fn mark_object_block(&mut self, ptr: usize)
        requires
            old(self).wf(),
            old(self).blocks().contains_key(block_base(ptr)),
        ensures
            final(self).wf(),
            final(self).blocks().dom() == old(self).blocks().dom(),
            final(self).blocks()[block_base(ptr)].lines_view() == old(self).blocks()[block_base(
                ptr,
            )].lines_view().update((block_offset(ptr) / LINE_SIZE) as int, 1u8).update(
                LINE_COUNT - 1,
                1u8,
            ),
            final(self).blocks()[block_base(ptr)].map_view() == old(self).blocks()[block_base(
                ptr,
            )].map_view(),
            forall|a: usize|
                a != block_base(ptr) && old(self).blocks().contains_key(a) ==> final(self).blocks()[a] == old(self).blocks()[a],
            final(self).head() == old(self).head(),
            final(self).overflow() == old(self).overflow(),
            final(self).empty_blocks() == old(self).empty_blocks(),
            final(self).histogram() == old(self).histogram(),
    {
        proof {
            self.lemma_wf();
            lemma_block_masks(ptr);
        }
        let block_base = ptr & BLOCK_PTR_MASK;
        let mut block_meta = self.take_meta(block_base);
        // mark the line
        let ptr_offset = ptr & !BLOCK_PTR_MASK;
        block_meta.mark_line(ptr_offset / LINE_SIZE);
        // mark the block
        block_meta.mark_block();
        self.all_blocks.insert(block_base, block_meta);
    }

    /// Manage empty blocks after a collection: file every block in the
    /// histogram by its number of unmarked lines, move the entirely empty
    /// ones to the reserve, then release the surplus beyond the number of
    /// empty blocks kept, or ask for the missing ones.
    pub(crate) fn manage_blocks(&mut self) -> (m: BlockManagement)
        requires
            old(self).wf(),
        ensures
            final(self).wf(),
            exists|keys: Seq<usize>|
                {
                    &&& keys.no_duplicates()
                    &&& keys.to_set() == old(self).blocks().dom()
                    &&& final(self).histogram() == hist_of(old(self).blocks(), keys).insert(
                        LINE_COUNT,
                        Seq::empty(),
                    )
                    &&& managed(
                        old(self).empty_blocks() + keys.filter(
                            |b: usize| is_empty_block(old(self).blocks(), b),
                        ),
                        old(self).blocks(),
                        old(self).head(),
                        old(self).overflow(),
                        final(self).empty_blocks(),
                        final(self).blocks(),
                        final(self).head(),
                        final(self).overflow(),
                        m.released@,
                        m.additional,
                    )
                },
    {
        proof {
            self.lemma_wf();
        }
        // generate histogram
        self.histogram.clear();
        let ghost blocks = self.all_blocks@;
        let mut filed: Vec<usize> = Vec::new();
        let ghost ks = vstd::std_specs::hash::spec_keys_iter(&self.all_blocks).remaining().unref();
        proof {
            vstd::std_specs::hash::axiom_spec_keys_iter(&self.all_blocks);
            assert(ks.no_duplicates()) by {
                let r = vstd::std_specs::hash::spec_keys_iter(&self.all_blocks).remaining();
                assert forall|i: int, j: int| 0 <= i < ks.len() && 0 <= j < ks.len() && i != j implies ks[i] != ks[j] by {
                    assert(r[i] != r[j]);
                }
            }
        }
        for block_addr in it: self.all_blocks.keys()
            invariant
                self.all_blocks@ == blocks,
                forall|a: usize| #[trigger]
                    blocks.contains_key(a) ==> valid_block_addr(a) && blocks[a].wf(),
                it.seq().unref() == ks,
                self.head == old(self).head,
                self.overflow == old(self).overflow,
                self.empty_blocks == old(self).empty_blocks,
                ks.to_set() == blocks.dom(),
                ks.no_duplicates(),
                filed@ == ks.take(it.index() as int),
                self.histogram.view() == hist_of(blocks, filed@),
        {
            proof {
                assert(ks.contains(*block_addr)) by {
                    assert(ks[it.index() as int] == *block_addr);
                }
            }
            let ghost before = filed@;
            let meta = self.all_blocks.get(block_addr).unwrap();
            let holes = meta.count_holes();
            self.histogram.push_block(holes, *block_addr);
            filed.push(*block_addr);
            proof {
                assert(filed@.drop_last() =~= before);
            }
        }
        let ghost keys = filed@;
        proof {
            assert(keys =~= ks);
        }
        // move empty blocks to the reserve
        let ghost old_empty = self.empty_blocks@;
        let drained = self.histogram.drain_empty_blocks();
        proof {
            lemma_hist_empty_blocks(blocks, keys);
        }
        let mut i: usize = 0;
        while i < drained.len()
            invariant
                i <= drained@.len(),
                self.empty_blocks@ == old_empty + drained@.take(i as int),
                self.all_blocks@ == blocks,
                self.head == old(self).head,
                self.overflow == old(self).overflow,
                self.histogram.view() == hist_of(blocks, keys).insert(LINE_COUNT, Seq::empty()),
            decreases drained@.len() - i,
        {
            self.empty_blocks.push(drained[i]);
            i = i + 1;
            proof {
                assert(drained@.take(i as int) =~= drained@.take(i - 1).push(drained@[i - 1]));
            }
        }
        let ghost ext = self.empty_blocks@;
        proof {
            assert(drained@.take(drained@.len() as int) =~= drained@);
            assert(ext =~= old_empty + keys.filter(|b: usize| is_empty_block(blocks, b)));
        }
        // check empty block count, release surplus or ask for additional
        let empty_count = self.empty_blocks.len();
        let mut released: Vec<usize> = Vec::new();
        let mut additional: usize = 0;
        if empty_count > BLOCKS_KEEP_EMPTY_COUNT {
            let take = empty_count - BLOCKS_KEEP_EMPTY_COUNT;
            let mut kept = self.empty_blocks.split_off(take);
            std::mem::swap(&mut self.empty_blocks, &mut kept);
            released = kept;
            proof {
                assert(released@.take(0).to_set() =~= Set::<usize>::empty());
                assert(blocks.remove_keys(Set::<usize>::empty()) =~= blocks);
            }
            let mut j: usize = 0;
            while j < released.len()
                invariant
                    j <= released@.len(),
                    released@ == ext.take(take as int),
                    self.all_blocks@ == blocks.remove_keys(released@.take(j as int).to_set()),
                    self.head == old(self).head,
                    self.overflow == old(self).overflow,
                    self.histogram.view() == hist_of(blocks, keys).insert(LINE_COUNT, Seq::empty()),
                    self.empty_blocks@ == ext.skip(take as int),
                decreases released@.len() - j,
            {
                let b = released[j];
                self.all_blocks.remove(&b);
                proof {
                    assert(released@.take(j + 1) =~= released@.take(j as int).push(b));
                    lemma_push_to_set(released@.take(j as int), b);
                    assert(blocks.remove_keys(released@.take(j + 1).to_set()) =~= blocks.remove_keys(
                        released@.take(j as int).to_set(),
                    ).remove(b));
                }
                j = j + 1;
            }
            proof {
                assert(released@.take(released@.len() as int) =~= released@);
            }
        } else if empty_count < BLOCKS_KEEP_EMPTY_COUNT {
            additional = BLOCKS_KEEP_EMPTY_COUNT - empty_count;
        }
        // let go of the head and overflow blocks if they were released
        let mut head = None;
        std::mem::swap(&mut head, &mut self.head);
        if let Some(h) = head {
            if self.all_blocks.contains_key(&h.block) {
                self.head = Some(h);
            }
        }
        let mut overflow = None;
        std::mem::swap(&mut overflow, &mut self.overflow);
        if let Some(o) = overflow {
            if self.all_blocks.contains_key(&o.block) {
                self.overflow = Some(o);
            }
        }
        proof {
            assert(self.empty_blocks@ =~= if ext.len() > BLOCKS_KEEP_EMPTY_COUNT {
                ext.skip(ext.len() - BLOCKS_KEEP_EMPTY_COUNT)
            } else {
                ext
            });
        }
        BlockManagement { released, additional }
    }
}

/// The heap's block list, always well formed.
pub struct BlockList {
    inner: BlockState,
}

impl BlockList {
    #[verifier::type_invariant]
    spec fn well_formed(self) -> bool {
        self.inner.wf()
    }

    /// The state of the block list: its head, overflow and reserve blocks,
    /// the metadata of every block and the histogram.
    pub closed spec fn state(&self) -> BlockState {
        self.inner
    }

    pub fn new() -> (l: BlockList)
        ensures
            l.state().head() is None,
            l.state().overflow() is None,
            l.state().empty_blocks() == Seq::<usize>::empty(),
            l.state().blocks() == Map::<usize, BlockMeta>::empty(),
            blocks_apart(l.state()),
    {
        BlockList { inner: BlockState::new() }
    }

    /// Whether `block` is one of the heap's blocks.
    pub fn contains_block(&self, block: usize) -> (r: bool)
        ensures
            r == self.state().blocks().contains_key(block),
    {
        proof {
            use_type_invariant(self);
        }
        self.inner.contains_block(block)
    }

    /// Allocate a space for a medium object into the overflow block
    pub fn find_overflow_space(&mut self, alloc_size: usize) -> (r: Placement)
        requires
            alloc_size <= BLOCK_CAPACITY,
        ensures
            overflow_outcome(old(self).state(), final(self).state(), alloc_size, r),
            blocks_apart(old(self).state()) ==> {
                &&& blocks_apart(final(self).state())
                &&& placement_step(old(self).state(), final(self).state(), placed_span(r, alloc_size))
            },
    {
        proof {
            use_type_invariant(&*self);
        }
        let mut state = BlockState::new();
        std::mem::swap(&mut state, &mut self.inner);
        let r = state.find_overflow_space(alloc_size);
        self.inner = state;
        r
    }

    /// Find a space for a small or medium object. Large objects are refused.
    pub fn find_space(&mut self, alloc_size: usize, size_class: SizeClass) -> (r: Result<
        Placement,
        AllocError,
    >)
        requires
            size_class != SizeClass::Large ==> alloc_size <= BLOCK_CAPACITY,
        ensures
            // what is placed is taken out of the free space
            blocks_apart(old(self).state()) ==> {
                &&& blocks_apart(final(self).state())
                &&& placement_step(
                    old(self).state(),
                    final(self).state(),
                    match r {
                        Ok(p) => placed_span(p, alloc_size),
                        Err(_) => Set::empty(),
                    },
                )
            },
            final(self).state().histogram() == old(self).state().histogram(),
            final(self).state().blocks().dom() == old(self).state().blocks().dom(),
            size_class == SizeClass::Large <==> r == Err::<Placement, AllocError>(
                AllocError::BadRequest,
            ),
            size_class == SizeClass::Large ==> final(self).state() == old(self).state(),
            r matches Ok(Placement::Placed(d)) ==> dest_ok(final(self).state().blocks(), d, alloc_size as int),
            // with no head block yet, a fresh block is needed
            size_class != SizeClass::Large && old(self).state().head() is None ==> {
                &&& r == Ok::<Placement, AllocError>(Placement::NeedsBlock(BlockNeed::Head))
                &&& final(self).state() == old(self).state()
            },
            // a medium object that does not fit the head's hole goes to the
            // overflow block, leaving the head as it was
            size_class == SizeClass::Medium ==> (old(self).state().head() matches Some(h) ==> (alloc_size
                > h.cursor - h.limit ==> (r matches Ok(p) && overflow_outcome(
                old(self).state(),
                final(self).state(),
                alloc_size,
                p,
            )))),
            // otherwise the object is bump allocated into the head block,
            // and a fresh head block is needed when that fails
            size_class != SizeClass::Large ==> (old(self).state().head() matches Some(h) ==> (!(size_class
                == SizeClass::Medium && alloc_size > h.cursor - h.limit) ==> {
                &&& final(self).state().head() == Some(
                    bumped(h, old(self).state().blocks()[h.block].lines_view(), alloc_size as int),
                )
                &&& final(self).state().overflow() == old(self).state().overflow()
                &&& final(self).state().empty_blocks() == old(self).state().empty_blocks()
                &&& final(self).state().blocks() == old(self).state().blocks()
                &&& match bump_result(h, old(self).state().blocks()[h.block].lines_view(), alloc_size as int) {
                    Some(p) => r == Ok::<Placement, AllocError>(
                        Placement::Placed(AllocDest { block: h.block, space: p as usize }),
                    ),
                    None => r == Ok::<Placement, AllocError>(
                        Placement::NeedsBlock(BlockNeed::Head),
                    ),
                }
            })),
    {
        proof {
            use_type_invariant(&*self);
        }
        let mut state = BlockState::new();
        std::mem::swap(&mut state, &mut self.inner);
        let r = state.find_space(alloc_size, size_class);
        self.inner = state;
        r
    }

    /// Take a freshly obtained block into the heap as the block `need` asks
    /// for, and allocate `alloc_size` bytes at its top.
    pub fn install_block(&mut self, block: usize, need: BlockNeed, alloc_size: usize) -> (d:
        AllocDest)
        requires
            valid_block_addr(block),
            alloc_size <= BLOCK_CAPACITY,
        ensures
            dest_ok(final(self).state().blocks(), d, alloc_size as int),
            d.block == block,
            d.space == block + BLOCK_CAPACITY - alloc_size - (block + BLOCK_CAPACITY - alloc_size)
                % ALLOC_ALIGN_BYTES as int,
            final(self).state().blocks().dom() == old(self).state().blocks().dom().insert(block),
            final(self).state().blocks()[block].is_clear(),
            forall|a: usize|
                a != block && old(self).state().blocks().contains_key(a) ==> final(self).state().blocks()[a] == old(self).state().blocks()[a],
            final(self).state().empty_blocks() == old(self).state().empty_blocks(),
            final(self).state().histogram() == old(self).state().histogram(),
            need == BlockNeed::Head ==> {
                &&& (final(self).state().head() matches Some(h) && h.block == block && h.cursor == d.space
                    && h.limit == block)
                &&& final(self).state().overflow() == old(self).state().overflow()
            },
            need == BlockNeed::Overflow ==> {
                &&& (final(self).state().overflow() matches Some(o) && o.block == block && o.cursor
                    == d.space && o.limit == block)
                &&& final(self).state().head() == old(self).state().head()
            },
            // the object goes into a block new to the heap
            blocks_apart(old(self).state()) && !old(self).state().blocks().contains_key(block) ==> {
                &&& blocks_apart(final(self).state())
                &&& placement_step(old(self).state(), final(self).state(), span(d.space as int, alloc_size as int))
            },
    {
        proof {
            use_type_invariant(&*self);
        }
        let mut state = BlockState::new();
        std::mem::swap(&mut state, &mut self.inner);
        let r = state.install_block(block, need, alloc_size);
        self.inner = state;
        r
    }

    /// Add a freshly obtained block to the reserve of empty blocks.
    pub fn add_empty_block(&mut self, block: usize)
        requires
            valid_block_addr(block),
        ensures
            final(self).state().blocks().dom() == old(self).state().blocks().dom().insert(block),
            final(self).state().blocks()[block].is_clear(),
            forall|a: usize|
                a != block && old(self).state().blocks().contains_key(a) ==> final(self).state().blocks()[a] == old(self).state().blocks()[a],
            final(self).state().empty_blocks() == old(self).state().empty_blocks().push(block),
            final(self).state().head() == old(self).state().head(),
            final(self).state().overflow() == old(self).state().overflow(),
            final(self).state().histogram() == old(self).state().histogram(),
            // a block new to the heap adds free space and takes none away
            blocks_apart(old(self).state()) && !old(self).state().blocks().contains_key(block) ==> {
                &&& blocks_apart(final(self).state())
                &&& placement_step(old(self).state(), final(self).state(), Set::empty())
            },
    {
        proof {
            use_type_invariant(&*self);
        }
        let mut state = BlockState::new();
        std::mem::swap(&mut state, &mut self.inner);
        state.add_empty_block(block);
        self.inner = state;
    }

    /// Record an object written at `dest.space` behind a header of
    /// `header_size` bytes in the block's object map, and return the
    /// object's address.
    pub fn commit_object(&mut self, dest: AllocDest, header_size: usize) -> (object: usize)
        requires
            old(self).state().blocks().contains_key(dest.block),
            dest.block <= dest.space,
            dest.space % ALLOC_ALIGN_BYTES == 0,
            header_size % ALLOC_ALIGN_BYTES == 0,
            dest.space + header_size < dest.block + BLOCK_CAPACITY,
        ensures
            object == dest.space + header_size,
            conservative_ptr(final(self).state().blocks(), object),
            final(self).state().blocks().dom() == old(self).state().blocks().dom(),
            final(self).state().blocks()[dest.block].lines_view() == old(self).state().blocks()[dest.block].lines_view(),
            forall|s: int|
                0 <= s < map_bit_count() ==> map_bit(final(self).state().blocks()[dest.block].map_view(), s)
                    == (s == (object - dest.block) / ALLOC_ALIGN_BYTES as int || map_bit(
                    old(self).state().blocks()[dest.block].map_view(),
                    s,
                )),
            forall|a: usize|
                a != dest.block && old(self).state().blocks().contains_key(a) ==> final(self).state().blocks()[a]
                    == old(self).state().blocks()[a],
            final(self).state().head() == old(self).state().head(),
            final(self).state().overflow() == old(self).state().overflow(),
            final(self).state().empty_blocks() == old(self).state().empty_blocks(),
            final(self).state().histogram() == old(self).state().histogram(),
            blocks_apart(old(self).state()) ==> blocks_apart(final(self).state()),
            placement_step(old(self).state(), final(self).state(), Set::empty()),
    {
        proof {
            use_type_invariant(&*self);
        }
        let mut state = BlockState::new();
        std::mem::swap(&mut state, &mut self.inner);
        let r = state.commit_object(dest, header_size);
        self.inner = state;
        r
    }

    /// Using best effort logic, estimate if a word is a valid heap pointer.
    ///
    /// 1. Masking the pointer to get a potential block base, check that the
    ///    base exists in the block list
    /// 2. Masking the pointer to get a potential block offset, check that the
    ///    offset is an aligned object start marked in the block's object map
    pub fn is_conservatively_a_ptr(&self, ptr: usize) -> (r: Option<usize>)
        ensures
            r == if conservative_ptr(self.state().blocks(), ptr) {
                Some(ptr)
            } else {
                None::<usize>
            },
    {
        proof {
            use_type_invariant(self);
        }
        self.inner.is_conservatively_a_ptr(ptr)
    }

    /// Of the words found on the stack, those that are non-null and, with
    /// `tag_mask` applied, are conservatively heap pointers, in stack order.
    pub fn scan_roots(&self, words: &Vec<usize>, tag_mask: usize) -> (roots: Vec<usize>)
        ensures
            roots@ == words@.filter(|w: usize| w != 0 && conservative_ptr(self.state().blocks(), w & tag_mask)),
    {
        proof {
            use_type_invariant(self);
        }
        self.inner.scan_roots(words, tag_mask)
    }

    /// The block-level part of marking an object: mark the line the object
    /// starts in, and the block itself.
    pub fn mark_object_block(&mut self, ptr: usize)
        requires
            old(self).state().blocks().contains_key(block_base(ptr)),
        ensures
            final(self).state().blocks().dom() == old(self).state().blocks().dom(),
            final(self).state().blocks()[block_base(ptr)].lines_view() == old(self).state().blocks()[block_base(
                ptr,
            )].lines_view().update((block_offset(ptr) / LINE_SIZE) as int, 1u8).update(
                LINE_COUNT - 1,
                1u8,
            ),
            final(self).state().blocks()[block_base(ptr)].map_view() == old(self).state().blocks()[block_base(
                ptr,
            )].map_view(),
            forall|a: usize|
                a != block_base(ptr) && old(self).state().blocks().contains_key(a) ==> final(self).state().blocks()[a] == old(self).state().blocks()[a],
            final(self).state().head() == old(self).state().head(),
            final(self).state().overflow() == old(self).state().overflow(),
            final(self).state().empty_blocks() == old(self).state().empty_blocks(),
            final(self).state().histogram() == old(self).state().histogram(),
    {
        proof {
            use_type_invariant(&*self);
        }
        let mut state = BlockState::new();
        std::mem::swap(&mut state, &mut self.inner);
        state.mark_object_block(ptr);
        self.inner = state;
    }

    /// Manage empty blocks after a collection: file every block in the
    /// histogram by its number of unmarked lines, move the entirely empty
    /// ones to the reserve, then release the surplus beyond the number of
    /// empty blocks kept, or ask for the missing ones.
    pub fn manage_blocks(&mut self) -> (m: BlockManagement)
        ensures
            exists|keys: Seq<usize>|
                {
                    &&& keys.no_duplicates()
                    &&& keys.to_set() == old(self).state().blocks().dom()
                    &&& final(self).state().histogram() == hist_of(old(self).state().blocks(), keys).insert(
                        LINE_COUNT,
                        Seq::empty(),
                    )
                    &&& managed(
                        old(self).state().empty_blocks() + keys.filter(
                            |b: usize| is_empty_block(old(self).state().blocks(), b),
                        ),
                        old(self).state().blocks(),
                        old(self).state().head(),
                        old(self).state().overflow(),
                        final(self).state().empty_blocks(),
                        final(self).state().blocks(),
                        final(self).state().head(),
                        final(self).state().overflow(),
                        m.released@,
                        m.additional,
                    )
                },
    {
        proof {
            use_type_invariant(&*self);
        }
        let mut state = BlockState::new();
        std::mem::swap(&mut state, &mut self.inner);
        let r = state.manage_blocks();
        self.inner = state;
        r
    }
}

} // verus!
