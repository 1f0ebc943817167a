//! Block marking metadata: one mark byte per line, and an object map with one
//! bit per `ALLOC_ALIGN_BYTES`-sized slot of the allocation space.
use vstd::prelude::*;

use crate::constants::{
    ALLOC_ALIGN_BYTES, BLOCK_CAPACITY, LINE_COUNT, LINE_SIZE, OBJECT_MAP_SIZE, OBJECT_MAP_SLOTS,
};

verus! {

/// Bit `k` (0 = least significant) of a byte.
pub open spec fn byte_bit(b: u8, k: int) -> bool {
    (b >> (k as u8)) & 1u8 == 1u8
}

/// The object-map bit of slot `slot`.
pub open spec fn map_bit(map: Seq<u8>, slot: int) -> bool {
    byte_bit(map[slot / 8], slot % 8)
}

/// Number of object-map slots that the map's bytes can hold.
pub open spec fn map_bit_count() -> int {
    OBJECT_MAP_SIZE * 8
}

/// Whether line `i` is marked.
pub open spec fn line_marked(lines: Seq<u8>, i: int) -> bool {
    lines[i] != 0
}

/// Number of whole lines needed to hold `alloc_size` bytes.
pub open spec fn lines_required(alloc_size: int) -> int {
    (alloc_size + LINE_SIZE - 1) / LINE_SIZE as int
}

/// Index of the first line of the run of unmarked lines that ends just below
/// line `end`: every line in `[run_start(end), end)` is unmarked, and the line
/// before the run, if any, is marked.
pub open spec fn run_start(lines: Seq<u8>, end: int) -> int
    decreases end,
{
    if end <= 0 {
        0
    } else if line_marked(lines, end - 1) {
        end
    } else {
        run_start(lines, end - 1)
    }
}

/// A hole may end (exclusively) at the line where the search starts, or at a
/// marked line below it.
pub open spec fn is_candidate_end(lines: Seq<u8>, start_line: int, e: int) -> bool {
    0 <= e <= start_line && (e == start_line || line_marked(lines, e))
}

/// The run of unmarked lines below `e` can hold `req` lines. A run that starts
/// at line 0 is used whole; otherwise its first line is treated as
/// conservatively marked, because an object in the marked line below may
/// spill into it.
pub open spec fn hole_qualifies(lines: Seq<u8>, e: int, req: int) -> bool {
    let b = run_start(lines, e);
    &&& e > 0
    &&& if b == 0 {
        e - b >= req
    } else {
        e - b > req
    }
}

/// Lower bound (byte offset) of the hole that ends at line `e`.
pub open spec fn hole_limit(lines: Seq<u8>, e: int) -> int {
    let b = run_start(lines, e);
    if b == 0 {
        0
    } else {
        (b + 1) * LINE_SIZE
    }
}

/// `e` is the highest candidate end whose hole qualifies.
pub open spec fn is_best_hole_end(lines: Seq<u8>, start_line: int, req: int, e: int) -> bool {
    &&& is_candidate_end(lines, start_line, e)
    &&& hole_qualifies(lines, e, req)
    &&& forall|e2: int|
        #![trigger hole_qualifies(lines, e2, req)]
        is_candidate_end(lines, start_line, e2) && e < e2 ==> !hole_qualifies(lines, e2, req)
}

/// The hole that a downward search starting at byte offset `starting_at`
/// finds for an allocation of `alloc_size` bytes, as `(cursor, limit)` byte
/// offsets: the highest qualifying hole below the starting line.
pub open spec fn next_hole(lines: Seq<u8>, starting_at: int, alloc_size: int) -> Option<(int, int)> {
    let sl = starting_at / LINE_SIZE as int;
    let req = lines_required(alloc_size);
    if exists|e: int| is_best_hole_end(lines, sl, req, e) {
        let e = choose|e: int| is_best_hole_end(lines, sl, req, e);
        Some((e * LINE_SIZE, hole_limit(lines, e)))
    } else {
        None
    }
}

/// With every line below `end` unmarked, the run below `end` starts at
/// line 0.
proof fn lemma_run_start_free(lines: Seq<u8>, end: int)
    requires
        forall|i: int| 0 <= i < end ==> !line_marked(lines, i),
    ensures
        run_start(lines, end) == 0,
    decreases end,
{
    if end > 0 {
        lemma_run_start_free(lines, end - 1);
    }
}

/// A search that starts above a run of free lines reaching down to line 0,
/// long enough for the request, finds that whole run: the hole reaches from
/// the starting line down to the bottom of the block, even when it holds
/// exactly the lines required.
pub proof fn lemma_bottom_hole_found(lines: Seq<u8>, starting_at: int, alloc_size: int)
    requires
        0 <= starting_at,
        1 <= alloc_size,
        lines_required(alloc_size) <= starting_at / LINE_SIZE as int,
        forall|i: int| 0 <= i < starting_at / LINE_SIZE as int ==> !line_marked(lines, i),
    ensures
        next_hole(lines, starting_at, alloc_size) == Some(
            ((starting_at / LINE_SIZE as int) * LINE_SIZE, 0int),
        ),
{
    let sl = starting_at / LINE_SIZE as int;
    let req = lines_required(alloc_size);
    lemma_run_start_free(lines, sl);
    assert(req >= 1);
    assert(hole_qualifies(lines, sl, req));
    assert(is_best_hole_end(lines, sl, req, sl));
    let e = choose|e: int| is_best_hole_end(lines, sl, req, e);
    if e != sl {
        assert(is_candidate_end(lines, sl, sl) && e < sl);
    }
}

/// Number of unmarked lines among the first `n`.
pub open spec fn unmarked_count(lines: Seq<u8>, n: int) -> nat
    decreases n,
{
    if n <= 0 {
        0
    } else {
        unmarked_count(lines, n - 1) + if line_marked(lines, n - 1) {
            0nat
        } else {
            1nat
        }
    }
}

/// Block marking metadata.
pub struct BlockMeta {
    lines: Vec<u8>,
    object_map: Vec<u8>,
}

proof fn lemma_set_bit(b: u8, k: u8, j: u8)
    requires
        k < 8,
        j < 8,
    ensures
        ((b | (1u8 << k)) >> j) & 1u8 == (if j == k {
            1u8
        } else {
            (b >> j) & 1u8
        }),
{
    assert(((b | (1u8 << k)) >> j) & 1u8 == (if j == k {
        1u8
    } else {
        (b >> j) & 1u8
    })) by (bit_vector)
        requires
            k < 8,
            j < 8,
    ;
}

proof fn lemma_clear_bit(b: u8, k: u8, j: u8)
    requires
        k < 8,
        j < 8,
    ensures
        ((b & !(1u8 << k)) >> j) & 1u8 == (if j == k {
            0u8
        } else {
            (b >> j) & 1u8
        }),
{
    assert(((b & !(1u8 << k)) >> j) & 1u8 == (if j == k {
        0u8
    } else {
        (b >> j) & 1u8
    })) by (bit_vector)
        requires
            k < 8,
            j < 8,
    ;
}

proof fn lemma_test_bit(b: u8, k: u8)
    requires
        k < 8,
    ensures
        ((b & (1u8 << k)) != 0u8) == ((b >> k) & 1u8 == 1u8),
{
    assert(((b & (1u8 << k)) != 0u8) == ((b >> k) & 1u8 == 1u8)) by (bit_vector)
        requires
            k < 8,
    ;
}

proof fn lemma_zero_byte(k: u8)
    requires
        k < 8,
    ensures
        (0u8 >> k) & 1u8 != 1u8,
{
    assert((0u8 >> k) & 1u8 != 1u8) by (bit_vector)
        requires
            k < 8,
    ;
}

/// Every line in `[a, e)` is unmarked and the run starts at `a`: either `a`
/// is 0 or the line before it is marked.
proof fn lemma_run_start(lines: Seq<u8>, a: int, e: int)
    requires
        0 <= a <= e <= lines.len(),
        forall|i: int| a <= i < e ==> !line_marked(lines, i),
        a == 0 || line_marked(lines, a - 1),
    ensures
        run_start(lines, e) == a,
    decreases e,
{
    if e > a {
        lemma_run_start(lines, a, e - 1);
    }
}

/// A best hole end is unique.
proof fn lemma_best_unique(lines: Seq<u8>, sl: int, req: int, e1: int, e2: int)
    requires
        is_best_hole_end(lines, sl, req, e1),
        is_best_hole_end(lines, sl, req, e2),
    ensures
        e1 == e2,
{
    if e1 < e2 {
        assert(!hole_qualifies(lines, e2, req));
    } else if e2 < e1 {
        assert(!hole_qualifies(lines, e1, req));
    }
}

proof fn lemma_next_hole_is(lines: Seq<u8>, starting_at: int, alloc_size: int, e: int)
    requires
        is_best_hole_end(lines, starting_at / LINE_SIZE as int, lines_required(alloc_size), e),
    ensures
        next_hole(lines, starting_at, alloc_size) == Some((e * LINE_SIZE, hole_limit(lines, e))),
{
    let sl = starting_at / LINE_SIZE as int;
    let req = lines_required(alloc_size);
    let c = choose|e: int| is_best_hole_end(lines, sl, req, e);
    lemma_best_unique(lines, sl, req, c, e);
}

/// Facts about the run of unmarked lines below line `e`.
pub proof fn lemma_run_start_facts(lines: Seq<u8>, e: int)
    requires
        0 <= e <= lines.len(),
    ensures
        0 <= run_start(lines, e) <= e,
        forall|i: int| run_start(lines, e) <= i < e ==> !line_marked(lines, i),
        run_start(lines, e) > 0 ==> line_marked(lines, run_start(lines, e) - 1),
    decreases e,
{
    if e > 0 && !line_marked(lines, e - 1) {
        lemma_run_start_facts(lines, e - 1);
    }
}

/// A hole found by the downward search lies at or below the starting line,
/// consists of unmarked lines only, is large enough for the allocation, and
/// never includes the line just above a marked line: when the hole does not
/// reach line 0, the line below it is unmarked and the line below that is
/// marked.
pub proof fn lemma_hole_is_free(lines: Seq<u8>, starting_at: int, alloc_size: int)
    requires
        lines.len() == LINE_COUNT,
        0 <= starting_at,
        starting_at / LINE_SIZE as int <= LINE_COUNT,
        0 <= alloc_size,
    ensures
        match next_hole(lines, starting_at, alloc_size) {
            Some((c, l)) => {
                &&& c % LINE_SIZE as int == 0
                &&& l % LINE_SIZE as int == 0
                &&& 0 <= l <= c <= (starting_at / LINE_SIZE as int) * LINE_SIZE
                &&& c - l >= lines_required(alloc_size) * LINE_SIZE
                &&& forall|i: int|
                    l / LINE_SIZE as int <= i < c / LINE_SIZE as int ==> !line_marked(lines, i)
                &&& l > 0 ==> {
                    &&& !line_marked(lines, l / LINE_SIZE as int - 1)
                    &&& line_marked(lines, l / LINE_SIZE as int - 2)
                }
            },
            None => true,
        },
{
    let sl = starting_at / LINE_SIZE as int;
    let req = lines_required(alloc_size);
    if exists|e: int| is_best_hole_end(lines, sl, req, e) {
        let e = choose|e: int| is_best_hole_end(lines, sl, req, e);
        lemma_run_start_facts(lines, e);
        let b = run_start(lines, e);
        if b == 0 {
            assert(hole_limit(lines, e) == 0);
        } else {
            assert(hole_limit(lines, e) == (b + 1) * LINE_SIZE);
            assert((b + 1) * LINE_SIZE as int / LINE_SIZE as int == b + 1);
            assert(e - b - 1 >= req);
        }
        assert((e * LINE_SIZE as int) / LINE_SIZE as int == e);
    }
}

impl BlockMeta {
    /// The line mark bytes.
    pub closed spec fn lines_view(&self) -> Seq<u8> {
        self.lines@
    }

    /// The object map bytes.
    pub closed spec fn map_view(&self) -> Seq<u8> {
        self.object_map@
    }

    /// The metadata has one mark byte per line and a full object map.
    pub open spec fn wf(&self) -> bool {
        &&& self.lines_view().len() == LINE_COUNT
        &&& self.map_view().len() == OBJECT_MAP_SIZE
    }

    /// Whether an object is recorded at byte offset `offset`.
    pub open spec fn object_at(&self, offset: int) -> bool {
        map_bit(self.map_view(), offset / ALLOC_ALIGN_BYTES as int)
    }

    /// Every line mark and every object-map bit is clear.
    pub open spec fn is_clear(&self) -> bool {
        &&& forall|i: int| 0 <= i < LINE_COUNT ==> !line_marked(self.lines_view(), i)
        &&& forall|s: int| 0 <= s < map_bit_count() ==> !map_bit(self.map_view(), s)
    }

    /// Fresh metadata with every line and object unmarked.
    pub fn new() -> (meta: BlockMeta)
        ensures
            meta.wf(),
            meta.is_clear(),
    {
        let mut meta = BlockMeta { lines: Vec::new(), object_map: Vec::new() };
        let mut i: usize = 0;
        while i < LINE_COUNT
            invariant
                i <= LINE_COUNT,
                meta.lines@.len() == i,
                meta.object_map@.len() == 0,
                forall|j: int| 0 <= j < i ==> meta.lines@[j] == 0u8,
            decreases LINE_COUNT - i,
        {
            meta.lines.push(0u8);
            i = i + 1;
        }
        let mut i: usize = 0;
        while i < OBJECT_MAP_SIZE
            invariant
                i <= OBJECT_MAP_SIZE,
                meta.lines@.len() == LINE_COUNT,
                forall|j: int| 0 <= j < LINE_COUNT ==> meta.lines@[j] == 0u8,
                meta.object_map@.len() == i,
                forall|j: int| 0 <= j < i ==> meta.object_map@[j] == 0u8,
            decreases OBJECT_MAP_SIZE - i,
        {
            meta.object_map.push(0u8);
            i = i + 1;
        }
        proof {
            assert forall|s: int| 0 <= s < map_bit_count() implies !map_bit(meta.map_view(), s) by {
                lemma_zero_byte((s % 8) as u8);
            }
        }
        meta
    }

    /// The mark byte of the indexed line.
    pub fn line_mark(&self, index: usize) -> (m: u8)
        requires
            self.wf(),
            index < LINE_COUNT,
        ensures
            m == self.lines_view()[index as int],
    {
        self.lines[index]
    }

    /// Mark the indexed line
    pub fn mark_line(&mut self, index: usize)
        requires
            old(self).wf(),
            index < LINE_COUNT,
        ensures
            final(self).wf(),
            final(self).lines_view() == old(self).lines_view().update(index as int, 1u8),
            final(self).map_view() == old(self).map_view(),
    {
        self.lines.set(index, 1u8);
    }

    /// Indicate the entire block as marked. The last line's mark byte is used
    /// for this, since no object occupies that line: it holds mark bits.
    pub fn mark_block(&mut self)
        requires
            old(self).wf(),
        ensures
            final(self).wf(),
            final(self).lines_view() == old(self).lines_view().update(LINE_COUNT - 1, 1u8),
            final(self).map_view() == old(self).map_view(),
    {
        self.lines.set(LINE_COUNT - 1, 1u8);
    }

    /// Reset all mark flags to unmarked.
    pub fn reset(&mut self)
        requires
            old(self).wf(),
        ensures
            final(self).wf(),
            final(self).is_clear(),
    {
        let mut i: usize = 0;
        while i < LINE_COUNT
            invariant
                i <= LINE_COUNT,
                self.lines@.len() == LINE_COUNT,
                self.object_map@.len() == OBJECT_MAP_SIZE,
                forall|j: int| 0 <= j < i ==> self.lines@[j] == 0u8,
            decreases LINE_COUNT - i,
        {
            self.lines.set(i, 0u8);
            i = i + 1;
        }
        let mut i: usize = 0;
        while i < OBJECT_MAP_SIZE
            invariant
                i <= OBJECT_MAP_SIZE,
                self.lines@.len() == LINE_COUNT,
                self.object_map@.len() == OBJECT_MAP_SIZE,
                forall|j: int| 0 <= j < LINE_COUNT ==> self.lines@[j] == 0u8,
                forall|j: int| 0 <= j < i ==> self.object_map@[j] == 0u8,
            decreases OBJECT_MAP_SIZE - i,
        {
            self.object_map.set(i, 0u8);
            i = i + 1;
        }
        proof {
            assert forall|s: int| 0 <= s < map_bit_count() implies !map_bit(self.map_view(), s) by {
                lemma_zero_byte((s % 8) as u8);
            }
        }
    }

    /// Mark an object allocation at the given byte offset within the block.
    /// The offset must be aligned to ALLOC_ALIGN_BYTES.
    pub fn mark_object(&mut self, offset: usize)
        requires
            old(self).wf(),
            offset < BLOCK_CAPACITY,
            offset % ALLOC_ALIGN_BYTES == 0,
        ensures
            final(self).wf(),
            final(self).lines_view() == old(self).lines_view(),
            forall|s: int|
                0 <= s < map_bit_count() ==> map_bit(final(self).map_view(), s) == (s == offset
                    / ALLOC_ALIGN_BYTES || map_bit(old(self).map_view(), s)),
    {
        let slot = offset / ALLOC_ALIGN_BYTES;
        let byte_index = slot / 8;
        let bit_index = slot % 8;
        let byte = self.object_map[byte_index];
        self.object_map.set(byte_index, byte | (1u8 << (bit_index as u8)));
        proof {
            assert forall|s: int|
                0 <= s < map_bit_count() implies map_bit(self.map_view(), s) == (s == slot
                    || map_bit(old(self).map_view(), s)) by {
                lemma_set_bit(
                    old(self).object_map@[s / 8],
                    bit_index as u8,
                    (s % 8) as u8,
                );
                if s / 8 != byte_index as int {
                    assert(self.object_map@[s / 8] == old(self).object_map@[s / 8]);
                }
            }
        }
    }

    /// Check if an object is marked at the given byte offset within the block.
    pub fn is_object_marked(&self, offset: usize) -> (r: bool)
        requires
            self.wf(),
            offset < BLOCK_CAPACITY,
        ensures
            r == self.object_at(offset as int),
    {
        let slot = offset / ALLOC_ALIGN_BYTES;
        let byte_index = slot / 8;
        let bit_index = slot % 8;
        let byte = self.object_map[byte_index];
        proof {
            lemma_test_bit(byte, bit_index as u8);
        }
        (byte & (1u8 << (bit_index as u8))) != 0
    }

    /// Clear the object mark at the given byte offset within the block.
    pub fn clear_object(&mut self, offset: usize)
        requires
            old(self).wf(),
            offset < BLOCK_CAPACITY,
        ensures
            final(self).wf(),
            final(self).lines_view() == old(self).lines_view(),
            forall|s: int|
                0 <= s < map_bit_count() ==> map_bit(final(self).map_view(), s) == (s != offset
                    / ALLOC_ALIGN_BYTES && map_bit(old(self).map_view(), s)),
    {
        let slot = offset / ALLOC_ALIGN_BYTES;
        let byte_index = slot / 8;
        let bit_index = slot % 8;
        let byte = self.object_map[byte_index];
        self.object_map.set(byte_index, byte & !(1u8 << (bit_index as u8)));
        proof {
            assert forall|s: int|
                0 <= s < map_bit_count() implies map_bit(self.map_view(), s) == (s != slot
                    && map_bit(old(self).map_view(), s)) by {
                lemma_clear_bit(
                    old(self).object_map@[s / 8],
                    bit_index as u8,
                    (s % 8) as u8,
                );
                if s / 8 != byte_index as int {
                    assert(self.object_map@[s / 8] == old(self).object_map@[s / 8]);
                }
            }
        }
    }

    /// Find the next marked object starting from the given offset (inclusive).
    /// Returns the offset of the next marked object, or None if no more
    /// objects are marked.
    pub fn find_next_object(&self, starting_offset: usize) -> (r: Option<usize>)
        requires
            self.wf(),
        ensures
            match r {
                Some(o) => {
                    &&& o % ALLOC_ALIGN_BYTES == 0
                    &&& starting_offset / ALLOC_ALIGN_BYTES <= o / ALLOC_ALIGN_BYTES
                        < OBJECT_MAP_SLOTS
                    &&& map_bit(self.map_view(), (o / ALLOC_ALIGN_BYTES) as int)
                    &&& forall|s: int|
                        starting_offset / ALLOC_ALIGN_BYTES <= s < o / ALLOC_ALIGN_BYTES ==> !map_bit(
                            self.map_view(),
                            s,
                        )
                },
                None => forall|s: int|
                    starting_offset / ALLOC_ALIGN_BYTES <= s < OBJECT_MAP_SLOTS ==> !map_bit(
                        self.map_view(),
                        s,
                    ),
            },
    {
        let start_slot = starting_offset / ALLOC_ALIGN_BYTES;
        let mut slot = start_slot;
        while slot < OBJECT_MAP_SLOTS
            invariant
                self.wf(),
                start_slot == starting_offset / ALLOC_ALIGN_BYTES,
                start_slot <= slot,
                forall|s: int| start_slot <= s < slot ==> !map_bit(self.map_view(), s),
            decreases OBJECT_MAP_SLOTS - slot,
        {
            let byte_index = slot / 8;
            let bit_index = slot % 8;
            let byte = self.object_map[byte_index];
            proof {
                lemma_test_bit(byte, bit_index as u8);
            }
            if (byte & (1u8 << (bit_index as u8))) != 0 {
                assert(map_bit(self.map_view(), slot as int));
                let o = slot * ALLOC_ALIGN_BYTES;
                assert(o / ALLOC_ALIGN_BYTES == slot);
                assert(o % ALLOC_ALIGN_BYTES == 0);
                return Some(slot * ALLOC_ALIGN_BYTES);
            }
            slot = slot + 1;
        }
        None
    }

    /// Number of unmarked lines in the block.
    pub fn count_holes(&self) -> (n: usize)
        requires
            self.wf(),
        ensures
            n == unmarked_count(self.lines_view(), LINE_COUNT as int),
    {
        let mut n: usize = 0;
        let mut i: usize = 0;
        while i < LINE_COUNT
            invariant
                self.wf(),
                i <= LINE_COUNT,
                n == unmarked_count(self.lines_view(), i as int),
                n <= i,
            decreases LINE_COUNT - i,
        {
            if self.lines[i] == 0 {
                n = n + 1;
            }
            i = i + 1;
        }
        n
    }

    /// Find a hole to bump-allocate into, searching downward from the line
    /// that holds byte offset `starting_at`. Returns `(cursor, limit)` byte
    /// offsets of the hole.
    pub fn find_next_available_hole(&self, starting_at: usize, alloc_size: usize) -> (r: Option<
        (usize, usize),
    >)
        requires
            self.wf(),
            starting_at / LINE_SIZE <= LINE_COUNT,
            alloc_size + LINE_SIZE - 1 <= usize::MAX,
        ensures
            match r {
                Some((c, l)) => next_hole(self.lines_view(), starting_at as int, alloc_size as int)
                    == Some((c as int, l as int)),
                None => next_hole(self.lines_view(), starting_at as int, alloc_size as int) is None,
            },
            r is None <==> forall|e: int|
                is_candidate_end(self.lines_view(), (starting_at / LINE_SIZE) as int, e)
                    ==> !hole_qualifies(
                    self.lines_view(),
                    e,
                    lines_required(alloc_size as int),
                ),
    {
        let ghost lines = self.lines_view();
        // The count of consecutive available lines. Must take into account a
        // conservatively marked line at the beginning of the sequence.
        let mut count: usize = 0;
        let starting_line = starting_at / LINE_SIZE;
        let lines_required = (alloc_size + (LINE_SIZE - 1)) / LINE_SIZE;
        let ghost sl = starting_line as int;
        let ghost req = lines_required as int;
        // Counting down from the given search start index
        let mut end = starting_line;
        let mut index = starting_line;
        while index > 0
            invariant
                self.wf(),
                lines == self.lines_view(),
                sl == starting_line,
                starting_line == starting_at / LINE_SIZE,
                req == lines_required,
                req == crate::blockmeta::lines_required(alloc_size as int),
                starting_line <= LINE_COUNT,
                index <= end <= starting_line,
                is_candidate_end(lines, sl, end as int),
                count == end - index,
                index == 0 && end > 0 ==> count < lines_required,
                forall|i: int| index <= i < end ==> !line_marked(lines, i),
                forall|e2: int|
                    #![trigger hole_qualifies(lines, e2, req)]
                    is_candidate_end(lines, sl, e2) && end < e2 ==> !hole_qualifies(lines, e2, req),
            decreases index,
        {
            index = index - 1;
            let marked = self.lines[index];
            if marked == 0 {
                // count unmarked lines
                count = count + 1;
                if index == 0 && count >= lines_required {
                    let limit = index * LINE_SIZE;
                    let cursor = end * LINE_SIZE;
                    proof {
                        lemma_run_start(lines, 0, end as int);
                        assert(is_best_hole_end(lines, sl, req, end as int));
                        assert(sl == starting_at as int / LINE_SIZE as int);
                        assert(req == crate::blockmeta::lines_required(alloc_size as int));
                        lemma_next_hole_is(lines, starting_at as int, alloc_size as int, end as int);
                    }
                    return Some((cursor, limit));
                }
            } else {
                proof {
                    lemma_run_start(lines, index + 1, end as int);
                }
                // This line is marked
                if count > lines_required {
                    // Return the hole, considering the line immediately above
                    // the marked one as conservatively marked
                    let limit = (index + 2) * LINE_SIZE;
                    let cursor = end * LINE_SIZE;
                    proof {
                        assert(is_best_hole_end(lines, sl, req, end as int));
                        assert(sl == starting_at as int / LINE_SIZE as int);
                        assert(req == crate::blockmeta::lines_required(alloc_size as int));
                        lemma_next_hole_is(lines, starting_at as int, alloc_size as int, end as int);
                    }
                    return Some((cursor, limit));
                }
                proof {
                    assert forall|e2: int|
                        #![trigger hole_qualifies(lines, e2, req)]
                        is_candidate_end(lines, sl, e2) && index < e2 implies !hole_qualifies(
                            lines,
                            e2,
                            req,
                        ) by {
                        if e2 < end {
                            assert(!line_marked(lines, e2));
                        }
                    }
                }
                // Reset the hole search state
                count = 0;
                end = index;
            }
        }
        proof {
            lemma_run_start(lines, 0, end as int);
            assert forall|e: int| is_candidate_end(lines, sl, e) implies !hole_qualifies(
                lines,
                e,
                req,
            ) by {
                if e < end {
                    assert(!line_marked(lines, e));
                }
            }
            assert forall|e: int| !is_best_hole_end(lines, sl, req, e) by {
                if is_candidate_end(lines, sl, e) {
                    assert(!hole_qualifies(lines, e, req));
                }
            }
        }
        None
    }
}

} // verus!
