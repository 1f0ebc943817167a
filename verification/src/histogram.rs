//! Block holes histogram: maps a number of holes to the list of block base
//! addresses with that many holes.
use std::collections::BTreeMap;
use vstd::prelude::*;
use vstd::std_specs::iter::IteratorSpec;

use crate::constants::LINE_COUNT;
use crate::ordkeys::lemma_increasing_keys;

verus! {

broadcast use {
    vstd::std_specs::btree::group_btree_axioms,
    vstd::laws_cmp::group_laws_cmp,
};

/// The abstract histogram: holes count to block list.
pub type HistogramMap = Map<usize, Seq<usize>>;

/// The greatest key of a map.
pub open spec fn top_key(m: HistogramMap) -> usize {
    choose|k: usize| m.contains_key(k) && forall|k2: usize| m.contains_key(k2) ==> k2 <= k
}

/// Outcome of taking a block from the histogram: the last block filed under
/// the greatest holes count, if that list has one; the entry is removed once
/// its list is empty.
pub open spec fn pop_top_spec(m: HistogramMap) -> (Option<usize>, HistogramMap) {
    if m.dom().is_empty() {
        (None, m)
    } else {
        let k = top_key(m);
        let l = m[k];
        if l.len() == 0 {
            (None, m.remove(k))
        } else if l.len() == 1 {
            (Some(l.last()), m.remove(k))
        } else {
            (Some(l.last()), m.insert(k, l.drop_last()))
        }
    }
}

/// The list filed under `holes`, empty if there is none.
pub open spec fn blocks_at(m: HistogramMap, holes: usize) -> Seq<usize> {
    if m.contains_key(holes) {
        m[holes]
    } else {
        Seq::empty()
    }
}

/// Outcome of filing `block` under `holes`.
pub open spec fn push_block_spec(m: HistogramMap, holes: usize, block: usize) -> HistogramMap {
    m.insert(holes, blocks_at(m, holes).push(block))
}

/// Block holes histogram
pub struct Histogram {
    gram: BTreeMap<usize, Vec<usize>>,
}

impl Histogram {
    /// The histogram as a map from holes count to block list.
    pub closed spec fn view(&self) -> HistogramMap {
        Map::new(|k: usize| self.gram@.contains_key(k), |k: usize| self.gram@[k]@)
    }

    pub fn new() -> (h: Histogram)
        ensures
            h.view() == Map::<usize, Seq<usize>>::empty(),
    {
        let h = Histogram { gram: BTreeMap::new() };
        assert(h.view() =~= Map::<usize, Seq<usize>>::empty());
        h
    }

    /// Take the last block filed under the greatest holes count.
    pub fn pop_top(&mut self) -> (r: Option<usize>)
        ensures
            (r, final(self).view()) == pop_top_spec(old(self).view()),
    {
        let ghost old_h = self.view();
        let ghost ks = vstd::std_specs::btree::spec_keys_iter(&self.gram).remaining().unref();
        proof {
            vstd::std_specs::btree::axiom_spec_keys_iter(&self.gram);
            lemma_increasing_keys(vstd::std_specs::btree::spec_keys_iter(&self.gram).remaining());
        }
        // the walk hands out the keys in increasing order: the last is the greatest
        let mut top: Option<usize> = None;
        for k in it: self.gram.keys()
            invariant
                it.seq().unref() == ks,
                top == (if it.index() == 0 {
                    None
                } else {
                    Some(ks[it.index() - 1])
                }),
        {
            top = Some(*k);
        }
        match top {
            None => {
                proof {
                    assert(old_h.dom() =~= Set::<usize>::empty()) by {
                        assert forall|a: usize| !old_h.contains_key(a) by {
                            if old_h.contains_key(a) {
                                assert(ks.to_set().contains(a));
                            }
                        }
                    }
                }
                None
            },
            Some(k) => {
                proof {
                    assert(ks.len() > 0);
                    assert(k == ks.last());
                    assert(old_h.contains_key(k)) by {
                        assert(ks.contains(k));
                    }
                    assert forall|k2: usize| old_h.contains_key(k2) implies k2 <= k by {
                        assert(ks.to_set().contains(k2));
                        let j = choose|j: int| 0 <= j < ks.len() && ks[j] == k2;
                        if j < ks.len() - 1 {
                            assert(ks[j] < ks[ks.len() - 1]);
                        }
                    }
                    let t = top_key(old_h);
                    assert(old_h.contains_key(t) && forall|k2: usize| old_h.contains_key(k2) ==> k2 <= t);
                    assert(t == k);
                    assert(!old_h.dom().is_empty()) by {
                        assert(old_h.dom().contains(k));
                    }
                }
                let mut list = self.gram.remove(&k).unwrap();
                let block_id = list.pop();
                if list.len() > 0 {
                    self.gram.insert(k, list);
                    proof {
                        assert(self.view() =~= old_h.insert(k, old_h[k].drop_last()));
                    }
                } else {
                    proof {
                        assert(self.view() =~= old_h.remove(k));
                    }
                }
                block_id
            },
        }
    }

    /// File a block under its holes count.
    pub fn push_block(&mut self, holes: usize, block: usize)
        ensures
            final(self).view() == push_block_spec(old(self).view(), holes, block),
    {
        let ghost old_h = self.view();
        let mut list = match self.gram.remove(&holes) {
            Some(list) => list,
            None => Vec::new(),
        };
        assert(list@ == blocks_at(old_h, holes));
        list.push(block);
        self.gram.insert(holes, list);
        assert(self.view() =~= push_block_spec(old_h, holes, block));
    }

    /// Take every block filed as entirely empty (all lines free), leaving an
    /// empty list under that holes count.
    pub fn drain_empty_blocks(&mut self) -> (blocks: Vec<usize>)
        ensures
            blocks@ == blocks_at(old(self).view(), LINE_COUNT),
            final(self).view() == old(self).view().insert(LINE_COUNT, Seq::empty()),
    {
        let ghost old_h = self.view();
        let blocks = match self.gram.remove(&LINE_COUNT) {
            Some(list) => list,
            None => Vec::new(),
        };
        self.gram.insert(LINE_COUNT, Vec::new());
        assert(self.view() =~= old_h.insert(LINE_COUNT, Seq::empty()));
        blocks
    }

    pub fn clear(&mut self)
        ensures
            final(self).view() == Map::<usize, Seq<usize>>::empty(),
    {
        self.gram.clear();
        assert(self.view() =~= Map::<usize, Seq<usize>>::empty());
    }
}

/// Filing a block under a holes count at least as large as every count in
/// the histogram, then taking the top block, gives back that block and
/// leaves the histogram as it was, apart from an emptied entry.
pub proof fn lemma_push_then_pop(m: HistogramMap, holes: usize, block: usize)
    requires
        forall|k: usize| m.contains_key(k) ==> k <= holes,
    ensures
        pop_top_spec(push_block_spec(m, holes, block)).0 == Some(block),
        pop_top_spec(push_block_spec(m, holes, block)).1 == (if m.contains_key(holes)
            && m[holes].len() > 0 {
            m
        } else {
            m.remove(holes)
        }),
{
    let m1 = push_block_spec(m, holes, block);
    assert(m1.contains_key(holes));
    assert(!m1.dom().is_empty()) by {
        assert(m1.dom().contains(holes));
    }
    let t = top_key(m1);
    assert(m1.contains_key(holes) && forall|k2: usize| m1.contains_key(k2) ==> k2 <= holes);
    assert(t == holes);
    let l = m1[holes];
    assert(l == blocks_at(m, holes).push(block));
    assert(l.drop_last() =~= blocks_at(m, holes));
    if m.contains_key(holes) && m[holes].len() > 0 {
        assert(m1.insert(holes, l.drop_last()) =~= m);
    } else {
        assert(m1.remove(holes) =~= m.remove(holes));
    }
}

} // verus!
