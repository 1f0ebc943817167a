//! The keys of a `BTreeMap<usize, _>` come out of its key iterator in
//! strictly increasing order.
use vstd::prelude::*;
use vstd::std_specs::cmp::OrdSpec;

verus! {

broadcast use vstd::laws_cmp::group_laws_cmp;

/// A sequence of keys in the order a `BTreeMap` hands them out is strictly
/// increasing, so it holds each key once.
pub proof fn lemma_increasing_keys(r: Seq<&usize>)
    requires
        vstd::std_specs::btree::increasing_seq(r),
    ensures
        forall|i: int, j: int| 0 <= i < j < r.len() ==> r.unref()[i] < r.unref()[j],
        r.unref().no_duplicates(),
{
    broadcast use vstd::laws_cmp::lemma_ref_obeys_cmp_spec;

    assert(vstd::laws_cmp::obeys_cmp::<&usize>());
    vstd::std_specs::btree::axiom_increasing_seq_meaning(r);
    let ks = r.unref();
    assert forall|i: int, j: int| 0 <= i < j < r.len() implies ks[i] < ks[j] by {
        assert(OrdSpec::cmp_spec(&r[i], &r[j]) is Less);
    }
    assert forall|i: int, j: int| 0 <= i < ks.len() && 0 <= j < ks.len() && i != j implies ks[i]
        != ks[j] by {
        if i < j {
            assert(ks[i] < ks[j]);
        } else {
            assert(ks[j] < ks[i]);
        }
    }
}

} // verus!
