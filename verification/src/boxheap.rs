//! A mark-sweep memory of individually boxed objects, each registered under
//! its address. Roots are the words found on the stack that are object
//! addresses; marking follows the references each object gives when traced;
//! sweeping drops every object left unmarked and clears the marks of the
//! others.
//!
//! Boxing an object and reading the stack are done by the caller, which
//! hands over the object with its address, and the stack words.
use std::collections::BTreeMap;
use vstd::prelude::*;
use vstd::std_specs::iter::IteratorSpec;

use crate::ordkeys::lemma_increasing_keys;

verus! {

broadcast use {
    vstd::std_specs::btree::group_btree_axioms,
    vstd::laws_cmp::group_laws_cmp,
};

/// Heap objects give the addresses of the objects they refer to.
pub trait Trace {
    /// The addresses this object refers to, in the order it gives them.
    spec fn refs(&self) -> Seq<usize>;

    /// Give me all your pointers
    fn trace(&self, objects: &mut Vec<usize>)
        ensures
            final(objects)@ == old(objects)@ + self.refs(),
    ;
}

/// A string object, which refers to no other object.
pub struct HeapString {
    value: String,
}

impl HeapString {
    /// The text held.
    pub closed spec fn text(&self) -> Seq<char> {
        self.value@
    }

    pub fn from(from: &str) -> (s: HeapString)
        ensures
            s.text() == from@,
    {
        HeapString { value: from.to_owned() }
    }

    pub fn as_str(&self) -> (s: &str)
        ensures
            s@ == self.text(),
    {
        self.value.as_str()
    }
}

impl Trace for HeapString {
    open spec fn refs(&self) -> Seq<usize> {
        Seq::empty()
    }

    fn trace(&self, objects: &mut Vec<usize>) {
        assert(objects@ + Seq::<usize>::empty() =~= objects@);
    }
}

/// An array object holding the addresses of other objects.
pub struct HeapArray {
    value: Vec<usize>,
}

impl HeapArray {
    /// The addresses held, in the order they were pushed.
    pub closed spec fn items(&self) -> Seq<usize> {
        self.value@
    }

    pub fn new() -> (a: HeapArray)
        ensures
            a.items() == Seq::<usize>::empty(),
    {
        HeapArray { value: Vec::new() }
    }

    /// Append the address of an object.
    pub fn push(&mut self, address: usize)
        ensures
            final(self).items() == old(self).items().push(address),
    {
        self.value.push(address);
    }
}

impl Trace for HeapArray {
    open spec fn refs(&self) -> Seq<usize> {
        self.items()
    }

    fn trace(&self, objects: &mut Vec<usize>) {
        let mut i: usize = 0;
        while i < self.value.len()
            invariant
                i <= self.value@.len(),
                objects@ == old(objects)@ + self.value@.take(i as int),
            decreases self.value@.len() - i,
        {
            objects.push(self.value[i]);
            i = i + 1;
            proof {
                assert(self.value@.take(i as int) =~= self.value@.take(i - 1).push(self.value@[i - 1]));
            }
        }
        assert(self.value@.take(self.value@.len() as int) =~= self.value@);
    }
}

/// A word found on the stack.
pub struct StackItem {
    value: usize,
}

impl StackItem {
    pub closed spec fn word(&self) -> usize {
        self.value
    }

    pub fn new(value: usize) -> (s: StackItem)
        ensures
            s.word() == value,
    {
        StackItem { value }
    }
}

/// A registered object with its mark and address.
pub struct HeapItem<O: Trace> {
    mark: bool,
    address: usize,
    object: Box<O>,
}

impl<O: Trace> HeapItem<O> {
    pub closed spec fn marked(&self) -> bool {
        self.mark
    }

    pub closed spec fn addr(&self) -> usize {
        self.address
    }

    /// The addresses the object refers to.
    pub closed spec fn object_refs(&self) -> Seq<usize> {
        self.object.refs()
    }

    /// The object held.
    pub closed spec fn obj(&self) -> O {
        *self.object
    }

    /// The same object at the same address, with the given mark.
    pub closed spec fn with_mark(&self, mark: bool) -> HeapItem<O> {
        HeapItem { mark, address: self.address, object: self.object }
    }

    pub fn new(addr: usize, tobj: Box<O>) -> (h: HeapItem<O>)
        ensures
            !h.marked(),
            h.addr() == addr,
            h.object_refs() == tobj.refs(),
            h.obj() == *tobj,
    {
        HeapItem { mark: false, address: addr, object: tobj }
    }
}

/// Giving an item a mark sets its mark to that and keeps its address and its
/// object.
pub broadcast proof fn lemma_with_mark<O: Trace>(h: HeapItem<O>, mark: bool)
    ensures
        (#[trigger] h.with_mark(mark)).marked() == mark,
        h.with_mark(mark).addr() == h.addr(),
        h.with_mark(mark).object_refs() == h.object_refs(),
        h.with_mark(mark).obj() == h.obj(),
{
}

/// The reference graph of a set of objects: each address to the addresses
/// its object refers to.
pub open spec fn graph_of<O: Trace>(objects: Map<usize, HeapItem<O>>) -> Map<usize, Seq<usize>> {
    Map::new(|a: usize| objects.contains_key(a), |a: usize| objects[a].object_refs())
}

/// `p` is a path of objects, each referring to the next.
pub open spec fn is_path(g: Map<usize, Seq<usize>>, p: Seq<usize>) -> bool {
    &&& p.len() > 0
    &&& forall|i: int| 0 <= i < p.len() ==> #[trigger] g.contains_key(p[i])
    &&& forall|j: int| 1 <= j < p.len() ==> g[p[j - 1]].contains(#[trigger] p[j])
}

/// Object `a` can be reached from one of the roots by following references.
pub open spec fn reachable(g: Map<usize, Seq<usize>>, roots: Seq<usize>, a: usize) -> bool {
    exists|p: Seq<usize>| #[trigger] is_path(g, p) && roots.contains(p[0]) && p.last() == a
}

/// `rank` decreases along every reference between objects reachable from
/// the roots: no cycle can be reached from them.
pub open spec fn ranked(
    g: Map<usize, Seq<usize>>,
    roots: Seq<usize>,
    rank: spec_fn(usize) -> nat,
) -> bool {
    forall|a: usize, i: int|
        #![trigger reachable(g, roots, a), g[a][i]]
        reachable(g, roots, a) && 0 <= i < g[a].len() && g.contains_key(g[a][i]) ==> rank(g[a][i])
            < rank(a)
}

/// Marking terminates: the objects reachable from the roots hold no cycle.
pub open spec fn acyclic_from(g: Map<usize, Seq<usize>>, roots: Seq<usize>) -> bool {
    exists|rank: spec_fn(usize) -> nat| ranked(g, roots, rank)
}

/// Number of objects a trace of `a` goes through, counting repeats.
spec fn weight(g: Map<usize, Seq<usize>>, rank: spec_fn(usize) -> nat, a: usize) -> nat
    decreases rank(a), 1nat, 0nat,
{
    if g.contains_key(a) {
        1 + weights(g, rank, g[a], rank(a))
    } else {
        1
    }
}

spec fn weights(g: Map<usize, Seq<usize>>, rank: spec_fn(usize) -> nat, s: Seq<usize>, bound: nat) -> nat
    decreases bound, 0nat, s.len(),
{
    if s.len() == 0 {
        0
    } else {
        let c = s.last();
        weights(g, rank, s.drop_last(), bound) + if !g.contains_key(c) {
            1
        } else if rank(c) < bound {
            weight(g, rank, c)
        } else {
            0
        }
    }
}

spec fn stack_weight(g: Map<usize, Seq<usize>>, rank: spec_fn(usize) -> nat, s: Seq<usize>) -> nat
    decreases s.len(),
{
    if s.len() == 0 {
        0
    } else {
        stack_weight(g, rank, s.drop_last()) + weight(g, rank, s.last())
    }
}

proof fn lemma_stack_weight_append(
    g: Map<usize, Seq<usize>>,
    rank: spec_fn(usize) -> nat,
    a: Seq<usize>,
    b: Seq<usize>,
)
    ensures
        stack_weight(g, rank, a + b) == stack_weight(g, rank, a) + stack_weight(g, rank, b),
    decreases b.len(),
{
    if b.len() == 0 {
        assert(a + b =~= a);
    } else {
        assert((a + b).drop_last() =~= a + b.drop_last());
        lemma_stack_weight_append(g, rank, a, b.drop_last());
    }
}

/// For an object whose references all rank lower, tracing it weighs one
/// more than the objects it refers to.
proof fn lemma_weights_children(
    g: Map<usize, Seq<usize>>,
    rank: spec_fn(usize) -> nat,
    s: Seq<usize>,
    bound: nat,
)
    requires
        forall|i: int| 0 <= i < s.len() && g.contains_key(s[i]) ==> rank(s[i]) < bound,
    ensures
        weights(g, rank, s, bound) == stack_weight(g, rank, s),
    decreases s.len(),
{
    if s.len() > 0 {
        lemma_weights_children(g, rank, s.drop_last(), bound);
    }
}

/// Extending a path by a reference of its last object gives a path.
proof fn lemma_path_extend(g: Map<usize, Seq<usize>>, p: Seq<usize>, c: usize)
    requires
        is_path(g, p),
        g[p.last()].contains(c),
        g.contains_key(c),
    ensures
        is_path(g, p.push(c)),
        p.push(c)[0] == p[0],
        p.push(c).last() == c,
{
    let q = p.push(c);
    assert forall|j: int| 1 <= j < q.len() implies g[q[j - 1]].contains(#[trigger] q[j]) by {
        if j < p.len() {
            assert(q[j - 1] == p[j - 1] && q[j] == p[j]);
        } else {
            assert(q[j - 1] == p.last());
        }
    }
    assert forall|i: int| 0 <= i < q.len() implies #[trigger] g.contains_key(q[i]) by {
        if i < p.len() {
            assert(q[i] == p[i]);
        }
    }
}

/// Every object reachable from the roots is in a set that holds the roots
/// and, with each object, every object it refers to.
proof fn lemma_closed_holds_reachable(
    g: Map<usize, Seq<usize>>,
    roots: Seq<usize>,
    v: Set<usize>,
    a: usize,
)
    requires
        forall|r: usize| roots.contains(r) && g.contains_key(r) ==> v.contains(r),
        forall|x: usize, c: usize|
            #![trigger g[x].contains(c)]
            v.contains(x) && g[x].contains(c) && g.contains_key(c) ==> v.contains(c),
        reachable(g, roots, a),
    ensures
        v.contains(a),
{
    let p = choose|p: Seq<usize>| #[trigger] is_path(g, p) && roots.contains(p[0]) && p.last() == a;
    assert(g.contains_key(p[0]));
    lemma_path_in(g, v, p, p.len() - 1);
}

proof fn lemma_path_in(g: Map<usize, Seq<usize>>, v: Set<usize>, p: Seq<usize>, k: int)
    requires
        is_path(g, p),
        0 <= k < p.len(),
        v.contains(p[0]),
        forall|x: usize, c: usize|
            #![trigger g[x].contains(c)]
            v.contains(x) && g[x].contains(c) && g.contains_key(c) ==> v.contains(c),
    ensures
        v.contains(p[k]),
    decreases k,
{
    if k > 0 {
        lemma_path_in(g, v, p, k - 1);
        assert(g[p[k - 1]].contains(p[k]));
        assert(g.contains_key(p[k]));
    }
}

/// A memory of boxed objects registered under their addresses.
pub struct Memory<O: Trace> {
    objects: BTreeMap<usize, HeapItem<O>>,
    scan: Vec<StackItem>,
    base: usize,
}

impl<O: Trace> Memory<O> {
    /// The registered objects by address.
    pub closed spec fn objects(&self) -> Map<usize, HeapItem<O>> {
        self.objects@
    }

    /// The stack words found by the last scan, not yet used for marking.
    pub closed spec fn scanned(&self) -> Seq<usize> {
        self.scan@.map_values(|s: StackItem| s.word())
    }

    pub closed spec fn base_spec(&self) -> usize {
        self.base
    }

    /// Every object is registered under its own address.
    pub open spec fn wf(&self) -> bool {
        forall|a: usize| #[trigger] self.objects().contains_key(a) ==> self.objects()[a].addr() == a
    }

    pub fn new() -> (m: Memory<O>)
        ensures
            m.objects() == Map::<usize, HeapItem<O>>::empty(),
            m.scanned() == Seq::<usize>::empty(),
            m.base_spec() == 0xbeefbabe,
            m.wf(),
    {
        let m = Memory { objects: BTreeMap::new(), scan: Vec::new(), base: 0xbeefbabe };
        assert(m.scanned() =~= Seq::<usize>::empty());
        m
    }

    /// The marker word that stands at the base of the region scanned.
    pub fn base(&self) -> (b: usize)
        ensures
            b == self.base_spec(),
    {
        self.base
    }

    /// Whether an object is registered under `address`.
    pub fn contains(&self, address: usize) -> (r: bool)
        ensures
            r == self.objects().contains_key(address),
    {
        self.objects.contains_key(&address)
    }

    /// Whether the object registered under `address` is marked, if there is one.
    pub fn is_marked(&self, address: usize) -> (r: Option<bool>)
        ensures
            r == (if self.objects().contains_key(address) {
                Some(self.objects()[address].marked())
            } else {
                None
            }),
    {
        match self.objects.get(&address) {
            Some(item) => Some(item.mark),
            None => None,
        }
    }

    /// The object registered under `address`, if there is one.
    pub fn object(&self, address: usize) -> (r: Option<&O>)
        ensures
            r == (if self.objects().contains_key(address) {
                Some(&self.objects()[address].obj())
            } else {
                None
            }),
    {
        match self.objects.get(&address) {
            Some(item) => Some(&*item.object),
            None => None,
        }
    }

    /// The number of registered objects.
    pub fn len(&self) -> (n: usize)
        ensures
            n == self.objects().len(),
    {
        self.objects.len()
    }

    /// Register a boxed object under its address, unmarked.
    pub fn register(&mut self, address: usize, object: Box<O>)
        requires
            old(self).wf(),
        ensures
            final(self).wf(),
            final(self).objects().dom() == old(self).objects().dom().insert(address),
            !final(self).objects()[address].marked(),
            final(self).objects()[address].addr() == address,
            final(self).objects()[address].object_refs() == object.refs(),
            final(self).objects()[address].obj() == *object,
            forall|a: usize|
                a != address && old(self).objects().contains_key(a) ==> final(self).objects()[a]
                    == old(self).objects()[a],
            final(self).scanned() == old(self).scanned(),
    {
        let item = HeapItem::new(address, object);
        self.objects.insert(address, item);
        assert forall|a: usize| #[trigger] self.objects().contains_key(a) implies self.objects()[a].addr()
            == a by {
            if a != address {
                assert(old(self).objects().contains_key(a));
            }
        }
    }

    /// Record the words found on the stack.
    pub fn record_stack(&mut self, words: &Vec<usize>)
        requires
            old(self).wf(),
        ensures
            final(self).wf(),
            final(self).scanned() == old(self).scanned() + words@,
            final(self).objects() == old(self).objects(),
    {
        let mut i: usize = 0;
        while i < words.len()
            invariant
                i <= words@.len(),
                self.scanned() == old(self).scanned() + words@.take(i as int),
                self.objects() == old(self).objects(),
            decreases words@.len() - i,
        {
            let ghost prev = self.scanned();
            let item = StackItem::new(words[i]);
            self.scan.push(item);
            proof {
                assert(self.scanned() =~= prev.push(words@[i as int]));
            }
            i = i + 1;
            proof {
                assert(words@.take(i as int) =~= words@.take(i - 1).push(words@[i - 1]));
                assert(self.scanned() =~= old(self).scanned() + words@.take(i as int));
            }
        }
        assert(words@.take(words@.len() as int) =~= words@);
    }

    /// Forget the words found on the stack.
    pub fn clear_scan(&mut self)
        requires
            old(self).wf(),
        ensures
            final(self).wf(),
            final(self).scanned() == Seq::<usize>::empty(),
            final(self).objects() == old(self).objects(),
    {
        self.scan.clear();
        assert(self.scanned() =~= Seq::<usize>::empty());
        assert(self.objects() == old(self).objects());
    }

    /// Mark every object reachable from the stack words that are object
    /// addresses, following references; the stack words are used up.
    pub fn mark(&mut self)
        requires
            old(self).wf(),
            acyclic_from(graph_of(old(self).objects()), old(self).scanned()),
        ensures
            final(self).wf(),
            final(self).scanned() == Seq::<usize>::empty(),
            final(self).objects().dom() == old(self).objects().dom(),
            forall|a: usize| #[trigger]
                old(self).objects().contains_key(a) ==> final(self).objects()[a] == old(
                    self,
                ).objects()[a].with_mark(
                    old(self).objects()[a].marked() || reachable(
                        graph_of(old(self).objects()),
                        old(self).scanned(),
                        a,
                    ),
                ),
    {
        let ghost g = graph_of(self.objects@);
        let ghost roots = self.scanned();
        let ghost old_objects = self.objects@;
        let ghost rank = choose|rank: spec_fn(usize) -> nat| ranked(g, roots, rank);
        let mut heap_scan: Vec<usize> = Vec::new();

        // #1 scan the stack for heap objects
        let mut i: usize = 0;
        while i < self.scan.len()
            invariant
                i <= self.scan@.len(),
                self.objects@ == old_objects,
                roots == self.scanned(),
                g == graph_of(old_objects),
                forall|k: int|
                    0 <= k < heap_scan@.len() ==> roots.contains(#[trigger] heap_scan@[k])
                        && g.contains_key(heap_scan@[k]),
                forall|j: int|
                    0 <= j < i && g.contains_key(#[trigger] roots[j]) ==> heap_scan@.contains(
                        roots[j],
                    ),
            decreases self.scan@.len() - i,
        {
            let possible_address = self.scan[i].value;
            let ghost before = heap_scan@;
            proof {
                assert(roots[i as int] == possible_address);
            }
            if self.objects.contains_key(&possible_address) {
                heap_scan.push(possible_address);
                proof {
                    assert(heap_scan@[before.len() as int] == possible_address);
                    assert forall|j: int|
                        0 <= j < i && g.contains_key(#[trigger] roots[j]) implies heap_scan@.contains(
                        roots[j],
                    ) by {
                        let k = choose|k: int| 0 <= k < before.len() && before[k] == roots[j];
                        assert(heap_scan@[k] == roots[j]);
                    }
                }
            }
            i = i + 1;
        }
        self.scan.clear();
        let ghost mut visited: Set<usize> = Set::empty();
        proof {
            assert forall|r: usize| roots.contains(r) && g.contains_key(r) implies heap_scan@.contains(
                r,
            ) by {
                let j = choose|j: int| 0 <= j < roots.len() && roots[j] == r;
            }
            assert forall|k: int|
                0 <= k < heap_scan@.len() && g.contains_key(heap_scan@[k]) implies reachable(
                g,
                roots,
                heap_scan@[k],
            ) by {
                let r = heap_scan@[k];
                let p = seq![r];
                assert(is_path(g, p));
            }
        }

        // #2 trace the heap object graph
        while heap_scan.len() > 0
            invariant
                g == graph_of(old_objects),
                self.objects@.dom() == old_objects.dom(),
                forall|a: usize| #[trigger]
                    old_objects.contains_key(a) ==> self.objects@[a] == old_objects[a].with_mark(
                        old_objects[a].marked() || visited.contains(a),
                    ),
                forall|a: usize| visited.contains(a) ==> reachable(g, roots, a) && g.contains_key(a),
                forall|r: usize|
                    roots.contains(r) && g.contains_key(r) ==> visited.contains(r)
                        || heap_scan@.contains(r),
                forall|x: usize, c: usize|
                    #![trigger g[x].contains(c)]
                    visited.contains(x) && g[x].contains(c) && g.contains_key(c) ==> visited.contains(c)
                        || heap_scan@.contains(c),
                forall|k: int|
                    0 <= k < heap_scan@.len() && g.contains_key(heap_scan@[k]) ==> reachable(
                        g,
                        roots,
                        heap_scan@[k],
                    ),
                ranked(g, roots, rank),
                self.scanned() == Seq::<usize>::empty(),
            decreases stack_weight(g, rank, heap_scan@),
        {
            let ghost before = heap_scan@;
            let heap_address = heap_scan.pop().unwrap();
            proof {
                assert(before =~= heap_scan@.push(heap_address));
            }
            if self.objects.contains_key(&heap_address) {
                let mut heap_item = self.objects.remove(&heap_address).unwrap();
                heap_item.mark = true;
                let ghost rest = heap_scan@;
                heap_item.object.trace(&mut heap_scan);
                self.objects.insert(heap_address, heap_item);
                proof {
                    let x = heap_address;
                    assert(g.contains_key(x));
                    assert(g[x] == old_objects[x].object_refs());
                    assert(heap_scan@ == rest + g[x]);
                    assert(reachable(g, roots, x)) by {
                        assert(before[before.len() - 1] == x);
                    }
                    let old_visited = visited;
                    visited = visited.insert(x);
                    // the stack's weight drops by one
                    assert forall|i: int| 0 <= i < g[x].len() && g.contains_key(g[x][i]) implies rank(
                        g[x][i],
                    ) < rank(x) by {
                    }
                    lemma_weights_children(g, rank, g[x], rank(x));
                    lemma_stack_weight_append(g, rank, rest, g[x]);
                    assert(before.drop_last() =~= rest);
                    // what was on the stack, or is referred to by x, is on the stack
                    assert forall|c: usize| #[trigger]
                        rest.contains(c) implies heap_scan@.contains(c) by {
                        let j = choose|j: int| 0 <= j < rest.len() && rest[j] == c;
                        assert(heap_scan@[j] == c);
                    }
                    assert forall|c: usize| #[trigger]
                        g[x].contains(c) implies heap_scan@.contains(c) by {
                        let j = choose|j: int| 0 <= j < g[x].len() && g[x][j] == c;
                        assert(heap_scan@[rest.len() + j] == c);
                    }
                    assert forall|c: usize| before.contains(c) && c != x implies rest.contains(c) by {
                        let j = choose|j: int| 0 <= j < before.len() && before[j] == c;
                        assert(j < rest.len());
                        assert(rest[j] == c);
                    }
                    assert forall|k: int|
                        0 <= k < heap_scan@.len() && g.contains_key(heap_scan@[k]) implies reachable(
                        g,
                        roots,
                        heap_scan@[k],
                    ) by {
                        if k < rest.len() {
                            assert(heap_scan@[k] == before[k]);
                        } else {
                            let c = heap_scan@[k];
                            assert(g[x].contains(c)) by {
                                assert(g[x][k - rest.len()] == c);
                            }
                            let p = choose|p: Seq<usize>|
                                #[trigger] is_path(g, p) && roots.contains(p[0]) && p.last() == x;
                            lemma_path_extend(g, p, c);
                        }
                    }
                    assert forall|a: usize| #[trigger]
                        old_objects.contains_key(a) implies self.objects@[a] == old_objects[a].with_mark(
                        old_objects[a].marked() || visited.contains(a),
                    ) by {
                        if a == x {
                            assert(self.objects@[a] == old_objects[a].with_mark(true));
                        }
                    }
                    assert forall|x2: usize, c: usize|
                        #![trigger g[x2].contains(c)]
                        visited.contains(x2) && g[x2].contains(c) && g.contains_key(c) implies visited.contains(c)
                            || heap_scan@.contains(c) by {
                        if x2 == x {
                        } else {
                            assert(old_visited.contains(c) || before.contains(c));
                            if !old_visited.contains(c) && c != x {
                                assert(rest.contains(c));
                            }
                        }
                    }
                    assert forall|r: usize|
                        roots.contains(r) && g.contains_key(r) implies visited.contains(r)
                            || heap_scan@.contains(r) by {
                        if !old_visited.contains(r) && r != x {
                            assert(before.contains(r));
                            assert(rest.contains(r));
                        }
                    }
                    assert(self.objects@.dom() =~= old_objects.dom());
                }
            } else {
                proof {
                    assert(before.drop_last() =~= heap_scan@);
                    assert(!g.contains_key(heap_address));
                    assert forall|c: usize| before.contains(c) && c != heap_address implies heap_scan@.contains(c) by {
                        let j = choose|j: int| 0 <= j < before.len() && before[j] == c;
                        assert(j < heap_scan@.len());
                        assert(heap_scan@[j] == c);
                    }
                    assert forall|k: int|
                        0 <= k < heap_scan@.len() && g.contains_key(heap_scan@[k]) implies reachable(
                        g,
                        roots,
                        heap_scan@[k],
                    ) by {
                        assert(heap_scan@[k] == before[k]);
                    }
                }
            }
        }
        proof {
            assert forall|a: usize| #[trigger]
                old_objects.contains_key(a) implies self.objects@[a] == old_objects[a].with_mark(
                old_objects[a].marked() || reachable(g, roots, a),
            ) by {
                if reachable(g, roots, a) {
                    lemma_closed_holds_reachable(g, roots, visited, a);
                }
            }
            assert(self.scanned() =~= Seq::<usize>::empty());
        }
    }

    /// Drop every unmarked object and clear the marks of the others.
    /// Returns the addresses of the dropped objects, in increasing order.
    pub fn collect(&mut self) -> (dropped: Vec<usize>)
        requires
            old(self).wf(),
        ensures
            final(self).wf(),
            final(self).scanned() == old(self).scanned(),
            final(self).objects().dom() == old(self).objects().dom().filter(
                |a: usize| old(self).objects()[a].marked(),
            ),
            forall|a: usize| #[trigger]
                final(self).objects().contains_key(a) ==> final(self).objects()[a] == old(
                    self,
                ).objects()[a].with_mark(false),
            dropped@.to_set() == old(self).objects().dom().filter(
                |a: usize| !old(self).objects()[a].marked(),
            ),
            forall|i: int, j: int| 0 <= i < j < dropped@.len() ==> dropped@[i] < dropped@[j],
    {
        let ghost old_objects = self.objects@;
        assert forall|a: usize| #[trigger] old_objects.contains_key(a) implies old_objects[a].addr()
            == a by {
            assert(self.objects().contains_key(a));
        }
        let mut keys: Vec<usize> = Vec::new();
        let ghost ks = vstd::std_specs::btree::spec_keys_iter(&self.objects).remaining().unref();
        proof {
            vstd::std_specs::btree::axiom_spec_keys_iter(&self.objects);
            lemma_increasing_keys(vstd::std_specs::btree::spec_keys_iter(&self.objects).remaining());
        }
        for k in it: self.objects.keys()
            invariant
                it.seq().unref() == ks,
                ks.to_set() == old_objects.dom(),
                keys@ == ks.take(it.index() as int),
                old_objects == self.objects@,
                forall|a: usize| #[trigger]
                    old_objects.contains_key(a) ==> old_objects[a].addr() == a,
                self.scan@ == old(self).scan@,
        {
            keys.push(*k);
            proof {
                assert(keys@ =~= ks.take(it.index() as int + 1));
            }
        }
        proof {
            assert(keys@ =~= ks);
        }
        let mut dropped: Vec<usize> = Vec::new();
        let mut i: usize = 0;
        while i < keys.len()
            invariant
                i <= keys@.len(),
                keys@ == ks,
                ks.to_set() == old_objects.dom(),
                ks.no_duplicates(),
                forall|x: int, y: int| 0 <= x < y < ks.len() ==> ks[x] < ks[y],
                forall|a: usize| #[trigger]
                    old_objects.contains_key(a) ==> old_objects[a].addr() == a,
                // keys not yet visited are untouched
                forall|j: int|
                    i <= j < ks.len() ==> self.objects@.contains_key(#[trigger] ks[j])
                        && self.objects@[ks[j]] == old_objects[ks[j]],
                // visited keys: kept with a clear mark, or dropped
                forall|j: int|
                    0 <= j < i ==> (#[trigger] self.objects@.contains_key(ks[j]) <==> old_objects[ks[j]].marked()),
                forall|j: int|
                    0 <= j < i && old_objects[ks[j]].marked() ==> self.objects@[#[trigger] ks[j]]
                        == old_objects[ks[j]].with_mark(false),
                self.objects@.dom().subset_of(old_objects.dom()),
                dropped@ == ks.take(i as int).filter(|a: usize| !old_objects[a].marked()),
                self.scan@ == old(self).scan@,
            decreases keys@.len() - i,
        {
            let key = keys[i];
            let ghost pre = self.objects@;
            let mut heap_item = self.objects.remove(&key).unwrap();
            let ghost before = dropped@;
            proof {
                reveal(Seq::filter);
                assert(ks.take(i + 1).drop_last() =~= ks.take(i as int));
                assert(ks.take(i + 1).last() == key);
                assert forall|j: int| i < j < ks.len() implies ks[j] != key by {
                }
            }
            if heap_item.mark {
                heap_item.mark = false;
                let address = heap_item.address;
                self.objects.insert(address, heap_item);
            } else {
                dropped.push(heap_item.address);
            }
            proof {
                assert forall|j: int| 0 <= j < i implies ks[j] != key by {
                }
                assert forall|j: int| i < j < ks.len() implies self.objects@.contains_key(#[trigger] ks[j])
                    && self.objects@[ks[j]] == old_objects[ks[j]] by {
                    assert(ks[j] != key);
                    assert(pre.contains_key(ks[j]));
                }
            }
            i = i + 1;
        }
        proof {
            assert(ks.take(ks.len() as int) =~= ks);
            let marked_dom = old_objects.dom().filter(|a: usize| old_objects[a].marked());
            assert forall|a: usize| self.objects@.contains_key(a) <==> marked_dom.contains(a) by {
                if old_objects.contains_key(a) {
                    assert(ks.to_set().contains(a));
                    let j = choose|j: int| 0 <= j < ks.len() && ks[j] == a;
                    assert(self.objects@.contains_key(ks[j]) <==> old_objects[ks[j]].marked());
                }
            }
            assert(self.objects@.dom() =~= marked_dom);
            assert forall|a: usize| #[trigger] self.objects@.contains_key(a) implies self.objects@[a]
                == old_objects[a].with_mark(false) by {
                let j = choose|j: int| 0 <= j < ks.len() && ks[j] == a;
                assert(self.objects@[ks[j]] == old_objects[ks[j]].with_mark(false));
            }
            let unmarked = |a: usize| !old_objects[a].marked();
            assert forall|a: usize| dropped@.to_set().contains(a) <==> old_objects.dom().filter(unmarked).contains(a) by {
                if dropped@.contains(a) {
                    let k = choose|k: int| 0 <= k < dropped@.len() && dropped@[k] == a;
                    ks.lemma_filter_pred(unmarked, k);
                    assert(ks.filter(unmarked).contains(a));
                    ks.lemma_filter_contains_rev(unmarked, a);
                }
                if old_objects.contains_key(a) && unmarked(a) {
                    let j = choose|j: int| 0 <= j < ks.len() && ks[j] == a;
                    ks.lemma_filter_contains(unmarked, j);
                }
            }
            assert(dropped@.to_set() =~= old_objects.dom().filter(unmarked));
            lemma_filter_increasing(ks, unmarked);
            assert(self.scanned() =~= old(self).scanned());
        }
        dropped
    }

    /// A collection: record the stack words, mark from them, drop the
    /// unmarked objects and forget the stack words. Returns the addresses
    /// of the dropped objects, in increasing order.
    pub fn gc(&mut self, words: &Vec<usize>) -> (dropped: Vec<usize>)
        requires
            old(self).wf(),
            acyclic_from(graph_of(old(self).objects()), old(self).scanned() + words@),
        ensures
            final(self).wf(),
            final(self).scanned() == Seq::<usize>::empty(),
            final(self).objects().dom() == old(self).objects().dom().filter(
                |a: usize|
                    old(self).objects()[a].marked() || reachable(
                        graph_of(old(self).objects()),
                        old(self).scanned() + words@,
                        a,
                    ),
            ),
            forall|a: usize| #[trigger]
                final(self).objects().contains_key(a) ==> final(self).objects()[a] == old(
                    self,
                ).objects()[a].with_mark(false),
            dropped@.to_set() == old(self).objects().dom().filter(
                |a: usize|
                    !(old(self).objects()[a].marked() || reachable(
                        graph_of(old(self).objects()),
                        old(self).scanned() + words@,
                        a,
                    )),
            ),
            forall|i: int, j: int| 0 <= i < j < dropped@.len() ==> dropped@[i] < dropped@[j],
    {
        let ghost old_objects = self.objects@;
        let ghost roots = old(self).scanned() + words@;
        self.record_stack(words);
        self.mark();
        let ghost marked_objects = self.objects@;
        let dropped = self.collect();
        self.clear_scan();
        proof {
            let g = graph_of(old_objects);
            assert(marked_objects.dom() == old_objects.dom());
            let keep = |a: usize| old_objects[a].marked() || reachable(g, roots, a);
            assert(self.objects@.dom() =~= old_objects.dom().filter(keep));
            assert forall|a: usize| #[trigger] self.objects@.contains_key(a) implies self.objects@[a]
                == old_objects[a].with_mark(false) by {
                assert(marked_objects[a] == old_objects[a].with_mark(keep(a)));
            }
            assert(dropped@.to_set() =~= old_objects.dom().filter(|a: usize| !keep(a)));
        }
        dropped
    }
}

/// Filtering an increasing sequence keeps it increasing.
proof fn lemma_filter_increasing(s: Seq<usize>, pred: spec_fn(usize) -> bool)
    requires
        forall|i: int, j: int| 0 <= i < j < s.len() ==> s[i] < s[j],
    ensures
        forall|i: int, j: int| 0 <= i < j < s.filter(pred).len() ==> s.filter(pred)[i] < s.filter(
            pred,
        )[j],
        forall|i: int| 0 <= i < s.filter(pred).len() ==> s.contains(#[trigger] s.filter(pred)[i]),
    decreases s.len(),
{
    reveal(Seq::filter);
    if s.len() > 0 {
        lemma_filter_increasing(s.drop_last(), pred);
        let f = s.drop_last().filter(pred);
        assert forall|i: int| 0 <= i < f.len() implies f[i] < s.last() by {
            let k = choose|k: int| 0 <= k < s.drop_last().len() && s.drop_last()[k] == f[i];
        }
        assert forall|i: int| 0 <= i < s.filter(pred).len() implies s.contains(#[trigger] s.filter(pred)[i]) by {
            if i < f.len() {
                let k = choose|k: int| 0 <= k < s.drop_last().len() && s.drop_last()[k] == f[i];
                assert(s[k] == f[i]);
            } else {
                assert(s[s.len() - 1] == s.last());
            }
        }
    }
}

} // verus!
