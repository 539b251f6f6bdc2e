//! Label-indexed trees.
//!
//! A tree keeps its nodes in a table; a node names its children by their
//! index in that table. Each node stands at a path of keys from the root, and
//! the tree as a whole is the map from those paths to the nodes' values.

use vstd::prelude::*;
use crate::name::{Key, Labelette, fold_bytes, bytes_eq, keys_of};

verus! {

/// The slot of a bit labelette among a node's binary children.
pub open spec fn bit_slot(bit: bool) -> int {
    if bit { 1 } else { 0 }
}

pub fn bit_index(bit: bool) -> (r: usize)
    ensures
        r == bit_slot(bit),
{
    if bit { 1 } else { 0 }
}

/// The map `m` with every prefix of `p` that it lacks added, valued `None`.
pub open spec fn with_path<T>(m: Map<Seq<Key>, Option<T>>, p: Seq<Key>) -> Map<Seq<Key>, Option<T>>
    decreases p.len(),
{
    if p.len() == 0 {
        m
    } else {
        let m2 = with_path(m, p.drop_last());
        if m2.contains_key(p) { m2 } else { m2.insert(p, None) }
    }
}

/// What `with_path` holds: the old entries unchanged, the path and its
/// prefixes present, nothing else added, and the added entries valued `None`.
pub proof fn lemma_with_path<T>(m: Map<Seq<Key>, Option<T>>, p: Seq<Key>)
    requires
        m.contains_key(Seq::<Key>::empty()),
    ensures
        with_path(m, p).contains_key(p),
        forall|q: Seq<Key>| #[trigger] with_path(m, p).contains_key(q)
            <==> (m.contains_key(q) || (q.len() <= p.len() && q == p.subrange(0, q.len() as int))),
        forall|q: Seq<Key>| #[trigger] with_path(m, p).contains_key(q) ==>
            with_path(m, p)[q] == (if m.contains_key(q) { m[q] } else { None }),
    decreases p.len(),
{
    if p.len() == 0 {
        assert(m.contains_key(p) || p =~= Seq::<Key>::empty());
        assert forall|q: Seq<Key>| #[trigger] with_path(m, p).contains_key(q)
            <==> (m.contains_key(q) || (q.len() <= p.len() && q == p.subrange(0, q.len() as int))) by {
            if q.len() <= p.len() && q == p.subrange(0, q.len() as int) {
                assert(q =~= Seq::<Key>::empty());
            }
        }
    } else {
        lemma_with_path(m, p.drop_last());
        let m2 = with_path(m, p.drop_last());
        assert(with_path(m, p) == (if m2.contains_key(p) { m2 } else { m2.insert(p, None) }));
        assert forall|q: Seq<Key>| #[trigger] with_path(m, p).contains_key(q)
            <==> (m.contains_key(q) || (q.len() <= p.len() && q == p.subrange(0, q.len() as int))) by {
            if q == p {
                assert(q == p.subrange(0, q.len() as int));
            }
            if q.len() <= p.drop_last().len() && q == p.drop_last().subrange(0, q.len() as int) {
                assert(q == p.subrange(0, q.len() as int));
            }
            if q.len() <= p.len() && q == p.subrange(0, q.len() as int) && q.len() < p.len() {
                assert(q == p.drop_last().subrange(0, q.len() as int));
            }
            if q.len() == p.len() && q == p.subrange(0, q.len() as int) {
                assert(q =~= p);
            }
        }
    }
}

/// `with_path` commutes with a map of the values that keeps `None`.
pub proof fn lemma_with_path_map<A, B>(m: Map<Seq<Key>, Option<A>>, p: Seq<Key>, f: spec_fn(Option<A>) -> Option<B>)
    requires
        f(None) == None::<B>,
    ensures
        with_path(m.map_values(f), p) == with_path(m, p).map_values(f),
    decreases p.len(),
{
    if p.len() == 0 {
        assert(with_path(m.map_values(f), p) =~= with_path(m, p).map_values(f));
    } else {
        lemma_with_path_map(m, p.drop_last(), f);
        assert(with_path(m.map_values(f), p) =~= with_path(m, p).map_values(f));
    }
}

/// The children of a node, by index into the tree's node table: normal
/// labels keyed by their folded bytes, and the two bit slots.
#[derive(Debug)]
pub struct NodeChildren {
    normal: Vec<(Vec<u8>, usize)>,
    binary: [Option<usize>; 2],
}

impl NodeChildren {
    pub fn new() -> (r: NodeChildren)
        ensures
            r.is_empty(),
            forall|k: Key, j: int| !r.has_edge(k, j),
    {
        NodeChildren { normal: Vec::new(), binary: [None, None] }
    }

    pub closed spec fn is_empty(&self) -> bool {
        &&& self.normal@.len() == 0
        &&& self.binary[0] is None
        &&& self.binary[1] is None
    }

    /// Whether the child at key `k` is node `j`.
    pub closed spec fn has_edge(&self, k: Key, j: int) -> bool {
        match k {
            Key::Normal(s) => exists|c: int|
                0 <= c < self.normal@.len() && (#[trigger] self.normal@[c]).0@ == s
                    && self.normal@[c].1 == j,
            Key::Bit(b) => self.binary[bit_slot(b)] is Some && self.binary[bit_slot(b)]->Some_0 == j,
        }
    }

    /// The child at labelette `l`.
    pub fn get(&self, l: &Labelette) -> (r: Option<usize>)
        ensures
            r matches Some(j) ==> self.has_edge(l.key(), j as int),
            r is None ==> forall|j: int| !self.has_edge(l.key(), j),
    {
        match l {
            Labelette::Normal(bytes) => {
                let key = fold_bytes(bytes);
                let mut c: usize = 0;
                while c < self.normal.len()
                    invariant
                        c <= self.normal@.len(),
                        l.key() == Key::Normal(key@),
                        forall|d: int| 0 <= d < c ==> (#[trigger] self.normal@[d]).0@ != key@,
                    decreases self.normal@.len() - c,
                {
                    if bytes_eq(&self.normal[c].0, &key) {
                        assert(self.has_edge(l.key(), self.normal@[c as int].1 as int));
                        return Some(self.normal[c].1);
                    }
                    c += 1;
                }
                None
            },
            Labelette::Bit(bit) => self.binary[bit_index(*bit)],
        }
    }

    /// Adds the edge at labelette `l` to node `j`.
    pub fn add_edge(&mut self, l: &Labelette, j: usize)
        requires
            forall|j2: int| !old(self).has_edge(l.key(), j2),
        ensures
            forall|k: Key, j2: int| #[trigger] final(self).has_edge(k, j2)
                <==> (old(self).has_edge(k, j2) || (k == l.key() && j2 == j)),
            forall|n: int| old(self).below(n) && j < n ==> #[trigger] final(self).below(n),
    {
        let ghost before = *self;
        match l {
            Labelette::Normal(bytes) => {
                let key = fold_bytes(bytes);
                self.normal.push((key, j));
                proof {
                    let last = self.normal@.len() - 1;
                    assert(self.normal@[last].0@ == key@);
                    assert(self.normal@[last].1 == j);
                    assert(l.key() == Key::Normal(key@));
                    assert(self.has_edge(l.key(), j as int));
                    assert forall|k: Key, j2: int| #[trigger] self.has_edge(k, j2)
                        <==> (before.has_edge(k, j2) || (k == l.key() && j2 == j)) by {
                        if let Key::Normal(t) = k {
                            if before.has_edge(k, j2) {
                                let c = choose|c: int| 0 <= c < before.normal@.len()
                                    && (#[trigger] before.normal@[c]).0@ == t
                                    && before.normal@[c].1 == j2;
                                assert(self.normal@[c] == before.normal@[c]);
                            }
                            if self.has_edge(k, j2) {
                                let c = choose|c: int| 0 <= c < self.normal@.len()
                                    && (#[trigger] self.normal@[c]).0@ == t
                                    && self.normal@[c].1 == j2;
                                if c < before.normal@.len() {
                                    assert(before.normal@[c] == self.normal@[c]);
                                    assert(before.has_edge(k, j2));
                                } else {
                                    assert(c == last);
                                    assert(k == l.key() && j2 == j);
                                }
                            }
                            if k == l.key() && j2 == j {
                                assert(self.has_edge(k, j2));
                            }
                        }
                    }
                    assert forall|n: int| before.below(n) && j < n implies #[trigger] self.below(n) by {
                        assert forall|c: int| 0 <= c < self.normal@.len() implies (#[trigger] self.normal@[c]).1 < n by {
                            if c < before.normal@.len() {
                                assert(before.normal@[c] == self.normal@[c]);
                            }
                        }
                    }
                }
            },
            Labelette::Bit(bit) => {
                if *bit {
                    self.binary = [self.binary[0], Some(j)];
                } else {
                    self.binary = [Some(j), self.binary[1]];
                }
            },
        };
    }

    proof fn lemma_edge_below(&self, k: Key, j: int, n: int)
        requires
            self.below(n),
            self.has_edge(k, j),
        ensures
            0 <= j < n,
    {
        match k {
            Key::Normal(t) => {
                let c = choose|c: int| 0 <= c < self.normal@.len()
                    && (#[trigger] self.normal@[c]).0@ == t && self.normal@[c].1 == j;
                assert(self.normal@[c].1 < n);
                assert(0 <= j < n);
            },
            Key::Bit(b) => {
                assert(self.binary[bit_slot(b)] is Some);
            },
        };
    }

    /// Every child index is below `n`.
    pub closed spec fn below(&self, n: int) -> bool {
        &&& forall|c: int| 0 <= c < self.normal@.len() ==> (#[trigger] self.normal@[c]).1 < n
        &&& forall|b: int| 0 <= b < 2 && (#[trigger] self.binary[b]) is Some ==> self.binary[b]->Some_0 < n
    }
}

/// A node of a tree: its value and its children.
#[derive(Debug)]
pub struct Node<V> {
    value: V,
    children: NodeChildren,
}

impl<V> Node<V> {
    pub closed spec fn val(&self) -> V {
        self.value
    }

    pub closed spec fn kids(&self) -> NodeChildren {
        self.children
    }

    pub fn new(value: V) -> (r: Node<V>)
        ensures
            r.val() == value,
            r.kids().is_empty(),
            forall|k: Key, j: int| !r.kids().has_edge(k, j),
    {
        Node { value, children: NodeChildren::new() }
    }

    pub fn value(&self) -> (r: &V)
        ensures
            *r == self.val(),
    {
        &self.value
    }

    pub fn value_mut(&mut self) -> (r: &mut V)
        ensures
            *r == old(self).val(),
            final(self).val() == *final(r),
            final(self).kids() == old(self).kids(),
    {
        &mut self.value
    }
}

/// A tree of optional values, indexed by labelettes.
pub struct Tree<T> {
    nodes: Vec<Node<Option<T>>>,
    paths: Ghost<Seq<Seq<Key>>>,
}

impl<T> Tree<T> {
    pub closed spec fn len(&self) -> int {
        self.nodes@.len() as int
    }

    /// The path of node `i`.
    pub closed spec fn path_at(&self, i: int) -> Seq<Key> {
        self.paths@[i]
    }

    pub closed spec fn has(&self, p: Seq<Key>) -> bool {
        exists|i: int| 0 <= i < self.len() && self.paths@[i] == p
    }

    pub closed spec fn index_of(&self, p: Seq<Key>) -> int {
        choose|i: int| 0 <= i < self.len() && self.paths@[i] == p
    }

    pub closed spec fn view(&self) -> Map<Seq<Key>, Option<T>> {
        Map::new(|p: Seq<Key>| self.has(p), |p: Seq<Key>| self.nodes@[self.index_of(p)].val())
    }

    pub closed spec fn wf(&self) -> bool {
        let n = self.len();
        &&& n >= 1
        &&& self.paths@.len() == n
        &&& self.paths@[0] == Seq::<Key>::empty()
        &&& forall|i: int, j: int|
            0 <= i < n && 0 <= j < n && i != j ==> self.paths@[i] != self.paths@[j]
        &&& forall|i: int| 0 <= i < n ==> (#[trigger] self.nodes@[i]).kids().below(n)
        &&& forall|i: int, k: Key, j: int|
            0 <= i < n && #[trigger] self.nodes@[i].kids().has_edge(k, j)
                ==> self.paths@[j] == self.paths@[i].push(k)
        &&& forall|i: int, j: int|
            0 <= i < n && 0 <= j < n && self.paths@[j].len() > 0
                && self.paths@[j].drop_last() == self.paths@[i]
                ==> #[trigger] self.nodes@[i].kids().has_edge(self.paths@[j].last(), j)
        &&& forall|j: int| 0 < j < n ==> (#[trigger] self.paths@[j]).len() > 0
        &&& forall|j: int| 0 <= j < n && (#[trigger] self.paths@[j]).len() > 0
            ==> self.has(self.paths@[j].drop_last())
    }

    /// Node `i` exists in a well-formed tree.
    pub open spec fn valid(&self, i: int) -> bool {
        self.wf() && 0 <= i < self.len()
    }

    proof fn lemma_index_of(&self, i: int)
        requires
            self.valid(i),
        ensures
            self.index_of(self.paths@[i]) == i,
            self@.contains_key(self.path_at(i)),
            self@[self.path_at(i)] == self.nodes@[i].val(),
    {
        let p = self.paths@[i];
        assert(self.has(p));
        let k = self.index_of(p);
        assert(self.paths@[k] == p);
    }

    /// A well-formed tree has its root.
    pub proof fn lemma_has_root(&self)
        requires
            self.wf(),
        ensures
            self@.contains_key(Seq::<Key>::empty()),
            self.path_at(0) == Seq::<Key>::empty(),
    {
        self.lemma_index_of(0);
    }

    /// Node `i` stands at its path in the tree's map.
    pub proof fn lemma_node(&self, i: int)
        requires
            self.valid(i),
        ensures
            self@.contains_key(self.path_at(i)),
    {
        self.lemma_index_of(i);
    }

    /// Every prefix of a path in the tree is in the tree.
    pub proof fn lemma_prefix_closed(&self, p: Seq<Key>, q: Seq<Key>)
        requires
            self.wf(),
            self@.contains_key(p),
            q.len() <= p.len(),
            q == p.subrange(0, q.len() as int),
        ensures
            self@.contains_key(q),
        decreases p.len(),
    {
        if q.len() < p.len() {
            let j = self.index_of(p);
            assert(self.paths@[j] == p);
            assert(p.len() > 0);
            assert(self.has(p.drop_last()));
            assert(q == p.drop_last().subrange(0, q.len() as int));
            self.lemma_prefix_closed(p.drop_last(), q);
        } else {
            assert(q =~= p);
        }
    }

    pub fn new() -> (r: Tree<T>)
        ensures
            r.wf(),
            r@ == Map::<Seq<Key>, Option<T>>::empty().insert(Seq::<Key>::empty(), None),
            r.path_at(0) == Seq::<Key>::empty(),
    {
        let mut nodes: Vec<Node<Option<T>>> = Vec::new();
        nodes.push(Node::new(None));
        let ghost paths = seq![Seq::<Key>::empty()];
        let r = Tree { nodes, paths: Ghost(paths) };
        proof {
            assert(r.paths@[0] == Seq::<Key>::empty());
            assert(r.has(Seq::<Key>::empty()));
            assert forall|i: int, k: Key, j: int|
                0 <= i < r.len() && #[trigger] r.nodes@[i].kids().has_edge(k, j)
                    implies r.paths@[j] == r.paths@[i].push(k) by {
                assert(r.nodes@[i].kids().is_empty());
            }
            assert(r@ =~= Map::<Seq<Key>, Option<T>>::empty().insert(Seq::<Key>::empty(), None));
        }
        r
    }

    /// The root's index.
    pub fn root(&self) -> (r: usize)
        requires
            self.wf(),
        ensures
            r == 0,
            self.valid(r as int),
            self.path_at(0) == Seq::<Key>::empty(),
    {
        0
    }

    /// The value of node `i`.
    pub fn value(&self, i: usize) -> (r: &Option<T>)
        requires
            self.valid(i as int),
        ensures
            self@.contains_key(self.path_at(i as int)),
            *r == self@[self.path_at(i as int)],
    {
        proof { self.lemma_index_of(i as int); }
        self.nodes[i].value()
    }

    /// The child of node `i` at labelette `l`.
    pub fn get_child(&self, i: usize, l: &Labelette) -> (r: Option<usize>)
        requires
            self.valid(i as int),
        ensures
            r is Some <==> self@.contains_key(self.path_at(i as int).push(l.key())),
            r matches Some(j) ==> j < self.len()
                && self.path_at(j as int) == self.path_at(i as int).push(l.key()),
    {
        let ghost p = self.paths@[i as int].push(l.key());
        let found = self.nodes[i].children.get(l);
        proof {
            let kids = self.nodes@[i as int].kids();
            match found {
                Some(j) => {
                    assert(self.paths@[j as int] == p);
                    self.lemma_index_of(j as int);
                },
                None => {
                    if self@.contains_key(p) {
                        let j = self.index_of(p);
                        assert(self.paths@[j] == p);
                        assert(p.drop_last() =~= self.paths@[i as int]);
                        assert(kids.has_edge(p.last(), j));
                    }
                },
            }
        }
        found
    }
}

impl<T> Tree<T> {
    /// The child of node `i` at labelette `l`, made with no value if it is
    /// not there yet.
    pub fn build_child(&mut self, i: usize, l: &Labelette) -> (r: usize)
        requires
            old(self).valid(i as int),
        ensures
            final(self).valid(r as int),
            final(self).path_at(r as int) == old(self).path_at(i as int).push(l.key()),
            final(self)@ == (if old(self)@.contains_key(old(self).path_at(i as int).push(l.key())) {
                old(self)@
            } else {
                old(self)@.insert(old(self).path_at(i as int).push(l.key()), None)
            }),
            final(self).len() >= old(self).len(),
            forall|k: int| 0 <= k < old(self).len()
                ==> #[trigger] final(self).path_at(k) == old(self).path_at(k),
    {
        match self.get_child(i, l) {
            Some(j) => j,
            None => {
                let ghost before = *self;
                let ghost p = self.paths@[i as int].push(l.key());
                let n = self.nodes.len();
                proof {
                    assert forall|j2: int| !self.nodes@[i as int].kids().has_edge(l.key(), j2) by {
                        if self.nodes@[i as int].kids().has_edge(l.key(), j2) {
                            self.nodes@[i as int].kids().lemma_edge_below(l.key(), j2, self.len());
                            assert(self.paths@[j2] == p);
                            assert(self.has(p));
                        }
                    }
                }
                self.nodes.push(Node::new(None));
                self.nodes[i].children.add_edge(l, n);
                self.paths = Ghost(self.paths@.push(p));
                proof { self.lemma_grown(before, i as int, l.key()); }
                n
            },
        }
    }

    proof fn lemma_grown(&self, before: Tree<T>, i: int, k: Key)
        requires
            before.valid(i),
            !before@.contains_key(before.paths@[i].push(k)),
            self.nodes@.len() == before.nodes@.len() + 1,
            self.paths@ == before.paths@.push(before.paths@[i].push(k)),
            forall|m: int| 0 <= m < before.len() && m != i ==> self.nodes@[m] == before.nodes@[m],
            self.nodes@[i].val() == before.nodes@[i].val(),
            forall|k2: Key, j2: int| #[trigger] self.nodes@[i].kids().has_edge(k2, j2)
                <==> (before.nodes@[i].kids().has_edge(k2, j2) || (k2 == k && j2 == before.len())),
            before.nodes@[i].kids().below(before.len()) ==> self.nodes@[i].kids().below(self.len()),
            self.nodes@[before.len()].val() is None,
            self.nodes@[before.len()].kids().is_empty(),
        ensures
            self.wf(),
            self@ == before@.insert(before.paths@[i].push(k), None),
    {
        let n = before.len();
        let p = before.paths@[i].push(k);
        assert forall|m: int| 0 <= m < n implies (#[trigger] before.nodes@[m]).kids().below(n + 1) by {
            assert(before.nodes@[m].kids().below(n));
        }
        assert forall|m: int| 0 <= m < n + 1 implies (#[trigger] self.nodes@[m]).kids().below(n + 1) by {
            if m < n && m != i {
                assert(before.nodes@[m].kids().below(n));
            }
            if m == i {
                assert(before.nodes@[m].kids().below(n));
            }
        }
        assert forall|a: int, k2: Key, j: int|
            0 <= a < n + 1 && #[trigger] self.nodes@[a].kids().has_edge(k2, j)
                implies self.paths@[j] == self.paths@[a].push(k2) by {
            if a < n && a != i {
                assert(before.nodes@[a].kids().has_edge(k2, j));
                before.nodes@[a].kids().lemma_edge_below(k2, j, n);
            }
            if a == i && before.nodes@[a].kids().has_edge(k2, j) {
                before.nodes@[a].kids().lemma_edge_below(k2, j, n);
            }
            if a == n {
                assert(self.nodes@[a].kids().is_empty());
                match k2 {
                    Key::Normal(t) => {},
                    Key::Bit(b) => {},
                }
            }
        }
        assert forall|a: int, j: int|
            0 <= a < n + 1 && 0 <= j < n + 1 && self.paths@[j].len() > 0
                && self.paths@[j].drop_last() == self.paths@[a]
                implies #[trigger] self.nodes@[a].kids().has_edge(self.paths@[j].last(), j) by {
            if j == n {
                assert(p.drop_last() =~= before.paths@[i]);
                if a != i {
                    assert(self.paths@[a] == before.paths@[i]);
                }
            } else if a == n {
                assert(before.has(before.paths@[j].drop_last()));
                assert(before@.contains_key(p));
            } else {
                assert(before.nodes@[a].kids().has_edge(before.paths@[j].last(), j));
            }
        }
        assert forall|j: int| 0 <= j < n + 1 && (#[trigger] self.paths@[j]).len() > 0
            implies self.has(self.paths@[j].drop_last()) by {
            if j == n {
                assert(p.drop_last() =~= before.paths@[i]);
                assert(self.paths@[i] == before.paths@[i]);
            } else {
                assert(before.has(before.paths@[j].drop_last()));
                let w = choose|w: int| 0 <= w < n && before.paths@[w] == before.paths@[j].drop_last();
                assert(self.paths@[w] == before.paths@[w]);
            }
        }
        assert forall|a: int, b: int| 0 <= a < n + 1 && 0 <= b < n + 1 && a != b
            implies self.paths@[a] != self.paths@[b] by {
            if a == n {
                assert(!before.has(p));
            }
            if b == n {
                assert(!before.has(p));
            }
        }
        assert(self.wf());
        assert forall|q: Seq<Key>| #[trigger] self@.contains_key(q) <==> before@.insert(p, None).contains_key(q) by {
            assert(self.paths@[n] == p);
            if before.has(q) {
                let w = choose|w: int| 0 <= w < n && before.paths@[w] == q;
                assert(self.paths@[w] == q);
            }
            if self.has(q) {
                let w = choose|w: int| 0 <= w < n + 1 && self.paths@[w] == q;
                if w < n {
                    assert(before.paths@[w] == q);
                }
            }
        }
        assert forall|q: Seq<Key>| #[trigger] self@.contains_key(q) implies self@[q] == before@.insert(p, None)[q] by {
            let w = self.index_of(q);
            self.lemma_index_of(w);
            if w < n {
                before.lemma_index_of(w);
                if w == i {
                    assert(self.nodes@[w].val() == before.nodes@[w].val());
                }
            }
        }
        assert(self@ =~= before@.insert(p, None));
    }
}

impl<T> Tree<T> {
    /// The node at the end of `path`, descending from the root, with every
    /// node on the way that is not there yet made with no value.
    pub fn build_node(&mut self, path: &Vec<Labelette>) -> (r: usize)
        requires
            old(self).wf(),
        ensures
            final(self).valid(r as int),
            final(self).path_at(r as int) == keys_of(path@),
            final(self)@ == with_path(old(self)@, keys_of(path@)),
            final(self).len() >= old(self).len(),
            forall|k: int| 0 <= k < old(self).len()
                ==> #[trigger] final(self).path_at(k) == old(self).path_at(k),
    {
        let mut cur: usize = 0;
        let mut i: usize = 0;
        proof {
            assert(keys_of(path@.subrange(0, 0)) =~= Seq::<Key>::empty());
        }
        while i < path.len()
            invariant
                i <= path@.len(),
                self.valid(cur as int),
                self.path_at(cur as int) == keys_of(path@.subrange(0, i as int)),
                self@ == with_path(old(self)@, keys_of(path@.subrange(0, i as int))),
                self.len() >= old(self).len(),
                forall|k: int| 0 <= k < old(self).len()
                    ==> #[trigger] self.path_at(k) == old(self).path_at(k),
            decreases path@.len() - i,
        {
            let ghost q = keys_of(path@.subrange(0, i as int + 1));
            proof {
                assert(q.drop_last() =~= keys_of(path@.subrange(0, i as int)));
                assert(q =~= self.path_at(cur as int).push(path@[i as int].key()));
            }
            cur = self.build_child(cur, &path[i]);
            i += 1;
        }
        proof {
            assert(path@.subrange(0, path@.len() as int) =~= path@);
        }
        cur
    }

    /// Puts `v` in node `i` and hands back what it held.
    pub fn replace_value(&mut self, i: usize, v: Option<T>) -> (r: Option<T>)
        requires
            old(self).valid(i as int),
        ensures
            final(self).wf(),
            r == old(self)@[old(self).path_at(i as int)],
            final(self)@ == old(self)@.insert(old(self).path_at(i as int), v),
            final(self).len() == old(self).len(),
            forall|k: int| 0 <= k < old(self).len()
                ==> #[trigger] final(self).path_at(k) == old(self).path_at(k),
    {
        let ghost before = *self;
        proof { before.lemma_index_of(i as int); }
        let mut x = v;
        core::mem::swap(self.nodes[i].value_mut(), &mut x);
        proof {
            assert(forall|m: int| 0 <= m < self.len() ==> #[trigger] self.nodes@[m].kids() == before.nodes@[m].kids());
            assert(self.wf());
            let p = before.paths@[i as int];
            assert forall|q: Seq<Key>| #[trigger] self@.contains_key(q) implies self@[q] == before@.insert(p, v)[q] by {
                let w = self.index_of(q);
                self.lemma_index_of(w);
                before.lemma_index_of(w);
            }
            assert(self@ =~= before@.insert(p, v));
        }
        x
    }
}

} // verus!
