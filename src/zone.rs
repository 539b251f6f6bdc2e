//! A single authoritative zone.

use vstd::prelude::*;
use crate::iana::Rtype;
use crate::name::{DName, Key, Labelette, keys_of};
use crate::rdata::{MasterRecord, MasterRecordData};
use crate::rrset::{Cut, RRset, Records, ZoneError, records_add, rrset_add};
use crate::tree::{Tree, with_path, lemma_with_path, lemma_with_path_map};

verus! {

/// What a zone holds at a node, or what a query finds there.
#[derive(Debug)]
pub enum Entry<A, C> {
    /// Data the zone is authoritative for.
    Authoritative(A),
    /// A delegation to another zone.
    Cut(C),
}

/// The value of a zone node.
pub type ZoneEntry = Entry<Records, Cut>;

/// The records of a node by type: TTL and data of each record set.
pub type RecordsView = Map<Rtype, (u32, Seq<MasterRecordData>)>;

/// A cut: its name servers' TTL and names, and its glue.
pub type CutView = ((u32, Seq<DName>), Seq<MasterRecord>);

/// The view of a zone node's value.
pub type EntryView = Entry<RecordsView, CutView>;

/// A zone: the map from each node's path, relative to the apex, to its value.
pub type ZoneView = Map<Seq<Key>, Option<EntryView>>;

pub open spec fn entry_view(e: Option<ZoneEntry>) -> Option<EntryView> {
    match e {
        Some(Entry::Authoritative(r)) => Some(Entry::Authoritative(r@)),
        Some(Entry::Cut(c)) => Some(Entry::Cut(c@)),
        None => None,
    }
}

/// The zone after adding a record at `p`, or the error that adding it gives.
pub open spec fn zone_add(m: ZoneView, p: Seq<Key>, ttl: u32, data: MasterRecordData) -> Result<ZoneView, ZoneError> {
    let w = with_path(m, p);
    match w[p] {
        Some(Entry::Cut(_)) => Err(ZoneError::CutConflict),
        Some(Entry::Authoritative(recs)) => match records_add(recs, ttl, data) {
            Some(recs2) => Ok(w.insert(p, Some(Entry::Authoritative(recs2)))),
            None => Err(ZoneError::TtlMismatch),
        },
        None => Ok(w.insert(p, Some(Entry::Authoritative(records_add(Map::empty(), ttl, data)->Some_0)))),
    }
}

/// The zone after making the node at `p` a cut, or the error: a node with
/// no value becomes an empty cut, a cut stays as it is, and a node with
/// records is left alone.
pub open spec fn zone_add_cut(m: ZoneView, p: Seq<Key>) -> Result<ZoneView, ZoneError> {
    let w = with_path(m, p);
    match w[p] {
        Some(Entry::Authoritative(_)) => Err(ZoneError::AuthConflict),
        Some(Entry::Cut(_)) => Ok(w),
        None => Ok(w.insert(p, Some(Entry::Cut(((0u32, Seq::<DName>::empty()), Seq::<MasterRecord>::empty()))))),
    }
}

/// The zone after adding a name server to the cut at `p`, or the error.
pub open spec fn zone_add_cut_ns(m: ZoneView, p: Seq<Key>, ttl: u32, ns: DName) -> Result<ZoneView, ZoneError> {
    let w = with_path(m, p);
    match w[p] {
        Some(Entry::Authoritative(_)) => Err(ZoneError::AuthConflict),
        Some(Entry::Cut(c)) => match rrset_add(Some(c.0), ttl, ns) {
            Some(s) => Ok(w.insert(p, Some(Entry::Cut((s, c.1))))),
            None => Err(ZoneError::TtlMismatch),
        },
        None => Ok(w.insert(p, Some(Entry::Cut(((ttl, seq![ns]), Seq::empty()))))),
    }
}

/// The key of the wildcard label `*`.
pub open spec fn wildcard_key() -> Key {
    Key::Normal(seq![42u8])
}

/// Whether the zone has a cut at `q`.
pub open spec fn is_cut(m: ZoneView, q: Seq<Key>) -> bool {
    m.contains_key(q) && m[q] matches Some(Entry::Cut(_))
}

/// The node that a query for `path` reaches, having descended exactly
/// through its first `i` keys: a cut ends the descent; else at each level
/// the exact child, else the wildcard child (which ends the descent), else
/// nothing.
pub open spec fn query_target(m: ZoneView, path: Seq<Key>, i: nat) -> Option<Seq<Key>>
    decreases path.len() - i,
{
    if i >= path.len() {
        Some(path)
    } else if is_cut(m, path.subrange(0, i as int)) {
        Some(path.subrange(0, i as int))
    } else if m.contains_key(path.subrange(0, i as int + 1)) {
        query_target(m, path, i + 1)
    } else if m.contains_key(path.subrange(0, i as int).push(wildcard_key())) {
        Some(path.subrange(0, i as int).push(wildcard_key()))
    } else {
        None
    }
}

/// Whether `r` is the answer of the zone `m` to a query for `path` and
/// `rtype`.
pub open spec fn answers(
    m: ZoneView,
    path: Seq<Key>,
    rtype: Rtype,
    r: Option<Entry<Option<&RRset<MasterRecordData>>, &Cut>>,
) -> bool {
    match query_target(m, path, 0) {
        None => r is None,
        Some(q) => match m[q] {
            Some(Entry::Authoritative(recs)) => r matches Some(Entry::Authoritative(o))
                && (o is Some <==> recs.contains_key(rtype))
                && (o matches Some(s) ==> s@ == recs[rtype]),
            Some(Entry::Cut(c)) => r matches Some(Entry::Cut(x)) && x@ == c,
            None => r matches Some(Entry::Authoritative(None)),
        },
    }
}

/// An authoritative zone.
pub struct Zone {
    data: Tree<ZoneEntry>,
}

impl View for Zone {
    type V = ZoneView;

    closed spec fn view(&self) -> ZoneView {
        self.data@.map_values(|e: Option<ZoneEntry>| entry_view(e))
    }
}

impl Zone {
    pub closed spec fn wf(&self) -> bool {
        &&& self.data.wf()
        &&& forall|p: Seq<Key>| #[trigger] self.data@.contains_key(p)
            ==> (self.data@[p] matches Some(Entry::Authoritative(r)) ==> r.wf())
    }

    pub fn new() -> (r: Zone)
        ensures
            r.wf(),
            r@ == Map::<Seq<Key>, Option<EntryView>>::empty().insert(Seq::<Key>::empty(), None),
    {
        let r = Zone { data: Tree::new() };
        assert(r@ =~= Map::<Seq<Key>, Option<EntryView>>::empty().insert(Seq::<Key>::empty(), None));
        r
    }

    proof fn lemma_view_with_path(&self, p: Seq<Key>)
        requires
            self.wf(),
        ensures
            with_path(self@, p) == with_path(self.data@, p).map_values(|e: Option<ZoneEntry>| entry_view(e)),
            self.data@.contains_key(Seq::<Key>::empty()),
    {
        self.data.lemma_has_root();
        lemma_with_path_map(self.data@, p, |e: Option<ZoneEntry>| entry_view(e));
    }

    /// Builds the node at `name`, takes its value out, and hands back its index.
    fn open_node(&mut self, name: &DName) -> (r: (usize, Option<ZoneEntry>))
        requires
            old(self).wf(),
        ensures
            final(self).data.valid(r.0 as int),
            final(self).data.path_at(r.0 as int) == name.path(),
            final(self).data@ == with_path(old(self).data@, name.path()).insert(name.path(), None),
            r.1 == with_path(old(self).data@, name.path())[name.path()],
            r.1 matches Some(Entry::Authoritative(recs)) ==> recs.wf(),
            forall|q: Seq<Key>| #[trigger] final(self).data@.contains_key(q) && q != name.path()
                ==> (final(self).data@[q] matches Some(Entry::Authoritative(recs)) ==> recs.wf()),
    {
        let ghost before = self.data@;
        proof {
            self.data.lemma_has_root();
            lemma_with_path(before, name.path());
        }
        let path = name.rev_labelettes();
        let i = self.data.build_node(&path);
        proof {
            assert forall|q: Seq<Key>| #[trigger] self.data@.contains_key(q)
                implies (self.data@[q] matches Some(Entry::Authoritative(r)) ==> r.wf()) by {
                if before.contains_key(q) {
                    assert(before[q] == with_path(before, name.path())[q]);
                }
            }
        }
        let v = self.data.replace_value(i, None);
        (i, v)
    }

    /// Puts `v` back into node `i`, opened by `open_node`.
    fn close_node(&mut self, i: usize, v: Option<ZoneEntry>)
        requires
            old(self).data.valid(i as int),
            v matches Some(Entry::Authoritative(recs)) ==> recs.wf(),
            forall|q: Seq<Key>| #[trigger] old(self).data@.contains_key(q) && q != old(self).data.path_at(i as int)
                ==> (old(self).data@[q] matches Some(Entry::Authoritative(recs)) ==> recs.wf()),
        ensures
            final(self).wf(),
            final(self).data@ == old(self).data@.insert(old(self).data.path_at(i as int), v),
    {
        self.data.replace_value(i, v);
    }

    /// Adds a record at `name`, relative to the apex (the empty name is the
    /// apex itself). Fails where the node is a cut, or where the record set
    /// has another TTL.
    pub fn add_record(&mut self, name: &DName, ttl: u32, data: MasterRecordData) -> (r: Result<(), ZoneError>)
        requires
            old(self).wf(),
        ensures
            final(self).wf(),
            zone_add(old(self)@, name.path(), ttl, data) matches Ok(m) ==> r is Ok && final(self)@ == m,
            zone_add(old(self)@, name.path(), ttl, data) matches Err(e) ==> r == Err::<(), ZoneError>(e)
                && final(self)@ == with_path(old(self)@, name.path()),
    {
        let ghost p = name.path();
        let ghost m0 = self.data@;
        proof {
            self.lemma_view_with_path(p);
            lemma_with_path(m0, p);
        }
        let ghost w = with_path(m0, p);
        let (i, cur) = self.open_node(name);
        let (v, res) = match cur {
            None => {
                let mut recs = Records::new();
                let res = recs.add_record(ttl, data);
                (Some(Entry::Authoritative(recs)), res)
            },
            Some(Entry::Authoritative(mut recs)) => {
                let res = recs.add_record(ttl, data);
                (Some(Entry::Authoritative(recs)), res)
            },
            Some(Entry::Cut(c)) => (Some(Entry::Cut(c)), Err(ZoneError::CutConflict)),
        };
        self.close_node(i, v);
        proof {
            assert(self.data@ =~= w.insert(p, v));
            let f = |e: Option<ZoneEntry>| entry_view(e);
            assert(w.insert(p, v).map_values(f) =~= w.map_values(f).insert(p, entry_view(v)));
            if res is Err {
                assert(w.insert(p, v).map_values(f) =~= w.map_values(f));
            }
        }
        res
    }

    /// Makes the node at `name` a cut, relative to the apex: a node with no
    /// value becomes an empty cut, and a cut is left as it is. Fails where
    /// the node has records.
    pub fn add_cut(&mut self, name: &DName) -> (r: Result<(), ZoneError>)
        requires
            old(self).wf(),
        ensures
            final(self).wf(),
            zone_add_cut(old(self)@, name.path()) matches Ok(m) ==> r is Ok && final(self)@ == m,
            zone_add_cut(old(self)@, name.path()) matches Err(e) ==> r == Err::<(), ZoneError>(e)
                && final(self)@ == with_path(old(self)@, name.path()),
    {
        let ghost p = name.path();
        let ghost m0 = self.data@;
        proof {
            self.lemma_view_with_path(p);
            lemma_with_path(m0, p);
        }
        let ghost w = with_path(m0, p);
        let (i, cur) = self.open_node(name);
        let (v, res) = match cur {
            None => (Some(Entry::Cut(Cut::new())), Ok(())),
            Some(Entry::Cut(c)) => (Some(Entry::Cut(c)), Ok(())),
            Some(Entry::Authoritative(recs)) => (Some(Entry::Authoritative(recs)), Err(ZoneError::AuthConflict)),
        };
        self.close_node(i, v);
        proof {
            assert(self.data@ =~= w.insert(p, v));
            let f = |e: Option<ZoneEntry>| entry_view(e);
            assert(w.insert(p, v).map_values(f) =~= w.map_values(f).insert(p, entry_view(v)));
            if res is Err || cur is Some {
                assert(w.insert(p, v).map_values(f) =~= w.map_values(f));
            }
        }
        res
    }

    /// Adds the name server `ns` to the cut at `name`, making the cut if the
    /// node has no value. Fails where the node has records, or where the
    /// name servers have another TTL.
    pub fn add_cut_ns(&mut self, name: &DName, ttl: u32, ns: DName) -> (r: Result<(), ZoneError>)
        requires
            old(self).wf(),
        ensures
            final(self).wf(),
            zone_add_cut_ns(old(self)@, name.path(), ttl, ns) matches Ok(m) ==> r is Ok && final(self)@ == m,
            zone_add_cut_ns(old(self)@, name.path(), ttl, ns) matches Err(e) ==> r == Err::<(), ZoneError>(e)
                && final(self)@ == with_path(old(self)@, name.path()),
    {
        let ghost p = name.path();
        let ghost m0 = self.data@;
        proof {
            self.lemma_view_with_path(p);
            lemma_with_path(m0, p);
        }
        let ghost w = with_path(m0, p);
        let (i, cur) = self.open_node(name);
        let (v, res) = match cur {
            None => {
                let mut c = Cut::new();
                let res = c.add_ns(ttl, ns);
                (Some(Entry::Cut(c)), res)
            },
            Some(Entry::Cut(mut c)) => {
                let res = c.add_ns(ttl, ns);
                (Some(Entry::Cut(c)), res)
            },
            Some(Entry::Authoritative(recs)) => (Some(Entry::Authoritative(recs)), Err(ZoneError::AuthConflict)),
        };
        self.close_node(i, v);
        proof {
            assert(self.data@ =~= w.insert(p, v));
            let f = |e: Option<ZoneEntry>| entry_view(e);
            assert(w.insert(p, v).map_values(f) =~= w.map_values(f).insert(p, entry_view(v)));
            if res is Err {
                assert(w.insert(p, v).map_values(f) =~= w.map_values(f));
            }
        }
        res
    }

    /// The answer to a query for `path`, root-first and relative to the
    /// apex, and `rtype`: the record set, `Authoritative(None)` where the
    /// name exists without such records, the cut where the name lies at or
    /// below a delegation, or `None` where the name does not exist.
    pub fn query(&self, path: &Vec<Labelette>, rtype: Rtype) -> (r: Option<Entry<Option<&RRset<MasterRecordData>>, &Cut>>)
        requires
            self.wf(),
        ensures
            answers(self@, keys_of(path@), rtype, r),
    {
        let ghost keys = keys_of(path@);
        let ghost m = self@;
        let wild = Labelette::wildcard();
        let mut node: usize = self.data.root();
        let mut i: usize = 0;
        proof {
            self.data.lemma_has_root();
            assert(keys.subrange(0, 0) =~= Seq::<Key>::empty());
            assert(forall|q: Seq<Key>| #[trigger] m.contains_key(q) <==> self.data@.contains_key(q));
        }
        loop
            invariant_except_break
                i <= path@.len(),
                self.data.path_at(node as int) == keys.subrange(0, i as int),
                query_target(m, keys, 0) == query_target(m, keys, i as nat),
            invariant
                self.wf(),
                m == self@,
                keys == keys_of(path@),
                self.data.valid(node as int),
                wild.key() == wildcard_key(),
                forall|q: Seq<Key>| #[trigger] m.contains_key(q) <==> self.data@.contains_key(q),
            ensures
                query_target(m, keys, 0) == Some(self.data.path_at(node as int)),
            decreases path@.len() - i,
        {
            if i >= path.len() {
                proof { assert(keys.subrange(0, i as int) =~= keys); }
                break;
            }
            proof { self.data.lemma_node(node as int); }
            let at_cut = match self.data.value(node) {
                Some(Entry::Cut(_)) => true,
                _ => false,
            };
            if at_cut {
                break;
            }
            proof {
                assert(keys.subrange(0, i as int + 1) =~= keys.subrange(0, i as int).push(path@[i as int].key()));
            }
            match self.data.get_child(node, &path[i]) {
                Some(c) => {
                    node = c;
                    i += 1;
                },
                None => {
                    proof {
                        assert(keys.len() == path@.len());
                        assert(!m.contains_key(keys.subrange(0, i as int + 1)));
                    }
                    match self.data.get_child(node, &wild) {
                        Some(c) => {
                            proof {
                                assert(query_target(m, keys, i as nat)
                                    == Some(keys.subrange(0, i as int).push(wildcard_key())));
                            }
                            node = c;
                            break;
                        },
                        None => {
                            proof {
                                assert(query_target(m, keys, i as nat) is None);
                            }
                            return None;
                        },
                    }
                },
            }
        }
        proof { self.data.lemma_node(node as int); }
        match self.data.value(node) {
            Some(Entry::Authoritative(recs)) => Some(Entry::Authoritative(recs.get(rtype))),
            Some(Entry::Cut(cut)) => Some(Entry::Cut(cut)),
            None => Some(Entry::Authoritative(None)),
        }
    }
}

/// Descending exactly through nodes that exist and are no cuts leaves the
/// target unchanged.
proof fn lemma_target_exact(m: ZoneView, path: Seq<Key>, i: nat, k: nat)
    requires
        i <= k <= path.len(),
        forall|j: int| i < j <= k ==> m.contains_key(#[trigger] path.subrange(0, j)),
        forall|j: int| i <= j < k ==> !is_cut(m, #[trigger] path.subrange(0, j)),
    ensures
        query_target(m, path, i) == query_target(m, path, k),
    decreases k - i,
{
    if i < k {
        lemma_target_exact(m, path, (i + 1) as nat, k);
    }
}

impl Zone {
    /// Every prefix of a path in the zone is in the zone.
    pub proof fn lemma_prefix_closed(&self, p: Seq<Key>, j: int)
        requires
            self.wf(),
            self@.contains_key(p),
            0 <= j <= p.len(),
        ensures
            self@.contains_key(p.subrange(0, j)),
    {
        self.data.lemma_prefix_closed(p, p.subrange(0, j));
    }
}

/// Wildcards: below an existing node `a` with no cut on the way, a query
/// for a child `b` that does not exist reaches the wildcard child `*.a`
/// where there is one; where `b` exists, even as an empty non-terminal, the
/// wildcard is not consulted.
pub proof fn lemma_wildcard(z: Zone, a: Seq<Key>, b: Key)
    requires
        z.wf(),
        z@.contains_key(a),
        forall|j: int| 0 <= j <= a.len() ==> !is_cut(z@, #[trigger] a.subrange(0, j)),
    ensures
        !z@.contains_key(a.push(b)) && z@.contains_key(a.push(wildcard_key()))
            ==> query_target(z@, a.push(b), 0) == Some(a.push(wildcard_key())),
        z@.contains_key(a.push(b)) ==> query_target(z@, a.push(b), 0) == Some(a.push(b)),
{
    let path = a.push(b);
    let n = a.len();
    assert forall|j: int| 0 < j <= n implies z@.contains_key(#[trigger] path.subrange(0, j)) by {
        z.lemma_prefix_closed(a, j);
        assert(path.subrange(0, j) =~= a.subrange(0, j));
    }
    assert forall|j: int| 0 <= j < n implies !is_cut(z@, #[trigger] path.subrange(0, j)) by {
        assert(path.subrange(0, j) =~= a.subrange(0, j));
    }
    assert(a.subrange(0, n as int) =~= a);
    assert(!is_cut(z@, a));
    lemma_target_exact(z@, path, 0, n as nat);
    assert(path.subrange(0, n as int) =~= a);
    assert(path.subrange(0, n as int + 1) =~= path);
    assert(!is_cut(z@, path.subrange(0, n as int)));
    if z@.contains_key(path) {
        assert(query_target(z@, path, (n + 1) as nat) == Some(path));
        assert(query_target(z@, path, n as nat) == Some(path));
    } else if z@.contains_key(a.push(wildcard_key())) {
        assert(query_target(z@, path, n as nat) == Some(a.push(wildcard_key())));
    }
}

/// A zone after a history of record insertions, each a relative path,
/// TTL and data, made in order from `m`; a failed one leaves only the
/// nodes it built.
pub open spec fn zone_history(m: ZoneView, ops: Seq<(Seq<Key>, u32, MasterRecordData)>) -> ZoneView
    decreases ops.len(),
{
    if ops.len() == 0 {
        m
    } else {
        let m2 = zone_history(m, ops.drop_last());
        let (p, ttl, d) = ops.last();
        match zone_add(m2, p, ttl, d) {
            Ok(m3) => m3,
            Err(_) => with_path(m2, p),
        }
    }
}

/// Whether the `i`-th insertion of a history succeeded.
pub open spec fn accepted(m: ZoneView, ops: Seq<(Seq<Key>, u32, MasterRecordData)>, i: int) -> bool {
    zone_add(zone_history(m, ops.subrange(0, i)), ops[i].0, ops[i].1, ops[i].2) is Ok
}

/// Every member of every record set of `z` came from a successful
/// insertion of the history at that node, with the set's TTL.
pub open spec fn members_from(z: ZoneView, m: ZoneView, ops: Seq<(Seq<Key>, u32, MasterRecordData)>) -> bool {
    forall|q: Seq<Key>, t: Rtype, k: int|
        z.contains_key(q) && recs_at(z, q).contains_key(t) && 0 <= k < recs_at(z, q)[t].1.len()
        ==> #[trigger] inserted(m, ops, q, recs_at(z, q)[t].0, recs_at(z, q)[t].1[k])
}

/// Whether a successful insertion of the history put `d` with `ttl` at `q`.
pub open spec fn inserted(m: ZoneView, ops: Seq<(Seq<Key>, u32, MasterRecordData)>, q: Seq<Key>, ttl: u32,
    d: MasterRecordData) -> bool {
    exists|i: int| 0 <= i < ops.len() && #[trigger] accepted(m, ops, i) && ops[i] == (q, ttl, d)
}

/// The records at node `q` of a zone; none at a cut or a node without
/// value.
pub open spec fn recs_at(z: ZoneView, q: Seq<Key>) -> RecordsView {
    match z[q] {
        Some(Entry::Authoritative(r)) => r,
        _ => Map::empty(),
    }
}

/// Record sets keep one TTL over any history of insertions into a new
/// zone: each member of each record set was inserted, successfully, with
/// the set's TTL.
pub proof fn lemma_ttl_history(ops: Seq<(Seq<Key>, u32, MasterRecordData)>)
    ensures
        members_from(zone_history(empty_zone(), ops), empty_zone(), ops),
    decreases ops.len(),
{
    let m = empty_zone();
    if ops.len() > 0 {
        let pre = ops.drop_last();
        lemma_ttl_history(pre);
        let m2 = zone_history(m, pre);
        let n = pre.len() as int;
        let (p, ttl, d) = ops.last();
        assert(ops.subrange(0, n) =~= pre);
        assert forall|i: int| 0 <= i < n implies #[trigger] accepted(m, ops, i) == accepted(m, pre, i) && ops[i] == pre[i] by {
            assert(ops.subrange(0, i) =~= pre.subrange(0, i));
        }
        lemma_history_root(pre);
        lemma_with_path(m2, p);
        let z = zone_history(m, ops);
        let w = with_path(m2, p);
        assert forall|q: Seq<Key>, t: Rtype, k: int|
            z.contains_key(q) && recs_at(z, q).contains_key(t) && 0 <= k < recs_at(z, q)[t].1.len()
            implies #[trigger] inserted(m, ops, q, recs_at(z, q)[t].0, recs_at(z, q)[t].1[k]) by {
            let recs = recs_at(z, q);
            if q != p || zone_add(m2, p, ttl, d) is Err {
                // the node is as before, or new and empty
                assert(z[q] == w[q]);
                assert(m2.contains_key(q));
                assert(m2[q] == z[q]);
                assert(recs_at(m2, q) == recs);
                assert(inserted(m, pre, q, recs[t].0, recs[t].1[k]));
                let i = choose|i: int| 0 <= i < pre.len() && #[trigger] accepted(m, pre, i)
                    && pre[i] == (q, recs[t].0, recs[t].1[k]);
                assert(accepted(m, ops, i));
            } else {
                let old_recs = recs_at(w, p);
                let dt = d.rtype_spec();
                assert(recs == records_add(old_recs, ttl, d)->Some_0);
                assert(accepted(m, ops, n));
                if t != dt || k < recs[t].1.len() - 1 {
                    assert(old_recs.contains_key(t));
                    assert(recs[t].1[k] == old_recs[t].1[k]);
                    assert(recs[t].0 == old_recs[t].0) by {
                        if t == dt {
                            assert(old_recs[t].1.len() > 0);
                        }
                    }
                    assert(m2.contains_key(p));
                    assert(m2[p] == w[p]);
                    assert(recs_at(m2, p) == old_recs);
                    assert(k < old_recs[t].1.len());
                    assert(inserted(m, pre, q, old_recs[t].0, old_recs[t].1[k]));
                    let i = choose|i: int| 0 <= i < pre.len() && #[trigger] accepted(m, pre, i)
                        && pre[i] == (q, old_recs[t].0, old_recs[t].1[k]);
                    assert(accepted(m, ops, i));
                } else {
                    assert(ops[n] == (q, recs[t].0, recs[t].1[k]));
                }
            }
        }
    }
}

/// The zone that `Zone::new` makes.
pub open spec fn empty_zone() -> ZoneView {
    Map::<Seq<Key>, Option<EntryView>>::empty().insert(Seq::<Key>::empty(), None)
}

proof fn lemma_history_root(ops: Seq<(Seq<Key>, u32, MasterRecordData)>)
    ensures
        zone_history(empty_zone(), ops).contains_key(Seq::<Key>::empty()),
    decreases ops.len(),
{
    if ops.len() > 0 {
        lemma_history_root(ops.drop_last());
        let m2 = zone_history(empty_zone(), ops.drop_last());
        lemma_with_path(m2, ops.last().0);
    }
}

} // verus!
