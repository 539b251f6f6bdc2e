//! The zones a server is authoritative for, by class and apex.

use vstd::prelude::*;
use crate::iana::{Class, Rtype};
use crate::name::{DName, Key, Labelette, keys_of, labelettes_from, name_path};
use crate::rdata::{MasterRecord, MasterRecordData};
use crate::rrset::{Cut, RRset, ZoneError};
use crate::tree::{Tree, with_path, lemma_with_path};
use crate::zone::{Entry, Zone, ZoneView, answers, zone_add};

verus! {

/// A question: the name, type and class asked for.
#[derive(Debug)]
pub struct Question {
    pub qname: DName,
    pub qtype: Rtype,
    pub qclass: Class,
}

impl Question {
    pub fn new(qname: DName, qtype: Rtype, qclass: Class) -> (r: Question)
        ensures
            r.qname == qname,
            r.qtype == qtype,
            r.qclass == qclass,
    {
        Question { qname, qtype, qclass }
    }
}

/// The tree of a class that has no zones yet.
pub open spec fn empty_tree() -> Map<Seq<Key>, Option<Zone>> {
    Map::<Seq<Key>, Option<Zone>>::empty().insert(Seq::<Key>::empty(), None)
}

/// Whether the node at the first `k` keys of `path` holds a zone.
pub open spec fn is_apex(m: Map<Seq<Key>, Option<Zone>>, path: Seq<Key>, k: int) -> bool {
    0 <= k <= path.len() && m.contains_key(path.subrange(0, k)) && m[path.subrange(0, k)] is Some
}

/// The largest `j <= k` such that the first `j` keys of `path` lead to a
/// zone's apex, or -1 where there is none.
pub open spec fn deepest(m: Map<Seq<Key>, Option<Zone>>, path: Seq<Key>, k: int) -> int
    decreases k + 1,
{
    if k < 0 {
        -1
    } else if is_apex(m, path, k) {
        k
    } else {
        deepest(m, path, k - 1)
    }
}

/// Whether `t` is a well-formed tree of well-formed zones.
pub open spec fn tree_wf(t: Tree<Zone>) -> bool {
    &&& t.wf()
    &&& forall|p: Seq<Key>| #[trigger] t@.contains_key(p) ==> (t@[p] matches Some(z) ==> z.wf())
}

/// The outcome of putting `zone` at `p` in the tree `m`.
pub open spec fn tree_install(m: Map<Seq<Key>, Option<Zone>>, p: Seq<Key>, zone: Zone)
    -> Result<Map<Seq<Key>, Option<Zone>>, ZoneError>
{
    let w = with_path(m, p);
    if w[p] is Some {
        Err(ZoneError::ZoneExists)
    } else {
        Ok(w.insert(p, Some(zone)))
    }
}

/// Puts `zone` at `name` in `tree`, unless a zone is there already.
fn install(tree: &mut Tree<Zone>, name: &DName, zone: Zone) -> (r: Result<(), ZoneError>)
    requires
        tree_wf(*old(tree)),
        zone.wf(),
    ensures
        tree_wf(*final(tree)),
        tree_install(old(tree)@, name.path(), zone) matches Ok(m) ==> r is Ok && final(tree)@ == m,
        tree_install(old(tree)@, name.path(), zone) is Err ==> r == Err::<(), ZoneError>(ZoneError::ZoneExists)
            && final(tree)@ == with_path(old(tree)@, name.path()),
{
    let ghost m0 = tree@;
    let ghost p = name.path();
    proof {
        tree.lemma_has_root();
        lemma_with_path(m0, p);
    }
    let path = name.rev_labelettes();
    let i = tree.build_node(&path);
    proof {
        assert forall|q: Seq<Key>| #[trigger] tree@.contains_key(q)
            implies (tree@[q] matches Some(z) ==> z.wf()) by {
            if m0.contains_key(q) {
                assert(m0[q] == with_path(m0, name.path())[q]);
            }
        }
    }
    let occupied = match tree.value(i) {
        Some(_) => true,
        None => false,
    };
    if occupied {
        return Err(ZoneError::ZoneExists);
    }
    tree.replace_value(i, Some(zone));
    Ok(())
}

/// The zones, by class: each class has a tree whose nodes may hold a zone.
pub struct AuthoritativeZones {
    in_root: Tree<Zone>,
    roots: Vec<(Class, Tree<Zone>)>,
}

impl AuthoritativeZones {
    pub closed spec fn wf(&self) -> bool {
        &&& tree_wf(self.in_root)
        &&& forall|k: int| 0 <= k < self.roots@.len() ==> (#[trigger] self.roots@[k]).0 != Class::In
            && tree_wf(self.roots@[k].1)
        &&& forall|a: int, b: int| 0 <= a < self.roots@.len() && 0 <= b < self.roots@.len() && a != b
            ==> self.roots@[a].0 != self.roots@[b].0
    }

    closed spec fn has_class(&self, c: Class) -> bool {
        exists|k: int| 0 <= k < self.roots@.len() && self.roots@[k].0 == c
    }

    closed spec fn class_index(&self, c: Class) -> int {
        choose|k: int| 0 <= k < self.roots@.len() && self.roots@[k].0 == c
    }

    /// The tree of class `c`: from each path to a node, the zone whose apex
    /// it is, if any.
    pub closed spec fn zones(&self, c: Class) -> Map<Seq<Key>, Option<Zone>> {
        if c == Class::In {
            self.in_root@
        } else if self.has_class(c) {
            self.roots@[self.class_index(c)].1@
        } else {
            empty_tree()
        }
    }

    proof fn lemma_class_at(&self, k: int)
        requires
            self.wf(),
            0 <= k < self.roots@.len(),
        ensures
            self.class_index(self.roots@[k].0) == k,
            self.zones(self.roots@[k].0) == self.roots@[k].1@,
    {
        let c = self.roots@[k].0;
        assert(self.has_class(c));
        let j = self.class_index(c);
        assert(self.roots@[j].0 == c);
    }

    /// Every class has a tree with a root, which the apex of the root name
    /// stands at.
    pub proof fn lemma_roots(&self)
        requires
            self.wf(),
        ensures
            forall|c: Class| #[trigger] self.zones(c).contains_key(Seq::<Key>::empty()),
    {
        assert forall|c: Class| #[trigger] self.zones(c).contains_key(Seq::<Key>::empty()) by {
            if c == Class::In {
                self.in_root.lemma_has_root();
            } else if self.has_class(c) {
                let k = self.class_index(c);
                self.roots@[k].1.lemma_has_root();
            }
        }
    }

    pub fn new() -> (r: AuthoritativeZones)
        ensures
            r.wf(),
            forall|c: Class| #[trigger] r.zones(c) == empty_tree(),
    {
        let r = AuthoritativeZones { in_root: Tree::new(), roots: Vec::new() };
        proof {
            assert forall|p: Seq<Key>| #[trigger] r.in_root@.contains_key(p)
                implies (r.in_root@[p] matches Some(z) ==> z.wf()) by {}
        }
        r
    }

    /// The position of class `c` among the other classes.
    fn class_pos(&self, c: Class) -> (r: Option<usize>)
        requires
            self.wf(),
        ensures
            r is Some <==> self.has_class(c),
            r matches Some(k) ==> k < self.roots@.len() && self.roots@[k as int].0 == c,
    {
        let mut k: usize = 0;
        while k < self.roots.len()
            invariant
                k <= self.roots@.len(),
                forall|j: int| 0 <= j < k ==> (#[trigger] self.roots@[j]).0 != c,
            decreases self.roots@.len() - k,
        {
            if self.roots[k].0 == c {
                return Some(k);
            }
            k += 1;
        }
        None
    }

    /// The tree of class `class`, if it has one.
    fn root(&self, class: Class) -> (r: Option<&Tree<Zone>>)
        requires
            self.wf(),
        ensures
            r matches Some(t) ==> t@ == self.zones(class) && tree_wf(*t),
            r is None ==> self.zones(class) == empty_tree(),
    {
        if class == Class::In {
            Some(&self.in_root)
        } else {
            match self.class_pos(class) {
                Some(k) => {
                    proof { self.lemma_class_at(k as int); }
                    Some(&self.roots[k].1)
                },
                None => None,
            }
        }
    }

    /// Installs `zone` with its apex at `name` in class `class`. Fails,
    /// installing nothing, where that apex has a zone already.
    pub fn add_zone(&mut self, name: &DName, class: Class, zone: Zone) -> (r: Result<(), ZoneError>)
        requires
            old(self).wf(),
            zone.wf(),
        ensures
            final(self).wf(),
            tree_install(old(self).zones(class), name.path(), zone) matches Ok(m)
                ==> r is Ok && final(self).zones(class) == m,
            tree_install(old(self).zones(class), name.path(), zone) is Err
                ==> r == Err::<(), ZoneError>(ZoneError::ZoneExists)
                && final(self).zones(class) == with_path(old(self).zones(class), name.path()),
            forall|c: Class| c != class ==> #[trigger] final(self).zones(c) == old(self).zones(c),
    {
        let ghost before = *self;
        if class == Class::In {
            install(&mut self.in_root, name, zone)
        } else {
            match self.class_pos(class) {
                Some(k) => {
                    proof { before.lemma_class_at(k as int); }
                    let res = install(&mut self.roots[k].1, name, zone);
                    proof {
                        assert forall|j: int| 0 <= j < self.roots@.len() && j != k
                            implies self.roots@[j] == before.roots@[j] by {}
                        self.lemma_class_at(k as int);
                        assert forall|c: Class| c != class implies #[trigger] self.zones(c) == before.zones(c) by {
                            if c != Class::In && before.has_class(c) {
                                let j = before.class_index(c);
                                before.lemma_class_at(j);
                                self.lemma_class_at(j);
                            }
                            if c != Class::In && self.has_class(c) {
                                let j = self.class_index(c);
                                assert(before.roots@[j].0 == c);
                            }
                        }
                    }
                    res
                },
                None => {
                    let mut t: Tree<Zone> = Tree::new();
                    proof {
                        assert forall|p: Seq<Key>| #[trigger] t@.contains_key(p)
                            implies (t@[p] matches Some(z) ==> z.wf()) by {}
                    }
                    let res = install(&mut t, name, zone);
                    self.roots.push((class, t));
                    proof {
                        let n = before.roots@.len() as int;
                        self.lemma_class_at(n);
                        assert forall|c: Class| c != class implies #[trigger] self.zones(c) == before.zones(c) by {
                            if c != Class::In && before.has_class(c) {
                                let j = before.class_index(c);
                                before.lemma_class_at(j);
                                assert(self.roots@[j] == before.roots@[j]);
                                self.lemma_class_at(j);
                            }
                            if c != Class::In && self.has_class(c) {
                                let j = self.class_index(c);
                                if j < n {
                                    assert(before.roots@[j].0 == c);
                                }
                            }
                        }
                    }
                    res
                },
            }
        }
    }
}


/// The deepest apex is an apex, and lies no deeper than `k`.
pub proof fn lemma_deepest_is_apex(m: Map<Seq<Key>, Option<Zone>>, path: Seq<Key>, k: int)
    ensures
        deepest(m, path, k) >= 0 ==> is_apex(m, path, deepest(m, path, k)),
        -1 <= deepest(m, path, k) <= if k < 0 { -1 } else { k },
    decreases k + 1,
{
    if k >= 0 && !is_apex(m, path, k) {
        lemma_deepest_is_apex(m, path, k - 1);
    }
}

/// Where no key past the `i`-th leads to an apex, up to `k`, the deepest apex
/// up to `k` is the deepest up to `i`.
proof fn lemma_deepest_below(m: Map<Seq<Key>, Option<Zone>>, path: Seq<Key>, i: int, k: int)
    requires
        -1 <= i <= k,
        forall|j: int| i < j <= k ==> !#[trigger] is_apex(m, path, j),
    ensures
        deepest(m, path, k) == deepest(m, path, i),
    decreases k - i,
{
    if k > i {
        lemma_deepest_below(m, path, i, k - 1);
    }
}

impl AuthoritativeZones {
    /// The zone of class `class` whose apex is the longest suffix of `name`
    /// that has a zone, with the labelettes of `name` below that apex,
    /// root-first.
    pub fn find(&self, class: Class, name: &DName) -> (r: Option<(&Zone, Vec<Labelette>)>)
        requires
            self.wf(),
        ensures
            r is None <==> deepest(self.zones(class), name.path(), name.path().len() as int) < 0,
            r matches Some((z, rest)) ==> ({
                let d = deepest(self.zones(class), name.path(), name.path().len() as int);
                &&& 0 <= d <= name.path().len()
                &&& self.zones(class)[name.path().subrange(0, d)] == Some(*z)
                &&& keys_of(rest@) == name.path().subrange(d, name.path().len() as int)
                &&& z.wf()
            }),
    {
        let ghost m = self.zones(class);
        let ghost path = name.path();
        let labels = name.rev_labelettes();
        let t = match self.root(class) {
            Some(t) => t,
            None => {
                proof {
                    assert forall|j: int| -1 < j <= path.len() implies !#[trigger] is_apex(m, path, j) by {
                        if j > 0 {
                            assert(path.subrange(0, j).len() > 0);
                        } else {
                            assert(path.subrange(0, j) =~= Seq::<Key>::empty());
                        }
                    }
                    lemma_deepest_below(m, path, -1, path.len() as int);
                }
                return None;
            },
        };
        let mut node: usize = t.root();
        let mut i: usize = 0;
        let mut apex: Option<(usize, usize)> = None;
        proof {
            assert(path.subrange(0, 0) =~= Seq::<Key>::empty());
        }
        loop
            invariant_except_break
                i <= path.len(),
                t.path_at(node as int) == path.subrange(0, i as int),
                apex is None ==> deepest(m, path, i as int - 1) == -1,
                apex matches Some((n, d)) ==> deepest(m, path, i as int - 1) == d && t.valid(n as int)
                    && t.path_at(n as int) == path.subrange(0, d as int) && d <= path.len(),
            invariant
                tree_wf(*t),
                t@ == m,
                keys_of(labels@) == path,
                labels@.len() == path.len(),
                t.valid(node as int),
            ensures
                apex is None ==> deepest(m, path, path.len() as int) == -1,
                apex matches Some((n, d)) ==> deepest(m, path, path.len() as int) == d && t.valid(n as int)
                    && t.path_at(n as int) == path.subrange(0, d as int) && d <= path.len(),
            decreases path.len() - i,
        {
            let here = match t.value(node) {
                Some(_) => true,
                None => false,
            };
            if here {
                apex = Some((node, i));
                proof { assert(is_apex(m, path, i as int)); }
            } else {
                proof { assert(!is_apex(m, path, i as int)); }
            }
            if i >= labels.len() {
                break;
            }
            proof {
                assert(path.subrange(0, i as int + 1) =~= path.subrange(0, i as int).push(labels@[i as int].key()));
            }
            match t.get_child(node, &labels[i]) {
                Some(c) => {
                    node = c;
                    i += 1;
                },
                None => {
                    proof {
                        assert forall|j: int| i < j <= path.len() implies !#[trigger] is_apex(m, path, j) by {
                            if m.contains_key(path.subrange(0, j)) {
                                assert(path.subrange(0, i as int + 1) =~= path.subrange(0, j).subrange(0, i as int + 1));
                                t.lemma_prefix_closed(path.subrange(0, j), path.subrange(0, i as int + 1));
                            }
                        }
                        lemma_deepest_below(m, path, i as int, path.len() as int);
                    }
                    break;
                },
            }
        }
        match apex {
            None => None,
            Some((n, d)) => {
                proof {
                    t.lemma_node(n as int);
                    lemma_deepest_is_apex(m, path, path.len() as int);
                }
                match t.value(n) {
                    Some(z) => Some((z, labelettes_from(&labels, d))),
                    None => None,
                }
            },
        }
    }

    /// The answer to `question`: the zone of its class whose apex is the
    /// longest suffix of its name answers it, or `None` where no zone does.
    pub fn query(&self, question: &Question) -> (r: Option<Entry<Option<&RRset<MasterRecordData>>, &Cut>>)
        requires
            self.wf(),
        ensures
            ({
                let m = self.zones(question.qclass);
                let path = question.qname.path();
                let d = deepest(m, path, path.len() as int);
                &&& d < 0 ==> r is None
                &&& d >= 0 ==> answers(m[path.subrange(0, d)]->Some_0@, path.subrange(d, path.len() as int),
                    question.qtype, r)
            }),
    {
        match self.find(question.qclass, &question.qname) {
            Some((zone, rest)) => zone.query(&rest, question.qtype),
            None => None,
        }
    }
}


/// The path of `owner` relative to `apex`, where `apex` is a suffix of it.
pub open spec fn relative_path(owner: DName, apex: DName) -> Seq<Key> {
    name_path(owner@.subrange(0, owner@.len() - apex@.len()))
}

/// What one item of a record stream does to a zone being loaded at `apex`
/// in class `class`: the zone after it, and the error it gave, if any.
pub open spec fn load_step<E>(z: ZoneView, item: Result<MasterRecord, E>, apex: DName, class: Class)
    -> (ZoneView, Option<ZoneError>)
{
    match item {
        Err(_) => (z, Some(ZoneError::ReadFailed)),
        Ok(rec) => if rec.class != class {
            (z, Some(ZoneError::ClassMismatch))
        } else if !rec.owner.has_suffix(&apex) {
            (z, Some(ZoneError::OwnerNotInZone))
        } else {
            let p = relative_path(rec.owner, apex);
            match zone_add(z, p, rec.ttl, rec.rdata) {
                Ok(z2) => (z2, None),
                Err(e) => (with_path(z, p), Some(e)),
            }
        },
    }
}

/// The zone built from a record stream, and the errors met on the way, in
/// order.
pub open spec fn load_all<E>(items: Seq<Result<MasterRecord, E>>, apex: DName, class: Class)
    -> (ZoneView, Seq<ZoneError>)
    decreases items.len(),
{
    if items.len() == 0 {
        (Map::<Seq<Key>, Option<crate::zone::EntryView>>::empty().insert(Seq::<Key>::empty(), None), Seq::empty())
    } else {
        let (z, errs) = load_all(items.drop_last(), apex, class);
        let (z2, e) = load_step(z, items.last(), apex, class);
        (z2, match e {
            Some(e) => errs.push(e),
            None => errs,
        })
    }
}

impl AuthoritativeZones {
    /// Loads a zone with its apex at `name` in class `class` from a stream
    /// of records. Every item must be a record of that class whose owner
    /// lies at or below `name`, and go into the zone; else nothing is
    /// installed and the errors come back, one per failing item. A zone that
    /// loads is installed as by `add_zone`.
    pub fn load_zone<E>(&mut self, name: &DName, class: Class, records: Vec<Result<MasterRecord, E>>)
        -> (r: Result<(), Vec<ZoneError>>)
        requires
            old(self).wf(),
        ensures
            final(self).wf(),
            ({
                let (zv, errs) = load_all(records@, *name, class);
                let w = with_path(old(self).zones(class), name.path());
                &&& errs.len() > 0 ==> (r matches Err(es) && es@ == errs)
                &&& errs.len() > 0 ==> forall|c: Class| #[trigger] final(self).zones(c) == old(self).zones(c)
                &&& errs.len() == 0 && w[name.path()] is Some ==> (r matches Err(es)
                    && es@ == seq![ZoneError::ZoneExists])
                &&& errs.len() == 0 && w[name.path()] is Some ==> final(self).zones(class) == w
                &&& errs.len() == 0 && w[name.path()] is None ==> r is Ok
                &&& errs.len() == 0 && w[name.path()] is None ==> (final(self).zones(class)[name.path()] matches Some(z)
                    && z@ == zv)
                &&& errs.len() == 0 && w[name.path()] is None
                    ==> final(self).zones(class) == w.insert(name.path(), final(self).zones(class)[name.path()])
                &&& forall|c: Class| c != class ==> #[trigger] final(self).zones(c) == old(self).zones(c)
            }),
    {
        let ghost items = records@;
        let n = records.len();
        let mut records = records;
        let mut rev: Vec<Result<MasterRecord, E>> = Vec::new();
        while records.len() > 0
            invariant
                n == items.len(),
                records@ == items.subrange(0, records@.len() as int),
                rev@.len() == n - records@.len(),
                forall|k: int| 0 <= k < rev@.len() ==> #[trigger] rev@[k] == items[n - 1 - k],
            decreases records@.len(),
        {
            let x = records.pop().unwrap();
            rev.push(x);
        }
        let mut zone = Zone::new();
        let mut errs: Vec<ZoneError> = Vec::new();
        let mut i: usize = 0;
        proof {
            assert(items.subrange(0, 0) =~= Seq::<Result<MasterRecord, E>>::empty());
        }
        while rev.len() > 0
            invariant
                n == items.len(),
                i + rev@.len() == n,
                forall|k: int| 0 <= k < rev@.len() ==> #[trigger] rev@[k] == items[n - 1 - k],
                zone.wf(),
                (zone@, errs@) == load_all(items.subrange(0, i as int), *name, class),
            decreases rev@.len(),
        {
            let item = rev.pop().unwrap();
            proof {
                assert(item == items[i as int]);
                assert(items.subrange(0, i as int + 1).drop_last() =~= items.subrange(0, i as int));
            }
            match item {
                Err(_) => {
                    errs.push(ZoneError::ReadFailed);
                },
                Ok(rec) => {
                    let MasterRecord { owner, class: rclass, ttl, rdata } = rec;
                    if rclass != class {
                        errs.push(ZoneError::ClassMismatch);
                    } else {
                        match owner.strip_suffix(name) {
                            Err(()) => {
                                errs.push(ZoneError::OwnerNotInZone);
                            },
                            Ok(rel) => {
                                match zone.add_record(&rel, ttl, rdata) {
                                    Ok(()) => {},
                                    Err(e) => {
                                        errs.push(e);
                                    },
                                }
                            },
                        }
                    }
                },
            }
            i += 1;
        }
        proof {
            assert(items.subrange(0, n as int) =~= items);
        }
        if errs.len() > 0 {
            return Err(errs);
        }
        match self.add_zone(name, class, zone) {
            Ok(()) => Ok(()),
            Err(e) => {
                let mut es: Vec<ZoneError> = Vec::new();
                es.push(e);
                proof {
                    assert(es@ =~= seq![ZoneError::ZoneExists]);
                }
                Err(es)
            },
        }
    }
}


/// After a zone is installed at `path`, finding `path` in that tree gives
/// that zone, with no labelettes left over.
pub proof fn lemma_add_then_find(m: Map<Seq<Key>, Option<Zone>>, path: Seq<Key>, zone: Zone)
    requires
        m.contains_key(Seq::<Key>::empty()),
        tree_install(m, path, zone) is Ok,
    ensures
        ({
            let m2 = tree_install(m, path, zone)->Ok_0;
            let d = deepest(m2, path, path.len() as int);
            &&& d == path.len()
            &&& m2[path.subrange(0, d)] == Some(zone)
            &&& path.subrange(d, path.len() as int) == Seq::<Key>::empty()
        }),
{
    let m2 = tree_install(m, path, zone)->Ok_0;
    lemma_with_path(m, path);
    assert(path.subrange(0, path.len() as int) =~= path);
    assert(is_apex(m2, path, path.len() as int));
    assert(path.subrange(path.len() as int, path.len() as int) =~= Seq::<Key>::empty());
}

/// The zone that `find` picks has the longest apex among the suffixes of
/// the name: no deeper suffix has a zone, and where none is picked no
/// suffix has one.
pub proof fn lemma_best_apex(m: Map<Seq<Key>, Option<Zone>>, path: Seq<Key>)
    ensures
        ({
            let d = deepest(m, path, path.len() as int);
            &&& d >= 0 ==> is_apex(m, path, d)
            &&& forall|j: int| d < j <= path.len() ==> !#[trigger] is_apex(m, path, j)
        }),
{
    lemma_deepest_is_apex(m, path, path.len() as int);
    lemma_deepest_max(m, path, path.len() as int);
}

proof fn lemma_deepest_max(m: Map<Seq<Key>, Option<Zone>>, path: Seq<Key>, k: int)
    ensures
        forall|j: int| deepest(m, path, k) < j <= k ==> !#[trigger] is_apex(m, path, j),
    decreases k + 1,
{
    if k >= 0 && !is_apex(m, path, k) {
        lemma_deepest_max(m, path, k - 1);
    }
}

/// How a server answers a request.
#[derive(Debug)]
pub enum Outcome<'a> {
    /// The request holds no usable question.
    FormErr,
    /// No zone of the question's class has an apex above its name.
    Refused,
    /// The name does not exist in its zone.
    NxDomain,
    /// The name exists, but has no records of the type asked for.
    NoData,
    /// The name lies at or below a delegation.
    Referral(&'a Cut),
    /// The records asked for.
    Answer(&'a RRset<MasterRecordData>),
}

/// The query result that an outcome stands for.
pub open spec fn entry_of<'a>(o: Outcome<'a>) -> Option<Entry<Option<&'a RRset<MasterRecordData>>, &'a Cut>> {
    match o {
        Outcome::Answer(s) => Some(Entry::Authoritative(Some(s))),
        Outcome::NoData => Some(Entry::Authoritative(None)),
        Outcome::Referral(c) => Some(Entry::Cut(c)),
        _ => None,
    }
}

impl AuthoritativeZones {
    /// How to answer a request whose question is `question`, `None` where
    /// the request holds none that could be read.
    pub fn respond<'a>(&'a self, question: Option<&Question>) -> (r: Outcome<'a>)
        requires
            self.wf(),
        ensures
            question is None ==> r is FormErr,
            question matches Some(q) ==> ({
                let m = self.zones(q.qclass);
                let path = q.qname.path();
                let d = deepest(m, path, path.len() as int);
                &&& d < 0 <==> r is Refused
                &&& d >= 0 ==> !(r is FormErr) && answers(m[path.subrange(0, d)]->Some_0@,
                    path.subrange(d, path.len() as int), q.qtype, entry_of(r))
            }),
    {
        let q = match question {
            Some(q) => q,
            None => {
                return Outcome::FormErr;
            },
        };
        match self.find(q.qclass, &q.qname) {
            None => Outcome::Refused,
            Some((zone, rest)) => match zone.query(&rest, q.qtype) {
                None => Outcome::NxDomain,
                Some(Entry::Authoritative(None)) => Outcome::NoData,
                Some(Entry::Authoritative(Some(s))) => Outcome::Answer(s),
                Some(Entry::Cut(c)) => Outcome::Referral(c),
            },
        }
    }
}

} // verus!
