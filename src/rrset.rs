//! Record sets and the records of one node.

use vstd::prelude::*;
use crate::iana::Rtype;
use crate::name::DName;
use crate::rdata::{MasterRecord, MasterRecordData};

verus! {

/// Why a zone or a zone store could not take what it was given.
#[derive(Clone, Copy, Debug, PartialEq, Eq, Structural)]
pub enum ZoneError {
    /// The TTL differs from that of the record set's earlier members.
    TtlMismatch,
    /// Records were added where the zone has a delegation.
    CutConflict,
    /// A delegation was added where the zone has records.
    AuthConflict,
    /// A record's owner lies outside the zone.
    OwnerNotInZone,
    /// A record's class differs from the zone's.
    ClassMismatch,
    /// The master file could not be read.
    ReadFailed,
    /// Another zone already has that apex.
    ZoneExists,
}

/// Records that share owner, class and type: one TTL and their data.
#[derive(Debug)]
pub struct RRset<D> {
    ttl: u32,
    data: Vec<D>,
}

impl<D> View for RRset<D> {
    type V = (u32, Seq<D>);

    closed spec fn view(&self) -> (u32, Seq<D>) {
        (self.ttl, self.data@)
    }
}

impl<D> RRset<D> {
    pub fn new() -> (r: RRset<D>)
        ensures
            r@ == (0u32, Seq::<D>::empty()),
    {
        RRset { ttl: 0, data: Vec::new() }
    }

    pub fn ttl(&self) -> (r: u32)
        ensures
            r == self@.0,
    {
        self.ttl
    }

    pub fn set_ttl(&mut self, ttl: u32)
        ensures
            final(self)@ == (ttl, old(self)@.1),
    {
        self.ttl = ttl
    }

    pub fn push(&mut self, data: D)
        ensures
            final(self)@ == (old(self)@.0, old(self)@.1.push(data)),
    {
        self.data.push(data)
    }

    /// The data of the set's members.
    pub fn as_slice(&self) -> (r: &[D])
        ensures
            r@ == self@.1,
    {
        self.data.as_slice()
    }

    pub fn len(&self) -> (r: usize)
        ensures
            r == self@.1.len(),
    {
        self.data.len()
    }
}

/// The view of a record set after adding a member with `ttl`, or `None` where
/// the set already has members with another TTL.
pub open spec fn rrset_add<D>(s: Option<(u32, Seq<D>)>, ttl: u32, data: D) -> Option<(u32, Seq<D>)> {
    match s {
        Some(s) => if s.1.len() > 0 && s.0 != ttl {
            None
        } else {
            Some((ttl, s.1.push(data)))
        },
        None => Some((ttl, seq![data])),
    }
}

/// The record sets of one node, by record type.
pub open spec fn records_add(
    m: Map<Rtype, (u32, Seq<MasterRecordData>)>,
    ttl: u32,
    data: MasterRecordData,
) -> Option<Map<Rtype, (u32, Seq<MasterRecordData>)>> {
    let t = data.rtype_spec();
    let cur = if m.contains_key(t) { Some(m[t]) } else { None };
    match rrset_add(cur, ttl, data) {
        Some(s) => Some(m.insert(t, s)),
        None => None,
    }
}

/// All members of a record set share one TTL: adding a record with the
/// set's TTL, or to a new set, succeeds and leaves the set with that TTL;
/// adding one with another TTL to a set that has members fails.
pub proof fn lemma_ttl_uniform(m: Map<Rtype, (u32, Seq<MasterRecordData>)>, ttl: u32, data: MasterRecordData)
    ensures
        ({
            let t = data.rtype_spec();
            &&& records_add(m, ttl, data) matches Some(m2) ==> m2[t].0 == ttl
                && (m.contains_key(t) && m[t].1.len() > 0 ==> m[t].0 == ttl)
                && m2[t].1 == (if m.contains_key(t) { m[t].1 } else { Seq::empty() }).push(data)
            &&& records_add(m, ttl, data) is None <==> (m.contains_key(t) && m[t].1.len() > 0 && m[t].0 != ttl)
        }),
{
}

/// The records at one node: one record set per record type, none of them
/// empty.
#[derive(Debug)]
pub struct Records {
    rrsets: Vec<(Rtype, RRset<MasterRecordData>)>,
}

impl Records {
    /// Record types are unique and no record set is empty.
    pub closed spec fn wf(&self) -> bool {
        &&& forall|a: int, b: int|
            0 <= a < self.rrsets@.len() && 0 <= b < self.rrsets@.len() && a != b
                ==> self.rrsets@[a].0 != self.rrsets@[b].0
        &&& forall|a: int| 0 <= a < self.rrsets@.len() ==> (#[trigger] self.rrsets@[a]).1@.1.len() > 0
    }

    closed spec fn has(&self, t: Rtype) -> bool {
        exists|a: int| 0 <= a < self.rrsets@.len() && self.rrsets@[a].0 == t
    }

    closed spec fn index_of(&self, t: Rtype) -> int {
        choose|a: int| 0 <= a < self.rrsets@.len() && self.rrsets@[a].0 == t
    }

    pub closed spec fn view(&self) -> Map<Rtype, (u32, Seq<MasterRecordData>)> {
        Map::new(|t: Rtype| self.has(t), |t: Rtype| self.rrsets@[self.index_of(t)].1@)
    }

    proof fn lemma_at(&self, a: int)
        requires
            self.wf(),
            0 <= a < self.rrsets@.len(),
        ensures
            self.index_of(self.rrsets@[a].0) == a,
            self@.contains_key(self.rrsets@[a].0),
            self@[self.rrsets@[a].0] == self.rrsets@[a].1@,
            self@[self.rrsets@[a].0].1.len() > 0,
    {
        let t = self.rrsets@[a].0;
        assert(self.has(t));
        let b = self.index_of(t);
        assert(self.rrsets@[b].0 == t);
    }

    pub fn new() -> (r: Records)
        ensures
            r.wf(),
            r@ == Map::<Rtype, (u32, Seq<MasterRecordData>)>::empty(),
    {
        let r = Records { rrsets: Vec::new() };
        assert(r@ =~= Map::<Rtype, (u32, Seq<MasterRecordData>)>::empty());
        r
    }

    /// The position of the record set of type `t`.
    fn find(&self, t: Rtype) -> (r: Option<usize>)
        requires
            self.wf(),
        ensures
            r is Some <==> self@.contains_key(t),
            r matches Some(a) ==> a < self.rrsets@.len() && self.rrsets@[a as int].0 == t
                && self@[t] == self.rrsets@[a as int].1@,
    {
        let mut a: usize = 0;
        while a < self.rrsets.len()
            invariant
                self.wf(),
                a <= self.rrsets@.len(),
                forall|b: int| 0 <= b < a ==> (#[trigger] self.rrsets@[b]).0 != t,
            decreases self.rrsets@.len() - a,
        {
            if self.rrsets[a].0 == t {
                proof { self.lemma_at(a as int); }
                return Some(a);
            }
            a += 1;
        }
        None
    }

    /// Adds a record of TTL `ttl` to the record set of its type. This fails
    /// where that set has members with another TTL, and then nothing changes.
    pub fn add_record(&mut self, ttl: u32, data: MasterRecordData) -> (r: Result<(), ZoneError>)
        requires
            old(self).wf(),
        ensures
            final(self).wf(),
            records_add(old(self)@, ttl, data) matches Some(m) ==> r is Ok && final(self)@ == m,
            records_add(old(self)@, ttl, data) is None ==> r == Err::<(), ZoneError>(ZoneError::TtlMismatch)
                && final(self)@ == old(self)@,
    {
        let ghost before = *self;
        let ghost t = data.rtype_spec();
        let ghost d = data;
        match self.find(data.rtype()) {
            Some(a) => {
                proof { before.lemma_at(a as int); }
                if self.rrsets[a].1.ttl() != ttl {
                    return Err(ZoneError::TtlMismatch);
                }
                self.rrsets[a].1.push(data);
                proof {
                    assert forall|b: int| 0 <= b < self.rrsets@.len() && b != a
                        implies self.rrsets@[b] == before.rrsets@[b] by {}
                    assert forall|u: Rtype| #[trigger] self@.contains_key(u) <==> before@.contains_key(u) by {
                        if before.has(u) {
                            let b = choose|b: int| 0 <= b < before.rrsets@.len() && before.rrsets@[b].0 == u;
                            assert(self.rrsets@[b].0 == u);
                        }
                        if self.has(u) {
                            let b = choose|b: int| 0 <= b < self.rrsets@.len() && self.rrsets@[b].0 == u;
                            assert(before.rrsets@[b].0 == u);
                        }
                    }
                    assert forall|u: Rtype| #[trigger] self@.contains_key(u)
                        implies self@[u] == before@.insert(t, (ttl, before@[t].1.push(d)))[u] by {
                        let b = self.index_of(u);
                        assert(self.rrsets@[b].0 == u);
                        self.lemma_at(b);
                        before.lemma_at(b);
                    }
                    assert(self@ =~= before@.insert(t, (ttl, before@[t].1.push(d))));
                }
                Ok(())
            },
            None => {
                let mut set = RRset::new();
                set.set_ttl(ttl);
                let rt = data.rtype();
                set.push(data);
                self.rrsets.push((rt, set));
                proof {
                    let n = before.rrsets@.len();
                    assert(self.rrsets@[n as int].0 == t);
                    assert forall|u: Rtype| #[trigger] self@.contains_key(u) <==> before@.insert(t, (ttl, seq![d])).contains_key(u) by {
                        if before.has(u) {
                            let b = choose|b: int| 0 <= b < before.rrsets@.len() && before.rrsets@[b].0 == u;
                            assert(self.rrsets@[b].0 == u);
                        }
                        if self.has(u) {
                            let b = choose|b: int| 0 <= b < self.rrsets@.len() && self.rrsets@[b].0 == u;
                            if b < n {
                                assert(before.rrsets@[b].0 == u);
                            }
                        }
                    }
                    assert forall|u: Rtype| #[trigger] self@.contains_key(u)
                        implies self@[u] == before@.insert(t, (ttl, seq![d]))[u] by {
                        let b = self.index_of(u);
                        assert(self.rrsets@[b].0 == u);
                        self.lemma_at(b);
                        if b < n {
                            before.lemma_at(b);
                        }
                    }
                    assert(self@ =~= before@.insert(t, (ttl, seq![d])));
                }
                Ok(())
            },
        }
    }

    /// The record set of type `rtype`, if the node has one.
    pub fn get(&self, rtype: Rtype) -> (r: Option<&RRset<MasterRecordData>>)
        requires
            self.wf(),
        ensures
            r is Some <==> self@.contains_key(rtype),
            r matches Some(s) ==> s@ == self@[rtype],
    {
        match self.find(rtype) {
            Some(a) => Some(&self.rrsets[a].1),
            None => None,
        }
    }
}

/// A delegation: the name servers of the child zone and glue records.
#[derive(Debug)]
pub struct Cut {
    ns: RRset<DName>,
    glue: Vec<MasterRecord>,
}

impl View for Cut {
    type V = ((u32, Seq<DName>), Seq<MasterRecord>);

    closed spec fn view(&self) -> ((u32, Seq<DName>), Seq<MasterRecord>) {
        (self.ns@, self.glue@)
    }
}

impl Cut {
    pub fn new() -> (r: Cut)
        ensures
            r@ == ((0u32, Seq::<DName>::empty()), Seq::<MasterRecord>::empty()),
    {
        Cut { ns: RRset::new(), glue: Vec::new() }
    }

    pub fn ns(&self) -> (r: &RRset<DName>)
        ensures
            r@ == self@.0,
    {
        &self.ns
    }

    pub fn glue(&self) -> (r: &[MasterRecord])
        ensures
            r@ == self@.1,
    {
        self.glue.as_slice()
    }

    /// Adds a name server. This fails where the cut has name servers with
    /// another TTL, and then nothing changes.
    pub fn add_ns(&mut self, ttl: u32, ns: DName) -> (r: Result<(), ZoneError>)
        ensures
            rrset_add(Some(old(self)@.0), ttl, ns) matches Some(s) ==> r is Ok
                && final(self)@ == (s, old(self)@.1),
            rrset_add(Some(old(self)@.0), ttl, ns) is None
                ==> r == Err::<(), ZoneError>(ZoneError::TtlMismatch) && final(self)@ == old(self)@,
    {
        if self.ns.len() > 0 && self.ns.ttl() != ttl {
            return Err(ZoneError::TtlMismatch);
        }
        self.ns.set_ttl(ttl);
        self.ns.push(ns);
        Ok(())
    }

    /// Adds a glue record.
    pub fn add_glue(&mut self, record: MasterRecord)
        ensures
            final(self)@ == (old(self)@.0, old(self)@.1.push(record)),
    {
        self.glue.push(record)
    }
}

} // verus!
