//! Record data as read from master files.

use vstd::prelude::*;
use crate::iana::Rtype;
use crate::name::DName;

verus! {

/// The data of a record, tagged with its type.
#[derive(Debug)]
pub enum MasterRecordData {
    /// An IPv4 address.
    A([u8; 4]),
    /// An authoritative name server.
    Ns(DName),
    /// The canonical name of an alias.
    Cname(DName),
    /// A domain name pointer.
    Ptr(DName),
    /// A mail exchange: preference and exchange host.
    Mx(u16, DName),
    /// The start of a zone of authority.
    Soa(Soa),
    /// Character strings.
    Txt(Vec<Vec<u8>>),
}

/// The fields of an SOA record.
#[derive(Debug)]
pub struct Soa {
    pub mname: DName,
    pub rname: DName,
    pub serial: u32,
    pub refresh: u32,
    pub retry: u32,
    pub expire: u32,
    pub minimum: u32,
}

impl MasterRecordData {
    pub open spec fn rtype_spec(&self) -> Rtype {
        match self {
            MasterRecordData::A(_) => Rtype::A,
            MasterRecordData::Ns(_) => Rtype::Ns,
            MasterRecordData::Cname(_) => Rtype::Cname,
            MasterRecordData::Ptr(_) => Rtype::Ptr,
            MasterRecordData::Mx(_, _) => Rtype::Mx,
            MasterRecordData::Soa(_) => Rtype::Soa,
            MasterRecordData::Txt(_) => Rtype::Txt,
        }
    }

    /// The record type of the data.
    pub fn rtype(&self) -> (r: Rtype)
        ensures
            r == self.rtype_spec(),
    {
        match self {
            MasterRecordData::A(_) => Rtype::A,
            MasterRecordData::Ns(_) => Rtype::Ns,
            MasterRecordData::Cname(_) => Rtype::Cname,
            MasterRecordData::Ptr(_) => Rtype::Ptr,
            MasterRecordData::Mx(_, _) => Rtype::Mx,
            MasterRecordData::Soa(_) => Rtype::Soa,
            MasterRecordData::Txt(_) => Rtype::Txt,
        }
    }
}

} // verus!

verus! {

/// A record with everything resolved: owner, class, TTL and data.
#[derive(Debug)]
pub struct MasterRecord {
    pub owner: DName,
    pub class: crate::iana::Class,
    pub ttl: u32,
    pub rdata: MasterRecordData,
}

} // verus!
