//! An authoritative DNS zone store and a reader for master files.

pub mod entry;
pub mod iana;
pub mod name;
pub mod rdata;
pub mod reader;
pub mod rrset;
pub mod scan;
pub mod text;
pub mod tree;
pub mod zone;
pub mod zones;
