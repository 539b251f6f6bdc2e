//! DNS classes and record types.

use vstd::prelude::*;

verus! {

/// A DNS CLASS.
#[derive(Clone, Copy, Debug, PartialEq, Eq, Structural)]
pub enum Class {
    /// Internet (IN).
    In,
    /// Chaosnet (CH).
    Ch,
    /// Hesiod (HS).
    Hs,
    /// The query class NONE.
    NoneClass,
    /// The query class ANY, written `*`.
    Any,
    /// Any other class, by its number.
    Int(u16),
}

impl Class {
    pub open spec fn to_int_spec(self) -> u16 {
        match self {
            Class::In => 1,
            Class::Ch => 3,
            Class::Hs => 4,
            Class::NoneClass => 0xFE,
            Class::Any => 0xFF,
            Class::Int(v) => v,
        }
    }

    /// The class's number.
    pub fn to_int(&self) -> (r: u16)
        ensures
            r == self.to_int_spec(),
    {
        match self {
            Class::In => 1,
            Class::Ch => 3,
            Class::Hs => 4,
            Class::NoneClass => 0xFE,
            Class::Any => 0xFF,
            Class::Int(v) => *v,
        }
    }
}

/// A DNS record type.
#[derive(Clone, Copy, Debug, PartialEq, Eq, Structural)]
pub enum Rtype {
    A,
    Ns,
    Cname,
    Soa,
    Ptr,
    Mx,
    Txt,
    /// Any other type, by its number.
    Int(u16),
}

impl Rtype {
    pub open spec fn to_int_spec(self) -> u16 {
        match self {
            Rtype::A => 1,
            Rtype::Ns => 2,
            Rtype::Cname => 5,
            Rtype::Soa => 6,
            Rtype::Ptr => 12,
            Rtype::Mx => 15,
            Rtype::Txt => 16,
            Rtype::Int(v) => v,
        }
    }

    /// The type's number.
    pub fn to_int(&self) -> (r: u16)
        ensures
            r == self.to_int_spec(),
    {
        match self {
            Rtype::A => 1,
            Rtype::Ns => 2,
            Rtype::Cname => 5,
            Rtype::Soa => 6,
            Rtype::Ptr => 12,
            Rtype::Mx => 15,
            Rtype::Txt => 16,
            Rtype::Int(v) => *v,
        }
    }
}

} // verus!
