//! The record-type code: a small open enumeration over the 16-bit wire
//! value, unknown codes kept verbatim so they round-trip.

use vstd::prelude::*;

verus! {

#[derive(Debug, PartialEq, Eq, Structural, Clone, Copy, Hash)]
pub enum QType {
    A,
    AAAA,
    NS,
    Unknown(u16),
}

/// The tag a 16-bit wire value decodes to.
pub open spec fn qtype_of(v: u16) -> QType {
    if v == 1 {
        QType::A
    } else if v == 2 {
        QType::NS
    } else if v == 28 {
        QType::AAAA
    } else {
        QType::Unknown(v)
    }
}

/// The 16-bit wire value of a tag.
pub open spec fn qtype_code(q: QType) -> u16 {
    match q {
        QType::A => 1,
        QType::NS => 2,
        QType::AAAA => 28,
        QType::Unknown(v) => v,
    }
}

impl QType {
    /// The tag of a wire value.
    pub fn from(v: u16) -> (r: QType)
        ensures
            r == qtype_of(v),
    {
        if v == 1 {
            QType::A
        } else if v == 2 {
            QType::NS
        } else if v == 28 {
            QType::AAAA
        } else {
            QType::Unknown(v)
        }
    }

    /// The wire value of this tag.
    pub fn into(self) -> (r: u16)
        ensures
            r == qtype_code(self),
    {
        match self {
            QType::A => 1,
            QType::NS => 2,
            QType::AAAA => 28,
            QType::Unknown(v) => v,
        }
    }
}

} // verus!
