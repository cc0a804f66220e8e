//! The kind registry: the thirteen wire tag identifiers and the two facts
//! derived from them (which container frames a homogeneous list of a given
//! element kind, and which kinds are list-like).

use vstd::prelude::*;

verus! {

/// The one-byte discriminator identifying a value's type on the wire.
#[derive(Debug, Copy, Clone, Eq, PartialEq, Structural)]
pub enum Kind {
    End,
    I8,
    I16,
    I32,
    I64,
    F32,
    F64,
    I8Array,
    String,
    List,
    Compound,
    I32Array,
    I64Array,
}

impl Kind {
    /// The stable numeric identifier of this kind, used verbatim on the wire.
    pub open spec fn spec_to_id(self) -> i8 {
        match self {
            Kind::End => 0,
            Kind::I8 => 1,
            Kind::I16 => 2,
            Kind::I32 => 3,
            Kind::I64 => 4,
            Kind::F32 => 5,
            Kind::F64 => 6,
            Kind::I8Array => 7,
            Kind::String => 8,
            Kind::List => 9,
            Kind::Compound => 10,
            Kind::I32Array => 11,
            Kind::I64Array => 12,
        }
    }

    /// The kind a numeric identifier denotes; `None` for any byte outside 0..=12.
    pub open spec fn spec_from_id(id: i8) -> Option<Kind> {
        if id == 0 {
            Some(Kind::End)
        } else if id == 1 {
            Some(Kind::I8)
        } else if id == 2 {
            Some(Kind::I16)
        } else if id == 3 {
            Some(Kind::I32)
        } else if id == 4 {
            Some(Kind::I64)
        } else if id == 5 {
            Some(Kind::F32)
        } else if id == 6 {
            Some(Kind::F64)
        } else if id == 7 {
            Some(Kind::I8Array)
        } else if id == 8 {
            Some(Kind::String)
        } else if id == 9 {
            Some(Kind::List)
        } else if id == 10 {
            Some(Kind::Compound)
        } else if id == 11 {
            Some(Kind::I32Array)
        } else if id == 12 {
            Some(Kind::I64Array)
        } else {
            None
        }
    }

    /// The container tag that frames a homogeneous list of elements of this
    /// kind: the three raw-array kinds for `I8`, `I32` and `I64` elements, and
    /// the generic `List` tag for every other element kind.
    pub open spec fn spec_list_container(self) -> Kind {
        match self {
            Kind::I8 => Kind::I8Array,
            Kind::I32 => Kind::I32Array,
            Kind::I64 => Kind::I64Array,
            _ => Kind::List,
        }
    }

    /// Whether this kind denotes a length-prefixed, repeated-payload structure.
    pub open spec fn spec_is_list(self) -> bool {
        match self {
            Kind::List => true,
            Kind::I8Array => true,
            Kind::I32Array => true,
            Kind::I64Array => true,
            _ => false,
        }
    }

    pub fn from_id(id: i8) -> (r: Option<Kind>)
        ensures
            r == Kind::spec_from_id(id),
    {
        match id {
            0 => Some(Kind::End),
            1 => Some(Kind::I8),
            2 => Some(Kind::I16),
            3 => Some(Kind::I32),
            4 => Some(Kind::I64),
            5 => Some(Kind::F32),
            6 => Some(Kind::F64),
            7 => Some(Kind::I8Array),
            8 => Some(Kind::String),
            9 => Some(Kind::List),
            10 => Some(Kind::Compound),
            11 => Some(Kind::I32Array),
            12 => Some(Kind::I64Array),
            _ => None,
        }
    }

    pub fn to_id(&self) -> (r: i8)
        ensures
            r == self.spec_to_id(),
    {
        match self {
            Kind::End => 0,
            Kind::I8 => 1,
            Kind::I16 => 2,
            Kind::I32 => 3,
            Kind::I64 => 4,
            Kind::F32 => 5,
            Kind::F64 => 6,
            Kind::I8Array => 7,
            Kind::String => 8,
            Kind::List => 9,
            Kind::Compound => 10,
            Kind::I32Array => 11,
            Kind::I64Array => 12,
        }
    }

    pub fn list_container(&self) -> (r: Kind)
        ensures
            r == self.spec_list_container(),
    {
        match self {
            Kind::I8 => Kind::I8Array,
            Kind::I32 => Kind::I32Array,
            Kind::I64 => Kind::I64Array,
            _ => Kind::List,
        }
    }

    pub fn is_list(&self) -> (r: bool)
        ensures
            r == self.spec_is_list(),
    {
        match self {
            Kind::List => true,
            Kind::I8Array => true,
            Kind::I32Array => true,
            Kind::I64Array => true,
            _ => false,
        }
    }
}

/// The identifier table and the kind table are inverse to one another.
pub proof fn lemma_kind_id_round_trip(k: Kind, id: i8)
    ensures
        Kind::spec_from_id(k.spec_to_id()) == Some(k),
        Kind::spec_from_id(id) matches Some(k2) ==> k2.spec_to_id() == id,
        0 <= k.spec_to_id() <= 12,
{
}

} // verus!
