use vstd::prelude::*;

verus! {

/// The namespace of a tag number, held in the two high bits of the identifier byte.
#[derive(Clone, Copy, PartialEq, Eq, Debug, Structural)]
pub enum TagClass {
    Universal,
    Application,
    Context,
    Private,
}

/// Whether the payload is raw bytes or a sequence of encoded values (bit 5).
#[derive(Clone, Copy, PartialEq, Eq, Debug, Structural)]
pub enum TagStructure {
    Primitive,
    Constructed,
}

/// The two-bit field that stands for a class on the wire.
pub open spec fn class_bits(c: TagClass) -> nat {
    match c {
        TagClass::Universal => 0,
        TagClass::Application => 1,
        TagClass::Context => 2,
        TagClass::Private => 3,
    }
}

/// The bit that stands for a structure on the wire.
pub open spec fn structure_bit(s: TagStructure) -> nat {
    match s {
        TagStructure::Primitive => 0,
        TagStructure::Constructed => 1,
    }
}

impl TagClass {
    /// The class whose two-bit field is `bits`.
    pub fn from_bits(bits: u8) -> (r: TagClass)
        requires
            bits < 4,
        ensures
            class_bits(r) == bits,
    {
        if bits == 0 {
            TagClass::Universal
        } else if bits == 1 {
            TagClass::Application
        } else if bits == 2 {
            TagClass::Context
        } else {
            TagClass::Private
        }
    }

    /// The two-bit field of this class.
    pub fn bits(&self) -> (r: u8)
        ensures
            r as nat == class_bits(*self),
    {
        match self {
            TagClass::Universal => 0,
            TagClass::Application => 1,
            TagClass::Context => 2,
            TagClass::Private => 3,
        }
    }
}

impl TagStructure {
    /// The structure bit of this value.
    pub fn bit(&self) -> (r: u8)
        ensures
            r as nat == structure_bit(*self),
    {
        match self {
            TagStructure::Primitive => 0,
            TagStructure::Constructed => 1,
        }
    }
}

} // verus!
