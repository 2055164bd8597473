use crate::common::TagClass;
use crate::structure::{StructureTag, Tree, PL};
use vstd::prelude::*;

verus! {

/// An ASN.1 OCTET STRING: a primitive value holding raw bytes.
#[derive(Clone, Debug, PartialEq)]
pub struct OctetString {
    pub id: u64,
    pub class: TagClass,
    pub inner: Vec<u8>,
}

impl OctetString {
    /// The generic tree node of this value.
    pub fn into_structure(self) -> (r: StructureTag)
        ensures
            r@ == Tree::Prim(self.class, self.id, self.inner@),
    {
        StructureTag { id: self.id, class: self.class, payload: PL::P(self.inner) }
    }
}

impl Default for OctetString {
    /// A universal value with the standard tag number (4).
    fn default() -> (r: Self)
        ensures
            r.id == 4,
            r.class == TagClass::Universal,
            r.inner@.len() == 0,
    {
        OctetString { id: 4, class: TagClass::Universal, inner: Vec::new() }
    }
}

} // verus!
