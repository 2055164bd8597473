use crate::common::TagClass;
use crate::structure::{StructureTag, Tree, PL};
use vstd::prelude::*;

verus! {

/// An ASN.1 NULL: a primitive value with no payload.
#[derive(Debug, PartialEq)]
pub struct Null {
    pub id: u64,
    pub class: TagClass,
    pub inner: (),
}

impl Null {
    /// The generic tree node of this value.
    pub fn into_structure(self) -> (r: StructureTag)
        ensures
            r@ == Tree::Prim(self.class, self.id, seq![]),
    {
        StructureTag { id: self.id, class: self.class, payload: PL::P(Vec::new()) }
    }
}

impl Default for Null {
    /// A universal value with the standard tag number (5).
    fn default() -> (r: Self)
        ensures
            r.id == 5,
            r.class == TagClass::Universal,
    {
        Null { id: 5, class: TagClass::Universal, inner: () }
    }
}

} // verus!
