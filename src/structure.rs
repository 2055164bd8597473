use crate::common::{TagClass, TagStructure};
use vstd::prelude::*;

verus! {

broadcast use vstd::std_specs::vec::group_vec_axioms;

/// The mathematical form of a tagged value: the class, the tag number and
/// either raw bytes or the ordered children.
pub enum Tree {
    Prim(TagClass, u64, Seq<u8>),
    Cons(TagClass, u64, Seq<Tree>),
}

/// One node of a tagged-value tree.
#[derive(Debug)]
pub struct StructureTag {
    pub class: TagClass,
    pub id: u64,
    pub payload: PL,
}

/// The payload of a node: raw bytes (primitive) or children (constructed).
#[derive(Debug)]
pub enum PL {
    P(Vec<u8>),
    C(Vec<StructureTag>),
}

impl Tree {
    /// The class of the node.
    pub open spec fn class(self) -> TagClass {
        match self {
            Tree::Prim(c, _, _) => c,
            Tree::Cons(c, _, _) => c,
        }
    }

    /// The tag number of the node.
    pub open spec fn id(self) -> u64 {
        match self {
            Tree::Prim(_, i, _) => i,
            Tree::Cons(_, i, _) => i,
        }
    }

    /// The structure that the payload variant determines.
    pub open spec fn structure(self) -> TagStructure {
        match self {
            Tree::Prim(..) => TagStructure::Primitive,
            Tree::Cons(..) => TagStructure::Constructed,
        }
    }
}

/// The trees of a sequence of nodes.
pub open spec fn trees_of(ts: Seq<StructureTag>) -> Seq<Tree>
    decreases ts,
{
    Seq::new(ts.len(), |i: int| if 0 <= i < ts.len() { ts[i].view() } else { Tree::Prim(TagClass::Universal, 0, seq![]) })
}

impl StructureTag {
    /// The tree that this node stands for.
    pub open spec fn view(&self) -> Tree
        decreases self,
    {
        match self.payload {
            PL::P(v) => Tree::Prim(self.class, self.id, v@),
            PL::C(ts) => Tree::Cons(self.class, self.id, trees_of(ts@)),
        }
    }
}

/// Copies every node of a sequence of trees.
fn copy_all(ts: &Vec<StructureTag>) -> (r: Vec<StructureTag>)
    ensures
        trees_of(r@) == trees_of(ts@),
    decreases ts, 0nat,
{
    let mut out: Vec<StructureTag> = Vec::new();
    let mut i: usize = 0;
    while i < ts.len()
        invariant
            i <= ts.len(),
            out@.len() == i,
            forall|j: int| 0 <= j < i ==> (#[trigger] out@[j]).view() == ts@[j].view(),
        decreases ts.len() - i,
    {
        proof {
            assert(decreases_to!(ts => ts@[i as int]));
        }
        out.push(ts[i].deep_copy());
        i = i + 1;
    }
    assert(trees_of(out@) =~= trees_of(ts@));
    out
}

impl StructureTag {
    /// A copy of the whole tree.
    pub fn deep_copy(&self) -> (r: StructureTag)
        ensures
            r@ == self@,
        decreases self, 1nat,
    {
        let payload = match &self.payload {
            PL::P(v) => PL::P(v.clone()),
            PL::C(ts) => PL::C(copy_all(ts)),
        };
        StructureTag { class: self.class, id: self.id, payload }
    }
}

impl StructureTag {
    /// The node itself when its class is `class`, else nothing.
    pub fn match_class(self, class: TagClass) -> (r: Option<Self>)
        ensures
            self.class == class ==> r == Some(self),
            self.class != class ==> r is None,
    {
        if self.class == class {
            Some(self)
        } else {
            None
        }
    }

    /// The node itself when its tag number is `id`, else nothing.
    pub fn match_id(self, id: u64) -> (r: Option<Self>)
        ensures
            self.id == id ==> r == Some(self),
            self.id != id ==> r is None,
    {
        if self.id == id {
            Some(self)
        } else {
            None
        }
    }

    /// The children of a constructed node; nothing for a primitive one.
    pub fn expect_constructed(self) -> (r: Option<Vec<StructureTag>>)
        ensures
            self.payload is C ==> r == Some(self.payload->C_0),
            self.payload is P ==> r is None,
    {
        match self.payload {
            PL::P(_) => None,
            PL::C(i) => Some(i),
        }
    }

    /// The raw bytes of a primitive node; nothing for a constructed one.
    pub fn expect_primitive(self) -> (r: Option<Vec<u8>>)
        ensures
            self.payload is P ==> r == Some(self.payload->P_0),
            self.payload is C ==> r is None,
    {
        match self.payload {
            PL::P(i) => Some(i),
            PL::C(_) => None,
        }
    }
}

impl Clone for StructureTag {
    fn clone(&self) -> (r: Self)
        ensures
            r@ == self@,
    {
        self.deep_copy()
    }
}

/// Whether two byte sequences hold the same bytes.
fn same_bytes(a: &Vec<u8>, b: &Vec<u8>) -> (r: bool)
    ensures
        r == (a@ == b@),
{
    if a.len() != b.len() {
        return false;
    }
    let mut i: usize = 0;
    while i < a.len()
        invariant
            i <= a.len(),
            a@.len() == b@.len(),
            forall|j: int| 0 <= j < i ==> a@[j] == b@[j],
        decreases a.len() - i,
    {
        if a[i] != b[i] {
            return false;
        }
        i = i + 1;
    }
    assert(a@ =~= b@);
    true
}

/// Whether two sequences of nodes hold the same trees, in the same order.
fn same_all(a: &Vec<StructureTag>, b: &Vec<StructureTag>) -> (r: bool)
    ensures
        r == (trees_of(a@) == trees_of(b@)),
    decreases a, 0nat,
{
    if a.len() != b.len() {
        assert(trees_of(a@).len() != trees_of(b@).len());
        return false;
    }
    let mut i: usize = 0;
    while i < a.len()
        invariant
            i <= a.len(),
            a@.len() == b@.len(),
            forall|j: int| 0 <= j < i ==> (#[trigger] a@[j]).view() == b@[j].view(),
        decreases a.len() - i,
    {
        proof {
            assert(decreases_to!(a => a@[i as int]));
        }
        if !a[i].same_tree(&b[i]) {
            assert(trees_of(a@)[i as int] != trees_of(b@)[i as int]);
            return false;
        }
        i = i + 1;
    }
    assert(trees_of(a@) =~= trees_of(b@));
    true
}

impl StructureTag {
    /// Whether two nodes are structurally equal.
    pub fn same_tree(&self, o: &StructureTag) -> (r: bool)
        ensures
            r == (self@ == o@),
        decreases self, 1nat,
    {
        if self.class != o.class || self.id != o.id {
            return false;
        }
        match (&self.payload, &o.payload) {
            (PL::P(a), PL::P(b)) => same_bytes(a, b),
            (PL::C(a), PL::C(b)) => same_all(a, b),
            _ => false,
        }
    }
}

impl PartialEq for StructureTag {
    fn eq(&self, o: &StructureTag) -> (r: bool) {
        self.same_tree(o)
    }
}

impl vstd::std_specs::cmp::PartialEqSpecImpl for StructureTag {
    open spec fn obeys_eq_spec() -> bool {
        true
    }

    open spec fn eq_spec(&self, o: &StructureTag) -> bool {
        self@ == o@
    }
}

impl Eq for StructureTag {
}

} // verus!
