//! Core vocabulary of the tree abstraction.

use vstd::prelude::*;
use crate::util::{slice_bytes, ImSlice};

verus! {

/// Opaque tag naming the kind of a node.
#[derive(Clone, PartialEq, Eq, Structural, Ord, Hash, PartialOrd, Copy, Debug)]
pub struct Def(pub u128);

/// Opaque tag naming a trait: an ordered slot of children under a node.
#[derive(Clone, PartialEq, Eq, Structural, Ord, Hash, PartialOrd, Copy, Debug)]
pub struct Label(pub u128);

/// Which node holds a given node as a child, and under which label.
#[derive(Clone, Copy)]
pub struct ParentInfo<TNode> {
    pub node: TNode,
    pub label: Label,
}


/// The data of a tree node: what kind of node it is, and its payload.
pub trait NodeData {
    /// Whether the payload can be read: a view of a node has to lie inside
    /// the bytes it was made for.
    spec fn readable(&self) -> bool;

    /// The kind of the node.
    spec fn def_of(&self) -> Def;

    /// The bytes of the payload, if the node has one.
    spec fn payload_of(&self) -> Option<Seq<u8>>;

    fn get_def(&self) -> (r: Def)
        ensures
            r == self.def_of(),
    ;

    fn get_payload(&self) -> (r: Option<ImSlice<'_>>)
        requires
            self.readable(),
        ensures
            match self.payload_of() {
                Some(bytes) => r matches Some(s) && slice_bytes(&s) == bytes,
                None => r is None,
            },
    ;
}

} // verus!
