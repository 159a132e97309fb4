//! Indirect chunks: a single node whose children are the ids of other chunks.
//! Looking those ids up in a forest turns such nodes into a tree.

use vstd::prelude::*;
use vstd::std_specs::cmp::PartialEqSpecImpl;
use crate::chunk::ChunkId;
use crate::node_id::{HasId, NodeId};
use crate::tree::{Def, Label, NodeData};
use crate::util::{
    clone_bytes, focus_of, same_bytes, slice_bytes, vector_bytes, ImHashMap, ImSlice,
};

verus! {

/// One node with arbitrarily shaped traits. It owns exactly the id it is
/// stored under.
pub struct IndirectChunk {
    pub def: Def,
    /// Often absent, so kept behind a pointer to keep the chunk small.
    pub payload: Option<Box<im_rc::Vector<u8>>>,
    /// The children under each label, keyed by the number of the label.
    pub traits: ImHashMap<u128, Vec<ChunkId>>,
}

/// What a trait map holds: for the number of each label, the children in order.
pub uninterp spec fn trait_map(m: &ImHashMap<u128, Vec<ChunkId>>) -> Map<u128, Seq<ChunkId>>;

/// `HashMap::get`: the children stored under the label, if there are any.
#[verifier::external_body]
fn trait_lookup<'a>(m: &'a ImHashMap<u128, Vec<ChunkId>>, label: u128) -> (r: Option<
    &'a Vec<ChunkId>,
>)
    ensures
        match r {
            Some(ids) => trait_map(m).contains_key(label) && ids@ == trait_map(m)[label],
            None => !trait_map(m).contains_key(label),
        },
{
    m.get(&label)
}

/// `HashMap::keys`: every key of the map once, as a label, in an order that
/// the map does not promise.
#[verifier::external_body]
fn trait_keys(m: &ImHashMap<u128, Vec<ChunkId>>) -> (r: Vec<Label>)
    ensures
        r@.no_duplicates(),
        forall|k: u128| trait_map(m).contains_key(k) <==> r@.contains(Label(k)),
{
    m.keys().map(|k| Label(*k)).collect()
}

/// `HashMap::default`: a trait map without entries.
#[verifier::external_body]
fn trait_map_new() -> (r: ImHashMap<u128, Vec<ChunkId>>)
    ensures
        forall|k: u128| !trait_map(&r).contains_key(k),
{
    ImHashMap::default()
}

/// `HashMap::insert`: afterwards the label leads to the new children, and
/// every other label to what it led to before.
#[verifier::external_body]
fn trait_map_insert(m: &mut ImHashMap<u128, Vec<ChunkId>>, label: u128, ids: Vec<ChunkId>)
    ensures
        trait_map(final(m)) == trait_map(old(m)).insert(label, ids@),
{
    m.insert(label, ids);
}

/// `PartialEq` for hash maps: the same keys, with equal children under each.
#[verifier::external_body]
fn same_traits(a: &ImHashMap<u128, Vec<ChunkId>>, b: &ImHashMap<u128, Vec<ChunkId>>) -> (r: bool)
    ensures
        r == (trait_map(a) == trait_map(b)),
{
    a == b
}

/// `Clone` for hash maps: the copy holds the same children under the same keys.
#[verifier::external_body]
fn clone_traits(m: &ImHashMap<u128, Vec<ChunkId>>) -> (r: ImHashMap<u128, Vec<ChunkId>>)
    ensures
        trait_map(&r) == trait_map(m),
{
    m.clone()
}

/// The child ids of one trait that are still to come.
pub struct ChunkIds<'a> {
    ids: Option<&'a Vec<ChunkId>>,
    next: usize,
}

impl<'a> ChunkIds<'a> {
    #[verifier::type_invariant]
    spec fn in_bounds(&self) -> bool {
        self.ids matches Some(ids) ==> self.next <= ids@.len()
    }

    /// The ids that `next` will still hand out, in order.
    pub closed spec fn remaining(&self) -> Seq<ChunkId> {
        match self.ids {
            Some(ids) => ids@.skip(self.next as int),
            None => Seq::empty(),
        }
    }

    /// Hands out the next child id, if one is left.
    pub fn next(&mut self) -> (r: Option<ChunkId>)
        ensures
            match r {
                Some(id) => {
                    &&& old(self).remaining().len() > 0
                    &&& id == old(self).remaining()[0]
                    &&& final(self).remaining() == old(self).remaining().skip(1)
                },
                None => old(self).remaining().len() == 0 && final(self).remaining().len() == 0,
            },
    {
        proof {
            use_type_invariant(&*self);
        }
        match self.ids {
            Some(ids) => {
                if self.next < ids.len() {
                    let id = ids[self.next];
                    self.next += 1;
                    assert(final(self).remaining() =~= old(self).remaining().skip(1));
                    Some(id)
                } else {
                    None
                }
            },
            None => None,
        }
    }
}

impl IndirectChunk {
    /// The children of the node: for each label that has any, their ids in order.
    pub open spec fn children(&self) -> Map<u128, Seq<ChunkId>> {
        trait_map(&self.traits)
    }

    /// The children under one label; none where the node has no such trait.
    pub open spec fn children_under(&self, label: Label) -> Seq<ChunkId> {
        if self.children().contains_key(label.0) {
            self.children()[label.0]
        } else {
            Seq::empty()
        }
    }

    /// The bytes of the payload, if the node has one.
    pub open spec fn payload_bytes(&self) -> Option<Seq<u8>> {
        match self.payload {
            Some(p) => Some(vector_bytes(&*p)),
            None => None,
        }
    }

    /// Two indirect chunks are the same when they agree in def, payload bytes
    /// and children.
    pub open spec fn same_as(&self, other: &Self) -> bool {
        &&& self.def == other.def
        &&& self.payload_bytes() == other.payload_bytes()
        &&& self.children() == other.children()
    }

    /// A node without payload and without children.
    pub fn new(def: Def) -> (r: Self)
        ensures
            r.def == def,
            r.payload is None,
            r.children() == Map::<u128, Seq<ChunkId>>::empty(),
    {
        let r = IndirectChunk { def, payload: None, traits: trait_map_new() };
        assert(r.children() =~= Map::<u128, Seq<ChunkId>>::empty());
        r
    }

    /// Adds a child at the end of the trait with the given label.
    pub fn push_child(&mut self, label: Label, child: ChunkId)
        ensures
            final(self).def == old(self).def,
            final(self).payload == old(self).payload,
            final(self).children() == old(self).children().insert(
                label.0,
                old(self).children_under(label).push(child),
            ),
    {
        let mut ids: Vec<ChunkId> = Vec::new();
        match trait_lookup(&self.traits, label.0) {
            Some(present) => {
                let mut i: usize = 0;
                while i < present.len()
                    invariant
                        i <= present.len(),
                        ids@ == present@.take(i as int),
                    decreases present.len() - i,
                {
                    ids.push(present[i]);
                    assert(present@.take(i + 1) =~= present@.take(i as int).push(present@[i as int]));
                    i += 1;
                }
                assert(present@.take(present@.len() as int) =~= present@);
            },
            None => {},
        }
        ids.push(child);
        trait_map_insert(&mut self.traits, label.0, ids);
    }

    /// A trait without children.
    pub fn empty_trait() -> (r: ChunkIds<'static>)
        ensures
            r.remaining() == Seq::<ChunkId>::empty(),
    {
        ChunkIds { ids: None, next: 0 }
    }

    /// The labels under which the node has children, each once.
    pub fn get_traits(&self) -> (r: Vec<Label>)
        ensures
            r@.no_duplicates(),
            forall|label: Label| self.children().contains_key(label.0) <==> r@.contains(label),
    {
        let r = trait_keys(&self.traits);
        proof {
            assert forall|label: Label| self.children().contains_key(label.0) <==> r@.contains(
                label,
            ) by {
                assert(label == Label(label.0));
            }
        }
        r
    }

    /// The ids of the children under `label`, in order.
    pub fn get_trait(&self, label: Label) -> (r: ChunkIds<'_>)
        ensures
            r.remaining() == self.children_under(label),
    {
        match trait_lookup(&self.traits, label.0) {
            Some(ids) => {
                assert(ids@.skip(0) =~= ids@);
                ChunkIds { ids: Some(ids), next: 0 }
            },
            None => IndirectChunk::empty_trait(),
        }
    }

    pub fn get_def(&self) -> (r: Def)
        ensures
            r == self.def,
    {
        self.def
    }

    pub fn get_payload(&self) -> (r: Option<ImSlice<'_>>)
        ensures
            match self.payload_bytes() {
                Some(bytes) => r matches Some(s) && slice_bytes(&s) == bytes,
                None => r is None,
            },
    {
        match &self.payload {
            Some(p) => Some(focus_of(p)),
            None => None,
        }
    }

    /// The node of this chunk, if `id` is the id it is stored under.
    pub fn get(&self, first_id: NodeId, id: NodeId) -> (r: Option<IndirectNode<'_>>)
        ensures
            r == if first_id == id {
                Some(IndirectNode { node: self, id })
            } else {
                None
            },
    {
        if first_id == id {
            Some(IndirectNode { node: self, id })
        } else {
            None
        }
    }
}

impl Clone for IndirectChunk {
    fn clone(&self) -> (r: Self)
        ensures
            r.same_as(self),
    {
        let payload = match &self.payload {
            Some(p) => Some(Box::new(clone_bytes(p))),
            None => None,
        };
        IndirectChunk { def: self.def, payload, traits: clone_traits(&self.traits) }
    }
}

impl PartialEq for IndirectChunk {
    fn eq(&self, other: &Self) -> (r: bool) {
        let same_payload = match (&self.payload, &other.payload) {
            (Some(a), Some(b)) => same_bytes(a, b),
            (None, None) => true,
            _ => false,
        };
        self.def == other.def && same_payload && same_traits(&self.traits, &other.traits)
    }
}

impl PartialEqSpecImpl for IndirectChunk {
    open spec fn obeys_eq_spec() -> bool {
        true
    }

    open spec fn eq_spec(&self, other: &Self) -> bool {
        self.same_as(other)
    }
}

/// The node of an indirect chunk, together with its id.
pub struct IndirectNode<'a> {
    pub node: &'a IndirectChunk,
    pub id: NodeId,
}

impl<'a> IndirectNode<'a> {
    pub fn clone(&self) -> (r: Self)
        ensures
            r == *self,
    {
        IndirectNode { node: self.node, id: self.id }
    }

    pub fn get_traits(&self) -> (r: Vec<Label>)
        ensures
            r@.no_duplicates(),
            forall|label: Label| self.node.children().contains_key(label.0) <==> r@.contains(label),
    {
        self.node.get_traits()
    }

    pub fn get_trait(&self, label: Label) -> (r: ChunkIds<'a>)
        ensures
            r.remaining() == self.node.children_under(label),
    {
        self.node.get_trait(label)
    }

    pub fn get_def(&self) -> (r: Def)
        ensures
            r == self.node.def,
    {
        self.node.get_def()
    }

    pub fn get_payload(&self) -> (r: Option<ImSlice<'a>>)
        ensures
            match self.node.payload_bytes() {
                Some(bytes) => r matches Some(s) && slice_bytes(&s) == bytes,
                None => r is None,
            },
    {
        self.node.get_payload()
    }
}

impl NodeData for IndirectChunk {
    open spec fn readable(&self) -> bool {
        true
    }

    open spec fn def_of(&self) -> Def {
        self.def
    }

    open spec fn payload_of(&self) -> Option<Seq<u8>> {
        self.payload_bytes()
    }

    fn get_def(&self) -> (r: Def) {
        self.def
    }

    fn get_payload(&self) -> (r: Option<ImSlice<'_>>) {
        match &self.payload {
            Some(p) => Some(focus_of(p)),
            None => None,
        }
    }
}

impl<'a> NodeData for IndirectNode<'a> {
    open spec fn readable(&self) -> bool {
        true
    }

    open spec fn def_of(&self) -> Def {
        self.node.def
    }

    open spec fn payload_of(&self) -> Option<Seq<u8>> {
        self.node.payload_bytes()
    }

    fn get_def(&self) -> (r: Def) {
        self.node.def
    }

    fn get_payload(&self) -> (r: Option<ImSlice<'_>>) {
        match &self.node.payload {
            Some(p) => Some(focus_of(p)),
            None => None,
        }
    }
}

impl<'a> HasId for IndirectNode<'a> {
    open spec fn has_id(&self) -> bool {
        true
    }

    open spec fn id(&self) -> NodeId {
        self.id
    }

    fn get_id(&self) -> (r: NodeId) {
        self.id
    }
}

} // verus!
