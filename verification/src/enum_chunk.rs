//! The two kinds of chunk behind one interface, and the views of their nodes.
//!
//! A node of an indirect chunk has chunk ids for children, which have to be
//! looked up in a forest. A node of a uniform chunk has its children in the
//! same chunk, where no lookup is involved.

use vstd::prelude::*;
use vstd::std_specs::cmp::PartialEqSpecImpl;
use vstd::std_specs::convert::FromSpecImpl;
use crate::chunk::ChunkId;
use crate::indirect_node::{ChunkIds, IndirectChunk, IndirectNode};
use crate::node_id::{HasId, NodeId};
use crate::tree::{Def, Label, NodeData};
use crate::uniform_chunk::{ChunkIterator, UniformChunk, UniformChunkNode, UniformNodeModel};
use crate::util::{slice_bytes, ImSlice};

verus! {

/// Tree data, stored in the forest, keyed by the first id in the chunk.
pub enum Chunk {
    Indirect(IndirectChunk),
    Uniform(UniformChunk),
}

/// A child of a node.
pub enum Child<'a> {
    /// An edge to another chunk, which may be of either kind.
    Indirect(ChunkId),
    /// A node within the same uniform chunk as its parent.
    Uniform(UniformChunkNode<'a>),
}

/// The children of one trait of a node that are still to come.
pub enum TraitView<'a> {
    Indirect(ChunkIds<'a>),
    Uniform(ChunkIterator<'a>),
}

/// A node of either kind of chunk.
pub enum Node<'a> {
    Indirect(IndirectNode<'a>),
    Uniform(UniformChunkNode<'a>),
}

/// The nodes that a child stands for and that are still to come.
pub enum Expander<'a> {
    /// The rest of the top level nodes of a uniform chunk.
    Chunk(ChunkIterator<'a>),
    /// A single node, not handed out yet.
    Single(Node<'a>),
    Empty,
}

/// Mathematical value of a node.
pub enum NodeModel {
    /// The node of the indirect chunk `chunk`, stored under `id`.
    Indirect { id: NodeId, chunk: IndirectChunk },
    Uniform(UniformNodeModel),
}

/// Mathematical value of a child.
pub enum ChildModel {
    Edge(ChunkId),
    Inline(UniformNodeModel),
}

impl NodeModel {
    pub open spec fn id(self) -> NodeId {
        match self {
            NodeModel::Indirect { id, chunk } => id,
            NodeModel::Uniform(n) => n.id,
        }
    }

    pub open spec fn def(self) -> Def {
        match self {
            NodeModel::Indirect { id, chunk } => chunk.def,
            NodeModel::Uniform(n) => n.schema.def,
        }
    }

    pub open spec fn payload(self) -> Option<Seq<u8>> {
        match self {
            NodeModel::Indirect { id, chunk } => chunk.payload_bytes(),
            NodeModel::Uniform(n) => n.payload(),
        }
    }

    /// Whether the node has a trait with this label.
    pub open spec fn has_label(self, label: Label) -> bool {
        match self {
            NodeModel::Indirect { id, chunk } => chunk.children().contains_key(label.0),
            NodeModel::Uniform(n) => n.schema.trait_index(label) is Some,
        }
    }

    /// The children under `label`, in order.
    pub open spec fn children(self, label: Label) -> Seq<ChildModel> {
        match self {
            NodeModel::Indirect { id, chunk } => chunk.children_under(label).map_values(
                |c: ChunkId| ChildModel::Edge(c),
            ),
            NodeModel::Uniform(n) => n.children(label).map_values(
                |c: UniformNodeModel| ChildModel::Inline(c),
            ),
        }
    }
}

impl Chunk {
    /// Number of ids the chunk owns, gaps included: one for an indirect chunk,
    /// `id_stride * node_count` for a uniform chunk.
    pub open spec fn id_span(&self) -> int {
        match self {
            Chunk::Indirect(_) => 1,
            Chunk::Uniform(c) => c.schema@.id_span(),
        }
    }

    /// Whether the chunk can be stored under `first_id`: a uniform chunk has
    /// to be well formed and to stay inside the id space.
    pub open spec fn valid_at(&self, first_id: NodeId) -> bool {
        match self {
            Chunk::Indirect(_) => true,
            Chunk::Uniform(c) => c.wf() && c.fits_at(first_id),
        }
    }

    /// The node with id `id` of this chunk when it is stored under `first_id`.
    pub open spec fn node_at(&self, first_id: NodeId, id: NodeId) -> Option<NodeModel> {
        match self {
            Chunk::Indirect(c) => if first_id == id {
                Some(NodeModel::Indirect { id, chunk: *c })
            } else {
                None
            },
            Chunk::Uniform(c) => match c.node_at(first_id, id) {
                Some(n) => Some(NodeModel::Uniform(n)),
                None => None,
            },
        }
    }

    /// The top level nodes of this chunk when it is stored under `first_id`:
    /// one for an indirect chunk, `node_count` for a uniform chunk.
    pub open spec fn top_level(&self, first_id: NodeId) -> Seq<NodeModel> {
        match self {
            Chunk::Indirect(c) => seq![NodeModel::Indirect { id: first_id, chunk: *c }],
            Chunk::Uniform(c) => c.top_level(first_id).map_values(
                |n: UniformNodeModel| NodeModel::Uniform(n),
            ),
        }
    }

    /// The chunks that this chunk refers to: the children of an indirect
    /// chunk; none for a uniform chunk, which is a leaf among chunks.
    pub open spec fn children(&self) -> Map<u128, Seq<ChunkId>> {
        match self {
            Chunk::Indirect(c) => c.children(),
            Chunk::Uniform(_) => Map::empty(),
        }
    }

    /// The chunks referred to under one label.
    pub open spec fn children_under(&self, label: Label) -> Seq<ChunkId> {
        if self.children().contains_key(label.0) {
            self.children()[label.0]
        } else {
            Seq::empty()
        }
    }

    /// Chunks are the same when they are of one kind and the same as such.
    pub open spec fn same_as(&self, other: &Self) -> bool {
        match (self, other) {
            (Chunk::Indirect(a), Chunk::Indirect(b)) => a.same_as(b),
            (Chunk::Uniform(a), Chunk::Uniform(b)) => a.same_as(b),
            _ => false,
        }
    }

    /// Whether the chunk can be stored under `first_id`.
    pub fn can_be_at(&self, first_id: NodeId) -> (r: bool)
        ensures
            r == self.valid_at(first_id),
    {
        match self {
            Chunk::Indirect(_) => true,
            Chunk::Uniform(c) => c.is_well_formed() && c.can_start_at(first_id),
        }
    }

    /// Number of ids that the chunk owns, gaps included.
    pub fn span(&self) -> (r: u128)
        ensures
            r == self.id_span(),
    {
        match self {
            Chunk::Indirect(_) => 1,
            Chunk::Uniform(c) => c.span(),
        }
    }

    /// The node with id `id`, if this chunk, stored under `first_id`, has one.
    pub fn get(&self, first_id: NodeId, id: NodeId) -> (r: Option<Node<'_>>)
        requires
            self.valid_at(first_id),
        ensures
            match self.node_at(first_id, id) {
                Some(m) => r matches Some(n) && n@ == m && n.wf(),
                None => r is None,
            },
    {
        match self {
            Chunk::Indirect(node) => match node.get(first_id, id) {
                Some(n) => Some(Node::Indirect(n)),
                None => None,
            },
            Chunk::Uniform(node) => match node.get(first_id, id) {
                Some(n) => Some(Node::Uniform(n)),
                None => None,
            },
        }
    }

    /// The nodes at the top level of this chunk, in id order.
    pub fn top_level_nodes(&self, id: NodeId) -> (r: Expander<'_>)
        requires
            self.valid_at(id),
        ensures
            r.wf(),
            r.remaining() == self.top_level(id),
    {
        match self {
            Chunk::Indirect(c) => {
                let r = Expander::Single(Node::Indirect(IndirectNode { node: c, id }));
                assert(r.remaining() =~= self.top_level(id));
                r
            },
            Chunk::Uniform(c) => Expander::Chunk(c.top_level_nodes(id)),
        }
    }

    /// The labels under which this chunk refers to other chunks, each once.
    pub fn get_traits(&self) -> (r: Vec<Label>)
        ensures
            r@.no_duplicates(),
            forall|label: Label| self.children().contains_key(label.0) <==> r@.contains(label),
    {
        match self {
            Chunk::Indirect(s) => s.get_traits(),
            Chunk::Uniform(_) => Vec::new(),
        }
    }

    /// The chunks referred to under `label`, in order.
    pub fn get_trait(&self, label: Label) -> (r: ChunkIds<'_>)
        ensures
            r.remaining() == self.children_under(label),
    {
        match self {
            Chunk::Indirect(s) => s.get_trait(label),
            Chunk::Uniform(_) => IndirectChunk::empty_trait(),
        }
    }
}

impl Clone for Chunk {
    fn clone(&self) -> (r: Self)
        ensures
            r.same_as(self),
    {
        match self {
            Chunk::Indirect(c) => Chunk::Indirect(c.clone()),
            Chunk::Uniform(c) => Chunk::Uniform(c.clone()),
        }
    }
}

impl PartialEq for Chunk {
    fn eq(&self, other: &Self) -> (r: bool) {
        match (self, other) {
            (Chunk::Indirect(a), Chunk::Indirect(b)) => a == b,
            (Chunk::Uniform(a), Chunk::Uniform(b)) => a == b,
            _ => false,
        }
    }
}

impl PartialEqSpecImpl for Chunk {
    open spec fn obeys_eq_spec() -> bool {
        true
    }

    open spec fn eq_spec(&self, other: &Self) -> bool {
        self.same_as(other)
    }
}

impl From<IndirectChunk> for Chunk {
    fn from(chunk: IndirectChunk) -> (r: Chunk) {
        Chunk::Indirect(chunk)
    }
}

impl FromSpecImpl<IndirectChunk> for Chunk {
    open spec fn obeys_from_spec() -> bool {
        true
    }

    open spec fn from_spec(chunk: IndirectChunk) -> Chunk {
        Chunk::Indirect(chunk)
    }
}

impl From<UniformChunk> for Chunk {
    fn from(chunk: UniformChunk) -> (r: Chunk) {
        Chunk::Uniform(chunk)
    }
}

impl FromSpecImpl<UniformChunk> for Chunk {
    open spec fn obeys_from_spec() -> bool {
        true
    }

    open spec fn from_spec(chunk: UniformChunk) -> Chunk {
        Chunk::Uniform(chunk)
    }
}

impl<'a> View for Node<'a> {
    type V = NodeModel;

    open spec fn view(&self) -> NodeModel {
        match self {
            Node::Indirect(n) => NodeModel::Indirect { id: n.id, chunk: *n.node },
            Node::Uniform(n) => NodeModel::Uniform(n@),
        }
    }
}

impl<'a> Node<'a> {
    /// A node of a uniform chunk has to lie inside the bytes and ids of its run.
    pub open spec fn wf(&self) -> bool {
        match self {
            Node::Indirect(_) => true,
            Node::Uniform(n) => n.wf(),
        }
    }

    pub fn clone(&self) -> (r: Self)
        ensures
            r@ == self@,
            r.wf() == self.wf(),
    {
        match self {
            Node::Indirect(n) => Node::Indirect(n.clone()),
            Node::Uniform(n) => Node::Uniform(n.clone()),
        }
    }

    pub fn get_def(&self) -> (r: Def)
        ensures
            r == self@.def(),
    {
        match self {
            Node::Indirect(n) => n.get_def(),
            Node::Uniform(n) => n.get_def(),
        }
    }

    pub fn get_payload(&self) -> (r: Option<ImSlice<'a>>)
        requires
            self.wf(),
        ensures
            match self@.payload() {
                Some(bytes) => r matches Some(s) && slice_bytes(&s) == bytes,
                None => r is None,
            },
    {
        match self {
            Node::Indirect(n) => n.get_payload(),
            Node::Uniform(n) => n.get_payload(),
        }
    }

    /// The labels of the node's traits, each once.
    pub fn get_traits(&self) -> (r: Vec<Label>)
        requires
            self.wf(),
        ensures
            r@.no_duplicates(),
            forall|label: Label| self@.has_label(label) <==> r@.contains(label),
    {
        match self {
            Node::Indirect(n) => n.get_traits(),
            Node::Uniform(n) => {
                let r = n.get_traits();
                proof {
                    let s = n@.schema;
                    assert forall|i: int, j: int|
                        0 <= i < r@.len() && 0 <= j < r@.len() && i != j implies r@[i] != r@[j] by {
                        if i < j {
                            assert(s.traits[i].label != s.traits[j].label);
                        } else {
                            assert(s.traits[j].label != s.traits[i].label);
                        }
                    }
                    assert forall|label: Label| self@.has_label(label) <==> r@.contains(label) by {
                        if r@.contains(label) {
                            let i = choose|i: int| 0 <= i < r@.len() && r@[i] == label;
                            assert(s.traits[i].label == label);
                        }
                        if s.trait_index(label) is Some {
                            let i = s.trait_index(label)->0;
                            assert(r@[i] == label);
                        }
                    }
                }
                r
            },
        }
    }

    /// The children under `label`, in order.
    pub fn get_trait(&self, label: Label) -> (r: TraitView<'a>)
        requires
            self.wf(),
        ensures
            r.wf(),
            r.remaining() == self@.children(label),
    {
        match self {
            Node::Indirect(n) => TraitView::Indirect(n.get_trait(label)),
            Node::Uniform(n) => TraitView::Uniform(n.get_trait(label)),
        }
    }
}

impl<'a> NodeData for Node<'a> {
    open spec fn readable(&self) -> bool {
        self.wf()
    }

    open spec fn def_of(&self) -> Def {
        self@.def()
    }

    open spec fn payload_of(&self) -> Option<Seq<u8>> {
        self@.payload()
    }

    fn get_def(&self) -> (r: Def) {
        Node::get_def(self)
    }

    fn get_payload(&self) -> (r: Option<ImSlice<'_>>) {
        match Node::get_payload(self) {
            Some(s) => Some(s),
            None => None,
        }
    }
}

impl<'a> HasId for Node<'a> {
    open spec fn has_id(&self) -> bool {
        self.wf()
    }

    open spec fn id(&self) -> NodeId {
        self@.id()
    }

    fn get_id(&self) -> (r: NodeId) {
        match self {
            Node::Indirect(n) => n.get_id(),
            Node::Uniform(n) => n.get_id(),
        }
    }
}

impl<'a> TraitView<'a> {
    pub open spec fn wf(&self) -> bool {
        match self {
            TraitView::Indirect(_) => true,
            TraitView::Uniform(it) => it.wf(),
        }
    }

    /// The children that `next` will still hand out, in order.
    pub open spec fn remaining(&self) -> Seq<ChildModel> {
        match self {
            TraitView::Indirect(ids) => ids.remaining().map_values(|c: ChunkId| ChildModel::Edge(c)),
            TraitView::Uniform(it) => it.remaining().map_values(
                |c: UniformNodeModel| ChildModel::Inline(c),
            ),
        }
    }

    /// Hands out the next child, if one is left.
    pub fn next(&mut self) -> (r: Option<Child<'a>>)
        requires
            old(self).wf(),
        ensures
            final(self).wf(),
            match r {
                Some(c) => {
                    &&& old(self).remaining().len() > 0
                    &&& c@ == old(self).remaining()[0]
                    &&& c.wf()
                    &&& final(self).remaining() == old(self).remaining().skip(1)
                },
                None => old(self).remaining().len() == 0 && final(self).remaining().len() == 0,
            },
    {
        match self {
            TraitView::Indirect(ids) => {
                let ghost before = ids.remaining();
                let r = ids.next();
                proof {
                    if r is Some {
                        assert(ids.remaining().map_values(|c: ChunkId| ChildModel::Edge(c))
                            =~= before.map_values(|c: ChunkId| ChildModel::Edge(c)).skip(1));
                    }
                }
                match r {
                    Some(id) => Some(Child::Indirect(id)),
                    None => None,
                }
            },
            TraitView::Uniform(it) => {
                let ghost before = it.remaining();
                let r = it.next();
                proof {
                    if r is Some {
                        assert(it.remaining().map_values(
                            |c: UniformNodeModel| ChildModel::Inline(c),
                        ) =~= before.map_values(|c: UniformNodeModel| ChildModel::Inline(c)).skip(
                            1,
                        ));
                    }
                }
                match r {
                    Some(n) => Some(Child::Uniform(n)),
                    None => None,
                }
            },
        }
    }
}

impl<'a> View for Child<'a> {
    type V = ChildModel;

    open spec fn view(&self) -> ChildModel {
        match self {
            Child::Indirect(id) => ChildModel::Edge(*id),
            Child::Uniform(n) => ChildModel::Inline(n@),
        }
    }
}

impl<'a> Child<'a> {
    pub open spec fn wf(&self) -> bool {
        match self {
            Child::Indirect(_) => true,
            Child::Uniform(n) => n.wf(),
        }
    }
}

impl<'a> Expander<'a> {
    pub open spec fn wf(&self) -> bool {
        match self {
            Expander::Chunk(it) => it.wf(),
            Expander::Single(n) => n.wf(),
            Expander::Empty => true,
        }
    }

    /// The nodes that `next` will still hand out, in order.
    pub open spec fn remaining(&self) -> Seq<NodeModel> {
        match self {
            Expander::Chunk(it) => it.remaining().map_values(
                |n: UniformNodeModel| NodeModel::Uniform(n),
            ),
            Expander::Single(n) => seq![n@],
            Expander::Empty => Seq::empty(),
        }
    }

    /// Hands out the next node, if one is left.
    pub fn next(&mut self) -> (r: Option<Node<'a>>)
        requires
            old(self).wf(),
        ensures
            final(self).wf(),
            match r {
                Some(n) => {
                    &&& old(self).remaining().len() > 0
                    &&& n@ == old(self).remaining()[0]
                    &&& n.wf()
                    &&& final(self).remaining() == old(self).remaining().skip(1)
                },
                None => old(self).remaining().len() == 0 && final(self).remaining().len() == 0,
            },
    {
        match self {
            Expander::Chunk(it) => {
                let ghost before = it.remaining();
                let r = it.next();
                proof {
                    if r is Some {
                        assert(it.remaining().map_values(
                            |n: UniformNodeModel| NodeModel::Uniform(n),
                        ) =~= before.map_values(|n: UniformNodeModel| NodeModel::Uniform(n)).skip(
                            1,
                        ));
                    }
                }
                match r {
                    Some(n) => Some(Node::Uniform(n)),
                    None => None,
                }
            },
            Expander::Single(c) => {
                let result = c.clone();
                *self = Expander::Empty;
                proof {
                    assert(final(self).remaining() =~= old(self).remaining().skip(1));
                }
                Some(result)
            },
            Expander::Empty => None,
        }
    }
}


impl Chunk {
    /// Asking a chunk for the node with an id gives a node with that id.
    pub proof fn lemma_round_trip(&self, first_id: NodeId, id: NodeId)
        requires
            self.node_at(first_id, id) is Some,
        ensures
            self.node_at(first_id, id)->0.id() == id,
    {
    }

    /// The top level nodes are the roots of the chunk and nothing else: one
    /// node for an indirect chunk and `node_count` nodes for a uniform chunk,
    /// a stride apart from the first id on, each the node that the chunk has
    /// at its id.
    pub proof fn lemma_top_level(&self, first_id: NodeId, i: int)
        requires
            self.valid_at(first_id),
            0 <= i < self.top_level(first_id).len(),
        ensures
            self.top_level(first_id).len() == match self {
                Chunk::Indirect(_) => 1int,
                Chunk::Uniform(c) => c.schema@.node_count as int,
            },
            self.top_level(first_id)[i].id().0 == match self {
                Chunk::Indirect(_) => first_id.0 as int,
                Chunk::Uniform(c) => first_id.0 + i * c.schema@.id_stride,
            },
            self.node_at(first_id, self.top_level(first_id)[i].id()) == Some(
                self.top_level(first_id)[i],
            ),
    {
        match self {
            Chunk::Indirect(_) => {},
            Chunk::Uniform(c) => {
                c.lemma_top_level_is_node(first_id, i);
                let s = c.schema@;
                assert(0 <= i * s.id_stride && (i + 1) * s.id_stride <= s.id_stride * s.node_count
                    && (i + 1) * s.id_stride == i * s.id_stride + s.id_stride) by (nonlinear_arith)
                    requires
                        0 <= i < s.node_count,
                        s.id_stride > 0,
                ;
            },
        }
    }
}

} // verus!
