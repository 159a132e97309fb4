//! A cursor that shows the forest as one tree: it follows the children of a
//! node in place where they lie in the same chunk, and through the forest
//! where they are edges to other chunks.

use vstd::prelude::*;
use crate::enum_chunk::{Child, ChildModel, Chunk, Expander, Node, NodeModel, TraitView};
use crate::forest::{chunks_valid, no_overlap, Forest};
use crate::indirect_nav::{
    belongs, child_ok, expand_all, expansion, is_child_of, lemma_children_ok,
    lemma_expand_all_contains, lemma_expansion_belongs, parent_of,
};
use crate::node_id::{HasId, NodeId};
use crate::parents::single_parent;
use crate::tree::{Def, Label, NodeData, ParentInfo};
use crate::util::{slice_bytes, ImSlice};

verus! {

/// What a cursor needs of the place its nodes live in: how to turn a child
/// into the nodes it stands for, and how to find the parent of a node.
pub trait Resolver<'a>: Copy {
    /// The chunks that the resolver looks things up in.
    spec fn chunks(&self) -> Map<u128, Chunk>;

    /// The nodes that a child stands for.
    fn expand(&self, chunk: Child<'a>) -> (r: Expander<'a>)
        requires
            chunks_valid(self.chunks()),
            chunk.wf(),
            chunk matches Child::Indirect(id) ==> self.chunks().contains_key(id.key()),
        ensures
            r.wf(),
            r.remaining() == expansion(self.chunks(), chunk@),
    ;

    /// The parent of a node, with the label under which the node hangs.
    fn get_parent(&self, node: &Node<'a>) -> (r: Option<ParentInfo<Node<'a>>>)
        requires
            chunks_valid(self.chunks()),
            no_overlap(self.chunks()),
            single_parent(self.chunks()),
            node.wf(),
            belongs(self.chunks(), node@),
        ensures
            match parent_of(self.chunks(), node@) {
                Some((parent_id, label)) => r matches Some(p) && p.node@.id() == parent_id
                    && p.label == label,
                None => r is None,
            },
            r matches Some(p) ==> {
                &&& p.node.wf()
                &&& belongs(self.chunks(), p.node@)
                &&& p.node@.has_label(p.label)
                &&& is_child_of(self.chunks(), p.node@, p.label, node@)
            },
    ;
}

impl<'a> Resolver<'a> for &'a Forest {
    open spec fn chunks(&self) -> Map<u128, Chunk> {
        (**self)@
    }

    fn expand(&self, chunk: Child<'a>) -> (r: Expander<'a>) {
        Forest::expand(*self, chunk)
    }

    fn get_parent(&self, node: &Node<'a>) -> (r: Option<ParentInfo<Node<'a>>>) {
        Forest::get_parent(*self, node)
    }
}

/// A node together with the forest it lives in.
pub struct Nav<'a> {
    resolver: &'a Forest,
    view: Node<'a>,
}

/// The children of one trait that are still to come, as cursors.
pub struct TraitNav<'a> {
    resolver: &'a Forest,
    /// The children not looked at yet.
    view: TraitView<'a>,
    /// What is left of the nodes that the last child stands for.
    pending: Option<Expander<'a>>,
}

impl<'a> View for Nav<'a> {
    type V = NodeModel;

    closed spec fn view(&self) -> NodeModel {
        self.view@
    }
}

impl<'a> Nav<'a> {
    /// The chunks of the forest that the cursor moves in.
    pub closed spec fn chunks(&self) -> Map<u128, Chunk> {
        self.resolver@
    }

    /// The forest is well formed and the node is one of its nodes.
    pub closed spec fn wf(&self) -> bool {
        &&& self.resolver.wf()
        &&& self.view.wf()
        &&& belongs(self.resolver@, self.view@)
    }

    pub fn new(resolver: &'a Forest, view: Node<'a>) -> (r: Self)
        ensures
            r@ == view@,
            r.chunks() == resolver@,
            r.wf() == (resolver.wf() && view.wf() && belongs(resolver@, view@)),
    {
        Nav { resolver, view }
    }

    pub fn clone(&self) -> (r: Self)
        ensures
            r@ == self@,
            r.chunks() == self.chunks(),
            r.wf() == self.wf(),
    {
        Nav { resolver: self.resolver, view: self.view.clone() }
    }

    /// The cursor on the parent, with the label under which the node hangs,
    /// in a forest in which no chunk id has two parents. There is a parent
    /// exactly when `parent_of` names one. The parent has a trait with that
    /// label, and the node is among the nodes that `get_trait` hands out for
    /// it.
    pub fn parent(&self) -> (r: Option<ParentInfo<Nav<'a>>>)
        requires
            self.wf(),
            single_parent(self.chunks()),
        ensures
            match parent_of(self.chunks(), self@) {
                Some((parent_id, label)) => r matches Some(p) && p.node@.id() == parent_id
                    && p.label == label,
                None => r is None,
            },
            r matches Some(p) ==> {
                &&& p.node.wf()
                &&& p.node.chunks() == self.chunks()
                &&& p.node@.has_label(p.label)
                &&& is_child_of(self.chunks(), p.node@, p.label, self@)
                &&& expand_all(self.chunks(), p.node@.children(p.label)).contains(self@)
            },
    {
        match self.resolver.get_parent(&self.view) {
            Some(p) => {
                proof {
                    let children = p.node@.children(p.label);
                    let i = choose|i: int|
                        0 <= i < children.len() && (#[trigger] expansion(
                            self.resolver@,
                            children[i],
                        )).contains(self.view@);
                    lemma_expand_all_contains(self.resolver@, children, i, self.view@);
                }
                Some(ParentInfo { node: Nav::new(self.resolver, p.node), label: p.label })
            },
            None => None,
        }
    }

    pub fn get_def(&self) -> (r: Def)
        ensures
            r == self@.def(),
    {
        self.view.get_def()
    }

    pub fn get_payload(&self) -> (r: Option<ImSlice<'a>>)
        requires
            self.wf(),
        ensures
            match self@.payload() {
                Some(bytes) => r matches Some(s) && slice_bytes(&s) == bytes,
                None => r is None,
            },
    {
        self.view.get_payload()
    }

    /// The labels of the node's traits, each once.
    pub fn get_traits(&self) -> (r: Vec<Label>)
        requires
            self.wf(),
        ensures
            r@.no_duplicates(),
            forall|label: Label| self@.has_label(label) <==> r@.contains(label),
    {
        self.view.get_traits()
    }

    /// Whether every edge under `label` leads to a chunk of the forest.
    pub open spec fn edges_resolve(&self, label: Label) -> bool {
        forall|i: int|
            0 <= i < self@.children(label).len() ==> (#[trigger] self@.children(label)[i]
                matches ChildModel::Edge(id) ==> self.chunks().contains_key(id.key()))
    }

    /// The children under `label`, as cursors: for each child in order, the
    /// nodes it stands for.
    pub fn get_trait(&self, label: Label) -> (r: TraitNav<'a>)
        requires
            self.wf(),
            self.edges_resolve(label),
        ensures
            r.wf(),
            r.chunks() == self.chunks(),
            r.remaining() == expand_all(self.chunks(), self@.children(label)),
    {
        let view = self.view.get_trait(label);
        proof {
            assert forall|i: int| 0 <= i < view.remaining().len() implies child_ok(
                self.resolver@,
                #[trigger] view.remaining()[i],
            ) by {
                if view.remaining()[i] is Inline {
                    lemma_children_ok(self.resolver@, self.view@, label, i);
                }
            }
            assert(Seq::<NodeModel>::empty() + expand_all(self.resolver@, view.remaining())
                =~= expand_all(self.resolver@, view.remaining()));
        }
        TraitNav { view, resolver: self.resolver, pending: None }
    }
}

impl<'a> NodeData for Nav<'a> {
    open spec fn readable(&self) -> bool {
        self.wf()
    }

    open spec fn def_of(&self) -> Def {
        self@.def()
    }

    open spec fn payload_of(&self) -> Option<Seq<u8>> {
        self@.payload()
    }

    fn get_def(&self) -> (r: Def) {
        Nav::get_def(self)
    }

    fn get_payload(&self) -> (r: Option<ImSlice<'_>>) {
        match Nav::get_payload(self) {
            Some(s) => Some(s),
            None => None,
        }
    }
}

impl<'a> HasId for Nav<'a> {
    closed spec fn has_id(&self) -> bool {
        self.view.wf()
    }

    closed spec fn id(&self) -> NodeId {
        self.view@.id()
    }

    fn get_id(&self) -> (r: NodeId) {
        self.view.get_id()
    }
}

impl<'a> Nav<'a> {
    /// The id of a cursor is the id of its node, and a well formed cursor
    /// has one.
    pub proof fn lemma_id(&self)
        ensures
            self.id() == self@.id(),
            self.wf() ==> self.has_id(),
    {
    }

    /// A well formed cursor stands on a node of a well formed forest.
    pub proof fn lemma_wf(&self)
        requires
            self.wf(),
        ensures
            chunks_valid(self.chunks()),
            no_overlap(self.chunks()),
            belongs(self.chunks(), self@),
    {
    }
}

impl<'a> TraitNav<'a> {
    /// The chunks of the forest that the cursors move in.
    pub closed spec fn chunks(&self) -> Map<u128, Chunk> {
        self.resolver@
    }

    /// The nodes still to come from the child that was looked at last.
    pub closed spec fn pending_nodes(&self) -> Seq<NodeModel> {
        match self.pending {
            Some(e) => e.remaining(),
            None => Seq::empty(),
        }
    }

    /// The nodes that `next` will still hand out, in order: what is pending,
    /// then the nodes that the remaining children stand for.
    pub closed spec fn remaining(&self) -> Seq<NodeModel> {
        self.pending_nodes() + expand_all(self.resolver@, self.view.remaining())
    }

    /// The forest is well formed, every child still to come can be followed,
    /// and every pending node is a node of the forest.
    pub closed spec fn wf(&self) -> bool {
        &&& self.resolver.wf()
        &&& self.view.wf()
        &&& (self.pending matches Some(e) ==> e.wf())
        &&& forall|i: int|
            0 <= i < self.view.remaining().len() ==> child_ok(
                self.resolver@,
                #[trigger] self.view.remaining()[i],
            )
        &&& forall|i: int|
            0 <= i < self.pending_nodes().len() ==> belongs(
                self.resolver@,
                #[trigger] self.pending_nodes()[i],
            )
    }

    /// Hands out the cursor on the next node: the next pending node if there
    /// is one, else the first node that the next child stands for.
    pub fn next(&mut self) -> (r: Option<Nav<'a>>)
        requires
            old(self).wf(),
        ensures
            final(self).wf(),
            final(self).chunks() == old(self).chunks(),
            match r {
                Some(nav) => {
                    &&& old(self).remaining().len() > 0
                    &&& nav@ == old(self).remaining()[0]
                    &&& nav.wf()
                    &&& nav.chunks() == old(self).chunks()
                    &&& final(self).remaining() == old(self).remaining().skip(1)
                },
                None => old(self).remaining().len() == 0 && final(self).remaining().len() == 0,
            },
    {
        let ghost chunks = self.resolver@;
        let ghost start = self.remaining();
        let ghost later = expand_all(chunks, self.view.remaining());
        match &mut self.pending {
            Some(nodes) => {
                let ghost before = nodes.remaining();
                match nodes.next() {
                    Some(node) => {
                        proof {
                            assert(belongs(chunks, before[0]));
                            assert(before.skip(1) + later =~= (before + later).skip(1));
                            assert forall|i: int| 0 <= i < before.skip(1).len() implies belongs(
                                chunks,
                                #[trigger] before.skip(1)[i],
                            ) by {
                                assert(before.skip(1)[i] == before[i + 1]);
                            }
                        }
                        return Some(Nav::new(self.resolver, node));
                    },
                    None => {},
                }
            },
            None => {},
        }
        self.pending = None;
        assert(start =~= later);
        let ghost children = self.view.remaining();
        match self.view.next() {
            Some(id) => {
                let mut iter = self.resolver.expand(id);
                let ghost nodes = iter.remaining();
                proof {
                    assert(child_ok(chunks, children[0]));
                    assert(nodes.len() > 0) by {
                        match children[0] {
                            ChildModel::Edge(c) => {
                                assert(chunks[c.key()].valid_at(NodeId(c.key())));
                            },
                            ChildModel::Inline(_) => {},
                        }
                    }
                    assert forall|i: int| 0 <= i < nodes.len() implies belongs(
                        chunks,
                        #[trigger] nodes[i],
                    ) by {
                        lemma_expansion_belongs(chunks, children[0], i);
                    }
                    assert forall|i: int| 0 <= i < children.skip(1).len() implies child_ok(
                        chunks,
                        #[trigger] children.skip(1)[i],
                    ) by {
                        assert(children.skip(1)[i] == children[i + 1]);
                    }
                }
                match iter.next() {
                    Some(result) => {
                        proof {
                            let rest = expand_all(chunks, children.skip(1));
                            assert(nodes.skip(1) + rest =~= (nodes + rest).skip(1));
                            assert forall|i: int| 0 <= i < nodes.skip(1).len() implies belongs(
                                chunks,
                                #[trigger] nodes.skip(1)[i],
                            ) by {
                                assert(nodes.skip(1)[i] == nodes[i + 1]);
                            }
                        }
                        self.pending = Some(iter);
                        Some(Nav::new(self.resolver, result))
                    },
                    None => None,
                }
            },
            None => None,
        }
    }
}

} // verus!
