//! Connects the nodes of both kinds of chunk to a forest: how a child is
//! turned into the nodes it stands for, and how the parent of a node is found.

use std::collections::HashMap;
use vstd::prelude::*;
use crate::chunk::ChunkId;
use crate::enum_chunk::{Child, ChildModel, Chunk, Expander, Node, NodeModel};
use crate::forest::{chunks_valid, is_candidate, lemma_candidate_unique, no_overlap, node_of, Forest};
use crate::nav::Nav;
use crate::node_id::{HasId, NodeId};
use crate::parents::{chunk_parent, lemma_chunk_parent, single_parent};
use crate::tree::{Label, ParentInfo};

verus! {

broadcast use vstd::std_specs::hash::group_hash_axioms;

/// The nodes that a child stands for: the top level nodes of the chunk that
/// an edge leads to, or the node itself where the child is in the same chunk
/// as its parent.
pub open spec fn expansion(chunks: Map<u128, Chunk>, child: ChildModel) -> Seq<NodeModel> {
    match child {
        ChildModel::Edge(id) => if chunks.contains_key(id.key()) {
            chunks[id.key()].top_level(id.0)
        } else {
            Seq::empty()
        },
        ChildModel::Inline(n) => seq![NodeModel::Uniform(n)],
    }
}

/// The nodes that a sequence of children stands for, in order.
pub open spec fn expand_all(chunks: Map<u128, Chunk>, children: Seq<ChildModel>) -> Seq<NodeModel>
    decreases children.len(),
{
    if children.len() == 0 {
        Seq::empty()
    } else {
        expansion(chunks, children[0]) + expand_all(chunks, children.skip(1))
    }
}

/// Whether the node is the node that the forest has at the node's id.
pub open spec fn belongs(chunks: Map<u128, Chunk>, node: NodeModel) -> bool {
    node_of(chunks, node.id()) == Some(node)
}

/// Whether a child can be followed: an edge has to lead to a chunk of the
/// forest, and a node in the same chunk has to be a node of the forest.
pub open spec fn child_ok(chunks: Map<u128, Chunk>, child: ChildModel) -> bool {
    match child {
        ChildModel::Edge(id) => chunks.contains_key(id.key()),
        ChildModel::Inline(n) => belongs(chunks, NodeModel::Uniform(n)),
    }
}

/// Whether every edge of every chunk leads to a chunk of the forest.
pub open spec fn closed(chunks: Map<u128, Chunk>) -> bool {
    forall|k: u128, label: Label, i: int|
        chunks.contains_key(k) && 0 <= i < chunks[k].children_under(label).len()
            ==> chunks.contains_key((#[trigger] chunks[k].children_under(label)[i]).key())
}

/// A forest is closed when each of its chunks is.
pub proof fn lemma_closed_by_chunk(chunks: Map<u128, Chunk>)
    ensures
        closed(chunks) <==> forall|k: u128|
            chunks.contains_key(k) ==> chunk_closed(chunks, #[trigger] chunks[k]),
{
    if closed(chunks) {
        assert forall|k: u128| chunks.contains_key(k) implies chunk_closed(
            chunks,
            #[trigger] chunks[k],
        ) by {
            assert forall|label: Label, i: int|
                0 <= i < chunks[k].children_under(label).len() implies chunks.contains_key(
                (#[trigger] chunks[k].children_under(label)[i]).key(),
            ) by {}
        }
    }
    if forall|k: u128| chunks.contains_key(k) ==> chunk_closed(chunks, #[trigger] chunks[k]) {
        assert forall|k: u128, label: Label, i: int|
            chunks.contains_key(k) && 0 <= i < chunks[k].children_under(
                label,
            ).len() implies chunks.contains_key(
            (#[trigger] chunks[k].children_under(label)[i]).key(),
        ) by {
            assert(chunk_closed(chunks, chunks[k]));
        }
    }
}

/// In a closed forest every child of a node of the forest can be followed.
pub proof fn lemma_closed_resolves(chunks: Map<u128, Chunk>, node: NodeModel, label: Label, i: int)
    requires
        closed(chunks),
        belongs(chunks, node),
        0 <= i < node.children(label).len(),
    ensures
        node.children(label)[i] matches ChildModel::Edge(id) ==> chunks.contains_key(id.key()),
{
    lemma_belongs(chunks, node);
    let k = choose|k: u128| is_candidate(chunks, node.id().0, k);
    match node {
        NodeModel::Indirect { id, chunk } => {
            assert(chunks[k] == Chunk::Indirect(chunk));
            assert(chunks.contains_key(chunks[k].children_under(label)[i].key()));
        },
        NodeModel::Uniform(_) => {},
    }
}

/// Whether `node` is among the nodes that the children of `parent` under
/// `label` stand for.
pub open spec fn is_child_of(
    chunks: Map<u128, Chunk>,
    parent: NodeModel,
    label: Label,
    node: NodeModel,
) -> bool {
    exists|i: int|
        0 <= i < parent.children(label).len() && (#[trigger] expansion(
            chunks,
            parent.children(label)[i],
        )).contains(node)
}

/// The parent that a node has inside its own chunk: only a node of a uniform
/// chunk that is not at the top level of the chunk has one.
pub open spec fn parent_in_chunk(chunks: Map<u128, Chunk>, node: NodeModel) -> Option<
    (NodeId, Label),
> {
    match node {
        NodeModel::Indirect { id, chunk } => None,
        NodeModel::Uniform(n) => {
            let k = choose|k: u128| is_candidate(chunks, n.id.0, k);
            match chunks[k] {
                Chunk::Indirect(_) => None,
                Chunk::Uniform(c) => match c.schema@.node_at(n.id.0 - k) {
                    Some(l) => match l.parent {
                        Some((p, label)) => Some((NodeId((k + p) as u128), label)),
                        None => None,
                    },
                    None => None,
                },
            }
        },
    }
}

/// The id under which the chunk is stored that owns a node: the greatest
/// first id that is not above the id of the node.
pub open spec fn owner(chunks: Map<u128, Chunk>, node: NodeModel) -> ChunkId {
    ChunkId::of(choose|k: u128| is_candidate(chunks, node.id().0, k))
}

/// The parent of a node of a forest in which no chunk id has two parents,
/// and the label under which it has the node: for a node inside a uniform
/// chunk the parent it has there; for a node at the top of a chunk the
/// chunk that has its chunk as a child, if there is one.
pub open spec fn parent_of(chunks: Map<u128, Chunk>, node: NodeModel) -> Option<(NodeId, Label)> {
    match parent_in_chunk(chunks, node) {
        Some(p) => Some(p),
        None => chunk_parent(chunks, owner(chunks, node)),
    }
}

/// Where no chunks overlap, the chunk that has a node at an id is the
/// candidate owner of that id.
pub proof fn lemma_owner_is_candidate(chunks: Map<u128, Chunk>, k: u128, id: NodeId)
    requires
        no_overlap(chunks),
        chunks_valid(chunks),
        chunks.contains_key(k),
        chunks[k].node_at(NodeId(k), id) is Some,
    ensures
        is_candidate(chunks, id.0, k),
        node_of(chunks, id) == chunks[k].node_at(NodeId(k), id),
{
    match chunks[k] {
        Chunk::Indirect(_) => {},
        Chunk::Uniform(c) => {
            c.schema@.lemma_node_at_inside(id.0 - k);
        },
    }
    assert forall|j: u128| chunks.contains_key(j) && j <= id.0 implies j <= k by {
        if k < j {
            assert(chunks.contains_key(k) && chunks.contains_key(j));
        }
    }
    lemma_candidate_unique(chunks, id.0, k);
}

/// A node of the forest is a node of its candidate owner.
pub proof fn lemma_belongs(chunks: Map<u128, Chunk>, node: NodeModel)
    requires
        belongs(chunks, node),
    ensures
        ({
            let k = choose|k: u128| is_candidate(chunks, node.id().0, k);
            &&& is_candidate(chunks, node.id().0, k)
            &&& chunks[k].node_at(NodeId(k), node.id()) == Some(node)
        }),
{
}

/// The nodes that a child of a node of the forest stands for are nodes of
/// the forest.
pub proof fn lemma_expansion_belongs(chunks: Map<u128, Chunk>, child: ChildModel, i: int)
    requires
        no_overlap(chunks),
        chunks_valid(chunks),
        child_ok(chunks, child),
        0 <= i < expansion(chunks, child).len(),
    ensures
        belongs(chunks, expansion(chunks, child)[i]),
{
    match child {
        ChildModel::Edge(id) => {
            let k = id.key();
            match chunks[k] {
                Chunk::Indirect(_) => {},
                Chunk::Uniform(c) => {
                    c.lemma_top_level_is_node(id.0, i);
                },
            }
            lemma_owner_is_candidate(chunks, k, expansion(chunks, child)[i].id());
        },
        ChildModel::Inline(n) => {},
    }
}

/// The children of a node of the forest that lie in the same chunk are nodes
/// of the forest.
pub proof fn lemma_children_ok(chunks: Map<u128, Chunk>, node: NodeModel, label: Label, i: int)
    requires
        no_overlap(chunks),
        chunks_valid(chunks),
        belongs(chunks, node),
        0 <= i < node.children(label).len(),
        node.children(label)[i] is Inline,
    ensures
        child_ok(chunks, node.children(label)[i]),
{
    lemma_belongs(chunks, node);
    let k = choose|k: u128| is_candidate(chunks, node.id().0, k);
    match node {
        NodeModel::Indirect { id, chunk } => {},
        NodeModel::Uniform(n) => {
            match chunks[k] {
                Chunk::Indirect(_) => {},
                Chunk::Uniform(c) => {
                    c.lemma_child_is_node(NodeId(k), n.id, label, i);
                    lemma_owner_is_candidate(chunks, k, n.children(label)[i].id);
                },
            }
        },
    }
}

/// A node that a child of a node of the forest stands for has that node as
/// its parent, under the label of the child.
pub proof fn lemma_child_has_parent(
    chunks: Map<u128, Chunk>,
    parent: NodeModel,
    label: Label,
    i: int,
    j: int,
)
    requires
        chunks_valid(chunks),
        no_overlap(chunks),
        single_parent(chunks),
        belongs(chunks, parent),
        0 <= i < parent.children(label).len(),
        0 <= j < expansion(chunks, parent.children(label)[i]).len(),
    ensures
        parent_of(chunks, expansion(chunks, parent.children(label)[i])[j]) == Some(
            (parent.id(), label),
        ),
{
    lemma_belongs(chunks, parent);
    let k = choose|k: u128| is_candidate(chunks, parent.id().0, k);
    let node = expansion(chunks, parent.children(label)[i])[j];
    match parent {
        NodeModel::Indirect { id, chunk } => {
            let c = chunk.children_under(label)[i];
            assert(parent.children(label)[i] == ChildModel::Edge(c));
            assert(chunks[k] == Chunk::Indirect(chunk));
            assert(chunk.children_under(label).contains(c));
            assert(c == ChunkId::of(c.key()));
            match chunks[c.key()] {
                Chunk::Indirect(_) => {},
                Chunk::Uniform(u) => {
                    u.lemma_top_level_is_node(c.0, j);
                    let s = u.schema@;
                    assert(0 <= j * s.id_stride && (j + 1) * s.id_stride <= s.id_stride
                        * s.node_count && (j + 1) * s.id_stride == j * s.id_stride + s.id_stride)
                        by (nonlinear_arith)
                        requires
                            0 <= j < s.node_count,
                            s.id_stride > 0,
                    ;
                    crate::schema_model::lemma_stride_index(
                        j * s.id_stride,
                        s.id_stride as int,
                        j,
                    );
                },
            }
            lemma_owner_is_candidate(chunks, c.key(), node.id());
            lemma_candidate_unique(chunks, node.id().0, c.key());
            lemma_chunk_parent(chunks, k, label, c);
        },
        NodeModel::Uniform(n) => {
            match chunks[k] {
                Chunk::Indirect(_) => {},
                Chunk::Uniform(u) => {
                    let s = u.schema@;
                    let delta = n.id.0 - k;
                    let t = n.schema.trait_index(label)->0;
                    let tr = n.schema.traits[t];
                    let child = n.children(label)[i];
                    assert(node == NodeModel::Uniform(child));
                    s.lemma_node_at_inside(delta);
                    s.lemma_node_child(delta, t, i);
                    u.lemma_child_is_node(NodeId(k), n.id, label, i);
                    lemma_owner_is_candidate(chunks, k, child.id);
                    lemma_candidate_unique(chunks, child.id.0, k);
                    assert(child.id.0 - k == delta + tr.child_offset(i));
                },
            }
        },
    }
}

/// A node that some child stands for is among the nodes that all the
/// children stand for.
pub proof fn lemma_expand_all_contains(
    chunks: Map<u128, Chunk>,
    children: Seq<ChildModel>,
    i: int,
    node: NodeModel,
)
    requires
        0 <= i < children.len(),
        expansion(chunks, children[i]).contains(node),
    ensures
        expand_all(chunks, children).contains(node),
    decreases children.len(),
{
    let first = expansion(chunks, children[0]);
    let rest = expand_all(chunks, children.skip(1));
    if i == 0 {
        let j = choose|j: int| 0 <= j < first.len() && first[j] == node;
        assert((first + rest)[j] == node);
    } else {
        lemma_expand_all_contains(chunks, children.skip(1), i - 1, node);
        let j = choose|j: int| 0 <= j < rest.len() && rest[j] == node;
        assert((first + rest)[first.len() + j] == node);
    }
}

/// Whether every child that was seen is a child of the parent, under the
/// label, that it was seen with.
pub open spec fn seen_are_listed(chunks: Map<u128, Chunk>, seen: Map<u128, (u128, u128)>) -> bool {
    forall|c: u128| #[trigger]
        seen.contains_key(c) ==> chunks.contains_key(seen[c].0) && chunks[seen[c].0].children_under(
            Label(seen[c].1),
        ).contains(ChunkId::of(c))
}

/// Whether every edge of one chunk leads to a chunk of the forest.
pub open spec fn chunk_closed(chunks: Map<u128, Chunk>, chunk: Chunk) -> bool {
    forall|label: Label, i: int|
        0 <= i < chunk.children_under(label).len() ==> chunks.contains_key(
            (#[trigger] chunk.children_under(label)[i]).key(),
        )
}

impl Forest {
    /// Whether every edge of the given chunk leads to a chunk of the forest.
    pub fn resolves(&self, chunk: &Chunk) -> (r: bool)
        ensures
            r == chunk_closed(self@, *chunk),
    {
        let labels = chunk.get_traits();
        let mut t: usize = 0;
        while t < labels.len()
            invariant
                t <= labels.len(),
                forall|label: Label|
                    chunk.children().contains_key(label.0) <==> labels@.contains(label),
                forall|a: int, i: int|
                    0 <= a < t && 0 <= i < chunk.children_under(labels@[a]).len()
                        ==> self@.contains_key((#[trigger] chunk.children_under(labels@[a])[i]).key()),
            decreases labels.len() - t,
        {
            let mut ids = chunk.get_trait(labels[t]);
            let ghost all = chunk.children_under(labels@[t as int]);
            let ghost mut j: int = 0;
            assert(ids.remaining() =~= all.skip(0));
            loop
                invariant_except_break
                    ids.remaining() == all.skip(j),
                invariant
                    0 <= j <= all.len(),
                    t < labels.len(),
                    all == chunk.children_under(labels@[t as int]),
                    forall|i: int| 0 <= i < j ==> self@.contains_key((#[trigger] all[i]).key()),
                ensures
                    j == all.len(),
                decreases all.len() - j,
            {
                match ids.next() {
                    Some(child) => {
                        if self.find_nodes(child).is_none() {
                            assert(child == all[j]);
                            assert(!self@.contains_key(
                                chunk.children_under(labels@[t as int])[j].key(),
                            ));
                            return false;
                        }
                        proof {
                            assert(child == all[j]);
                            assert(all.skip(j).skip(1) =~= all.skip(j + 1));
                            j = j + 1;
                        }
                    },
                    None => {
                        break ;
                    },
                }
            }
            t += 1;
        }
        proof {
            assert forall|label: Label, i: int|
                0 <= i < chunk.children_under(label).len() implies self@.contains_key(
                (#[trigger] chunk.children_under(label)[i]).key(),
            ) by {
                assert(chunk.children().contains_key(label.0));
                assert(labels@.contains(label));
                let a = choose|a: int| 0 <= a < labels@.len() && labels@[a] == label;
                assert(self@.contains_key(chunk.children_under(labels@[a])[i].key()));
            }
        }
        true
    }

    /// Whether no chunk id has two parents, so that the parent index can be
    /// asked for.
    pub fn has_single_parents(&self) -> (r: bool)
        ensures
            r == single_parent(self@),
    {
        let chunks = self.chunks();
        let mut seen: HashMap<u128, (u128, u128)> = HashMap::new();
        let mut a: usize = 0;
        while a < chunks.len()
            invariant
                a <= chunks.len(),
                forall|x: int|
                    0 <= x < chunks@.len() ==> self@.contains_key((#[trigger] chunks@[x]).0.key())
                        && *chunks@[x].1 == self@[chunks@[x].0.key()],
                forall|k: u128|
                    self@.contains_key(k) ==> exists|x: int|
                        0 <= x < chunks@.len() && (#[trigger] chunks@[x]).0.key() == k,
                seen_are_listed(self@, seen@),
                forall|x: int, l: Label, c: ChunkId|
                    0 <= x < a && (#[trigger] chunks@[x].1.children_under(l).contains(c))
                        ==> seen@.contains_key(c.key()) && seen@[c.key()] == (
                    chunks@[x].0.key(),
                    l.0,
                ),
            decreases chunks.len() - a,
        {
            let key = chunks[a].0.number();
            let chunk = chunks[a].1;
            let labels = chunk.get_traits();
            let mut t: usize = 0;
            while t < labels.len()
                invariant
                    t <= labels.len(),
                    a < chunks.len(),
                    key == chunks@[a as int].0.key(),
                    chunk == chunks@[a as int].1,
                    self@.contains_key(key),
                    *chunk == self@[key],
                    forall|label: Label|
                        chunk.children().contains_key(label.0) <==> labels@.contains(label),
                    seen_are_listed(self@, seen@),
                    forall|x: int, l: Label, c: ChunkId|
                        0 <= x < a && (#[trigger] chunks@[x].1.children_under(l).contains(c))
                            ==> seen@.contains_key(c.key()) && seen@[c.key()] == (
                        chunks@[x].0.key(),
                        l.0,
                    ),
                    forall|y: int, c: ChunkId|
                        0 <= y < t && (#[trigger] chunk.children_under(labels@[y]).contains(c))
                            ==> seen@.contains_key(c.key()) && seen@[c.key()] == (key, labels@[y].0),
                decreases labels.len() - t,
            {
                let label = labels[t];
                let mut ids = chunk.get_trait(label);
                let ghost all = chunk.children_under(label);
                let ghost mut j: int = 0;
                assert(ids.remaining() =~= all.skip(0));
                loop
                    invariant_except_break
                        ids.remaining() == all.skip(j),
                    invariant
                        0 <= j <= all.len(),
                        t < labels.len(),
                        a < chunks.len(),
                        label == labels@[t as int],
                        all == chunk.children_under(label),
                        key == chunks@[a as int].0.key(),
                        chunk == chunks@[a as int].1,
                        self@.contains_key(key),
                        *chunk == self@[key],
                        seen_are_listed(self@, seen@),
                        forall|x: int, l: Label, c: ChunkId|
                            0 <= x < a && (#[trigger] chunks@[x].1.children_under(l).contains(c))
                                ==> seen@.contains_key(c.key()) && seen@[c.key()] == (
                            chunks@[x].0.key(),
                            l.0,
                        ),
                        forall|y: int, c: ChunkId|
                            0 <= y < t && (#[trigger] chunk.children_under(labels@[y]).contains(c))
                                ==> seen@.contains_key(c.key()) && seen@[c.key()] == (
                            key,
                            labels@[y].0,
                        ),
                        forall|p: int|
                            0 <= p < j ==> seen@.contains_key((#[trigger] all[p]).key())
                                && seen@[all[p].key()] == (key, label.0),
                    ensures
                        j == all.len(),
                        seen_are_listed(self@, seen@),
                        forall|x: int, l: Label, c: ChunkId|
                            0 <= x < a && (#[trigger] chunks@[x].1.children_under(l).contains(c))
                                ==> seen@.contains_key(c.key()) && seen@[c.key()] == (
                            chunks@[x].0.key(),
                            l.0,
                        ),
                        forall|y: int, c: ChunkId|
                            0 <= y < t && (#[trigger] chunk.children_under(labels@[y]).contains(c))
                                ==> seen@.contains_key(c.key()) && seen@[c.key()] == (
                            key,
                            labels@[y].0,
                        ),
                        forall|p: int|
                            0 <= p < j ==> seen@.contains_key((#[trigger] all[p]).key())
                                && seen@[all[p].key()] == (key, label.0),
                    decreases all.len() - j,
                {
                    match ids.next() {
                        Some(child) => {
                            proof {
                                assert(child == all[j]);
                                assert(all.skip(j).skip(1) =~= all.skip(j + 1));
                                assert(all.contains(child));
                                assert(child == ChunkId::of(child.key()));
                            }
                            let number = child.number();
                            match seen.get(&number) {
                                Some(parent) => {
                                    if parent.0 != key || parent.1 != label.0 {
                                        proof {
                                            let k0 = seen@[number].0;
                                            let l0 = Label(seen@[number].1);
                                            assert(self@[k0].children_under(l0).contains(child));
                                            assert(self@[key].children_under(label).contains(child));
                                            assert(!(k0 == key && l0 == label));
                                        }
                                        return false;
                                    }
                                },
                                None => {
                                    let ghost before = seen@;
                                    seen.insert(number, (key, label.0));
                                    proof {
                                        assert(label == Label(label.0));
                                        assert forall|c: u128| #[trigger]
                                            seen@.contains_key(c) implies self@.contains_key(
                                            seen@[c].0,
                                        ) && self@[seen@[c].0].children_under(
                                            Label(seen@[c].1),
                                        ).contains(ChunkId::of(c)) by {
                                            if c != number {
                                                assert(before.contains_key(c));
                                            }
                                        }
                                    }
                                },
                            }
                            proof {
                                j = j + 1;
                            }
                        },
                        None => {
                            break ;
                        },
                    }
                }
                proof {
                    assert forall|y: int, c: ChunkId|
                        0 <= y < t + 1 && (#[trigger] chunk.children_under(labels@[y]).contains(
                            c,
                        )) implies seen@.contains_key(c.key()) && seen@[c.key()] == (
                        key,
                        labels@[y].0,
                    ) by {
                        if y == t {
                            let p = choose|p: int| 0 <= p < all.len() && all[p] == c;
                            assert(all[p] == c);
                        }
                    }
                }
                t += 1;
            }
            proof {
                assert forall|x: int, l: Label, c: ChunkId|
                    0 <= x < a + 1 && (#[trigger] chunks@[x].1.children_under(l).contains(
                        c,
                    )) implies seen@.contains_key(c.key()) && seen@[c.key()] == (
                    chunks@[x].0.key(),
                    l.0,
                ) by {
                    if x == a {
                        assert(chunk.children().contains_key(l.0));
                        assert(labels@.contains(l));
                        let y = choose|y: int| 0 <= y < labels@.len() && labels@[y] == l;
                        assert(chunk.children_under(labels@[y]).contains(c));
                    }
                }
            }
            a += 1;
        }
        proof {
            assert forall|j: u128, k: u128, a: Label, b: Label, c: ChunkId|
                self@.contains_key(j) && self@.contains_key(k) && (
                #[trigger] self@[j].children_under(a).contains(c)) && (
                #[trigger] self@[k].children_under(b).contains(c)) implies j == k && a == b by {
                let x = choose|x: int| 0 <= x < chunks@.len() && (#[trigger] chunks@[x]).0.key() == j;
                let y = choose|y: int| 0 <= y < chunks@.len() && (#[trigger] chunks@[y]).0.key() == k;
                assert(chunks@[x].1.children_under(a).contains(c));
                assert(chunks@[y].1.children_under(b).contains(c));
                assert(a == Label(a.0) && b == Label(b.0));
            }
        }
        true
    }

    /// Whether every edge of every chunk of the forest leads to a chunk of the
    /// forest, so that the forest can be walked.
    pub fn is_closed(&self) -> (r: bool)
        ensures
            r == closed(self@),
    {
        let chunks = self.chunks();
        let mut i: usize = 0;
        while i < chunks.len()
            invariant
                i <= chunks.len(),
                forall|a: int|
                    0 <= a < chunks@.len() ==> self@.contains_key((#[trigger] chunks@[a]).0.key())
                        && *chunks@[a].1 == self@[chunks@[a].0.key()],
                forall|k: u128|
                    self@.contains_key(k) ==> exists|a: int|
                        0 <= a < chunks@.len() && (#[trigger] chunks@[a]).0.key() == k,
                forall|a: int| 0 <= a < i ==> chunk_closed(self@, *(#[trigger] chunks@[a]).1),
            decreases chunks.len() - i,
        {
            if !self.resolves(chunks[i].1) {
                proof {
                    lemma_closed_by_chunk(self@);
                    assert(self@.contains_key(chunks@[i as int].0.key()));
                }
                return false;
            }
            i += 1;
        }
        proof {
            lemma_closed_by_chunk(self@);
            assert forall|k: u128| self@.contains_key(k) implies chunk_closed(
                self@,
                #[trigger] self@[k],
            ) by {
                let a = choose|a: int| 0 <= a < chunks@.len() && (#[trigger] chunks@[a]).0.key() == k;
                assert(chunk_closed(self@, *chunks@[a].1));
            }
        }
        true
    }

    /// The nodes that a child stands for: for an edge the top level nodes of
    /// the chunk it leads to, for a node in the same chunk that node.
    pub fn expand<'a>(&'a self, chunk: Child<'a>) -> (r: Expander<'a>)
        requires
            chunks_valid(self@),
            chunk.wf(),
            chunk matches Child::Indirect(id) ==> self@.contains_key(id.key()),
        ensures
            r.wf(),
            r.remaining() == expansion(self@, chunk@),
    {
        match chunk {
            Child::Indirect(id) => match self.find_nodes(id) {
                Some(found) => found.top_level_nodes(id.0),
                None => Expander::Empty,
            },
            Child::Uniform(node) => {
                let r = Expander::Single(Node::Uniform(node));
                assert(r.remaining() =~= expansion(self@, chunk@));
                r
            },
        }
    }

    /// The parent of a node of the forest. For a node inside a uniform chunk
    /// it is the node of the same chunk that the schema names; for a node at
    /// the top of its chunk it is what the parent index has for the chunk.
    pub fn get_parent<'a>(&'a self, node: &Node<'a>) -> (r: Option<ParentInfo<Node<'a>>>)
        requires
            self.wf(),
            single_parent(self@),
            node.wf(),
            belongs(self@, node@),
        ensures
            match parent_of(self@, node@) {
                Some((parent_id, label)) => r matches Some(p) && p.node@.id() == parent_id
                    && p.label == label,
                None => r is None,
            },
            r matches Some(p) ==> {
                &&& p.node.wf()
                &&& belongs(self@, p.node@)
                &&& p.node@.has_label(p.label)
                &&& is_child_of(self@, p.node@, p.label, node@)
            },
    {
        proof {
            lemma_belongs(self@, node@);
            lemma_candidate_unique(
                self@,
                node@.id().0,
                choose|k: u128| is_candidate(self@, node@.id().0, k),
            );
        }
        match node {
            Node::Indirect(basic) => {
                let r = self.get_parent_from_chunk_id(ChunkId(basic.id));
                proof {
                    if r is Some {
                        self.lemma_root_parent(node@, ChunkId(basic.id), r->0.node@, r->0.label);
                    }
                }
                r
            },
            Node::Uniform(chunk) => {
                let id = chunk.get_id();
                match self.find_nodes_from_node(id) {
                    Some((chunk_id, found)) => {
                        proof {
                            lemma_candidate_unique(self@, id.0, chunk_id.key());
                        }
                        match found {
                            Chunk::Uniform(c) => match c.schema.lookup_schema(chunk_id.0, id) {
                                Some(info) => match info.parent.parent {
                                    Some((offset, label)) => {
                                        proof {
                                            c.lemma_parent_has_child(chunk_id.0, id);
                                        }
                                        match c.get(chunk_id.0, chunk_id.0 + offset) {
                                            Some(parent) => {
                                                proof {
                                                    let p = parent@;
                                                    let i = info@.index;
                                                    lemma_owner_is_candidate(
                                                        self@,
                                                        chunk_id.key(),
                                                        p.id,
                                                    );
                                                    let children = NodeModel::Uniform(p).children(
                                                        label,
                                                    );
                                                    assert(children[i] == ChildModel::Inline(
                                                        chunk@,
                                                    ));
                                                    assert(expansion(self@, children[i])[0]
                                                        == node@);
                                                }
                                                Some(
                                                    ParentInfo { node: Node::Uniform(parent), label },
                                                )
                                            },
                                            None => None,
                                        }
                                    },
                                    None => {
                                        let r = self.get_parent_from_chunk_id(chunk_id);
                                        proof {
                                            if r is Some {
                                                self.lemma_root_parent(
                                                    node@,
                                                    chunk_id,
                                                    r->0.node@,
                                                    r->0.label,
                                                );
                                            }
                                        }
                                        r
                                    },
                                },
                                None => None,
                            },
                            Chunk::Indirect(_) => None,
                        }
                    },
                    None => None,
                }
            },
        }
    }

    /// A node at the top of the chunk stored under `id` is among the nodes
    /// that the children of a chunk stand for, if that chunk has `id` among
    /// its children.
    proof fn lemma_root_parent(&self, node: NodeModel, id: ChunkId, parent: NodeModel, label: Label)
        requires
            self.wf(),
            belongs(self@, node),
            is_candidate(self@, node.id().0, id.key()),
            parent_in_chunk(self@, node) is None,
            parent matches NodeModel::Indirect { id: parent_id, chunk } && self@.contains_key(
                parent_id.0,
            ) && self@[parent_id.0] == Chunk::Indirect(chunk) && chunk.children_under(
                label,
            ).contains(id),
        ensures
            belongs(self@, parent),
            parent.has_label(label),
            is_child_of(self@, parent, label, node),
    {
        let chunks = self@;
        let k = id.key();
        lemma_candidate_unique(chunks, node.id().0, k);
        lemma_belongs(chunks, node);
        match parent {
            NodeModel::Indirect { id: parent_id, chunk } => {
                lemma_owner_is_candidate(chunks, parent_id.0, parent_id);
                let ids = chunk.children_under(label);
                let i = choose|i: int| 0 <= i < ids.len() && ids[i] == id;
                assert(parent.children(label)[i] == ChildModel::Edge(id));
                let nodes = expansion(chunks, ChildModel::Edge(id));
                match chunks[k] {
                    Chunk::Indirect(c) => {
                        assert(nodes[0] == node);
                    },
                    Chunk::Uniform(c) => {
                        let s = c.schema@;
                        let delta = node.id().0 - k;
                        s.lemma_node_at_inside(delta);
                        crate::schema_model::lemma_stride_position(
                            delta,
                            s.id_stride as int,
                            s.node_count as int,
                        );
                        let rep = delta / (s.id_stride as int);
                        if delta % (s.id_stride as int) != 0 {
                            s.lemma_located_inside(delta % (s.id_stride as int), 0);
                        }
                        c.lemma_top_level_is_node(id.0, rep);
                        let stride = s.id_stride as int;
                        assert(delta % stride == 0);
                        assert(rep * stride == delta) by (nonlinear_arith)
                            requires
                                delta == stride * rep + delta % stride,
                                delta % stride == 0,
                        ;
                        assert(id.0.0 == k);
                        assert(k + rep * stride == node.id().0);
                        assert(c.top_level(id.0)[rep].id == node.id());
                        assert(nodes[rep] == node);
                    },
                }
            },
            NodeModel::Uniform(_) => {},
        }
    }

    /// A cursor on the node with the given id, if the forest has one.
    pub fn nav_from(&self, id: NodeId) -> (r: Option<Nav<'_>>)
        requires
            self.wf(),
        ensures
            match node_of(self@, id) {
                Some(m) => r matches Some(nav) && nav@ == m && nav.chunks() == self@ && nav.wf(),
                None => r is None,
            },
    {
        match self.find_node(id) {
            Some(view) => {
                proof {
                    self.lemma_found_id(id);
                }
                Some(Nav::new(self, view))
            },
            None => None,
        }
    }

    /// The node found for an id has that id.
    pub proof fn lemma_found_id(&self, id: NodeId)
        requires
            chunks_valid(self@),
            node_of(self@, id) is Some,
        ensures
            node_of(self@, id)->0.id() == id,
    {
    }
}

} // verus!
