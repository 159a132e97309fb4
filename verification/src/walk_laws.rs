//! A walk of a forest in which every chunk id has one place comes to each
//! node once.

use vstd::prelude::*;
use crate::chunk::ChunkId;
use crate::counting::{nodes_in, walk_result, within_depth};
use crate::enum_chunk::{ChildModel, Chunk, NodeModel};
use crate::forest::{chunks_valid, is_candidate, lemma_candidate_unique, no_overlap};
use crate::indirect_nav::{
    belongs, expand_all, expansion, lemma_belongs, lemma_child_has_parent, lemma_children_ok,
    lemma_expansion_belongs, lemma_owner_is_candidate, parent_of,
};
use crate::node_id::NodeId;
use crate::parents::single_parent;
use crate::test_stuff::{any_node, tree_kids};
use crate::tree::Label;
use crate::visits::Family;

verus! {

/// Whether no chunk has a chunk id twice among its children under one
/// label.
pub open spec fn no_child_twice(chunks: Map<u128, Chunk>) -> bool {
    forall|k: u128, l: Label, i: int, j: int|
        #![trigger chunks[k].children_under(l)[i], chunks[k].children_under(l)[j]]
        chunks.contains_key(k) && 0 <= i < j < chunks[k].children_under(l).len()
            ==> chunks[k].children_under(l)[i] != chunks[k].children_under(l)[j]
}

/// Which child, and which of the nodes that it stands for, node number `i`
/// of the nodes that the children stand for is.
pub open spec fn place(chunks: Map<u128, Chunk>, children: Seq<ChildModel>, i: int) -> (int, int)
    decreases children.len(),
{
    if children.len() == 0 {
        (0, 0)
    } else if i < expansion(chunks, children[0]).len() {
        (0, i)
    } else {
        let (a, b) = place(chunks, children.skip(1), i - expansion(chunks, children[0]).len());
        (a + 1, b)
    }
}

/// Each of the nodes that children stand for is one of the nodes that one
/// of the children stands for.
pub proof fn lemma_place(chunks: Map<u128, Chunk>, children: Seq<ChildModel>, i: int)
    requires
        0 <= i < expand_all(chunks, children).len(),
    ensures
        ({
            let (a, b) = place(chunks, children, i);
            &&& 0 <= a < children.len()
            &&& 0 <= b < expansion(chunks, children[a]).len()
            &&& expand_all(chunks, children)[i] == expansion(chunks, children[a])[b]
        }),
    decreases children.len(),
{
    let first = expansion(chunks, children[0]);
    if i >= first.len() {
        let rest = children.skip(1);
        lemma_place(chunks, rest, i - first.len());
        let (a, b) = place(chunks, rest, i - first.len());
        assert(rest[a] == children[a + 1]);
    }
}

/// The nodes that children stand for come in the order of the children.
pub proof fn lemma_place_order(
    chunks: Map<u128, Chunk>,
    children: Seq<ChildModel>,
    i: int,
    j: int,
)
    requires
        0 <= i < j < expand_all(chunks, children).len(),
    ensures
        ({
            let (a, b) = place(chunks, children, i);
            let (c, d) = place(chunks, children, j);
            a < c || (a == c && b < d)
        }),
    decreases children.len(),
{
    let first = expansion(chunks, children[0]);
    if i >= first.len() {
        lemma_place_order(chunks, children.skip(1), i - first.len(), j - first.len());
    } else if j >= first.len() {
        lemma_place(chunks, children.skip(1), j - first.len());
    }
}

/// The nodes of a forest as a family: the children that `Nav::get_trait`
/// hands out, the ids of the nodes, and the parents that `Nav::parent`
/// names.
pub open spec fn family(chunks: Map<u128, Chunk>) -> Family<NodeModel> {
    Family {
        kids: tree_kids(chunks),
        id: |n: NodeModel| n.id().0 as int,
        ok: |n: NodeModel| belongs(chunks, n),
        up: |n: NodeModel|
            match parent_of(chunks, n) {
                Some((p, l)) => Some((p.0 as int, l)),
                None => None,
            },
    }
}

/// Two nodes that different children of a node of the forest stand for, or
/// that one child stands for at different places, have different ids.
proof fn lemma_kids_differ(chunks: Map<u128, Chunk>, x: NodeModel, l: Label, i: int, j: int)
    requires
        chunks_valid(chunks),
        no_overlap(chunks),
        no_child_twice(chunks),
        belongs(chunks, x),
        0 <= i < j < tree_kids(chunks)(x, l).len(),
    ensures
        tree_kids(chunks)(x, l)[i].id() != tree_kids(chunks)(x, l)[j].id(),
{
    let children = x.children(l);
    lemma_place(chunks, children, i);
    lemma_place(chunks, children, j);
    lemma_place_order(chunks, children, i, j);
    let (a, b) = place(chunks, children, i);
    let (c, d) = place(chunks, children, j);
    let m = expansion(chunks, children[a])[b];
    let n = expansion(chunks, children[c])[d];
    assert(tree_kids(chunks)(x, l)[i] == m);
    assert(tree_kids(chunks)(x, l)[j] == n);
    lemma_belongs(chunks, x);
    let k = choose|k: u128| is_candidate(chunks, x.id().0, k);
    if a == c {
        match children[a] {
            ChildModel::Edge(e) => {
                let held = chunks[e.key()];
                held.lemma_top_level(e.0, b);
                held.lemma_top_level(e.0, d);
                match held {
                    Chunk::Indirect(_) => {},
                    Chunk::Uniform(u) => {
                        let stride = u.schema@.id_stride as int;
                        assert(b * stride != d * stride) by (nonlinear_arith)
                            requires
                                b < d,
                                stride >= 1,
                        ;
                    },
                }
            },
            ChildModel::Inline(_) => {},
        }
    } else {
        match x {
            NodeModel::Indirect { id, chunk } => {
                assert(chunks[k] == Chunk::Indirect(chunk));
                let e = chunks[k].children_under(l)[a];
                let f = chunks[k].children_under(l)[c];
                assert(children[a] == ChildModel::Edge(e));
                assert(children[c] == ChildModel::Edge(f));
                assert(e != f);
                chunks[e.key()].lemma_top_level(e.0, b);
                chunks[f.key()].lemma_top_level(f.0, d);
                lemma_owner_is_candidate(chunks, e.key(), m.id());
                lemma_owner_is_candidate(chunks, f.key(), n.id());
                if m.id() == n.id() {
                    lemma_candidate_unique(chunks, m.id().0, e.key());
                    lemma_candidate_unique(chunks, m.id().0, f.key());
                    assert(e == ChunkId::of(e.key()));
                    assert(f == ChunkId::of(f.key()));
                }
            },
            NodeModel::Uniform(u) => {
                match chunks[k] {
                    Chunk::Indirect(_) => {},
                    Chunk::Uniform(held) => {
                        held.lemma_child_id(NodeId(k), u.id, l, a);
                        held.lemma_child_id(NodeId(k), u.id, l, c);
                        let t = u.schema.trait_index(l)->0;
                        let stride = u.schema.traits[t].schema.id_stride as int;
                        assert(a * stride != c * stride) by (nonlinear_arith)
                            requires
                                a < c,
                                stride >= 1,
                        ;
                    },
                }
            },
        }
    }
}

/// The nodes of a forest in which no chunks overlap, no chunk id has two
/// parents and no chunk has a child twice are a family in which every node
/// has one id and one place.
pub proof fn lemma_forest_is_tree(chunks: Map<u128, Chunk>)
    requires
        chunks_valid(chunks),
        no_overlap(chunks),
        single_parent(chunks),
        no_child_twice(chunks),
    ensures
        family(chunks).tree_like(),
{
    let fam = family(chunks);
    assert forall|x: NodeModel, l: Label, i: int|
        #![trigger (fam.kids)(x, l)[i]]
        (fam.ok)(x) && 0 <= i < (fam.kids)(x, l).len() implies (fam.ok)((fam.kids)(x, l)[i]) && (
    fam.up)((fam.kids)(x, l)[i]) == Some(((fam.id)(x), l)) by {
        let children = x.children(l);
        lemma_place(chunks, children, i);
        let (a, b) = place(chunks, children, i);
        match children[a] {
            ChildModel::Edge(_) => {},
            ChildModel::Inline(_) => {
                lemma_children_ok(chunks, x, l, a);
            },
        }
        lemma_expansion_belongs(chunks, children[a], b);
        lemma_child_has_parent(chunks, x, l, a, b);
    }
    assert forall|x: NodeModel, l: Label, i: int, j: int|
        #![trigger (fam.kids)(x, l)[i], (fam.kids)(x, l)[j]]
        (fam.ok)(x) && 0 <= i < j < (fam.kids)(x, l).len() implies (fam.id)((fam.kids)(x, l)[i])
        != (fam.id)((fam.kids)(x, l)[j]) by {
        lemma_kids_differ(chunks, x, l, i, j);
    }
    assert forall|a: NodeModel, b: NodeModel|
        #![trigger (fam.ok)(a), (fam.ok)(b)]
        (fam.ok)(a) && (fam.ok)(b) && (fam.id)(a) == (fam.id)(b) implies a == b by {
        assert(a.id() == b.id());
    }
}

/// A walk of a forest in which no chunks overlap, no chunk id has two
/// parents and no chunk has a child twice counts as many nodes as there
/// are ids of nodes below the node it starts from: it comes to each node
/// once.
pub proof fn lemma_walk_visits_once(chunks: Map<u128, Chunk>, x: NodeModel, depth: nat)
    requires
        chunks_valid(chunks),
        no_overlap(chunks),
        single_parent(chunks),
        no_child_twice(chunks),
        belongs(chunks, x),
        within_depth(tree_kids(chunks), any_node(), x, depth),
    ensures
        nodes_in(tree_kids(chunks), x, depth) == family(chunks).ids_below(x, depth),
        walk_result(tree_kids(chunks), any_node(), x, depth) matches Some(count) ==> count
            == family(chunks).ids_below(x, depth),
{
    lemma_forest_is_tree(chunks);
    family(chunks).lemma_walk_counts_ids(any_node(), x, depth);
}

} // verus!
