//! A tree grown from single nodes with ids that all differ: what its shape
//! is, and that a walk from its root counts every node of it.

use vstd::prelude::*;
use crate::chunk::ChunkId;
use crate::counting::{
    all_within, label_count, lemma_within_more, nodes_in, walk_result, within_depth,
};
use crate::enum_chunk::{ChildModel, Chunk, NodeModel};
use crate::forest::{chunks_valid, is_candidate, lemma_candidate_unique, no_overlap};
use crate::id_count::{among, lemma_count_among, lemma_count_shift};
use crate::indirect_nav::{belongs, closed, expansion, lemma_belongs};
use crate::indirect_node::IndirectChunk;
use crate::node_id::NodeId;
use crate::parents::single_parent;
use crate::test_stuff::{
    any_node, bare, grown, lemma_nodes_added_keeps, nodes_added, tree_kids,
};
use crate::tree::{Def, Label};
use crate::walk_laws::{
    family, lemma_forest_is_tree, lemma_place, lemma_walk_visits_once, no_child_twice, place,
};

verus! {

/// Whether every child that a chunk has is a node that comes later in
/// `nodes` than the chunk itself.
pub open spec fn children_come_later(chunks: Map<u128, Chunk>, nodes: Seq<NodeId>) -> bool {
    forall|k: u128, l: Label, i: int|
        #![trigger chunks[k].children_under(l)[i]]
        chunks.contains_key(k) && 0 <= i < chunks[k].children_under(l).len() ==> exists|
            m: int,
            j: int,
        |
            #![trigger nodes[m], nodes[j]]
            0 <= m < j < nodes.len() && nodes[m].0 == k && chunks[k].children_under(l)[i]
                == ChunkId(nodes[j])
}

/// Whether every node but the first is a child of a node that comes
/// earlier in `nodes`.
pub open spec fn parents_come_earlier(chunks: Map<u128, Chunk>, nodes: Seq<NodeId>) -> bool {
    forall|j: int|
        #![trigger nodes[j]]
        1 <= j < nodes.len() ==> exists|m: int, l: Label, i: int|
            #![trigger chunks[nodes[m].0].children_under(l)[i]]
            0 <= m < j && 0 <= i < chunks[nodes[m].0].children_under(l).len()
                && chunks[nodes[m].0].children_under(l)[i] == ChunkId(nodes[j])
}

/// Whether each of `nodes` is stored as a single node.
pub open spec fn nodes_stored(chunks: Map<u128, Chunk>, nodes: Seq<NodeId>) -> bool {
    &&& nodes.len() > 0
    &&& forall|j: int|
        0 <= j < nodes.len() ==> chunks.contains_key((#[trigger] nodes[j]).0)
            && chunks[nodes[j].0] is Indirect
}

/// Whether the forest holds each of `nodes`, and nothing else, as a single
/// node, and no two of them share an id.
pub open spec fn all_single(chunks: Map<u128, Chunk>, nodes: Seq<NodeId>) -> bool {
    &&& nodes_stored(chunks, nodes)
    &&& nodes.no_duplicates()
    &&& forall|k: u128|
        chunks.contains_key(k) ==> chunks[k] is Indirect && exists|j: int|
            0 <= j < nodes.len() && (#[trigger] nodes[j]).0 == k
}

/// The shape of a tree grown from nodes with ids that all differ.
pub open spec fn shaped(chunks: Map<u128, Chunk>, nodes: Seq<NodeId>) -> bool {
    &&& all_single(chunks, nodes)
    &&& children_come_later(chunks, nodes)
    &&& parents_come_earlier(chunks, nodes)
    &&& single_parent(chunks)
    &&& no_child_twice(chunks)
}

/// Whether the chunk has no children.
pub open spec fn leaf(chunk: Chunk) -> bool {
    forall|l: Label| (#[trigger] chunk.children_under(l)).len() == 0
}

/// What the children of the chunks of a forest are after `grow` has hung a
/// chunk without children, with a new id, under an indirect chunk.
pub proof fn lemma_leaf_children(
    before: Map<u128, Chunk>,
    after: Map<u128, Chunk>,
    parent: ChunkId,
    label: Label,
    id: ChunkId,
    chunk: Chunk,
    k: u128,
    l: Label,
)
    requires
        grown(before, after, parent, label, id, chunk),
        leaf(chunk),
        before.contains_key(parent.key()),
        before[parent.key()] is Indirect,
        !before.contains_key(id.key()),
        after.contains_key(k),
    ensures
        after[k].children_under(l) == if k == id.key() {
            Seq::<ChunkId>::empty()
        } else if k == parent.key() && l == label {
            before[k].children_under(l).push(id)
        } else {
            before[k].children_under(l)
        },
        k != id.key() ==> before.contains_key(k),
{
    let stored = before.insert(id.key(), chunk);
    assert(stored.contains_key(parent.key()) && stored[parent.key()] == before[parent.key()]);
    assert(stored.dom().contains(k));
    if k == parent.key() {
        if l.0 != label.0 {
            assert(after[k].children().contains_key(l.0) == before[k].children().contains_key(l.0));
        }
    } else {
        assert(after[k] == stored[k]);
        if k == id.key() {
            assert(chunk.children_under(l).len() == 0);
            assert(after[k].children_under(l) =~= Seq::<ChunkId>::empty());
        }
    }
}

/// Hanging a chunk without children, with a new id, under an indirect chunk
/// of a closed forest gives no chunk id a second parent and no chunk a
/// child twice.
pub proof fn lemma_leaf_hung(
    before: Map<u128, Chunk>,
    after: Map<u128, Chunk>,
    parent: ChunkId,
    label: Label,
    id: ChunkId,
    chunk: Chunk,
)
    requires
        grown(before, after, parent, label, id, chunk),
        leaf(chunk),
        before.contains_key(parent.key()),
        before[parent.key()] is Indirect,
        !before.contains_key(id.key()),
        closed(before),
        single_parent(before),
        no_child_twice(before),
    ensures
        single_parent(after),
        no_child_twice(after),
{
    assert(id == ChunkId::of(id.key()));
    assert forall|k: u128, l: Label| after.contains_key(k) implies (#[trigger] after[k].children_under(
        l,
    )) == (if k == id.key() {
        Seq::<ChunkId>::empty()
    } else if k == parent.key() && l == label {
        before[k].children_under(l).push(id)
    } else {
        before[k].children_under(l)
    }) && (k != id.key() ==> before.contains_key(k)) by {
        lemma_leaf_children(before, after, parent, label, id, chunk, k, l);
    }
    assert forall|k: u128, l: Label, i: int|
        before.contains_key(k) && 0 <= i < before[k].children_under(l).len() implies (
    #[trigger] before[k].children_under(l)[i]) != id by {
        assert(before.contains_key(before[k].children_under(l)[i].key()));
    }
    assert(single_parent(after)) by {
        assert forall|j: u128, k: u128, a: Label, b: Label, x: ChunkId|
            after.contains_key(j) && after.contains_key(k) && (
            #[trigger] after[j].children_under(a).contains(x)) && (
            #[trigger] after[k].children_under(b).contains(x)) implies j == k && a == b by {
            let s = after[j].children_under(a);
            let t = after[k].children_under(b);
            let si = choose|i: int| 0 <= i < s.len() && s[i] == x;
            let ti = choose|i: int| 0 <= i < t.len() && t[i] == x;
            if x == id {
                if !(j == parent.key() && a == label) {
                    assert(before[j].children_under(a)[si] != id);
                }
                if !(k == parent.key() && b == label) {
                    assert(before[k].children_under(b)[ti] != id);
                }
            } else {
                assert(before[j].children_under(a)[si] == x);
                assert(before[k].children_under(b)[ti] == x);
                assert(before[j].children_under(a).contains(x));
                assert(before[k].children_under(b).contains(x));
            }
        }
    }
    assert(no_child_twice(after)) by {
        assert forall|k: u128, l: Label, i: int, j: int|
            #![trigger after[k].children_under(l)[i], after[k].children_under(l)[j]]
            after.contains_key(k) && 0 <= i < j < after[k].children_under(l).len() implies after[k].children_under(
            l,
        )[i] != after[k].children_under(l)[j] by {
            let list = after[k].children_under(l);
            if k == parent.key() && l == label && j == list.len() - 1 {
                assert(before[k].children_under(l)[i] != id);
            } else {
                assert(list[i] == before[k].children_under(l)[i]);
                assert(list[j] == before[k].children_under(l)[j]);
            }
        }
    }
}

/// A tree grown from nodes with ids that all differ has the shape of a
/// tree: every node but the root is the child of one earlier node, once.
pub proof fn lemma_shaped(after: Map<u128, Chunk>, nodes: Seq<NodeId>, label: Label, def: Def)
    requires
        nodes_added(after, nodes, label, def),
        nodes.no_duplicates(),
    ensures
        shaped(after, nodes),
    decreases nodes.len(),
{
    lemma_nodes_added_keeps(after, nodes, label, def);
    if nodes.len() == 1 {
        let c = choose|c: IndirectChunk|
            #[trigger] bare(c, def) && after == Map::<u128, Chunk>::empty().insert(
                nodes[0].0,
                Chunk::Indirect(c),
            );
        assert forall|k: u128, l: Label| after.contains_key(k) implies (
        #[trigger] after[k].children_under(l)).len() == 0 by {
            assert(k == nodes[0].0);
        }
    } else {
        let (mid, parent, c) = choose|mid: Map<u128, Chunk>, parent: int, c: IndirectChunk|
            {
                &&& nodes_added(mid, nodes.drop_last(), label, def)
                &&& 0 <= parent < nodes.len() - 1
                &&& bare(c, def)
                &&& #[trigger] grown(
                    mid,
                    after,
                    ChunkId(nodes[parent]),
                    label,
                    ChunkId(nodes.last()),
                    Chunk::Indirect(c),
                )
            };
        let earlier = nodes.drop_last();
        let n = nodes.len() - 1;
        let v = ChunkId(nodes[n]);
        let p = ChunkId(nodes[parent]);
        assert(earlier.no_duplicates()) by {
            assert forall|i: int, j: int|
                0 <= i < earlier.len() && 0 <= j < earlier.len() && i != j implies earlier[i]
                != earlier[j] by {
                assert(earlier[i] == nodes[i] && earlier[j] == nodes[j]);
            }
        }
        lemma_shaped(mid, earlier, label, def);
        lemma_nodes_added_keeps(mid, earlier, label, def);
        assert(earlier[parent] == nodes[parent]);
        assert(mid.contains_key(p.key()) && mid[p.key()] is Indirect);
        assert(!mid.contains_key(v.key())) by {
            if mid.contains_key(v.key()) {
                let j = choose|j: int| 0 <= j < earlier.len() && (#[trigger] earlier[j]).0 == v.key();
                assert(nodes[j] == earlier[j]);
                assert(nodes[j] == nodes[n]);
            }
        }
        let hangs = Chunk::Indirect(c);
        assert(leaf(hangs));
        lemma_leaf_hung(mid, after, p, label, v, hangs);
        // The children of each chunk, as they were and as they are.
        assert forall|k: u128, l: Label| after.contains_key(k) implies (#[trigger] after[k].children_under(
            l,
        )) == (if k == v.key() {
            Seq::<ChunkId>::empty()
        } else if k == p.key() && l == label {
            mid[k].children_under(l).push(v)
        } else {
            mid[k].children_under(l)
        }) && (k != v.key() ==> mid.contains_key(k)) by {
            lemma_leaf_children(mid, after, p, label, v, hangs, k, l);
        }
        assert(children_come_later(after, nodes)) by {
            assert forall|k: u128, l: Label, i: int|
                #![trigger after[k].children_under(l)[i]]
                after.contains_key(k) && 0 <= i < after[k].children_under(l).len() implies exists|
                m: int,
                j: int,
            |
                #![trigger nodes[m], nodes[j]]
                0 <= m < j < nodes.len() && nodes[m].0 == k && after[k].children_under(l)[i]
                    == ChunkId(nodes[j]) by {
                let list = after[k].children_under(l);
                if k == p.key() && l == label && i == list.len() - 1 {
                    assert(nodes[parent].0 == k && list[i] == ChunkId(nodes[n]));
                } else {
                    assert(list[i] == mid[k].children_under(l)[i]);
                    let (m, j) = choose|m: int, j: int|
                        #![trigger earlier[m], earlier[j]]
                        0 <= m < j < earlier.len() && earlier[m].0 == k && mid[k].children_under(
                            l,
                        )[i] == ChunkId(earlier[j]);
                    assert(nodes[m] == earlier[m] && nodes[j] == earlier[j]);
                }
            }
        }
        assert(parents_come_earlier(after, nodes)) by {
            assert forall|j: int| #![trigger nodes[j]] 1 <= j < nodes.len() implies exists|
                m: int,
                l: Label,
                i: int,
            |
                #![trigger after[nodes[m].0].children_under(l)[i]]
                0 <= m < j && 0 <= i < after[nodes[m].0].children_under(l).len()
                    && after[nodes[m].0].children_under(l)[i] == ChunkId(nodes[j]) by {
                if j == n {
                    let list = after[nodes[parent].0].children_under(label);
                    assert(list[list.len() - 1] == ChunkId(nodes[j]));
                } else {
                    assert(earlier[j] == nodes[j]);
                    let (m, l, i) = choose|m: int, l: Label, i: int|
                        #![trigger mid[earlier[m].0].children_under(l)[i]]
                        0 <= m < j && 0 <= i < mid[earlier[m].0].children_under(l).len()
                            && mid[earlier[m].0].children_under(l)[i] == ChunkId(earlier[j]);
                    assert(earlier[m] == nodes[m]);
                    assert(after.contains_key(nodes[m].0));
                    assert(after[nodes[m].0].children_under(l)[i] == ChunkId(nodes[j]));
                }
            }
        }
    }
}

/// The node that a forest of single nodes has at an id.
pub open spec fn single(chunks: Map<u128, Chunk>, id: NodeId) -> NodeModel {
    NodeModel::Indirect { id, chunk: chunks[id.0]->Indirect_0 }
}

/// The ids of the nodes, as numbers.
pub open spec fn numbers(nodes: Seq<NodeId>) -> Seq<int> {
    Seq::new(nodes.len(), |j: int| nodes[j].0 as int)
}

/// A forest of single nodes is a forest of valid chunks that do not
/// overlap.
pub proof fn lemma_single_forest(chunks: Map<u128, Chunk>, nodes: Seq<NodeId>)
    requires
        all_single(chunks, nodes),
    ensures
        chunks_valid(chunks),
        no_overlap(chunks),
{
    assert forall|a: u128, b: u128|
        #![trigger chunks.contains_key(a), chunks.contains_key(b)]
        chunks.contains_key(a) && chunks.contains_key(b) && a < b implies a + chunks[a].id_span()
        <= b by {
        assert(chunks[a] is Indirect);
    }
}

/// Each of the nodes that are stored as single nodes is a node of the
/// forest.
pub proof fn lemma_single_belongs(chunks: Map<u128, Chunk>, nodes: Seq<NodeId>, j: int)
    requires
        nodes_stored(chunks, nodes),
        0 <= j < nodes.len(),
    ensures
        belongs(chunks, single(chunks, nodes[j])),
{
    let k = nodes[j].0;
    assert(chunks.contains_key(k));
    assert(is_candidate(chunks, k, k));
    lemma_candidate_unique(chunks, k, k);
    assert(chunks[k] is Indirect);
}

/// Every child of a node of a tree of the shape of a grown tree is a node
/// that comes later.
pub proof fn lemma_kid_is_later(
    chunks: Map<u128, Chunk>,
    nodes: Seq<NodeId>,
    j: int,
    l: Label,
    i: int,
) -> (later: int)
    requires
        all_single(chunks, nodes),
        children_come_later(chunks, nodes),
        0 <= j < nodes.len(),
        0 <= i < tree_kids(chunks)(single(chunks, nodes[j]), l).len(),
    ensures
        j < later < nodes.len(),
        tree_kids(chunks)(single(chunks, nodes[j]), l)[i] == single(chunks, nodes[later]),
{
    let x = single(chunks, nodes[j]);
    let k = nodes[j].0;
    let children = x.children(l);
    lemma_place(chunks, children, i);
    let (a, b) = place(chunks, children, i);
    assert(chunks.contains_key(k) && chunks[k] is Indirect);
    let c = chunks[k].children_under(l)[a];
    assert(children[a] == ChildModel::Edge(c));
    let (m, later) = choose|m: int, later: int|
        #![trigger nodes[m], nodes[later]]
        0 <= m < later < nodes.len() && nodes[m].0 == k && chunks[k].children_under(l)[a]
            == ChunkId(nodes[later]);
    assert(nodes[m] == nodes[j]);
    assert(m == j);
    assert(chunks.contains_key(nodes[later].0));
    assert(chunks[nodes[later].0] is Indirect);
    assert(expansion(chunks, children[a]).len() == 1);
    later
}

/// Below node number `j` of a tree of the shape of a grown tree lie no more
/// levels than nodes come after it.
pub proof fn lemma_grown_depth(chunks: Map<u128, Chunk>, nodes: Seq<NodeId>, j: int)
    requires
        all_single(chunks, nodes),
        children_come_later(chunks, nodes),
        0 <= j < nodes.len(),
    ensures
        within_depth(
            tree_kids(chunks),
            any_node(),
            single(chunks, nodes[j]),
            (nodes.len() - 1 - j) as nat,
        ),
    decreases nodes.len() - j, 1nat,
{
    let kids = tree_kids(chunks);
    let x = single(chunks, nodes[j]);
    assert forall|label: Label| #![trigger kids(x, label)]
        all_within(kids, any_node(), kids(x, label), (nodes.len() - 1 - j) as nat) by {
        lemma_grown_depth_under(chunks, nodes, j, label);
    }
}

/// The children of node number `j` of such a tree, under any label, have
/// fewer levels below them than nodes come after that node.
proof fn lemma_grown_depth_under(
    chunks: Map<u128, Chunk>,
    nodes: Seq<NodeId>,
    j: int,
    label: Label,
)
    requires
        all_single(chunks, nodes),
        children_come_later(chunks, nodes),
        0 <= j < nodes.len(),
    ensures
        all_within(
            tree_kids(chunks),
            any_node(),
            tree_kids(chunks)(single(chunks, nodes[j]), label),
            (nodes.len() - 1 - j) as nat,
        ),
    decreases nodes.len() - j, 0nat,
{
    let kids = tree_kids(chunks);
    let below = tree_kids(chunks)(single(chunks, nodes[j]), label);
    let depth = (nodes.len() - 1 - j) as nat;
    assert forall|i: int| #![trigger below[i]] 0 <= i < below.len() implies depth > 0
        && within_depth(kids, any_node(), below[i], (depth - 1) as nat) by {
        let later = lemma_kid_is_later(chunks, nodes, j, label, i);
        lemma_grown_depth(chunks, nodes, later);
        lemma_within_more(
            kids,
            any_node(),
            below[i],
            (nodes.len() - 1 - later) as nat,
            (depth - 1) as nat,
        );
    }
    if below.len() > 0 {
        assert(within_depth(kids, any_node(), below[0], (depth - 1) as nat));
        assert(depth > 0);
    }
}

/// Node number `j` of a tree of the shape of a grown tree lies below the
/// first node, at most `j` levels down.
pub proof fn lemma_grown_reached(chunks: Map<u128, Chunk>, nodes: Seq<NodeId>, j: int)
    requires
        nodes_stored(chunks, nodes),
        parents_come_earlier(chunks, nodes),
        family(chunks).tree_like(),
        0 <= j < nodes.len(),
    ensures
        family(chunks).reaches(single(chunks, nodes[0]), j as nat, nodes[j].0 as int),
    decreases j,
{
    let fam = family(chunks);
    let root = single(chunks, nodes[0]);
    if j > 0 {
        let (m, l, i) = choose|m: int, l: Label, i: int|
            #![trigger chunks[nodes[m].0].children_under(l)[i]]
            0 <= m < j && 0 <= i < chunks[nodes[m].0].children_under(l).len()
                && chunks[nodes[m].0].children_under(l)[i] == ChunkId(nodes[j]);
        lemma_grown_reached(chunks, nodes, m);
        lemma_single_belongs(chunks, nodes, 0);
        lemma_single_belongs(chunks, nodes, m);
        let p = single(chunks, nodes[m]);
        let c = single(chunks, nodes[j]);
        let edges = p.children(l);
        assert(chunks.contains_key(nodes[m].0) && chunks[nodes[m].0] is Indirect);
        assert(chunks.contains_key(nodes[j].0) && chunks[nodes[j].0] is Indirect);
        assert(edges[i] == ChildModel::Edge(ChunkId(nodes[j])));
        assert(expansion(chunks, edges[i])[0] == c);
        assert(expansion(chunks, edges[i]).contains(c));
        crate::indirect_nav::lemma_expand_all_contains(chunks, edges, i, c);
        let below = tree_kids(chunks)(p, l);
        assert(below.contains(c));
        let at = choose|at: int| 0 <= at < below.len() && #[trigger] below[at] == c;
        fam.lemma_reaches_child(root, m as nat, p, l, at);
        fam.lemma_reaches_deeper(root, (m + 1) as nat, j as nat, nodes[j].0 as int);
    }
}

/// A walk from the root of a tree grown from nodes with ids that all
/// differ, which may go as deep as there are nodes, counts every node.
pub proof fn lemma_grown_count(
    after: Map<u128, Chunk>,
    nodes: Seq<NodeId>,
    label: Label,
    def: Def,
    depth: nat,
)
    requires
        nodes_added(after, nodes, label, def),
        nodes.no_duplicates(),
        depth >= nodes.len() - 1,
    ensures
        belongs(after, single(after, nodes[0])),
        nodes_in(tree_kids(after), single(after, nodes[0]), depth) == nodes.len(),
        nodes.len() <= usize::MAX ==> walk_result(
            tree_kids(after),
            any_node(),
            single(after, nodes[0]),
            depth,
        ) == Some(nodes.len() as usize),
{
    let fam = family(after);
    let root = single(after, nodes[0]);
    let n = label_count() as int;
    lemma_shaped(after, nodes, label, def);
    lemma_single_forest(after, nodes);
    lemma_single_belongs(after, nodes, 0);
    lemma_grown_depth(after, nodes, 0);
    lemma_within_more(tree_kids(after), any_node(), root, (nodes.len() - 1) as nat, depth);
    lemma_walk_visits_once(after, root, depth);
    lemma_forest_is_tree(after);
    let ids = numbers(nodes);
    assert(ids.no_duplicates()) by {
        assert forall|i: int, j: int|
            0 <= i < ids.len() && 0 <= j < ids.len() && i != j implies ids[i] != ids[j] by {
            assert(nodes[i] != nodes[j]);
        }
    }
    let reached = fam.below(root, depth);
    let listed = among(ids, ids.len() as int);
    assert forall|t: int| 0 <= t < n implies #[trigger] reached(t) == listed(t + 0) by {
        if reached(t) {
            let y = fam.lemma_reached_is_node(root, depth, t);
            lemma_belongs(after, y);
            let k = choose|k: u128| is_candidate(after, y.id().0, k);
            assert(after[k] is Indirect);
            assert(k == y.id().0);
            let j = choose|j: int| 0 <= j < nodes.len() && (#[trigger] nodes[j]).0 == k;
            assert(ids[j] == t);
        }
        if listed(t) {
            let j = choose|j: int| 0 <= j < ids.len() && j < ids.len() && #[trigger] ids[j] == t;
            lemma_grown_reached(after, nodes, j);
            fam.lemma_reaches_deeper(root, j as nat, depth, t);
        }
    }
    lemma_count_shift(reached, listed, 0, n, 0);
    lemma_count_among(ids, ids.len() as int, n);
}

} // verus!
