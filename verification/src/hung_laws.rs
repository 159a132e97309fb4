//! A tree of single nodes with uniform chunks hung under them, all under
//! ids that differ and in ranges that do not meet: what its shape is, and
//! that a walk from its root counts every node of it.

use vstd::prelude::*;
use crate::built_laws::{
    leaf, lemma_grown_count, lemma_grown_reached, lemma_leaf_children, lemma_leaf_hung, lemma_shaped,
    lemma_single_belongs, nodes_stored, numbers, parents_come_earlier, single,
};
use crate::chunk::ChunkId;
use crate::counting::{all_within, label_count, lemma_within_more, nodes_in, within_depth};
use crate::enum_chunk::{ChildModel, Chunk, NodeModel};
use crate::forest::{chunks_valid, is_candidate, lemma_candidate_unique, no_overlap};
use crate::id_count::{
    among, count_used, lemma_count_among, lemma_count_either, lemma_count_none,
    lemma_count_shift, lemma_count_split,
};
use crate::indirect_nav::{
    belongs, chunk_closed, closed, expansion, lemma_belongs, lemma_expand_all_contains,
    lemma_owner_is_candidate,
};
use crate::node_id::NodeId;
use crate::parents::single_parent;
use crate::schema::RootChunkSchema;
use crate::schema_model::{lemma_stride_position, SchemaModel};
use crate::test_stuff::{
    any_node, built, chunks_added, grown, lemma_expand_inline, lemma_grown_keeps,
    lemma_nodes_added_keeps, lemma_uniform_depth, nodes_added, tree_kids,
};
use crate::tree::{Def, Label};
use crate::uniform_chunk::UniformChunk;
use crate::util::vector_bytes;
use crate::walk_laws::{
    family, lemma_forest_is_tree, lemma_place, lemma_walk_visits_once, no_child_twice, place,
};

verus! {

/// Whether `after` is `before` with a uniform chunk of the given shape and
/// bytes stored under each of `ids`, one after the other, each hung, by
/// `grow`, under one of `nodes`.
pub open spec fn hung(
    before: Map<u128, Chunk>,
    after: Map<u128, Chunk>,
    nodes: Seq<NodeId>,
    label: Label,
    schema: &RootChunkSchema,
    bytes: Seq<u8>,
    ids: Seq<ChunkId>,
) -> bool
    decreases ids.len(),
{
    if ids.len() == 0 {
        after == before
    } else {
        exists|mid: Map<u128, Chunk>, parent: int, chunk: UniformChunk|
            {
                &&& hung(before, mid, nodes, label, schema, bytes, ids.drop_last())
                &&& 0 <= parent < nodes.len()
                &&& *chunk.schema == *schema
                &&& vector_bytes(&chunk.data) == bytes
                &&& chunk.wf()
                &&& chunk.fits_at(ids.last().0)
                &&& #[trigger] grown(
                    mid,
                    after,
                    ChunkId(nodes[parent]),
                    label,
                    ids.last(),
                    Chunk::Uniform(chunk),
                )
            }
    }
}

/// Chunks that were added were added under some ids.
pub proof fn lemma_hung_exists(
    before: Map<u128, Chunk>,
    after: Map<u128, Chunk>,
    nodes: Seq<NodeId>,
    label: Label,
    schema: &RootChunkSchema,
    bytes: Seq<u8>,
    count: nat,
) -> (ids: Seq<ChunkId>)
    requires
        chunks_added(before, after, nodes, label, schema, bytes, count),
    ensures
        ids.len() == count,
        hung(before, after, nodes, label, schema, bytes, ids),
    decreases count,
{
    if count == 0 {
        Seq::empty()
    } else {
        let (mid, id, parent, chunk) = choose|
            mid: Map<u128, Chunk>,
            id: ChunkId,
            parent: int,
            chunk: UniformChunk,
        |
            {
                &&& chunks_added(before, mid, nodes, label, schema, bytes, (count - 1) as nat)
                &&& 0 <= parent < nodes.len()
                &&& *chunk.schema == *schema
                &&& vector_bytes(&chunk.data) == bytes
                &&& chunk.wf()
                &&& chunk.fits_at(id.0)
                &&& #[trigger] grown(
                    mid,
                    after,
                    ChunkId(nodes[parent]),
                    label,
                    id,
                    Chunk::Uniform(chunk),
                )
            };
        let front = lemma_hung_exists(before, mid, nodes, label, schema, bytes, (count - 1) as nat);
        let ids = front.push(id);
        assert(ids.drop_last() =~= front);
        assert(ids.last() == id);
        ids
    }
}

/// Whether the ids of the nodes and of the chunks all differ.
pub open spec fn apart(nodes: Seq<NodeId>, ids: Seq<ChunkId>) -> bool {
    &&& nodes.no_duplicates()
    &&& ids.no_duplicates()
    &&& forall|i: int, j: int|
        0 <= i < ids.len() && 0 <= j < nodes.len() ==> (#[trigger] ids[i]).key() != (
        #[trigger] nodes[j]).0
}

/// Whether under each of `ids` a uniform chunk of shape `s` is stored that
/// is valid there.
pub open spec fn chunks_stored(chunks: Map<u128, Chunk>, ids: Seq<ChunkId>, s: SchemaModel) -> bool {
    forall|i: int|
        0 <= i < ids.len() ==> {
            &&& chunks.contains_key((#[trigger] ids[i]).key())
            &&& chunks[ids[i].key()] matches Chunk::Uniform(u)
            &&& u.wf()
            &&& u.fits_at(ids[i].0)
            &&& u.schema@ == s
        }
}

/// Whether nothing is stored but under the ids of the nodes and of the
/// chunks.
pub open spec fn only_these(chunks: Map<u128, Chunk>, nodes: Seq<NodeId>, ids: Seq<ChunkId>) -> bool {
    forall|k: u128|
        chunks.contains_key(k) ==> (exists|j: int|
            0 <= j < nodes.len() && (#[trigger] nodes[j]).0 == k) || (exists|i: int|
            0 <= i < ids.len() && (#[trigger] ids[i]).key() == k)
}

/// Whether every child that a chunk has is a child of a node, and is a
/// node that comes later in `nodes` or one of the chunks.
pub open spec fn kids_known(chunks: Map<u128, Chunk>, nodes: Seq<NodeId>, ids: Seq<ChunkId>) -> bool {
    forall|k: u128, l: Label, i: int|
        #![trigger chunks[k].children_under(l)[i]]
        chunks.contains_key(k) && 0 <= i < chunks[k].children_under(l).len() ==> (exists|
            m: int,
            j: int,
        |
            #![trigger nodes[m], nodes[j]]
            0 <= m < j < nodes.len() && nodes[m].0 == k && chunks[k].children_under(l)[i]
                == ChunkId(nodes[j])) || (exists|m: int, c: int|
            #![trigger nodes[m], ids[c]]
            0 <= m < nodes.len() && nodes[m].0 == k && 0 <= c < ids.len()
                && chunks[k].children_under(l)[i] == ids[c])
}

/// Whether every chunk is a child of one of the nodes.
pub open spec fn chunks_hang(chunks: Map<u128, Chunk>, nodes: Seq<NodeId>, ids: Seq<ChunkId>) -> bool {
    forall|c: int|
        #![trigger ids[c]]
        0 <= c < ids.len() ==> exists|m: int, l: Label, i: int|
            #![trigger chunks[nodes[m].0].children_under(l)[i]]
            0 <= m < nodes.len() && 0 <= i < chunks[nodes[m].0].children_under(l).len()
                && chunks[nodes[m].0].children_under(l)[i] == ids[c]
}

/// The shape of a tree of single nodes with uniform chunks hung under
/// them, where all the ids differ.
pub open spec fn mixed(
    chunks: Map<u128, Chunk>,
    nodes: Seq<NodeId>,
    ids: Seq<ChunkId>,
    s: SchemaModel,
) -> bool {
    &&& apart(nodes, ids)
    &&& nodes_stored(chunks, nodes)
    &&& chunks_stored(chunks, ids, s)
    &&& only_these(chunks, nodes, ids)
    &&& kids_known(chunks, nodes, ids)
    &&& parents_come_earlier(chunks, nodes)
    &&& chunks_hang(chunks, nodes, ids)
    &&& single_parent(chunks)
    &&& no_child_twice(chunks)
    &&& closed(chunks)
}

/// A tree grown from single nodes and hung with uniform chunks, under ids
/// that all differ, has the shape of such a tree.
#[verifier::rlimit(30)]
pub proof fn lemma_mixed(
    base: Map<u128, Chunk>,
    after: Map<u128, Chunk>,
    nodes: Seq<NodeId>,
    label: Label,
    def: Def,
    schema: &RootChunkSchema,
    bytes: Seq<u8>,
    ids: Seq<ChunkId>,
)
    requires
        nodes_added(base, nodes, label, def),
        hung(base, after, nodes, label, schema, bytes, ids),
        apart(nodes, ids),
    ensures
        mixed(after, nodes, ids, schema@),
    decreases ids.len(),
{
    let n = nodes.len();
    if ids.len() == 0 {
        lemma_shaped(base, nodes, label, def);
        lemma_nodes_added_keeps(base, nodes, label, def);
        assert(kids_known(after, nodes, ids)) by {
            assert forall|k: u128, l: Label, i: int|
                #![trigger after[k].children_under(l)[i]]
                after.contains_key(k) && 0 <= i < after[k].children_under(l).len() implies (exists|
                m: int,
                j: int,
            |
                #![trigger nodes[m], nodes[j]]
                0 <= m < j < nodes.len() && nodes[m].0 == k && after[k].children_under(l)[i]
                    == ChunkId(nodes[j])) || (exists|m: int, c: int|
                #![trigger nodes[m], ids[c]]
                0 <= m < nodes.len() && nodes[m].0 == k && 0 <= c < ids.len()
                    && after[k].children_under(l)[i] == ids[c]) by {
                let (m, j) = choose|m: int, j: int|
                    #![trigger nodes[m], nodes[j]]
                    0 <= m < j < nodes.len() && nodes[m].0 == k && after[k].children_under(l)[i]
                        == ChunkId(nodes[j]);
            }
        }
    } else {
        let (mid, parent, chunk) = choose|mid: Map<u128, Chunk>, parent: int, chunk: UniformChunk|
            {
                &&& hung(base, mid, nodes, label, schema, bytes, ids.drop_last())
                &&& 0 <= parent < nodes.len()
                &&& *chunk.schema == *schema
                &&& vector_bytes(&chunk.data) == bytes
                &&& chunk.wf()
                &&& chunk.fits_at(ids.last().0)
                &&& #[trigger] grown(
                    mid,
                    after,
                    ChunkId(nodes[parent]),
                    label,
                    ids.last(),
                    Chunk::Uniform(chunk),
                )
            };
        let front = ids.drop_last();
        let last = ids.len() - 1;
        let v = ids[last];
        let p = ChunkId(nodes[parent]);
        let hangs = Chunk::Uniform(chunk);
        assert(apart(nodes, front)) by {
            assert forall|i: int, j: int|
                0 <= i < front.len() && 0 <= j < front.len() && i != j implies front[i]
                != front[j] by {
                assert(front[i] == ids[i] && front[j] == ids[j]);
            }
            assert forall|i: int, j: int|
                0 <= i < front.len() && 0 <= j < nodes.len() implies (#[trigger] front[i]).key()
                != (#[trigger] nodes[j]).0 by {
                assert(front[i] == ids[i]);
            }
        }
        lemma_mixed(base, mid, nodes, label, def, schema, bytes, front);
        assert(v == ChunkId::of(v.key()));
        assert(mid.contains_key(p.key()) && mid[p.key()] is Indirect);
        assert(!mid.contains_key(v.key())) by {
            if mid.contains_key(v.key()) {
                if exists|j: int| 0 <= j < nodes.len() && (#[trigger] nodes[j]).0 == v.key() {
                    let j = choose|j: int| 0 <= j < nodes.len() && (#[trigger] nodes[j]).0 == v.key();
                    assert(ids[last].key() != nodes[j].0);
                } else {
                    let i = choose|i: int| 0 <= i < front.len() && (#[trigger] front[i]).key() == v.key();
                    assert(front[i] == ids[i]);
                    assert(ids[i] == ChunkId::of(ids[i].key()));
                    assert(ids[i] == ids[last]);
                }
            }
        }
        assert(leaf(hangs));
        lemma_leaf_hung(mid, after, p, label, v, hangs);
        assert(chunk_closed(mid.insert(v.key(), hangs), hangs));
        lemma_grown_keeps(mid, after, p, label, v, hangs);
        assert forall|k: u128, l: Label| after.contains_key(k) implies (#[trigger] after[k].children_under(
            l,
        )) == (if k == v.key() {
            Seq::<ChunkId>::empty()
        } else if k == p.key() && l == label {
            mid[k].children_under(l).push(v)
        } else {
            mid[k].children_under(l)
        }) && (k != v.key() ==> mid.contains_key(k)) by {
            lemma_leaf_children(mid, after, p, label, v, hangs, k, l);
        }
        let stored = mid.insert(v.key(), hangs);
        assert(stored.contains_key(p.key()) && stored[p.key()] is Indirect);
        assert forall|k: u128| k != p.key() && stored.contains_key(k) implies after[k]
            == stored[k] by {}
        assert(after[p.key()] is Indirect);
        assert(nodes_stored(after, nodes)) by {
            assert forall|j: int| 0 <= j < nodes.len() implies after.contains_key(
                (#[trigger] nodes[j]).0,
            ) && after[nodes[j].0] is Indirect by {
                assert(mid.contains_key(nodes[j].0) && mid[nodes[j].0] is Indirect);
                assert(after.dom().contains(nodes[j].0));
                assert(ids[last].key() != nodes[j].0);
            }
        }
        assert(chunks_stored(after, ids, schema@)) by {
            assert forall|i: int| 0 <= i < ids.len() implies {
                &&& after.contains_key((#[trigger] ids[i]).key())
                &&& after[ids[i].key()] matches Chunk::Uniform(u)
                &&& u.wf()
                &&& u.fits_at(ids[i].0)
                &&& u.schema@ == schema@
            } by {
                assert(ids[i].key() != p.key()) by {
                    assert(ids[i].key() != nodes[parent].0);
                }
                if i < last {
                    assert(front[i] == ids[i]);
                    assert(mid.contains_key(front[i].key()));
                    assert(after.dom().contains(ids[i].key()));
                    assert(ids[i] == ChunkId::of(ids[i].key()));
                    assert(ids[i] != ids[last]);
                    assert(stored.contains_key(ids[i].key()));
                    assert(after[ids[i].key()] == mid[ids[i].key()]);
                } else {
                    assert(after.dom().contains(v.key()));
                    assert(stored.contains_key(v.key()));
                    assert(after[v.key()] == hangs);
                }
            }
        }
        assert(only_these(after, nodes, ids)) by {
            assert forall|k: u128| after.contains_key(k) implies (exists|j: int|
                0 <= j < nodes.len() && (#[trigger] nodes[j]).0 == k) || (exists|i: int|
                0 <= i < ids.len() && (#[trigger] ids[i]).key() == k) by {
                assert(after.dom().contains(k));
                if k == v.key() {
                    assert(ids[last].key() == k);
                } else {
                    assert(mid.contains_key(k));
                    if !(exists|j: int| 0 <= j < nodes.len() && (#[trigger] nodes[j]).0 == k) {
                        let i = choose|i: int|
                            0 <= i < front.len() && (#[trigger] front[i]).key() == k;
                        assert(ids[i].key() == k);
                    }
                }
            }
        }
        assert(kids_known(after, nodes, ids)) by {
            assert forall|k: u128, l: Label, i: int|
                #![trigger after[k].children_under(l)[i]]
                after.contains_key(k) && 0 <= i < after[k].children_under(l).len() implies (exists|
                m: int,
                j: int,
            |
                #![trigger nodes[m], nodes[j]]
                0 <= m < j < nodes.len() && nodes[m].0 == k && after[k].children_under(l)[i]
                    == ChunkId(nodes[j])) || (exists|m: int, c: int|
                #![trigger nodes[m], ids[c]]
                0 <= m < nodes.len() && nodes[m].0 == k && 0 <= c < ids.len()
                    && after[k].children_under(l)[i] == ids[c]) by {
                let list = after[k].children_under(l);
                if k == p.key() && l == label && i == list.len() - 1 {
                    assert(nodes[parent].0 == k && list[i] == ids[last]);
                } else {
                    assert(list[i] == mid[k].children_under(l)[i]);
                    if exists|m: int, j: int|
                        #![trigger nodes[m], nodes[j]]
                        0 <= m < j < nodes.len() && nodes[m].0 == k && mid[k].children_under(l)[i]
                            == ChunkId(nodes[j]) {
                        let (m, j) = choose|m: int, j: int|
                            #![trigger nodes[m], nodes[j]]
                            0 <= m < j < nodes.len() && nodes[m].0 == k && mid[k].children_under(
                                l,
                            )[i] == ChunkId(nodes[j]);
                    } else {
                        let (m, c) = choose|m: int, c: int|
                            #![trigger nodes[m], front[c]]
                            0 <= m < nodes.len() && nodes[m].0 == k && 0 <= c < front.len()
                                && mid[k].children_under(l)[i] == front[c];
                        assert(nodes[m].0 == k && ids[c] == front[c]);
                    }
                }
            }
        }
        assert(parents_come_earlier(after, nodes)) by {
            assert forall|j: int| #![trigger nodes[j]] 1 <= j < nodes.len() implies exists|
                m: int,
                l: Label,
                i: int,
            |
                #![trigger after[nodes[m].0].children_under(l)[i]]
                0 <= m < j && 0 <= i < after[nodes[m].0].children_under(l).len()
                    && after[nodes[m].0].children_under(l)[i] == ChunkId(nodes[j]) by {
                let (m, l, i) = choose|m: int, l: Label, i: int|
                    #![trigger mid[nodes[m].0].children_under(l)[i]]
                    0 <= m < j && 0 <= i < mid[nodes[m].0].children_under(l).len()
                        && mid[nodes[m].0].children_under(l)[i] == ChunkId(nodes[j]);
                assert(after.contains_key(nodes[m].0));
                assert(after[nodes[m].0].children_under(l)[i] == ChunkId(nodes[j]));
            }
        }
        assert(chunks_hang(after, nodes, ids)) by {
            assert forall|c: int| #![trigger ids[c]] 0 <= c < ids.len() implies exists|
                m: int,
                l: Label,
                i: int,
            |
                #![trigger after[nodes[m].0].children_under(l)[i]]
                0 <= m < nodes.len() && 0 <= i < after[nodes[m].0].children_under(l).len()
                    && after[nodes[m].0].children_under(l)[i] == ids[c] by {
                if c == last {
                    let list = after[nodes[parent].0].children_under(label);
                    assert(after.contains_key(nodes[parent].0));
                    assert(list[list.len() - 1] == ids[c]);
                } else {
                    assert(front[c] == ids[c]);
                    let (m, l, i) = choose|m: int, l: Label, i: int|
                        #![trigger mid[nodes[m].0].children_under(l)[i]]
                        0 <= m < nodes.len() && 0 <= i < mid[nodes[m].0].children_under(l).len()
                            && mid[nodes[m].0].children_under(l)[i] == front[c];
                    assert(after.contains_key(nodes[m].0));
                    assert(after[nodes[m].0].children_under(l)[i] == ids[c]);
                }
            }
        }
    }
}

/// A tree of that shape is a forest of valid chunks.
pub proof fn lemma_mixed_valid(
    chunks: Map<u128, Chunk>,
    nodes: Seq<NodeId>,
    ids: Seq<ChunkId>,
    s: SchemaModel,
)
    requires
        nodes_stored(chunks, nodes),
        chunks_stored(chunks, ids, s),
        only_these(chunks, nodes, ids),
    ensures
        chunks_valid(chunks),
{
    assert forall|k: u128| chunks.contains_key(k) implies (#[trigger] chunks[k]).valid_at(
        NodeId(k),
    ) by {
        if exists|j: int| 0 <= j < nodes.len() && (#[trigger] nodes[j]).0 == k {
            let j = choose|j: int| 0 <= j < nodes.len() && (#[trigger] nodes[j]).0 == k;
            assert(chunks[nodes[j].0] is Indirect);
        } else {
            let i = choose|i: int| 0 <= i < ids.len() && (#[trigger] ids[i]).key() == k;
            assert(ids[i].0 == NodeId(k));
        }
    }
}

/// What a child of a node of such a tree is: the number of a later node,
/// or else the number of a chunk and of one of its top level nodes.
pub enum Kid {
    Later(int),
    Top(int, int),
}

/// Every child of a node of such a tree is a node that comes later, or a
/// top level node of one of the chunks.
pub proof fn lemma_mixed_kid(
    chunks: Map<u128, Chunk>,
    nodes: Seq<NodeId>,
    ids: Seq<ChunkId>,
    s: SchemaModel,
    j: int,
    l: Label,
    i: int,
) -> (kid: Kid)
    requires
        nodes.no_duplicates(),
        nodes_stored(chunks, nodes),
        chunks_stored(chunks, ids, s),
        kids_known(chunks, nodes, ids),
        0 <= j < nodes.len(),
        0 <= i < tree_kids(chunks)(single(chunks, nodes[j]), l).len(),
    ensures
        match kid {
            Kid::Later(later) => {
                &&& j < later < nodes.len()
                &&& tree_kids(chunks)(single(chunks, nodes[j]), l)[i] == single(
                    chunks,
                    nodes[later],
                )
            },
            Kid::Top(c, b) => {
                &&& 0 <= c < ids.len()
                &&& chunks[ids[c].key()] matches Chunk::Uniform(u)
                &&& 0 <= b < u.top_level(ids[c].0).len()
                &&& tree_kids(chunks)(single(chunks, nodes[j]), l)[i] == NodeModel::Uniform(
                    u.top_level(ids[c].0)[b],
                )
            },
        },
{
    let x = single(chunks, nodes[j]);
    let k = nodes[j].0;
    let children = x.children(l);
    lemma_place(chunks, children, i);
    let (a, b) = place(chunks, children, i);
    assert(chunks.contains_key(k) && chunks[k] is Indirect);
    let child = chunks[k].children_under(l)[a];
    assert(children[a] == ChildModel::Edge(child));
    if exists|m: int, later: int|
        #![trigger nodes[m], nodes[later]]
        0 <= m < later < nodes.len() && nodes[m].0 == k && chunks[k].children_under(l)[a]
            == ChunkId(nodes[later]) {
        let (m, later) = choose|m: int, later: int|
            #![trigger nodes[m], nodes[later]]
            0 <= m < later < nodes.len() && nodes[m].0 == k && chunks[k].children_under(l)[a]
                == ChunkId(nodes[later]);
        assert(nodes[m] == nodes[j]);
        assert(chunks.contains_key(nodes[later].0));
        assert(chunks[nodes[later].0] is Indirect);
        assert(expansion(chunks, children[a]).len() == 1);
        Kid::Later(later)
    } else {
        let (m, c) = choose|m: int, c: int|
            #![trigger nodes[m], ids[c]]
            0 <= m < nodes.len() && nodes[m].0 == k && 0 <= c < ids.len()
                && chunks[k].children_under(l)[a] == ids[c];
        assert(chunks.contains_key(ids[c].key()));
        Kid::Top(c, b)
    }
}

/// Below node number `j` of such a tree lie no more levels than nodes come
/// after it, and one for a chunk, and the levels of the shape of the
/// chunks.
pub proof fn lemma_mixed_depth(
    chunks: Map<u128, Chunk>,
    nodes: Seq<NodeId>,
    ids: Seq<ChunkId>,
    s: SchemaModel,
    j: int,
)
    requires
        nodes.no_duplicates(),
        nodes_stored(chunks, nodes),
        chunks_stored(chunks, ids, s),
        kids_known(chunks, nodes, ids),
        0 <= j < nodes.len(),
    ensures
        within_depth(
            tree_kids(chunks),
            any_node(),
            single(chunks, nodes[j]),
            (nodes.len() - j + s.levels()) as nat,
        ),
    decreases nodes.len() - j, 1nat,
{
    let kids = tree_kids(chunks);
    let x = single(chunks, nodes[j]);
    assert forall|label: Label| #![trigger kids(x, label)]
        all_within(kids, any_node(), kids(x, label), (nodes.len() - j + s.levels()) as nat) by {
        lemma_mixed_depth_under(chunks, nodes, ids, s, j, label);
    }
}

/// The children of node number `j` of such a tree, under any label, have
/// one level less below them.
proof fn lemma_mixed_depth_under(
    chunks: Map<u128, Chunk>,
    nodes: Seq<NodeId>,
    ids: Seq<ChunkId>,
    s: SchemaModel,
    j: int,
    label: Label,
)
    requires
        nodes.no_duplicates(),
        nodes_stored(chunks, nodes),
        chunks_stored(chunks, ids, s),
        kids_known(chunks, nodes, ids),
        0 <= j < nodes.len(),
    ensures
        all_within(
            tree_kids(chunks),
            any_node(),
            tree_kids(chunks)(single(chunks, nodes[j]), label),
            (nodes.len() - j + s.levels()) as nat,
        ),
    decreases nodes.len() - j, 0nat,
{
    let kids = tree_kids(chunks);
    let below = tree_kids(chunks)(single(chunks, nodes[j]), label);
    let depth = (nodes.len() - j + s.levels()) as nat;
    assert(depth > 0);
    assert forall|i: int| #![trigger below[i]] 0 <= i < below.len() implies depth > 0
        && within_depth(kids, any_node(), below[i], (depth - 1) as nat) by {
        match lemma_mixed_kid(chunks, nodes, ids, s, j, label, i) {
            Kid::Later(later) => {
                lemma_mixed_depth(chunks, nodes, ids, s, later);
                lemma_within_more(
                    kids,
                    any_node(),
                    below[i],
                    (nodes.len() - later + s.levels()) as nat,
                    (depth - 1) as nat,
                );
            },
            Kid::Top(c, b) => {
                let u = chunks[ids[c].key()]->Uniform_0;
                let top = u.top_level(ids[c].0)[b];
                assert(top.schema == s);
                lemma_uniform_depth(chunks, top, s.levels());
                lemma_within_more(
                    kids,
                    any_node(),
                    below[i],
                    s.levels(),
                    (depth - 1) as nat,
                );
            },
        }
    }
}

/// Every top level node of a chunk of such a tree lies below the first
/// node.
pub proof fn lemma_top_reached(
    chunks: Map<u128, Chunk>,
    nodes: Seq<NodeId>,
    ids: Seq<ChunkId>,
    s: SchemaModel,
    c: int,
    b: int,
) -> (e: nat)
    requires
        nodes_stored(chunks, nodes),
        chunks_stored(chunks, ids, s),
        parents_come_earlier(chunks, nodes),
        chunks_hang(chunks, nodes, ids),
        family(chunks).tree_like(),
        0 <= c < ids.len(),
        0 <= b < s.node_count,
    ensures
        family(chunks).reaches(
            single(chunks, nodes[0]),
            e,
            ids[c].key() + b * s.id_stride,
        ),
{
    let fam = family(chunks);
    let root = single(chunks, nodes[0]);
    let u = chunks[ids[c].key()]->Uniform_0;
    let held = chunks[ids[c].key()];
    assert(held == Chunk::Uniform(u));
    let (m, l, i) = choose|m: int, l: Label, i: int|
        #![trigger chunks[nodes[m].0].children_under(l)[i]]
        0 <= m < nodes.len() && 0 <= i < chunks[nodes[m].0].children_under(l).len()
            && chunks[nodes[m].0].children_under(l)[i] == ids[c];
    lemma_grown_reached(chunks, nodes, m);
    lemma_single_belongs(chunks, nodes, 0);
    lemma_single_belongs(chunks, nodes, m);
    let p = single(chunks, nodes[m]);
    let edges = p.children(l);
    assert(chunks.contains_key(nodes[m].0) && chunks[nodes[m].0] is Indirect);
    assert(edges[i] == ChildModel::Edge(ids[c]));
    held.lemma_top_level(ids[c].0, b);
    let top = held.top_level(ids[c].0)[b];
    assert(expansion(chunks, edges[i])[b] == top);
    assert(expansion(chunks, edges[i]).contains(top));
    lemma_expand_all_contains(chunks, edges, i, top);
    let below = tree_kids(chunks)(p, l);
    assert(below.contains(top));
    let at = choose|at: int| 0 <= at < below.len() && #[trigger] below[at] == top;
    fam.lemma_reaches_child(root, m as nat, p, l, at);
    assert(ids[c].0.0 == ids[c].key());
    (m + 1) as nat
}

/// Every node of a chunk of such a tree lies below the first node.
pub proof fn lemma_inner_reached(
    chunks: Map<u128, Chunk>,
    nodes: Seq<NodeId>,
    ids: Seq<ChunkId>,
    s: SchemaModel,
    c: int,
    o: int,
) -> (e: nat)
    requires
        nodes_stored(chunks, nodes),
        chunks_stored(chunks, ids, s),
        parents_come_earlier(chunks, nodes),
        chunks_hang(chunks, nodes, ids),
        family(chunks).tree_like(),
        chunks_valid(chunks),
        no_overlap(chunks),
        0 <= c < ids.len(),
        s.node_at(o) is Some,
    ensures
        family(chunks).reaches(single(chunks, nodes[0]), e, ids[c].key() + o),
    decreases o,
{
    let fam = family(chunks);
    let root = single(chunks, nodes[0]);
    let k = ids[c].key();
    let first = ids[c].0;
    assert(first == NodeId(k));
    let u = chunks[k]->Uniform_0;
    assert(chunks[k] == Chunk::Uniform(u));
    let stride = s.id_stride as int;
    let found = s.node_at(o)->0;
    s.lemma_node_at_inside(o);
    lemma_stride_position(o, stride, s.node_count as int);
    assert(found.schema.id_stride >= 1);
    let id = NodeId((k + o) as u128);
    assert(id.0 == k + o);
    match found.parent {
        None => {
            if o % stride != 0 {
                s.lemma_located_inside(o % stride, 0);
            }
            let b = o / stride;
            assert(b * stride == o) by (nonlinear_arith)
                requires
                    o == stride * b + o % stride,
                    o % stride == 0,
            ;
            lemma_top_reached(chunks, nodes, ids, s, c, b)
        },
        Some((p, label)) => {
            u.lemma_parent_has_child(first, id);
            let before = lemma_inner_reached(chunks, nodes, ids, s, c, p);
            let parent_id = NodeId((k + p) as u128);
            let parent = u.node_at(first, parent_id)->0;
            let above = NodeModel::Uniform(parent);
            lemma_owner_is_candidate(chunks, k, parent_id);
            assert(belongs(chunks, above));
            lemma_single_belongs(chunks, nodes, 0);
            let inline = above.children(label);
            lemma_expand_inline(chunks, inline);
            let below = tree_kids(chunks)(above, label);
            assert(below[found.index] == NodeModel::Uniform(parent.children(label)[found.index]));
            fam.lemma_reaches_child(root, before, above, label, found.index);
            (before + 1) as nat
        },
    }
}

/// Whether the chunk stored under `id` has a node at the id `t`.
pub open spec fn in_chunk(chunks: Map<u128, Chunk>, id: ChunkId) -> spec_fn(int) -> bool {
    |t: int| id.key() <= t && chunks[id.key()].node_at(id.0, NodeId(t as u128)) is Some
}

/// Whether `t` is the id of one of the nodes, or of a node of one of the
/// first `c` chunks.
pub open spec fn found(
    chunks: Map<u128, Chunk>,
    nodes: Seq<NodeId>,
    ids: Seq<ChunkId>,
    c: int,
) -> spec_fn(int) -> bool {
    |t: int|
        among(numbers(nodes), nodes.len() as int)(t) || exists|i: int|
            #![trigger ids[i]]
            0 <= i < c && i < ids.len() && in_chunk(chunks, ids[i])(t)
}

/// A uniform chunk has a node at as many ids as its shape has nodes.
pub proof fn lemma_count_in_chunk(chunks: Map<u128, Chunk>, id: ChunkId, u: UniformChunk)
    requires
        chunks[id.key()] == Chunk::Uniform(u),
        u.wf(),
        u.fits_at(id.0),
    ensures
        count_used(in_chunk(chunks, id), 0, label_count() as int) == u.schema@.chunk_size(),
{
    let n = label_count() as int;
    let k = id.key() as int;
    let s = u.schema@;
    let span = s.id_span();
    let here = in_chunk(chunks, id);
    let inside = u.found_at(id.0);
    assert(id.0.0 == id.key());
    assert(0 <= span) by (nonlinear_arith)
        requires
            span == s.id_stride * s.node_count,
    ;
    lemma_count_split(here, 0, k, n);
    lemma_count_split(here, k, k + span, n);
    assert forall|t: int| 0 <= t < k implies !#[trigger] here(t) by {}
    lemma_count_none(here, 0, k);
    assert forall|t: int| k + span <= t < n implies !#[trigger] here(t) by {}
    lemma_count_none(here, k + span, n);
    assert forall|t: int| k <= t < k + span implies #[trigger] here(t) == inside(t + (-k)) by {}
    lemma_count_shift(here, inside, k, k + span, -k);
    u.lemma_ids_found(id.0);
}

/// The ids of the nodes and of the nodes of the first `c` chunks count
/// each for one.
pub proof fn lemma_count_found(
    chunks: Map<u128, Chunk>,
    nodes: Seq<NodeId>,
    ids: Seq<ChunkId>,
    s: SchemaModel,
    c: int,
)
    requires
        apart(nodes, ids),
        nodes_stored(chunks, nodes),
        chunks_stored(chunks, ids, s),
        chunks_valid(chunks),
        no_overlap(chunks),
        0 <= c <= ids.len(),
    ensures
        count_used(found(chunks, nodes, ids, c), 0, label_count() as int) == nodes.len() + c
            * s.chunk_size(),
    decreases c,
{
    let n = label_count() as int;
    let r = found(chunks, nodes, ids, c);
    let numbered = numbers(nodes);
    let listed = among(numbered, nodes.len() as int);
    if c == 0 {
        assert(numbered.no_duplicates()) by {
            assert forall|i: int, j: int|
                0 <= i < numbered.len() && 0 <= j < numbered.len() && i != j implies numbered[i]
                != numbered[j] by {
                assert(nodes[i] != nodes[j]);
            }
        }
        assert forall|t: int| 0 <= t < n implies #[trigger] r(t) == listed(t + 0) by {}
        lemma_count_shift(r, listed, 0, n, 0);
        lemma_count_among(numbered, nodes.len() as int, n);
        assert(0 * s.chunk_size() == 0) by (nonlinear_arith);
    } else {
        let last = c - 1;
        let p = found(chunks, nodes, ids, last);
        let q = in_chunk(chunks, ids[last]);
        let k = ids[last].key();
        let u = chunks[k]->Uniform_0;
        assert(chunks[k] == Chunk::Uniform(u));
        lemma_count_found(chunks, nodes, ids, s, last);
        lemma_count_in_chunk(chunks, ids[last], u);
        assert forall|t: int| 0 <= t < n implies #[trigger] r(t) == (p(t) || q(t)) by {
            if r(t) && !listed(t) {
                let i = choose|i: int|
                    #![trigger ids[i]]
                    0 <= i < c && i < ids.len() && in_chunk(chunks, ids[i])(t);
                if i < last {
                    assert(p(t));
                }
            }
            if p(t) && !listed(t) {
                let i = choose|i: int|
                    #![trigger ids[i]]
                    0 <= i < last && i < ids.len() && in_chunk(chunks, ids[i])(t);
                assert(r(t));
            }
            if q(t) {
                assert(in_chunk(chunks, ids[last])(t));
                assert(r(t));
            }
        }
        assert forall|t: int| 0 <= t < n implies !(#[trigger] p(t) && q(t)) by {
            if p(t) && q(t) {
                let at = NodeId(t as u128);
                assert(ids[last].0 == NodeId(k));
                lemma_owner_is_candidate(chunks, k, at);
                lemma_candidate_unique(chunks, at.0, k);
                if listed(t) {
                    let j = choose|j: int|
                        0 <= j < nodes.len() && j < numbered.len() && #[trigger] numbered[j] == t;
                    assert(nodes[j].0 == at.0);
                    assert(chunks.contains_key(nodes[j].0) && chunks[nodes[j].0] is Indirect);
                    lemma_owner_is_candidate(chunks, at.0, at);
                    lemma_candidate_unique(chunks, at.0, at.0);
                    assert(ids[last].key() != nodes[j].0);
                } else {
                    let i = choose|i: int|
                        #![trigger ids[i]]
                        0 <= i < last && i < ids.len() && in_chunk(chunks, ids[i])(t);
                    assert(ids[i].0 == NodeId(ids[i].key()));
                    lemma_owner_is_candidate(chunks, ids[i].key(), at);
                    lemma_candidate_unique(chunks, at.0, ids[i].key());
                    assert(ids[i] == ChunkId::of(ids[i].key()));
                    assert(ids[last] == ChunkId::of(k));
                    assert(ids[i] != ids[last]);
                }
            }
        }
        lemma_count_either(p, q, r, 0, n);
        assert(nodes.len() + last * s.chunk_size() + s.chunk_size() == nodes.len() + c
            * s.chunk_size()) by (nonlinear_arith)
            requires
                c == last + 1,
        ;
    }
}

/// A walk from the root of a tree grown from single nodes and hung with
/// uniform chunks, under ids that all differ and in ranges that do not
/// meet, counts every node: the single nodes, and for each chunk as many
/// nodes as its shape has.
pub proof fn lemma_hung_count(
    base: Map<u128, Chunk>,
    after: Map<u128, Chunk>,
    nodes: Seq<NodeId>,
    label: Label,
    def: Def,
    schema: &RootChunkSchema,
    bytes: Seq<u8>,
    ids: Seq<ChunkId>,
    depth: nat,
)
    requires
        nodes_added(base, nodes, label, def),
        hung(base, after, nodes, label, schema, bytes, ids),
        apart(nodes, ids),
        no_overlap(after),
        depth >= nodes.len() + schema@.levels(),
    ensures
        belongs(after, single(after, nodes[0])),
        nodes_in(tree_kids(after), single(after, nodes[0]), depth) == nodes.len() + ids.len()
            * schema@.chunk_size(),
{
    let s = schema@;
    let fam = family(after);
    let root = single(after, nodes[0]);
    let n = label_count() as int;
    lemma_mixed(base, after, nodes, label, def, schema, bytes, ids);
    lemma_mixed_valid(after, nodes, ids, s);
    lemma_single_belongs(after, nodes, 0);
    lemma_mixed_depth(after, nodes, ids, s, 0);
    lemma_within_more(tree_kids(after), any_node(), root, (nodes.len() + s.levels()) as nat, depth);
    lemma_walk_visits_once(after, root, depth);
    lemma_forest_is_tree(after);
    let reached = fam.below(root, depth);
    let all = found(after, nodes, ids, ids.len() as int);
    let numbered = numbers(nodes);
    assert forall|t: int| 0 <= t < n implies #[trigger] reached(t) == all(t + 0) by {
        if reached(t) {
            let y = fam.lemma_reached_is_node(root, depth, t);
            lemma_belongs(after, y);
            let k = choose|k: u128| is_candidate(after, y.id().0, k);
            if exists|j: int| 0 <= j < nodes.len() && (#[trigger] nodes[j]).0 == k {
                let j = choose|j: int| 0 <= j < nodes.len() && (#[trigger] nodes[j]).0 == k;
                assert(after[nodes[j].0] is Indirect);
                assert(k == y.id().0);
                assert(numbered[j] == t);
            } else {
                let i = choose|i: int| 0 <= i < ids.len() && (#[trigger] ids[i]).key() == k;
                assert(ids[i].0 == NodeId(k));
                assert(y.id() == NodeId(t as u128));
                assert(in_chunk(after, ids[i])(t));
            }
        }
        if all(t) {
            if among(numbered, nodes.len() as int)(t) {
                let j = choose|j: int|
                    0 <= j < nodes.len() && j < numbered.len() && #[trigger] numbered[j] == t;
                lemma_grown_reached(after, nodes, j);
                fam.lemma_reaches_within(any_node(), root, depth, j as nat, t);
            } else {
                let i = choose|i: int|
                    #![trigger ids[i]]
                    0 <= i < ids.len() && i < ids.len() && in_chunk(after, ids[i])(t);
                let k = ids[i].key();
                assert(ids[i].0 == NodeId(k));
                let u = after[k]->Uniform_0;
                assert(after[k] == Chunk::Uniform(u));
                assert(s.node_at(t - k) is Some);
                let e = lemma_inner_reached(after, nodes, ids, s, i, t - k);
                fam.lemma_reaches_within(any_node(), root, depth, e, t);
            }
        }
    }
    lemma_count_shift(reached, all, 0, n, 0);
    lemma_count_found(after, nodes, ids, s, ids.len() as int);
}

/// The ids of the nodes, and after them those of the chunks.
pub open spec fn keys(nodes: Seq<NodeId>, ids: Seq<ChunkId>) -> Seq<u128> {
    Seq::new(
        nodes.len() + ids.len(),
        |j: int|
            if j < nodes.len() {
                nodes[j].0
            } else {
                ids[j - nodes.len()].key()
            },
    )
}

/// A tree grown from single nodes and hung with chunks holds a chunk under
/// the id of each node and of each chunk, and under no other.
pub proof fn lemma_hung_keys(
    base: Map<u128, Chunk>,
    after: Map<u128, Chunk>,
    nodes: Seq<NodeId>,
    label: Label,
    def: Def,
    schema: &RootChunkSchema,
    bytes: Seq<u8>,
    ids: Seq<ChunkId>,
)
    requires
        nodes_added(base, nodes, label, def),
        hung(base, after, nodes, label, schema, bytes, ids),
    ensures
        after.dom() == keys(nodes, ids).to_set(),
    decreases ids.len(),
{
    let all = keys(nodes, ids);
    if ids.len() == 0 {
        lemma_nodes_added_keeps(base, nodes, label, def);
        assert forall|k: u128| after.dom().contains(k) <==> all.to_set().contains(k) by {
            if after.dom().contains(k) {
                assert(after.contains_key(k));
                let j = choose|j: int| 0 <= j < nodes.len() && (#[trigger] nodes[j]).0 == k;
                assert(all[j] == k);
            }
            if all.to_set().contains(k) {
                let j = choose|j: int| 0 <= j < all.len() && all[j] == k;
                assert(after.contains_key(nodes[j].0));
            }
        }
        assert(after.dom() =~= all.to_set());
    } else {
        let (mid, parent, chunk) = choose|mid: Map<u128, Chunk>, parent: int, chunk: UniformChunk|
            {
                &&& hung(base, mid, nodes, label, schema, bytes, ids.drop_last())
                &&& 0 <= parent < nodes.len()
                &&& *chunk.schema == *schema
                &&& vector_bytes(&chunk.data) == bytes
                &&& chunk.wf()
                &&& chunk.fits_at(ids.last().0)
                &&& #[trigger] grown(
                    mid,
                    after,
                    ChunkId(nodes[parent]),
                    label,
                    ids.last(),
                    Chunk::Uniform(chunk),
                )
            };
        let front = ids.drop_last();
        let fewer = keys(nodes, front);
        let v = ids.last();
        let hangs = Chunk::Uniform(chunk);
        lemma_hung_keys(base, mid, nodes, label, def, schema, bytes, front);
        assert(chunk_closed(mid.insert(v.key(), hangs), hangs));
        assert(v == ChunkId(v.0));
        lemma_grown_keeps(mid, after, ChunkId(nodes[parent]), label, v, hangs);
        assert forall|k: u128| after.dom().contains(k) <==> all.to_set().contains(k) by {
            if after.dom().contains(k) {
                if k == v.key() {
                    assert(all[all.len() - 1] == k);
                } else {
                    assert(fewer.to_set().contains(k));
                    let j = choose|j: int| 0 <= j < fewer.len() && fewer[j] == k;
                    if j >= nodes.len() {
                        assert(front[j - nodes.len()] == ids[j - nodes.len()]);
                    }
                    assert(all[j] == k);
                }
            }
            if all.to_set().contains(k) {
                let j = choose|j: int| 0 <= j < all.len() && all[j] == k;
                if j < all.len() - 1 {
                    if j >= nodes.len() {
                        assert(front[j - nodes.len()] == ids[j - nodes.len()]);
                    }
                    assert(fewer[j] == k);
                    assert(fewer.to_set().contains(k));
                }
            }
        }
        assert(after.dom() =~= all.to_set());
    }
}

/// Where a tree holds as many chunks as nodes and chunks were asked for, no
/// id was drawn twice.
pub proof fn lemma_keys_apart(nodes: Seq<NodeId>, ids: Seq<ChunkId>)
    requires
        keys(nodes, ids).to_set().len() == nodes.len() + ids.len(),
    ensures
        apart(nodes, ids),
{
    let all = keys(nodes, ids);
    all.lemma_no_dup_set_cardinality();
    assert forall|i: int, j: int|
        0 <= i < nodes.len() && 0 <= j < nodes.len() && i != j implies nodes[i] != nodes[j] by {
        assert(all[i] != all[j]);
    }
    assert forall|i: int, j: int|
        0 <= i < ids.len() && 0 <= j < ids.len() && i != j implies ids[i] != ids[j] by {
        assert(all[nodes.len() + i] != all[nodes.len() + j]);
    }
    assert forall|i: int, j: int| 0 <= i < ids.len() && 0 <= j < nodes.len() implies (
    #[trigger] ids[i]).key() != (#[trigger] nodes[j]).0 by {
        assert(all[nodes.len() + i] != all[j]);
    }
}

/// A walk from the root of a tree that was built counts the single nodes
/// and, for each uniform chunk, as many nodes as the shape of the chunks
/// has, where no id was drawn twice and no two chunks overlap: where the
/// tree holds as many chunks as nodes and chunks were asked for.
pub proof fn lemma_built_count(
    after: Map<u128, Chunk>,
    root: NodeId,
    size: nat,
    chunks: nat,
    shape: SchemaModel,
    depth: nat,
)
    requires
        built(after, root, size, chunks),
        no_overlap(after),
        after.dom().len() == (if size == 0 {
            1
        } else {
            size
        }) + chunks,
        chunks > 0 ==> exists|k: u128|
            after.contains_key(k) && (#[trigger] after[k] matches Chunk::Uniform(u) && u.schema@
                == shape),
        depth >= (if size == 0 {
            1
        } else {
            size
        }) + shape.levels(),
    ensures
        belongs(after, single(after, root)),
        nodes_in(tree_kids(after), single(after, root), depth) == (if size == 0 {
            1
        } else {
            size
        }) + chunks * shape.chunk_size(),
{
    let (base, nodes, label, def) = choose|
        base: Map<u128, Chunk>,
        nodes: Seq<NodeId>,
        label: Label,
        def: Def,
    |
        {
            &&& #[trigger] nodes_added(base, nodes, label, def)
            &&& nodes[0] == root
            &&& nodes.len() == if size == 0 {
                1
            } else {
                size
            }
            &&& after == base || (chunks > 0 && exists|schema: RootChunkSchema, bytes: Seq<u8>|
                #[trigger] chunks_added(base, after, nodes, label, &schema, bytes, chunks))
        };
    lemma_nodes_added_keeps(base, nodes, label, def);
    if chunks > 0 && after == base {
        // Fewer chunks are stored than were asked for.
        assert(false);
    }
    if chunks == 0 {
        let none = Seq::<ChunkId>::empty();
        let schema: RootChunkSchema = arbitrary();
        let bytes = Seq::<u8>::empty();
        assert(hung(base, after, nodes, label, &schema, bytes, none));
        lemma_hung_keys(base, after, nodes, label, def, &schema, bytes, none);
        lemma_keys_apart(nodes, none);
        lemma_grown_count(after, nodes, label, def, depth);
        assert(0 * shape.chunk_size() == 0) by (nonlinear_arith);
    } else {
        let (schema, bytes) = choose|schema: RootChunkSchema, bytes: Seq<u8>| #[trigger]
            chunks_added(base, after, nodes, label, &schema, bytes, chunks);
        let ids = lemma_hung_exists(base, after, nodes, label, &schema, bytes, chunks);
        lemma_hung_keys(base, after, nodes, label, def, &schema, bytes, ids);
        lemma_keys_apart(nodes, ids);
        lemma_mixed(base, after, nodes, label, def, &schema, bytes, ids);
        let k = choose|k: u128|
            after.contains_key(k) && (#[trigger] after[k] matches Chunk::Uniform(u) && u.schema@
                == shape);
        assert(schema@ == shape) by {
            if exists|j: int| 0 <= j < nodes.len() && (#[trigger] nodes[j]).0 == k {
                let j = choose|j: int| 0 <= j < nodes.len() && (#[trigger] nodes[j]).0 == k;
                assert(after[nodes[j].0] is Indirect);
            } else {
                let i = choose|i: int| 0 <= i < ids.len() && (#[trigger] ids[i]).key() == k;
            }
        }
        lemma_hung_count(base, after, nodes, label, def, &schema, bytes, ids, depth);
    }
}

} // verus!
