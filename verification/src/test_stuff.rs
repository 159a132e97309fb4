//! Walks that count the nodes of a tree, and trees to try them on.

use std::rc::Rc;
use rand::Rng;
use vstd::prelude::*;
use crate::chunk::ChunkId;
use crate::counting::{
    all_within, lemma_nodes_in_all_take, lemma_nodes_in_any_order, lemma_sum_over_take, nodes_in,
    nodes_in_all, sum_over, under, walk_result, within_depth,
};
use crate::enum_chunk::{ChildModel, Chunk, NodeModel};
use crate::forest::{chunks_valid, Forest};
use crate::indirect_nav::{chunk_closed, closed, expand_all, expansion, lemma_closed_resolves};
use crate::indirect_node::IndirectChunk;
use crate::nav::Nav;
use crate::node_id::{IdOffset, NodeId};
use crate::tree::{Def, Label};
use crate::schema::{ChunkSchema, OffsetSchema, RootChunkSchema};
use crate::uniform_chunk::{UniformChunk, UniformChunkNode, UniformNodeModel};
use crate::util::{bytes_from, vector_bytes};

verus! {

/// Number of nodes that each chunk of the shape used by `big_tree` puts
/// under one top level node, that node included.
pub const PER_CHUNK_ITEM: usize = 5;

/// Counts the nodes of the subtree of a node of a uniform chunk by walking
/// it: the count is what the schema says, whatever the bytes are. `None`
/// where there are more nodes than a `usize` can count.
pub fn walk_uniform(n: &UniformChunkNode<'_>) -> (r: Option<usize>)
    requires
        n.wf(),
    ensures
        match r {
            Some(count) => count == n@.schema.subtree_size(),
            None => n@.schema.subtree_size() > usize::MAX,
        },
    decreases n@.schema,
{
    let ghost s = n@.schema;
    let mut count: usize = 1;
    let labels = n.get_traits();
    let mut t: usize = 0;
    while t < labels.len()
        invariant
            t <= labels.len(),
            n.wf(),
            s == n@.schema,
            labels@ == s.labels(),
            labels.len() == s.traits.len(),
            count + s.traits_size(t as int) == s.subtree_size(),
        decreases labels.len() - t,
    {
        let ghost tr = s.traits[t as int];
        let ghost each = tr.schema.subtree_size();
        proof {
            s.lemma_trait_index(labels@[t as int], t as int);
            assert(s.traits_size(t as int) == (tr.schema.node_count as nat) * each + s.traits_size(
                t + 1,
            ));
        }
        let mut it = n.get_trait(labels[t]);
        let ghost mut j: int = 0;
        loop
            invariant_except_break
                0 <= j <= tr.schema.node_count,
                it.remaining().len() == tr.schema.node_count - j,
            invariant
                it.wf(),
                t < labels.len(),
                s == n@.schema,
                labels.len() == s.traits.len(),
                tr == s.traits[t as int],
                each == tr.schema.subtree_size(),
                forall|i: int|
                    0 <= i < it.remaining().len() ==> (#[trigger] it.remaining()[i]).schema
                        == tr.schema,
                count + (tr.schema.node_count - j) * each + s.traits_size(t + 1) == s.subtree_size(),
            ensures
                j == tr.schema.node_count,
            decreases tr.schema.node_count - j,
        {
            let ghost before = it.remaining();
            match it.next() {
                Some(child) => {
                    proof {
                        assert(child@.schema == tr.schema);
                        assert((tr.schema.node_count - j) * each == each + (tr.schema.node_count - j
                            - 1) * each) by (nonlinear_arith);
                        assert(0 <= (tr.schema.node_count - j - 1) * each) by (nonlinear_arith)
                            requires
                                0 <= tr.schema.node_count - j - 1,
                                0 <= each,
                        ;
                        assert forall|i: int| 0 <= i < before.skip(1).len() implies (
                        #[trigger] before.skip(1)[i]).schema == tr.schema by {
                            assert(before.skip(1)[i] == before[i + 1]);
                        }
                    }
                    let below = match walk_uniform(&child) {
                        Some(below) => below,
                        None => {
                            return None;
                        },
                    };
                    count = match count.checked_add(below) {
                        Some(sum) => sum,
                        None => {
                            return None;
                        },
                    };
                    proof {
                        j = j + 1;
                    }
                },
                None => {
                    break ;
                },
            }
        }
        assert((tr.schema.node_count - j) * each == 0) by (nonlinear_arith)
            requires
                j == tr.schema.node_count,
        ;
        t += 1;
    }
    Some(count)
}

/// Counts the nodes of a uniform chunk by walking it from each of its top
/// level nodes: `node_count` subtrees of the size that the schema says.
/// `None` where there are more nodes than a `usize` can count.
pub fn walk_chunk(chunk: &UniformChunk, first_id: NodeId) -> (r: Option<usize>)
    requires
        chunk.wf(),
        chunk.fits_at(first_id),
    ensures
        match r {
            Some(count) => count == chunk.schema@.chunk_size(),
            None => chunk.schema@.chunk_size() > usize::MAX,
        },
{
    let ghost s = chunk.schema@;
    let ghost each = s.subtree_size();
    let mut count: usize = 0;
    let mut it = chunk.top_level_nodes(first_id);
    let ghost mut j: int = 0;
    loop
        invariant_except_break
            0 <= j <= s.node_count,
            it.remaining().len() == s.node_count - j,
        invariant
            it.wf(),
            s == chunk.schema@,
            each == s.subtree_size(),
            forall|i: int|
                0 <= i < it.remaining().len() ==> (#[trigger] it.remaining()[i]).schema == s,
            count == j * each,
        ensures
            j == s.node_count,
        decreases s.node_count - j,
    {
        let ghost before = it.remaining();
        match it.next() {
            Some(top) => {
                proof {
                    assert(top@.schema == s);
                    assert((j + 1) * each == j * each + each && (j + 1) * each <= s.node_count
                        * each) by (nonlinear_arith)
                        requires
                            0 <= j < s.node_count,
                            0 <= each,
                    ;
                    assert forall|i: int| 0 <= i < before.skip(1).len() implies (
                    #[trigger] before.skip(1)[i]).schema == s by {
                        assert(before.skip(1)[i] == before[i + 1]);
                    }
                }
                let below = match walk_uniform(&top) {
                    Some(below) => below,
                    None => {
                        return None;
                    },
                };
                count = match count.checked_add(below) {
                    Some(sum) => sum,
                    None => {
                        return None;
                    },
                };
                proof {
                    j = j + 1;
                }
            },
            None => {
                break ;
            },
        }
    }
    Some(count)
}

/// The children that a node of a forest has under a label: the nodes that
/// `Nav::get_trait` hands out.
pub open spec fn tree_kids(chunks: Map<u128, Chunk>) -> spec_fn(NodeModel, Label) -> Seq<
    NodeModel,
> {
    |node: NodeModel, label: Label| expand_all(chunks, node.children(label))
}

/// Nothing is asked of the nodes of a tree.
pub open spec fn any_node() -> spec_fn(NodeModel) -> bool {
    |node: NodeModel| true
}

/// The chunks that a chunk of a forest refers to under a label.
pub open spec fn chunk_kids(chunks: Map<u128, Chunk>) -> spec_fn(ChunkId, Label) -> Seq<ChunkId> {
    |id: ChunkId, label: Label|
        if chunks.contains_key(id.key()) {
            chunks[id.key()].children_under(label)
        } else {
            Seq::empty()
        }
}

/// Whether a chunk is stored under the id.
pub open spec fn stored(chunks: Map<u128, Chunk>) -> spec_fn(ChunkId) -> bool {
    |id: ChunkId| chunks.contains_key(id.key())
}

/// Children that are nodes of the chunk of their parent stand for
/// themselves, one by one.
pub proof fn lemma_expand_inline(chunks: Map<u128, Chunk>, children: Seq<ChildModel>)
    requires
        forall|i: int| 0 <= i < children.len() ==> (#[trigger] children[i]) is Inline,
    ensures
        expand_all(chunks, children).len() == children.len(),
        forall|i: int|
            0 <= i < children.len() ==> (#[trigger] expand_all(chunks, children)[i])
                == NodeModel::Uniform(children[i]->Inline_0),
    decreases children.len(),
{
    if children.len() > 0 {
        let first = expansion(chunks, children[0]);
        let rest = children.skip(1);
        lemma_expand_inline(chunks, rest);
        assert(first.len() == 1);
        assert forall|i: int| 0 <= i < children.len() implies (#[trigger] expand_all(
            chunks,
            children,
        )[i]) == NodeModel::Uniform(children[i]->Inline_0) by {
            if i > 0 {
                assert(expand_all(chunks, children)[i] == expand_all(chunks, rest)[i - 1]);
                assert(rest[i - 1] == children[i]);
            }
        }
    }
}

/// Trees of one size each hold, taken together, that size as many times as
/// there are trees.
pub proof fn lemma_nodes_in_all_alike<T>(
    kids: spec_fn(T, Label) -> Seq<T>,
    nodes: Seq<T>,
    depth: nat,
    each: nat,
)
    requires
        forall|i: int| 0 <= i < nodes.len() ==> nodes_in(kids, #[trigger] nodes[i], depth) == each,
    ensures
        nodes_in_all(kids, nodes, depth) == nodes.len() * each,
    decreases nodes.len(),
{
    if nodes.len() > 0 {
        let front = nodes.drop_last();
        assert forall|i: int| 0 <= i < front.len() implies nodes_in(
            kids,
            #[trigger] front[i],
            depth,
        ) == each by {
            assert(front[i] == nodes[i]);
        }
        lemma_nodes_in_all_alike(kids, front, depth, each);
        assert(nodes_in(kids, nodes[nodes.len() - 1], depth) == each);
        assert((nodes.len() - 1) * each + each == nodes.len() * each) by (nonlinear_arith);
    } else {
        assert(0 * each == 0) by (nonlinear_arith);
    }
}

/// Below a node of a uniform chunk, the first `t` traits hold what the shape
/// says of them, where the tree is no deeper than `depth`.
proof fn lemma_uniform_traits(chunks: Map<u128, Chunk>, n: UniformNodeModel, depth: nat, t: int)
    requires
        n.schema.wf(),
        within_depth(tree_kids(chunks), any_node(), NodeModel::Uniform(n), depth),
        0 <= t <= n.schema.traits.len(),
    ensures
        sum_over(
            under(tree_kids(chunks), NodeModel::Uniform(n), depth),
            n.schema.labels().take(t),
        ) + n.schema.traits_size(t) == n.schema.traits_size(0),
    decreases depth, t,
{
    let kids = tree_kids(chunks);
    let node = NodeModel::Uniform(n);
    let s = n.schema;
    let labels = s.labels();
    let f = under(kids, node, depth);
    if t == 0 {
        assert(labels.take(0) =~= Seq::<Label>::empty());
    } else {
        let u = t - 1;
        lemma_uniform_traits(chunks, n, depth, u);
        lemma_sum_over_take(f, labels, u);
        let tr = s.traits[u];
        let label = labels[u];
        assert(label == tr.label);
        s.lemma_trait_index(label, u);
        let inline = node.children(label);
        let below = kids(node, label);
        assert(below == expand_all(chunks, inline));
        assert(inline.len() == tr.schema.node_count);
        lemma_expand_inline(chunks, inline);
        let each = tr.schema.subtree_size();
        assert(all_within(kids, any_node(), below, depth));
        if below.len() == 0 {
            assert(tr.schema.node_count as nat * each == 0) by (nonlinear_arith)
                requires
                    tr.schema.node_count == 0,
            ;
            if depth > 0 {
                assert(nodes_in_all(kids, below, (depth - 1) as nat) == 0);
            }
        } else {
            assert(within_depth(kids, any_node(), below[0], (depth - 1) as nat));
            assert(depth > 0);
            assert forall|i: int| 0 <= i < below.len() implies nodes_in(
                kids,
                #[trigger] below[i],
                (depth - 1) as nat,
            ) == each by {
                assert(within_depth(kids, any_node(), below[i], (depth - 1) as nat));
                assert(below[i] == NodeModel::Uniform(inline[i]->Inline_0));
                assert(inline[i] == ChildModel::Inline(n.child(tr, i)));
                lemma_uniform_count(chunks, n.child(tr, i), (depth - 1) as nat);
            }
            lemma_nodes_in_all_alike(kids, below, (depth - 1) as nat, each);
        }
        assert(f(label) == tr.schema.node_count as nat * each);
        assert(s.traits_size(u) == tr.schema.node_count as nat * each + s.traits_size(u + 1));
    }
}

/// A walk from a node of a uniform chunk that comes to an end counts what
/// the shape of the node says: the node, and for each trait as many
/// subtrees as the trait has nodes.
pub proof fn lemma_uniform_count(chunks: Map<u128, Chunk>, n: UniformNodeModel, depth: nat)
    requires
        n.schema.wf(),
        within_depth(tree_kids(chunks), any_node(), NodeModel::Uniform(n), depth),
    ensures
        nodes_in(tree_kids(chunks), NodeModel::Uniform(n), depth) == n.schema.subtree_size(),
        match walk_result(tree_kids(chunks), any_node(), NodeModel::Uniform(n), depth) {
            Some(count) => count == n.schema.subtree_size(),
            None => n.schema.subtree_size() > usize::MAX,
        },
    decreases depth, n.schema.traits.len() + 1,
{
    let kids = tree_kids(chunks);
    let node = NodeModel::Uniform(n);
    let s = n.schema;
    let labels = s.labels();
    assert(labels.no_duplicates()) by {
        assert forall|i: int, j: int| 0 <= i < labels.len() && 0 <= j < labels.len() && i
            != j implies labels[i] != labels[j] by {
            if i < j {
                assert(s.traits[i].label != s.traits[j].label);
            } else {
                assert(s.traits[j].label != s.traits[i].label);
            }
        }
    }
    assert forall|l: Label| !labels.contains(l) implies (#[trigger] kids(node, l)).len() == 0 by {
        if s.trait_index(l) is Some {
            let i = s.trait_index(l)->0;
            assert(labels[i] == l);
        }
        assert(node.children(l).len() == 0);
    }
    lemma_nodes_in_any_order(kids, node, depth, labels);
    lemma_uniform_traits(chunks, n, depth, s.traits.len() as int);
    assert(labels.take(s.traits.len() as int) =~= labels);
}

/// The tree below a node of a uniform chunk is as deep as the shape of the
/// node says, and no deeper.
pub proof fn lemma_uniform_depth(chunks: Map<u128, Chunk>, n: UniformNodeModel, depth: nat)
    requires
        n.schema.wf(),
        depth >= n.schema.levels(),
    ensures
        within_depth(tree_kids(chunks), any_node(), NodeModel::Uniform(n), depth),
    decreases depth,
{
    let kids = tree_kids(chunks);
    let node = NodeModel::Uniform(n);
    let s = n.schema;
    assert forall|label: Label| #![trigger kids(node, label)]
        all_within(kids, any_node(), kids(node, label), depth) by {
        let inline = node.children(label);
        let below = kids(node, label);
        assert(below == expand_all(chunks, inline));
        lemma_expand_inline(chunks, inline);
        assert forall|i: int| #![trigger below[i]] 0 <= i < below.len() implies depth > 0
            && within_depth(kids, any_node(), below[i], (depth - 1) as nat) by {
            let t = s.trait_index(label)->0;
            let tr = s.traits[t];
            s.lemma_levels(0, t);
            assert(below[i] == NodeModel::Uniform(inline[i]->Inline_0));
            assert(inline[i] == ChildModel::Inline(n.child(tr, i)));
            lemma_uniform_depth(chunks, n.child(tr, i), (depth - 1) as nat);
        }
    }
}

/// A walk from a node of a uniform chunk that may go as deep as the shape of
/// the node is counts what the shape says; it fails only where a `usize`
/// cannot hold that number.
pub proof fn lemma_uniform_walk(chunks: Map<u128, Chunk>, n: UniformNodeModel, depth: nat)
    requires
        n.schema.wf(),
        depth >= n.schema.levels(),
    ensures
        match walk_result(tree_kids(chunks), any_node(), NodeModel::Uniform(n), depth) {
            Some(count) => count == n.schema.subtree_size(),
            None => n.schema.subtree_size() > usize::MAX,
        },
{
    lemma_uniform_depth(chunks, n, depth);
    lemma_uniform_count(chunks, n, depth);
}

/// The trees below the top level nodes of a uniform chunk hold, taken
/// together, what the shape of the chunk says: `node_count` subtrees.
pub proof fn lemma_chunk_walk(
    chunks: Map<u128, Chunk>,
    chunk: UniformChunk,
    first_id: NodeId,
    depth: nat,
)
    requires
        chunk.schema@.wf(),
        depth >= chunk.schema@.levels(),
    ensures
        nodes_in_all(tree_kids(chunks), Chunk::Uniform(chunk).top_level(first_id), depth)
            == chunk.schema@.chunk_size(),
{
    let kids = tree_kids(chunks);
    let tops = Chunk::Uniform(chunk).top_level(first_id);
    let each = chunk.schema@.subtree_size();
    assert forall|i: int| 0 <= i < tops.len() implies nodes_in(kids, #[trigger] tops[i], depth)
        == each by {
        let n = chunk.top_level(first_id)[i];
        assert(tops[i] == NodeModel::Uniform(n));
        lemma_uniform_depth(chunks, n, depth);
        lemma_uniform_count(chunks, n, depth);
    }
    lemma_nodes_in_all_alike(kids, tops, depth, each);
}

/// A walk from a single node whose only child is a uniform chunk counts
/// the node and what the shape of the chunk says.
pub proof fn lemma_walk_over_chunk(
    chunks: Map<u128, Chunk>,
    id: NodeId,
    node: IndirectChunk,
    label: Label,
    child: ChunkId,
    chunk: UniformChunk,
    depth: nat,
)
    requires
        node.children() == Map::<u128, Seq<ChunkId>>::empty().insert(label.0, seq![child]),
        chunks.contains_key(child.key()),
        chunks[child.key()] == Chunk::Uniform(chunk),
        chunk.schema@.wf(),
        depth > chunk.schema@.levels(),
    ensures
        nodes_in(tree_kids(chunks), NodeModel::Indirect { id, chunk: node }, depth) == 1
            + chunk.schema@.chunk_size(),
{
    let kids = tree_kids(chunks);
    let x = NodeModel::Indirect { id, chunk: node };
    let labels = seq![label];
    let below = (depth - 1) as nat;
    assert forall|l: Label| !labels.contains(l) implies (#[trigger] kids(x, l)).len() == 0 by {
        assert(labels[0] == label);
        assert(l.0 != label.0);
        assert(x.children(l).len() == 0);
    }
    lemma_nodes_in_any_order(kids, x, depth, labels);
    let f = under(kids, x, depth);
    assert(labels.drop_last() =~= Seq::<Label>::empty());
    assert(sum_over(f, labels) == sum_over(f, labels.drop_last()) + f(labels.last()));
    assert(sum_over(f, labels.drop_last()) == 0);
    assert(node.children_under(label) == seq![child]);
    let edges = x.children(label);
    assert(edges.len() == 1 && edges[0] == ChildModel::Edge(child));
    assert(edges.skip(1).len() == 0);
    assert(expand_all(chunks, edges.skip(1)).len() == 0);
    assert(kids(x, label) =~= Chunk::Uniform(chunk).top_level(child.0));
    lemma_chunk_walk(chunks, chunk, child.0, below);
}

/// Counts the nodes of the tree below a cursor, the node of the cursor
/// included, by walking it in preorder: one for the node, and for each label
/// the nodes of the trees below the children under it. Gives up with `None`
/// where the tree is more than `depth` levels deep below the cursor, or holds
/// more nodes than a `usize` can count.
pub fn walk_all(n: &Nav<'_>, depth: usize) -> (r: Option<usize>)
    requires
        n.wf(),
        closed(n.chunks()),
    ensures
        r == walk_result(tree_kids(n.chunks()), any_node(), n@, depth as nat),
    decreases depth,
{
    let ghost kids = tree_kids(n.chunks());
    let ghost ok = any_node();
    let ghost f = under(kids, n@, depth as nat);
    let ghost whole = nodes_in(kids, n@, depth as nat);
    let mut count: usize = 1;
    let labels = n.get_traits();
    proof {
        assert forall|l: Label| !labels@.contains(l) implies (#[trigger] kids(n@, l)).len() == 0 by {
            assert(!n@.has_label(l));
            assert(n@.children(l).len() == 0);
        }
        lemma_nodes_in_any_order(kids, n@, depth as nat, labels@);
        assert(labels@.take(0) =~= Seq::<Label>::empty());
    }
    let mut t: usize = 0;
    while t < labels.len()
        invariant
            t <= labels.len(),
            n.wf(),
            closed(n.chunks()),
            kids == tree_kids(n.chunks()),
            ok == any_node(),
            f == under(kids, n@, depth as nat),
            whole == nodes_in(kids, n@, depth as nat),
            whole == 1 + sum_over(f, labels@),
            count == 1 + sum_over(f, labels@.take(t as int)),
            forall|l: Label| n@.has_label(l) <==> labels@.contains(l),
            forall|a: int|
                    0 <= a < t ==> all_within(kids, ok, kids(n@, #[trigger] labels@[a]), depth as nat),
        decreases labels.len() - t,
    {
        proof {
            n.lemma_wf();
            assert forall|i: int| 0 <= i < n@.children(labels@[t as int]).len() implies (
            #[trigger] n@.children(labels@[t as int])[i] matches ChildModel::Edge(id)
                ==> n.chunks().contains_key(id.key())) by {
                lemma_closed_resolves(n.chunks(), n@, labels@[t as int], i);
            }
            lemma_sum_over_take(f, labels@, t as int);
            lemma_sum_over_take(f, labels@, t + 1);
        }
        let mut children = n.get_trait(labels[t]);
        let ghost all = children.remaining();
        let ghost before = count;
        let ghost mut k: int = 0;
        proof {
            assert(all == kids(n@, labels@[t as int]));
            assert(children.remaining() =~= all.skip(0));
            assert(all.take(0) =~= Seq::<NodeModel>::empty());
        }
        loop
            invariant_except_break
                children.remaining() == all.skip(k),
            invariant
                0 <= k <= all.len(),
                t < labels.len(),
                children.wf(),
                children.chunks() == n.chunks(),
                n.wf(),
                closed(n.chunks()),
                kids == tree_kids(n.chunks()),
                ok == any_node(),
                f == under(kids, n@, depth as nat),
                whole == nodes_in(kids, n@, depth as nat),
                all == kids(n@, labels@[t as int]),
                whole >= before + f(labels@[t as int]),
                before == 1 + sum_over(f, labels@.take(t as int)),
                whole == 1 + sum_over(f, labels@),
                sum_over(f, labels@.take(t + 1)) == sum_over(f, labels@.take(t as int)) + f(
                    labels@[t as int],
                ),
                forall|l: Label| n@.has_label(l) <==> labels@.contains(l),
                forall|a: int|
                    0 <= a < t ==> all_within(kids, ok, kids(n@, #[trigger] labels@[a]), depth as nat),
                depth == 0 ==> k == 0,
                depth > 0 ==> count == before + nodes_in_all(
                    kids,
                    all.take(k),
                    (depth - 1) as nat,
                ),
                depth == 0 ==> count == before,
                forall|i: int|
                    0 <= i < k ==> depth > 0 && within_depth(
                        kids,
                        ok,
                        #[trigger] all[i],
                        (depth - 1) as nat,
                    ),
            ensures
                k == all.len(),
                n.wf(),
                closed(n.chunks()),
                kids == tree_kids(n.chunks()),
                ok == any_node(),
                f == under(kids, n@, depth as nat),
                whole == nodes_in(kids, n@, depth as nat),
                all == kids(n@, labels@[t as int]),
                before == 1 + sum_over(f, labels@.take(t as int)),
                whole == 1 + sum_over(f, labels@),
                sum_over(f, labels@.take(t + 1)) == sum_over(f, labels@.take(t as int)) + f(
                    labels@[t as int],
                ),
                forall|l: Label| n@.has_label(l) <==> labels@.contains(l),
                forall|a: int|
                    0 <= a < t ==> all_within(kids, ok, kids(n@, #[trigger] labels@[a]), depth as nat),
                depth > 0 ==> count == before + nodes_in_all(
                    kids,
                    all.take(k),
                    (depth - 1) as nat,
                ),
                depth == 0 ==> count == before,
                forall|i: int|
                    0 <= i < k ==> depth > 0 && within_depth(
                        kids,
                        ok,
                        #[trigger] all[i],
                        (depth - 1) as nat,
                    ),
            decreases all.len() - k,
        {
            match children.next() {
                Some(c) => {
                    proof {
                        assert(c@ == all[k]);
                        assert(all.skip(k).skip(1) =~= all.skip(k + 1));
                    }
                    if depth == 0 {
                        proof {
                            assert(!all_within(kids, ok, all, depth as nat)) by {
                                assert(0 <= k < all.len());
                                if all_within(kids, ok, all, depth as nat) {
                                    assert(within_depth(kids, ok, all[k], (depth - 1) as nat));
                                }
                            }
                            assert(!within_depth(kids, ok, n@, depth as nat)) by {
                                assert(all == kids(n@, labels@[t as int]));
                            }
                        }
                        return None;
                    }
                    let below = walk_all(&c, depth - 1);
                    proof {
                        lemma_nodes_in_all_take(kids, all, (depth - 1) as nat, k);
                        lemma_nodes_in_all_take(kids, all, (depth - 1) as nat, k + 1);
                        assert(f(labels@[t as int]) == nodes_in_all(kids, all, (depth - 1) as nat));
                        if within_depth(kids, ok, n@, depth as nat) {
                            assert(all_within(kids, ok, kids(n@, labels@[t as int]), depth as nat));
                            assert(within_depth(kids, ok, all[k], (depth - 1) as nat));
                        }
                    }
                    match below {
                        Some(size) => match count.checked_add(size) {
                            Some(sum) => {
                                count = sum;
                                proof {
                                    k = k + 1;
                                }
                            },
                            None => {
                                return None;
                            },
                        },
                        None => {
                            return None;
                        },
                    }
                },
                None => {
                    break ;
                },
            }
        }
        proof {
            assert(all.take(k) =~= all);
            assert(all_within(kids, ok, all, depth as nat));
            assert forall|a: int| 0 <= a < t + 1 implies all_within(
                kids,
                ok,
                kids(n@, #[trigger] labels@[a]),
                depth as nat,
            ) by {
                if a == t {
                    assert(kids(n@, labels@[a]) == all);
                }
            }
            if depth > 0 {
                assert(f(labels@[t as int]) == nodes_in_all(kids, all, (depth - 1) as nat));
            } else {
                assert(f(labels@[t as int]) == 0);
            }
        }
        t += 1;
    }
    proof {
        assert(labels@.take(t as int) =~= labels@);
        assert(within_depth(kids, ok, n@, depth as nat)) by {
            assert(ok(n@));
            assert forall|label: Label|
                #![trigger kids(n@, label)]
                all_within(kids, ok, kids(n@, label), depth as nat) by {
                if labels@.contains(label) {
                    let a = choose|a: int| 0 <= a < labels@.len() && labels@[a] == label;
                    assert(all_within(kids, ok, kids(n@, labels@[a]), depth as nat));
                } else {
                    assert(!n@.has_label(label));
                    assert(n@.children(label).len() == 0);
                    assert(kids(n@, label).len() == 0);
                }
            }
        }
    }
    Some(count)
}

/// Counts the chunks that can be reached from a chunk along edges, that
/// chunk included, once for every way that leads to them. Gives up with
/// `None` where an edge leads nowhere, where the chunks are more than `depth`
/// levels deep, or where there are more than a `usize` can count.
pub fn walk_direct_all(forest: &Forest, id: ChunkId, depth: usize) -> (r: Option<usize>)
    ensures
        r == walk_result(chunk_kids(forest@), stored(forest@), id, depth as nat),
    decreases depth,
{
    let ghost kids = chunk_kids(forest@);
    let ghost ok = stored(forest@);
    let ghost f = under(kids, id, depth as nat);
    let ghost whole = nodes_in(kids, id, depth as nat);
    let mut count: usize = 1;
    let n = match forest.find_nodes(id) {
        Some(n) => n,
        None => {
            assert(!within_depth(kids, ok, id, depth as nat));
            return None;
        },
    };
    let labels = n.get_traits();
    proof {
        assert forall|l: Label| !labels@.contains(l) implies (#[trigger] kids(id, l)).len() == 0 by {
            assert(!n.children().contains_key(l.0));
        }
        lemma_nodes_in_any_order(kids, id, depth as nat, labels@);
        assert(labels@.take(0) =~= Seq::<Label>::empty());
    }
    let mut t: usize = 0;
    while t < labels.len()
        invariant
            t <= labels.len(),
            forest@.contains_key(id.key()),
            *n == forest@[id.key()],
            kids == chunk_kids(forest@),
            ok == stored(forest@),
            f == under(kids, id, depth as nat),
            whole == nodes_in(kids, id, depth as nat),
            whole == 1 + sum_over(f, labels@),
            count == 1 + sum_over(f, labels@.take(t as int)),
            forall|l: Label|
                !labels@.contains(l) ==> !(#[trigger] n.children().contains_key(l.0)),
            forall|a: int|
                    0 <= a < t ==> all_within(kids, ok, kids(id, #[trigger] labels@[a]), depth as nat),
        decreases labels.len() - t,
    {
        proof {
            lemma_sum_over_take(f, labels@, t as int);
            lemma_sum_over_take(f, labels@, t + 1);
        }
        let mut children = n.get_trait(labels[t]);
        let ghost all = children.remaining();
        let ghost before = count;
        let ghost mut k: int = 0;
        proof {
            assert(all == kids(id, labels@[t as int]));
            assert(children.remaining() =~= all.skip(0));
            assert(all.take(0) =~= Seq::<ChunkId>::empty());
        }
        loop
            invariant_except_break
                children.remaining() == all.skip(k),
            invariant
                0 <= k <= all.len(),
                t < labels.len(),
                kids == chunk_kids(forest@),
                ok == stored(forest@),
                f == under(kids, id, depth as nat),
                whole == nodes_in(kids, id, depth as nat),
                all == kids(id, labels@[t as int]),
                whole >= before + f(labels@[t as int]),
                before == 1 + sum_over(f, labels@.take(t as int)),
                whole == 1 + sum_over(f, labels@),
                sum_over(f, labels@.take(t + 1)) == sum_over(f, labels@.take(t as int)) + f(
                    labels@[t as int],
                ),
                forest@.contains_key(id.key()),
                *n == forest@[id.key()],
                forall|l: Label|
                    !labels@.contains(l) ==> !(#[trigger] n.children().contains_key(l.0)),
                forall|a: int|
                    0 <= a < t ==> all_within(kids, ok, kids(id, #[trigger] labels@[a]), depth as nat),
                depth == 0 ==> k == 0,
                depth > 0 ==> count == before + nodes_in_all(
                    kids,
                    all.take(k),
                    (depth - 1) as nat,
                ),
                depth == 0 ==> count == before,
                forall|i: int|
                    0 <= i < k ==> depth > 0 && within_depth(
                        kids,
                        ok,
                        #[trigger] all[i],
                        (depth - 1) as nat,
                    ),
            ensures
                k == all.len(),
                kids == chunk_kids(forest@),
                ok == stored(forest@),
                f == under(kids, id, depth as nat),
                whole == nodes_in(kids, id, depth as nat),
                all == kids(id, labels@[t as int]),
                before == 1 + sum_over(f, labels@.take(t as int)),
                whole == 1 + sum_over(f, labels@),
                sum_over(f, labels@.take(t + 1)) == sum_over(f, labels@.take(t as int)) + f(
                    labels@[t as int],
                ),
                forest@.contains_key(id.key()),
                *n == forest@[id.key()],
                forall|l: Label|
                    !labels@.contains(l) ==> !(#[trigger] n.children().contains_key(l.0)),
                forall|a: int|
                    0 <= a < t ==> all_within(kids, ok, kids(id, #[trigger] labels@[a]), depth as nat),
                depth > 0 ==> count == before + nodes_in_all(
                    kids,
                    all.take(k),
                    (depth - 1) as nat,
                ),
                depth == 0 ==> count == before,
                forall|i: int|
                    0 <= i < k ==> depth > 0 && within_depth(
                        kids,
                        ok,
                        #[trigger] all[i],
                        (depth - 1) as nat,
                    ),
            decreases all.len() - k,
        {
            match children.next() {
                Some(c) => {
                    proof {
                        assert(c == all[k]);
                        assert(all.skip(k).skip(1) =~= all.skip(k + 1));
                    }
                    if depth == 0 {
                        proof {
                            assert(!all_within(kids, ok, all, depth as nat)) by {
                                assert(0 <= k < all.len());
                                if all_within(kids, ok, all, depth as nat) {
                                    assert(within_depth(kids, ok, all[k], (depth - 1) as nat));
                                }
                            }
                            assert(!within_depth(kids, ok, id, depth as nat)) by {
                                assert(all == kids(id, labels@[t as int]));
                            }
                        }
                        return None;
                    }
                    let below = walk_direct_all(forest, c, depth - 1);
                    proof {
                        lemma_nodes_in_all_take(kids, all, (depth - 1) as nat, k);
                        lemma_nodes_in_all_take(kids, all, (depth - 1) as nat, k + 1);
                        assert(f(labels@[t as int]) == nodes_in_all(kids, all, (depth - 1) as nat));
                        if within_depth(kids, ok, id, depth as nat) {
                            assert(all_within(kids, ok, kids(id, labels@[t as int]), depth as nat));
                            assert(within_depth(kids, ok, all[k], (depth - 1) as nat));
                        }
                    }
                    match below {
                        Some(size) => match count.checked_add(size) {
                            Some(sum) => {
                                count = sum;
                                proof {
                                    k = k + 1;
                                }
                            },
                            None => {
                                return None;
                            },
                        },
                        None => {
                            return None;
                        },
                    }
                },
                None => {
                    break ;
                },
            }
        }
        proof {
            assert(all.take(k) =~= all);
            assert(all_within(kids, ok, all, depth as nat));
            assert forall|a: int| 0 <= a < t + 1 implies all_within(
                kids,
                ok,
                kids(id, #[trigger] labels@[a]),
                depth as nat,
            ) by {
                if a == t {
                    assert(kids(id, labels@[a]) == all);
                }
            }
            if depth > 0 {
                assert(f(labels@[t as int]) == nodes_in_all(kids, all, (depth - 1) as nat));
            } else {
                assert(f(labels@[t as int]) == 0);
            }
        }
        t += 1;
    }
    proof {
        assert(labels@.take(t as int) =~= labels@);
        assert(within_depth(kids, ok, id, depth as nat)) by {
            assert forall|label: Label|
                #![trigger kids(id, label)]
                all_within(kids, ok, kids(id, label), depth as nat) by {
                if labels@.contains(label) {
                    let a = choose|a: int| 0 <= a < labels@.len() && labels@[a] == label;
                    assert(all_within(kids, ok, kids(id, labels@[a]), depth as nat));
                } else {
                    assert(!n.children().contains_key(label.0));
                    assert(kids(id, label).len() == 0);
                }
            }
        }
    }
    Some(count)
}

/// `Rng::gen` on the generator of the thread: some 128-bit number.
#[verifier::external_body]
fn random_number() -> u128 {
    rand::thread_rng().gen()
}

/// `Rng::gen_range` on the generator of the thread, for the range from 0 up
/// to but not including `n`: some number of that range, which must not be
/// empty.
#[verifier::external_body]
fn random_below(n: usize) -> (r: usize)
    requires
        n > 0,
    ensures
        r < n,
{
    rand::thread_rng().gen_range(0..n)
}

/// What `grow` leaves in a forest: the chunk stored under `id`, and `id`
/// added at the end of the trait `label` of the chunk stored under `parent`,
/// if that is an indirect chunk.
pub open spec fn grown(
    before: Map<u128, Chunk>,
    after: Map<u128, Chunk>,
    parent: ChunkId,
    label: Label,
    id: ChunkId,
    chunk: Chunk,
) -> bool {
    let stored = before.insert(id.key(), chunk);
    if stored.contains_key(parent.key()) && stored[parent.key()] is Indirect {
        &&& after.dom() == stored.dom()
        &&& forall|k: u128| k != parent.key() && stored.contains_key(k) ==> after[k] == stored[k]
        &&& after[parent.key()] matches Chunk::Indirect(now)
        &&& stored[parent.key()] matches Chunk::Indirect(then)
        &&& now.def == then.def
        &&& now.payload == then.payload
        &&& now.children() == then.children().insert(
            label.0,
            then.children_under(label).push(id),
        )
    } else {
        after == stored
    }
}

/// Stores a chunk under `id` and makes it a child of the chunk stored under
/// `parent`. Says whether it found an indirect chunk to hang it under.
pub fn grow(
    forest: &mut Forest,
    parent: ChunkId,
    label: Label,
    id: ChunkId,
    chunk: Chunk,
) -> (attached: bool)
    ensures
        grown(old(forest)@, final(forest)@, parent, label, id, chunk),
        attached == {
            let stored = old(forest)@.insert(id.key(), chunk);
            stored.contains_key(parent.key()) && stored[parent.key()] is Indirect
        },
{
    forest.insert(id, chunk);
    forest.add_child(parent, label, id)
}

/// What `grow` keeps: every id that had a chunk has one; where the new chunk
/// is valid under its id and its edges lead to stored chunks, a forest of
/// valid chunks stays one and a closed forest stays closed; and no chunk
/// but the new one changes its kind.
pub proof fn lemma_grown_keeps(
    before: Map<u128, Chunk>,
    after: Map<u128, Chunk>,
    parent: ChunkId,
    label: Label,
    id: ChunkId,
    chunk: Chunk,
)
    requires
        grown(before, after, parent, label, id, chunk),
        chunk.valid_at(id.0),
        chunk_closed(before.insert(id.key(), chunk), chunk),
    ensures
        after.dom() == before.dom().insert(id.key()),
        chunks_valid(before) ==> chunks_valid(after),
        closed(before) ==> closed(after),
        after[id.key()] is Indirect <==> chunk is Indirect,
        forall|k: u128|
            k != id.key() && before.contains_key(k) ==> (after[k] is Indirect
                <==> before[k] is Indirect),
{
    let stored = before.insert(id.key(), chunk);
    assert(stored.dom() =~= before.dom().insert(id.key()));
    assert(id == ChunkId(id.0));
    if chunks_valid(before) {
        assert forall|k: u128| after.contains_key(k) implies (#[trigger] after[k]).valid_at(
            NodeId(k),
        ) by {
            assert(stored.contains_key(k));
            if k != id.key() {
                assert(before.contains_key(k));
                assert(before[k].valid_at(NodeId(k)));
            }
        }
    }
    if closed(before) {
        assert forall|k: u128, l: Label, i: int|
            after.contains_key(k) && 0 <= i < after[k].children_under(l).len() implies
            after.contains_key((#[trigger] after[k].children_under(l)[i]).key()) by {
            assert(stored.contains_key(k));
            let c = after[k].children_under(l)[i];
            if stored.contains_key(parent.key()) && stored[parent.key()] is Indirect && k
                == parent.key() {
                let then = stored[k];
                if l.0 == label.0 && i == then.children_under(label).len() {
                    assert(c == id);
                } else {
                    assert(c == then.children_under(l)[i]);
                    if k == id.key() {
                        assert(stored.contains_key(c.key()));
                    } else {
                        assert(before.contains_key(k) && before[k] == then);
                        assert(before.contains_key(c.key()));
                    }
                }
            } else {
                assert(after[k] == stored[k]);
                if k == id.key() {
                    assert(stored.contains_key(c.key()));
                } else {
                    assert(before.contains_key(k) && before[k] == stored[k]);
                    assert(before.contains_key(c.key()));
                }
            }
            assert(stored.contains_key(c.key()));
        }
    }
}

/// The shape of a color channel: one byte of payload and no children.
fn channel_schema(def: Def) -> (r: ChunkSchema)
    ensures
        r@.wf(),
        r.node_count == 1,
        r.bytes_per_node == 1,
        r.id_stride == 1,
        r.payload_size == Some(1u16),
        r.def == def,
        r.traits@.len() == 0,
{
    let r = ChunkSchema {
        def,
        node_count: 1,
        bytes_per_node: 1,
        id_stride: 1,
        payload_size: Some(1),
        traits: Vec::new(),
    };
    assert(r@.traits.len() == 0);
    r
}

/// The bytes of `pattern`, `copies` times over.
pub open spec fn repeated(pattern: Seq<u8>, copies: nat) -> Seq<u8>
    decreases copies,
{
    if copies == 0 {
        Seq::empty()
    } else {
        repeated(pattern, (copies - 1) as nat) + pattern
    }
}

/// Whether a uniform chunk of the given shape can hold `len` bytes.
pub open spec fn holds(schema: &RootChunkSchema, len: nat) -> bool {
    &&& schema.spans_fit()
    &&& schema@.node_count >= 1
    &&& len == schema@.byte_span()
}

/// Whether `after` is `before` with `count` uniform chunks of the given shape
/// and bytes stored one after the other, each under some id and each hung,
/// by `grow`, under one of `nodes`.
pub open spec fn chunks_added(
    before: Map<u128, Chunk>,
    after: Map<u128, Chunk>,
    nodes: Seq<NodeId>,
    label: Label,
    schema: &RootChunkSchema,
    bytes: Seq<u8>,
    count: nat,
) -> bool
    decreases count,
{
    if count == 0 {
        after == before
    } else {
        exists|mid: Map<u128, Chunk>, id: ChunkId, parent: int, chunk: UniformChunk|
            {
                &&& chunks_added(before, mid, nodes, label, schema, bytes, (count - 1) as nat)
                &&& 0 <= parent < nodes.len()
                &&& *chunk.schema == *schema
                &&& vector_bytes(&chunk.data) == bytes
                &&& chunk.wf()
                &&& chunk.fits_at(id.0)
                &&& #[trigger] grown(
                    mid,
                    after,
                    ChunkId(nodes[parent]),
                    label,
                    id,
                    Chunk::Uniform(chunk),
                )
            }
    }
}

/// What adding chunks keeps: every id that had a chunk has one, with a chunk
/// of the same kind unless a uniform chunk took its place; a forest of valid
/// chunks stays one and a closed forest stays closed; and at most `count`
/// ids are new.
pub proof fn lemma_chunks_added_keeps(
    before: Map<u128, Chunk>,
    after: Map<u128, Chunk>,
    nodes: Seq<NodeId>,
    label: Label,
    schema: &RootChunkSchema,
    bytes: Seq<u8>,
    count: nat,
)
    requires
        chunks_added(before, after, nodes, label, schema, bytes, count),
    ensures
        forall|k: u128| before.contains_key(k) ==> after.contains_key(k),
        forall|k: u128|
            after.contains_key(k) && after[k] is Indirect ==> before.contains_key(k)
                && before[k] is Indirect,
        chunks_valid(before) ==> chunks_valid(after),
        closed(before) ==> closed(after),
        before.dom().finite() ==> after.dom().finite() && after.dom().len() <= before.dom().len()
            + count,
    decreases count,
{
    if count > 0 {
        let (mid, id, parent, chunk) = choose|
            mid: Map<u128, Chunk>,
            id: ChunkId,
            parent: int,
            chunk: UniformChunk,
        |
            {
                &&& chunks_added(before, mid, nodes, label, schema, bytes, (count - 1) as nat)
                &&& 0 <= parent < nodes.len()
                &&& *chunk.schema == *schema
                &&& vector_bytes(&chunk.data) == bytes
                &&& chunk.wf()
                &&& chunk.fits_at(id.0)
                &&& #[trigger] grown(
                    mid,
                    after,
                    ChunkId(nodes[parent]),
                    label,
                    id,
                    Chunk::Uniform(chunk),
                )
            };
        lemma_chunks_added_keeps(before, mid, nodes, label, schema, bytes, (count - 1) as nat);
        let stored = mid.insert(id.key(), Chunk::Uniform(chunk));
        assert(chunk_closed(stored, Chunk::Uniform(chunk)));
        lemma_grown_keeps(mid, after, ChunkId(nodes[parent]), label, id, Chunk::Uniform(chunk));
        assert forall|k: u128| before.contains_key(k) implies after.contains_key(k) by {
            assert(mid.contains_key(k));
            assert(after.dom().contains(k));
        }
        assert forall|k: u128| after.contains_key(k) && after[k] is Indirect implies 
            before.contains_key(k) && before[k] is Indirect by {
            assert(after.dom().contains(k));
            assert(k != id.key());
            assert(mid.contains_key(k));
        }
    }
}

/// Hangs `chunks` copies of a uniform chunk of the given shape, each under
/// an id drawn at random, under nodes drawn at random from `nodes`. The
/// bytes of each are `pattern`, `chunk_size` times over; where a chunk of
/// that shape cannot hold them, nothing is added.
fn add_chunks(
    forest: &mut Forest,
    nodes: &Vec<NodeId>,
    label: Label,
    chunk_schema: Rc<RootChunkSchema>,
    pattern: &Vec<u8>,
    chunks: usize,
    chunk_size: usize,
)
    requires
        nodes@.len() > 0,
    ensures
        if holds(&*chunk_schema, repeated(pattern@, chunk_size as nat).len()) {
            chunks_added(
                old(forest)@,
                final(forest)@,
                nodes@,
                label,
                &*chunk_schema,
                repeated(pattern@, chunk_size as nat),
                chunks as nat,
            )
        } else {
            final(forest)@ == old(forest)@
        },
        forall|k: u128| old(forest)@.contains_key(k) ==> final(forest)@.contains_key(k),
        forall|k: u128|
            final(forest)@.contains_key(k) && final(forest)@[k] is Indirect
                ==> old(forest)@.contains_key(k) && old(forest)@[k] is Indirect,
        chunks_valid(old(forest)@) ==> chunks_valid(final(forest)@),
        closed(old(forest)@) ==> closed(final(forest)@),
        old(forest)@.dom().finite() ==> final(forest)@.dom().finite(),
        old(forest)@.dom().finite() ==> final(forest)@.dom().len()
            <= old(forest)@.dom().len() + chunks,
{
    let ghost bytes = repeated(pattern@, chunk_size as nat);
    let mut made: usize = 0;
    while made < chunks
        invariant
            made <= chunks,
            nodes@.len() > 0,
            bytes == repeated(pattern@, chunk_size as nat),
            if holds(&*chunk_schema, bytes.len()) {
                chunks_added(
                    old(forest)@,
                    forest@,
                    nodes@,
                    label,
                    &*chunk_schema,
                    bytes,
                    made as nat,
                )
            } else {
                forest@ == old(forest)@
            },
        decreases chunks - made,
    {
        let drawn = random_number();
        let mut data: Vec<u8> = Vec::new();
        let mut copies: usize = 0;
        while copies < chunk_size
            invariant
                copies <= chunk_size,
                data@ == repeated(pattern@, copies as nat),
            decreases chunk_size - copies,
        {
            let mut at: usize = 0;
            while at < pattern.len()
                invariant
                    at <= pattern.len(),
                    data@ == repeated(pattern@, copies as nat) + pattern@.take(at as int),
                decreases pattern.len() - at,
            {
                data.push(pattern[at]);
                proof {
                    assert(pattern@.take(at + 1) =~= pattern@.take(at as int).push(
                        pattern@[at as int],
                    ));
                    assert(data@ =~= repeated(pattern@, copies as nat) + pattern@.take(at + 1));
                }
                at += 1;
            }
            proof {
                assert(pattern@.take(pattern@.len() as int) =~= pattern@);
            }
            copies += 1;
        }
        let ghost before = forest@;
        match UniformChunk::new(chunk_schema.clone(), bytes_from(data)) {
            Some(chunk) => {
                // An id too near the end of the id space moves down by the
                // chunk's span.
                let id = if chunk.can_start_at(NodeId(drawn)) {
                    NodeId(drawn)
                } else {
                    NodeId(drawn - chunk.span())
                };
                let parent_index = random_below(nodes.len());
                let parent_id = nodes[parent_index];
                let ghost stored = Chunk::Uniform(chunk);
                let _ = grow(forest, ChunkId(parent_id), label, ChunkId(id), Chunk::Uniform(chunk));
                proof {
                    assert(grown(
                        before,
                        forest@,
                        ChunkId(nodes@[parent_index as int]),
                        label,
                        ChunkId(id),
                        stored,
                    ));
                    assert(chunks_added(
                        old(forest)@,
                        forest@,
                        nodes@,
                        label,
                        &*chunk_schema,
                        bytes,
                        (made + 1) as nat,
                    ));
                }
            },
            None => {},
        }
        made += 1;
    }
    proof {
        if holds(&*chunk_schema, bytes.len()) {
            lemma_chunks_added_keeps(
                old(forest)@,
                forest@,
                nodes@,
                label,
                &*chunk_schema,
                bytes,
                chunks as nat,
            );
        }
    }
}

/// Whether `c` is a node of the given type without payload and children.
pub open spec fn bare(c: IndirectChunk, def: Def) -> bool {
    &&& c.def == def
    &&& c.payload is None
    &&& c.children() == Map::<u128, Seq<ChunkId>>::empty()
}

/// Whether `after` is what comes of storing the first of `nodes` as a bare
/// node in an empty forest and then hanging each further one, as a bare
/// node and by `grow`, under one of those before it.
pub open spec fn nodes_added(
    after: Map<u128, Chunk>,
    nodes: Seq<NodeId>,
    label: Label,
    def: Def,
) -> bool
    decreases nodes.len(),
{
    if nodes.len() == 0 {
        false
    } else if nodes.len() == 1 {
        exists|c: IndirectChunk|
            #[trigger] bare(c, def) && after == Map::<u128, Chunk>::empty().insert(
                nodes[0].0,
                Chunk::Indirect(c),
            )
    } else {
        exists|mid: Map<u128, Chunk>, parent: int, c: IndirectChunk|
            {
                &&& nodes_added(mid, nodes.drop_last(), label, def)
                &&& 0 <= parent < nodes.len() - 1
                &&& bare(c, def)
                &&& #[trigger] grown(
                    mid,
                    after,
                    ChunkId(nodes[parent]),
                    label,
                    ChunkId(nodes.last()),
                    Chunk::Indirect(c),
                )
            }
    }
}

/// A forest grown from single nodes holds each of them, and nothing else, as
/// an indirect chunk; it is closed, and its chunks are valid.
pub proof fn lemma_nodes_added_keeps(
    after: Map<u128, Chunk>,
    nodes: Seq<NodeId>,
    label: Label,
    def: Def,
)
    requires
        nodes_added(after, nodes, label, def),
    ensures
        forall|i: int| 0 <= i < nodes.len() ==> after.contains_key((#[trigger] nodes[i]).0),
        forall|k: u128| after.contains_key(k) ==> after[k] is Indirect,
        forall|k: u128|
            after.contains_key(k) ==> exists|i: int|
                0 <= i < nodes.len() && (#[trigger] nodes[i]).0 == k,
        chunks_valid(after),
        closed(after),
        after.dom().finite(),
        after.dom().len() <= nodes.len(),
    decreases nodes.len(),
{
    if nodes.len() == 1 {
        let c = choose|c: IndirectChunk|
            #[trigger] bare(c, def) && after == Map::<u128, Chunk>::empty().insert(
                nodes[0].0,
                Chunk::Indirect(c),
            );
        assert(after.dom() =~= Set::<u128>::empty().insert(nodes[0].0));
        assert forall|k: u128| after.contains_key(k) implies exists|i: int|
            0 <= i < nodes.len() && (#[trigger] nodes[i]).0 == k by {
            assert(nodes[0].0 == k);
        }
    } else {
        let (mid, parent, c) = choose|mid: Map<u128, Chunk>, parent: int, c: IndirectChunk|
            {
                &&& nodes_added(mid, nodes.drop_last(), label, def)
                &&& 0 <= parent < nodes.len() - 1
                &&& bare(c, def)
                &&& #[trigger] grown(
                    mid,
                    after,
                    ChunkId(nodes[parent]),
                    label,
                    ChunkId(nodes.last()),
                    Chunk::Indirect(c),
                )
            };
        let id = ChunkId(nodes.last());
        let earlier = nodes.drop_last();
        lemma_nodes_added_keeps(mid, earlier, label, def);
        lemma_grown_keeps(mid, after, ChunkId(nodes[parent]), label, id, Chunk::Indirect(c));
        assert forall|i: int| 0 <= i < nodes.len() implies after.contains_key(
            (#[trigger] nodes[i]).0,
        ) by {
            if i < nodes.len() - 1 {
                assert(earlier[i] == nodes[i]);
                assert(mid.contains_key(earlier[i].0));
            }
            assert(after.dom().contains(nodes[i].0));
        }
        assert forall|k: u128| after.contains_key(k) implies after[k] is Indirect by {
            assert(after.dom().contains(k));
            if k != id.key() {
                assert(mid.contains_key(k));
            }
        }
        assert forall|k: u128| after.contains_key(k) implies exists|i: int|
            0 <= i < nodes.len() && (#[trigger] nodes[i]).0 == k by {
            assert(after.dom().contains(k));
            if k != id.key() {
                assert(mid.contains_key(k));
                let i = choose|i: int| 0 <= i < earlier.len() && (#[trigger] earlier[i]).0 == k;
                assert(nodes[i].0 == k);
            } else {
                assert(nodes[nodes.len() - 1].0 == k);
            }
        }
    }
}

/// What every tree of `big_tree` is: `size` single nodes, or one where
/// `size` is 0, grown from the root, and then either nothing more or
/// `chunks` uniform chunks of one shape and content hung under them.
pub open spec fn built(after: Map<u128, Chunk>, root: NodeId, size: nat, chunks: nat) -> bool {
    exists|base: Map<u128, Chunk>, nodes: Seq<NodeId>, label: Label, def: Def|
        {
            &&& #[trigger] nodes_added(base, nodes, label, def)
            &&& nodes[0] == root
            &&& nodes.len() == if size == 0 {
                1
            } else {
                size
            }
            &&& after == base || (chunks > 0 && exists|schema: RootChunkSchema, bytes: Seq<u8>|
                #[trigger] chunks_added(base, after, nodes, label, &schema, bytes, chunks))
        }
}

/// A tree that was built holds its root, valid chunks only and no edge that
/// leads nowhere, and no more chunks than the nodes and chunks asked for;
/// without uniform chunks, every chunk of it is a single node.
pub proof fn lemma_built(after: Map<u128, Chunk>, root: NodeId, size: nat, chunks: nat)
    requires
        built(after, root, size, chunks),
    ensures
        after.contains_key(root.0),
        chunks_valid(after),
        closed(after),
        after.dom().finite(),
        after.dom().len() <= (if size == 0 {
            1
        } else {
            size
        }) + chunks,
        chunks == 0 ==> forall|k: u128| after.contains_key(k) ==> after[k] is Indirect,
{
    let (base, nodes, label, def) = choose|
        base: Map<u128, Chunk>,
        nodes: Seq<NodeId>,
        label: Label,
        def: Def,
    |
        {
            &&& #[trigger] nodes_added(base, nodes, label, def)
            &&& nodes[0] == root
            &&& nodes.len() == if size == 0 {
                1
            } else {
                size
            }
            &&& after == base || (chunks > 0 && exists|schema: RootChunkSchema, bytes: Seq<u8>|
                #[trigger] chunks_added(base, after, nodes, label, &schema, bytes, chunks))
        };
    lemma_nodes_added_keeps(base, nodes, label, def);
    assert(base.contains_key(nodes[0].0));
    if after != base {
        let (schema, bytes) = choose|schema: RootChunkSchema, bytes: Seq<u8>| #[trigger]
            chunks_added(base, after, nodes, label, &schema, bytes, chunks);
        lemma_chunks_added_keeps(base, after, nodes, label, &schema, bytes, chunks);
    }
}

/// A tree of `size` single nodes and `chunks` uniform chunks of `chunk_size`
/// pixels each, every one of them hung under a node drawn at random, with
/// ids drawn at random. Returns the forest and the id of the root.
pub fn big_tree(size: usize, chunks: usize, chunk_size: usize) -> (r: (Forest, NodeId))
    ensures
        built(r.0@, r.1, size as nat, chunks as nat),
        r.0@.contains_key(r.1.0),
        chunks_valid(r.0@),
        closed(r.0@),
        r.0@.dom().finite(),
        r.0@.dom().len() <= (if size == 0 {
            1
        } else {
            size as nat
        }) + chunks,
        chunks == 0 ==> forall|k: u128| r.0@.contains_key(k) ==> r.0@[k] is Indirect,
{
    let mut forest = Forest::new();
    let def = Def(random_number());
    let root_id = NodeId(random_number());
    let mut nodes: Vec<NodeId> = Vec::new();
    nodes.push(root_id);
    let label = Label(random_number());
    let root = IndirectChunk::new(def);
    let ghost first = Chunk::Indirect(root);
    forest.insert(ChunkId(root_id), Chunk::Indirect(root));
    proof {
        assert(bare(root, def));
        assert(forest@ == Map::<u128, Chunk>::empty().insert(nodes@[0].0, first));
        assert(nodes_added(forest@, nodes@, label, def));
    }
    let mut made: usize = 1;
    while made < size
        invariant
            nodes@.len() == made,
            made <= size || made == 1,
            nodes@[0] == root_id,
            nodes_added(forest@, nodes@, label, def),
            forall|i: int|
                0 <= i < nodes@.len() ==> forest@.contains_key((#[trigger] nodes@[i]).0)
                    && forest@[nodes@[i].0] is Indirect,
        decreases size - made,
    {
        let id = NodeId(random_number());
        let parent_index = random_below(nodes.len());
        let parent_id = nodes[parent_index];
        let ghost before = forest@;
        let ghost earlier = nodes@;
        let node = IndirectChunk::new(def);
        let ghost hung = Chunk::Indirect(node);
        let attached = grow(&mut forest, ChunkId(parent_id), label, ChunkId(id), Chunk::Indirect(node));
        assert(attached);
        nodes.push(id);
        made += 1;
        proof {
            assert(nodes@.drop_last() =~= earlier);
            assert(bare(node, def));
            assert(grown(
                before,
                forest@,
                ChunkId(nodes@[parent_index as int]),
                label,
                ChunkId(nodes@.last()),
                hung,
            ));
            assert(nodes_added(forest@, nodes@, label, def));
            lemma_nodes_added_keeps(forest@, nodes@, label, def);
        }
    }
    let ghost base = forest@;
    if chunks > 0 {
        // Color schema (rgba)
        let mut traits: Vec<(Label, OffsetSchema)> = Vec::new();
        let sub_def = Def(random_number());
        let mut channel: u32 = 0;
        while channel < 4
            invariant
                channel <= 4,
            decreases 4 - channel,
        {
            traits.push(
                (
                    Label(random_number()),
                    OffsetSchema {
                        id_offset: IdOffset(channel + 1),
                        byte_offset: channel,
                        schema: channel_schema(sub_def),
                    },
                ),
            );
            channel += 1;
        }
        let schema = ChunkSchema {
            def: Def(random_number()),
            node_count: #[verifier::truncate]
            (chunk_size as u32),
            bytes_per_node: 4,
            id_stride: 5,
            payload_size: None,
            traits,
        };
        // Labels drawn at random can coincide, which no schema allows.
        if schema.is_well_formed() {
            let chunk_schema = Rc::new(RootChunkSchema::new(schema));
            let mut pattern: Vec<u8> = Vec::new();
            pattern.push(1);
            pattern.push(2);
            pattern.push(3);
            pattern.push(4);
            add_chunks(&mut forest, &nodes, label, chunk_schema, &pattern, chunks, chunk_size);
        }
    }
    proof {
        assert(nodes_added(base, nodes@, label, def));
        assert(built(forest@, root_id, size as nat, chunks as nat));
        lemma_built(forest@, root_id, size as nat, chunks as nat);
    }
    (forest, root_id)
}

/// A root node with one uniform chunk of two nodes with one child each
/// under it, with ids drawn at random.
pub fn simple_tree() -> (r: (Forest, NodeId))
    ensures
        built(r.0@, r.1, 1, 1),
        r.0@.contains_key(r.1.0),
        chunks_valid(r.0@),
        closed(r.0@),
        r.0@.dom().finite(),
        r.0@.dom().len() <= 2,
{
    let mut forest = Forest::new();
    let def = Def(random_number());
    let root_id = NodeId(random_number());
    let mut nodes: Vec<NodeId> = Vec::new();
    nodes.push(root_id);
    let label = Label(random_number());
    let root = IndirectChunk::new(def);
    let ghost first = Chunk::Indirect(root);
    forest.insert(ChunkId(root_id), Chunk::Indirect(root));
    let ghost base = forest@;
    proof {
        assert(bare(root, def));
        assert(forest@ == Map::<u128, Chunk>::empty().insert(nodes@[0].0, first));
        assert(nodes_added(forest@, nodes@, label, def));
    }
    let sub_schema = channel_schema(Def(random_number()));
    let mut traits: Vec<(Label, OffsetSchema)> = Vec::new();
    traits.push(
        (
            Label(random_number()),
            OffsetSchema { id_offset: IdOffset(1), byte_offset: 0, schema: sub_schema },
        ),
    );
    let schema = ChunkSchema {
        def: Def(random_number()),
        node_count: 2,
        bytes_per_node: 1,
        id_stride: 2,
        payload_size: None,
        traits,
    };
    if schema.is_well_formed() {
        let chunk_schema = Rc::new(RootChunkSchema::new(schema));
        let mut pattern: Vec<u8> = Vec::new();
        pattern.push(1);
        pattern.push(2);
        add_chunks(&mut forest, &nodes, label, chunk_schema, &pattern, 1, 1);
    }
    proof {
        assert(built(forest@, root_id, 1, 1));
        lemma_built(forest@, root_id, 1, 1);
    }
    (forest, root_id)
}

/// The number of uniform chunks that `chunked_tree` asks for: as many
/// chunks of whole top level nodes, at most `per_chunk` nodes each, as
/// `size` nodes fill.
pub open spec fn chunks_wanted(size: nat, per_chunk: nat) -> nat {
    if per_chunk < PER_CHUNK_ITEM {
        0
    } else {
        size / (per_chunk / (PER_CHUNK_ITEM as nat) * PER_CHUNK_ITEM) as nat
    }
}

/// The number of single nodes that `chunked_tree` asks for: those that the
/// chunks leave of `size`, and at least one and a tenth of the chunks.
pub open spec fn nodes_wanted(size: nat, per_chunk: nat) -> nat {
    let chunks = chunks_wanted(size, per_chunk);
    let least = 1 + chunks / 10;
    let rest = if per_chunk < PER_CHUNK_ITEM {
        size
    } else {
        (size - chunks * (per_chunk / (PER_CHUNK_ITEM as nat) * PER_CHUNK_ITEM)) as nat
    };
    if least > rest {
        least
    } else {
        rest
    }
}

/// A tree of about `size` nodes, as many of them in uniform chunks of about
/// `per_chunk` nodes as fit. `per_chunk` is 0, for no chunks, or at least the
/// number of nodes under one top level node of a chunk.
pub fn chunked_tree(size: usize, per_chunk: usize) -> (r: (Forest, NodeId))
    requires
        per_chunk == 0 || per_chunk >= PER_CHUNK_ITEM,
    ensures
        built(
            r.0@,
            r.1,
            nodes_wanted(size as nat, per_chunk as nat),
            chunks_wanted(size as nat, per_chunk as nat),
        ),
        r.0@.contains_key(r.1.0),
        chunks_valid(r.0@),
        closed(r.0@),
        r.0@.dom().finite(),
        r.0@.dom().len() <= nodes_wanted(size as nat, per_chunk as nat) + chunks_wanted(
            size as nat,
            per_chunk as nat,
        ),
        per_chunk == 0 ==> forall|k: u128| r.0@.contains_key(k) ==> r.0@[k] is Indirect,
{
    let (chunks, chunk_size, in_chunks) = if per_chunk == 0 {
        (0, 0, 0)
    } else {
        let chunk_size = per_chunk / PER_CHUNK_ITEM;
        let per = chunk_size * PER_CHUNK_ITEM;
        let chunks = size / per;
        proof {
            vstd::arithmetic::div_mod::lemma_fundamental_div_mod(size as int, per as int);
            vstd::arithmetic::div_mod::lemma_mod_bound(size as int, per as int);
            assert(per * chunks == chunks * per) by (nonlinear_arith);
        }
        (chunks, chunk_size, chunks * per)
    };
    // Enough single nodes to hang the chunks under, and enough to really
    // have `size` nodes.
    let least = 1 + chunks / 10;
    let rest = size - in_chunks;
    let basic_nodes = if least > rest {
        least
    } else {
        rest
    };
    assert(chunks == chunks_wanted(size as nat, per_chunk as nat));
    assert(basic_nodes == nodes_wanted(size as nat, per_chunk as nat));
    big_tree(basic_nodes, chunks, chunk_size)
}

} // verus!
