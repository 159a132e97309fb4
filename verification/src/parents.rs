//! The parent index: for each chunk that some chunk refers to, which chunk
//! does, and under which label. It is brought up to date from the
//! differences between two snapshots of the chunk map.

use vstd::prelude::*;
use crate::chunk::ChunkId;
use crate::chunk_map::{chunk_map, chunk_map_diff, is_diff, ChunkDiff, ChunkMap};
use crate::enum_chunk::Chunk;
use crate::node_id::NodeId;
use crate::tree::{Label, ParentInfo};
use crate::util::ImHashMap;

verus! {

/// For the id of each chunk that some chunk refers to: which chunk does, and
/// under which label.
pub type ParentIndex = ImHashMap<u128, ParentInfo<ChunkId>>;

/// What a parent index holds: the parent recorded for each chunk id.
pub uninterp spec fn parent_map(m: &ParentIndex) -> Map<u128, ParentInfo<ChunkId>>;

/// `HashMap::new`: a parent index that holds nothing.
#[verifier::external_body]
pub(crate) fn parent_map_new() -> (r: ParentIndex)
    ensures
        forall|k: u128| !parent_map(&r).contains_key(k),
{
    ImHashMap::default()
}

/// `Clone` for hash maps: the copy holds the same parents.
#[verifier::external_body]
pub(crate) fn parent_map_clone(m: &ParentIndex) -> (r: ParentIndex)
    ensures
        parent_map(&r) == parent_map(m),
{
    m.clone()
}

/// `HashMap::get`, copied out: the parent recorded for the chunk id.
#[verifier::external_body]
pub(crate) fn parent_map_get(m: &ParentIndex, child: u128) -> (r: Option<ParentInfo<ChunkId>>)
    ensures
        match r {
            Some(info) => parent_map(m).contains_key(child) && info == parent_map(m)[child],
            None => !parent_map(m).contains_key(child),
        },
{
    m.get(&child).copied()
}

/// `HashMap::insert`: afterwards the chunk id leads to the new parent, and
/// every other id to what it led to before.
#[verifier::external_body]
pub(crate) fn parent_map_insert(m: &mut ParentIndex, child: u128, info: ParentInfo<ChunkId>)
    ensures
        parent_map(final(m)) == parent_map(old(m)).insert(child, info),
{
    m.insert(child, info);
}

/// `HashMap::remove`: afterwards the chunk id leads nowhere, and every other
/// id to what it led to before.
#[verifier::external_body]
pub(crate) fn parent_map_remove(m: &mut ParentIndex, child: u128)
    ensures
        parent_map(final(m)) == parent_map(old(m)).remove(child),
{
    m.remove(&child);
}

/// Whether `chunk` has `child` among its children, under whatever label.
pub open spec fn listed(chunk: Chunk, child: ChunkId) -> bool {
    exists|label: Label| #[trigger] chunk.children_under(label).contains(child)
}

/// Whether every parent that the index records is there and has the child
/// under the recorded label.
pub open spec fn index_sound(
    chunks: Map<u128, Chunk>,
    parents: Map<u128, ParentInfo<ChunkId>>,
) -> bool {
    forall|c: u128| #[trigger]
        parents.contains_key(c) ==> {
            &&& chunks.contains_key(parents[c].node.key())
            &&& chunks[parents[c].node.key()].children_under(parents[c].label).contains(
                ChunkId::of(c),
            )
        }
}

/// Whether the index agrees under `c` before and after a change.
pub open spec fn untouched(
    before: Map<u128, ParentInfo<ChunkId>>,
    after: Map<u128, ParentInfo<ChunkId>>,
    c: u128,
) -> bool {
    &&& after.contains_key(c) == before.contains_key(c)
    &&& before.contains_key(c) ==> after[c] == before[c]
}

/// What the index has to hold for a child of a chunk whose children were
/// gone through. Where the chunk, stored under `key`, was to be recorded: the
/// chunk as the parent, under a label that has the child. Where its children
/// were to be forgotten: nothing, if the index named the chunk as the parent
/// of the child; else what it held before.
pub open spec fn noted(
    before: Map<u128, ParentInfo<ChunkId>>,
    after: Map<u128, ParentInfo<ChunkId>>,
    c: u128,
    chunk: Chunk,
    key: u128,
    record: bool,
) -> bool {
    if record {
        &&& after.contains_key(c)
        &&& after[c].node == ChunkId::of(key)
        &&& chunk.children_under(after[c].label).contains(ChunkId::of(c))
    } else if before.contains_key(c) && before[c].node == ChunkId::of(key) {
        !after.contains_key(c)
    } else {
        untouched(before, after, c)
    }
}

/// Whether `after` is `before` with the chunk stored under `key` recorded as
/// the parent of each of its children, under a label that has the child, and
/// nothing else changed.
pub open spec fn recorded(
    before: Map<u128, ParentInfo<ChunkId>>,
    after: Map<u128, ParentInfo<ChunkId>>,
    key: u128,
    chunk: Chunk,
) -> bool {
    forall|c: u128|
        #![trigger after.contains_key(c)]
        if listed(chunk, ChunkId::of(c)) {
            noted(before, after, c, chunk, key, true)
        } else {
            untouched(before, after, c)
        }
}

/// Whether `after` is `before` without the entries that the chunk stored
/// under `key` had contributed: without a parent for each child of `chunk`
/// for which the index named that chunk as the parent, and nothing else
/// changed.
pub open spec fn forgotten(
    before: Map<u128, ParentInfo<ChunkId>>,
    after: Map<u128, ParentInfo<ChunkId>>,
    key: u128,
    chunk: Chunk,
) -> bool {
    forall|c: u128|
        #![trigger after.contains_key(c)]
        if listed(chunk, ChunkId::of(c)) {
            noted(before, after, c, chunk, key, false)
        } else {
            untouched(before, after, c)
        }
}

/// Whether the child was met when the traits before number `i` were walked
/// in full, and of trait number `i` the children before number `j`.
pub open spec fn met(chunk: Chunk, labels: Seq<Label>, i: int, j: int, child: ChunkId) -> bool {
    ||| exists|t: int|
        0 <= t < i && t < labels.len() && (#[trigger] chunk.children_under(labels[t])).contains(
            child,
        )
    ||| (0 <= i < labels.len() && exists|p: int|
        0 <= p < j && p < chunk.children_under(labels[i]).len() && #[trigger] chunk.children_under(
            labels[i],
        )[p] == child)
}

/// `recorded` or `forgotten`, for the children met so far.
pub open spec fn noted_so_far(
    before: Map<u128, ParentInfo<ChunkId>>,
    after: Map<u128, ParentInfo<ChunkId>>,
    chunk: Chunk,
    key: u128,
    record: bool,
    labels: Seq<Label>,
    i: int,
    j: int,
) -> bool {
    forall|c: u128|
        #![trigger after.contains_key(c)]
        if met(chunk, labels, i, j, ChunkId::of(c)) {
            noted(before, after, c, chunk, key, record)
        } else {
            untouched(before, after, c)
        }
}

/// Walking trait `i` to its end is the same as standing before trait `i + 1`.
proof fn lemma_met_next_trait(chunk: Chunk, labels: Seq<Label>, i: int, child: ChunkId)
    requires
        0 <= i < labels.len(),
    ensures
        met(chunk, labels, i, chunk.children_under(labels[i]).len() as int, child) == met(
            chunk,
            labels,
            i + 1,
            0,
            child,
        ),
{
    let all = chunk.children_under(labels[i]);
    if met(chunk, labels, i, all.len() as int, child) {
        if exists|t: int|
            0 <= t < i && t < labels.len() && (#[trigger] chunk.children_under(labels[t])).contains(
                child,
            ) {
            let t = choose|t: int|
                0 <= t < i && t < labels.len() && (#[trigger] chunk.children_under(
                    labels[t],
                )).contains(child);
            assert(chunk.children_under(labels[t]).contains(child));
        } else {
            let p = choose|p: int| 0 <= p < all.len() && #[trigger] all[p] == child;
            assert(chunk.children_under(labels[i]).contains(child));
        }
    }
    if met(chunk, labels, i + 1, 0, child) {
        let t = choose|t: int|
            0 <= t < i + 1 && t < labels.len() && (#[trigger] chunk.children_under(
                labels[t],
            )).contains(child);
        if t == i {
            let p = choose|p: int| 0 <= p < all.len() && all[p] == child;
            assert(all[p] == child);
        } else {
            assert(chunk.children_under(labels[t]).contains(child));
        }
    }
}

/// Once every trait was walked, the children met are all the children.
proof fn lemma_met_all(chunk: Chunk, labels: Seq<Label>, child: ChunkId)
    requires
        forall|label: Label| chunk.children().contains_key(label.0) <==> labels.contains(label),
    ensures
        met(chunk, labels, labels.len() as int, 0, child) == listed(chunk, child),
{
    if listed(chunk, child) {
        let label = choose|label: Label| #[trigger] chunk.children_under(label).contains(child);
        assert(chunk.children().contains_key(label.0));
        assert(labels.contains(label));
        let t = choose|t: int| 0 <= t < labels.len() && labels[t] == label;
        assert(chunk.children_under(labels[t]).contains(child));
    }
    if met(chunk, labels, labels.len() as int, 0, child) {
        let t = choose|t: int|
            0 <= t < labels.len() && t < labels.len() && (#[trigger] chunk.children_under(
                labels[t],
            )).contains(child);
        assert(chunk.children_under(labels[t]).contains(child));
    }
}

/// Goes through the children of a chunk that is or was stored under `key`.
/// Where `record` is set it records the chunk as the parent of each child;
/// else it drops the parent of each child for which the index names the
/// chunk as the parent.
fn note_children(parent_data: &mut ParentIndex, chunk: &Chunk, key: u128, record: bool)
    ensures
        record ==> recorded(
            parent_map(old(parent_data)),
            parent_map(final(parent_data)),
            key,
            *chunk,
        ),
        !record ==> forgotten(
            parent_map(old(parent_data)),
            parent_map(final(parent_data)),
            key,
            *chunk,
        ),
{
    let ghost before = parent_map(parent_data);
    let labels = chunk.get_traits();
    let mut i: usize = 0;
    while i < labels.len()
        invariant
            i <= labels.len(),
            forall|label: Label| chunk.children().contains_key(label.0) <==> labels@.contains(label),
            noted_so_far(before, parent_map(parent_data), *chunk, key, record, labels@, i as int, 0),
        decreases labels.len() - i,
    {
        let label = labels[i];
        let mut ids = chunk.get_trait(label);
        let ghost all = chunk.children_under(label);
        let ghost mut j: int = 0;
        assert(ids.remaining() =~= all.skip(0));
        loop
            invariant_except_break
                0 <= j <= all.len(),
                ids.remaining() == all.skip(j),
            invariant
                i < labels.len(),
                label == labels@[i as int],
                all == chunk.children_under(label),
                noted_so_far(before, parent_map(parent_data), *chunk, key, record, labels@, i as int, j),
            ensures
                j == all.len(),
            decreases all.len() - j,
        {
            let ghost current = parent_map(parent_data);
            match ids.next() {
                Some(child) => {
                    if record {
                        let info = ParentInfo { label, node: ChunkId(NodeId(key)) };
                        parent_map_insert(parent_data, child.number(), info);
                    } else {
                        match parent_map_get(parent_data, child.number()) {
                            Some(info) => {
                                if info.node == ChunkId(NodeId(key)) {
                                    parent_map_remove(parent_data, child.number());
                                }
                            },
                            None => {},
                        }
                    }
                    proof {
                        assert(child == all[j]);
                        assert(all.skip(j).skip(1) =~= all.skip(j + 1));
                        let after = parent_map(parent_data);
                        assert forall|c: u128|
                            #![trigger after.contains_key(c)]
                            if met(*chunk, labels@, i as int, j + 1, ChunkId::of(c)) {
                                noted(before, after, c, *chunk, key, record)
                            } else {
                                untouched(before, after, c)
                            } by {
                            if c == child.key() {
                                assert(chunk.children_under(labels@[i as int])[j] == ChunkId::of(c));
                                assert(all.contains(child));
                                assert(current.contains_key(c) ==> true);
                                if met(*chunk, labels@, i as int, j, ChunkId::of(c)) {
                                    assert(noted(before, current, c, *chunk, key, record));
                                } else {
                                    assert(untouched(before, current, c));
                                }
                            } else {
                                assert(current.contains_key(c) == after.contains_key(c));
                                if met(*chunk, labels@, i as int, j + 1, ChunkId::of(c)) {
                                    if !met(*chunk, labels@, i as int, j, ChunkId::of(c)) {
                                        let p = choose|p: int|
                                            0 <= p < j + 1 && p < all.len() && #[trigger] all[p]
                                                == ChunkId::of(c);
                                        assert(p != j);
                                        assert(chunk.children_under(labels@[i as int])[p]
                                            == ChunkId::of(c));
                                    }
                                } else {
                                    if met(*chunk, labels@, i as int, j, ChunkId::of(c)) {
                                        if exists|t: int|
                                            0 <= t < i && t < labels@.len() && (
                                            #[trigger] chunk.children_under(labels@[t])).contains(
                                                ChunkId::of(c),
                                            ) {
                                        } else {
                                            let p = choose|p: int|
                                                0 <= p < j && p < all.len() && #[trigger] all[p]
                                                    == ChunkId::of(c);
                                            assert(chunk.children_under(labels@[i as int])[p]
                                                == ChunkId::of(c));
                                        }
                                    }
                                }
                            }
                        }
                        j = j + 1;
                    }
                },
                None => {
                    break ;
                },
            }
        }
        proof {
            assert forall|c: u128|
                met(*chunk, labels@, i as int, j, ChunkId::of(c)) == met(
                    *chunk,
                    labels@,
                    i + 1,
                    0,
                    ChunkId::of(c),
                ) by {
                lemma_met_next_trait(*chunk, labels@, i as int, ChunkId::of(c));
            }
        }
        i += 1;
    }
    proof {
        assert forall|c: u128|
            met(*chunk, labels@, labels@.len() as int, 0, ChunkId::of(c)) == listed(
                *chunk,
                ChunkId::of(c),
            ) by {
            lemma_met_all(*chunk, labels@, ChunkId::of(c));
        }
    }
}

/// Whether `after` is `before` changed as one difference asks: the children
/// of an added chunk recorded, the entries that a removed chunk had
/// contributed dropped, and for an updated chunk the entries of the old chunk
/// dropped and then the children of the new one recorded.
pub open spec fn step(
    before: Map<u128, ParentInfo<ChunkId>>,
    after: Map<u128, ParentInfo<ChunkId>>,
    item: ChunkDiff<'_>,
) -> bool {
    match item {
        ChunkDiff::Add(k, v) => recorded(before, after, k, *v),
        ChunkDiff::Update { was, now } => exists|mid: Map<u128, ParentInfo<ChunkId>>|
            forgotten(before, mid, was.0, *was.1) && recorded(mid, after, now.0, *now.1),
        ChunkDiff::Remove(k, v) => forgotten(before, after, k, *v),
    }
}

/// Whether `after` is `before` changed as the differences ask, one after
/// the other.
pub open spec fn steps(
    before: Map<u128, ParentInfo<ChunkId>>,
    after: Map<u128, ParentInfo<ChunkId>>,
    items: Seq<ChunkDiff<'_>>,
) -> bool
    decreases items.len(),
{
    if items.len() == 0 {
        after == before
    } else {
        exists|mid: Map<u128, ParentInfo<ChunkId>>|
            steps(before, mid, items.drop_last()) && step(mid, after, items.last())
    }
}

/// Whether one of the first `i` differences is about key `k`.
pub open spec fn settled(items: Seq<ChunkDiff<'_>>, i: int, k: u128) -> bool {
    exists|t: int| 0 <= t < i && t < items.len() && (#[trigger] items[t]).key() == k
}

/// The map between the old and the new one: new under the keys of the first
/// `i` differences, old under all others.
pub open spec fn partly_new(
    old_map: Map<u128, Chunk>,
    new_map: Map<u128, Chunk>,
    items: Seq<ChunkDiff<'_>>,
    i: int,
) -> Map<u128, Chunk> {
    Map::new(
        |k: u128|
            if settled(items, i, k) {
                new_map.contains_key(k)
            } else {
                old_map.contains_key(k)
            },
        |k: u128|
            if settled(items, i, k) {
                new_map[k]
            } else {
                old_map[k]
            },
    )
}

/// One difference applied to an index that is sound for the map so far
/// leaves it sound for the map with that difference.
proof fn lemma_step_sound(
    old_map: Map<u128, Chunk>,
    new_map: Map<u128, Chunk>,
    items: Seq<ChunkDiff<'_>>,
    i: int,
    cur: Map<u128, ParentInfo<ChunkId>>,
    next: Map<u128, ParentInfo<ChunkId>>,
)
    requires
        is_diff(old_map, new_map, items),
        0 <= i < items.len(),
        index_sound(partly_new(old_map, new_map, items, i), cur),
        step(cur, next, items[i]),
    ensures
        index_sound(partly_new(old_map, new_map, items, i + 1), next),
{
    let k = items[i].key();
    let here = partly_new(old_map, new_map, items, i);
    let there = partly_new(old_map, new_map, items, i + 1);
    assert(items[i].agrees(old_map, new_map));
    assert(!settled(items, i, k)) by {
        if settled(items, i, k) {
            let t = choose|t: int| 0 <= t < i && t < items.len() && (#[trigger] items[t]).key() == k;
            assert(items[t].key() < items[i].key());
        }
    }
    assert(settled(items, i + 1, k)) by {
        assert(items[i].key() == k);
    }
    assert forall|j: u128| j != k implies settled(items, i + 1, j) == settled(items, i, j) by {
        if settled(items, i + 1, j) {
            let t = choose|t: int|
                0 <= t < i + 1 && t < items.len() && (#[trigger] items[t]).key() == j;
            assert(items[t].key() == j);
        }
        if settled(items, i, j) {
            let t = choose|t: int| 0 <= t < i && t < items.len() && (#[trigger] items[t]).key() == j;
            assert(items[t].key() == j);
        }
    }
    assert forall|j: u128| j != k implies there.contains_key(j) == here.contains_key(j) && (
    here.contains_key(j) ==> there[j] == here[j]) by {}
    match items[i] {
        ChunkDiff::Add(_, v) => {
            assert forall|c: u128| #[trigger] next.contains_key(c) implies {
                &&& there.contains_key(next[c].node.key())
                &&& there[next[c].node.key()].children_under(next[c].label).contains(ChunkId::of(c))
            } by {
                if !listed(*v, ChunkId::of(c)) {
                    assert(untouched(cur, next, c));
                    assert(cur.contains_key(c));
                }
            }
        },
        ChunkDiff::Update { was, now } => {
            let mid = choose|mid: Map<u128, ParentInfo<ChunkId>>|
                forgotten(cur, mid, was.0, *was.1) && recorded(mid, next, now.0, *now.1);
            assert forall|c: u128| #[trigger] next.contains_key(c) implies {
                &&& there.contains_key(next[c].node.key())
                &&& there[next[c].node.key()].children_under(next[c].label).contains(ChunkId::of(c))
            } by {
                if !listed(*now.1, ChunkId::of(c)) {
                    assert(untouched(mid, next, c));
                    assert(mid.contains_key(c));
                    if listed(*was.1, ChunkId::of(c)) {
                        assert(noted(cur, mid, c, *was.1, k, false));
                    }
                    assert(untouched(cur, mid, c));
                    assert(cur.contains_key(c));
                    if cur[c].node.key() == k {
                        assert(cur[c].node == ChunkId::of(k));
                        assert(was.1.children_under(cur[c].label).contains(ChunkId::of(c)));
                        assert(listed(*was.1, ChunkId::of(c)));
                    }
                }
            }
        },
        ChunkDiff::Remove(_, v) => {
            assert forall|c: u128| #[trigger] next.contains_key(c) implies {
                &&& there.contains_key(next[c].node.key())
                &&& there[next[c].node.key()].children_under(next[c].label).contains(ChunkId::of(c))
            } by {
                if listed(*v, ChunkId::of(c)) {
                    assert(noted(cur, next, c, *v, k, false));
                }
                assert(untouched(cur, next, c));
                assert(cur.contains_key(c));
                if cur[c].node.key() == k {
                    assert(cur[c].node == ChunkId::of(k));
                    assert(v.children_under(cur[c].label).contains(ChunkId::of(c)));
                    assert(listed(*v, ChunkId::of(c)));
                }
            }
        },
    }
}

/// Chunks that are the same refer to the same chunks.
pub proof fn lemma_same_children(a: Chunk, b: Chunk)
    requires
        a.same_as(&b),
    ensures
        a.children() == b.children(),
{
}

/// An index that is sound once every difference was applied is sound for
/// the new map.
proof fn lemma_all_settled(
    old_map: Map<u128, Chunk>,
    new_map: Map<u128, Chunk>,
    items: Seq<ChunkDiff<'_>>,
    cur: Map<u128, ParentInfo<ChunkId>>,
)
    requires
        is_diff(old_map, new_map, items),
        index_sound(partly_new(old_map, new_map, items, items.len() as int), cur),
    ensures
        index_sound(new_map, cur),
{
    let last = partly_new(old_map, new_map, items, items.len() as int);
    assert forall|c: u128| #[trigger] cur.contains_key(c) implies {
        &&& new_map.contains_key(cur[c].node.key())
        &&& new_map[cur[c].node.key()].children_under(cur[c].label).contains(ChunkId::of(c))
    } by {
        let k = cur[c].node.key();
        assert(last.contains_key(k));
        if !settled(items, items.len() as int, k) {
            assert forall|i: int| 0 <= i < items.len() implies (#[trigger] items[i]).key() != k by {
                if items[i].key() == k {
                    assert(settled(items, items.len() as int, k));
                }
            }
            lemma_same_children(old_map[k], new_map[k]);
        }
    }
}

/// Whether no chunk id is the child of two chunks, or a child under two
/// labels of one chunk: the trees of the forest are trees.
pub open spec fn single_parent(chunks: Map<u128, Chunk>) -> bool {
    forall|j: u128, k: u128, a: Label, b: Label, c: ChunkId|
        chunks.contains_key(j) && chunks.contains_key(k) && (
        #[trigger] chunks[j].children_under(a).contains(c)) && (
        #[trigger] chunks[k].children_under(b).contains(c)) ==> j == k && a == b
}

/// The chunk that has the chunk stored under `id` as a child, and the label
/// under which it has it, if there is such a chunk.
pub open spec fn chunk_parent(chunks: Map<u128, Chunk>, id: ChunkId) -> Option<(NodeId, Label)> {
    if exists|k: u128, l: Label|
        chunks.contains_key(k) && #[trigger] chunks[k].children_under(l).contains(id) {
        let (k, l) = choose|k: u128, l: Label|
            chunks.contains_key(k) && #[trigger] chunks[k].children_under(l).contains(id);
        Some((NodeId(k), l))
    } else {
        None
    }
}

/// Where no chunk id has two parents, a chunk that has `id` as a child is
/// the parent of `id`.
pub proof fn lemma_chunk_parent(chunks: Map<u128, Chunk>, k: u128, l: Label, id: ChunkId)
    requires
        single_parent(chunks),
        chunks.contains_key(k),
        chunks[k].children_under(l).contains(id),
    ensures
        chunk_parent(chunks, id) == Some((NodeId(k), l)),
{
    let (j, a) = choose|j: u128, a: Label|
        chunks.contains_key(j) && #[trigger] chunks[j].children_under(a).contains(id);
    assert(chunks[j].children_under(a).contains(id));
}

/// Whether the index has a parent for every chunk id that a chunk has as a
/// child.
pub open spec fn index_complete(
    chunks: Map<u128, Chunk>,
    parents: Map<u128, ParentInfo<ChunkId>>,
) -> bool {
    forall|k: u128, l: Label, c: ChunkId|
        chunks.contains_key(k) && (#[trigger] chunks[k].children_under(l).contains(c))
            ==> parents.contains_key(c.key())
}

/// Whether the index is the parent index of the chunks: it names a parent
/// for exactly the chunk ids that some chunk has as a child, and for each of
/// them that chunk and the label under which it has the child.
pub open spec fn index_exact(
    chunks: Map<u128, Chunk>,
    parents: Map<u128, ParentInfo<ChunkId>>,
) -> bool {
    &&& index_sound(chunks, parents)
    &&& forall|k: u128, l: Label, c: ChunkId|
        chunks.contains_key(k) && (#[trigger] chunks[k].children_under(l).contains(c)) ==> {
            &&& parents.contains_key(c.key())
            &&& parents[c.key()].node == ChunkId::of(k)
            &&& parents[c.key()].label == l
        }
}

/// Where no chunk id has two parents, an index that is sound and complete
/// is the parent index.
pub proof fn lemma_index_exact(chunks: Map<u128, Chunk>, parents: Map<u128, ParentInfo<ChunkId>>)
    requires
        single_parent(chunks),
        index_sound(chunks, parents),
        index_complete(chunks, parents),
    ensures
        index_exact(chunks, parents),
{
    assert forall|k: u128, l: Label, c: ChunkId|
        chunks.contains_key(k) && (#[trigger] chunks[k].children_under(l).contains(c)) implies {
        &&& parents.contains_key(c.key())
        &&& parents[c.key()].node == ChunkId::of(k)
        &&& parents[c.key()].label == l
    } by {
        let p = parents[c.key()];
        assert(parents.contains_key(c.key()));
        assert(c == ChunkId::of(c.key()));
        assert(chunks[p.node.key()].children_under(p.label).contains(c));
        assert(p.node == ChunkId::of(p.node.key()));
    }
}

/// Whether every child of a chunk that a settled difference has put into the
/// map has that chunk as its parent in the index.
pub open spec fn settled_at_home(
    new_map: Map<u128, Chunk>,
    items: Seq<ChunkDiff<'_>>,
    i: int,
    parents: Map<u128, ParentInfo<ChunkId>>,
) -> bool {
    forall|k: u128, l: Label, c: ChunkId|
        settled(items, i, k) && new_map.contains_key(k) && (
        #[trigger] new_map[k].children_under(l).contains(c)) ==> parents.contains_key(c.key())
            && parents[c.key()].node == ChunkId::of(k)
}

/// The key of difference `i` is not settled before it, and is the one key
/// that is settled after it and was not before.
proof fn lemma_settled_next(
    old_map: Map<u128, Chunk>,
    new_map: Map<u128, Chunk>,
    items: Seq<ChunkDiff<'_>>,
    i: int,
)
    requires
        is_diff(old_map, new_map, items),
        0 <= i < items.len(),
    ensures
        !settled(items, i, items[i].key()),
        settled(items, i + 1, items[i].key()),
        forall|j: u128| j != items[i].key() ==> settled(items, i + 1, j) == settled(items, i, j),
        items[i].agrees(old_map, new_map),
{
    let k = items[i].key();
    if settled(items, i, k) {
        let t = choose|t: int| 0 <= t < i && t < items.len() && (#[trigger] items[t]).key() == k;
        assert(items[t].key() < items[i].key());
    }
    assert(items[i].key() == k);
    assert forall|j: u128| j != k implies settled(items, i + 1, j) == settled(items, i, j) by {
        if settled(items, i + 1, j) {
            let t = choose|t: int|
                0 <= t < i + 1 && t < items.len() && (#[trigger] items[t]).key() == j;
            assert(items[t].key() == j);
        }
        if settled(items, i, j) {
            let t = choose|t: int| 0 <= t < i && t < items.len() && (#[trigger] items[t]).key() == j;
            assert(items[t].key() == j);
        }
    }
}

/// Dropping what the old chunk of a difference had contributed leaves the
/// index exact for the map without that chunk.
proof fn lemma_forget_exact(
    old_map: Map<u128, Chunk>,
    new_map: Map<u128, Chunk>,
    items: Seq<ChunkDiff<'_>>,
    i: int,
    cur: Map<u128, ParentInfo<ChunkId>>,
    mid: Map<u128, ParentInfo<ChunkId>>,
)
    requires
        is_diff(old_map, new_map, items),
        0 <= i < items.len(),
        old_map.contains_key(items[i].key()),
        single_parent(old_map),
        index_sound(partly_new(old_map, new_map, items, i), cur),
        index_complete(partly_new(old_map, new_map, items, i), cur),
        settled_at_home(new_map, items, i, cur),
        forgotten(cur, mid, items[i].key(), old_map[items[i].key()]),
    ensures
        index_sound(partly_new(old_map, new_map, items, i).remove(items[i].key()), mid),
        index_complete(partly_new(old_map, new_map, items, i).remove(items[i].key()), mid),
        settled_at_home(new_map, items, i, mid),
{
    let k = items[i].key();
    let v = old_map[k];
    let here = partly_new(old_map, new_map, items, i);
    let hole = here.remove(k);
    lemma_settled_next(old_map, new_map, items, i);
    assert(here.contains_key(k) && here[k] == v);
    // What an entry of `mid` was before.
    assert forall|c: u128| #[trigger] mid.contains_key(c) implies cur.contains_key(c) && mid[c]
        == cur[c] && cur[c].node.key() != k by {
        if listed(v, ChunkId::of(c)) {
            assert(noted(cur, mid, c, v, k, false));
        }
        assert(untouched(cur, mid, c));
        if cur[c].node.key() == k {
            assert(cur[c].node == ChunkId::of(k));
            assert(here[k].children_under(cur[c].label).contains(ChunkId::of(c)));
            assert(listed(v, ChunkId::of(c)));
        }
    }
    assert forall|c: u128| #[trigger] mid.contains_key(c) implies {
        &&& hole.contains_key(mid[c].node.key())
        &&& hole[mid[c].node.key()].children_under(mid[c].label).contains(ChunkId::of(c))
    } by {
        assert(cur.contains_key(c));
    }
    // An entry stays unless the dropped chunk had contributed it.
    assert forall|c: u128| cur.contains_key(c) && cur[c].node != ChunkId::of(k) implies (
    #[trigger] mid.contains_key(c)) && mid[c] == cur[c] by {
        if listed(v, ChunkId::of(c)) {
            assert(noted(cur, mid, c, v, k, false));
        } else {
            assert(untouched(cur, mid, c));
        }
    }
    assert forall|j: u128, l: Label, c: ChunkId|
        hole.contains_key(j) && (#[trigger] hole[j].children_under(l).contains(
            c,
        )) implies mid.contains_key(c.key()) by {
        assert(here.contains_key(j) && here[j].children_under(l).contains(c));
        assert(cur.contains_key(c.key()));
        assert(c == ChunkId::of(c.key()));
        if cur[c.key()].node == ChunkId::of(k) {
            assert(here[k].children_under(cur[c.key()].label).contains(c));
            if settled(items, i, j) {
                assert(new_map[j].children_under(l).contains(c));
                assert(cur[c.key()].node == ChunkId::of(j));
            } else {
                assert(old_map[j].children_under(l).contains(c));
                assert(old_map[k].children_under(cur[c.key()].label).contains(c));
            }
        }
    }
    assert forall|j: u128, l: Label, c: ChunkId|
        settled(items, i, j) && new_map.contains_key(j) && (
        #[trigger] new_map[j].children_under(l).contains(c)) implies mid.contains_key(c.key())
        && mid[c.key()].node == ChunkId::of(j) by {
        assert(cur.contains_key(c.key()) && cur[c.key()].node == ChunkId::of(j));
        assert(j != k);
        assert(ChunkId::of(j) != ChunkId::of(k));
        assert(mid.contains_key(c.key()) && mid[c.key()] == cur[c.key()]);
    }
}

/// Recording the children of the new chunk of a difference leaves the index
/// exact for the map with that chunk.
proof fn lemma_record_exact(
    old_map: Map<u128, Chunk>,
    new_map: Map<u128, Chunk>,
    items: Seq<ChunkDiff<'_>>,
    i: int,
    mid: Map<u128, ParentInfo<ChunkId>>,
    next: Map<u128, ParentInfo<ChunkId>>,
)
    requires
        is_diff(old_map, new_map, items),
        0 <= i < items.len(),
        new_map.contains_key(items[i].key()),
        single_parent(new_map),
        index_sound(partly_new(old_map, new_map, items, i).remove(items[i].key()), mid),
        index_complete(partly_new(old_map, new_map, items, i).remove(items[i].key()), mid),
        settled_at_home(new_map, items, i, mid),
        recorded(mid, next, items[i].key(), new_map[items[i].key()]),
    ensures
        index_sound(partly_new(old_map, new_map, items, i + 1), next),
        index_complete(partly_new(old_map, new_map, items, i + 1), next),
        settled_at_home(new_map, items, i + 1, next),
{
    let k = items[i].key();
    let v = new_map[k];
    let hole = partly_new(old_map, new_map, items, i).remove(k);
    let there = partly_new(old_map, new_map, items, i + 1);
    lemma_settled_next(old_map, new_map, items, i);
    assert(there =~= hole.insert(k, v));
    assert forall|c: u128| #[trigger] next.contains_key(c) implies {
        &&& there.contains_key(next[c].node.key())
        &&& there[next[c].node.key()].children_under(next[c].label).contains(ChunkId::of(c))
    } by {
        if listed(v, ChunkId::of(c)) {
            assert(noted(mid, next, c, v, k, true));
        } else {
            assert(untouched(mid, next, c));
            assert(mid.contains_key(c));
        }
    }
    assert forall|j: u128, l: Label, c: ChunkId|
        there.contains_key(j) && (#[trigger] there[j].children_under(l).contains(
            c,
        )) implies next.contains_key(c.key()) by {
        assert(c == ChunkId::of(c.key()));
        if listed(v, c) {
            assert(noted(mid, next, c.key(), v, k, true));
        } else {
            assert(untouched(mid, next, c.key()));
            assert(j != k);
            assert(hole.contains_key(j) && hole[j].children_under(l).contains(c));
        }
    }
    assert forall|j: u128, l: Label, c: ChunkId|
        settled(items, i + 1, j) && new_map.contains_key(j) && (
        #[trigger] new_map[j].children_under(l).contains(c)) implies next.contains_key(c.key())
        && next[c.key()].node == ChunkId::of(j) by {
        assert(c == ChunkId::of(c.key()));
        if j == k {
            assert(listed(v, c));
            assert(noted(mid, next, c.key(), v, k, true));
        } else {
            assert(settled(items, i, j));
            assert(mid.contains_key(c.key()) && mid[c.key()].node == ChunkId::of(j));
            if listed(v, c) {
                let b = choose|b: Label| #[trigger] v.children_under(b).contains(c);
                assert(new_map[k].children_under(b).contains(c));
            } else {
                assert(untouched(mid, next, c.key()));
            }
        }
    }
}

/// One difference applied to an index that is exact for the map so far
/// leaves it exact for the map with that difference.
proof fn lemma_step_exact(
    old_map: Map<u128, Chunk>,
    new_map: Map<u128, Chunk>,
    items: Seq<ChunkDiff<'_>>,
    i: int,
    cur: Map<u128, ParentInfo<ChunkId>>,
    next: Map<u128, ParentInfo<ChunkId>>,
)
    requires
        is_diff(old_map, new_map, items),
        0 <= i < items.len(),
        single_parent(old_map),
        single_parent(new_map),
        index_sound(partly_new(old_map, new_map, items, i), cur),
        index_complete(partly_new(old_map, new_map, items, i), cur),
        settled_at_home(new_map, items, i, cur),
        step(cur, next, items[i]),
    ensures
        index_sound(partly_new(old_map, new_map, items, i + 1), next),
        index_complete(partly_new(old_map, new_map, items, i + 1), next),
        settled_at_home(new_map, items, i + 1, next),
{
    let k = items[i].key();
    let here = partly_new(old_map, new_map, items, i);
    let there = partly_new(old_map, new_map, items, i + 1);
    lemma_settled_next(old_map, new_map, items, i);
    match items[i] {
        ChunkDiff::Add(_, v) => {
            assert(here.remove(k) =~= here);
            lemma_record_exact(old_map, new_map, items, i, cur, next);
        },
        ChunkDiff::Update { was, now } => {
            let mid = choose|mid: Map<u128, ParentInfo<ChunkId>>|
                forgotten(cur, mid, was.0, *was.1) && recorded(mid, next, now.0, *now.1);
            lemma_forget_exact(old_map, new_map, items, i, cur, mid);
            lemma_record_exact(old_map, new_map, items, i, mid, next);
        },
        ChunkDiff::Remove(_, v) => {
            lemma_forget_exact(old_map, new_map, items, i, cur, next);
            assert(there =~= here.remove(k));
            assert forall|j: u128, l: Label, c: ChunkId|
                settled(items, i + 1, j) && new_map.contains_key(j) && (
                #[trigger] new_map[j].children_under(l).contains(c)) implies next.contains_key(
                c.key(),
            ) && next[c.key()].node == ChunkId::of(j) by {
                assert(settled(items, i, j));
            }
        },
    }
}

/// An index that is complete once every difference was applied is complete
/// for the new map.
proof fn lemma_all_settled_complete(
    old_map: Map<u128, Chunk>,
    new_map: Map<u128, Chunk>,
    items: Seq<ChunkDiff<'_>>,
    cur: Map<u128, ParentInfo<ChunkId>>,
)
    requires
        is_diff(old_map, new_map, items),
        index_complete(partly_new(old_map, new_map, items, items.len() as int), cur),
    ensures
        index_complete(new_map, cur),
{
    let last = partly_new(old_map, new_map, items, items.len() as int);
    assert forall|k: u128, l: Label, c: ChunkId|
        new_map.contains_key(k) && (#[trigger] new_map[k].children_under(l).contains(
            c,
        )) implies cur.contains_key(c.key()) by {
        if !settled(items, items.len() as int, k) {
            assert forall|i: int| 0 <= i < items.len() implies (#[trigger] items[i]).key() != k by {
                if items[i].key() == k {
                    assert(settled(items, items.len() as int, k));
                }
            }
            lemma_same_children(old_map[k], new_map[k]);
        }
        assert(last.contains_key(k) && last[k].children_under(l).contains(c));
    }
}

/// Brings the parent data, which stands for `old_map`, up to date with `map`:
/// takes the differences between the two maps by ascending key and applies
/// them one after the other.
pub fn update_forest_parents(map: &ChunkMap, old_map: &ChunkMap, parent_data: &mut ParentIndex)
    ensures
        exists|items: Seq<ChunkDiff<'_>>|
            is_diff(chunk_map(old_map), chunk_map(map), items) && steps(
                parent_map(old(parent_data)),
                parent_map(final(parent_data)),
                items,
            ),
        index_sound(chunk_map(old_map), parent_map(old(parent_data))) ==> index_sound(
            chunk_map(map),
            parent_map(final(parent_data)),
        ),
        single_parent(chunk_map(old_map)) && single_parent(chunk_map(map)) && index_exact(
            chunk_map(old_map),
            parent_map(old(parent_data)),
        ) ==> index_exact(chunk_map(map), parent_map(final(parent_data))),
{
    let diff = chunk_map_diff(old_map, map);
    let ghost before = parent_map(parent_data);
    let ghost o = chunk_map(old_map);
    let ghost n = chunk_map(map);
    let ghost exact = single_parent(o) && single_parent(n) && index_exact(o, before);
    proof {
        assert(partly_new(o, n, diff@, 0) =~= o);
        assert(diff@.take(0) =~= Seq::empty());
    }
    let mut i: usize = 0;
    while i < diff.len()
        invariant
            i <= diff.len(),
            is_diff(o, n, diff@),
            steps(before, parent_map(parent_data), diff@.take(i as int)),
            index_sound(o, before) ==> index_sound(
                partly_new(o, n, diff@, i as int),
                parent_map(parent_data),
            ),
            exact == (single_parent(o) && single_parent(n) && index_exact(o, before)),
            exact ==> index_complete(partly_new(o, n, diff@, i as int), parent_map(parent_data))
                && settled_at_home(n, diff@, i as int, parent_map(parent_data)),
        decreases diff.len() - i,
    {
        let ghost cur = parent_map(parent_data);
        match &diff[i] {
            ChunkDiff::Add(k, v) => {
                note_children(parent_data, v, *k, true);
            },
            ChunkDiff::Update { was, now } => {
                // Treated like a removal followed by an insertion.
                note_children(parent_data, was.1, was.0, false);
                note_children(parent_data, now.1, now.0, true);
            },
            ChunkDiff::Remove(k, v) => {
                note_children(parent_data, v, *k, false);
            },
        }
        proof {
            let next = parent_map(parent_data);
            assert(step(cur, next, diff@[i as int]));
            let upto = diff@.take(i + 1);
            assert(upto.drop_last() =~= diff@.take(i as int));
            assert(upto.last() == diff@[i as int]);
            assert(steps(before, next, upto));
            if index_sound(o, before) {
                lemma_step_sound(o, n, diff@, i as int, cur, next);
            }
            if exact {
                lemma_step_exact(o, n, diff@, i as int, cur, next);
            }
        }
        i += 1;
    }
    proof {
        assert(diff@.take(diff@.len() as int) =~= diff@);
        if index_sound(o, before) {
            lemma_all_settled(o, n, diff@, parent_map(parent_data));
        }
        if exact {
            lemma_all_settled_complete(o, n, diff@, parent_map(parent_data));
            lemma_index_exact(n, parent_map(parent_data));
        }
    }
}

} // verus!
