//! Collection of trees.
//!
//! Trees are stored as a persistent ordered map from id to chunk, where a
//! chunk holds the nodes of an id range and is stored under the first id of
//! that range. Which chunk refers to which is kept in a parent index that is
//! brought up to date lazily, from the difference between the map and a
//! snapshot of it.

use vstd::cell::invcell::InvCell;
use vstd::predicate::Predicate;
use vstd::prelude::*;
use crate::chunk::ChunkId;
use crate::chunk_map::{
    chunk_map, chunk_map_clone, chunk_map_entries, chunk_map_entry, chunk_map_get,
    chunk_map_get_mut, chunk_map_get_prev, chunk_map_insert, chunk_map_new, entry_chunk,
    entry_key, ChunkMap,
};
use crate::enum_chunk::{Chunk, Node, NodeModel};
use crate::node_id::NodeId;
use crate::parents::{
    chunk_parent, index_exact, index_sound, lemma_chunk_parent, parent_map, parent_map_clone,
    parent_map_get, parent_map_new, single_parent, update_forest_parents, ParentIndex,
};
use crate::tree::{Label, ParentInfo};

verus! {

/// Whether every uniform chunk is well formed and stays inside the id space.
pub open spec fn chunks_valid(chunks: Map<u128, Chunk>) -> bool {
    forall|k: u128| chunks.contains_key(k) ==> (#[trigger] chunks[k]).valid_at(NodeId(k))
}

/// Whether no two chunks own the same id: each chunk ends before the next
/// one starts.
pub open spec fn no_overlap(chunks: Map<u128, Chunk>) -> bool {
    forall|j: u128, k: u128|
        #![trigger chunks.contains_key(j), chunks.contains_key(k)]
        chunks.contains_key(j) && chunks.contains_key(k) && j < k ==> j + chunks[j].id_span() <= k
}

/// Whether `k` is the greatest first id that is not above `id`: the only
/// chunk that can own `id`, if no chunks overlap.
pub open spec fn is_candidate(chunks: Map<u128, Chunk>, id: u128, k: u128) -> bool {
    &&& chunks.contains_key(k)
    &&& k <= id
    &&& forall|j: u128| chunks.contains_key(j) && j <= id ==> j <= k
}

/// The node with the given id: the node that the candidate owner has for it.
pub open spec fn node_of(chunks: Map<u128, Chunk>, id: NodeId) -> Option<NodeModel> {
    if exists|k: u128| is_candidate(chunks, id.0, k) {
        let k = choose|k: u128| is_candidate(chunks, id.0, k);
        chunks[k].node_at(NodeId(k), id)
    } else {
        None
    }
}

/// Only one key can be the candidate owner of an id.
pub proof fn lemma_candidate_unique(chunks: Map<u128, Chunk>, id: u128, k: u128)
    requires
        is_candidate(chunks, id, k),
    ensures
        (choose|j: u128| is_candidate(chunks, id, j)) == k,
{
    let j = choose|j: u128| is_candidate(chunks, id, j);
    assert(is_candidate(chunks, id, j));
}

/// The parent index as of some snapshot of the chunk map.
pub struct ParentCache {
    /// Snapshot from the last time the parent data was brought up to date.
    old_map: ChunkMap,
    /// The parents as of that snapshot.
    parent_data: ParentIndex,
}

/// What always holds of a parent cache: no chunk id has two parents in the
/// snapshot, and the index is the parent index of the snapshot.
pub struct CacheInvariant;

impl Predicate<ParentCache> for CacheInvariant {
    closed spec fn predicate(&self, v: ParentCache) -> bool {
        &&& single_parent(chunk_map(&v.old_map))
        &&& index_exact(chunk_map(&v.old_map), parent_map(&v.parent_data))
    }
}

/// Chunks added to a forest must own ranges of ids that do not overlap.
pub struct Forest {
    /// Up to date actual data of the trees.
    map: ChunkMap,
    /// Lazily updated parent data.
    cache: InvCell<ParentCache, CacheInvariant>,
}

impl View for Forest {
    type V = Map<u128, Chunk>;

    /// The chunk stored under each first id.
    closed spec fn view(&self) -> Map<u128, Chunk> {
        chunk_map(&self.map)
    }
}

impl Forest {
    /// Every chunk is valid where it is stored and no two chunks overlap.
    pub open spec fn wf(&self) -> bool {
        &&& chunks_valid(self@)
        &&& no_overlap(self@)
    }

    /// Whether every chunk is valid where it is stored and no two chunks
    /// overlap, so that the forest can be navigated.
    pub fn is_well_formed(&self) -> (r: bool)
        ensures
            r == self.wf(),
    {
        let entries = chunk_map_entries(&self.map);
        let mut i: usize = 0;
        while i < entries.len()
            invariant
                i <= entries.len(),
                forall|a: int|
                    0 <= a < entries@.len() ==> self@.contains_key((#[trigger] entries@[a]).0)
                        && *entries@[a].1 == self@[entries@[a].0],
                forall|a: int, b: int|
                    0 <= a < b < entries@.len() ==> (#[trigger] entries@[a]).0 < (
                    #[trigger] entries@[b]).0,
                forall|k: u128|
                    self@.contains_key(k) ==> exists|a: int|
                        0 <= a < entries@.len() && (#[trigger] entries@[a]).0 == k,
                forall|a: int|
                    0 <= a < i ==> (#[trigger] entries@[a]).1.valid_at(NodeId(entries@[a].0)),
                forall|a: int|
                    0 <= a < i && a + 1 < entries@.len() ==> (#[trigger] entries@[a]).0
                        + entries@[a].1.id_span() <= entries@[a + 1].0,
            decreases entries.len() - i,
        {
            let key = entries[i].0;
            let chunk = entries[i].1;
            if !chunk.can_be_at(NodeId(key)) {
                assert(!chunks_valid(self@)) by {
                    assert(self@.contains_key(entries@[i as int].0));
                }
                return false;
            }
            if i + 1 < entries.len() {
                let next = entries[i + 1].0;
                assert(entries@[i as int].0 < entries@[i + 1].0);
                if next - key < chunk.span() {
                    assert(!no_overlap(self@)) by {
                        assert(self@.contains_key(entries@[i as int].0) && self@.contains_key(
                            entries@[i + 1].0,
                        ));
                    }
                    return false;
                }
            }
            i += 1;
        }
        proof {
            assert forall|k: u128| self@.contains_key(k) implies (#[trigger] self@[k]).valid_at(
                NodeId(k),
            ) by {
                let a = choose|a: int| 0 <= a < entries@.len() && (#[trigger] entries@[a]).0 == k;
                assert(entries@[a].1.valid_at(NodeId(entries@[a].0)));
            }
            assert forall|j: u128, k: u128|
                #![trigger self@.contains_key(j), self@.contains_key(k)]
                self@.contains_key(j) && self@.contains_key(k) && j < k implies j
                + self@[j].id_span() <= k by {
                let a = choose|a: int| 0 <= a < entries@.len() && (#[trigger] entries@[a]).0 == j;
                let b = choose|b: int| 0 <= b < entries@.len() && (#[trigger] entries@[b]).0 == k;
                if b <= a {
                    if b < a {
                        assert(entries@[b].0 < entries@[a].0);
                    }
                }
                assert(entries@[a].0 + entries@[a].1.id_span() <= entries@[a + 1].0);
                if a + 1 < b {
                    assert(entries@[a + 1].0 < entries@[b].0);
                }
            }
        }
        true
    }

    /// Every chunk of the forest, by ascending first id.
    pub fn chunks(&self) -> (r: Vec<(ChunkId, &Chunk)>)
        ensures
            forall|i: int|
                0 <= i < r@.len() ==> self@.contains_key((#[trigger] r@[i]).0.key()) && *r@[i].1
                    == self@[r@[i].0.key()],
            forall|i: int, j: int|
                0 <= i < j < r@.len() ==> (#[trigger] r@[i]).0.key() < (#[trigger] r@[j]).0.key(),
            forall|k: u128|
                self@.contains_key(k) ==> exists|i: int|
                    0 <= i < r@.len() && (#[trigger] r@[i]).0.key() == k,
    {
        let entries = chunk_map_entries(&self.map);
        let mut r: Vec<(ChunkId, &Chunk)> = Vec::new();
        let mut i: usize = 0;
        while i < entries.len()
            invariant
                i <= entries.len(),
                r@.len() == i,
                forall|a: int|
                    0 <= a < i ==> (#[trigger] r@[a]).0.key() == entries@[a].0 && r@[a].1
                        == entries@[a].1,
            decreases entries.len() - i,
        {
            r.push((ChunkId(NodeId(entries[i].0)), entries[i].1));
            i += 1;
        }
        proof {
            assert forall|k: u128| self@.contains_key(k) implies exists|i: int|
                0 <= i < r@.len() && (#[trigger] r@[i]).0.key() == k by {
                let a = choose|a: int| 0 <= a < entries@.len() && (#[trigger] entries@[a]).0 == k;
                assert(r@[a].0.key() == k);
            }
            assert forall|i: int, j: int| 0 <= i < j < r@.len() implies (#[trigger] r@[i]).0.key() < (
            #[trigger] r@[j]).0.key() by {
                assert(entries@[i].0 < entries@[j].0);
            }
        }
        r
    }

    /// A forest without chunks.
    pub fn new() -> (r: Self)
        ensures
            r@ == Map::<u128, Chunk>::empty(),
    {
        let map = chunk_map_new();
        let cache = ParentCache { old_map: chunk_map_new(), parent_data: parent_map_new() };
        let r = Forest { map, cache: InvCell::new(cache, Ghost(CacheInvariant)) };
        assert(r@ =~= Map::<u128, Chunk>::empty());
        r
    }

    /// The chunk stored under exactly this id.
    pub fn find_nodes(&self, id: ChunkId) -> (r: Option<&Chunk>)
        ensures
            match r {
                Some(chunk) => self@.contains_key(id.key()) && *chunk == self@[id.key()],
                None => !self@.contains_key(id.key()),
            },
    {
        chunk_map_get(&self.map, id.number())
    }

    /// The chunk with the greatest first id that is not above `id`. If any
    /// chunk owns `id` it is this one, but this one need not own it.
    pub fn find_nodes_from_node(&self, id: NodeId) -> (r: Option<(ChunkId, &Chunk)>)
        ensures
            match r {
                Some((k, chunk)) => is_candidate(self@, id.0, k.key()) && *chunk == self@[k.key()],
                None => forall|j: u128| self@.contains_key(j) ==> j > id.0,
            },
    {
        match chunk_map_get_prev(&self.map, id.0) {
            Some((k, chunk)) => Some((ChunkId(NodeId(k)), chunk)),
            None => None,
        }
    }

    /// The chunk stored under exactly this id, to be changed in place.
    pub fn find_nodes_mut(&mut self, id: ChunkId) -> (r: Option<&mut Chunk>)
        ensures
            match r {
                Some(chunk) => {
                    &&& old(self)@.contains_key(id.key())
                    &&& *chunk == old(self)@[id.key()]
                    &&& final(self)@ == old(self)@.insert(id.key(), *final(chunk))
                },
                None => !old(self)@.contains_key(id.key()) && final(self)@ == old(self)@,
            },
    {
        chunk_map_get_mut(&mut self.map, id.number())
    }

    /// A handle on the chunk stored under `id`, present or not, for changing
    /// it in place: an entry on that id which holds the chunk stored under
    /// it, if there is one. Chunks stored under other ids stay as they are.
    pub fn entry(&mut self, id: ChunkId) -> (r: im_rc::ordmap::Entry<'_, u128, Chunk>)
        ensures
            entry_key(&r) == id.key(),
            entry_chunk(&r) == if old(self)@.contains_key(id.key()) {
                Some(old(self)@[id.key()])
            } else {
                None
            },
            forall|j: u128|
                j != id.key() ==> final(self)@.contains_key(j) == old(self)@.contains_key(j),
            forall|j: u128|
                j != id.key() && old(self)@.contains_key(j) ==> final(self)@[j] == old(self)@[j],
    {
        chunk_map_entry(&mut self.map, id.number())
    }

    /// Adds `child` at the end of the trait `label` of the indirect chunk
    /// stored under `parent`, and says whether there is such a chunk.
    pub fn add_child(&mut self, parent: ChunkId, label: Label, child: ChunkId) -> (done: bool)
        ensures
            done == (old(self)@.contains_key(parent.key()) && old(self)@[parent.key()] is Indirect),
            !done ==> final(self)@ == old(self)@,
            done ==> {
                &&& final(self)@.dom() == old(self)@.dom()
                &&& forall|k: u128|
                    k != parent.key() && old(self)@.contains_key(k) ==> final(self)@[k] == old(
                        self,
                    )@[k]
                &&& final(self)@[parent.key()] matches Chunk::Indirect(after)
                &&& old(self)@[parent.key()] matches Chunk::Indirect(before)
                &&& after.def == before.def
                &&& after.payload == before.payload
                &&& after.children() == before.children().insert(
                    label.0,
                    before.children_under(label).push(child),
                )
            },
    {
        match self.find_nodes_mut(parent) {
            Some(chunk) => match chunk {
                Chunk::Indirect(basic) => {
                    basic.push_child(label, child);
                    proof {
                        assert(final(self)@.dom() =~= old(self)@.dom());
                    }
                    true
                },
                Chunk::Uniform(_) => {
                    proof {
                        assert(final(self)@ =~= old(self)@);
                    }
                    false
                },
            },
            None => false,
        }
    }

    /// Inserts a new chunk. May replace an existing one.
    pub fn insert(&mut self, id: ChunkId, value: Chunk)
        ensures
            final(self)@ == old(self)@.insert(id.key(), value),
    {
        chunk_map_insert(&mut self.map, id.number(), value);
    }

    /// The node with the given id, if a chunk of the forest has one.
    pub fn find_node(&self, id: NodeId) -> (r: Option<Node<'_>>)
        requires
            chunks_valid(self@),
        ensures
            match node_of(self@, id) {
                Some(m) => r matches Some(n) && n@ == m && n.wf(),
                None => r is None,
            },
    {
        match chunk_map_get_prev(&self.map, id.0) {
            Some((k, v)) => {
                proof {
                    lemma_candidate_unique(self@, id.0, k);
                }
                v.get(NodeId(k), id)
            },
            None => {
                assert forall|k: u128| !is_candidate(self@, id.0, k) by {}
                None
            },
        }
    }
}

impl Forest {
    /// Takes the cache out of its cell, leaving an empty one in its place.
    fn take_cache(&self) -> (r: ParentCache)
        ensures
            single_parent(chunk_map(&r.old_map)),
            index_exact(chunk_map(&r.old_map), parent_map(&r.parent_data)),
    {
        let empty = ParentCache { old_map: chunk_map_new(), parent_data: parent_map_new() };
        self.cache.replace(empty)
    }

    /// The parent index, brought up to date with the chunks of the forest,
    /// in which no chunk id may have two parents. It names a parent for
    /// exactly the chunk ids that some chunk of the forest has as a child,
    /// and for each of them that chunk and the label under which it has the
    /// child.
    pub fn get_parent_data(&self) -> (r: ParentIndex)
        requires
            single_parent(self@),
        ensures
            index_exact(self@, parent_map(&r)),
    {
        let mut cache = self.take_cache();
        update_forest_parents(&self.map, &cache.old_map, &mut cache.parent_data);
        cache.old_map = chunk_map_clone(&self.map);
        let r = parent_map_clone(&cache.parent_data);
        let _ = self.cache.replace(cache);
        r
    }

    /// The node that a parent index has for the chunk stored under `id`, with
    /// the label under which it has that chunk as a child: the node of the
    /// indirect chunk that the index names, if it names one.
    pub fn parent_in<'a>(&'a self, parents: &ParentIndex, id: ChunkId) -> (r: Option<
        ParentInfo<Node<'a>>,
    >)
        requires
            index_sound(self@, parent_map(parents)),
        ensures
            match r {
                Some(p) => {
                    &&& parent_map(parents).contains_key(id.key())
                    &&& p.label == parent_map(parents)[id.key()].label
                    &&& p.node@ matches NodeModel::Indirect { id: parent_id, chunk }
                    &&& ChunkId(parent_id) == parent_map(parents)[id.key()].node
                    &&& self@.contains_key(parent_id.0)
                    &&& self@[parent_id.0] == Chunk::Indirect(chunk)
                    &&& chunk.children_under(p.label).contains(id)
                },
                None => !parent_map(parents).contains_key(id.key()),
            },
    {
        match parent_map_get(parents, id.number()) {
            Some(x) => match self.find_nodes(x.node) {
                Some(chunk) => {
                    assert(chunk.children_under(x.label).contains(id));
                    match chunk.get(x.node.0, x.node.0) {
                        Some(node) => Some(ParentInfo { node, label: x.label }),
                        None => None,
                    }
                },
                None => None,
            },
            None => None,
        }
    }

    /// The node that has the chunk stored under `id` as a child, with the
    /// label under which it has it: the parent that the parent index names
    /// for `id`. There is one exactly when a chunk of the forest has `id` as
    /// a child.
    pub fn get_parent_from_chunk_id(&self, id: ChunkId) -> (r: Option<ParentInfo<Node<'_>>>)
        requires
            single_parent(self@),
        ensures
            match chunk_parent(self@, id) {
                Some((parent_id, label)) => {
                    &&& r matches Some(p)
                    &&& p.node@.id() == parent_id
                    &&& p.label == label
                },
                None => r is None,
            },
            r matches Some(p) ==> {
                &&& p.node@ matches NodeModel::Indirect { id: parent_id, chunk }
                &&& self@.contains_key(parent_id.0)
                &&& self@[parent_id.0] == Chunk::Indirect(chunk)
                &&& chunk.children_under(p.label).contains(id)
            },
    {
        let parents = self.get_parent_data();
        let r = self.parent_in(&parents, id);
        proof {
            let index = parent_map(&parents);
            match &r {
                Some(p) => {
                    let k = index[id.key()].node.key();
                    assert(index[id.key()].node == ChunkId::of(k));
                    lemma_chunk_parent(self@, k, p.label, id);
                },
                None => {
                    if chunk_parent(self@, id) is Some {
                        let (k, l) = choose|k: u128, l: Label|
                            self@.contains_key(k) && #[trigger] self@[k].children_under(l).contains(
                                id,
                            );
                        assert(self@[k].children_under(l).contains(id));
                    }
                },
            }
        }
        r
    }
}

impl Clone for Forest {
    /// A snapshot of the forest: it holds the same chunks, and later changes
    /// to either forest do not show in the other.
    fn clone(&self) -> (r: Self)
        ensures
            r@ == self@,
    {
        let cache = self.take_cache();
        let copy = ParentCache {
            old_map: chunk_map_clone(&cache.old_map),
            parent_data: parent_map_clone(&cache.parent_data),
        };
        let _ = self.cache.replace(cache);
        Forest { map: chunk_map_clone(&self.map), cache: InvCell::new(copy, Ghost(CacheInvariant)) }
    }
}

/// Whether a chunk stored under `first` owns the id: the ids of a chunk run
/// from its first id through `first + id_span - 1`.
pub open spec fn in_range(chunk: Chunk, first: u128, id: u128) -> bool {
    first <= id < first + chunk.id_span()
}

/// Where no chunks overlap, no id lies in the ranges of two chunks.
pub proof fn lemma_ranges_disjoint(chunks: Map<u128, Chunk>, j: u128, k: u128, id: u128)
    requires
        no_overlap(chunks),
        chunks.contains_key(j),
        chunks.contains_key(k),
        j != k,
    ensures
        !(in_range(chunks[j], j, id) && in_range(chunks[k], k, id)),
{
    if j < k {
        assert(chunks.contains_key(j) && chunks.contains_key(k));
    } else {
        assert(chunks.contains_key(k) && chunks.contains_key(j));
    }
}

/// A forest without chunks has no overlap, and storing a chunk keeps it so
/// if the new range meets the range of no chunk stored under another id.
/// `insert` itself does not look at ranges: a chunk that overlaps another is
/// stored all the same.
pub proof fn lemma_insert_keeps_apart(chunks: Map<u128, Chunk>, key: u128, chunk: Chunk)
    requires
        no_overlap(chunks),
        forall|j: u128|
            chunks.contains_key(j) && j != key ==> j + (#[trigger] chunks[j]).id_span() <= key
                || key + chunk.id_span() <= j,
    ensures
        no_overlap(Map::<u128, Chunk>::empty()),
        no_overlap(chunks.insert(key, chunk)),
{
    let after = chunks.insert(key, chunk);
    assert forall|j: u128, k: u128|
        #![trigger after.contains_key(j), after.contains_key(k)]
        after.contains_key(j) && after.contains_key(k) && j < k implies j + after[j].id_span()
        <= k by {
        if j != key && k != key {
            assert(chunks.contains_key(j) && chunks.contains_key(k));
        } else if j == key {
            lemma_span_positive(chunks[k]);
        } else {
            lemma_span_positive(chunk);
        }
    }
}

/// The span of a chunk is not negative.
pub proof fn lemma_span_positive(chunk: Chunk)
    ensures
        chunk.id_span() >= 0,
        chunk is Indirect ==> chunk.id_span() == 1,
{
    match chunk {
        Chunk::Indirect(_) => {},
        Chunk::Uniform(c) => {
            assert(c.schema@.id_stride * c.schema@.node_count >= 0) by (nonlinear_arith)
                requires
                    c.schema@.id_stride >= 0,
                    c.schema@.node_count >= 0,
            ;
        },
    }
}

/// A snapshot does not see what is stored later: whatever is found in the
/// forest before a chunk is stored is found in a snapshot taken before, and
/// under every other id the forest itself still holds what it held.
pub proof fn lemma_snapshot_keeps(
    before: Map<u128, Chunk>,
    snapshot: Map<u128, Chunk>,
    after: Map<u128, Chunk>,
    key: u128,
    chunk: Chunk,
    id: NodeId,
)
    requires
        snapshot == before,
        after == before.insert(key, chunk),
    ensures
        node_of(snapshot, id) == node_of(before, id),
        forall|k: u128| k != key ==> after.contains_key(k) == snapshot.contains_key(k),
        forall|k: u128| k != key && snapshot.contains_key(k) ==> after[k] == snapshot[k],
{
}

} // verus!
