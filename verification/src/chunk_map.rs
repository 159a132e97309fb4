//! The persistent ordered map that a forest keeps its chunks in, and the
//! differences between two such maps.

use vstd::prelude::*;
use crate::enum_chunk::Chunk;

verus! {

/// `im_rc::OrdMap`, the persistent ordered map.
#[verifier::external_type_specification]
#[verifier::external_body]
#[verifier::reject_recursive_types(K)]
#[verifier::reject_recursive_types(V)]
pub struct ExOrdMap<K, V>(im_rc::OrdMap<K, V>);

/// `im_rc::ordmap::Entry`, a handle on one key of an ordered map.
#[verifier::external_type_specification]
#[verifier::external_body]
#[verifier::reject_recursive_types(K)]
#[verifier::reject_recursive_types(V)]
pub struct ExEntry<'a, K: Ord + Clone, V: Clone>(im_rc::ordmap::Entry<'a, K, V>);

/// The persistent ordered map from first id to chunk.
pub type ChunkMap = im_rc::OrdMap<u128, Chunk>;

/// What a chunk map holds: the chunk stored under each first id.
pub uninterp spec fn chunk_map(m: &ChunkMap) -> Map<u128, Chunk>;

/// `OrdMap::new`: a map that holds nothing.
#[verifier::external_body]
pub(crate) fn chunk_map_new() -> (r: ChunkMap)
    ensures
        forall|k: u128| !chunk_map(&r).contains_key(k),
{
    im_rc::OrdMap::new()
}

/// `Clone` for ordered maps: the copy holds the same chunks.
#[verifier::external_body]
pub(crate) fn chunk_map_clone(m: &ChunkMap) -> (r: ChunkMap)
    ensures
        chunk_map(&r) == chunk_map(m),
{
    m.clone()
}

/// `OrdMap::get`: the chunk stored under exactly this key.
#[verifier::external_body]
pub(crate) fn chunk_map_get(m: &ChunkMap, key: u128) -> (r: Option<&Chunk>)
    ensures
        match r {
            Some(chunk) => chunk_map(m).contains_key(key) && *chunk == chunk_map(m)[key],
            None => !chunk_map(m).contains_key(key),
        },
{
    m.get(&key)
}

/// `OrdMap::range` up to and including `key`, walked from its upper end by
/// one step: the entry with the greatest key that is not above `key`.
///
/// `OrdMap::get_prev` is documented to return the same entry, but it misses
/// it when that entry sits in an inner node of the tree.
#[verifier::external_body]
pub(crate) fn chunk_map_get_prev(m: &ChunkMap, key: u128) -> (r: Option<(u128, &Chunk)>)
    ensures
        match r {
            Some((k, chunk)) => {
                &&& k <= key
                &&& chunk_map(m).contains_key(k)
                &&& *chunk == chunk_map(m)[k]
                &&& forall|j: u128| chunk_map(m).contains_key(j) && j <= key ==> j <= k
            },
            None => forall|j: u128| chunk_map(m).contains_key(j) ==> j > key,
        },
{
    m.range(..=key).next_back().map(|(k, v)| (*k, v))
}

/// `OrdMap::iter`, collected: every entry of the map once, by ascending key.
#[verifier::external_body]
pub(crate) fn chunk_map_entries(m: &ChunkMap) -> (r: Vec<(u128, &Chunk)>)
    ensures
        forall|i: int|
            0 <= i < r@.len() ==> chunk_map(m).contains_key((#[trigger] r@[i]).0) && *r@[i].1
                == chunk_map(m)[r@[i].0],
        forall|i: int, j: int| 0 <= i < j < r@.len() ==> (#[trigger] r@[i]).0 < (#[trigger] r@[j]).0,
        forall|k: u128|
            chunk_map(m).contains_key(k) ==> exists|i: int|
                0 <= i < r@.len() && (#[trigger] r@[i]).0 == k,
{
    m.iter().map(|(k, v)| (*k, v)).collect()
}

/// `OrdMap::insert`: afterwards the key leads to the new chunk, and every
/// other key to what it led to before.
#[verifier::external_body]
pub(crate) fn chunk_map_insert(m: &mut ChunkMap, key: u128, value: Chunk)
    ensures
        chunk_map(final(m)) == chunk_map(old(m)).insert(key, value),
{
    m.insert(key, value);
}

/// `OrdMap::get_mut`: the chunk stored under exactly this key, to be changed
/// in place. What the map holds afterwards under that key is what the caller
/// leaves there; every other key leads to what it led to before.
#[verifier::external_body]
pub(crate) fn chunk_map_get_mut(m: &mut ChunkMap, key: u128) -> (r: Option<&mut Chunk>)
    ensures
        match r {
            Some(chunk) => {
                &&& chunk_map(old(m)).contains_key(key)
                &&& *chunk == chunk_map(old(m))[key]
                &&& chunk_map(final(m)) == chunk_map(old(m)).insert(key, *final(chunk))
            },
            None => !chunk_map(old(m)).contains_key(key) && chunk_map(final(m)) == chunk_map(old(m)),
        },
{
    m.get_mut(&key)
}

/// The key that an entry is a handle on.
pub uninterp spec fn entry_key(e: &im_rc::ordmap::Entry<'_, u128, Chunk>) -> u128;

/// What an entry holds: the chunk that the map had under the key when the
/// entry was made, if it had one.
pub uninterp spec fn entry_chunk(e: &im_rc::ordmap::Entry<'_, u128, Chunk>) -> Option<Chunk>;

/// `OrdMap::entry`: a handle on the key, occupied by the chunk that the map
/// holds under the key, or vacant if it holds none. Through the handle the
/// chunk under that key can be read, put, changed or removed; every other key
/// leads afterwards to what it led to before.
#[verifier::external_body]
pub(crate) fn chunk_map_entry(m: &mut ChunkMap, key: u128) -> (r: im_rc::ordmap::Entry<'_, u128, Chunk>)
    ensures
        entry_key(&r) == key,
        entry_chunk(&r) == if chunk_map(old(m)).contains_key(key) {
            Some(chunk_map(old(m))[key])
        } else {
            None
        },
        forall|j: u128|
            j != key ==> chunk_map(final(m)).contains_key(j) == chunk_map(old(m)).contains_key(j),
        forall|j: u128|
            j != key && chunk_map(old(m)).contains_key(j) ==> chunk_map(final(m))[j] == chunk_map(
                old(m),
            )[j],
{
    m.entry(key)
}

/// One difference between two chunk maps.
pub enum ChunkDiff<'a> {
    /// The key leads to a chunk only in the new map.
    Add(u128, &'a Chunk),
    /// The key leads to different chunks in the two maps.
    Update { was: (u128, &'a Chunk), now: (u128, &'a Chunk) },
    /// The key leads to a chunk only in the old map.
    Remove(u128, &'a Chunk),
}

impl<'a> ChunkDiff<'a> {
    /// The key that the difference is about.
    pub open spec fn key(&self) -> u128 {
        match self {
            ChunkDiff::Add(k, _) => *k,
            ChunkDiff::Update { was, now } => was.0,
            ChunkDiff::Remove(k, _) => *k,
        }
    }

    /// Whether the difference says what the two maps hold under its key.
    pub open spec fn agrees(&self, old_map: Map<u128, Chunk>, new_map: Map<u128, Chunk>) -> bool {
        match self {
            ChunkDiff::Add(k, v) => {
                &&& !old_map.contains_key(*k)
                &&& new_map.contains_key(*k)
                &&& new_map[*k] == **v
            },
            ChunkDiff::Update { was, now } => {
                &&& was.0 == now.0
                &&& old_map.contains_key(was.0)
                &&& old_map[was.0] == *was.1
                &&& new_map.contains_key(was.0)
                &&& new_map[was.0] == *now.1
            },
            ChunkDiff::Remove(k, v) => {
                &&& old_map.contains_key(*k)
                &&& old_map[*k] == **v
                &&& !new_map.contains_key(*k)
            },
        }
    }
}

/// Whether `items` is a difference between two maps: each item agrees with
/// the maps, the keys of the items ascend, and under every other key the two
/// maps hold nothing, or chunks that are the same.
pub open spec fn is_diff(
    old_map: Map<u128, Chunk>,
    new_map: Map<u128, Chunk>,
    items: Seq<ChunkDiff<'_>>,
) -> bool {
    &&& forall|i: int| 0 <= i < items.len() ==> (#[trigger] items[i]).agrees(old_map, new_map)
    &&& forall|i: int, j: int|
        0 <= i < j < items.len() ==> (#[trigger] items[i]).key() < (#[trigger] items[j]).key()
    &&& forall|k: u128|
        (forall|i: int| 0 <= i < items.len() ==> (#[trigger] items[i]).key() != k) ==> {
            &&& old_map.contains_key(k) == new_map.contains_key(k)
            &&& old_map.contains_key(k) ==> old_map[k].same_as(&new_map[k])
        }
}

/// `OrdMap::diff`: the entries to add, to update and to remove in order to
/// turn the old map into the new one, by ascending key. An entry counts as
/// updated when `==` on the two chunks says that they differ.
#[verifier::external_body]
pub(crate) fn chunk_map_diff<'a>(old_map: &'a ChunkMap, new_map: &'a ChunkMap) -> (r: Vec<
    ChunkDiff<'a>,
>)
    ensures
        is_diff(chunk_map(old_map), chunk_map(new_map), r@),
{
    old_map.diff(new_map).map(|d| match d {
        im_rc::ordmap::DiffItem::Add(k, v) => ChunkDiff::Add(*k, v),
        im_rc::ordmap::DiffItem::Update { old: a, new: b } => ChunkDiff::Update {
            was: (*a.0, a.1),
            now: (*b.0, b.1),
        },
        im_rc::ordmap::DiffItem::Remove(k, v) => ChunkDiff::Remove(*k, v),
    }).collect()
}

} // verus!
