use std::rc::Rc;

use forest::chunk::ChunkId;
use forest::enum_chunk::Chunk;
use forest::parents::update_forest_parents;
use forest::id_compress::{IdCompressor, RangeTable, Table, TypedNumber};
use forest::indirect_node::IndirectChunk;
use forest::node_id::{HasId, IdOffset, NodeId};
use forest::enum_chunk::{Child, Node};
use forest::nav::Resolver;
use forest::test_stuff::{chunked_tree, grow, walk_all, walk_chunk};
use forest::tree::{Def, Label, NodeData, ParentInfo};
use forest::schema::{ChunkSchema, OffsetSchema, RootChunkSchema};
use forest::uniform_chunk::UniformChunk;

fn leaf(count: u32, bytes: u32, stride: u32, payload: Option<u16>) -> ChunkSchema {
    ChunkSchema {
        def: Def(1),
        node_count: count,
        bytes_per_node: bytes,
        id_stride: stride,
        payload_size: payload,
        traits: vec![],
    }
}

fn with_traits(stride: u32, bytes: u32, traits: Vec<(u128, u32, u32, ChunkSchema)>) -> ChunkSchema {
    ChunkSchema {
        def: Def(2),
        node_count: 1,
        bytes_per_node: bytes,
        id_stride: stride,
        payload_size: None,
        traits: traits
            .into_iter()
            .map(|(l, id, b, s)| {
                (Label(l), OffsetSchema { id_offset: IdOffset(id), byte_offset: b, schema: s })
            })
            .collect(),
    }
}

#[test]
fn node_id_arithmetic() {
    assert_eq!(NodeId(10) + IdOffset(5), NodeId(15));
    assert_eq!((NodeId(15) - NodeId(10)).0, 5);
    assert_eq!((NodeId(u128::MAX) - NodeId(0)).0, u32::MAX);
    assert_eq!((NodeId(1 << 32) - NodeId(0)).0, 0);
    assert_eq!(NodeId(u128::MAX - 1) + IdOffset(1), NodeId(u128::MAX));
    assert_eq!(ChunkId(NodeId(7)).number(), 7);
}

#[test]
fn schema_validation() {
    assert!(leaf(1, 1, 1, Some(1)).is_well_formed());
    assert!(leaf(0, 1, 1, None).is_well_formed());
    assert!(!leaf(1, 0, 1, None).is_well_formed());
    assert!(!leaf(1, 1, 0, None).is_well_formed());
    assert!(!leaf(1, 1, 1, Some(0)).is_well_formed());
    assert!(!leaf(1, 1, 1, Some(2)).is_well_formed());
    let ok = with_traits(3, 2, vec![(1, 1, 0, leaf(1, 1, 1, None)), (2, 2, 1, leaf(1, 1, 1, None))]);
    assert!(ok.is_well_formed());
    // A trait on the id of its parent.
    assert!(!with_traits(3, 2, vec![(1, 0, 0, leaf(1, 1, 1, None))]).is_well_formed());
    // A trait that runs out of the stride of its parent.
    assert!(!with_traits(3, 2, vec![(1, 1, 0, leaf(3, 1, 1, None))]).is_well_formed());
    // A trait that runs out of the bytes of its parent.
    assert!(!with_traits(3, 2, vec![(1, 1, 0, leaf(2, 2, 1, None))]).is_well_formed());
    // Two traits with one label.
    let twice =
        with_traits(3, 2, vec![(1, 1, 0, leaf(1, 1, 1, None)), (1, 2, 1, leaf(1, 1, 1, None))]);
    assert!(!twice.is_well_formed());
    // Two traits on one id.
    let clash =
        with_traits(3, 2, vec![(1, 1, 0, leaf(1, 1, 1, None)), (2, 1, 1, leaf(1, 1, 1, None))]);
    assert!(!clash.is_well_formed());
    // A trait that is ill formed itself.
    assert!(!with_traits(3, 2, vec![(1, 1, 0, leaf(1, 1, 0, None))]).is_well_formed());
    // Numbers that only fit in 64 bits.
    assert!(!with_traits(3, 2, vec![(1, 1, 0, leaf(u32::MAX, 1, u32::MAX, None))]).is_well_formed());
}

#[test]
fn schema_equality_and_clone() {
    let a = with_traits(3, 2, vec![(1, 1, 0, leaf(1, 1, 1, None)), (2, 2, 1, leaf(1, 1, 1, None))]);
    let b = a.clone();
    assert!(a.same_shape(&b));
    let c = with_traits(3, 2, vec![(1, 1, 0, leaf(1, 1, 1, None)), (2, 2, 1, leaf(1, 1, 1, Some(1)))]);
    assert!(!a.same_shape(&c));
    let d = with_traits(3, 2, vec![(1, 1, 0, leaf(1, 1, 1, None))]);
    assert!(!a.same_shape(&d));
}

#[test]
fn lookup_in_schema() {
    let row = with_traits(4, 3, vec![(9, 2, 1, leaf(2, 1, 1, Some(1)))]);
    let schema = ChunkSchema { node_count: 3, ..row };
    let root = RootChunkSchema::new(schema);
    assert_eq!(root.schema().node_count, 3);
    let first = NodeId(100);
    assert!(root.lookup_schema(first, NodeId(99)).is_none());
    assert!(root.lookup_schema(first, NodeId(112)).is_none());
    // The second id of every stride is a gap.
    assert!(root.lookup_schema(first, NodeId(101)).is_none());
    assert!(root.lookup_schema(first, NodeId(105)).is_none());
    let top = root.lookup_schema(first, NodeId(104)).unwrap();
    assert_eq!(top.byte_offset, 3);
    assert!(top.parent.parent.is_none());
    assert_eq!(top.parent.index, 1);
    assert_eq!(top.schema.def, Def(2));
    let inner = root.lookup_schema(first, NodeId(111)).unwrap();
    assert_eq!(inner.byte_offset, 2 * 3 + 1 + 1);
    assert_eq!(inner.schema.def, Def(1));
    assert_eq!(inner.parent.index, 1);
    let (offset, label) = inner.parent.parent.unwrap();
    assert_eq!(offset.0, 8);
    assert_eq!(label, Label(9));
}

#[test]
fn uniform_chunk_construction() {
    let schema = ChunkSchema { node_count: 2, ..leaf(2, 3, 1, Some(3)) };
    let root = Rc::new(RootChunkSchema::new(schema));
    assert!(UniformChunk::new(root.clone(), im_rc::Vector::from(vec![0; 5])).is_none());
    assert!(UniformChunk::new(root.clone(), im_rc::Vector::from(vec![0; 7])).is_none());
    let chunk = UniformChunk::new(root.clone(), im_rc::Vector::from(vec![1, 2, 3, 4, 5, 6])).unwrap();
    assert_eq!(chunk.get_count(), 2);
    assert!(chunk.can_start_at(NodeId(u128::MAX - 2)));
    assert!(!chunk.can_start_at(NodeId(u128::MAX - 1)));
    let n = chunk.get(NodeId(10), NodeId(11)).unwrap();
    assert_eq!(n.get_id(), NodeId(11));
    let mut p = n.get_payload().unwrap();
    assert_eq!((*p.get(0).unwrap(), *p.get(1).unwrap(), *p.get(2).unwrap()), (4, 5, 6));
    assert_eq!(p.len(), 3);
    let empty = Rc::new(RootChunkSchema::new(leaf(0, 1, 1, None)));
    assert!(UniformChunk::new(empty, im_rc::Vector::from(vec![])).is_none());
    let other = UniformChunk::new(root.clone(), im_rc::Vector::from(vec![1, 2, 3, 4, 5, 6])).unwrap();
    assert!(chunk == other);
    assert!(chunk == chunk.clone());
    let same_shape = Rc::new(RootChunkSchema::new(leaf(2, 3, 1, Some(3))));
    let third = UniformChunk::new(same_shape, im_rc::Vector::from(vec![1, 2, 3, 4, 5, 6])).unwrap();
    assert!(chunk == third);
    let differs = UniformChunk::new(root, im_rc::Vector::from(vec![1, 2, 3, 4, 5, 7])).unwrap();
    assert!(chunk != differs);
}

#[test]
fn indirect_chunk_children() {
    let mut a = IndirectChunk::new(Def(1));
    assert!(a.get_traits().is_empty());
    a.push_child(Label(1), ChunkId(NodeId(10)));
    a.push_child(Label(1), ChunkId(NodeId(11)));
    a.push_child(Label(2), ChunkId(NodeId(12)));
    let mut labels = a.get_traits();
    labels.sort();
    assert_eq!(labels, vec![Label(1), Label(2)]);
    let mut ids = a.get_trait(Label(1));
    assert_eq!(ids.next().map(|c| c.number()), Some(10));
    assert_eq!(ids.next().map(|c| c.number()), Some(11));
    assert!(ids.next().is_none());
    assert!(ids.next().is_none());
    assert!(a.get_trait(Label(3)).next().is_none());
    assert!(IndirectChunk::empty_trait().next().is_none());
    let b = a.clone();
    assert!(a == b);
    let mut c = a.clone();
    c.push_child(Label(2), ChunkId(NodeId(13)));
    assert!(a != c);
    assert!(a == b);
    assert!(a.get(NodeId(4), NodeId(4)).unwrap().get_id() == NodeId(4));
    assert!(a.get(NodeId(4), NodeId(5)).is_none());
    assert!(Chunk::Indirect(a.clone()) == Chunk::from(b));
    let uniform = UniformChunk::new(
        Rc::new(RootChunkSchema::new(leaf(1, 1, 1, None))),
        im_rc::Vector::from(vec![0]),
    )
    .unwrap();
    let uniform = Chunk::from(uniform);
    assert!(Chunk::Indirect(a) != uniform);
    assert!(uniform.get_traits().is_empty());
    assert!(uniform.get_trait(Label(1)).next().is_none());
}

#[test]
fn bytes_are_shared_not_changed() {
    let root = Rc::new(RootChunkSchema::new(leaf(3, 2, 1, Some(2))));
    let data: im_rc::Vector<u8> = im_rc::Vector::from(vec![1, 2, 3, 4, 5, 6]);
    let chunk = UniformChunk::new(root, data.clone()).unwrap();
    let copy = chunk.clone();
    assert!(*copy.data == data);
    let view = chunk.view(NodeId(0));
    let mut whole = view.data.clone();
    assert_eq!(whole.len(), 6);
    assert_eq!(*whole.get(5).unwrap(), 6);
    let mut last = forest::util::slice_with_length(view.data, 4, 2);
    assert_eq!(last.len(), 2);
    assert_eq!((*last.get(0).unwrap(), *last.get(1).unwrap()), (5, 6));
    assert!(last.get(2).is_none());
    let node = copy.get(NodeId(0), NodeId(1)).unwrap();
    let mut payload = node.get_payload().unwrap();
    assert_eq!((*payload.get(0).unwrap(), *payload.get(1).unwrap()), (3, 4));
    assert_eq!(data.len(), 6);
}

#[test]
fn parents_from_differences() {
    let mut old_map = im_rc::OrdMap::new();
    let mut chunk = IndirectChunk::new(Def(1));
    chunk.push_child(Label(1), ChunkId(NodeId(2)));
    chunk.push_child(Label(1), ChunkId(NodeId(3)));
    old_map.insert(1u128, Chunk::Indirect(chunk));
    old_map.insert(2u128, Chunk::Indirect(IndirectChunk::new(Def(2))));
    old_map.insert(3u128, Chunk::Indirect(IndirectChunk::new(Def(3))));
    let empty = im_rc::OrdMap::new();
    let mut parents = im_rc::HashMap::default();
    update_forest_parents(&old_map, &empty, &mut parents);
    assert_eq!(parents.len(), 2);
    let p: &ParentInfo<ChunkId> = parents.get(&3).unwrap();
    assert_eq!(p.node, ChunkId(NodeId(1)));
    assert_eq!(p.label, Label(1));
    // Chunk 1 goes, chunk 2 takes over chunk 3.
    let mut map = old_map.clone();
    map.remove(&1);
    let mut chunk = IndirectChunk::new(Def(2));
    chunk.push_child(Label(7), ChunkId(NodeId(3)));
    map.insert(2u128, Chunk::Indirect(chunk));
    update_forest_parents(&map, &old_map, &mut parents);
    assert!(parents.get(&2).is_none());
    // The differences come by ascending key: chunk 1 is dropped before
    // chunk 2 is updated, so that the new parent of chunk 3 stays.
    let p = parents.get(&3).unwrap();
    assert_eq!(p.node, ChunkId(NodeId(2)));
    assert_eq!(p.label, Label(7));
    update_forest_parents(&empty, &map, &mut parents);
    assert!(parents.is_empty());
}

#[test]
fn growing_a_tree() {
    let mut forest = forest::forest::Forest::new();
    forest.insert(ChunkId(NodeId(1)), Chunk::Indirect(IndirectChunk::new(Def(1))));
    let child = Chunk::Indirect(IndirectChunk::new(Def(2)));
    assert!(grow(&mut forest, ChunkId(NodeId(1)), Label(4), ChunkId(NodeId(2)), child));
    let child = Chunk::Indirect(IndirectChunk::new(Def(3)));
    assert!(!grow(&mut forest, ChunkId(NodeId(9)), Label(4), ChunkId(NodeId(3)), child));
    assert!(forest.find_node(NodeId(3)).is_some());
    let root = forest.nav_from(NodeId(1)).unwrap();
    assert_eq!(walk_all(&root, usize::MAX), Some(2));
}

#[test]
fn chunked_trees() {
    let (forest, id) = chunked_tree(1000, 100);
    let nav = forest.nav_from(id).unwrap();
    assert_eq!(walk_all(&nav, usize::MAX), Some(1002));
    let (forest, id) = chunked_tree(50, 0);
    let nav = forest.nav_from(id).unwrap();
    assert_eq!(walk_all(&nav, usize::MAX), Some(50));
    let (forest, id) = chunked_tree(12, 5);
    let nav = forest.nav_from(id).unwrap();
    assert_eq!(walk_all(&nav, usize::MAX), Some(12));
}

#[test]
fn typed_numbers() {
    assert_eq!(7u128.as_number(), 7);
    assert_eq!(<u128 as TypedNumber>::from_number(8), 8);
    assert_eq!(7usize.as_number(), 7);
    assert_eq!(<usize as TypedNumber>::from_number(8), 8);
    assert_eq!(7u32.as_number(), 7);
    assert_eq!(<u32 as TypedNumber>::from_number(8), 8);
}

#[test]
fn table_hands_out_positions() {
    let mut table: Table<u128, usize> = Table::new();
    assert_eq!(table.shorten(500), 0);
    assert_eq!(table.shorten(7), 1);
    assert_eq!(table.shorten(500), 0);
    assert_eq!(table.shorten(u128::MAX), 2);
    assert_eq!(table.full(0), 500);
    assert_eq!(table.full(1), 7);
    assert_eq!(table.full(2), u128::MAX);
    assert_eq!(table.position(7), 1);
    assert_eq!(table.at(1), 7);
}

#[test]
fn range_table_keeps_low_bits() {
    let mut table: RangeTable<u128, usize> = RangeTable::new();
    let a = 5u128 << 10 | 17;
    let b = 9u128 << 10 | 1023;
    assert_eq!(table.shorten(a), 17);
    assert_eq!(table.shorten(b), 1024 + 1023);
    assert_eq!(table.shorten(a + 1), 18);
    assert_eq!(table.shorten(u128::MAX), 2048 + 1023);
    assert_eq!(table.full(17), a);
    assert_eq!(table.full(18), a + 1);
    assert_eq!(table.full(1024 + 1023), b);
    assert_eq!(table.full(1024), 9u128 << 10);
    assert_eq!(table.full(2048 + 1023), u128::MAX);
}

#[test]
fn ranges_get_consecutive_short_ids() {
    let mut table: RangeTable<u128, usize> = RangeTable::new();
    assert!(table.room_left());
    assert_eq!(table.shorten(77u128 << 10), 0);
    let start = (5u128 << 10) + 1000;
    let end = (8u128 << 10) + 3;
    let (first, last) = table.reserve_range(start, end).unwrap();
    assert_eq!(first, 1024 + 1000);
    assert_eq!(last, 4 * 1024 + 3);
    assert_eq!(last - first, (end - start) as usize);
    assert_eq!(table.block_count(), 5);
    for x in [start, start + 1, start + 24, start + 25, end - 4, end] {
        let short = first + (x - start) as usize;
        assert_eq!(table.shorten(x), short);
        assert_eq!(table.full(short), x);
    }
    // A part of a range that was reserved before.
    let (first, last) = table.reserve_range(6u128 << 10, (7u128 << 10) + 5).unwrap();
    assert_eq!((first, last), (2 * 1024, 3 * 1024 + 5));
    // Blocks that are known, but not next to each other.
    assert!(table.reserve_range(77u128 << 10, 78u128 << 10).is_none());
    assert!(table.reserve_range(8u128 << 10, 5u128 << 10).is_none());
    // The block that was taken up on the way stays.
    assert!(table.knows(5 * 1024));
    assert_eq!(table.full(5 * 1024), 78u128 << 10);
    assert!(!table.knows(6 * 1024));
    assert!(table.knows(1023));
    let (first, last) = table.reserve_range(u128::MAX, u128::MAX).unwrap();
    assert_eq!((first, last), (6 * 1024 + 1023, 6 * 1024 + 1023));
}

#[test]
fn whole_chunk_walk() {
    let row = with_traits(4, 3, vec![(9, 2, 1, leaf(2, 1, 1, Some(1)))]);
    let schema = ChunkSchema { node_count: 3, ..row };
    let root = Rc::new(RootChunkSchema::new(schema));
    let chunk = UniformChunk::new(root, im_rc::Vector::from(vec![0; 9])).unwrap();
    assert_eq!(walk_chunk(&chunk, NodeId(100)), Some(3 * (1 + 2)));
    let flat = Rc::new(RootChunkSchema::new(leaf(7, 1, 2, None)));
    let chunk = UniformChunk::new(flat, im_rc::Vector::from(vec![0; 7])).unwrap();
    assert_eq!(walk_chunk(&chunk, NodeId(0)), Some(7));
}

#[test]
fn data_through_the_trait() {
    fn def_and_first_byte(n: &impl NodeData) -> (u128, Option<u8>) {
        (n.get_def().0, n.get_payload().map(|mut s| *s.get(0).unwrap()))
    }
    let mut forest = forest::forest::Forest::new();
    let chunk = IndirectChunk {
        def: Def(4),
        payload: Some(Box::new(im_rc::Vector::from(vec![42]))),
        traits: im_rc::HashMap::default(),
    };
    assert_eq!(def_and_first_byte(&chunk), (4, Some(42)));
    forest.insert(ChunkId(NodeId(1)), chunk.into());
    let uniform = UniformChunk::new(
        Rc::new(RootChunkSchema::new(leaf(2, 1, 1, Some(1)))),
        im_rc::Vector::from(vec![7, 8]),
    )
    .unwrap();
    forest.insert(ChunkId(NodeId(10)), uniform.into());
    let node = forest.find_node(NodeId(1)).unwrap();
    assert_eq!(def_and_first_byte(&node), (4, Some(42)));
    if let Node::Indirect(n) = &node {
        assert_eq!(def_and_first_byte(n), (4, Some(42)));
    } else {
        panic!();
    }
    let node = forest.find_node(NodeId(11)).unwrap();
    assert_eq!(def_and_first_byte(&node), (1, Some(8)));
    if let Node::Uniform(n) = &node {
        assert_eq!(def_and_first_byte(n), (1, Some(8)));
    } else {
        panic!();
    }
    let nav = forest.nav_from(NodeId(10)).unwrap();
    assert_eq!(def_and_first_byte(&nav), (1, Some(7)));
}

#[test]
fn forest_as_resolver() {
    fn first_of<'a>(r: impl Resolver<'a>, child: Child<'a>) -> Option<u128> {
        r.expand(child).next().map(|n| n.get_id().0)
    }
    let mut forest = forest::forest::Forest::new();
    let mut root = IndirectChunk::new(Def(1));
    root.push_child(Label(1), ChunkId(NodeId(10)));
    forest.insert(ChunkId(NodeId(1)), root.into());
    let uniform = UniformChunk::new(
        Rc::new(RootChunkSchema::new(leaf(2, 1, 1, Some(1)))),
        im_rc::Vector::from(vec![7, 8]),
    )
    .unwrap();
    forest.insert(ChunkId(NodeId(10)), uniform.into());
    assert_eq!(first_of(&forest, Child::Indirect(ChunkId(NodeId(10)))), Some(10));
    assert_eq!(first_of(&forest, Child::Indirect(ChunkId(NodeId(1)))), Some(1));
    let mut all = (&forest).expand(Child::Indirect(ChunkId(NodeId(10))));
    assert_eq!(all.next().map(|n| n.get_id().0), Some(10));
    assert_eq!(all.next().map(|n| n.get_id().0), Some(11));
    assert!(all.next().is_none());
    let second = forest.find_node(NodeId(11)).unwrap();
    let parent = (&forest).get_parent(&second).unwrap();
    assert_eq!(parent.node.get_id(), NodeId(1));
    if let Node::Uniform(n) = second {
        let mut own = (&forest).expand(Child::Uniform(n));
        assert_eq!(own.next().map(|n| n.get_id().0), Some(11));
        assert!(own.next().is_none());
    }
}
