use std::rc::Rc;

use forest::chunk::ChunkId;
use forest::enum_chunk::Chunk;
use forest::forest::Forest;
use forest::indirect_node::IndirectChunk;
use forest::nav::Nav;
use forest::node_id::{HasId, IdOffset, NodeId};
use forest::test_stuff::{big_tree, simple_tree, walk_all, PER_CHUNK_ITEM};
use forest::tree::{Def, Label};
use forest::schema::{ChunkSchema, OffsetSchema, RootChunkSchema};
use forest::uniform_chunk::UniformChunk;
use forest::util::slice_with_length;

fn single_node_forest() -> Forest {
    let mut forest = Forest::new();
    forest.insert(
        ChunkId(NodeId(5)),
        IndirectChunk { def: Def(1), payload: None, traits: im_rc::HashMap::default() }.into(),
    );
    forest
}

fn check_single_node(forest: &Forest) {
    let n = forest.find_node(NodeId(5)).unwrap();
    assert!(n.get_def().0 == 1);

    let nav = forest.nav_from(NodeId(5)).unwrap();

    let mut trait_nav = nav.get_trait(Label(9));
    let mut children = Vec::new();
    while let Some(c) = trait_nav.next() {
        children.push(c);
    }
    assert!(children.len() == 0);

    let n = forest.find_nodes(ChunkId(NodeId(5))).unwrap();
    let n = n.get(NodeId(5), NodeId(5)).unwrap();
    assert!(n.get_def().0 == 1);
}

fn check_parents(n: &Nav) {
    for t in n.get_traits() {
        let mut children = n.get_trait(t);
        while let Some(c) = children.next() {
            let p = c.parent().unwrap();
            assert_eq!(p.label, t);
            assert_eq!(p.node.get_id(), n.get_id());
            check_parents(&c);
        }
    }
}

#[test]
fn indirect_nav_it_works() {
    let forest = single_node_forest();
    let _n = forest.find_node(NodeId(5)).unwrap();
    let _nav = forest.nav_from(NodeId(5)).unwrap();
    let n = forest.find_nodes(ChunkId(NodeId(5))).unwrap();
    let _n = n.get(NodeId(5), NodeId(5)).unwrap();
    check_single_node(&forest);
}

#[test]
fn a_nav_it_works() {
    check_single_node(&single_node_forest());
}

#[test]
fn b_nav_it_works() {
    check_single_node(&single_node_forest());
}

#[test]
fn indirect_dynamic_it_works() {
    check_single_node(&single_node_forest());
}

#[test]
fn test_stuff_basic_nodes() {
    let size = 1000;
    let (forest, id) = big_tree(size, 0, 1000);
    let nav = forest.nav_from(id).unwrap();
    assert_eq!(walk_all(&nav, usize::MAX), Some(size));
}

#[test]
fn test_stuff_parents() {
    let size = 100;
    let (forest, id) = big_tree(size, 0, 100);
    let nav = forest.nav_from(id).unwrap();
    check_parents(&nav);
}

#[test]
fn test_stuff_parents_with_chunks() {
    let size = 100;
    let (forest, id) = big_tree(size, 5, 100);
    let nav = forest.nav_from(id).unwrap();
    check_parents(&nav);
}

#[test]
fn parents_with_chunks_small() {
    let size = 1;
    let (forest, id) = big_tree(size, 1, 2);
    let nav = forest.nav_from(id).unwrap();
    check_parents(&nav);
}

#[test]
fn parents_with_chunks_small2() {
    let (forest, id) = simple_tree();
    let nav = forest.nav_from(id).unwrap();
    check_parents(&nav);
}

#[test]
fn parents_with_chunk() {
    let mut forest = Forest::new();

    // color channel schema
    let sub_schema = ChunkSchema {
        def: Def(11),
        node_count: 1,
        bytes_per_node: 1,
        id_stride: 1,
        payload_size: Some(1),
        traits: vec![],
    };

    // Color schema (rgba)
    let schema = ChunkSchema {
        def: Def(12),
        node_count: 2,
        bytes_per_node: 2,
        id_stride: 5,
        payload_size: None,
        traits: vec![
            (
                Label(21),
                OffsetSchema { id_offset: IdOffset(1), byte_offset: 0, schema: sub_schema.clone() },
            ),
            (
                Label(22),
                OffsetSchema { id_offset: IdOffset(2), byte_offset: 1, schema: sub_schema.clone() },
            ),
        ],
    };

    let chunk_schema = Rc::new(RootChunkSchema::new(schema));

    let id = NodeId(1);
    let data: im_rc::Vector<u8> = [1u8, 2, 3, 4].iter().cloned().collect();
    forest.insert(
        ChunkId(id),
        Chunk::Uniform(UniformChunk { schema: chunk_schema.clone(), data: data.into() }),
    );

    let nav = forest.nav_from(id).unwrap();
    check_parents(&nav);
}

#[test]
fn test_stuff_with_chunks() {
    const PER_CHUNK_ITEM: usize = 5;
    let size = 10;
    let chunks = 10;
    let chunk_size = 100;
    let (forest, id) = big_tree(size, chunks, chunk_size);
    let nav = forest.nav_from(id).unwrap();
    let n = walk_all(&nav, usize::MAX).unwrap();
    assert_eq!(n, size + chunks * chunk_size * PER_CHUNK_ITEM);
}

#[test]
fn test_stuff_with_chunks2() {
    let size = 100;
    let chunks = 200;
    let chunk_size = 1000;
    let (forest, id) = big_tree(size, chunks, chunk_size);
    let nav = forest.nav_from(id).unwrap();
    let n = walk_all(&nav, usize::MAX).unwrap();
    assert_eq!(n, size + chunks * chunk_size * PER_CHUNK_ITEM);
}

#[test]
fn test_stuff_print_sizes() {
    println!(
        "Chunk:{} BasicNode:{} EnumChunk:{}, ahash ImMap:{}, Default ImMap:{}, stdMap:{}",
        std::mem::size_of::<UniformChunk>(),
        std::mem::size_of::<IndirectChunk>(),
        std::mem::size_of::<Chunk>(),
        std::mem::size_of::<im_rc::HashMap<Label, Vec<ChunkId>, ahash::RandomState>>(),
        std::mem::size_of::<im_rc::HashMap<Label, Vec<ChunkId>>>(),
        std::mem::size_of::<std::collections::HashMap<Label, Vec<ChunkId>>>(),
    );
}

#[test]
fn narrow() {
    // A focus that was narrowed counts from the start of what it shows.
    let data: im_rc::Vector<u8> = im_rc::Vector::from(vec![0u8, 1, 2, 3, 4, 5]);

    let mut s1 = slice_with_length(data.focus(), 3, 1);
    let mut s2 = slice_with_length(s1.clone(), 0, 1);

    assert_eq!(*s1.get(0).unwrap(), 3);
    assert_eq!(*s2.get(0).unwrap(), 3);
}
