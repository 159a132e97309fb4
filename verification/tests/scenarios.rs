use std::rc::Rc;

use forest::chunk::ChunkId;
use forest::enum_chunk::{Chunk, Node};
use forest::forest::Forest;
use forest::indirect_node::IndirectChunk;
use forest::nav::Nav;
use forest::node_id::{HasId, IdOffset, NodeId};
use forest::test_stuff::{
    big_tree, chunked_tree, simple_tree, walk_all, walk_chunk, walk_direct_all, walk_uniform,
};
use forest::tree::{Def, Label};
use forest::schema::{ChunkSchema, OffsetSchema, RootChunkSchema};
use forest::uniform_chunk::UniformChunk;

const L: Label = Label(50);

fn bytes_of(node: &Node) -> Option<Vec<u8>> {
    node.get_payload().map(|mut s| {
        let mut out = Vec::new();
        for i in 0..s.len() {
            out.push(*s.get(i).unwrap());
        }
        out
    })
}

fn indirect(def: u128, traits: Vec<(Label, Vec<u128>)>) -> Chunk {
    let mut chunk = IndirectChunk::new(Def(def));
    for (label, children) in traits {
        for c in children {
            chunk.push_child(label, ChunkId(NodeId(c)));
        }
    }
    Chunk::Indirect(chunk)
}

fn uniform(schema: ChunkSchema, data: Vec<u8>) -> Chunk {
    assert!(schema.is_well_formed());
    let root = Rc::new(RootChunkSchema::new(schema));
    Chunk::Uniform(UniformChunk::new(root, im_rc::Vector::from(data)).unwrap())
}

fn channel(def: u128) -> ChunkSchema {
    ChunkSchema {
        def: Def(def),
        node_count: 1,
        bytes_per_node: 1,
        id_stride: 1,
        payload_size: Some(1),
        traits: vec![],
    }
}

fn rgba(node_count: u32) -> ChunkSchema {
    let mut traits = Vec::new();
    for i in 0..4u32 {
        traits.push((
            Label(100 + i as u128),
            OffsetSchema { id_offset: IdOffset(1 + i), byte_offset: i, schema: channel(7) },
        ));
    }
    ChunkSchema {
        def: Def(6),
        node_count,
        bytes_per_node: 4,
        id_stride: 5,
        payload_size: None,
        traits,
    }
}

fn children_of(nav: &Nav, label: Label) -> Vec<u128> {
    let mut out = Vec::new();
    let mut it = nav.get_trait(label);
    while let Some(c) = it.next() {
        out.push(c.get_id().0);
    }
    out
}

fn chain() -> Forest {
    let mut forest = Forest::new();
    forest.insert(ChunkId(NodeId(10)), indirect(1, vec![(L, vec![20])]));
    forest.insert(ChunkId(NodeId(20)), indirect(2, vec![(L, vec![30])]));
    forest.insert(ChunkId(NodeId(30)), indirect(3, vec![]));
    forest
}

fn mixed() -> Forest {
    let mut forest = Forest::new();
    forest.insert(ChunkId(NodeId(1000)), indirect(1, vec![(L, vec![2000])]));
    forest.insert(
        ChunkId(NodeId(2000)),
        uniform(rgba(3), vec![1, 2, 3, 4, 5, 6, 7, 8, 9, 10, 11, 12]),
    );
    forest
}

#[test]
fn single_indirect_node() {
    let mut forest = Forest::new();
    forest.insert(ChunkId(NodeId(5)), indirect(1, vec![]));
    let n = forest.find_node(NodeId(5)).unwrap();
    assert!(n.get_def().0 == 1);
    assert_eq!(n.get_id(), NodeId(5));
    assert!(bytes_of(&n).is_none());
    let nav = forest.nav_from(NodeId(5)).unwrap();
    let mut children = nav.get_trait(Label(9));
    assert!(children.next().is_none());
    assert!(nav.get_traits().is_empty());
    assert!(forest.find_node(NodeId(4)).is_none());
    assert!(forest.find_node(NodeId(6)).is_none());
    assert!(forest.nav_from(NodeId(6)).is_none());
}

#[test]
fn indirect_payload_is_handed_out() {
    let mut forest = Forest::new();
    let chunk = IndirectChunk {
        def: Def(1),
        payload: Some(Box::new(im_rc::Vector::from(vec![9u8, 8, 7]))),
        traits: im_rc::HashMap::default(),
    };
    forest.insert(ChunkId(NodeId(5)), chunk.into());
    let n = forest.find_node(NodeId(5)).unwrap();
    assert_eq!(bytes_of(&n), Some(vec![9, 8, 7]));
}

#[test]
fn chain_of_three() {
    let forest = chain();
    let root = forest.nav_from(NodeId(10)).unwrap();
    assert_eq!(walk_all(&root, usize::MAX), Some(3));
    assert_eq!(walk_all(&root, 2), Some(3));
    assert_eq!(walk_all(&root, 1), None);
    assert_eq!(walk_direct_all(&forest, ChunkId(NodeId(10)), usize::MAX), Some(3));
    assert_eq!(walk_direct_all(&forest, ChunkId(NodeId(11)), usize::MAX), None);
    assert_eq!(children_of(&root, L), vec![20]);

    let p = forest.nav_from(NodeId(30)).unwrap().parent().unwrap();
    assert_eq!(p.node.get_id(), NodeId(20));
    assert_eq!(p.label, L);
    assert_eq!(p.node.get_def().0, 2);
    let p = forest.nav_from(NodeId(20)).unwrap().parent().unwrap();
    assert_eq!(p.node.get_id(), NodeId(10));
    assert_eq!(p.label, L);
    assert!(forest.nav_from(NodeId(10)).unwrap().parent().is_none());
}

#[test]
fn uniform_chunk_flat() {
    let schema = ChunkSchema {
        def: Def(77),
        node_count: 4,
        bytes_per_node: 1,
        id_stride: 1,
        payload_size: Some(1),
        traits: vec![],
    };
    let mut forest = Forest::new();
    forest.insert(ChunkId(NodeId(100)), uniform(schema, vec![10, 20, 30, 40]));
    for (i, expected) in [10u8, 20, 30, 40].iter().enumerate() {
        let n = forest.find_node(NodeId(100 + i as u128)).unwrap();
        assert_eq!(n.get_def().0, 77);
        assert_eq!(n.get_id(), NodeId(100 + i as u128));
        assert_eq!(bytes_of(&n), Some(vec![*expected]));
    }
    assert!(forest.find_node(NodeId(104)).is_none());
    assert!(forest.find_node(NodeId(99)).is_none());
}

#[test]
fn uniform_chunk_with_children() {
    let mut forest = Forest::new();
    forest.insert(ChunkId(NodeId(0)), uniform(rgba(2), vec![1, 2, 3, 4, 5, 6, 7, 8]));
    let first_pixel = forest.find_node(NodeId(0)).unwrap();
    let second_pixel = forest.find_node(NodeId(5)).unwrap();
    assert_eq!(first_pixel.get_def().0, 6);
    assert_eq!(second_pixel.get_def().0, 6);
    assert_eq!(first_pixel.get_id(), NodeId(0));
    assert_eq!(second_pixel.get_id(), NodeId(5));
    assert_eq!(bytes_of(&first_pixel), None);
    for i in 1..5u128 {
        let c = forest.find_node(NodeId(i)).unwrap();
        assert_eq!(c.get_def().0, 7);
        assert_eq!(c.get_id(), NodeId(i));
        assert_eq!(bytes_of(&c), Some(vec![i as u8]));
        let c = forest.find_node(NodeId(5 + i)).unwrap();
        assert_eq!(c.get_id(), NodeId(5 + i));
        assert_eq!(bytes_of(&c), Some(vec![4 + i as u8]));
    }
    assert!(forest.find_node(NodeId(10)).is_none());

    let parent = forest.nav_from(NodeId(3)).unwrap().parent().unwrap();
    assert_eq!(parent.node.get_id(), NodeId(0));
    assert_eq!(parent.label, Label(102));
    let parent = forest.nav_from(NodeId(8)).unwrap().parent().unwrap();
    assert_eq!(parent.node.get_id(), NodeId(5));
    assert_eq!(parent.label, Label(102));
    assert!(forest.nav_from(NodeId(0)).unwrap().parent().is_none());
    assert!(forest.nav_from(NodeId(5)).unwrap().parent().is_none());

    let pixel = forest.nav_from(NodeId(5)).unwrap();
    assert_eq!(
        pixel.get_traits(),
        vec![Label(100), Label(101), Label(102), Label(103)]
    );
    assert_eq!(children_of(&pixel, Label(101)), vec![7]);
    assert_eq!(children_of(&pixel, Label(7)), Vec::<u128>::new());
}

#[test]
fn mixed_graph() {
    let forest = mixed();
    let root = forest.nav_from(NodeId(1000)).unwrap();
    assert_eq!(walk_all(&root, usize::MAX), Some(1 + 3 * (1 + 4)));
    assert_eq!(children_of(&root, L), vec![2000, 2005, 2010]);
    assert_eq!(walk_direct_all(&forest, ChunkId(NodeId(1000)), usize::MAX), Some(2));
    for top in [2000u128, 2005, 2010] {
        let p = forest.nav_from(NodeId(top)).unwrap().parent().unwrap();
        assert_eq!(p.node.get_id(), NodeId(1000));
        assert_eq!(p.label, L);
        for channel in 1..5u128 {
            let p = forest.nav_from(NodeId(top + channel)).unwrap().parent().unwrap();
            assert_eq!(p.node.get_id(), NodeId(top));
            assert_eq!(p.label, Label(99 + channel));
        }
    }
}

#[test]
fn every_parent_has_its_child() {
    let forest = mixed();
    let mut stack = vec![forest.nav_from(NodeId(1000)).unwrap()];
    let mut seen = 0;
    while let Some(n) = stack.pop() {
        seen += 1;
        if let Some(p) = n.parent() {
            assert!(p.node.get_traits().contains(&p.label));
            assert!(children_of(&p.node, p.label).contains(&n.get_id().0));
        }
        for label in n.get_traits() {
            let mut it = n.get_trait(label);
            while let Some(c) = it.next() {
                stack.push(c);
            }
        }
    }
    assert_eq!(seen, 16);
}

#[test]
fn uniform_walk_counts_what_the_schema_says() {
    let forest = mixed();
    let chunk = forest.find_nodes(ChunkId(NodeId(2000))).unwrap();
    let mut tops = chunk.top_level_nodes(NodeId(2000));
    let mut total = 0;
    let mut ids = Vec::new();
    while let Some(n) = tops.next() {
        ids.push(n.get_id().0);
        if let Node::Uniform(u) = &n {
            assert_eq!(walk_uniform(u), Some(5));
            total += walk_uniform(u).unwrap();
        }
    }
    assert_eq!(ids, vec![2000, 2005, 2010]);
    assert_eq!(total, 15);
}

#[test]
fn nested_repetitions() {
    // Two rows of three cells each; every row has a header byte.
    let cell = ChunkSchema {
        def: Def(3),
        node_count: 3,
        bytes_per_node: 2,
        id_stride: 1,
        payload_size: Some(2),
        traits: vec![],
    };
    let row = ChunkSchema {
        def: Def(2),
        node_count: 2,
        bytes_per_node: 7,
        id_stride: 6,
        payload_size: Some(1),
        traits: vec![(
            Label(1),
            OffsetSchema { id_offset: IdOffset(2), byte_offset: 1, schema: cell },
        )],
    };
    let mut forest = Forest::new();
    let data: Vec<u8> = (0..14).collect();
    forest.insert(ChunkId(NodeId(40)), uniform(row, data));
    // Ids 41 and 45 are gaps of the first row, 47 and 51 of the second.
    for gap in [41u128, 45, 47, 51, 52, 39] {
        assert!(forest.find_node(NodeId(gap)).is_none());
    }
    let n = forest.find_node(NodeId(46)).unwrap();
    assert_eq!(bytes_of(&n), Some(vec![7]));
    let n = forest.find_node(NodeId(44)).unwrap();
    assert_eq!(bytes_of(&n), Some(vec![5, 6]));
    let n = forest.find_node(NodeId(49)).unwrap();
    assert_eq!(bytes_of(&n), Some(vec![10, 11]));
    let p = forest.nav_from(NodeId(49)).unwrap().parent().unwrap();
    assert_eq!(p.node.get_id(), NodeId(46));
    assert_eq!(p.label, Label(1));
    let row = forest.nav_from(NodeId(46)).unwrap();
    assert_eq!(children_of(&row, Label(1)), vec![48, 49, 50]);
    assert_eq!(walk_all(&row, usize::MAX), Some(4));
    let mut cells = row.get_trait(Label(1));
    let mut payloads = Vec::new();
    while let Some(c) = cells.next() {
        let mut s = c.get_payload().unwrap();
        payloads.push((*s.get(0).unwrap(), *s.get(1).unwrap()));
    }
    assert_eq!(payloads, vec![(8, 9), (10, 11), (12, 13)]);
}

#[test]
fn snapshot_is_unaffected_by_later_inserts() {
    let mut forest = chain();
    let snapshot = forest.clone();
    forest.insert(ChunkId(NodeId(40)), indirect(4, vec![]));
    forest.add_child(ChunkId(NodeId(30)), L, ChunkId(NodeId(40)));
    let old_root = snapshot.nav_from(NodeId(10)).unwrap();
    let new_root = forest.nav_from(NodeId(10)).unwrap();
    assert_eq!(walk_all(&old_root, usize::MAX), Some(3));
    assert_eq!(walk_all(&new_root, usize::MAX), Some(4));
    assert!(snapshot.find_node(NodeId(40)).is_none());
    assert!(snapshot.get_parent_data().get(&40).is_none());
    let parents = forest.get_parent_data();
    assert_eq!(parents.get(&40).unwrap().node, ChunkId(NodeId(30)));
    assert_eq!(parents.len(), 3);
    assert_eq!(snapshot.get_parent_data().len(), 2);
}

#[test]
fn persistence_with_untouched_root() {
    let mut forest = mixed();
    let snapshot = forest.clone();
    forest.insert(ChunkId(NodeId(5000)), indirect(9, vec![(L, vec![1000])]));
    let before = walk_all(&snapshot.nav_from(NodeId(1000)).unwrap(), usize::MAX);
    let after = walk_all(&forest.nav_from(NodeId(1000)).unwrap(), usize::MAX);
    assert_eq!(before, Some(16));
    assert_eq!(after, Some(16));
    assert!(snapshot.nav_from(NodeId(1000)).unwrap().parent().is_none());
    let p = forest.nav_from(NodeId(1000)).unwrap().parent().unwrap();
    assert_eq!(p.node.get_id(), NodeId(5000));
}

#[test]
fn parent_index_follows_updates_and_replacements() {
    let mut forest = chain();
    assert_eq!(forest.get_parent_data().len(), 2);
    // Replace chunk 10 by one that has other children.
    forest.insert(ChunkId(NodeId(10)), indirect(1, vec![(Label(51), vec![30])]));
    let parents = forest.get_parent_data();
    assert!(parents.get(&20).is_none());
    let p = parents.get(&30).unwrap();
    assert_eq!(p.node, ChunkId(NodeId(10)));
    assert_eq!(p.label, Label(51));
    let p = forest.get_parent_from_chunk_id(ChunkId(NodeId(30))).unwrap();
    assert_eq!(p.node.get_id(), NodeId(10));
    assert!(forest.get_parent_from_chunk_id(ChunkId(NodeId(10))).is_none());
}

#[test]
fn lookups_by_chunk_and_by_node() {
    let mut forest = Forest::new();
    for k in 0..300u128 {
        forest.insert(ChunkId(NodeId(k * 10)), indirect(k, vec![]));
    }
    assert!(forest.find_nodes_from_node(NodeId(0)).is_some());
    for k in 0..300u128 {
        assert!(forest.find_nodes(ChunkId(NodeId(k * 10))).is_some());
        assert!(forest.find_nodes(ChunkId(NodeId(k * 10 + 1))).is_none());
        for offset in [0u128, 1, 9] {
            let (found, _) = forest.find_nodes_from_node(NodeId(k * 10 + offset)).unwrap();
            assert_eq!(found, ChunkId(NodeId(k * 10)));
        }
        assert_eq!(forest.find_node(NodeId(k * 10)).unwrap().get_def().0, k);
        assert!(forest.find_node(NodeId(k * 10 + 5)).is_none());
    }
    let mut forest = Forest::new();
    forest.insert(ChunkId(NodeId(7)), indirect(1, vec![]));
    assert!(forest.find_nodes_from_node(NodeId(6)).is_none());
}

#[test]
fn chunks_are_changed_in_place() {
    let mut forest = chain();
    match forest.find_nodes_mut(ChunkId(NodeId(30))).unwrap() {
        Chunk::Indirect(c) => c.def = Def(33),
        Chunk::Uniform(_) => panic!(),
    }
    assert_eq!(forest.find_node(NodeId(30)).unwrap().get_def().0, 33);
    assert!(forest.find_nodes_mut(ChunkId(NodeId(31))).is_none());
    forest.entry(ChunkId(NodeId(31))).or_insert(indirect(5, vec![]));
    assert_eq!(forest.find_node(NodeId(31)).unwrap().get_def().0, 5);
    assert!(!forest.add_child(ChunkId(NodeId(99)), L, ChunkId(NodeId(31))));
}

#[test]
fn well_formed_forests_are_told_apart() {
    let forest = mixed();
    assert!(forest.is_well_formed());
    assert!(forest.is_closed());
    let listed: Vec<u128> = forest.chunks().iter().map(|(k, _)| k.number()).collect();
    assert_eq!(listed, vec![1000, 2000]);
    let spans: Vec<u128> = forest.chunks().iter().map(|(_, c)| c.span()).collect();
    assert_eq!(spans, vec![1, 15]);

    // An indirect chunk on an id that the uniform chunk owns.
    let mut overlapping = mixed();
    overlapping.insert(ChunkId(NodeId(2014)), indirect(1, vec![]));
    assert!(!overlapping.is_well_formed());
    let mut next_to = mixed();
    next_to.insert(ChunkId(NodeId(2015)), indirect(1, vec![]));
    assert!(next_to.is_well_formed());

    // A uniform chunk that would run out of the id space.
    let mut at_the_end = Forest::new();
    let chunk = uniform(rgba(2), vec![0; 8]);
    assert!(chunk.can_be_at(NodeId(u128::MAX - 10)));
    assert!(!chunk.can_be_at(NodeId(u128::MAX - 9)));
    at_the_end.insert(ChunkId(NodeId(u128::MAX - 9)), chunk);
    assert!(!at_the_end.is_well_formed());

    // A uniform chunk with less data than its schema asks for.
    let mut short = Forest::new();
    let root = Rc::new(RootChunkSchema::new(rgba(2)));
    let chunk = UniformChunk { data: Box::new(im_rc::Vector::from(vec![0u8; 7])), schema: root };
    assert!(!chunk.is_well_formed());
    short.insert(ChunkId(NodeId(0)), Chunk::Uniform(chunk));
    assert!(!short.is_well_formed());

    // An edge that leads nowhere.
    let mut dangling = chain();
    assert!(dangling.is_closed());
    dangling.add_child(ChunkId(NodeId(30)), L, ChunkId(NodeId(31)));
    assert!(!dangling.is_closed());
    assert!(dangling.is_well_formed());
    let last = dangling.find_nodes(ChunkId(NodeId(30))).unwrap();
    assert!(!dangling.resolves(last));
    let first = dangling.find_nodes(ChunkId(NodeId(10))).unwrap();
    assert!(dangling.resolves(first));
    assert!(Forest::new().is_well_formed());
    assert!(Forest::new().is_closed());
    assert!(Forest::new().chunks().is_empty());
}

#[test]
fn top_level_nodes_are_the_roots_of_a_chunk() {
    let forest = chain();
    let chunk = forest.find_nodes(ChunkId(NodeId(20))).unwrap();
    let mut tops = chunk.top_level_nodes(NodeId(20));
    let only = tops.next().unwrap();
    assert_eq!(only.get_id(), NodeId(20));
    assert_eq!(only.get_def().0, 2);
    assert!(tops.next().is_none());
    assert!(tops.next().is_none());

    let forest = mixed();
    let chunk = forest.find_nodes(ChunkId(NodeId(2000))).unwrap();
    let mut tops = chunk.top_level_nodes(NodeId(2000));
    let mut ids = Vec::new();
    while let Some(n) = tops.next() {
        // Each of them is what the chunk has at its id.
        let again = chunk.get(NodeId(2000), n.get_id()).unwrap();
        assert_eq!(again.get_id(), n.get_id());
        assert_eq!(bytes_of(&again), bytes_of(&n));
        ids.push(n.get_id().0);
    }
    assert_eq!(ids, vec![2000, 2005, 2010]);
}

#[test]
fn parents_are_resolved_from_an_index() {
    let forest = chain();
    let index = forest.get_parent_data();
    let p = forest.parent_in(&index, ChunkId(NodeId(30))).unwrap();
    assert_eq!(p.node.get_id(), NodeId(20));
    assert_eq!(p.label, L);
    assert_eq!(p.node.get_def().0, 2);
    assert!(forest.parent_in(&index, ChunkId(NodeId(10))).is_none());
    assert!(forest.parent_in(&index, ChunkId(NodeId(31))).is_none());
    // An index without entries names no parent.
    let empty = Forest::new().get_parent_data();
    assert!(forest.parent_in(&empty, ChunkId(NodeId(30))).is_none());
}

#[test]
fn entries_are_handles_on_one_id() {
    let mut forest = chain();
    assert_eq!(*forest.entry(ChunkId(NodeId(31))).key(), 31);
    match forest.entry(ChunkId(NodeId(30))) {
        im_rc::ordmap::Entry::Occupied(e) => match e.get() {
            Chunk::Indirect(c) => assert_eq!(c.def.0, 3),
            Chunk::Uniform(_) => panic!(),
        },
        im_rc::ordmap::Entry::Vacant(_) => panic!(),
    }
    assert!(matches!(forest.entry(ChunkId(NodeId(31))), im_rc::ordmap::Entry::Vacant(_)));
    // Looking at an entry changes nothing.
    assert!(forest.find_nodes(ChunkId(NodeId(31))).is_none());
    assert_eq!(forest.chunks().len(), 3);
}

#[test]
fn parent_index_is_exact() {
    let mut f = chain();
    assert!(f.has_single_parents());
    let g = f.clone();
    f.insert(ChunkId(NodeId(40)), indirect(1, vec![(L, vec![50])]));
    f.insert(ChunkId(NodeId(50)), indirect(1, vec![]));
    let pg = g.get_parent_data();
    assert_eq!(pg.len(), 2);
    assert!(pg.get(&50).is_none());
    assert_eq!(pg.get(&20).unwrap().node, ChunkId(NodeId(10)));
    assert_eq!(pg.get(&30).unwrap().node, ChunkId(NodeId(20)));
    let pf = f.get_parent_data();
    assert_eq!(pf.len(), 3);
    assert_eq!(pf.get(&50).unwrap().node, ChunkId(NodeId(40)));
    assert_eq!(pf.get(&50).unwrap().label, L);
    // Asking again gives the same.
    let again = f.get_parent_data();
    assert_eq!(again.len(), pf.len());
    for (child, info) in pf.iter() {
        let other = again.get(child).unwrap();
        assert_eq!(other.node, info.node);
        assert_eq!(other.label, info.label);
    }
}

#[test]
fn entries_of_a_replaced_chunk_go() {
    let mut f = chain();
    f.get_parent_data();
    f.insert(ChunkId(NodeId(10)), indirect(1, vec![]));
    let p = f.get_parent_data();
    assert_eq!(p.len(), 1);
    assert!(p.get(&20).is_none());
    assert_eq!(p.get(&30).unwrap().node, ChunkId(NodeId(20)));
    assert_eq!(p.get(&30).unwrap().label, L);
}

#[test]
fn a_moved_child_has_its_new_parent() {
    let mut f = chain();
    f.get_parent_data();
    f.insert(ChunkId(NodeId(20)), indirect(1, vec![]));
    f.insert(ChunkId(NodeId(10)), indirect(1, vec![(L, vec![20, 30])]));
    let p = f.get_parent_data();
    assert_eq!(p.len(), 2);
    assert_eq!(p.get(&20).unwrap().node, ChunkId(NodeId(10)));
    assert_eq!(p.get(&30).unwrap().node, ChunkId(NodeId(10)));
    // The other way round: from a chunk with a smaller id to one with a
    // greater id.
    let mut f = chain();
    f.get_parent_data();
    f.insert(ChunkId(NodeId(10)), indirect(1, vec![]));
    f.insert(ChunkId(NodeId(30)), indirect(1, vec![(L, vec![20])]));
    f.insert(ChunkId(NodeId(20)), indirect(1, vec![]));
    let p = f.get_parent_data();
    assert_eq!(p.len(), 1);
    assert_eq!(p.get(&20).unwrap().node, ChunkId(NodeId(30)));
}

#[test]
fn snapshot_keeps_its_parents_after_a_replacement() {
    let mut f = chain();
    let g = f.clone();
    f.insert(ChunkId(NodeId(10)), indirect(1, vec![]));
    assert_eq!(walk_all(&g.nav_from(NodeId(10)).unwrap(), usize::MAX), Some(3));
    assert_eq!(walk_all(&f.nav_from(NodeId(10)).unwrap(), usize::MAX), Some(1));
    let p = g.nav_from(NodeId(20)).unwrap().parent().unwrap();
    assert_eq!(p.node.get_id(), NodeId(10));
    assert!(f.nav_from(NodeId(20)).unwrap().parent().is_none());
}

#[test]
fn two_parents_are_told() {
    let mut f = chain();
    assert!(f.has_single_parents());
    f.insert(ChunkId(NodeId(40)), indirect(1, vec![(L, vec![30])]));
    assert!(!f.has_single_parents());
    let mut f = chain();
    f.add_child(ChunkId(NodeId(10)), Label(51), ChunkId(NodeId(20)));
    assert!(!f.has_single_parents());
    // The same child twice under one label is one parent.
    let mut f = chain();
    f.add_child(ChunkId(NodeId(10)), L, ChunkId(NodeId(20)));
    assert!(f.has_single_parents());
    assert!(Forest::new().has_single_parents());
    assert!(mixed().has_single_parents());
}

#[test]
fn every_child_has_the_cursor_as_parent() {
    let forest = mixed();
    let mut stack = vec![forest.nav_from(NodeId(1000)).unwrap()];
    while let Some(m) = stack.pop() {
        for label in m.get_traits() {
            let mut it = m.get_trait(label);
            while let Some(n) = it.next() {
                let p = n.parent().unwrap();
                assert_eq!(p.node.get_id(), m.get_id());
                assert_eq!(p.label, label);
                stack.push(n);
            }
        }
    }
    let forest = chain();
    let p = forest.get_parent_from_chunk_id(ChunkId(NodeId(20))).unwrap();
    assert_eq!(p.node.get_id(), NodeId(10));
    assert!(forest.get_parent_from_chunk_id(ChunkId(NodeId(10))).is_none());
    assert!(forest.get_parent_from_chunk_id(ChunkId(NodeId(99))).is_none());
}

#[test]
fn chunk_iterator_counts_its_steps() {
    let forest = mixed();
    let chunk = match forest.find_nodes(ChunkId(NodeId(2000))).unwrap() {
        Chunk::Uniform(c) => c,
        Chunk::Indirect(_) => panic!(),
    };
    let mut it = chunk.top_level_nodes(NodeId(2000));
    for step in 0..3u32 {
        match &it {
            forest::uniform_chunk::ChunkIterator::View(v) => assert_eq!(v.offset, step),
            forest::uniform_chunk::ChunkIterator::Empty => panic!(),
        }
        let n = it.next().unwrap();
        assert_eq!(n.offset, step);
        assert_eq!(n.view.first_id, NodeId(2000));
    }
    assert!(it.next().is_none());
    match &it {
        forest::uniform_chunk::ChunkIterator::View(v) => assert_eq!(v.offset, 3),
        forest::uniform_chunk::ChunkIterator::Empty => panic!(),
    }
}

fn all_valid(forest: &Forest) -> bool {
    forest.chunks().iter().all(|(id, chunk)| chunk.can_be_at(id.0))
}

#[test]
fn a_built_tree_is_closed_and_no_larger_than_asked() {
    let (forest, root) = big_tree(40, 3, 4);
    assert!(forest.find_nodes(ChunkId(root)).is_some());
    assert!(forest.is_closed());
    assert!(all_valid(&forest));
    let stored = forest.chunks().len();
    assert!(stored <= 43);
    assert!(stored >= 1);
}

#[test]
fn a_tree_without_chunks_holds_single_nodes_only() {
    let (forest, root) = big_tree(25, 0, 7);
    assert!(forest.find_nodes(ChunkId(root)).is_some());
    assert!(forest.is_closed());
    let chunks = forest.chunks();
    assert!(chunks.len() <= 25);
    assert!(chunks.iter().all(|(_, chunk)| matches!(chunk, Chunk::Indirect(_))));
}

#[test]
fn a_tree_of_no_nodes_still_has_its_root() {
    let (forest, root) = big_tree(0, 0, 0);
    let chunks = forest.chunks();
    assert_eq!(chunks.len(), 1);
    assert_eq!(chunks[0].0, ChunkId(root));
    assert!(matches!(chunks[0].1, Chunk::Indirect(_)));
}

#[test]
fn a_simple_tree_has_at_most_two_chunks() {
    let (forest, root) = simple_tree();
    assert!(forest.find_nodes(ChunkId(root)).is_some());
    assert!(forest.is_closed());
    assert!(all_valid(&forest));
    assert!(forest.chunks().len() <= 2);
}

#[test]
fn a_chunked_tree_is_no_larger_than_its_shares() {
    // 12 nodes in chunks of 5: two chunks, and two single nodes for the rest.
    let (forest, root) = chunked_tree(12, 5);
    assert!(forest.find_nodes(ChunkId(root)).is_some());
    assert!(forest.is_closed());
    assert!(all_valid(&forest));
    assert!(forest.chunks().len() <= 4);
    // Without chunks, 50 single nodes.
    let (plain, _) = chunked_tree(50, 0);
    let chunks = plain.chunks();
    assert!(chunks.len() <= 50);
    assert!(chunks.iter().all(|(_, chunk)| matches!(chunk, Chunk::Indirect(_))));
}

fn ids_found(chunk: &Chunk, first: u128, span: u128) -> usize {
    (0..span).filter(|o| chunk.get(NodeId(first), NodeId(first + o)).is_some()).count()
}

#[test]
fn a_cursor_in_a_uniform_chunk_counts_what_the_shape_says() {
    let forest = mixed();
    for id in [2000u128, 2005, 2010] {
        let nav = forest.nav_from(NodeId(id)).unwrap();
        assert_eq!(walk_all(&nav, 1), Some(5));
        assert_eq!(walk_all(&nav, 9), Some(5));
        // One level is needed below a pixel.
        assert_eq!(walk_all(&nav, 0), None);
    }
    let leaf = forest.nav_from(NodeId(2003)).unwrap();
    assert_eq!(walk_all(&leaf, 0), Some(1));
}

#[test]
fn a_chunk_has_a_node_at_as_many_ids_as_a_walk_counts() {
    let pixels = uniform(rgba(2), vec![1, 2, 3, 4, 5, 6, 7, 8]);
    assert_eq!(ids_found(&pixels, 40, 10), 10);
    if let Chunk::Uniform(c) = &pixels {
        assert_eq!(walk_chunk(c, NodeId(40)), Some(10));
    }
    // With gaps: each node owns three ids and uses two of them.
    let gapped = ChunkSchema {
        def: Def(3),
        node_count: 4,
        bytes_per_node: 1,
        id_stride: 3,
        payload_size: None,
        traits: vec![(
            Label(1),
            OffsetSchema { id_offset: IdOffset(2), byte_offset: 0, schema: channel(7) },
        )],
    };
    let chunk = uniform(gapped, vec![9, 8, 7, 6]);
    assert_eq!(ids_found(&chunk, 100, 12), 8);
    assert!(chunk.get(NodeId(100), NodeId(101)).is_none());
    assert!(chunk.get(NodeId(100), NodeId(102)).is_some());
    if let Chunk::Uniform(c) = &chunk {
        assert_eq!(walk_chunk(c, NodeId(100)), Some(8));
    }
}

fn ids_below(nav: &Nav, out: &mut Vec<u128>) {
    out.push(nav.get_id().0);
    for label in nav.get_traits() {
        let mut it = nav.get_trait(label);
        while let Some(c) = it.next() {
            ids_below(&c, out);
        }
    }
}

fn distinct(mut ids: Vec<u128>) -> usize {
    ids.sort();
    ids.dedup();
    ids.len()
}

#[test]
fn a_walk_comes_to_each_node_once() {
    for (forest, root) in [(chain(), 10u128), (mixed(), 1000)] {
        let nav = forest.nav_from(NodeId(root)).unwrap();
        let mut ids = Vec::new();
        ids_below(&nav, &mut ids);
        let seen = ids.len();
        assert_eq!(distinct(ids), seen);
        assert_eq!(walk_all(&nav, 10), Some(seen));
    }
}

#[test]
fn a_child_listed_twice_is_walked_twice() {
    let mut forest = Forest::new();
    forest.insert(ChunkId(NodeId(10)), indirect(1, vec![(L, vec![20, 20])]));
    forest.insert(ChunkId(NodeId(20)), indirect(2, vec![]));
    assert!(forest.has_single_parents());
    let nav = forest.nav_from(NodeId(10)).unwrap();
    let mut ids = Vec::new();
    ids_below(&nav, &mut ids);
    assert_eq!(ids, vec![10, 20, 20]);
    assert_eq!(walk_all(&nav, 10), Some(3));
    assert_eq!(distinct(ids), 2);
}

#[test]
fn a_node_over_a_chunk_counts_the_chunk() {
    let forest = mixed();
    let root = forest.nav_from(NodeId(1000)).unwrap();
    // One level for the pixels and one for their channels.
    assert_eq!(walk_all(&root, 2), Some(1 + 15));
    assert_eq!(walk_all(&root, 1), None);
    if let Chunk::Uniform(c) = forest.find_nodes(ChunkId(NodeId(2000))).unwrap() {
        assert_eq!(walk_chunk(c, NodeId(2000)), Some(15));
    }
}

#[test]
fn a_tree_of_single_nodes_counts_each_once() {
    let (forest, root) = big_tree(30, 0, 0);
    assert!(forest.is_well_formed());
    assert!(forest.has_single_parents());
    assert_eq!(forest.chunks().len(), 30);
    let nav = forest.nav_from(root).unwrap();
    // No tree of 30 nodes is more than 29 levels deep.
    assert_eq!(walk_all(&nav, 29), Some(30));
    let mut ids = Vec::new();
    ids_below(&nav, &mut ids);
    assert_eq!(distinct(ids), 30);
}

#[test]
fn a_built_tree_counts_its_nodes_and_chunks() {
    let (forest, root) = big_tree(10, 3, 4);
    // No id was drawn twice, and no two chunks overlap.
    assert_eq!(forest.chunks().len(), 13);
    assert!(forest.is_well_formed());
    let nav = forest.nav_from(root).unwrap();
    // Ten levels for the single nodes, one for the pixels, one for the channels.
    assert_eq!(walk_all(&nav, 11), Some(10 + 3 * 4 * 5));
}
