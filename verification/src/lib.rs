//! A persistent forest of labeled trees.
//!
//! A document is an ordered, labeled tree. Its nodes are kept in chunks, each
//! of which owns a range of node ids and is stored in the forest under the
//! first id of that range:
//!
//! - an indirect chunk ([`indirect_node`]) is a single node whose children
//!   are the ids of other chunks;
//! - a uniform chunk ([`uniform_chunk`]) is a dense subtree of fixed shape,
//!   repeated, kept as one blob of bytes beside a shared [`schema`].
//!
//! [`enum_chunk`] puts the two kinds behind one interface. The [`forest`]
//! maps ids to chunks in a persistent ordered map ([`chunk_map`]), so that a
//! snapshot is cheap, and keeps track of which chunk refers to which in a
//! lazily updated index ([`parents`]). [`nav`] offers a cursor that shows all
//! of this as one tree.
//!
//! What the functions of the crate do is stated over mathematical values: a
//! forest is a map from ids to chunks, a schema is a [`schema_model`], a node
//! is a node model. [`uniform_laws`] holds what is proved about the nodes of
//! uniform chunks beyond the contracts of single functions, and [`counting`]
//! says what the number of nodes of a tree is. [`id_count`] shows that a
//! uniform chunk has a node at as many ids as its shape has nodes, and
//! [`visits`] and [`walk_laws`] that a walk comes to each node of a tree
//! once. [`test_stuff`] holds walks that count nodes and builds trees to try
//! them on; [`built_laws`] and [`hung_laws`] say what a walk of such a tree
//! counts.

pub mod built_laws;
pub mod chunk;
pub mod chunk_map;
pub mod counting;
pub mod enum_chunk;
pub mod forest;
pub mod hung_laws;
pub mod id_compress;
pub mod id_count;
pub mod indirect_nav;
pub mod indirect_node;
pub mod nav;
pub mod node_id;
pub mod parents;
pub mod schema;
pub mod schema_model;
pub mod test_stuff;
pub mod tree;
pub mod uniform_chunk;
pub mod uniform_laws;
pub mod util;
pub mod visits;
pub mod walk_laws;
