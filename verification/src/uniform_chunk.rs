//! Uniform chunks: a dense subtree of fixed shape, repeated, stored as one
//! byte blob beside a shared schema that says where every node lies.

use std::rc::Rc;
use vstd::prelude::*;
use vstd::std_specs::cmp::PartialEqSpecImpl;
use crate::node_id::{HasId, IdOffset, NodeId};
use crate::schema::{span_of, ChunkSchema, OffsetSchema, RootChunkSchema};
use crate::schema_model::{SchemaModel, TraitModel};
use crate::tree::{Def, Label, NodeData};
use crate::util::{
    bytes_len, clone_bytes, clone_slice, focus_of, same_bytes, slice_bytes, slice_with_length,
    vector_bytes, ImSlice,
};

verus! {

/// Sequence of trees with identical schema and sequential ids.
/// Owns the content: one shared copy of the schema, the rest as a blob.
pub struct UniformChunk {
    pub data: Box<im_rc::Vector<u8>>,
    pub schema: Rc<RootChunkSchema>,
}

/// Part of a chunk: a run of nodes of one shape, with the bytes they lie in.
pub struct ChunkInfo<'a> {
    pub first_id: NodeId,
    pub schema: &'a ChunkSchema,
    pub data: ImSlice<'a>,
}

/// Node within a `UniformChunk`: node number `offset` of the run in `view`.
pub struct UniformChunkNode<'a> {
    pub view: ChunkInfo<'a>,
    pub offset: u32,
}

/// Mathematical value of a node within a uniform chunk.
pub struct UniformNodeModel {
    pub id: NodeId,
    pub schema: SchemaModel,
    /// The `bytes_per_node` bytes of the node.
    pub bytes: Seq<u8>,
}

impl UniformNodeModel {
    /// Child number `i` under trait `tr` of this node.
    pub open spec fn child(self, tr: TraitModel, i: int) -> UniformNodeModel {
        UniformNodeModel {
            id: NodeId((self.id.0 + tr.id_offset + i * tr.schema.id_stride) as u128),
            schema: tr.schema,
            bytes: self.bytes.subrange(
                tr.byte_offset + i * tr.schema.bytes_per_node,
                tr.byte_offset + (i + 1) * tr.schema.bytes_per_node,
            ),
        }
    }

    /// The children under `label`, in order; none if the node has no such
    /// trait.
    pub open spec fn children(self, label: Label) -> Seq<UniformNodeModel> {
        match self.schema.trait_index(label) {
            Some(t) => Seq::new(
                self.schema.traits[t].schema.node_count as nat,
                |i: int| self.child(self.schema.traits[t], i),
            ),
            None => Seq::empty(),
        }
    }

    /// The payload: the first `payload_size` bytes of the node, if the schema
    /// gives it one.
    pub open spec fn payload(self) -> Option<Seq<u8>> {
        match self.schema.payload_size {
            Some(p) => Some(self.bytes.subrange(0, p as int)),
            None => None,
        }
    }
}

/// Node number `n` of a run of nodes of shape `schema` that starts at id
/// `first_id` and lies in `bytes`.
pub open spec fn node_of_run(first_id: NodeId, schema: SchemaModel, bytes: Seq<u8>, n: int)
    -> UniformNodeModel {
    UniformNodeModel {
        id: NodeId((first_id.0 + n * schema.id_stride) as u128),
        schema,
        bytes: bytes.subrange(n * schema.bytes_per_node, (n + 1) * schema.bytes_per_node),
    }
}

/// Whether nodes `0..n` of a run are all there: `n` nodes of a well formed
/// shape whose bytes are in `bytes` and whose ids are node ids.
pub open spec fn run_holds(first_id: NodeId, schema: SchemaModel, bytes: Seq<u8>, n: int) -> bool {
    &&& schema.wf()
    &&& n * schema.bytes_per_node <= bytes.len() <= usize::MAX
    &&& n * schema.id_stride <= u32::MAX
    &&& first_id.0 + n * schema.id_stride <= u128::MAX
}

impl<'a> ChunkInfo<'a> {
    pub fn clone(&self) -> (r: Self)
        ensures
            r.first_id == self.first_id,
            r.schema == self.schema,
            slice_bytes(&r.data) == slice_bytes(&self.data),
    {
        ChunkInfo { first_id: self.first_id, schema: self.schema, data: clone_slice(&self.data) }
    }
}

impl<'a> View for UniformChunkNode<'a> {
    type V = UniformNodeModel;

    open spec fn view(&self) -> UniformNodeModel {
        node_of_run(
            self.view.first_id,
            self.view.schema@,
            slice_bytes(&self.view.data),
            self.offset as int,
        )
    }
}

impl<'a> UniformChunkNode<'a> {
    /// The node and all before it in its run are there.
    pub open spec fn wf(&self) -> bool {
        run_holds(
            self.view.first_id,
            self.view.schema@,
            slice_bytes(&self.view.data),
            self.offset + 1,
        )
    }

    pub fn clone(&self) -> (r: Self)
        ensures
            r@ == self@,
            r.wf() == self.wf(),
            r.offset == self.offset,
            r.view.first_id == self.view.first_id,
            r.view.schema == self.view.schema,
            slice_bytes(&r.view.data) == slice_bytes(&self.view.data),
    {
        UniformChunkNode { view: self.view.clone(), offset: self.offset }
    }

    /// The bytes of this node.
    fn data(&self) -> (r: ImSlice<'a>)
        requires
            self.wf(),
        ensures
            slice_bytes(&r) == self@.bytes,
    {
        let offset = self.offset as usize;
        let stride = self.view.schema.bytes_per_node as usize;
        proof {
            let n = self.offset as int;
            let w = self.view.schema.bytes_per_node as int;
            assert((n + 1) * w == n * w + w && 0 <= n * w) by (nonlinear_arith)
                requires
                    0 <= n,
                    0 < w,
            ;
        }
        let start = offset * stride;
        slice_with_length(clone_slice(&self.view.data), start, stride)
    }

    pub fn get_def(&self) -> (r: Def)
        ensures
            r == self@.schema.def,
    {
        self.view.schema.def
    }

    pub fn get_payload(&self) -> (r: Option<ImSlice<'a>>)
        requires
            self.wf(),
        ensures
            match self@.payload() {
                Some(bytes) => r matches Some(s) && slice_bytes(&s) == bytes,
                None => r is None,
            },
    {
        match self.view.schema.payload_size {
            Some(p) => {
                let node_data = self.data();
                proof {
                    let n = self.offset as int;
                    let w = self.view.schema.bytes_per_node as int;
                    assert((n + 1) * w == n * w + w && 0 <= n * w) by (nonlinear_arith)
                        requires
                            0 <= n,
                            0 < w,
                    ;
                }
                Some(slice_with_length(node_data, 0, p as usize))
            },
            None => None,
        }
    }
}

impl<'a> NodeData for UniformChunkNode<'a> {
    open spec fn readable(&self) -> bool {
        self.wf()
    }

    open spec fn def_of(&self) -> Def {
        self@.schema.def
    }

    open spec fn payload_of(&self) -> Option<Seq<u8>> {
        self@.payload()
    }

    fn get_def(&self) -> (r: Def) {
        self.view.schema.def
    }

    fn get_payload(&self) -> (r: Option<ImSlice<'_>>) {
        match UniformChunkNode::get_payload(self) {
            Some(s) => Some(s),
            None => None,
        }
    }
}

impl<'a> HasId for UniformChunkNode<'a> {
    open spec fn has_id(&self) -> bool {
        self.wf()
    }

    open spec fn id(&self) -> NodeId {
        self@.id
    }

    fn get_id(&self) -> (r: NodeId) {
        proof {
            let n = self.offset as int;
            let w = self.view.schema.id_stride as int;
            assert((n + 1) * w == n * w + w && 0 <= n * w) by (nonlinear_arith)
                requires
                    0 <= n,
                    0 < w,
            ;
        }
        self.view.first_id + IdOffset(self.offset * self.view.schema.id_stride)
    }
}

/// The nodes of a run that are still to come. The node in `View` is the
/// one that comes next: its `offset` counts the nodes handed out, and each
/// step adds one to it and leaves the run in `view` as it is.
pub enum ChunkIterator<'a> {
    /// The node that comes next, and through it the rest of its run.
    View(UniformChunkNode<'a>),
    Empty,
}

impl<'a> ChunkIterator<'a> {
    /// The whole run is there, and the position is within it or at its end.
    pub open spec fn wf(&self) -> bool {
        match self {
            ChunkIterator::View(n) => {
                &&& n.offset <= n.view.schema.node_count
                &&& run_holds(
                    n.view.first_id,
                    n.view.schema@,
                    slice_bytes(&n.view.data),
                    n.view.schema.node_count as int,
                )
            },
            ChunkIterator::Empty => true,
        }
    }

    /// The nodes that `next` will still hand out, in order.
    pub open spec fn remaining(&self) -> Seq<UniformNodeModel> {
        match self {
            ChunkIterator::View(n) => Seq::new(
                (n.view.schema.node_count - n.offset) as nat,
                |j: int|
                    node_of_run(
                        n.view.first_id,
                        n.view.schema@,
                        slice_bytes(&n.view.data),
                        n.offset + j,
                    ),
            ),
            ChunkIterator::Empty => Seq::empty(),
        }
    }

    /// Hands out the next node of the run, if one is left.
    pub fn next(&mut self) -> (r: Option<UniformChunkNode<'a>>)
        requires
            old(self).wf(),
        ensures
            final(self).wf(),
            match r {
                Some(n) => {
                    &&& old(self).remaining().len() > 0
                    &&& n@ == old(self).remaining()[0]
                    &&& n.wf()
                    &&& final(self).remaining() == old(self).remaining().skip(1)
                },
                None => old(self).remaining().len() == 0 && final(self).remaining().len() == 0,
            },
            match *old(self) {
                ChunkIterator::View(v) if v.offset < v.view.schema.node_count => {
                    &&& r matches Some(n)
                    &&& n.offset == v.offset
                    &&& n.view.first_id == v.view.first_id
                    &&& n.view.schema == v.view.schema
                    &&& slice_bytes(&n.view.data) == slice_bytes(&v.view.data)
                    &&& *final(self) matches ChunkIterator::View(w)
                    &&& w.offset == v.offset + 1
                    &&& w.view == v.view
                },
                _ => r is None && *final(self) == *old(self),
            },
    {
        match self {
            ChunkIterator::View(offset) => {
                if offset.offset < offset.view.schema.node_count {
                    let out = offset.clone();
                    proof {
                        let n = offset.offset as int;
                        let c = offset.view.schema.node_count as int;
                        let w = offset.view.schema.bytes_per_node as int;
                        let s = offset.view.schema.id_stride as int;
                        assert((n + 1) * w <= c * w && (n + 1) * s <= c * s) by (nonlinear_arith)
                            requires
                                n + 1 <= c,
                                0 < w,
                                0 < s,
                        ;
                    }
                    offset.offset += 1;
                    proof {
                        assert(final(self).remaining() =~= old(self).remaining().skip(1));
                    }
                    Some(out)
                } else {
                    None
                }
            },
            ChunkIterator::Empty => None,
        }
    }
}

impl<'a> UniformChunkNode<'a> {
    /// The labels of the node's traits, in the order of the schema.
    pub fn get_traits(&self) -> (r: Vec<Label>)
        ensures
            r@ == self@.schema.labels(),
    {
        let mut labels: Vec<Label> = Vec::new();
        let mut t: usize = 0;
        while t < self.view.schema.traits.len()
            invariant
                t <= self.view.schema.traits.len(),
                labels@.len() == t,
                forall|j: int| 0 <= j < t ==> labels@[j] == self@.schema.traits[j].label,
            decreases self.view.schema.traits.len() - t,
        {
            labels.push(self.view.schema.traits[t].0);
            t += 1;
        }
        assert(labels@ =~= self@.schema.labels());
        labels
    }

    /// The children under `label`, all within the same chunk.
    pub fn get_trait(&self, label: Label) -> (r: ChunkIterator<'a>)
        requires
            self.wf(),
        ensures
            r.wf(),
            r.remaining() == self@.children(label),
    {
        let schema: &'a ChunkSchema = self.view.schema;
        let mut t: usize = 0;
        while t < schema.traits.len()
            invariant
                t <= schema.traits.len(),
                schema == self.view.schema,
                self.wf(),
                forall|j: int| 0 <= j < t ==> self@.schema.traits[j].label != label,
            decreases schema.traits.len() - t,
        {
            if schema.traits[t].0 == label {
                let x: &'a OffsetSchema = &schema.traits[t].1;
                let ghost tr = self@.schema.traits[t as int];
                proof {
                    self@.schema.lemma_trait_index(label, t as int);
                    assert(tr == x.labelled(schema.traits@[t as int].0));
                    assert(tr.schema.wf());
                    assert(tr.schema.node_count * tr.schema.bytes_per_node == tr.byte_span()
                        && tr.schema.node_count * tr.schema.id_stride == tr.id_span())
                        by (nonlinear_arith)
                        requires
                            tr.byte_span() == tr.schema.bytes_per_node * tr.schema.node_count,
                            tr.id_span() == tr.schema.id_stride * tr.schema.node_count,
                    ;
                    let n = self.offset as int;
                    let w = self.view.schema.bytes_per_node as int;
                    let s = self.view.schema.id_stride as int;
                    assert((n + 1) * w == n * w + w && 0 <= n * w && (n + 1) * s == n * s + s && 0
                        <= n * s) by (nonlinear_arith)
                        requires
                            0 <= n,
                            0 < w,
                            0 < s,
                    ;
                }
                if x.schema.node_count == 0 {
                    assert(self@.children(label) =~= Seq::empty());
                    return ChunkIterator::Empty;
                }
                let node_data = self.data();
                proof {
                    let count = tr.schema.node_count as int;
                    let w = tr.schema.bytes_per_node as int;
                    assert(0 < count * w) by (nonlinear_arith)
                        requires
                            0 < count,
                            0 < w,
                    ;
                }
                let trait_data = slice_with_length(
                    node_data,
                    x.byte_offset as usize,
                    x.schema.node_count as usize * x.schema.bytes_per_node as usize,
                );
                let trait_first_id = self.get_id() + x.id_offset;
                let r = ChunkIterator::View(
                    UniformChunkNode {
                        offset: 0,
                        view: ChunkInfo {
                            schema: &x.schema,
                            data: trait_data,
                            first_id: trait_first_id,
                        },
                    },
                );
                proof {
                    let count = tr.schema.node_count as int;
                    let w = tr.schema.bytes_per_node as int;
                    let s = tr.schema.id_stride as int;
                    assert forall|i: int| 0 <= i < count implies r.remaining()[i] == self@.child(
                        tr,
                        i,
                    ) by {
                        assert((i + 1) * w == i * w + w && 0 <= i * w && (i + 1) * w <= count * w
                            && 0 <= i * s) by (nonlinear_arith)
                            requires
                                0 <= i < count,
                                0 < w,
                                0 < s,
                        ;
                        assert(r.remaining()[i].bytes =~= self@.child(tr, i).bytes);
                    }
                    assert(r.remaining() =~= self@.children(label));
                }
                return r;
            }
            t += 1;
        }
        proof {
            if self@.schema.trait_index(label) is Some {
                let u = choose|i: int|
                    0 <= i < self@.schema.traits.len() && self@.schema.traits[i].label == label;
                assert(self@.schema.traits[u].label != label);
            }
        }
        ChunkIterator::Empty
    }
}

impl UniformChunk {
    /// The chunk holds at least one node, its schema and table are in order,
    /// and the data is exactly as long as the schema says.
    pub open spec fn wf(&self) -> bool {
        &&& self.schema.wf()
        &&& self.schema.spans_fit()
        &&& self.schema@.node_count >= 1
        &&& vector_bytes(&self.data).len() == self.schema@.byte_span()
    }

    /// Two uniform chunks are the same when they have the same shape and bytes.
    pub open spec fn same_as(&self, other: &Self) -> bool {
        &&& self.schema@ == other.schema@
        &&& vector_bytes(&self.data) == vector_bytes(&other.data)
    }

    /// Whether the chunk, stored under `first_id`, stays inside the id space.
    pub open spec fn fits_at(&self, first_id: NodeId) -> bool {
        first_id.0 + self.schema@.id_span() <= u128::MAX
    }

    /// The node with id `id` of this chunk when its first id is `first_id`.
    pub open spec fn node_at(&self, first_id: NodeId, id: NodeId) -> Option<UniformNodeModel> {
        if first_id.0 <= id.0 {
            match self.schema@.node_at(id.0 - first_id.0) {
                Some(l) => Some(
                    UniformNodeModel {
                        id,
                        schema: l.schema,
                        bytes: vector_bytes(&self.data).subrange(
                            l.byte_offset,
                            l.byte_offset + l.schema.bytes_per_node,
                        ),
                    },
                ),
                None => None,
            }
        } else {
            None
        }
    }

    /// The top level nodes of this chunk when its first id is `first_id`.
    pub open spec fn top_level(&self, first_id: NodeId) -> Seq<UniformNodeModel> {
        Seq::new(
            self.schema@.node_count as nat,
            |i: int| node_of_run(first_id, self.schema@, vector_bytes(&self.data), i),
        )
    }

    /// Whether a chunk of the given shape can hold the given data: the ids
    /// and bytes of the chunk can be counted in 32 bits, there is at least
    /// one node, and the data is as long as the schema says.
    pub open spec fn suits(schema: &RootChunkSchema, data: &im_rc::Vector<u8>) -> bool {
        &&& schema.spans_fit()
        &&& schema@.node_count >= 1
        &&& vector_bytes(data).len() == schema@.byte_span()
    }

    /// A chunk of the given shape with the given data, if the two match.
    pub fn new(schema: Rc<RootChunkSchema>, data: im_rc::Vector<u8>) -> (r: Option<Self>)
        ensures
            match r {
                Some(chunk) => {
                    &&& UniformChunk::suits(&schema, &data)
                    &&& chunk.wf()
                    &&& chunk.schema == schema
                    &&& *chunk.data == data
                },
                None => !UniformChunk::suits(&schema, &data),
            },
    {
        let shape = schema.schema();
        let ids = span_of(shape.id_stride, shape.node_count);
        let bytes = span_of(shape.bytes_per_node, shape.node_count);
        let len = bytes_len(&data);
        if ids <= u32::MAX as u64 && bytes <= u32::MAX as u64 && shape.node_count >= 1 && len as u64
            == bytes {
            Some(UniformChunk { data: Box::new(data), schema })
        } else {
            None
        }
    }

    /// Whether the chunk holds at least one node and exactly the data that
    /// its schema asks for.
    pub fn is_well_formed(&self) -> (r: bool)
        ensures
            r == self.wf(),
    {
        let shape = self.schema.schema();
        let ids = span_of(shape.id_stride, shape.node_count);
        let bytes = span_of(shape.bytes_per_node, shape.node_count);
        let len = bytes_len(&self.data);
        ids <= u32::MAX as u64 && bytes <= u32::MAX as u64 && shape.node_count >= 1 && len as u64
            == bytes
    }

    /// Number of ids that the chunk owns, gaps included.
    pub fn span(&self) -> (r: u128)
        ensures
            r == self.schema@.id_span(),
    {
        let shape = self.schema.schema();
        span_of(shape.id_stride, shape.node_count) as u128
    }

    /// Whether the chunk can be stored under `first_id` without leaving the
    /// id space.
    pub fn can_start_at(&self, first_id: NodeId) -> (r: bool)
        ensures
            r == self.fits_at(first_id),
    {
        let shape = self.schema.schema();
        let ids = span_of(shape.id_stride, shape.node_count);
        first_id.0 <= u128::MAX - ids as u128
    }

    /// Number of top level nodes.
    pub fn get_count(&self) -> (r: usize)
        ensures
            r == self.schema@.node_count,
    {
        self.schema.schema().node_count as usize
    }

    /// The whole chunk as a run of nodes that starts at id `id`.
    pub fn view(&self, id: NodeId) -> (r: ChunkInfo<'_>)
        ensures
            r.first_id == id,
            r.schema@ == self.schema@,
            slice_bytes(&r.data) == vector_bytes(&self.data),
            slice_bytes(&r.data).len() <= usize::MAX,
    {
        ChunkInfo { first_id: id, schema: self.schema.schema(), data: focus_of(&self.data) }
    }

    /// The node with id `id`, if the chunk, stored under `first_id`, uses it.
    pub fn get(&self, first_id: NodeId, id: NodeId) -> (r: Option<UniformChunkNode<'_>>)
        requires
            self.wf(),
            self.fits_at(first_id),
        ensures
            match self.node_at(first_id, id) {
                Some(m) => r matches Some(n) && n@ == m && n.wf(),
                None => r is None,
            },
    {
        match self.schema.lookup_schema(first_id, id) {
            Some(info) => {
                proof {
                    self.schema@.lemma_node_at_inside(id.0 - first_id.0);
                }
                let data = slice_with_length(
                    focus_of(&self.data),
                    info.byte_offset as usize,
                    info.schema.bytes_per_node as usize,
                );
                let view = ChunkInfo { first_id: id, schema: info.schema, data };
                let node = UniformChunkNode { view, offset: 0 };
                proof {
                    let found = self.schema@.node_at(id.0 - first_id.0)->0;
                    let expected = self.node_at(first_id, id)->0;
                    assert(info@ == found);
                    assert(node@.schema == expected.schema);
                    assert(node@.id == expected.id);
                    assert(slice_bytes(&node.view.data).len() == found.schema.bytes_per_node);
                    let w = found.schema.bytes_per_node as int;
                    let stride = found.schema.id_stride as int;
                    assert(0 * w == 0 && (0 + 1) * w == w && 0 * stride == 0 && (0 + 1) * stride
                        == stride) by (nonlinear_arith);
                    assert(node@.bytes =~= slice_bytes(&node.view.data));
                    assert(node@.bytes =~= expected.bytes);
                    assert(node@ == expected);
                    assert(node.wf());
                }
                Some(node)
            },
            None => None,
        }
    }

    /// The nodes at the top level of the chunk, in id order.
    pub fn top_level_nodes(&self, id: NodeId) -> (r: ChunkIterator<'_>)
        requires
            self.wf(),
            self.fits_at(id),
        ensures
            r.wf(),
            r.remaining() == self.top_level(id),
    {
        let r = ChunkIterator::View(UniformChunkNode { view: self.view(id), offset: 0 });
        proof {
            let s = self.schema@;
            assert(s.node_count * s.bytes_per_node == s.byte_span() && s.node_count * s.id_stride
                == s.id_span()) by (nonlinear_arith)
                requires
                    s.byte_span() == s.bytes_per_node * s.node_count,
                    s.id_span() == s.id_stride * s.node_count,
            ;
            assert(r.remaining() =~= self.top_level(id));
        }
        r
    }
}

/// `Rc::ptr_eq`: two handles to one allocation hold one value.
#[verifier::external_body]
fn same_allocation(a: &Rc<RootChunkSchema>, b: &Rc<RootChunkSchema>) -> (r: bool)
    ensures
        r ==> *a == *b,
{
    Rc::ptr_eq(a, b)
}

impl Clone for UniformChunk {
    fn clone(&self) -> (r: Self)
        ensures
            r.schema == self.schema,
            r.same_as(self),
    {
        UniformChunk { data: Box::new(clone_bytes(&self.data)), schema: self.schema.clone() }
    }
}

impl PartialEq for UniformChunk {
    fn eq(&self, other: &Self) -> (r: bool) {
        let same_schema = same_allocation(&self.schema, &other.schema)
            || self.schema.schema().same_shape(other.schema.schema());
        same_schema && same_bytes(&self.data, &other.data)
    }
}

impl PartialEqSpecImpl for UniformChunk {
    open spec fn obeys_eq_spec() -> bool {
        true
    }

    open spec fn eq_spec(&self, other: &Self) -> bool {
        self.same_as(other)
    }
}

} // verus!
