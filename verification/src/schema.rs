//! Schemas: the shape of the subtree that a uniform chunk repeats, and the
//! table that leads from an id to the node at that id.

use vstd::prelude::*;
use crate::node_id::{IdOffset, NodeId};
use crate::schema_model::{lemma_stride_position, Located, SchemaModel, TraitModel};
use crate::tree::{Def, Label};

verus! {

/// Shape of a subtree that repeats `node_count` times.
pub struct ChunkSchema {
    pub def: Def,
    /// Number of nodes at this level.
    pub node_count: u32,
    /// Distance in bytes between successive nodes at this level.
    pub bytes_per_node: u32,
    /// Distance in id space between successive nodes at this level.
    pub id_stride: u32,
    pub payload_size: Option<u16>,
    /// The traits of each node, each label at most once.
    pub traits: Vec<(Label, OffsetSchema)>,
}

/// Where a trait's first node lies, relative to the node that holds the trait.
///
/// The offsets account for the parent's payload, the parent's own id, and all
/// traits laid out before this one. Id space and byte space may be laid out in
/// different orders, and either may have unused gaps.
pub struct OffsetSchema {
    pub id_offset: IdOffset,
    pub byte_offset: u32,
    pub schema: ChunkSchema,
}

impl View for ChunkSchema {
    type V = SchemaModel;

    open spec fn view(&self) -> SchemaModel
        decreases self,
    {
        SchemaModel {
            def: self.def,
            node_count: self.node_count,
            bytes_per_node: self.bytes_per_node,
            id_stride: self.id_stride,
            payload_size: self.payload_size,
            traits: Seq::new(
                self.traits@.len(),
                |i: int|
                    if 0 <= i < self.traits@.len() {
                        self.traits@[i].1.labelled(self.traits@[i].0)
                    } else {
                        arbitrary()
                    },
            ),
        }
    }
}

impl OffsetSchema {
    /// The value of this trait when it hangs under `label`.
    pub open spec fn labelled(&self, label: Label) -> TraitModel
        decreases self,
    {
        TraitModel {
            label,
            id_offset: self.id_offset.0,
            byte_offset: self.byte_offset,
            schema: self.schema@,
        }
    }
}

impl Clone for ChunkSchema {
    fn clone(&self) -> (r: Self)
        ensures
            r@ == self@,
        decreases self,
    {
        let mut traits: Vec<(Label, OffsetSchema)> = Vec::new();
        let mut i: usize = 0;
        while i < self.traits.len()
            invariant
                i <= self.traits.len(),
                traits@.len() == i,
                forall|j: int|
                    0 <= j < i ==> (#[trigger] traits@[j]).1.labelled(traits@[j].0)
                        == self.traits@[j].1.labelled(self.traits@[j].0),
            decreases self.traits.len() - i,
        {
            let label = self.traits[i].0;
            let sub = &self.traits[i].1;
            let copy = OffsetSchema {
                id_offset: sub.id_offset,
                byte_offset: sub.byte_offset,
                schema: sub.schema.clone(),
            };
            traits.push((label, copy));
            i += 1;
        }
        let r = ChunkSchema {
            def: self.def,
            node_count: self.node_count,
            bytes_per_node: self.bytes_per_node,
            id_stride: self.id_stride,
            payload_size: self.payload_size,
            traits,
        };
        assert(r@.traits =~= self@.traits);
        r
    }
}

impl ChunkSchema {
    /// Whether two schemas describe the same shape.
    pub fn same_shape(&self, other: &ChunkSchema) -> (r: bool)
        ensures
            r == (self@ == other@),
        decreases self,
    {
        if !(self.def == other.def && self.node_count == other.node_count && self.bytes_per_node
            == other.bytes_per_node && self.id_stride == other.id_stride && self.payload_size
            == other.payload_size && self.traits.len() == other.traits.len()) {
            assert(self@.traits.len() == self.traits@.len());
            assert(other@.traits.len() == other.traits@.len());
            return false;
        }
        let mut t: usize = 0;
        while t < self.traits.len()
            invariant
                t <= self.traits.len(),
                self.traits.len() == other.traits.len(),
                forall|j: int| 0 <= j < t ==> self@.traits[j] == other@.traits[j],
            decreases self.traits.len() - t,
        {
            let a = &self.traits[t];
            let b = &other.traits[t];
            let same = a.0 == b.0 && a.1.id_offset == b.1.id_offset && a.1.byte_offset
                == b.1.byte_offset && a.1.schema.same_shape(&b.1.schema);
            assert(self@.traits[t as int] == a.1.labelled(a.0));
            assert(other@.traits[t as int] == b.1.labelled(b.0));
            if !same {
                assert(self@.traits[t as int] != other@.traits[t as int]);
                return false;
            }
            t += 1;
        }
        assert(self@.traits =~= other@.traits);
        true
    }
}

/// The product of a stride and a count, which fits in 64 bits.
pub(crate) fn span_of(stride: u32, count: u32) -> (r: u64)
    ensures
        r == stride * count,
        r <= 0xffff_fffe_0000_0001,
{
    assert(stride * count <= 0xffff_ffff * 0xffff_ffff) by (nonlinear_arith)
        requires
            0 <= stride <= 0xffff_ffff,
            0 <= count <= 0xffff_ffff,
    ;
    stride as u64 * count as u64
}

impl OffsetSchema {
    /// Whether the trait, under `label`, fits into a node whose stride is
    /// `id_stride` ids and `bytes_per_node` bytes.
    fn fits_in(&self, label: Label, id_stride: u32, bytes_per_node: u32) -> (r: bool)
        ensures
            r == self.labelled(label).fits_in(id_stride, bytes_per_node),
        decreases self,
    {
        let id_span: u64 = span_of(self.schema.id_stride, self.schema.node_count);
        let byte_span: u64 = span_of(self.schema.bytes_per_node, self.schema.node_count);
        self.id_offset.0 >= 1 && self.id_offset.0 as u64 + id_span <= id_stride as u64
            && self.byte_offset as u64 + byte_span <= bytes_per_node as u64
            && self.schema.is_well_formed()
    }

    /// Whether two traits of one node differ in label and share no id.
    fn apart_from(&self, label: Label, other: &OffsetSchema, other_label: Label) -> (r: bool)
        ensures
            r == self.labelled(label).apart_from(other.labelled(other_label)),
    {
        let end: u64 = self.id_offset.0 as u64 + span_of(
            self.schema.id_stride,
            self.schema.node_count,
        );
        let other_end: u64 = other.id_offset.0 as u64 + span_of(
            other.schema.id_stride,
            other.schema.node_count,
        );
        !(label == other_label) && (end <= other.id_offset.0 as u64 || other_end
            <= self.id_offset.0 as u64)
    }
}

impl ChunkSchema {
    /// Whether the schema is well formed, so that a lookup table can be
    /// built for it.
    pub fn is_well_formed(&self) -> (r: bool)
        ensures
            r == self@.wf(),
        decreases self,
    {
        let payload_fits = match self.payload_size {
            Some(p) => 1 <= p && p as u32 <= self.bytes_per_node,
            None => true,
        };
        if !(self.id_stride >= 1 && self.bytes_per_node >= 1 && payload_fits) {
            return false;
        }
        let mut i: usize = 0;
        while i < self.traits.len()
            invariant
                i <= self.traits.len(),
                self.id_stride >= 1,
                self.bytes_per_node >= 1,
                self.payload_size matches Some(p) ==> 1 <= p <= self.bytes_per_node,
                forall|a: int|
                    0 <= a < i ==> (#[trigger] self@.traits[a]).fits_in(
                        self.id_stride,
                        self.bytes_per_node,
                    ),
                forall|a: int, b: int|
                    0 <= a < b < i ==> (#[trigger] self@.traits[a]).apart_from(
                        #[trigger] self@.traits[b],
                    ),
            decreases self.traits.len() - i,
        {
            let label = self.traits[i].0;
            let sub = &self.traits[i].1;
            assert(self@.traits[i as int] == sub.labelled(label));
            if !sub.fits_in(label, self.id_stride, self.bytes_per_node) {
                assert(!self@.traits[i as int].fits_in(self.id_stride, self.bytes_per_node));
                return false;
            }
            let mut j: usize = 0;
            while j < i
                invariant
                    j <= i < self.traits.len(),
                    label == self.traits@[i as int].0,
                    *sub == self.traits@[i as int].1,
                    self@.traits[i as int] == sub.labelled(label),
                    forall|a: int|
                        0 <= a < j ==> (#[trigger] self@.traits[a]).apart_from(
                            self@.traits[i as int],
                        ),
                decreases i - j,
            {
                let other_label = self.traits[j].0;
                let other = &self.traits[j].1;
                assert(self@.traits[j as int] == other.labelled(other_label));
                if !other.apart_from(other_label, sub, label) {
                    assert(!self@.traits[j as int].apart_from(self@.traits[i as int]));
                    return false;
                }
                j += 1;
            }
            i += 1;
        }
        true
    }
}

/// Parent of a node inside a uniform chunk.
#[derive(Clone, Copy)]
pub struct ParentInfo {
    /// Id offset of the parent and the label under which the node hangs;
    /// `None` for the top level nodes of a chunk.
    pub parent: Option<(IdOffset, Label)>,
    /// Position of the node among its siblings.
    pub index: usize,
}

impl ParentInfo {
    pub open spec fn parent_model(self) -> Option<(int, Label)> {
        match self.parent {
            Some((o, label)) => Some((o.0 as int, label)),
            None => None,
        }
    }
}

/// One entry of the lookup table of a `RootChunkSchema`.
pub struct OffsetInfo {
    byte_offset: u32,
    schema: ChunkSchema,
    parent: ParentInfo,
}

impl View for OffsetInfo {
    type V = Located;

    closed spec fn view(&self) -> Located {
        Located {
            byte_offset: self.byte_offset as int,
            schema: self.schema@,
            parent: self.parent.parent_model(),
            index: self.parent.index as int,
        }
    }
}

/// What a table slot says: nothing for an unused id, else where the node is.
pub open spec fn slot_model(slot: Option<OffsetInfo>) -> Option<Located> {
    match slot {
        Some(info) => Some(info@),
        None => None,
    }
}

/// What a table slot holds while the subtree of a node is being entered:
/// the node itself at offset 0, every descendant reached so far, and
/// elsewhere what the slot held before.
pub open spec fn slot_while_entering(
    s: SchemaModel,
    rel: int,
    root: Located,
    id_offset: int,
    byte_offset: int,
    prev: Option<Located>,
    t: int,
    i: int,
) -> Option<Located> {
    if rel == 0 {
        Some(root)
    } else if 0 < rel < s.id_stride && s.reached(rel, t, i) {
        match s.locate_below(rel, 0) {
            Some(l) => Some(l.shifted(id_offset, byte_offset)),
            None => prev,
        }
    } else {
        prev
    }
}

/// What a table slot holds once the subtree of a node has been entered.
pub open spec fn slot_entered(
    s: SchemaModel,
    rel: int,
    root: Located,
    id_offset: int,
    byte_offset: int,
    prev: Option<Located>,
) -> Option<Located> {
    if rel == 0 {
        Some(root)
    } else if 0 < rel < s.id_stride {
        match s.locate_below(rel, 0) {
            Some(l) => Some(l.shifted(id_offset, byte_offset)),
            None => prev,
        }
    } else {
        prev
    }
}

/// A well formed schema together with a table, derived from it, that leads
/// from an id offset within one stride to the node at that id.
pub struct RootChunkSchema {
    schema: ChunkSchema,
    /// One slot for each id offset within one top level stride.
    id_offset_to_byte_offset_and_schema: Vec<Option<OffsetInfo>>,
}

/// Enters the node at `id_offset` and everything below it into the table.
fn add_offsets(
    data: &mut Vec<Option<OffsetInfo>>,
    s: &ChunkSchema,
    byte_offset: u32,
    id_offset: usize,
    parent: ParentInfo,
)
    requires
        s@.wf(),
        id_offset + s.id_stride <= old(data).len() <= u32::MAX,
        byte_offset + s.bytes_per_node <= u32::MAX,
    ensures
        final(data).len() == old(data).len(),
        forall|k: int|
            0 <= k < old(data).len() ==> slot_model(#[trigger] final(data)@[k]) == slot_entered(
                s@,
                k - id_offset,
                Located {
                    byte_offset: byte_offset as int,
                    schema: s@,
                    parent: parent.parent_model(),
                    index: parent.index as int,
                },
                id_offset as int,
                byte_offset as int,
                slot_model(old(data)@[k]),
            ),
    decreases s,
{
    let ghost before = data@;
    let ghost root = Located {
        byte_offset: byte_offset as int,
        schema: s@,
        parent: parent.parent_model(),
        index: parent.index as int,
    };
    data.set(id_offset, Some(OffsetInfo { byte_offset, schema: s.clone(), parent }));
    let mut t: usize = 0;
    while t < s.traits.len()
        invariant
            t <= s.traits.len(),
            s@.wf(),
            data.len() == before.len(),
            id_offset + s.id_stride <= before.len() <= u32::MAX,
            byte_offset + s.bytes_per_node <= u32::MAX,
            forall|k: int|
                0 <= k < before.len() ==> slot_model(#[trigger] data@[k]) == slot_while_entering(
                    s@,
                    k - id_offset,
                    root,
                    id_offset as int,
                    byte_offset as int,
                    slot_model(before[k]),
                    t as int,
                    0,
                ),
        decreases s.traits.len() - t,
    {
        let label = s.traits[t].0;
        let sub = &s.traits[t].1;
        let ghost tr = s@.traits[t as int];
        assert(tr == sub.labelled(label));
        assert(tr.schema.wf());
        let mut i: u32 = 0;
        while i < sub.schema.node_count
            invariant
                t < s.traits.len(),
                i <= sub.schema.node_count,
                s@.wf(),
                tr == s@.traits[t as int],
                tr == sub.labelled(label),
                *sub == s.traits@[t as int].1,
                tr.schema.wf(),
                data.len() == before.len(),
                id_offset + s.id_stride <= before.len() <= u32::MAX,
                byte_offset + s.bytes_per_node <= u32::MAX,
                forall|k: int|
                    0 <= k < before.len() ==> slot_model(#[trigger] data@[k])
                        == slot_while_entering(
                        s@,
                        k - id_offset,
                        root,
                        id_offset as int,
                        byte_offset as int,
                        slot_model(before[k]),
                        t as int,
                        i as int,
                    ),
            decreases sub.schema.node_count - i,
        {
            let ghost mid = data@;
            let ghost stride = tr.schema.id_stride as int;
            let ghost width = tr.schema.bytes_per_node as int;
            proof {
                assert((i + 1) * stride <= tr.id_span()) by (nonlinear_arith)
                    requires
                        i + 1 <= tr.schema.node_count,
                        stride > 0,
                        tr.id_span() == stride * tr.schema.node_count,
                ;
                assert((i + 1) * width <= tr.byte_span()) by (nonlinear_arith)
                    requires
                        i + 1 <= tr.schema.node_count,
                        width > 0,
                        tr.byte_span() == width * tr.schema.node_count,
                ;
                assert((i + 1) * stride == i * stride + stride) by (nonlinear_arith);
                assert((i + 1) * width == i * width + width) by (nonlinear_arith);
                assert(0 <= i * stride && 0 <= i * width) by (nonlinear_arith)
                    requires
                        0 <= i,
                        stride > 0,
                        width > 0,
                ;
            }
            let sub_byte: u32 = byte_offset + sub.byte_offset + i * sub.schema.bytes_per_node;
            let sub_id: usize = id_offset + sub.id_offset.0 as usize + i as usize
                * sub.schema.id_stride as usize;
            let sub_parent = ParentInfo {
                parent: Some((IdOffset(id_offset as u32), label)),
                index: i as usize,
            };
            add_offsets(data, &sub.schema, sub_byte, sub_id, sub_parent);
            proof {
                assert forall|k: int| 0 <= k < before.len() implies slot_model(#[trigger] data@[k])
                    == slot_while_entering(
                    s@,
                    k - id_offset,
                    root,
                    id_offset as int,
                    byte_offset as int,
                    slot_model(before[k]),
                    t as int,
                    i + 1,
                ) by {
                    let rel = k - id_offset;
                    s@.lemma_reach_step(t as int, i as int, rel);
                    let lo = tr.id_offset + i * stride;
                    if lo <= rel < lo + stride {
                        let within = rel - lo;
                        assert(k - sub_id == within);
                        if within != 0 {
                            match tr.schema.locate_below(within, 0) {
                                Some(l) => {
                                    assert(l.shifted(lo, tr.byte_offset + i * width).shifted(
                                        id_offset as int,
                                        byte_offset as int,
                                    ) == l.shifted(sub_id as int, sub_byte as int));
                                },
                                None => {},
                            }
                        }
                    }
                }
            }
            i += 1;
        }
        proof {
            assert forall|k: int| 0 <= k < before.len() implies slot_model(#[trigger] data@[k])
                == slot_while_entering(
                s@,
                k - id_offset,
                root,
                id_offset as int,
                byte_offset as int,
                slot_model(before[k]),
                t + 1,
                0,
            ) by {
                s@.lemma_reach_next_trait(t as int, k - id_offset);
            }
        }
        t += 1;
    }
    proof {
        assert forall|k: int| 0 <= k < before.len() implies slot_model(#[trigger] data@[k])
            == slot_entered(
            s@,
            k - id_offset,
            root,
            id_offset as int,
            byte_offset as int,
            slot_model(before[k]),
        ) by {
            let rel = k - id_offset;
            if !s@.reached(rel, s@.traits.len() as int, 0) {
                s@.lemma_unreached_is_unused(rel);
            }
        }
    }
}

/// What a lookup in a `RootChunkSchema` found.
pub struct OffsetInfoRef<'a> {
    /// First byte of the node within the chunk's data.
    pub byte_offset: u32,
    pub schema: &'a ChunkSchema,
    pub parent: ParentInfo,
}

impl<'a> View for OffsetInfoRef<'a> {
    type V = Located;

    open spec fn view(&self) -> Located {
        Located {
            byte_offset: self.byte_offset as int,
            schema: self.schema@,
            parent: self.parent.parent_model(),
            index: self.parent.index as int,
        }
    }
}

/// What a lookup result says: nothing for an id not in use, else the node.
pub open spec fn found_model(found: Option<OffsetInfoRef<'_>>) -> Option<Located> {
    match found {
        Some(info) => Some(info@),
        None => None,
    }
}

impl View for RootChunkSchema {
    type V = SchemaModel;

    /// The value of the schema that the table was built for.
    closed spec fn view(&self) -> SchemaModel {
        self.schema@
    }
}

impl RootChunkSchema {
    /// The schema is well formed and the table agrees with it. This holds of
    /// every value that `new` has made.
    pub open spec fn wf(&self) -> bool {
        &&& self@.wf()
        &&& self.table_agrees()
    }

    #[verifier::type_invariant]
    spec fn always(&self) -> bool {
        self.wf()
    }

    /// The schema that the table was built for.
    pub fn schema(&self) -> (r: &ChunkSchema)
        ensures
            r@ == self@,
            self.wf(),
    {
        proof {
            use_type_invariant(self);
        }
        &self.schema
    }

    /// Slot `o` of the table holds what `locate` finds at id offset `o`.
    pub closed spec fn table_agrees(&self) -> bool {
        &&& self.id_offset_to_byte_offset_and_schema@.len() == self.schema.id_stride
        &&& forall|o: int|
            0 <= o < self.schema.id_stride ==> slot_model(
                #[trigger] self.id_offset_to_byte_offset_and_schema@[o],
            ) == self.schema@.locate(o)
    }

    /// Whether the ids and the bytes of a whole chunk can be counted in 32
    /// bits, as offsets are.
    pub open spec fn spans_fit(&self) -> bool {
        &&& self@.id_span() <= u32::MAX
        &&& self@.byte_span() <= u32::MAX
    }

    /// Builds the lookup table for a well formed schema.
    pub fn new(schema: ChunkSchema) -> (r: Self)
        requires
            schema@.wf(),
        ensures
            r.wf(),
            r@ == schema@,
    {
        let mut data_outer: Vec<Option<OffsetInfo>> = Vec::new();
        let mut n: u32 = 0;
        while n < schema.id_stride
            invariant
                n <= schema.id_stride,
                data_outer@.len() == n,
                forall|k: int| 0 <= k < n ==> (#[trigger] data_outer@[k]) is None,
            decreases schema.id_stride - n,
        {
            data_outer.push(None);
            n += 1;
        }
        add_offsets(&mut data_outer, &schema, 0, 0, ParentInfo { parent: None, index: 0 });
        proof {
            assert forall|o: int| 0 <= o < schema.id_stride implies slot_model(
                #[trigger] data_outer@[o],
            ) == schema@.locate(o) by {
                if o != 0 {
                    match schema@.locate_below(o, 0) {
                        Some(l) => {
                            schema@.lemma_located_inside(o, 0);
                            assert(l.shifted(0, 0) == l);
                        },
                        None => {},
                    }
                }
            }
        }
        RootChunkSchema { schema, id_offset_to_byte_offset_and_schema: data_outer }
    }

    /// Finds the node with id `id` in a chunk of this shape whose first id is
    /// `first_id`. Returns `None` if the chunk does not use that id.
    pub fn lookup_schema(&self, first_id: NodeId, id: NodeId) -> (r: Option<OffsetInfoRef<'_>>)
        requires
            self.spans_fit(),
            first_id.0 + self@.id_span() <= u128::MAX,
        ensures
            found_model(r) == if first_id.0 <= id.0 {
                self@.node_at(id.0 - first_id.0)
            } else {
                None
            },
    {
        proof {
            use_type_invariant(self);
        }
        if id.0 < first_id.0 {
            None
        } else if id.0 < (first_id + IdOffset(self.schema.id_stride * self.schema.node_count)).0 {
            let id_offset = (id - first_id).0;
            let (div, rem) = div_rem(id_offset, self.schema.id_stride);
            proof {
                lemma_stride_position(
                    id_offset as int,
                    self.schema.id_stride as int,
                    self.schema.node_count as int,
                );
                let stride = self.schema.id_stride as int;
                let width = self.schema.bytes_per_node as int;
                let count = self.schema.node_count as int;
                assert((div + 1) * stride <= stride * count && (div + 1) * width <= width * count
                    && 0 <= div * stride && 0 <= div * width && (div + 1) * stride == div * stride
                    + stride && (div + 1) * width == div * width + width) by (nonlinear_arith)
                    requires
                        0 <= div < count,
                        stride > 0,
                        width > 0,
                ;
                if rem != 0 && self.schema@.locate_below(rem as int, 0) is Some {
                    self.schema@.lemma_located_inside(rem as int, 0);
                }
            }
            match &self.id_offset_to_byte_offset_and_schema[rem as usize] {
                None => None,
                Some(info) => {
                    let byte_offset = info.byte_offset + div * self.schema.bytes_per_node;
                    let parent = match info.parent.parent {
                        Some((within_stride, label)) => ParentInfo {
                            parent: Some(
                                (IdOffset(within_stride.0 + div * self.schema.id_stride), label),
                            ),
                            index: info.parent.index,
                        },
                        None => ParentInfo {
                            parent: None,
                            // Position among the top level nodes of the chunk.
                            index: div as usize,
                        },
                    };
                    Some(OffsetInfoRef { byte_offset, schema: &info.schema, parent })
                },
            }
        } else {
            None
        }
    }
}

/// `num_integer::div_rem` on 32-bit unsigned numbers: the quotient and the
/// remainder of the truncated division. The divisor must not be zero.
#[verifier::external_body]
fn div_rem(x: u32, y: u32) -> (r: (u32, u32))
    requires
        y != 0,
    ensures
        r.0 == x / y,
        r.1 == x % y,
{
    num_integer::div_rem(x, y)
}

} // verus!
