//! The mathematical value of a schema: which node lies at which id offset
//! and at which byte, and what makes a schema well formed.

use vstd::prelude::*;
use crate::tree::{Def, Label};

verus! {

/// Mathematical value of a `ChunkSchema`.
pub struct SchemaModel {
    pub def: Def,
    pub node_count: u32,
    pub bytes_per_node: u32,
    pub id_stride: u32,
    pub payload_size: Option<u16>,
    pub traits: Seq<TraitModel>,
}

/// Mathematical value of one labelled `OffsetSchema`.
pub struct TraitModel {
    pub label: Label,
    pub id_offset: u32,
    pub byte_offset: u32,
    pub schema: SchemaModel,
}

impl TraitModel {
    /// Number of ids the trait's nodes span, gaps included.
    pub open spec fn id_span(self) -> int {
        self.schema.id_stride * self.schema.node_count
    }

    /// Number of bytes the trait's nodes span.
    pub open spec fn byte_span(self) -> int {
        self.schema.bytes_per_node * self.schema.node_count
    }

    /// Whether id offset `o`, relative to the holding node, falls on this trait.
    pub open spec fn covers(self, o: int) -> bool {
        self.id_offset <= o < self.id_offset + self.id_span()
    }
}

/// A node found inside one repetition of a schema.
pub struct Located {
    /// First byte of the node, counted from the first byte of the repetition.
    pub byte_offset: int,
    /// Shape of the node and of what hangs below it.
    pub schema: SchemaModel,
    /// Id offset of the node's parent and the label it hangs under; `None`
    /// for the node the repetition starts with.
    pub parent: Option<(int, Label)>,
    /// Position of the node among the nodes of its trait.
    pub index: int,
}

impl Located {
    /// The same node seen from an enclosing repetition that starts
    /// `id_base` ids and `byte_base` bytes earlier.
    pub open spec fn shifted(self, id_base: int, byte_base: int) -> Located {
        Located {
            byte_offset: self.byte_offset + byte_base,
            schema: self.schema,
            parent: match self.parent {
                Some((p, label)) => Some((p + id_base, label)),
                None => None,
            },
            index: self.index,
        }
    }
}

impl SchemaModel {
    /// A schema is well formed when every trait lies inside its parent's
    /// stride, in ids and in bytes, when no two traits of a node share a label
    /// or an id, and when every node has at least one byte and one id.
    pub open spec fn wf(self) -> bool
        decreases self,
    {
        &&& self.id_stride >= 1
        &&& self.bytes_per_node >= 1
        &&& (self.payload_size matches Some(p) ==> 1 <= p <= self.bytes_per_node)
        &&& forall|i: int|
            0 <= i < self.traits.len() ==> {
                let t = #[trigger] self.traits[i];
                &&& t.id_offset >= 1
                &&& t.id_offset + t.id_span() <= self.id_stride
                &&& t.byte_offset + t.byte_span() <= self.bytes_per_node
                &&& t.schema.wf()
            }
        &&& forall|i: int, j: int|
            0 <= i < j < self.traits.len() ==> {
                let a = #[trigger] self.traits[i];
                let b = #[trigger] self.traits[j];
                &&& a.label != b.label
                &&& (a.id_offset + a.id_span() <= b.id_offset || b.id_offset + b.id_span()
                    <= a.id_offset)
            }
    }

    /// The node at id offset `o` from the start of one repetition, if that id
    /// is in use.
    pub open spec fn locate(self, o: int) -> Option<Located> {
        if o == 0 {
            Some(Located { byte_offset: 0, schema: self, parent: None, index: 0 })
        } else {
            self.locate_below(o, 0)
        }
    }

    /// The descendant at id offset `o`, looked for in the traits from
    /// position `t` on.
    pub open spec fn locate_below(self, o: int, t: int) -> Option<Located>
        decreases self, self.traits.len() - t,
    {
        if t < 0 || t >= self.traits.len() {
            None
        } else {
            let tr = self.traits[t];
            if tr.covers(o) && tr.schema.id_stride > 0 {
                tr.locate_within(o - tr.id_offset)
            } else {
                self.locate_below(o, t + 1)
            }
        }
    }

    /// Index of the trait with the given label, if there is one.
    pub open spec fn trait_index(self, label: Label) -> Option<int> {
        if exists|i: int| 0 <= i < self.traits.len() && self.traits[i].label == label {
            Some(choose|i: int| 0 <= i < self.traits.len() && self.traits[i].label == label)
        } else {
            None
        }
    }

    /// The labels of the traits, in the order of the schema.
    pub open spec fn labels(self) -> Seq<Label> {
        Seq::new(self.traits.len(), |i: int| self.traits[i].label)
    }
}

impl TraitModel {
    /// The node `rel` ids after the first node of this trait.
    pub open spec fn locate_within(self, rel: int) -> Option<Located>
        decreases self.schema, self.schema.traits.len() + 1,
    {
        let i = rel / (self.schema.id_stride as int);
        let within = rel % (self.schema.id_stride as int);
        let id_base = self.id_offset + i * self.schema.id_stride;
        let byte_base = self.byte_offset + i * self.schema.bytes_per_node;
        if within == 0 {
            Some(
                Located {
                    byte_offset: byte_base,
                    schema: self.schema,
                    parent: Some((0int, self.label)),
                    index: i,
                },
            )
        } else {
            match self.schema.locate_below(within, 0) {
                Some(l) => Some(l.shifted(id_base, byte_base)),
                None => None,
            }
        }
    }
}

/// Position of `rel` in a run of `count` strides: which stride it falls in,
/// and how far into it.
pub proof fn lemma_stride_position(rel: int, stride: int, count: int)
    requires
        stride > 0,
        0 <= rel,
        0 <= count,
    ensures
        (rel / stride < count) <==> (rel < stride * count),
        rel == stride * (rel / stride) + rel % stride,
        0 <= rel % stride < stride,
        0 <= rel / stride,
{
    vstd::arithmetic::div_mod::lemma_fundamental_div_mod(rel, stride);
    vstd::arithmetic::div_mod::lemma_mod_bound(rel, stride);
    let q = rel / stride;
    assert(0 <= q) by (nonlinear_arith)
        requires
            rel == stride * q + rel % stride,
            0 <= rel % stride < stride,
            0 <= rel,
            stride > 0,
    ;
    assert((q < count) <==> (rel < stride * count)) by (nonlinear_arith)
        requires
            rel == stride * q + rel % stride,
            0 <= rel % stride < stride,
            stride > 0,
    ;
}

/// An offset inside stride number `i` has quotient `i`.
pub proof fn lemma_stride_index(rel: int, stride: int, i: int)
    requires
        stride > 0,
        0 <= i,
        i * stride <= rel < (i + 1) * stride,
    ensures
        rel / stride == i,
        rel % stride == rel - i * stride,
{
    assert((i + 1) * stride == i * stride + stride) by (nonlinear_arith);
    vstd::arithmetic::div_mod::lemma_fundamental_div_mod_converse(rel, stride, i, rel - i * stride);
}

impl SchemaModel {
    /// In a well formed schema the trait that covers an offset is the one
    /// that `locate_below` goes into.
    pub proof fn lemma_locate_in_trait(self, o: int, t: int, from: int)
        requires
            self.wf(),
            0 <= from <= t < self.traits.len(),
            self.traits[t].covers(o),
        ensures
            self.locate_below(o, from) == self.traits[t].locate_within(o - self.traits[t].id_offset),
        decreases t - from,
    {
        if from < t {
            let a = self.traits[from];
            let b = self.traits[t];
            assert(!a.covers(o));
            self.lemma_locate_in_trait(o, t, from + 1);
        } else {
            assert(self.traits[t].schema.wf());
        }
    }

    /// An offset that no trait covers holds no descendant.
    pub proof fn lemma_locate_uncovered(self, o: int, from: int)
        requires
            0 <= from,
            forall|u: int| from <= u < self.traits.len() ==> !(#[trigger] self.traits[u]).covers(o),
        ensures
            self.locate_below(o, from) is None,
        decreases self.traits.len() - from,
    {
        if from < self.traits.len() {
            assert(!self.traits[from].covers(o));
            self.lemma_locate_uncovered(o, from + 1);
        }
    }

    /// Whether the descendant at offset `rel` lies in a trait before `t`, or
    /// in trait `t` before its node number `i`.
    pub open spec fn reached(self, rel: int, t: int, i: int) -> bool {
        ||| exists|u: int|
            0 <= u < t && u < self.traits.len() && (#[trigger] self.traits[u]).covers(rel)
        ||| (0 <= t < self.traits.len() && self.traits[t].covers(rel) && rel
            < self.traits[t].id_offset + i * self.traits[t].schema.id_stride)
    }
}

impl SchemaModel {
    /// Entering node `i` of trait `t` reaches exactly the offsets of that
    /// node's stride, none of which was reached before.
    pub proof fn lemma_reach_step(self, t: int, i: int, rel: int)
        requires
            self.wf(),
            0 <= t < self.traits.len(),
            0 <= i < self.traits[t].schema.node_count,
        ensures
            ({
                let tr = self.traits[t];
                let stride = tr.schema.id_stride as int;
                let lo = tr.id_offset + i * stride;
                if lo <= rel < lo + stride {
                    &&& !self.reached(rel, t, i)
                    &&& self.reached(rel, t, i + 1)
                    &&& 0 < rel < self.id_stride
                    &&& self.locate_below(rel, 0) == tr.locate_within(rel - tr.id_offset)
                    &&& (rel - tr.id_offset) / stride == i
                    &&& (rel - tr.id_offset) % stride == rel - lo
                } else {
                    self.reached(rel, t, i + 1) == self.reached(rel, t, i)
                }
            }),
    {
        let tr = self.traits[t];
        let stride = tr.schema.id_stride as int;
        let count = tr.schema.node_count as int;
        let lo = tr.id_offset + i * stride;
        assert(tr.schema.wf());
        assert((i + 1) * stride == i * stride + stride) by (nonlinear_arith);
        assert((i + 1) * stride <= stride * count) by (nonlinear_arith)
            requires
                i + 1 <= count,
                stride > 0,
        ;
        assert(0 <= i * stride) by (nonlinear_arith)
            requires
                0 <= i,
                stride > 0,
        ;
        if lo <= rel < lo + stride {
            lemma_stride_index(rel - tr.id_offset, stride, i);
            assert(tr.covers(rel));
            self.lemma_locate_in_trait(rel, t, 0);
            assert forall|u: int| 0 <= u < t implies !(#[trigger] self.traits[u]).covers(rel) by {
                let a = self.traits[u];
                let b = self.traits[t];
            }
        }
    }

    /// Once every node of trait `t` was entered, the whole trait is reached.
    pub proof fn lemma_reach_next_trait(self, t: int, rel: int)
        requires
            self.wf(),
            0 <= t < self.traits.len(),
        ensures
            self.reached(rel, t, self.traits[t].schema.node_count as int) == self.reached(
                rel,
                t + 1,
                0,
            ),
    {
        let tr = self.traits[t];
        assert(tr.id_span() == tr.schema.node_count * tr.schema.id_stride) by (nonlinear_arith)
            requires
                tr.id_span() == tr.schema.id_stride * tr.schema.node_count,
        ;
        if self.reached(rel, t + 1, 0) {
            let u = choose|u: int|
                0 <= u < t + 1 && u < self.traits.len() && (#[trigger] self.traits[u]).covers(rel);
            if u < t {
                assert(self.reached(rel, t, tr.schema.node_count as int));
            }
        }
        if self.reached(rel, t, tr.schema.node_count as int) {
            if tr.covers(rel) {
                assert(self.traits[t].covers(rel));
            } else {
                let u = choose|u: int|
                    0 <= u < t && u < self.traits.len() && (#[trigger] self.traits[u]).covers(rel);
                assert(self.traits[u].covers(rel));
            }
        }
    }

    /// An offset not reached after all traits holds no descendant.
    pub proof fn lemma_unreached_is_unused(self, rel: int)
        requires
            !self.reached(rel, self.traits.len() as int, 0),
        ensures
            self.locate_below(rel, 0) is None,
    {
        assert forall|u: int| 0 <= u < self.traits.len() implies !(#[trigger] self.traits[u]).covers(
            rel,
        ) by {
            if self.traits[u].covers(rel) {
                assert(self.reached(rel, self.traits.len() as int, 0));
            }
        }
        self.lemma_locate_uncovered(rel, 0);
    }
}

impl SchemaModel {
    /// Number of ids that a chunk of this shape owns, gaps included.
    pub open spec fn id_span(self) -> int {
        self.id_stride * self.node_count
    }

    /// Number of bytes that a chunk of this shape holds.
    pub open spec fn byte_span(self) -> int {
        self.bytes_per_node * self.node_count
    }

    /// The node `delta` ids after the first id of a chunk of this shape:
    /// repetition `delta / id_stride`, and within it the node that `locate`
    /// finds at `delta % id_stride`. A top level node has no parent and its
    /// index is the number of its repetition; any other node keeps its index
    /// and has its parent in the same repetition.
    pub open spec fn node_at(self, delta: int) -> Option<Located> {
        if 0 <= delta < self.id_span() && self.id_stride > 0 {
            let rep = delta / (self.id_stride as int);
            let within = delta % (self.id_stride as int);
            if within == 0 {
                Some(
                    Located {
                        byte_offset: rep * self.bytes_per_node,
                        schema: self,
                        parent: None,
                        index: rep,
                    },
                )
            } else {
                match self.locate_below(within, 0) {
                    Some(l) => Some(l.shifted(rep * self.id_stride, rep * self.bytes_per_node)),
                    None => None,
                }
            }
        } else {
            None
        }
    }

    /// A descendant lies inside the stride and the bytes of the node it was
    /// located from, after its parent, and is well formed itself.
    pub proof fn lemma_located_inside(self, o: int, from: int)
        requires
            self.wf(),
            0 <= from,
            self.locate_below(o, from) is Some,
        ensures
            ({
                let l = self.locate_below(o, from)->0;
                &&& l.schema.wf()
                &&& 0 < o
                &&& o + l.schema.id_stride <= self.id_stride
                &&& 0 <= l.byte_offset
                &&& l.byte_offset + l.schema.bytes_per_node <= self.bytes_per_node
                &&& 0 <= l.index
                &&& l.parent matches Some((p, _)) && 0 <= p < o
            }),
        decreases self, self.traits.len() - from,
    {
        if from < self.traits.len() {
            let tr = self.traits[from];
            assert(tr.schema.wf());
            if tr.covers(o) && tr.schema.id_stride > 0 {
                let rel = o - tr.id_offset;
                let stride = tr.schema.id_stride as int;
                let width = tr.schema.bytes_per_node as int;
                let count = tr.schema.node_count as int;
                lemma_stride_position(rel, stride, count);
                let i = rel / stride;
                let within = rel % stride;
                assert((i + 1) * stride <= stride * count && (i + 1) * width <= width * count
                    && 0 <= i * stride && 0 <= i * width && (i + 1) * stride == i * stride
                    + stride && (i + 1) * width == i * width + width && stride * i == i * stride)
                    by (nonlinear_arith)
                    requires
                        0 <= i < count,
                        stride > 0,
                        width > 0,
                ;
                assert(self.locate_below(o, from) == tr.locate_within(rel));
                if within != 0 {
                    assert(tr.locate_within(rel) is Some);
                    assert(tr.schema.locate_below(within, 0) is Some);
                    tr.schema.lemma_located_inside(within, 0);
                    let inner = tr.schema.locate_below(within, 0)->0;
                    assert(tr.locate_within(rel) == Some(
                        inner.shifted(
                            tr.id_offset + i * tr.schema.id_stride,
                            tr.byte_offset + i * tr.schema.bytes_per_node,
                        ),
                    ));
                }
            } else {
                self.lemma_located_inside(o, from + 1);
            }
        }
    }
}

impl SchemaModel {
    /// In a well formed schema a label names at most one trait.
    pub proof fn lemma_trait_index(self, label: Label, t: int)
        requires
            self.wf(),
            0 <= t < self.traits.len(),
            self.traits[t].label == label,
        ensures
            self.trait_index(label) == Some(t),
    {
        let u = choose|i: int| 0 <= i < self.traits.len() && self.traits[i].label == label;
        if u < t {
            let a = self.traits[u];
            let b = self.traits[t];
            assert(a.label != b.label);
        } else if t < u {
            let a = self.traits[t];
            let b = self.traits[u];
            assert(a.label != b.label);
        }
    }
}

impl SchemaModel {
    /// A node of a chunk lies inside the chunk, in ids and in bytes, and a
    /// parent comes before its descendants.
    pub proof fn lemma_node_at_inside(self, delta: int)
        requires
            self.wf(),
            self.node_at(delta) is Some,
        ensures
            ({
                let l = self.node_at(delta)->0;
                &&& l.schema.wf()
                &&& 0 <= delta
                &&& delta + l.schema.id_stride <= self.id_span()
                &&& 0 <= l.byte_offset
                &&& l.byte_offset + l.schema.bytes_per_node <= self.byte_span()
                &&& 0 <= l.index
                &&& l.parent matches Some((p, _)) ==> 0 <= p < delta
            }),
    {
        let stride = self.id_stride as int;
        let width = self.bytes_per_node as int;
        let count = self.node_count as int;
        lemma_stride_position(delta, stride, count);
        let rep = delta / stride;
        let within = delta % stride;
        assert((rep + 1) * stride <= stride * count && (rep + 1) * width <= width * count && 0
            <= rep * stride && 0 <= rep * width && (rep + 1) * stride == rep * stride + stride
            && (rep + 1) * width == rep * width + width && stride * rep == rep * stride)
            by (nonlinear_arith)
            requires
                0 <= rep < count,
                stride > 0,
                width > 0,
        ;
        if within != 0 {
            self.lemma_located_inside(within, 0);
        }
    }
}

impl TraitModel {
    /// What `SchemaModel::wf` asks of a single trait of a node whose stride
    /// is `id_stride` ids and `bytes_per_node` bytes.
    pub open spec fn fits_in(self, id_stride: u32, bytes_per_node: u32) -> bool {
        &&& self.id_offset >= 1
        &&& self.id_offset + self.id_span() <= id_stride
        &&& self.byte_offset + self.byte_span() <= bytes_per_node
        &&& self.schema.wf()
    }

    /// What `SchemaModel::wf` asks of two traits of one node.
    pub open spec fn apart_from(self, other: TraitModel) -> bool {
        &&& self.label != other.label
        &&& (self.id_offset + self.id_span() <= other.id_offset || other.id_offset
            + other.id_span() <= self.id_offset)
    }
}

} // verus!
