//! How the nodes of a uniform chunk hang together: every child that a node
//! shows under a trait is the node which the chunk has at the child's id, and
//! the parent that the lookup table names for a node has that node as a child.

use vstd::prelude::*;
use crate::node_id::NodeId;
use crate::tree::Label;
use crate::schema_model::{
    lemma_stride_index, lemma_stride_position, Located, SchemaModel, TraitModel,
};
use crate::uniform_chunk::UniformChunk;

verus! {

impl TraitModel {
    /// The node found for child number `i` of this trait, seen from a parent
    /// that lies `id_base` ids and `byte_base` bytes into its repetition.
    pub open spec fn child_located(self, i: int, id_base: int, byte_base: int) -> Located {
        Located {
            byte_offset: byte_base + self.byte_offset + i * self.schema.bytes_per_node,
            schema: self.schema,
            parent: Some((id_base, self.label)),
            index: i,
        }
    }

    /// Id offset of child number `i` of this trait from its parent.
    pub open spec fn child_offset(self, i: int) -> int {
        self.id_offset + i * self.schema.id_stride
    }
}

/// Facts of arithmetic about node `i` of `count` nodes laid out `stride` ids
/// and `width` bytes apart.
proof fn lemma_node_in_run(i: int, count: int, stride: int, width: int)
    requires
        0 <= i < count,
        0 < stride,
        0 < width,
    ensures
        (i + 1) * stride <= stride * count,
        (i + 1) * width <= width * count,
        0 <= i * stride,
        0 <= i * width,
        (i + 1) * stride == i * stride + stride,
        (i + 1) * width == i * width + width,
        stride * i == i * stride,
        width * i == i * width,
{
    assert((i + 1) * stride <= stride * count && (i + 1) * width <= width * count && 0 <= i
        * stride && 0 <= i * width && (i + 1) * stride == i * stride + stride && (i + 1) * width
        == i * width + width && stride * i == i * stride && width * i == i * width)
        by (nonlinear_arith)
        requires
            0 <= i < count,
            0 < stride,
            0 < width,
    ;
}

impl SchemaModel {
    /// Child number `i` under trait `t` of the node at offset `o` is the node
    /// that `locate` finds at the child's offset.
    pub proof fn lemma_child_located(self, o: int, t: int, i: int)
        requires
            self.wf(),
            self.locate(o) is Some,
            0 <= t < self.locate(o)->0.schema.traits.len(),
            0 <= i < self.locate(o)->0.schema.traits[t].schema.node_count,
        ensures
            ({
                let l = self.locate(o)->0;
                let tr = l.schema.traits[t];
                self.locate(o + tr.child_offset(i)) == Some(tr.child_located(i, o, l.byte_offset))
            }),
        decreases self,
    {
        let l = self.locate(o)->0;
        let tr = l.schema.traits[t];
        if o == 0 {
            assert(tr.schema.wf());
            lemma_node_in_run(
                i,
                tr.schema.node_count as int,
                tr.schema.id_stride as int,
                tr.schema.bytes_per_node as int,
            );
            let d = tr.child_offset(i);
            lemma_stride_index(d - tr.id_offset, tr.schema.id_stride as int, i);
            assert(tr.covers(d));
            self.lemma_locate_in_trait(d, t, 0);
        } else {
            self.lemma_located_inside(o, 0);
            assert(l.schema.wf());
            assert(tr.schema.wf());
            lemma_node_in_run(
                i,
                tr.schema.node_count as int,
                tr.schema.id_stride as int,
                tr.schema.bytes_per_node as int,
            );
            let d = tr.child_offset(i);
            let at = self.covering(o, 0);
            self.lemma_covering(o, 0);
            let outer = self.traits[at];
            assert(outer.schema.wf());
            let outer_stride = outer.schema.id_stride as int;
            let rel = o - outer.id_offset;
            lemma_stride_position(rel, outer_stride, outer.schema.node_count as int);
            let rep = rel / outer_stride;
            let inside = rel % outer_stride;
            lemma_node_in_run(
                rep,
                outer.schema.node_count as int,
                outer_stride,
                outer.schema.bytes_per_node as int,
            );
            let id_base = outer.id_offset + rep * outer_stride;
            let byte_base = outer.byte_offset + rep * outer.schema.bytes_per_node;
            assert(self.locate_below(o, 0) == outer.locate_within(rel));
            if inside != 0 {
                assert(outer.schema.locate_below(inside, 0) is Some);
                outer.schema.lemma_located_inside(inside, 0);
            }
            let l_inner = outer.schema.locate(inside)->0;
            assert(l_inner.schema == l.schema);
            assert(l.byte_offset == l_inner.byte_offset + byte_base);
            outer.schema.lemma_child_located(inside, t, i);
            assert(inside + d < outer_stride);
            lemma_stride_index(rel + d, outer_stride, rep);
            assert(outer.covers(o + d));
            self.lemma_locate_in_trait(o + d, at, 0);
            assert(self.locate_below(o + d, 0) == outer.locate_within(rel + d));
            assert(outer.schema.locate_below(inside + d, 0) == Some(
                tr.child_located(i, inside, l_inner.byte_offset),
            ));
            assert(tr.child_located(i, inside, l_inner.byte_offset).shifted(id_base, byte_base)
                == tr.child_located(i, o, l.byte_offset));
        }
    }

    /// Index of the first trait from position `from` on that covers offset `o`.
    pub open spec fn covering(self, o: int, from: int) -> int
        decreases self.traits.len() - from,
    {
        if from < 0 || from >= self.traits.len() {
            self.traits.len() as int
        } else if self.traits[from].covers(o) && self.traits[from].schema.id_stride > 0 {
            from
        } else {
            self.covering(o, from + 1)
        }
    }

    /// Where an offset holds a descendant, a trait covers it, and the
    /// descendant is found in that trait.
    pub proof fn lemma_covering(self, o: int, from: int)
        requires
            0 <= from,
            self.locate_below(o, from) is Some,
        ensures
            from <= self.covering(o, from) < self.traits.len(),
            self.traits[self.covering(o, from)].covers(o),
            self.traits[self.covering(o, from)].schema.id_stride > 0,
            self.locate_below(o, from) == self.traits[self.covering(o, from)].locate_within(
                o - self.traits[self.covering(o, from)].id_offset,
            ),
        decreases self.traits.len() - from,
    {
        if from < self.traits.len() {
            if self.traits[from].covers(o) && self.traits[from].schema.id_stride > 0 {
            } else {
                self.lemma_covering(o, from + 1);
            }
        }
    }
}


impl SchemaModel {
    /// Whether the node `l`, found at offset `o`, is child number `l.index`
    /// under trait `t` of the node `lp`, found at offset `p`.
    pub open spec fn hangs_under(self, o: int, l: Located, p: int, lp: Located, t: int) -> bool {
        &&& 0 <= t < lp.schema.traits.len()
        &&& 0 <= l.index < lp.schema.traits[t].schema.node_count
        &&& o == p + lp.schema.traits[t].child_offset(l.index)
        &&& l == lp.schema.traits[t].child_located(l.index, p, lp.byte_offset)
    }

    /// The parent named for a descendant is found at the named offset, and
    /// has the descendant as a child under the named label.
    pub proof fn lemma_parent_located(self, o: int)
        requires
            self.wf(),
            self.locate_below(o, 0) is Some,
        ensures
            ({
                let l = self.locate_below(o, 0)->0;
                &&& l.parent matches Some((p, label))
                &&& self.locate(p) matches Some(lp)
                &&& exists|t: int| #[trigger] self.hangs_under(o, l, p, lp, t)
            }),
        decreases self,
    {
        let l = self.locate_below(o, 0)->0;
        self.lemma_located_inside(o, 0);
        let at = self.covering(o, 0);
        self.lemma_covering(o, 0);
        let outer = self.traits[at];
        assert(outer.schema.wf());
        let outer_stride = outer.schema.id_stride as int;
        let rel = o - outer.id_offset;
        lemma_stride_position(rel, outer_stride, outer.schema.node_count as int);
        let rep = rel / outer_stride;
        let inside = rel % outer_stride;
        lemma_node_in_run(
            rep,
            outer.schema.node_count as int,
            outer_stride,
            outer.schema.bytes_per_node as int,
        );
        let id_base = outer.id_offset + rep * outer_stride;
        let byte_base = outer.byte_offset + rep * outer.schema.bytes_per_node;
        if inside == 0 {
            let lp = self.locate(0)->0;
            assert(self.hangs_under(o, l, 0, lp, at));
        } else {
            assert(outer.schema.locate_below(inside, 0) is Some);
            let l_inner = outer.schema.locate_below(inside, 0)->0;
            outer.schema.lemma_located_inside(inside, 0);
            outer.schema.lemma_parent_located(inside);
            let (p_inner, label) = l_inner.parent->0;
            let lp_inner = outer.schema.locate(p_inner)->0;
            let t = choose|t: int|
                #[trigger] outer.schema.hangs_under(inside, l_inner, p_inner, lp_inner, t);
            let p = p_inner + id_base;
            assert(l == l_inner.shifted(id_base, byte_base));
            lemma_stride_index(p - outer.id_offset, outer_stride, rep);
            assert(outer.covers(p));
            self.lemma_locate_in_trait(p, at, 0);
            let lp = self.locate(p)->0;
            assert(lp.schema == lp_inner.schema);
            assert(lp.byte_offset == lp_inner.byte_offset + byte_base);
            assert(self.hangs_under(o, l, p, lp, t));
        }
    }

    /// Child number `i` under trait `t` of a node of a chunk is the node
    /// that the chunk has at the child's id.
    pub proof fn lemma_node_child(self, delta: int, t: int, i: int)
        requires
            self.wf(),
            self.node_at(delta) is Some,
            0 <= t < self.node_at(delta)->0.schema.traits.len(),
            0 <= i < self.node_at(delta)->0.schema.traits[t].schema.node_count,
        ensures
            ({
                let l = self.node_at(delta)->0;
                let tr = l.schema.traits[t];
                self.node_at(delta + tr.child_offset(i)) == Some(
                    tr.child_located(i, delta, l.byte_offset),
                )
            }),
    {
        let l = self.node_at(delta)->0;
        let tr = l.schema.traits[t];
        let stride = self.id_stride as int;
        let count = self.node_count as int;
        self.lemma_node_at_inside(delta);
        lemma_stride_position(delta, stride, count);
        let rep = delta / stride;
        let within = delta % stride;
        lemma_node_in_run(rep, count, stride, self.bytes_per_node as int);
        assert(tr.schema.wf());
        lemma_node_in_run(
            i,
            tr.schema.node_count as int,
            tr.schema.id_stride as int,
            tr.schema.bytes_per_node as int,
        );
        let d = tr.child_offset(i);
        if within != 0 {
            self.lemma_located_inside(within, 0);
        }
        let lw = self.locate(within)->0;
        assert(lw.schema == l.schema);
        self.lemma_child_located(within, t, i);
        assert(within + d < stride);
        lemma_stride_index(delta + d, stride, rep);
        assert(self.locate_below(within + d, 0) == Some(tr.child_located(i, within, lw.byte_offset)));
        assert(tr.child_located(i, within, lw.byte_offset).shifted(
            rep * stride,
            rep * self.bytes_per_node,
        ) == tr.child_located(i, delta, l.byte_offset));
    }

    /// The parent named for a node of a chunk is the node that the chunk has
    /// at the named offset, and has the node as a child under the named label.
    pub proof fn lemma_node_parent(self, delta: int)
        requires
            self.wf(),
            self.node_at(delta) is Some,
            self.node_at(delta)->0.parent is Some,
        ensures
            ({
                let l = self.node_at(delta)->0;
                let (p, label) = l.parent->0;
                &&& self.node_at(p) matches Some(lp)
                &&& exists|t: int| #[trigger] self.hangs_under(delta, l, p, lp, t)
            }),
    {
        let l = self.node_at(delta)->0;
        let (p, label) = l.parent->0;
        let stride = self.id_stride as int;
        let count = self.node_count as int;
        self.lemma_node_at_inside(delta);
        lemma_stride_position(delta, stride, count);
        let rep = delta / stride;
        let within = delta % stride;
        lemma_node_in_run(rep, count, stride, self.bytes_per_node as int);
        let lw = self.locate_below(within, 0)->0;
        self.lemma_located_inside(within, 0);
        self.lemma_parent_located(within);
        let (pw, _) = lw.parent->0;
        let lpw = self.locate(pw)->0;
        let t = choose|t: int| #[trigger] self.hangs_under(within, lw, pw, lpw, t);
        assert(p == pw + rep * stride);
        lemma_stride_index(p, stride, rep);
        let lp = self.node_at(p)->0;
        if pw != 0 {
            self.lemma_located_inside(pw, 0);
        }
        assert(lp.schema == lpw.schema);
        assert(lp.byte_offset == lpw.byte_offset + rep * self.bytes_per_node);
        assert(self.hangs_under(delta, l, p, lp, t));
    }
}


impl UniformChunk {
    /// Every child that a node of the chunk shows under a label is the node
    /// that the chunk has at the child's id.
    pub proof fn lemma_child_is_node(&self, first_id: NodeId, id: NodeId, label: Label, i: int)
        requires
            self.wf(),
            self.fits_at(first_id),
            self.node_at(first_id, id) is Some,
            0 <= i < self.node_at(first_id, id)->0.children(label).len(),
        ensures
            ({
                let child = self.node_at(first_id, id)->0.children(label)[i];
                self.node_at(first_id, child.id) == Some(child)
            }),
    {
        let s = self.schema@;
        let delta = id.0 - first_id.0;
        let n = self.node_at(first_id, id)->0;
        let l = s.node_at(delta)->0;
        let t = n.schema.trait_index(label)->0;
        let tr = n.schema.traits[t];
        let child = n.children(label)[i];
        s.lemma_node_at_inside(delta);
        assert(tr.schema.wf());
        lemma_node_in_run(
            i,
            tr.schema.node_count as int,
            tr.schema.id_stride as int,
            tr.schema.bytes_per_node as int,
        );
        s.lemma_node_child(delta, t, i);
        assert(child.id.0 - first_id.0 == delta + tr.child_offset(i));
        assert(self.node_at(first_id, child.id)->0.bytes =~= child.bytes);
    }

    /// The id of a child of a node of the chunk lies as far after the id of
    /// the node as its trait and its number in the trait say.
    pub proof fn lemma_child_id(&self, first_id: NodeId, id: NodeId, label: Label, i: int)
        requires
            self.wf(),
            self.fits_at(first_id),
            self.node_at(first_id, id) is Some,
            0 <= i < self.node_at(first_id, id)->0.children(label).len(),
        ensures
            ({
                let n = self.node_at(first_id, id)->0;
                let t = n.schema.trait_index(label)->0;
                &&& n.schema.trait_index(label) is Some
                &&& n.schema.traits[t].schema.id_stride >= 1
                &&& n.children(label)[i].id.0 == id.0 + n.schema.traits[t].child_offset(i)
            }),
    {
        let s = self.schema@;
        let delta = id.0 - first_id.0;
        let n = self.node_at(first_id, id)->0;
        let t = n.schema.trait_index(label)->0;
        let tr = n.schema.traits[t];
        s.lemma_node_at_inside(delta);
        assert(tr.schema.wf());
        lemma_node_in_run(
            i,
            tr.schema.node_count as int,
            tr.schema.id_stride as int,
            tr.schema.bytes_per_node as int,
        );
        s.lemma_node_child(delta, t, i);
        s.lemma_node_at_inside(delta + tr.child_offset(i));
    }

    /// The parent that the schema names for a node of the chunk is a node of
    /// the chunk, and shows that node as a child under the named label.
    pub proof fn lemma_parent_has_child(&self, first_id: NodeId, id: NodeId)
        requires
            self.wf(),
            self.fits_at(first_id),
            first_id.0 <= id.0,
            self.schema@.node_at(id.0 - first_id.0) is Some,
            self.schema@.node_at(id.0 - first_id.0)->0.parent is Some,
        ensures
            ({
                let l = self.schema@.node_at(id.0 - first_id.0)->0;
                let (p, label) = l.parent->0;
                let parent_id = NodeId((first_id.0 + p) as u128);
                &&& 0 <= p < id.0 - first_id.0
                &&& self.node_at(first_id, parent_id) matches Some(parent)
                &&& 0 <= l.index < parent.children(label).len()
                &&& parent.children(label)[l.index] == self.node_at(first_id, id)->0
            }),
    {
        let s = self.schema@;
        let delta = id.0 - first_id.0;
        let l = s.node_at(delta)->0;
        let (p, label) = l.parent->0;
        s.lemma_node_at_inside(delta);
        s.lemma_node_parent(delta);
        let lp = s.node_at(p)->0;
        let t = choose|t: int| #[trigger] s.hangs_under(delta, l, p, lp, t);
        s.lemma_node_at_inside(p);
        let tr = lp.schema.traits[t];
        assert(tr.schema.wf());
        lp.schema.lemma_trait_index(label, t);
        lemma_node_in_run(
            l.index,
            tr.schema.node_count as int,
            tr.schema.id_stride as int,
            tr.schema.bytes_per_node as int,
        );
        let parent_id = NodeId((first_id.0 + p) as u128);
        let parent = self.node_at(first_id, parent_id)->0;
        assert(parent.children(label)[l.index].bytes =~= self.node_at(first_id, id)->0.bytes);
    }

    /// Every top level node is the node that the chunk has at its id.
    pub proof fn lemma_top_level_is_node(&self, first_id: NodeId, i: int)
        requires
            self.wf(),
            self.fits_at(first_id),
            0 <= i < self.top_level(first_id).len(),
        ensures
            self.node_at(first_id, self.top_level(first_id)[i].id) == Some(
                self.top_level(first_id)[i],
            ),
    {
        let s = self.schema@;
        lemma_node_in_run(i, s.node_count as int, s.id_stride as int, s.bytes_per_node as int);
        lemma_stride_index(i * s.id_stride, s.id_stride as int, i);
        let n = self.top_level(first_id)[i];
        assert(self.node_at(first_id, n.id)->0.bytes =~= n.bytes);
    }
}


impl SchemaModel {
    /// Number of nodes in one subtree of this shape: the node itself and,
    /// for each trait, as many subtrees as the trait has nodes. Gaps in the
    /// id space do not count.
    pub open spec fn subtree_size(self) -> nat
        decreases self, self.traits.len() + 1,
    {
        1 + self.traits_size(0)
    }

    /// Number of nodes below a node of this shape in the traits from
    /// position `from` on.
    pub open spec fn traits_size(self, from: int) -> nat
        decreases self, self.traits.len() - from,
    {
        if from < 0 || from >= self.traits.len() {
            0
        } else {
            (self.traits[from].schema.node_count as nat)
                * self.traits[from].schema.subtree_size() + self.traits_size(from + 1)
        }
    }

    /// Number of nodes in a chunk of this shape: `node_count` subtrees.
    pub open spec fn chunk_size(self) -> nat {
        (self.node_count as nat) * self.subtree_size()
    }

    /// Number of levels below a node of this shape: none without traits,
    /// else one more than below the nodes of the deepest trait.
    pub open spec fn levels(self) -> nat
        decreases self, self.traits.len() + 1,
    {
        self.levels_from(0)
    }

    /// Number of levels below a node of this shape in the traits from
    /// position `from` on.
    pub open spec fn levels_from(self, from: int) -> nat
        decreases self, self.traits.len() - from,
    {
        if from < 0 || from >= self.traits.len() {
            0
        } else {
            let here = 1 + self.traits[from].schema.levels();
            let rest = self.levels_from(from + 1);
            if here > rest {
                here
            } else {
                rest
            }
        }
    }

    /// The nodes of each trait lie at least one level higher than the
    /// deepest node below their parent.
    pub proof fn lemma_levels(self, from: int, t: int)
        requires
            0 <= from <= t < self.traits.len(),
        ensures
            self.levels_from(from) >= 1 + self.traits[t].schema.levels(),
        decreases t - from,
    {
        if from < t {
            self.lemma_levels(from + 1, t);
        }
    }
}

} // verus!
