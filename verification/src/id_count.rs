//! How many of the ids that a uniform chunk owns are in use: as many as the
//! chunk has nodes.

use vstd::prelude::*;
use crate::node_id::NodeId;
use crate::schema_model::{lemma_stride_index, SchemaModel};
use crate::uniform_chunk::UniformChunk;

verus! {

/// Number of offsets from `from` up to, but not including, `to` that `used`
/// holds of.
pub open spec fn count_used(used: spec_fn(int) -> bool, from: int, to: int) -> nat
    decreases to - from,
{
    if to <= from {
        0
    } else {
        count_used(used, from, to - 1) + if used(to - 1) {
            1nat
        } else {
            0nat
        }
    }
}

/// A count over a range is the sum of the counts over its two parts.
pub proof fn lemma_count_split(used: spec_fn(int) -> bool, a: int, b: int, c: int)
    requires
        a <= b <= c,
    ensures
        count_used(used, a, c) == count_used(used, a, b) + count_used(used, b, c),
    decreases c - b,
{
    if b < c {
        lemma_count_split(used, a, b, c - 1);
    }
}

/// Where nothing is in use, the count is zero.
pub proof fn lemma_count_none(used: spec_fn(int) -> bool, a: int, b: int)
    requires
        forall|o: int| a <= o < b ==> !#[trigger] used(o),
    ensures
        count_used(used, a, b) == 0,
    decreases b - a,
{
    if a < b {
        lemma_count_none(used, a, b - 1);
        assert(!used(b - 1));
    }
}

/// Two ranges of one length, of which the second has in use what the first
/// has, `d` further on, count the same.
pub proof fn lemma_count_shift(
    p: spec_fn(int) -> bool,
    q: spec_fn(int) -> bool,
    a: int,
    b: int,
    d: int,
)
    requires
        forall|o: int| a <= o < b ==> #[trigger] p(o) == q(o + d),
    ensures
        count_used(p, a, b) == count_used(q, a + d, b + d),
    decreases b - a,
{
    if a < b {
        lemma_count_shift(p, q, a, b - 1, d);
        assert(p(b - 1) == q(b - 1 + d));
    }
}

/// Where each offset is in use in one of two ways at most, the count is the
/// sum of the counts of the two.
pub proof fn lemma_count_either(
    p: spec_fn(int) -> bool,
    q: spec_fn(int) -> bool,
    r: spec_fn(int) -> bool,
    a: int,
    b: int,
)
    requires
        forall|o: int| a <= o < b ==> #[trigger] r(o) == (p(o) || q(o)),
        forall|o: int| a <= o < b ==> !(#[trigger] p(o) && q(o)),
    ensures
        count_used(r, a, b) == count_used(p, a, b) + count_used(q, a, b),
    decreases b - a,
{
    if a < b {
        lemma_count_either(p, q, r, a, b - 1);
        assert(r(b - 1) == (p(b - 1) || q(b - 1)));
        assert(!(p(b - 1) && q(b - 1)));
    }
}

/// Where one offset of a range is in use, the count is one.
pub proof fn lemma_count_one(used: spec_fn(int) -> bool, a: int, b: int, t: int)
    requires
        a <= t < b,
        forall|o: int| a <= o < b ==> #[trigger] used(o) == (o == t),
    ensures
        count_used(used, a, b) == 1,
{
    lemma_count_split(used, a, t, b);
    lemma_count_split(used, t, t + 1, b);
    lemma_count_none(used, a, t);
    lemma_count_none(used, t + 1, b);
    assert(used(t));
    assert(count_used(used, t, t) == 0);
}

/// Whether an offset is among the first `n` of `ids`.
pub open spec fn among(ids: Seq<int>, n: int) -> spec_fn(int) -> bool {
    |t: int| exists|j: int| 0 <= j < n && j < ids.len() && #[trigger] ids[j] == t
}

/// Offsets that all differ count each for one.
pub proof fn lemma_count_among(ids: Seq<int>, n: int, upto: int)
    requires
        ids.no_duplicates(),
        0 <= n <= ids.len(),
        forall|j: int| 0 <= j < ids.len() ==> 0 <= #[trigger] ids[j] < upto,
    ensures
        count_used(among(ids, n), 0, upto) == n,
    decreases n,
{
    let r = among(ids, n);
    if n == 0 {
        assert forall|t: int| 0 <= t < upto implies !#[trigger] r(t) by {}
        lemma_count_none(r, 0, upto);
    } else {
        let last = ids[n - 1];
        let p = among(ids, n - 1);
        let q = |t: int| t == last;
        lemma_count_among(ids, n - 1, upto);
        assert forall|t: int| 0 <= t < upto implies #[trigger] r(t) == (p(t) || q(t)) by {
            if r(t) {
                let j = choose|j: int| 0 <= j < n && j < ids.len() && #[trigger] ids[j] == t;
                if j < n - 1 {
                    assert(p(t));
                }
            }
            if p(t) {
                let j = choose|j: int| 0 <= j < n - 1 && j < ids.len() && #[trigger] ids[j] == t;
                assert(r(t));
            }
            if q(t) {
                assert(ids[n - 1] == t);
                assert(r(t));
            }
        }
        assert forall|t: int| 0 <= t < upto implies !(#[trigger] p(t) && q(t)) by {
            if p(t) && q(t) {
                let j = choose|j: int| 0 <= j < n - 1 && j < ids.len() && #[trigger] ids[j] == t;
                assert(ids[j] == ids[n - 1]);
            }
        }
        lemma_count_either(p, q, r, 0, upto);
        assert forall|t: int| 0 <= t < upto implies #[trigger] q(t) == (t == last) by {}
        lemma_count_one(q, 0, upto, last);
    }
}

impl SchemaModel {
    /// Whether the id offset from a node of this shape holds a descendant
    /// that lies in the traits from position `t` on.
    pub open spec fn used_below(self, t: int) -> spec_fn(int) -> bool {
        |o: int| self.locate_below(o, t) is Some
    }

    /// Whether the id offset from a node of this shape holds the node or a
    /// descendant of it.
    pub open spec fn used_in_one(self) -> spec_fn(int) -> bool {
        |o: int| self.locate(o) is Some
    }

    /// Whether the id offset from the start of a run of nodes of this shape
    /// holds a node, however long the run.
    pub open spec fn used_in_run(self) -> spec_fn(int) -> bool {
        |rel: int| self.locate(rel % (self.id_stride as int)) is Some
    }

    /// Whether a chunk of this shape has a node at the id offset.
    pub open spec fn used(self) -> spec_fn(int) -> bool {
        |o: int| self.node_at(o) is Some
    }

    /// Number of ids of a chunk of this shape that have a node.
    pub open spec fn ids_used(self) -> nat {
        count_used(self.used(), 0, self.id_span())
    }

    /// The ids in use below a node, in the traits from position `t` on, are
    /// as many as the shape has nodes there.
    proof fn lemma_used_below(self, t: int)
        requires
            self.wf(),
            0 <= t <= self.traits.len(),
        ensures
            count_used(self.used_below(t), 1, self.id_stride as int) == self.traits_size(t),
        decreases self, self.traits.len() - t, 0nat,
    {
        let stride = self.id_stride as int;
        if t == self.traits.len() {
            assert forall|o: int| 1 <= o < stride implies !#[trigger] self.used_below(t)(o) by {}
            lemma_count_none(self.used_below(t), 1, stride);
        } else {
            let tr = self.traits[t];
            let a = tr.id_offset as int;
            let b = a + tr.id_span();
            let inner = tr.schema;
            let here = self.used_below(t);
            let later = self.used_below(t + 1);
            assert(inner.wf());
            assert(0 <= tr.id_span()) by (nonlinear_arith)
                requires
                    tr.id_span() == inner.id_stride * inner.node_count,
            ;
            assert(1 <= a <= b <= stride);
            self.lemma_used_below(t + 1);
            // Outside the trait, the search goes on with the next trait.
            assert forall|o: int| 1 <= o < a implies #[trigger] here(o) == later(o + 0) by {
                assert(!tr.covers(o));
            }
            lemma_count_shift(here, later, 1, a, 0);
            assert forall|o: int| b <= o < stride implies #[trigger] here(o) == later(o + 0) by {
                assert(!tr.covers(o));
            }
            lemma_count_shift(here, later, b, stride, 0);
            // No later trait reaches into this one.
            assert forall|o: int| a <= o < b implies !#[trigger] later(o) by {
                assert forall|u: int| t + 1 <= u < self.traits.len() implies !(
                #[trigger] self.traits[u]).covers(o) by {
                    let x = self.traits[t];
                    let y = self.traits[u];
                    assert(x.id_offset + x.id_span() <= y.id_offset || y.id_offset + y.id_span()
                        <= x.id_offset);
                }
                self.lemma_locate_uncovered(o, t + 1);
            }
            lemma_count_none(later, a, b);
            // Inside the trait lies a run of nodes of its shape.
            assert forall|o: int| a <= o < b implies #[trigger] here(o) == inner.used_in_run()(
                o + (-a),
            ) by {
                assert(tr.covers(o));
                assert(here(o) == (tr.locate_within(o - a) is Some));
            }
            lemma_count_shift(here, inner.used_in_run(), a, b, -a);
            inner.lemma_used_in_run(inner.node_count as nat);
            assert(tr.id_span() == inner.node_count * inner.id_stride) by (nonlinear_arith)
                requires
                    tr.id_span() == inner.id_stride * inner.node_count,
            ;
            lemma_count_split(here, 1, a, stride);
            lemma_count_split(here, a, b, stride);
            lemma_count_split(later, 1, a, stride);
            lemma_count_split(later, a, b, stride);
        }
    }

    /// The ids in use in a run of `count` nodes of this shape are as many
    /// as `count` subtrees have nodes.
    proof fn lemma_used_in_run(self, count: nat)
        requires
            self.wf(),
        ensures
            count_used(self.used_in_run(), 0, count * self.id_stride) == count
                * self.subtree_size(),
        decreases self, self.traits.len() + 1, count,
    {
        let stride = self.id_stride as int;
        let run = self.used_in_run();
        let one = self.used_in_one();
        if count == 0 {
            assert(0 * self.id_stride == 0 && 0 * self.subtree_size() == 0) by (nonlinear_arith);
        } else {
            let i = (count - 1) as nat;
            self.lemma_used_in_run(i);
            let from = i * stride;
            let to = count * stride;
            assert(to == from + stride && 0 <= from) by (nonlinear_arith)
                requires
                    from == i * stride,
                    to == count * stride,
                    count == i + 1,
                    stride >= 1,
            ;
            assert forall|o: int| from <= o < to implies #[trigger] run(o) == one(o + (-from)) by {
                lemma_stride_index(o, stride, i as int);
            }
            lemma_count_shift(run, one, from, to, -from);
            // One stride: the node itself and what lies below it.
            self.lemma_used_below(0);
            let below = self.used_below(0);
            assert forall|o: int| 1 <= o < stride implies #[trigger] one(o) == below(o + 0) by {}
            lemma_count_shift(one, below, 1, stride, 0);
            lemma_count_split(one, 0, 1, stride);
            assert(one(0));
            assert(count_used(one, 0, 0) == 0);
            assert(count_used(one, 0, 1) == 1);
            lemma_count_split(run, 0, from, to);
            assert(count * self.subtree_size() == i * self.subtree_size() + self.subtree_size())
                by (nonlinear_arith)
                requires
                    count == i + 1,
            ;
        }
    }

    /// As many ids of a chunk have a node as a walk of the chunk counts
    /// nodes: gaps do not count, and no node has two ids.
    pub proof fn lemma_ids_used(self)
        requires
            self.wf(),
        ensures
            self.ids_used() == self.chunk_size(),
    {
        let span = self.id_span();
        assert(span == self.node_count * self.id_stride) by (nonlinear_arith)
            requires
                span == self.id_stride * self.node_count,
        ;
        assert forall|o: int| 0 <= o < span implies #[trigger] self.used()(o)
            == self.used_in_run()(o + 0) by {}
        lemma_count_shift(self.used(), self.used_in_run(), 0, span, 0);
        self.lemma_used_in_run(self.node_count as nat);
    }
}

impl UniformChunk {
    /// Whether the chunk, stored under `first_id`, has a node at the id that
    /// lies `o` after `first_id`.
    pub open spec fn found_at(&self, first_id: NodeId) -> spec_fn(int) -> bool {
        |o: int| self.node_at(first_id, NodeId((first_id.0 + o) as u128)) is Some
    }

    /// Number of ids that the chunk, stored under `first_id`, has a node at.
    pub open spec fn ids_found(&self, first_id: NodeId) -> nat {
        count_used(self.found_at(first_id), 0, self.schema@.id_span())
    }

    /// A chunk has a node at as many of its ids as its shape has nodes: the
    /// number that a walk of the chunk counts.
    pub proof fn lemma_ids_found(&self, first_id: NodeId)
        requires
            self.wf(),
            self.fits_at(first_id),
        ensures
            self.ids_found(first_id) == self.schema@.chunk_size(),
    {
        let s = self.schema@;
        assert forall|o: int| 0 <= o < s.id_span() implies #[trigger] self.found_at(first_id)(o)
            == s.used()(o + 0) by {
            let id = NodeId((first_id.0 + o) as u128);
            assert(id.0 - first_id.0 == o);
        }
        lemma_count_shift(self.found_at(first_id), s.used(), 0, s.id_span(), 0);
        s.lemma_ids_used();
    }
}

} // verus!
