//! A walk of a tree in which every node has one parent comes to each node
//! once: it counts as many nodes as there are ids below the node it starts
//! from.

use vstd::prelude::*;
use crate::counting::{
    all_within, label_count, nodes_below, nodes_in, nodes_in_all, nodes_under, nth_label,
    within_depth,
};
use crate::id_count::{count_used, lemma_count_either, lemma_count_none, lemma_count_one};
use crate::tree::Label;

verus! {

/// What tells the nodes of a tree apart and leads from each to its parent:
/// the id of a node, whether it is a node of the tree at all, and the id of
/// its parent with the label under which the parent has it.
#[verifier::reject_recursive_types(T)]
pub struct Family<T> {
    pub kids: spec_fn(T, Label) -> Seq<T>,
    pub id: spec_fn(T) -> int,
    pub ok: spec_fn(T) -> bool,
    pub up: spec_fn(T) -> Option<(int, Label)>,
}

impl<T> Family<T> {
    /// Whether every node has one id and one place: the children of a node
    /// are nodes that name it as their parent, no two nodes share an id, and
    /// no node is twice among the children under one label.
    pub open spec fn tree_like(self) -> bool {
        &&& forall|x: T, l: Label, i: int|
            #![trigger (self.kids)(x, l)[i]]
            (self.ok)(x) && 0 <= i < (self.kids)(x, l).len() ==> (self.ok)((self.kids)(x, l)[i]) && (
            self.up)((self.kids)(x, l)[i]) == Some(((self.id)(x), l))
        &&& forall|a: T, b: T|
            #![trigger (self.ok)(a), (self.ok)(b)]
            (self.ok)(a) && (self.ok)(b) && (self.id)(a) == (self.id)(b) ==> a == b
        &&& forall|x: T, l: Label, i: int, j: int|
            #![trigger (self.kids)(x, l)[i], (self.kids)(x, l)[j]]
            (self.ok)(x) && 0 <= i < j < (self.kids)(x, l).len() ==> (self.id)((self.kids)(x, l)[i])
                != (self.id)((self.kids)(x, l)[j])
        &&& forall|x: T| #[trigger] (self.ok)(x) ==> 0 <= (self.id)(x) < label_count()
    }

    /// Whether the node with id `t` lies in the tree below `x`, at most `d`
    /// levels down; `x` itself lies there.
    pub open spec fn reaches(self, x: T, d: nat, t: int) -> bool
        decreases d,
    {
        (self.id)(x) == t || (d > 0 && exists|l: Label, i: int|
            #![trigger (self.kids)(x, l)[i]]
            0 <= i < (self.kids)(x, l).len() && self.reaches(
                (self.kids)(x, l)[i],
                (d - 1) as nat,
                t,
            ))
    }

    /// Whether `x` has a child from which the tree leads back to `x`.
    pub open spec fn on_cycle(self, x: T) -> bool {
        exists|l: Label, i: int, e: nat|
            #![trigger self.reaches((self.kids)(x, l)[i], e, (self.id)(x))]
            0 <= i < (self.kids)(x, l).len() && self.reaches((self.kids)(x, l)[i], e, (self.id)(x))
    }

    /// What lies below a child lies below its parent.
    pub proof fn lemma_reaches_through(self, x: T, l: Label, i: int, d: nat, t: int)
        requires
            0 <= i < (self.kids)(x, l).len(),
            self.reaches((self.kids)(x, l)[i], d, t),
        ensures
            self.reaches(x, d + 1, t),
    {
        let c = (self.kids)(x, l)[i];
        assert(self.reaches(c, ((d + 1) - 1) as nat, t));
    }

    /// What lies below a node within some levels lies below it within more.
    pub proof fn lemma_reaches_deeper(self, x: T, d: nat, e: nat, t: int)
        requires
            self.reaches(x, d, t),
            d <= e,
        ensures
            self.reaches(x, e, t),
        decreases d,
    {
        if (self.id)(x) != t {
            let (l, i) = choose|l: Label, i: int|
                #![trigger (self.kids)(x, l)[i]]
                0 <= i < (self.kids)(x, l).len() && self.reaches(
                    (self.kids)(x, l)[i],
                    (d - 1) as nat,
                    t,
                );
            self.lemma_reaches_deeper((self.kids)(x, l)[i], (d - 1) as nat, (e - 1) as nat, t);
        }
    }

    /// What lies below a node at all lies no deeper below it than the tree
    /// is deep.
    pub proof fn lemma_reaches_within(self, okay: spec_fn(T) -> bool, x: T, d: nat, e: nat, t: int)
        requires
            within_depth(self.kids, okay, x, d),
            self.reaches(x, e, t),
        ensures
            self.reaches(x, d, t),
        decreases e,
    {
        if (self.id)(x) != t {
            let (l, i) = choose|l: Label, i: int|
                #![trigger (self.kids)(x, l)[i]]
                0 <= i < (self.kids)(x, l).len() && self.reaches(
                    (self.kids)(x, l)[i],
                    (e - 1) as nat,
                    t,
                );
            assert(all_within(self.kids, okay, (self.kids)(x, l), d));
            assert(within_depth(self.kids, okay, (self.kids)(x, l)[i], (d - 1) as nat));
            assert(d > 0);
            self.lemma_reaches_within(okay, (self.kids)(x, l)[i], (d - 1) as nat, (e - 1) as nat, t);
        }
    }

    /// A child of a node that lies below a node lies below it too, one
    /// level further down.
    pub proof fn lemma_reaches_child(self, x: T, d: nat, p: T, l: Label, i: int)
        requires
            self.tree_like(),
            (self.ok)(x),
            (self.ok)(p),
            self.reaches(x, d, (self.id)(p)),
            0 <= i < (self.kids)(p, l).len(),
        ensures
            self.reaches(x, d + 1, (self.id)((self.kids)(p, l)[i])),
        decreases d,
    {
        let c = (self.kids)(p, l)[i];
        let t = (self.id)(c);
        if (self.id)(x) == (self.id)(p) {
            assert(x == p);
            assert(self.reaches(c, 0, t));
            self.lemma_reaches_through(x, l, i, 0, t);
            self.lemma_reaches_deeper(x, 1, d + 1, t);
        } else {
            let (m, j) = choose|m: Label, j: int|
                #![trigger (self.kids)(x, m)[j]]
                0 <= j < (self.kids)(x, m).len() && self.reaches(
                    (self.kids)(x, m)[j],
                    (d - 1) as nat,
                    (self.id)(p),
                );
            let y = (self.kids)(x, m)[j];
            assert((self.ok)(y));
            self.lemma_reaches_child(y, (d - 1) as nat, p, l, i);
            self.lemma_reaches_through(x, m, j, d, t);
        }
    }

    /// Whatever lies below a node of the family is the id of a node of the
    /// family.
    pub proof fn lemma_reached_is_node(self, x: T, d: nat, t: int) -> (y: T)
        requires
            self.tree_like(),
            (self.ok)(x),
            self.reaches(x, d, t),
        ensures
            (self.ok)(y),
            (self.id)(y) == t,
        decreases d,
    {
        if (self.id)(x) == t {
            x
        } else {
            let (l, i) = choose|l: Label, i: int|
                #![trigger (self.kids)(x, l)[i]]
                0 <= i < (self.kids)(x, l).len() && self.reaches(
                    (self.kids)(x, l)[i],
                    (d - 1) as nat,
                    t,
                );
            assert((self.ok)((self.kids)(x, l)[i]));
            self.lemma_reached_is_node((self.kids)(x, l)[i], (d - 1) as nat, t)
        }
    }

    /// Whatever lies below a node, other than the node, has its parent
    /// below the node too.
    pub proof fn lemma_parent_reached(self, b: T, d: nat, a: T, pa: int, la: Label)
        requires
            self.tree_like(),
            (self.ok)(b),
            (self.ok)(a),
            self.reaches(b, d, (self.id)(a)),
            (self.id)(b) != (self.id)(a),
            (self.up)(a) == Some((pa, la)),
        ensures
            self.reaches(b, d, pa),
        decreases d,
    {
        let (l, i) = choose|l: Label, i: int|
            #![trigger (self.kids)(b, l)[i]]
            0 <= i < (self.kids)(b, l).len() && self.reaches(
                (self.kids)(b, l)[i],
                (d - 1) as nat,
                (self.id)(a),
            );
        let c = (self.kids)(b, l)[i];
        assert((self.ok)(c) && (self.up)(c) == Some(((self.id)(b), l)));
        if (self.id)(c) == (self.id)(a) {
            assert(c == a);
        } else {
            self.lemma_parent_reached(c, (d - 1) as nat, a, pa, la);
            self.lemma_reaches_through(b, l, i, (d - 1) as nat, pa);
        }
    }

    /// A node below a node of a tree of bounded depth heads a tree of
    /// bounded depth, and of less depth unless it is that node.
    pub proof fn lemma_depth_below(self, okay: spec_fn(T) -> bool, a: T, d: nat, e: nat, y: T) -> (m:
        nat)
        requires
            self.tree_like(),
            (self.ok)(a),
            (self.ok)(y),
            within_depth(self.kids, okay, a, d),
            self.reaches(a, e, (self.id)(y)),
        ensures
            m <= d,
            (self.id)(a) != (self.id)(y) ==> m < d,
            within_depth(self.kids, okay, y, m),
        decreases e,
    {
        if (self.id)(a) == (self.id)(y) {
            assert(a == y);
            d
        } else {
            let (l, i) = choose|l: Label, i: int|
                #![trigger (self.kids)(a, l)[i]]
                0 <= i < (self.kids)(a, l).len() && self.reaches(
                    (self.kids)(a, l)[i],
                    (e - 1) as nat,
                    (self.id)(y),
                );
            let c = (self.kids)(a, l)[i];
            assert((self.ok)(c));
            assert(all_within(self.kids, okay, (self.kids)(a, l), d));
            assert(within_depth(self.kids, okay, (self.kids)(a, l)[i], (d - 1) as nat));
            assert(d > 0);
            self.lemma_depth_below(okay, c, (d - 1) as nat, (e - 1) as nat, y)
        }
    }

    /// A tree of bounded depth leads from no node back to it.
    pub proof fn lemma_no_cycle(self, okay: spec_fn(T) -> bool, x: T, d: nat)
        requires
            self.tree_like(),
            (self.ok)(x),
            within_depth(self.kids, okay, x, d),
        ensures
            !self.on_cycle(x),
        decreases d,
    {
        if self.on_cycle(x) {
            let (l, i, e) = choose|l: Label, i: int, e: nat|
                #![trigger self.reaches((self.kids)(x, l)[i], e, (self.id)(x))]
                0 <= i < (self.kids)(x, l).len() && self.reaches(
                    (self.kids)(x, l)[i],
                    e,
                    (self.id)(x),
                );
            let c = (self.kids)(x, l)[i];
            assert((self.ok)(c));
            assert(all_within(self.kids, okay, (self.kids)(x, l), d));
            assert(within_depth(self.kids, okay, (self.kids)(x, l)[i], (d - 1) as nat));
            assert(d > 0);
            let m = self.lemma_depth_below(okay, c, (d - 1) as nat, e, x);
            self.lemma_no_cycle(okay, x, m);
        }
    }

    /// Of two nodes that have a node below them, one lies below the other.
    pub proof fn lemma_comparable(self, a: T, da: nat, b: T, db: nat, t: int)
        requires
            self.tree_like(),
            (self.ok)(a),
            (self.ok)(b),
            self.reaches(a, da, t),
            self.reaches(b, db, t),
        ensures
            self.reaches(a, da, (self.id)(b)) || self.reaches(b, db, (self.id)(a)),
        decreases da,
    {
        if (self.id)(a) != t {
            let (l, i) = choose|l: Label, i: int|
                #![trigger (self.kids)(a, l)[i]]
                0 <= i < (self.kids)(a, l).len() && self.reaches(
                    (self.kids)(a, l)[i],
                    (da - 1) as nat,
                    t,
                );
            let c = (self.kids)(a, l)[i];
            assert((self.ok)(c) && (self.up)(c) == Some(((self.id)(a), l)));
            self.lemma_comparable(c, (da - 1) as nat, b, db, t);
            if self.reaches(c, (da - 1) as nat, (self.id)(b)) {
                self.lemma_reaches_through(a, l, i, (da - 1) as nat, (self.id)(b));
            } else if (self.id)(b) == (self.id)(c) {
                assert(self.reaches(c, (da - 1) as nat, (self.id)(b)));
            } else {
                self.lemma_parent_reached(b, db, c, (self.id)(a), l);
            }
        }
    }

    /// In a tree of bounded depth no node lies below two children of a
    /// node, and the node lies below none of them.
    pub proof fn lemma_apart(
        self,
        okay: spec_fn(T) -> bool,
        x: T,
        d: nat,
        l: Label,
        i: int,
        e: nat,
        m: Label,
        j: int,
        f: nat,
        t: int,
    )
        requires
            self.tree_like(),
            (self.ok)(x),
            within_depth(self.kids, okay, x, d),
            0 <= i < (self.kids)(x, l).len(),
            0 <= j < (self.kids)(x, m).len(),
            self.reaches((self.kids)(x, l)[i], e, t),
        ensures
            t != (self.id)(x),
            self.reaches((self.kids)(x, m)[j], f, t) ==> l == m && i == j,
    {
        let c = (self.kids)(x, l)[i];
        let b = (self.kids)(x, m)[j];
        self.lemma_no_cycle(okay, x, d);
        if t == (self.id)(x) {
            assert(self.reaches((self.kids)(x, l)[i], e, (self.id)(x)));
            assert(false);
        }
        if self.reaches(b, f, t) && !(l == m && i == j) {
            assert((self.ok)(c) && (self.up)(c) == Some(((self.id)(x), l)));
            assert((self.ok)(b) && (self.up)(b) == Some(((self.id)(x), m)));
            if (self.id)(c) == (self.id)(b) {
                assert(c == b);
                assert(l == m);
                if i < j {
                    assert((self.id)((self.kids)(x, l)[i]) != (self.id)((self.kids)(x, l)[j]));
                } else {
                    assert((self.id)((self.kids)(x, l)[j]) != (self.id)((self.kids)(x, l)[i]));
                }
            } else {
                self.lemma_comparable(c, e, b, f, t);
                if self.reaches(c, e, (self.id)(b)) {
                    self.lemma_parent_reached(c, e, b, (self.id)(x), m);
                    assert(self.reaches((self.kids)(x, l)[i], e, (self.id)(x)));
                } else {
                    self.lemma_parent_reached(b, f, c, (self.id)(x), l);
                    assert(self.reaches((self.kids)(x, m)[j], f, (self.id)(x)));
                }
            }
            assert(false);
        }
    }

    /// Whether the node with id `t` lies in the tree below `x`, as a
    /// function of `t`.
    pub open spec fn below(self, x: T, d: nat) -> spec_fn(int) -> bool {
        |t: int| self.reaches(x, d, t)
    }

    /// Whether the node with id `t` lies in the tree below one of `nodes`.
    pub open spec fn below_any(self, nodes: Seq<T>, d: nat) -> spec_fn(int) -> bool {
        |t: int|
            exists|i: int| #![trigger nodes[i]] 0 <= i < nodes.len() && self.reaches(nodes[i], d, t)
    }

    /// Whether the node with id `t` lies in the tree below a child that `x`
    /// has under a label with a number below `upto`.
    pub open spec fn below_kids(self, x: T, d: nat, upto: nat) -> spec_fn(int) -> bool {
        |t: int|
            exists|l: Label, i: int|
                #![trigger (self.kids)(x, l)[i]]
                l.0 < upto && 0 <= i < (self.kids)(x, l).len() && self.reaches(
                    (self.kids)(x, l)[i],
                    d,
                    t,
                )
    }

    /// Number of ids of nodes in the tree below `x`, `x` included, down to
    /// `d` levels below it.
    pub open spec fn ids_below(self, x: T, d: nat) -> nat {
        count_used(self.below(x, d), 0, label_count() as int)
    }

    /// The walk of the trees below the first `k` children under a label
    /// counts the ids below them.
    proof fn lemma_count_all(self, okay: spec_fn(T) -> bool, x: T, d: nat, l: Label, k: int)
        requires
            self.tree_like(),
            (self.ok)(x),
            within_depth(self.kids, okay, x, d),
            d > 0,
            0 <= k <= (self.kids)(x, l).len(),
        ensures
            nodes_in_all(self.kids, (self.kids)(x, l).take(k), (d - 1) as nat) == count_used(
                self.below_any((self.kids)(x, l).take(k), (d - 1) as nat),
                0,
                label_count() as int,
            ),
        decreases d, 0nat, k,
    {
        let all = (self.kids)(x, l);
        let e = (d - 1) as nat;
        let n = label_count() as int;
        let r = self.below_any(all.take(k), e);
        if k == 0 {
            assert(all.take(0).len() == 0);
            assert forall|t: int| 0 <= t < n implies !#[trigger] r(t) by {}
            lemma_count_none(r, 0, n);
        } else {
            let c = all[k - 1];
            let front = all.take(k - 1);
            let p = self.below_any(front, e);
            let q = self.below(c, e);
            assert(all.take(k).drop_last() =~= front);
            assert(all.take(k).last() == c);
            self.lemma_count_all(okay, x, d, l, k - 1);
            assert((self.ok)(c));
            assert(all_within(self.kids, okay, (self.kids)(x, l), d));
            assert(within_depth(self.kids, okay, all[k - 1], e));
            self.lemma_walk_counts_ids(okay, c, e);
            assert forall|t: int| 0 <= t < n implies #[trigger] r(t) == (p(t) || q(t)) by {
                if r(t) {
                    let i = choose|i: int|
                        #![trigger all.take(k)[i]]
                        0 <= i < all.take(k).len() && self.reaches(all.take(k)[i], e, t);
                    if i < k - 1 {
                        assert(front[i] == all.take(k)[i]);
                    }
                }
                if p(t) {
                    let i = choose|i: int|
                        #![trigger front[i]]
                        0 <= i < front.len() && self.reaches(front[i], e, t);
                    assert(all.take(k)[i] == front[i]);
                }
                if q(t) {
                    assert(all.take(k)[k - 1] == c);
                }
            }
            assert forall|t: int| 0 <= t < n implies !(#[trigger] p(t) && q(t)) by {
                if p(t) && q(t) {
                    let i = choose|i: int|
                        #![trigger front[i]]
                        0 <= i < front.len() && self.reaches(front[i], e, t);
                    assert(front[i] == all[i]);
                    self.lemma_apart(okay, x, d, l, i, e, l, k - 1, e, t);
                }
            }
            lemma_count_either(p, q, r, 0, n);
        }
    }

    /// The walk of the trees below the children under the labels with a
    /// number below `upto` counts the ids below them.
    proof fn lemma_count_kids(self, okay: spec_fn(T) -> bool, x: T, d: nat, upto: nat)
        requires
            self.tree_like(),
            (self.ok)(x),
            within_depth(self.kids, okay, x, d),
            d > 0,
            upto <= label_count(),
        ensures
            nodes_below(self.kids, x, d, upto) == count_used(
                self.below_kids(x, (d - 1) as nat, upto),
                0,
                label_count() as int,
            ),
        decreases d, 1nat, upto,
    {
        let e = (d - 1) as nat;
        let n = label_count() as int;
        let r = self.below_kids(x, e, upto);
        if upto == 0 {
            assert forall|t: int| 0 <= t < n implies !#[trigger] r(t) by {}
            lemma_count_none(r, 0, n);
        } else {
            let l = nth_label((upto - 1) as nat);
            let all = (self.kids)(x, l);
            let p = self.below_kids(x, e, (upto - 1) as nat);
            let q = self.below_any(all, e);
            self.lemma_count_kids(okay, x, d, (upto - 1) as nat);
            self.lemma_count_all(okay, x, d, l, all.len() as int);
            assert(all.take(all.len() as int) =~= all);
            assert(nodes_under(self.kids, x, d, l) == nodes_in_all(self.kids, all, e));
            assert(l.0 == upto - 1);
            assert forall|t: int| 0 <= t < n implies #[trigger] r(t) == (p(t) || q(t)) by {
                if r(t) {
                    let (m, i) = choose|m: Label, i: int|
                        #![trigger (self.kids)(x, m)[i]]
                        m.0 < upto && 0 <= i < (self.kids)(x, m).len() && self.reaches(
                            (self.kids)(x, m)[i],
                            e,
                            t,
                        );
                    if m.0 < upto - 1 {
                        assert(p(t));
                    } else {
                        assert(m == l);
                        assert(self.reaches(all[i], e, t));
                        assert(q(t));
                    }
                }
                if p(t) {
                    let (m, i) = choose|m: Label, i: int|
                        #![trigger (self.kids)(x, m)[i]]
                        m.0 < upto - 1 && 0 <= i < (self.kids)(x, m).len() && self.reaches(
                            (self.kids)(x, m)[i],
                            e,
                            t,
                        );
                    assert(r(t));
                }
                if q(t) {
                    let i = choose|i: int|
                        #![trigger all[i]]
                        0 <= i < all.len() && self.reaches(all[i], e, t);
                    assert(self.reaches((self.kids)(x, l)[i], e, t));
                    assert(r(t));
                }
            }
            assert forall|t: int| 0 <= t < n implies !(#[trigger] p(t) && q(t)) by {
                if p(t) && q(t) {
                    let (m, i) = choose|m: Label, i: int|
                        #![trigger (self.kids)(x, m)[i]]
                        m.0 < upto - 1 && 0 <= i < (self.kids)(x, m).len() && self.reaches(
                            (self.kids)(x, m)[i],
                            e,
                            t,
                        );
                    let j = choose|j: int|
                        #![trigger all[j]]
                        0 <= j < all.len() && self.reaches(all[j], e, t);
                    self.lemma_apart(okay, x, d, m, i, e, l, j, e, t);
                }
            }
            lemma_count_either(p, q, r, 0, n);
        }
    }

    /// A walk that may go no level down counts nothing below the node.
    proof fn lemma_nothing_below(self, x: T, upto: nat)
        ensures
            nodes_below(self.kids, x, 0, upto) == 0,
        decreases upto,
    {
        if upto > 0 {
            self.lemma_nothing_below(x, (upto - 1) as nat);
            assert(nodes_under(self.kids, x, 0, nth_label((upto - 1) as nat)) == 0);
        }
    }

    /// A walk of a tree in which every node has one id and one place counts
    /// as many nodes as there are ids of nodes in the tree: it comes to no
    /// node twice.
    pub proof fn lemma_walk_counts_ids(self, okay: spec_fn(T) -> bool, x: T, d: nat)
        requires
            self.tree_like(),
            (self.ok)(x),
            within_depth(self.kids, okay, x, d),
        ensures
            nodes_in(self.kids, x, d) == self.ids_below(x, d),
        decreases d, 2nat, 0nat,
    {
        let n = label_count() as int;
        let r = self.below(x, d);
        let me = (self.id)(x);
        if d == 0 {
            self.lemma_nothing_below(x, label_count());
            assert forall|t: int| 0 <= t < n implies #[trigger] r(t) == (t == me) by {}
            lemma_count_one(r, 0, n, me);
        } else {
            let e = (d - 1) as nat;
            let p = |t: int| t == me;
            let q = self.below_kids(x, e, label_count());
            self.lemma_count_kids(okay, x, d, label_count());
            assert forall|t: int| 0 <= t < n implies #[trigger] r(t) == (p(t) || q(t)) by {
                if r(t) && t != me {
                    let (l, i) = choose|l: Label, i: int|
                        #![trigger (self.kids)(x, l)[i]]
                        0 <= i < (self.kids)(x, l).len() && self.reaches(
                            (self.kids)(x, l)[i],
                            e,
                            t,
                        );
                    assert(l.0 < label_count());
                    assert(q(t));
                }
            }
            assert forall|t: int| 0 <= t < n implies !(#[trigger] p(t) && q(t)) by {
                if q(t) {
                    let (l, i) = choose|l: Label, i: int|
                        #![trigger (self.kids)(x, l)[i]]
                        l.0 < label_count() && 0 <= i < (self.kids)(x, l).len() && self.reaches(
                            (self.kids)(x, l)[i],
                            e,
                            t,
                        );
                    self.lemma_apart(okay, x, d, l, i, e, l, i, e, t);
                }
            }
            lemma_count_either(p, q, r, 0, n);
            assert forall|t: int| 0 <= t < n implies #[trigger] p(t) == (t == me) by {}
            lemma_count_one(p, 0, n, me);
        }
    }
}

} // verus!
