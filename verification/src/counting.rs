//! Counting the nodes of a tree whose children hang under labels: what the
//! count is, and that it does not depend on the order in which the labels
//! are gone through.

use vstd::prelude::*;
use crate::tree::Label;

verus! {

/// Number of labels that there are.
pub open spec fn label_count() -> nat {
    0x1_0000_0000_0000_0000_0000_0000_0000_0000nat
}

/// The label with the given number.
pub open spec fn nth_label(n: nat) -> Label {
    Label(n as u128)
}

/// `f` summed over the labels with a number below `upto`.
pub open spec fn sum_upto(f: spec_fn(Label) -> nat, upto: nat) -> nat
    decreases upto,
{
    if upto == 0 {
        0
    } else {
        sum_upto(f, (upto - 1) as nat) + f(nth_label((upto - 1) as nat))
    }
}

/// `f` summed over a sequence of labels.
pub open spec fn sum_over(f: spec_fn(Label) -> nat, labels: Seq<Label>) -> nat
    decreases labels.len(),
{
    if labels.len() == 0 {
        0
    } else {
        sum_over(f, labels.drop_last()) + f(labels.last())
    }
}

/// `f` summed over those labels of a sequence that have a number below `n`.
pub open spec fn sum_below(f: spec_fn(Label) -> nat, labels: Seq<Label>, n: nat) -> nat
    decreases labels.len(),
{
    if labels.len() == 0 {
        0
    } else {
        sum_below(f, labels.drop_last(), n) + if labels.last().0 < n {
            f(labels.last())
        } else {
            0
        }
    }
}

/// Letting one more label number in adds what `f` gives for that label, if
/// the sequence has it.
proof fn lemma_sum_below_step(f: spec_fn(Label) -> nat, labels: Seq<Label>, n: nat)
    requires
        labels.no_duplicates(),
        n < label_count(),
    ensures
        sum_below(f, labels, n + 1) == sum_below(f, labels, n) + if labels.contains(nth_label(n)) {
            f(nth_label(n))
        } else {
            0
        },
    decreases labels.len(),
{
    if labels.len() > 0 {
        let rest = labels.drop_last();
        let last = labels.last();
        assert(rest.no_duplicates()) by {
            assert forall|i: int, j: int|
                0 <= i < rest.len() && 0 <= j < rest.len() && i != j implies rest[i] != rest[j] by {
                assert(rest[i] == labels[i] && rest[j] == labels[j]);
            }
        }
        lemma_sum_below_step(f, rest, n);
        if last == nth_label(n) {
            assert(!rest.contains(nth_label(n))) by {
                if rest.contains(nth_label(n)) {
                    let i = choose|i: int| 0 <= i < rest.len() && rest[i] == nth_label(n);
                    assert(labels[i] == labels[labels.len() - 1]);
                }
            }
            assert(labels.contains(nth_label(n))) by {
                assert(labels[labels.len() - 1] == nth_label(n));
            }
        } else {
            assert(last.0 != n) by {
                assert(last == Label(last.0));
            }
            assert(rest.contains(nth_label(n)) == labels.contains(nth_label(n))) by {
                if rest.contains(nth_label(n)) {
                    let i = choose|i: int| 0 <= i < rest.len() && rest[i] == nth_label(n);
                    assert(labels[i] == nth_label(n));
                }
                if labels.contains(nth_label(n)) {
                    let i = choose|i: int| 0 <= i < labels.len() && labels[i] == nth_label(n);
                    assert(rest[i] == nth_label(n));
                }
            }
        }
    }
}

/// Where `f` gives nothing for the labels that a sequence lacks, summing
/// over the label numbers and summing over the sequence come to the same.
proof fn lemma_sum_upto_is_below(f: spec_fn(Label) -> nat, labels: Seq<Label>, n: nat)
    requires
        labels.no_duplicates(),
        n <= label_count(),
        forall|l: Label| !labels.contains(l) ==> #[trigger] f(l) == 0,
    ensures
        sum_upto(f, n) == sum_below(f, labels, n),
    decreases n,
{
    if n == 0 {
        lemma_sum_below_none(f, labels);
    } else {
        lemma_sum_upto_is_below(f, labels, (n - 1) as nat);
        lemma_sum_below_step(f, labels, (n - 1) as nat);
    }
}

/// No label has a number below 0.
proof fn lemma_sum_below_none(f: spec_fn(Label) -> nat, labels: Seq<Label>)
    ensures
        sum_below(f, labels, 0) == 0,
    decreases labels.len(),
{
    if labels.len() > 0 {
        lemma_sum_below_none(f, labels.drop_last());
    }
}

/// Every label has a number below the number of labels.
proof fn lemma_sum_below_all(f: spec_fn(Label) -> nat, labels: Seq<Label>)
    ensures
        sum_below(f, labels, label_count()) == sum_over(f, labels),
    decreases labels.len(),
{
    if labels.len() > 0 {
        lemma_sum_below_all(f, labels.drop_last());
    }
}

/// A sum over all labels is the sum over any sequence that has each label
/// once for which `f` gives something.
pub proof fn lemma_sum_any_order(f: spec_fn(Label) -> nat, labels: Seq<Label>)
    requires
        labels.no_duplicates(),
        forall|l: Label| !labels.contains(l) ==> #[trigger] f(l) == 0,
    ensures
        sum_upto(f, label_count()) == sum_over(f, labels),
{
    lemma_sum_upto_is_below(f, labels, label_count());
    lemma_sum_below_all(f, labels);
}

/// The sum over the first labels of a sequence grows with each label, and
/// does not exceed the sum over all of them.
pub proof fn lemma_sum_over_take(f: spec_fn(Label) -> nat, labels: Seq<Label>, t: int)
    requires
        0 <= t <= labels.len(),
    ensures
        sum_over(f, labels.take(t)) <= sum_over(f, labels),
        t < labels.len() ==> sum_over(f, labels.take(t + 1)) == sum_over(f, labels.take(t)) + f(
            labels[t],
        ),
    decreases labels.len() - t,
{
    if t < labels.len() {
        assert(labels.take(t + 1).drop_last() =~= labels.take(t));
        assert(labels.take(t + 1).last() == labels[t]);
        lemma_sum_over_take(f, labels, t + 1);
    } else {
        assert(labels.take(t) =~= labels);
    }
}

/// Number of nodes in the tree below `node`, `node` included, down to `depth`
/// levels below it: one for the node, and for each label the nodes in the
/// trees below the children under that label. `kids` says which children a
/// node has under a label.
pub open spec fn nodes_in<T>(kids: spec_fn(T, Label) -> Seq<T>, node: T, depth: nat) -> nat
    decreases depth, 2nat, 0nat,
{
    1 + nodes_below(kids, node, depth, label_count())
}

/// Number of nodes in the trees below the children of `node` under the
/// labels with a number below `upto`.
pub open spec fn nodes_below<T>(
    kids: spec_fn(T, Label) -> Seq<T>,
    node: T,
    depth: nat,
    upto: nat,
) -> nat
    decreases depth, 1nat, upto,
{
    if upto == 0 {
        0
    } else {
        nodes_below(kids, node, depth, (upto - 1) as nat) + nodes_under(
            kids,
            node,
            depth,
            nth_label((upto - 1) as nat),
        )
    }
}

/// Number of nodes in the trees below the children of `node` under one
/// label.
pub open spec fn nodes_under<T>(
    kids: spec_fn(T, Label) -> Seq<T>,
    node: T,
    depth: nat,
    label: Label,
) -> nat
    decreases depth, 0nat, 0nat,
{
    if depth == 0 {
        0
    } else {
        nodes_in_all(kids, kids(node, label), (depth - 1) as nat)
    }
}

/// Number of nodes in the trees below the given nodes, taken together.
pub open spec fn nodes_in_all<T>(kids: spec_fn(T, Label) -> Seq<T>, nodes: Seq<T>, depth: nat) -> nat
    decreases depth, 3nat, nodes.len(),
{
    if nodes.len() == 0 {
        0
    } else {
        nodes_in_all(kids, nodes.drop_last(), depth) + nodes_in(kids, nodes.last(), depth)
    }
}

/// What `nodes_under` gives for each label.
pub open spec fn under<T>(kids: spec_fn(T, Label) -> Seq<T>, node: T, depth: nat) -> spec_fn(
    Label,
) -> nat {
    |label: Label| nodes_under(kids, node, depth, label)
}

/// Whether the tree below `node` is at most `depth` levels deep and `ok`
/// holds of every node in it.
pub open spec fn within_depth<T>(
    kids: spec_fn(T, Label) -> Seq<T>,
    ok: spec_fn(T) -> bool,
    node: T,
    depth: nat,
) -> bool
    decreases depth, 1nat,
{
    &&& ok(node)
    &&& forall|label: Label|
        #![trigger kids(node, label)]
        all_within(kids, ok, kids(node, label), depth)
}

/// Whether the given nodes lie less than `depth` levels above the deepest
/// node below them, and `ok` holds of them and of every node below them.
pub open spec fn all_within<T>(
    kids: spec_fn(T, Label) -> Seq<T>,
    ok: spec_fn(T) -> bool,
    nodes: Seq<T>,
    depth: nat,
) -> bool
    decreases depth, 0nat,
{
    forall|i: int|
        #![trigger nodes[i]]
        0 <= i < nodes.len() ==> depth > 0 && within_depth(kids, ok, nodes[i], (depth - 1) as nat)
}

/// A tree that is at most some levels deep is at most any more levels deep.
pub proof fn lemma_within_more<T>(
    kids: spec_fn(T, Label) -> Seq<T>,
    ok: spec_fn(T) -> bool,
    node: T,
    depth: nat,
    more: nat,
)
    requires
        within_depth(kids, ok, node, depth),
        depth <= more,
    ensures
        within_depth(kids, ok, node, more),
    decreases depth, 1nat,
{
    assert forall|label: Label| #![trigger kids(node, label)]
        all_within(kids, ok, kids(node, label), more) by {
        lemma_all_within_more(kids, ok, kids(node, label), depth, more);
    }
}

/// Trees that are at most some levels deep are at most any more levels
/// deep.
pub proof fn lemma_all_within_more<T>(
    kids: spec_fn(T, Label) -> Seq<T>,
    ok: spec_fn(T) -> bool,
    nodes: Seq<T>,
    depth: nat,
    more: nat,
)
    requires
        all_within(kids, ok, nodes, depth),
        depth <= more,
    ensures
        all_within(kids, ok, nodes, more),
    decreases depth, 0nat,
{
    assert forall|i: int| #![trigger nodes[i]] 0 <= i < nodes.len() implies more > 0
        && within_depth(kids, ok, nodes[i], (more - 1) as nat) by {
        lemma_within_more(kids, ok, nodes[i], (depth - 1) as nat, (more - 1) as nat);
    }
}

/// What a walk that counts the nodes below `node` comes to: the number of
/// nodes, where the tree is at most `depth` levels deep, `ok` holds of every
/// node in it, and a `usize` can hold the number; nothing otherwise.
pub open spec fn walk_result<T>(
    kids: spec_fn(T, Label) -> Seq<T>,
    ok: spec_fn(T) -> bool,
    node: T,
    depth: nat,
) -> Option<usize> {
    if within_depth(kids, ok, node, depth) && nodes_in(kids, node, depth) <= usize::MAX {
        Some(nodes_in(kids, node, depth) as usize)
    } else {
        None
    }
}

/// The nodes below the children under the labels with a number below `upto`
/// are a sum over those labels.
proof fn lemma_nodes_below_is_sum<T>(
    kids: spec_fn(T, Label) -> Seq<T>,
    node: T,
    depth: nat,
    upto: nat,
)
    ensures
        nodes_below(kids, node, depth, upto) == sum_upto(under(kids, node, depth), upto),
    decreases upto,
{
    if upto > 0 {
        lemma_nodes_below_is_sum(kids, node, depth, (upto - 1) as nat);
    }
}

/// The number of nodes in a tree is one more than the sum, over any
/// sequence that has each label once under which the node has children, of
/// the nodes below the children under the label.
pub proof fn lemma_nodes_in_any_order<T>(
    kids: spec_fn(T, Label) -> Seq<T>,
    node: T,
    depth: nat,
    labels: Seq<Label>,
)
    requires
        labels.no_duplicates(),
        forall|l: Label| !labels.contains(l) ==> (#[trigger] kids(node, l)).len() == 0,
    ensures
        nodes_in(kids, node, depth) == 1 + sum_over(under(kids, node, depth), labels),
{
    let f = under(kids, node, depth);
    lemma_nodes_below_is_sum(kids, node, depth, label_count());
    assert forall|l: Label| !labels.contains(l) implies #[trigger] f(l) == 0 by {
        assert(kids(node, l).len() == 0);
    }
    lemma_sum_any_order(f, labels);
}

/// The nodes below the first of some nodes grow with each node, and do not
/// exceed the nodes below all of them.
pub proof fn lemma_nodes_in_all_take<T>(
    kids: spec_fn(T, Label) -> Seq<T>,
    nodes: Seq<T>,
    depth: nat,
    k: int,
)
    requires
        0 <= k <= nodes.len(),
    ensures
        nodes_in_all(kids, nodes.take(k), depth) <= nodes_in_all(kids, nodes, depth),
        k < nodes.len() ==> nodes_in_all(kids, nodes.take(k + 1), depth) == nodes_in_all(
            kids,
            nodes.take(k),
            depth,
        ) + nodes_in(kids, nodes[k], depth),
    decreases nodes.len() - k,
{
    if k < nodes.len() {
        assert(nodes.take(k + 1).drop_last() =~= nodes.take(k));
        assert(nodes.take(k + 1).last() == nodes[k]);
        lemma_nodes_in_all_take(kids, nodes, depth, k + 1);
    } else {
        assert(nodes.take(k) =~= nodes);
    }
}

} // verus!
