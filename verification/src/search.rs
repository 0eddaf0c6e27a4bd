//! The search order of the tree, and what follows from it for insertion and
//! for the sequence that a traversal yields.

use crate::order::{
    equiv, gt, lemma_equiv_reflexive, lemma_lt_transitive, lemma_trichotomy, lt, total_order,
};
use crate::tree::{below, in_order, inserted, slot, slot_for, CELLS};
use vstd::prelude::*;

verus! {

/// Slot `p` lies in the subtree rooted at slot `n`.
pub open spec fn under(p: nat, n: nat) -> bool
    decreases p,
{
    n >= 1 && p >= n && (p == n || under(p / 2, n))
}

/// `v` lies strictly between the bounds, where there are any.
pub open spec fn within<T: Ord>(v: T, lo: Option<T>, hi: Option<T>) -> bool {
    &&& lo matches Some(l) ==> lt(l, v)
    &&& hi matches Some(h) ==> lt(v, h)
}

/// Every value reached from slot `n` lies strictly between `lo` and `hi`,
/// and for each of these nodes every value in its left subtree is below its
/// own and every value in its right subtree above it.
pub open spec fn bounded<T: Ord>(
    nodes: Seq<Option<T>>,
    n: nat,
    lo: Option<T>,
    hi: Option<T>,
) -> bool
    decreases below(n),
{
    if n == 0 || n >= CELLS {
        true
    } else {
        match slot(nodes, n as int) {
            None => true,
            Some(v) => {
                &&& within(v, lo, hi)
                &&& bounded(nodes, 2 * n, lo, Some(v))
                &&& bounded(nodes, 2 * n + 1, Some(v), hi)
            },
        }
    }
}

/// Slot 0 is empty and every other occupied slot but the root hangs from an
/// occupied parent.
pub open spec fn shaped<T>(nodes: Seq<Option<T>>) -> bool {
    &&& nodes.len() == CELLS
    &&& nodes[0] is None
    &&& forall|n: int| 2 <= n < CELLS && (#[trigger] nodes[n]) is Some ==> nodes[n / 2] is Some
}

/// The slots form a binary search tree.
pub open spec fn search_tree<T: Ord>(nodes: Seq<Option<T>>) -> bool {
    shaped(nodes) && bounded(nodes, 1, None, None)
}

/// Every entry is strictly less than each entry after it.
pub open spec fn ascending<T: Ord>(s: Seq<T>) -> bool {
    forall|i: int, j: int| 0 <= i < j < s.len() ==> lt(s[i], s[j])
}

/// What lies under a child of a slot lies under the slot.
pub proof fn lemma_under_step(p: nat, n: nat)
    requires
        n >= 1,
        under(p, 2 * n) || under(p, 2 * n + 1),
    ensures
        under(p, n),
    decreases p,
{
    if p == 2 * n || p == 2 * n + 1 {
        assert(under(n, n));
    } else {
        lemma_under_step(p / 2, n);
    }
}

/// The subtrees under the two children of a slot share no slot.
pub proof fn lemma_under_disjoint(p: nat, n: nat)
    requires
        n >= 1,
    ensures
        !(under(p, 2 * n) && under(p, 2 * n + 1)),
    decreases p,
{
    if under(p, 2 * n) && under(p, 2 * n + 1) {
        if p == 2 * n + 1 {
            assert(!under(n, 2 * n));
        } else {
            lemma_under_disjoint(p / 2, n);
        }
    }
}

/// A search that has reached slot `n` ends in the subtree under `n`, at `n`
/// itself or below an occupied slot.
pub proof fn lemma_search_ends_under<T: Ord>(nodes: Seq<Option<T>>, value: T, n: nat)
    requires
        n >= 1,
    ensures
        under(slot_for(nodes, value, n), n),
        slot_for(nodes, value, n) >= n,
        slot_for(nodes, value, n) != n ==> slot(nodes, slot_for(nodes, value, n) as int / 2) is Some,
    decreases below(n),
{
    let p = slot_for(nodes, value, n);
    if p != n {
        let k = if gt(value, slot(nodes, n as int)->Some_0) {
            2 * n + 1
        } else {
            2 * n
        };
        lemma_search_ends_under(nodes, value, k);
        lemma_under_step(p, n);
    }
}

/// A search ends outside the tree, at an empty slot, or at a slot that
/// holds a value equal to the one searched for.
pub proof fn lemma_search_end<T: Ord>(nodes: Seq<Option<T>>, value: T, n: nat)
    requires
        n >= 1,
    ensures
        slot_for(nodes, value, n) >= CELLS || slot(nodes, slot_for(nodes, value, n) as int) is None
            || equiv(value, slot(nodes, slot_for(nodes, value, n) as int)->Some_0),
    decreases below(n),
{
    if n < CELLS && slot(nodes, n as int) is Some && !equiv(value, slot(nodes, n as int)->Some_0) {
        let k = if gt(value, slot(nodes, n as int)->Some_0) {
            2 * n + 1
        } else {
            2 * n
        };
        lemma_search_end(nodes, value, k);
    }
}

/// A store outside the subtree under `n` changes neither what a traversal
/// of that subtree yields nor whether the subtree is in search order.
pub proof fn lemma_store_outside<T: Ord>(
    nodes: Seq<Option<T>>,
    p: nat,
    x: Option<T>,
    n: nat,
    lo: Option<T>,
    hi: Option<T>,
)
    requires
        n >= 1,
        p < nodes.len(),
        !under(p, n),
    ensures
        in_order(nodes.update(p as int, x), n) == in_order(nodes, n),
        bounded(nodes.update(p as int, x), n, lo, hi) == bounded(nodes, n, lo, hi),
    decreases below(n),
{
    if n < CELLS {
        assert(under(n, n));
        if under(p, 2 * n) || under(p, 2 * n + 1) {
            lemma_under_step(p, n);
        }
        match slot(nodes, n as int) {
            None => {},
            Some(v) => {
                lemma_store_outside(nodes, p, x, 2 * n, lo, Some(v));
                lemma_store_outside(nodes, p, x, 2 * n + 1, Some(v), hi);
            },
        }
    }
}

/// Searching again for a value that was just stored ends where it was
/// stored.
proof fn lemma_search_after_store<T: Ord>(nodes: Seq<Option<T>>, value: T, n: nat)
    requires
        total_order::<T>(),
        nodes.len() == CELLS,
        n >= 1,
    ensures
        ({
            let p = slot_for(nodes, value, n);
            let stored = if p < CELLS && slot(nodes, p as int) is None {
                nodes.update(p as int, Some(value))
            } else {
                nodes
            };
            slot_for(stored, value, n) == p
        }),
    decreases below(n),
{
    let p = slot_for(nodes, value, n);
    lemma_equiv_reflexive(value);
    if p != n {
        let k = if gt(value, slot(nodes, n as int)->Some_0) {
            2 * n + 1
        } else {
            2 * n
        };
        lemma_search_ends_under(nodes, value, k);
        lemma_search_after_store(nodes, value, k);
    }
}

/// Inserting a value a second time ends at the slot of the first insertion
/// and changes nothing: the tree holds no value twice.
pub proof fn lemma_insert_idempotent<T: Ord>(nodes: Seq<Option<T>>, value: T)
    requires
        total_order::<T>(),
        nodes.len() == CELLS,
    ensures
        slot_for(inserted(nodes, value), value, 1) == slot_for(nodes, value, 1),
        inserted(inserted(nodes, value), value) == inserted(nodes, value),
        in_order(inserted(inserted(nodes, value), value), 1) == in_order(
            inserted(nodes, value),
            1,
        ),
{
    lemma_search_after_store(nodes, value, 1);
}

/// A tree without values is a search tree and yields nothing.
pub proof fn lemma_empty_tree<T: Ord>(nodes: Seq<Option<T>>)
    requires
        nodes.len() == CELLS,
        forall|n: int| 0 <= n < CELLS ==> nodes[n] is None,
    ensures
        search_tree(nodes),
        in_order(nodes, 1) == Seq::<T>::empty(),
{
}

/// Storing a value at the empty slot where the search for it ends keeps the
/// subtree within its bounds and in search order, and adds one entry to
/// what a traversal of the subtree yields.
proof fn lemma_store_at_search_end<T: Ord>(
    nodes: Seq<Option<T>>,
    value: T,
    n: nat,
    lo: Option<T>,
    hi: Option<T>,
)
    requires
        total_order::<T>(),
        shaped(nodes),
        n >= 1,
        slot_for(nodes, value, n) < CELLS,
        slot(nodes, slot_for(nodes, value, n) as int) is None,
    ensures
        in_order(nodes.update(slot_for(nodes, value, n) as int, Some(value)), n).len() == in_order(
            nodes,
            n,
        ).len() + 1,
        bounded(nodes, n, lo, hi) && within(value, lo, hi) ==> bounded(
            nodes.update(slot_for(nodes, value, n) as int, Some(value)),
            n,
            lo,
            hi,
        ),
    decreases below(n),
{
    let p = slot_for(nodes, value, n);
    let stored = nodes.update(p as int, Some(value));
    lemma_search_ends_under(nodes, value, n);
    match slot(nodes, n as int) {
        None => {
            assert(p == n);
            assert(2 * n < CELLS ==> nodes[2 * n as int] is None);
            assert(2 * n + 1 < CELLS ==> nodes[2 * n as int + 1] is None);
            assert(in_order(stored, 2 * n) =~= Seq::<T>::empty());
            assert(in_order(stored, 2 * n + 1) =~= Seq::<T>::empty());
            assert(bounded(stored, 2 * n, lo, Some(value)));
            assert(bounded(stored, 2 * n + 1, Some(value), hi));
        },
        Some(held) => {
            lemma_trichotomy(value, held);
            assert(slot(stored, n as int) == Some(held));
            if gt(value, held) {
                lemma_search_ends_under(nodes, value, 2 * n + 1);
                lemma_under_disjoint(p, n);
                lemma_store_outside(nodes, p, Some(value), 2 * n, lo, Some(held));
                lemma_store_at_search_end(nodes, value, 2 * n + 1, Some(held), hi);
            } else {
                lemma_search_ends_under(nodes, value, 2 * n);
                lemma_under_disjoint(p, n);
                lemma_store_outside(nodes, p, Some(value), 2 * n + 1, Some(held), hi);
                lemma_store_at_search_end(nodes, value, 2 * n, lo, Some(held));
            }
        },
    }
}

/// An insertion into a search tree leaves a search tree.
pub proof fn lemma_insert_keeps_search_tree<T: Ord>(nodes: Seq<Option<T>>, value: T)
    requires
        total_order::<T>(),
        search_tree(nodes),
    ensures
        search_tree(inserted(nodes, value)),
{
    let p = slot_for(nodes, value, 1);
    if p < CELLS && slot(nodes, p as int) is None {
        lemma_search_ends_under(nodes, value, 1);
        lemma_store_at_search_end(nodes, value, 1, None, None);
    }
}

/// An insertion that stores its value makes the sequence that a traversal
/// yields one entry longer; any other insertion leaves it as it is.
pub proof fn lemma_insert_counts<T: Ord>(nodes: Seq<Option<T>>, value: T)
    requires
        total_order::<T>(),
        shaped(nodes),
    ensures
        in_order(inserted(nodes, value), 1).len() == in_order(nodes, 1).len() + if slot_for(
            nodes,
            value,
            1,
        ) < CELLS && slot(nodes, slot_for(nodes, value, 1) as int) is None {
            1nat
        } else {
            0nat
        },
{
    let p = slot_for(nodes, value, 1);
    if p < CELLS && slot(nodes, p as int) is None {
        lemma_store_at_search_end(nodes, value, 1, None, None);
    }
}

/// An insertion of a value that equals none in the tree stores it, unless
/// the search for it leaves the tree.
pub proof fn lemma_insert_of_new_value<T: Ord>(nodes: Seq<Option<T>>, value: T)
    requires
        nodes.len() == CELLS,
        forall|n: int| 0 <= n < CELLS && (#[trigger] nodes[n]) is Some ==> !equiv(value, nodes[n]->Some_0),
    ensures
        slot_for(nodes, value, 1) >= CELLS || slot(nodes, slot_for(nodes, value, 1) as int) is None,
{
    lemma_search_end(nodes, value, 1);
}

/// A traversal of a subtree in search order yields its values in strictly
/// ascending order, each within the bounds of the subtree.
pub proof fn lemma_bounded_ascending<T: Ord>(
    nodes: Seq<Option<T>>,
    n: nat,
    lo: Option<T>,
    hi: Option<T>,
)
    requires
        total_order::<T>(),
        bounded(nodes, n, lo, hi),
    ensures
        ascending(in_order(nodes, n)),
        forall|i: int| 0 <= i < in_order(nodes, n).len() ==> within(#[trigger] in_order(nodes, n)[i], lo, hi),
    decreases below(n),
{
    if n == 0 || n >= CELLS {
    } else {
        match slot(nodes, n as int) {
            None => {},
            Some(v) => {
                let l = in_order(nodes, 2 * n);
                let r = in_order(nodes, 2 * n + 1);
                let s = in_order(nodes, n);
                lemma_bounded_ascending(nodes, 2 * n, lo, Some(v));
                lemma_bounded_ascending(nodes, 2 * n + 1, Some(v), hi);
                assert(s == l + seq![v] + r);
                assert forall|i: int| 0 <= i < s.len() implies within(#[trigger] s[i], lo, hi) by {
                    if i < l.len() {
                        assert(s[i] == l[i]);
                        assert(within(l[i], lo, Some(v)));
                        if hi is Some {
                            lemma_lt_transitive(l[i], v, hi->Some_0);
                        }
                    } else if i == l.len() {
                        assert(s[i] == v);
                    } else {
                        let k = i - l.len() - 1;
                        assert(s[i] == r[k]);
                        assert(within(r[k], Some(v), hi));
                        if lo is Some {
                            lemma_lt_transitive(lo->Some_0, v, r[k]);
                        }
                    }
                }
                assert forall|i: int, j: int| 0 <= i < j < s.len() implies lt(s[i], s[j]) by {
                    if j < l.len() {
                        assert(s[i] == l[i] && s[j] == l[j]);
                    } else if i < l.len() {
                        assert(s[i] == l[i]);
                        assert(within(l[i], lo, Some(v)));
                        if j == l.len() {
                            assert(s[j] == v);
                        } else {
                            let k = j - l.len() - 1;
                            assert(s[j] == r[k]);
                            assert(within(r[k], Some(v), hi));
                            lemma_lt_transitive(l[i], v, r[k]);
                        }
                    } else if i == l.len() {
                        let k = j - l.len() - 1;
                        assert(s[i] == v);
                        assert(s[j] == r[k]);
                        assert(within(r[k], Some(v), hi));
                    } else {
                        let ki = i - l.len() - 1;
                        let kj = j - l.len() - 1;
                        assert(s[i] == r[ki] && s[j] == r[kj]);
                    }
                }
            },
        }
    }
}

/// A traversal of a search tree yields its values in strictly ascending
/// order.
pub proof fn lemma_in_order_ascending<T: Ord>(nodes: Seq<Option<T>>)
    requires
        total_order::<T>(),
        search_tree(nodes),
    ensures
        ascending(in_order(nodes, 1)),
{
    lemma_bounded_ascending(nodes, 1, None, None);
}

/// The tree that results from inserting the entries of `values`, first to
/// last, into an empty tree.
pub open spec fn built<T: Ord>(values: Seq<T>) -> Seq<Option<T>>
    decreases values.len(),
{
    if values.len() == 0 {
        Seq::new(CELLS as nat, |n: int| None::<T>)
    } else {
        inserted(built(values.drop_last()), values.last())
    }
}

/// No two entries of `values` are equal.
pub open spec fn distinct<T: Ord>(values: Seq<T>) -> bool {
    forall|i: int, j: int| 0 <= i < j < values.len() ==> !equiv(values[i], values[j])
}

/// Each insertion of `built` finds a slot within the tree.
pub open spec fn fits<T: Ord>(values: Seq<T>) -> bool
    decreases values.len(),
{
    values.len() == 0 || {
        &&& fits(values.drop_last())
        &&& slot_for(built(values.drop_last()), values.last(), 1) < CELLS
    }
}

/// Every value in the tree is an entry of `values`.
pub open spec fn holds_only<T>(nodes: Seq<Option<T>>, values: Seq<T>) -> bool {
    forall|n: int|
        0 <= n < CELLS && n < nodes.len() && (#[trigger] nodes[n]) is Some ==> values.contains(
            nodes[n]->Some_0,
        )
}

/// Some slot of the tree holds `v`.
pub open spec fn stored<T>(nodes: Seq<Option<T>>, v: T) -> bool {
    exists|m: int| 0 <= m < CELLS && m < nodes.len() && #[trigger] nodes[m] == Some(v)
}

/// Every value that a traversal of the subtree under `n` yields sits in a
/// slot of the tree.
pub proof fn lemma_in_order_is_stored<T>(nodes: Seq<Option<T>>, n: nat)
    ensures
        forall|i: int|
            0 <= i < in_order(nodes, n).len() ==> stored(nodes, #[trigger] in_order(nodes, n)[i]),
    decreases below(n),
{
    if n == 0 || n >= CELLS {
    } else {
        match slot(nodes, n as int) {
            None => {},
            Some(v) => {
                let l = in_order(nodes, 2 * n);
                let r = in_order(nodes, 2 * n + 1);
                let s = in_order(nodes, n);
                lemma_in_order_is_stored(nodes, 2 * n);
                lemma_in_order_is_stored(nodes, 2 * n + 1);
                assert(s == l + seq![v] + r);
                assert forall|i: int| 0 <= i < s.len() implies stored(nodes, #[trigger] s[i]) by {
                    if i < l.len() {
                        assert(s[i] == l[i]);
                    } else if i == l.len() {
                        assert(nodes[n as int] == Some(s[i]));
                    } else {
                        assert(s[i] == r[i - l.len() - 1]);
                    }
                }
            },
        }
    }
}

/// Distinct values that are inserted into an empty tree, each finding a
/// slot, make a search tree whose traversal yields as many values as were
/// inserted, each of them one of those values, in strictly ascending
/// order.
pub proof fn lemma_distinct_values_in_order<T: Ord>(values: Seq<T>)
    requires
        total_order::<T>(),
        distinct(values),
        fits(values),
    ensures
        search_tree(built(values)),
        holds_only(built(values), values),
        in_order(built(values), 1).len() == values.len(),
        ascending(in_order(built(values), 1)),
        forall|i: int|
            0 <= i < values.len() ==> values.contains(#[trigger] in_order(built(values), 1)[i]),
    decreases values.len(),
{
    if values.len() == 0 {
        lemma_empty_tree(built(values));
    } else {
        let init = values.drop_last();
        let last = values.last();
        let before = built(init);
        let after = built(values);
        lemma_distinct_values_in_order(init);
        assert forall|n: int| 0 <= n < CELLS && (#[trigger] before[n]) is Some implies !equiv(
            last,
            before[n]->Some_0,
        ) by {
            let held = before[n]->Some_0;
            assert(init.contains(held));
            let j = choose|j: int| 0 <= j < init.len() && init[j] == held;
            assert(values[j] == held);
            lemma_trichotomy(last, held);
        }
        lemma_insert_of_new_value(before, last);
        lemma_insert_keeps_search_tree(before, last);
        lemma_insert_counts(before, last);
        let p = slot_for(before, last, 1) as int;
        assert forall|n: int| 0 <= n < CELLS && n < after.len() && (#[trigger] after[n]) is Some
            implies values.contains(after[n]->Some_0) by {
            if n == p {
                assert(values[values.len() - 1] == after[n]->Some_0);
            } else {
                let held = before[n]->Some_0;
                assert(init.contains(held));
                let j = choose|j: int| 0 <= j < init.len() && init[j] == held;
                assert(values[j] == held);
            }
        }
    }
    lemma_in_order_ascending(built(values));
    lemma_in_order_is_stored(built(values), 1);
}

} // verus!
