//! The indexed tree: 256 optional slots addressed as an implicit binary
//! tree. Slot 1 is the root, the children of slot `n` are `2n` and `2n + 1`,
//! and slot 0 is never used.

use crate::bstack::{bit_length, lemma_bit_length_monotone, BStackError};
use crate::order::{comparisons_specified, equiv, gt, total_order};
use crate::search::{lemma_insert_keeps_search_tree, search_tree, shaped};
use vstd::prelude::*;

verus! {

/// Number of slots of a tree, the unused slot 0 included.
pub const CELLS: usize = 256;

/// The content of slot `n`; nothing is stored outside the array.
pub open spec fn slot<T>(nodes: Seq<Option<T>>, n: int) -> Option<T> {
    if 0 <= n < nodes.len() && n < CELLS {
        nodes[n]
    } else {
        None
    }
}

/// How far slot `n` lies from the end of the array; it shrinks on every
/// step from a slot to one of its children.
pub open spec fn below(n: nat) -> nat {
    if n < CELLS {
        (CELLS - n) as nat
    } else {
        0
    }
}

/// The values of the subtree rooted at slot `n`: those of its left subtree,
/// then its own, then those of its right subtree.
pub open spec fn in_order<T>(nodes: Seq<Option<T>>, n: nat) -> Seq<T>
    decreases below(n),
{
    if n == 0 || n >= 256 {
        Seq::empty()
    } else {
        match slot(nodes, n as int) {
            None => Seq::empty(),
            Some(v) => in_order(nodes, 2 * n) + seq![v] + in_order(nodes, 2 * n + 1),
        }
    }
}

/// Where a search for `value` that has reached slot `n` ends: at the first
/// slot on its way down that is empty or holds an equal value, left of
/// every greater value and right of every smaller one. A result above 255
/// means that the search has left the tree.
pub open spec fn slot_for<T: Ord>(nodes: Seq<Option<T>>, value: T, n: nat) -> nat
    decreases below(n),
{
    if n == 0 || n >= 256 {
        n
    } else {
        match slot(nodes, n as int) {
            None => n,
            Some(held) => if equiv(value, held) {
                n
            } else if gt(value, held) {
                slot_for(nodes, value, 2 * n + 1)
            } else {
                slot_for(nodes, value, 2 * n)
            },
        }
    }
}

/// The tree after an insertion of `value`: unchanged where the search
/// leaves the tree or ends at an equal value, else with `value` in the empty
/// slot where the search ended.
pub open spec fn inserted<T: Ord>(nodes: Seq<Option<T>>, value: T) -> Seq<Option<T>> {
    let p = slot_for(nodes, value, 1);
    if p < CELLS && slot(nodes, p as int) is None {
        nodes.update(p as int, Some(value))
    } else {
        nodes
    }
}

/// The highest occupied slot below `k`, or 0 if there is none.
pub open spec fn highest_occupied<T>(nodes: Seq<Option<T>>, k: nat) -> nat
    decreases k,
{
    if k == 0 {
        0
    } else if slot(nodes, k - 1) is Some {
        (k - 1) as nat
    } else {
        highest_occupied(nodes, (k - 1) as nat)
    }
}

/// The highest occupied slot is occupied unless it is 0, and no slot
/// between it and `k` is.
pub proof fn lemma_highest_occupied<T>(nodes: Seq<Option<T>>, k: nat)
    ensures
        highest_occupied(nodes, k) == 0 || highest_occupied(nodes, k) < k,
        highest_occupied(nodes, k) > 0 ==> slot(nodes, highest_occupied(nodes, k) as int) is Some,
        forall|j: int| highest_occupied(nodes, k) < j < k ==> slot(nodes, j) is None,
    decreases k,
{
    if k > 0 && !(slot(nodes, k - 1) is Some) {
        lemma_highest_occupied(nodes, (k - 1) as nat);
    }
}

/// No occupied slot lies on a deeper level than the highest occupied slot:
/// the level of a slot is the number of binary digits of its index, which
/// does not shrink as the index grows.
pub proof fn lemma_deepest_level<T>(nodes: Seq<Option<T>>, j: nat)
    requires
        j < CELLS,
        slot(nodes, j as int) is Some,
    ensures
        bit_length(j) <= bit_length(highest_occupied(nodes, CELLS as nat)),
{
    lemma_highest_occupied(nodes, CELLS as nat);
    lemma_bit_length_monotone(j, highest_occupied(nodes, CELLS as nat));
}

/// `usize::ilog2` gives the base-2 logarithm of a positive number, rounded
/// down: one less than the number of its binary digits. It panics on zero.
pub assume_specification[ usize::ilog2 ](i: usize) -> (r: u32)
    requires
        i > 0,
    ensures
        r == bit_length(i as nat) - 1,
;

#[derive(Debug, Clone, Copy, PartialEq, Eq, Structural)]
pub enum TreeError {
    /// The traversal found no phase recorded for the slot it had reached.
    MissingReturnAddress(usize),
    /// The path of the traversal could not be pushed or popped.
    StackError(BStackError),
    /// The traversal has produced every value: the end of the sequence, not
    /// a fault.
    IteratorCompleted,
    /// A slot beyond the array was asked for.
    TreeOverflowCell,
}

impl From<BStackError> for TreeError {
    fn from(value: BStackError) -> (e: TreeError) {
        TreeError::StackError(value)
    }
}

impl vstd::std_specs::convert::FromSpecImpl<BStackError> for TreeError {
    open spec fn obeys_from_spec() -> bool {
        true
    }

    open spec fn from_spec(value: BStackError) -> TreeError {
        TreeError::StackError(value)
    }
}

/// A binary search tree of at most eight levels in a fixed array.
pub struct STree8<T> {
    nodes: [Option<T>; 256],
}

impl<T> View for STree8<T> {
    type V = Seq<Option<T>>;

    /// The slots by index.
    closed spec fn view(&self) -> Seq<Option<T>> {
        self.nodes@
    }
}

impl<T> STree8<T> {
    /// A tree has exactly 256 slots.
    pub proof fn lemma_cells(&self)
        ensures
            self@.len() == CELLS,
    {
    }
}

impl<T: Copy> STree8<T> {
    /// A tree without values.
    pub fn new() -> (tree: STree8<T>)
        ensures
            tree@.len() == CELLS,
            forall|n: int| 0 <= n < CELLS ==> tree@[n] is None,
            shaped(tree@),
            in_order(tree@, 1) == Seq::<T>::empty(),
    {
        STree8 { nodes: [None; 256] }
    }

    /// The number of levels down to the highest occupied slot, 0 for a tree
    /// without values. No occupied slot lies deeper, so this is the height
    /// of the tree.
    pub fn depth(&self) -> (levels: u32)
        ensures
            levels == bit_length(highest_occupied(self@, CELLS as nat)),
    {
        let mut result: usize = 0;
        let mut i: usize = 0;
        while i < 256
            invariant
                i <= 256,
                result == highest_occupied(self@, i as nat),
                result <= i,
                result < 256,
                i > 0 ==> result < i,
            decreases 256 - i,
        {
            assert(slot(self@, i as int) == self.nodes@[i as int]);
            assert(highest_occupied(self@, (i + 1) as nat) == if slot(self@, i as int) is Some {
                i as nat
            } else {
                highest_occupied(self@, i as nat)
            });
            if self.nodes[i].is_some() {
                if i > result {
                    result = i;
                }
            }
            i += 1;
        }
        if result == 0 {
            assert(bit_length(0) == 0);
            return 0;
        }
        proof {
            crate::bstack::lemma_bit_length_bounds(result as nat);
            vstd::arithmetic::power2::lemma2_to64();
            if bit_length(result as nat) > 8 {
                vstd::arithmetic::power2::lemma_pow2_strictly_increases(
                    8,
                    (bit_length(result as nat) - 1) as nat,
                );
            }
        }
        result.ilog2() + 1
    }

    /// The content of slot `cell`, or an error for a slot beyond the array.
    pub fn peek(&self, cell: usize) -> (r: Result<Option<T>, TreeError>)
        ensures
            cell < CELLS ==> r == Ok::<Option<T>, TreeError>(self@[cell as int]),
            cell >= CELLS ==> r == Err::<Option<T>, TreeError>(TreeError::TreeOverflowCell),
    {
        if cell >= 256 {
            return Err(TreeError::TreeOverflowCell);
        }
        Ok(self.nodes[cell])
    }
}

impl<T: Ord> STree8<T> {
    /// Stores `value` where a search for it ends, unless the search ends at
    /// an equal value or leaves the tree, and reports that slot.
    pub fn insert(&mut self, value: T) -> (r: Result<usize, &'static str>)
        requires
            comparisons_specified::<T>(),
        ensures
            final(self)@ == inserted(old(self)@, value),
            total_order::<T>() && search_tree(old(self)@) ==> search_tree(final(self)@),
            slot_for(old(self)@, value, 1) < CELLS ==> r == Ok::<usize, &'static str>(
                slot_for(old(self)@, value, 1) as usize,
            ),
            slot_for(old(self)@, value, 1) >= CELLS ==> r is Err && r->Err_0@
                == "level greater than 8"@,
    {
        proof {
            if total_order::<T>() && search_tree(self@) {
                lemma_insert_keeps_search_tree(self@, value);
            }
        }
        let mut node: usize = 1;
        loop
            invariant
                comparisons_specified::<T>(),
                total_order::<T>() && search_tree(old(self)@) ==> search_tree(
                    inserted(old(self)@, value),
                ),
                1 <= node < 512,
                self@ == old(self)@,
                slot_for(self@, value, node as nat) == slot_for(self@, value, 1),
            decreases 512 - node,
        {
            if node > 255 {
                return Err("level greater than 8");
            }
            assert(slot(self@, node as int) == self.nodes@[node as int]);
            match &self.nodes[node] {
                None => {
                    self.nodes[node] = Some(value);
                    assert(self@ =~= old(self)@.update(node as int, Some(value)));
                    return Ok(node);
                },
                Some(held) => {
                    if value == *held {
                        return Ok(node);
                    }
                    let parent = node;
                    assert(parent << 1 == 2 * parent) by (bit_vector)
                        requires
                            parent < 256,
                    ;
                    node <<= 1;
                    if value > *held {
                        node += 1;
                    }
                },
            }
        }
    }
}

} // verus!
