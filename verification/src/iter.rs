//! In-order traversal of the indexed tree without recursion.
//!
//! The traversal keeps the path from the root to the node it is working on
//! in a bit stack whose first entry is set, so that the value of the path is
//! the node's slot. Beside it a table holds, for every node on the path, the
//! phase at which the node resumes when control comes back to it.

use crate::bstack::{
    capacity, lemma_path_value_bounds, lemma_path_value_push, path_value, BStack, BStackError,
};
use crate::search::under;
use crate::tree::{below, in_order, slot, STree8, TreeError, CELLS};
use vstd::arithmetic::power2::{lemma2_to64, lemma_pow2_strictly_increases};
use vstd::prelude::*;

verus! {

/// The phase at which a node on the path resumes.
#[derive(Debug, Clone, Copy, PartialEq, Eq, Structural)]
pub enum Address {
    /// Reached for the first time: the left subtree comes first.
    Enter,
    /// The left subtree is done: the node's own value is due.
    AfterLeft,
    /// The node's value has been produced: the right subtree is next.
    ValueYielded,
    /// Both subtrees are done.
    Completed,
}

/// The side on which a child hangs from its parent.
#[derive(Debug, Clone, Copy, PartialEq, Eq, Structural)]
pub enum Branch {
    Left,
    Right,
}

/// The values that the node in slot `cell` and its subtrees have yet to
/// produce when the node resumes at `address`.
pub open spec fn pending<T>(nodes: Seq<Option<T>>, cell: nat, address: Option<Address>) -> Seq<T> {
    match address {
        Some(Address::Enter) => in_order(nodes, cell),
        Some(Address::AfterLeft) => match slot(nodes, cell as int) {
            Some(v) => seq![v] + in_order(nodes, 2 * cell + 1),
            None => Seq::empty(),
        },
        Some(Address::ValueYielded) => in_order(nodes, 2 * cell + 1),
        Some(Address::Completed) => Seq::empty(),
        None => Seq::empty(),
    }
}

/// The values that a traversal standing at `cell` has yet to produce: what
/// is pending at `cell`, then what is pending at each node above it, from
/// its parent up to the root.
pub open spec fn remaining<T>(
    nodes: Seq<Option<T>>,
    addresses: Seq<Option<Address>>,
    cell: nat,
) -> Seq<T>
    decreases cell,
{
    if cell == 0 || cell >= CELLS {
        Seq::empty()
    } else {
        pending(nodes, cell, addresses[cell as int]) + remaining(nodes, addresses, cell / 2)
    }
}

/// The number of steps a traversal spends on the subtree rooted at slot
/// `n`: four for each of its nodes.
pub open spec fn visits<T>(nodes: Seq<Option<T>>, n: nat) -> nat
    decreases below(n),
{
    if n == 0 || n >= CELLS {
        0
    } else {
        match slot(nodes, n as int) {
            None => 0,
            Some(_) => 4 + visits(nodes, 2 * n) + visits(nodes, 2 * n + 1),
        }
    }
}

/// The number of steps still to be spent on the node in slot `cell` and its
/// subtrees when the node resumes at `address`.
pub open spec fn pending_steps<T>(
    nodes: Seq<Option<T>>,
    cell: nat,
    address: Option<Address>,
) -> nat {
    match address {
        Some(Address::Enter) => visits(nodes, cell),
        Some(Address::AfterLeft) => 3 + visits(nodes, 2 * cell + 1),
        Some(Address::ValueYielded) => 2 + visits(nodes, 2 * cell + 1),
        Some(Address::Completed) => 1,
        None => 0,
    }
}

/// The number of steps that a traversal standing at `cell` has left.
pub open spec fn steps_left<T>(
    nodes: Seq<Option<T>>,
    addresses: Seq<Option<Address>>,
    cell: nat,
) -> nat
    decreases cell,
{
    if cell == 0 || cell >= CELLS {
        0
    } else {
        pending_steps(nodes, cell, addresses[cell as int]) + steps_left(nodes, addresses, cell / 2)
    }
}

/// Every node from `cell` up to the root is occupied and has a phase, and
/// every node above `cell` resumes where the step down to its child left
/// it: before its own value under a left child, after both subtrees under
/// a right child.
pub open spec fn linked<T>(
    nodes: Seq<Option<T>>,
    addresses: Seq<Option<Address>>,
    cell: nat,
) -> bool
    decreases cell,
{
    cell == 0 || {
        &&& cell < CELLS
        &&& slot(nodes, cell as int) is Some
        &&& addresses[cell as int] is Some
        &&& cell >= 2 ==> addresses[cell as int / 2] == Some(
            if cell % 2 == 0 {
                Address::AfterLeft
            } else {
                Address::Completed
            },
        )
        &&& linked(nodes, addresses, cell / 2)
    }
}

/// The table holds a phase for no slot but those on the path from the root
/// to `cell`.
pub open spec fn cleared(addresses: Seq<Option<Address>>, cell: nat) -> bool {
    forall|n: int|
        0 <= n < CELLS && n < addresses.len() && (#[trigger] addresses[n]) is Some ==> under(
            cell,
            n as nat,
        )
}

/// What a traversal standing at `cell` has left depends on the table only
/// at `cell` and above it on the path, and these slots are no greater than
/// `cell`.
pub proof fn lemma_table_frame<T>(
    nodes: Seq<Option<T>>,
    a: Seq<Option<Address>>,
    b: Seq<Option<Address>>,
    cell: nat,
)
    requires
        forall|i: int| 1 <= i <= cell ==> a[i] == b[i],
    ensures
        remaining(nodes, a, cell) == remaining(nodes, b, cell),
        steps_left(nodes, a, cell) == steps_left(nodes, b, cell),
        linked(nodes, a, cell) == linked(nodes, b, cell),
    decreases cell,
{
    if cell != 0 {
        lemma_table_frame(nodes, a, b, cell / 2);
    }
}

/// A path to a slot of the tree that starts at the root has at most eight
/// entries, and its value is no less than 1.
pub proof fn lemma_path_in_tree(s: Seq<bool>)
    requires
        s.len() > 0,
        s[0],
        path_value(s) < CELLS,
    ensures
        s.len() <= 8,
        path_value(s) >= 1,
        s.len() < capacity(),
        s.drop_last().push(path_value(s) % 2 == 1) == s,
        path_value(s.drop_last()) == path_value(s) / 2,
{
    lemma_path_value_bounds(s);
    lemma2_to64();
    vstd::arithmetic::power2::lemma_pow2_pos((s.len() - 1) as nat);
    if s.len() > 8 {
        if s.len() > 9 {
            lemma_pow2_strictly_increases(8, (s.len() - 1) as nat);
        }
    }
    assert(s.drop_last().push(s.last()) =~= s);
}

/// Whether slot `n` of the tree holds a value.
pub open spec fn occupied<T>(nodes: Seq<Option<T>>, n: nat) -> bool {
    slot(nodes, n as int) is Some
}

/// The table after the step that enters the node in slot `c`: the node
/// resumes after its left subtree, and its left child, if there is one, is
/// entered.
pub open spec fn after_enter<T>(
    nodes: Seq<Option<T>>,
    table: Seq<Option<Address>>,
    c: nat,
) -> Seq<Option<Address>> {
    let resumed = table.update(c as int, Some(Address::AfterLeft));
    if occupied(nodes, 2 * c) {
        resumed.update(2 * c as int, Some(Address::Enter))
    } else {
        resumed
    }
}

/// The table after the step that follows the value of the node in slot
/// `c`: the node is completed, and its right child, if there is one, is
/// entered.
pub open spec fn after_value<T>(
    nodes: Seq<Option<T>>,
    table: Seq<Option<Address>>,
    c: nat,
) -> Seq<Option<Address>> {
    let resumed = table.update(c as int, Some(Address::Completed));
    if occupied(nodes, 2 * c + 1) {
        resumed.update(2 * c as int + 1, Some(Address::Enter))
    } else {
        resumed
    }
}

/// Once the phase of the node in slot `c` is taken out, the table holds
/// phases only on the path to its parent.
pub proof fn lemma_cleared_above(table: Seq<Option<Address>>, c: nat)
    requires
        c < table.len(),
        cleared(table, c),
    ensures
        cleared(table.update(c as int, None), c / 2),
{
    let now = table.update(c as int, None);
    assert forall|n: int| 0 <= n < CELLS && n < now.len() && (#[trigger] now[n]) is Some implies under(
        c / 2,
        n as nat,
    ) by {
        assert(table[n] is Some);
        assert(under(c, n as nat));
    }
}

/// Entering a node moves the traversal to its left child, or leaves it at
/// the node if there is none; it spends one step and changes nothing of
/// what remains to be produced.
pub proof fn lemma_enter_step<T>(nodes: Seq<Option<T>>, table: Seq<Option<Address>>, c: nat)
    requires
        1 <= c < CELLS,
        table.len() == CELLS,
        linked(nodes, table, c),
        cleared(table, c),
        table[c as int] == Some(Address::Enter),
    ensures
        ({
            let now = after_enter(nodes, table, c);
            let cell = if occupied(nodes, 2 * c) {
                2 * c
            } else {
                c
            };
            &&& linked(nodes, now, cell)
            &&& cleared(now, cell)
            &&& remaining(nodes, now, cell) == remaining(nodes, table, c)
            &&& steps_left(nodes, now, cell) + 1 == steps_left(nodes, table, c)
        }),
{
    let resumed = table.update(c as int, Some(Address::AfterLeft));
    let now = after_enter(nodes, table, c);
    lemma_table_frame(nodes, table, resumed, c / 2);
    lemma_table_frame(nodes, table, now, c / 2);
    assert(linked(nodes, resumed, c));
    assert(remaining(nodes, now, c) == pending(nodes, c, Some(Address::AfterLeft)) + remaining(
        nodes,
        table,
        c / 2,
    ));
    assert(under(c, c));
    if occupied(nodes, 2 * c) {
        assert(under(2 * c, 2 * c));
        assert forall|n: int| 0 <= n < CELLS && (#[trigger] now[n]) is Some implies under(
            2 * c,
            n as nat,
        ) by {
            if n != 2 * c && n != c {
                assert(table[n] is Some);
            }
        }
        assert(linked(nodes, now, c));
        assert(linked(nodes, now, 2 * c));
        assert(remaining(nodes, now, 2 * c) == in_order(nodes, 2 * c) + remaining(nodes, now, c));
        assert(steps_left(nodes, now, 2 * c) == visits(nodes, 2 * c) + steps_left(nodes, now, c));
        assert(remaining(nodes, now, 2 * c) =~= remaining(nodes, table, c));
    } else {
        assert(in_order(nodes, 2 * c) =~= Seq::<T>::empty());
        assert(visits(nodes, 2 * c) == 0);
        assert(remaining(nodes, now, c) =~= remaining(nodes, table, c));
    }
}

/// The step after a node's left subtree produces the node's value: it is
/// the first of what remained, and the rest remains.
pub proof fn lemma_yield_step<T>(nodes: Seq<Option<T>>, table: Seq<Option<Address>>, c: nat)
    requires
        1 <= c < CELLS,
        table.len() == CELLS,
        linked(nodes, table, c),
        cleared(table, c),
        table[c as int] == Some(Address::AfterLeft),
    ensures
        ({
            let now = table.update(c as int, Some(Address::ValueYielded));
            &&& linked(nodes, now, c)
            &&& cleared(now, c)
            &&& remaining(nodes, table, c).len() > 0
            &&& Some(remaining(nodes, table, c)[0]) == slot(nodes, c as int)
            &&& remaining(nodes, now, c) == remaining(nodes, table, c).skip(1)
        }),
{
    let now = table.update(c as int, Some(Address::ValueYielded));
    lemma_table_frame(nodes, table, now, c / 2);
    assert(remaining(nodes, now, c) =~= remaining(nodes, table, c).skip(1));
}

/// The step after a node's value moves the traversal to its right child, or
/// leaves it at the node if there is none; it spends one step and changes
/// nothing of what remains to be produced.
pub proof fn lemma_right_step<T>(nodes: Seq<Option<T>>, table: Seq<Option<Address>>, c: nat)
    requires
        1 <= c < CELLS,
        table.len() == CELLS,
        linked(nodes, table, c),
        cleared(table, c),
        table[c as int] == Some(Address::ValueYielded),
    ensures
        ({
            let now = after_value(nodes, table, c);
            let cell = if occupied(nodes, 2 * c + 1) {
                2 * c + 1
            } else {
                c
            };
            &&& linked(nodes, now, cell)
            &&& cleared(now, cell)
            &&& remaining(nodes, now, cell) == remaining(nodes, table, c)
            &&& steps_left(nodes, now, cell) + 1 == steps_left(nodes, table, c)
        }),
{
    let resumed = table.update(c as int, Some(Address::Completed));
    let now = after_value(nodes, table, c);
    lemma_table_frame(nodes, table, resumed, c / 2);
    lemma_table_frame(nodes, table, now, c / 2);
    assert(linked(nodes, resumed, c));
    assert(remaining(nodes, now, c) == pending(nodes, c, Some(Address::Completed)) + remaining(
        nodes,
        table,
        c / 2,
    ));
    assert(under(c, c));
    if occupied(nodes, 2 * c + 1) {
        assert(under(2 * c + 1, 2 * c + 1));
        assert forall|n: int| 0 <= n < CELLS && (#[trigger] now[n]) is Some implies under(
            2 * c + 1,
            n as nat,
        ) by {
            if n != 2 * c + 1 && n != c {
                assert(table[n] is Some);
            }
        }
        assert(linked(nodes, now, c));
        assert(linked(nodes, now, 2 * c + 1));
        assert(remaining(nodes, now, 2 * c + 1) == in_order(nodes, 2 * c + 1) + remaining(
            nodes,
            now,
            c,
        ));
        assert(steps_left(nodes, now, 2 * c + 1) == visits(nodes, 2 * c + 1) + steps_left(
            nodes,
            now,
            c,
        ));
        assert(remaining(nodes, now, 2 * c + 1) =~= remaining(nodes, table, c));
    } else {
        assert(in_order(nodes, 2 * c + 1) =~= Seq::<T>::empty());
        assert(visits(nodes, 2 * c + 1) == 0);
        assert(remaining(nodes, now, c) =~= remaining(nodes, table, c));
    }
}

/// Leaving a completed node moves the traversal to its parent; it spends
/// one step and changes nothing of what remains to be produced.
pub proof fn lemma_leave_step<T>(nodes: Seq<Option<T>>, table: Seq<Option<Address>>, c: nat)
    requires
        1 <= c < CELLS,
        table.len() == CELLS,
        linked(nodes, table, c),
        cleared(table, c),
        table[c as int] == Some(Address::Completed),
    ensures
        ({
            let now = table.update(c as int, None);
            &&& linked(nodes, now, c / 2)
            &&& cleared(now, c / 2)
            &&& remaining(nodes, now, c / 2) == remaining(nodes, table, c)
            &&& steps_left(nodes, now, c / 2) + 1 == steps_left(nodes, table, c)
        }),
{
    let now = table.update(c as int, None);
    lemma_table_frame(nodes, table, now, c / 2);
    assert(remaining(nodes, now, c / 2) =~= remaining(nodes, table, c));
    lemma_cleared_above(table, c);
}

/// A single pass over the values of a tree in ascending order.
pub struct STree8Iter<'a, T> {
    tree: &'a STree8<T>,
    stack: BStack,
    addresses: [Option<Address>; 256],
}

impl<'a, T: Copy> STree8Iter<'a, T> {
    /// The slots of the tree that is walked.
    pub closed spec fn tree(&self) -> Seq<Option<T>> {
        self.tree@
    }

    /// The path from the root to the current node, the root's own entry
    /// first.
    pub closed spec fn path(&self) -> Seq<bool> {
        self.stack@
    }

    /// The phase recorded for each slot.
    pub closed spec fn addresses(&self) -> Seq<Option<Address>> {
        self.addresses@
    }

    /// The slot of the current node, or 0 when the traversal is over.
    pub open spec fn cell(&self) -> nat {
        path_value(self.path())
    }

    /// The path leads from the root to an occupied slot of the tree, and
    /// the table holds a phase for every node on it and for no other slot.
    pub open spec fn wf(&self) -> bool {
        &&& self.tree().len() == CELLS
        &&& self.addresses().len() == CELLS
        &&& self.path().len() > 0 ==> self.path()[0]
        &&& self.cell() < CELLS
        &&& linked(self.tree(), self.addresses(), self.cell())
        &&& cleared(self.addresses(), self.cell())
    }

    /// The values that the traversal has yet to produce, in order.
    pub open spec fn remaining(&self) -> Seq<T> {
        remaining(self.tree(), self.addresses(), self.cell())
    }

    /// The number of steps that the traversal has left.
    pub open spec fn steps_left(&self) -> nat {
        steps_left(self.tree(), self.addresses(), self.cell())
    }

    /// A traversal of `tree` from its start.
    pub fn new(tree: &'a STree8<T>) -> (iterator: STree8Iter<'a, T>)
        ensures
            iterator.wf(),
            iterator.tree() == tree@,
            iterator.remaining() == in_order(tree@, 1),
            iterator.path() == if slot(tree@, 1) is Some {
                seq![true]
            } else {
                Seq::<bool>::empty()
            },
            forall|n: int|
                0 <= n < CELLS ==> #[trigger] iterator.addresses()[n] == if n == 1 && slot(
                    tree@,
                    1,
                ) is Some {
                    Some(Address::Enter)
                } else {
                    None
                },
    {
        let mut iterator = STree8Iter::<'a, T> {
            tree,
            stack: BStack::new(),
            addresses: [None; 256],
        };
        proof {
            tree.lemma_cells();
            lemma2_to64();
            assert(path_value(Seq::<bool>::empty()) == 0);
            assert(path_value(Seq::<bool>::empty().push(true)) == 1) by {
                assert(Seq::<bool>::empty().push(true).drop_last() =~= Seq::<bool>::empty());
            }
        }
        if let Ok(Some(_)) = iterator.tree.peek(1) {
            let _ = iterator.push_branch(Branch::Right, Address::Enter);
            assert(iterator.path() =~= seq![true]);
            assert(remaining(iterator.tree(), iterator.addresses(), 0) =~= Seq::<T>::empty());
            assert(iterator.remaining() =~= in_order(tree@, 1));
            assert(linked(iterator.tree(), iterator.addresses(), 0));
            assert(under(1, 1));
        } else {
            assert(iterator.remaining() =~= in_order(tree@, 1));
        }
        iterator
    }

    /// The bit stack that holds the path.
    pub fn stack(&self) -> (stack: &BStack)
        ensures
            stack@ == self.path(),
    {
        &self.stack
    }

    /// Steps down to the child on the side `branch` and records `address`
    /// for it.
    fn push_branch(&mut self, branch: Branch, address: Address) -> (r: Result<usize, TreeError>)
        requires
            old(self).path().len() < capacity() ==> path_value(
                old(self).path().push(branch == Branch::Right),
            ) < CELLS,
        ensures
            final(self).tree() == old(self).tree(),
            old(self).path().len() >= capacity() ==> r == Err::<usize, TreeError>(
                TreeError::StackError(BStackError::FullStack),
            ) && *final(self) == *old(self),
            old(self).path().len() < capacity() ==> r == Ok::<usize, TreeError>(
                final(self).cell() as usize,
            ) && final(self).path() == old(self).path().push(branch == Branch::Right)
                && final(self).addresses() == old(self).addresses().update(
                final(self).cell() as int,
                Some(address),
            ),
    {
        match self.stack.push(branch == Branch::Right) {
            Ok(_) => {},
            Err(e) => {
                return Err(TreeError::from(e));
            },
        }
        let cell = self.stack.get_state();
        self.addresses[cell] = Some(address);
        Ok(cell)
    }

    /// Puts the node in slot `cell`, which was just popped, back on the
    /// path and records `address` for it.
    fn push_cell(&mut self, cell: usize, address: Address) -> (r: Result<usize, TreeError>)
        requires
            old(self).path().len() < capacity() ==> path_value(
                old(self).path().push(cell % 2 == 1),
            ) < CELLS,
        ensures
            final(self).tree() == old(self).tree(),
            old(self).path().len() >= capacity() ==> r == Err::<usize, TreeError>(
                TreeError::StackError(BStackError::FullStack),
            ) && *final(self) == *old(self),
            old(self).path().len() < capacity() ==> r == Ok::<usize, TreeError>(
                final(self).cell() as usize,
            ) && final(self).path() == old(self).path().push(cell % 2 == 1)
                && final(self).addresses() == old(self).addresses().update(
                final(self).cell() as int,
                Some(address),
            ),
    {
        assert(cell & 1 == cell % 2) by (bit_vector);
        match self.stack.push((cell & 1) == 1) {
            Ok(_) => {},
            Err(e) => {
                return Err(TreeError::from(e));
            },
        }
        let cell = self.stack.get_state();
        self.addresses[cell] = Some(address);
        Ok(cell)
    }

    /// Leaves the current node for its parent: takes the node's phase out
    /// of the table and hands it out together with the node's slot.
    pub fn pop(&mut self) -> (r: Result<(usize, Address), TreeError>)
        requires
            old(self).wf(),
        ensures
            final(self).wf(),
            final(self).tree() == old(self).tree(),
            old(self).path().len() == 0 ==> r == Err::<(usize, Address), TreeError>(
                TreeError::StackError(BStackError::EmptyStack),
            ) && *final(self) == *old(self),
            old(self).path().len() > 0 ==> r == Ok::<(usize, Address), TreeError>(
                (old(self).cell() as usize, old(self).addresses()[old(self).cell() as int]->Some_0),
            ) && final(self).path() == old(self).path().drop_last() && final(self).addresses()
                == old(self).addresses().update(old(self).cell() as int, None)
                && final(self).cell() == old(self).cell() / 2,
    {
        let cell = self.stack.get_state();
        match self.stack.pop() {
            Ok(_) => {},
            Err(e) => {
                return Err(TreeError::from(e));
            },
        }
        proof {
            lemma_path_in_tree(old(self).path());
            lemma_table_frame(
                self.tree(),
                old(self).addresses(),
                old(self).addresses().update(cell as int, None),
                cell as nat / 2,
            );
            assert(linked(self.tree(), old(self).addresses(), cell as nat));
            lemma_cleared_above(old(self).addresses(), cell as nat);
        }
        let address = match self.addresses[cell] {
            Some(address) => address,
            None => {
                return Err(TreeError::MissingReturnAddress(cell));
            },
        };
        self.addresses[cell] = None;
        Ok((cell, address))
    }

    /// Produces the next value of the tree in order, or reports that none
    /// is left.
    #[verifier::rlimit(40)]
    pub fn next_item(&mut self) -> (r: Result<T, TreeError>)
        requires
            old(self).wf(),
        ensures
            final(self).wf(),
            final(self).tree() == old(self).tree(),
            old(self).remaining().len() > 0 ==> r == Ok::<T, TreeError>(old(self).remaining()[0])
                && final(self).remaining() == old(self).remaining().skip(1),
            old(self).remaining().len() == 0 ==> r == Err::<T, TreeError>(
                TreeError::IteratorCompleted,
            ) && final(self).path().len() == 0 && final(self).remaining().len() == 0,
            r matches Ok(value) ==> slot(final(self).tree(), final(self).cell() as int) == Some(
                value,
            ) && final(self).addresses()[final(self).cell() as int] == Some(
                Address::ValueYielded,
            ),
    {
        while self.stack.size() > 0
            invariant
                self.wf(),
                self.tree() == old(self).tree(),
                self.remaining() == old(self).remaining(),
            decreases self.steps_left(),
        {
            let ghost nodes = self.tree();
            let ghost path = self.path();
            let ghost table = self.addresses();
            let (cell, address) = match self.pop() {
                Ok(popped) => popped,
                Err(e) => {
                    return Err(e);
                },
            };
            let ghost c = cell as nat;
            proof {
                lemma_path_in_tree(path);
                lemma_path_value_push(path, false);
                lemma_path_value_push(path, true);
            }
            match address {
                Address::Enter => {
                    assert(cell << 1 == 2 * cell) by (bit_vector)
                        requires
                            cell < 256,
                    ;
                    let left_address = cell << 1;
                    match self.tree.peek(left_address) {
                        Ok(Some(_)) => {
                            match self.push_cell(cell, Address::AfterLeft) {
                                Ok(_) => {},
                                Err(e) => {
                                    return Err(e);
                                },
                            }
                            match self.push_branch(Branch::Left, Address::Enter) {
                                Ok(_) => {},
                                Err(e) => {
                                    return Err(e);
                                },
                            }
                            proof {
                                lemma_enter_step(nodes, table, c);
                                assert(self.addresses() =~= after_enter(nodes, table, c));
                            }
                        },
                        // A slot beyond the array holds no child.
                        Ok(None) | Err(_) => {
                            match self.push_cell(cell, Address::AfterLeft) {
                                Ok(_) => {},
                                Err(e) => {
                                    return Err(e);
                                },
                            }
                            proof {
                                lemma_enter_step(nodes, table, c);
                                assert(self.addresses() =~= after_enter(nodes, table, c));
                            }
                        },
                    }
                },
                Address::AfterLeft => {
                    match self.push_cell(cell, Address::ValueYielded) {
                        Ok(_) => {},
                        Err(e) => {
                            return Err(e);
                        },
                    }
                    proof {
                        lemma_yield_step(nodes, table, c);
                        assert(self.addresses() =~= table.update(
                            c as int,
                            Some(Address::ValueYielded),
                        ));
                    }
                    match self.tree.peek(cell) {
                        Ok(Some(result)) => {
                            return Ok(result);
                        },
                        Ok(None) => {
                            return Err(TreeError::IteratorCompleted);
                        },
                        Err(e) => {
                            return Err(e);
                        },
                    }
                },
                Address::ValueYielded => {
                    assert((cell << 1) | 1 == 2 * cell + 1) by (bit_vector)
                        requires
                            cell < 256,
                    ;
                    let right_address = (cell << 1) | 1;
                    match self.tree.peek(right_address) {
                        Ok(Some(_)) => {
                            match self.push_cell(cell, Address::Completed) {
                                Ok(_) => {},
                                Err(e) => {
                                    return Err(e);
                                },
                            }
                            match self.push_branch(Branch::Right, Address::Enter) {
                                Ok(_) => {},
                                Err(e) => {
                                    return Err(e);
                                },
                            }
                            proof {
                                lemma_right_step(nodes, table, c);
                                assert(self.addresses() =~= after_value(nodes, table, c));
                            }
                        },
                        // A slot beyond the array holds no child.
                        Ok(None) | Err(_) => {
                            match self.push_cell(cell, Address::Completed) {
                                Ok(_) => {},
                                Err(e) => {
                                    return Err(e);
                                },
                            }
                            proof {
                                lemma_right_step(nodes, table, c);
                                assert(self.addresses() =~= after_value(nodes, table, c));
                            }
                        },
                    }
                },
                Address::Completed => {
                    proof {
                        lemma_leave_step(nodes, table, c);
                    }
                },
            }
        }
        proof {
            assert(path_value(Seq::<bool>::empty()) == 0);
            assert(self.path() =~= Seq::<bool>::empty());
        }
        Err(TreeError::IteratorCompleted)
    }

    /// Produces the next value of the tree in order, or `None` when none is
    /// left. A failure of `next_item` of any kind ends the sequence here.
    pub fn next(&mut self) -> (r: Option<T>)
        requires
            old(self).wf(),
        ensures
            final(self).wf(),
            final(self).tree() == old(self).tree(),
            old(self).remaining().len() > 0 ==> r == Some(old(self).remaining()[0])
                && final(self).remaining() == old(self).remaining().skip(1),
            old(self).remaining().len() == 0 ==> r is None && final(self).remaining().len() == 0,
    {
        match self.next_item() {
            Ok(value) => Some(value),
            Err(_) => None,
        }
    }
}

impl<T: Copy> STree8<T> {
    /// A traversal of the tree from its start.
    pub fn into_iter(&self) -> (iterator: STree8Iter<'_, T>)
        ensures
            iterator.wf(),
            iterator.tree() == self@,
            iterator.remaining() == in_order(self@, 1),
            iterator.path() == if slot(self@, 1) is Some {
                seq![true]
            } else {
                Seq::<bool>::empty()
            },
            forall|n: int|
                0 <= n < CELLS ==> #[trigger] iterator.addresses()[n] == if n == 1 && slot(
                    self@,
                    1,
                ) is Some {
                    Some(Address::Enter)
                } else {
                    None
                },
    {
        STree8Iter::new(self)
    }
}

} // verus!
