//! A stack of booleans packed into one machine word.
//!
//! The highest set bit of the word is a sentinel marking the bottom of the
//! stack; every bit below it is a stored value, the most recent push in the
//! least significant position.

use vstd::arithmetic::power2::{lemma2_to64, lemma_pow2_unfold, pow2};
use vstd::prelude::*;

verus! {

/// Number of binary digits of `w`: zero for zero, otherwise one more than
/// the base-2 logarithm of `w` rounded down.
pub open spec fn bit_length(w: nat) -> nat
    decreases w,
{
    if w == 0 {
        0
    } else {
        1 + bit_length(w / 2)
    }
}

/// The booleans stored in the word `w`, oldest first: the binary digits of
/// `w` below its highest set bit.
pub open spec fn bits_of(w: nat) -> Seq<bool>
    decreases w,
{
    if w <= 1 {
        Seq::empty()
    } else {
        bits_of(w / 2).push(w % 2 == 1)
    }
}

/// The number whose binary digits are `s`, oldest entry most significant.
pub open spec fn path_value(s: Seq<bool>) -> nat
    decreases s.len(),
{
    if s.len() == 0 {
        0
    } else {
        2 * path_value(s.drop_last()) + if s.last() { 1nat } else { 0nat }
    }
}

/// Largest number of booleans a stack can hold: one less than the width of
/// the machine word.
pub open spec fn capacity() -> nat {
    (usize::BITS - 1) as nat
}

/// What `push` returns on a stack that holds `s`.
pub open spec fn push_result(s: Seq<bool>, value: bool) -> Result<bool, BStackError> {
    if s.len() < capacity() {
        Ok(value)
    } else {
        Err(BStackError::FullStack)
    }
}

/// What a stack that held `s` holds after `push`.
pub open spec fn after_push(s: Seq<bool>, value: bool) -> Seq<bool> {
    if s.len() < capacity() {
        s.push(value)
    } else {
        s
    }
}

/// What `top` and `pop` return on a stack that holds `s`.
pub open spec fn top_result(s: Seq<bool>) -> Result<bool, BStackError> {
    if s.len() > 0 {
        Ok(s.last())
    } else {
        Err(BStackError::EmptyStack)
    }
}

/// What a stack that held `s` holds after `pop`.
pub open spec fn after_pop(s: Seq<bool>) -> Seq<bool> {
    if s.len() > 0 {
        s.drop_last()
    } else {
        s
    }
}

/// A successful push followed by a pop gives back the pushed value and
/// leaves the stack as it was before the push, its size included; `top`
/// after the push sees the pushed value.
pub proof fn lemma_pop_undoes_push(s: Seq<bool>, value: bool)
    requires
        s.len() < capacity(),
    ensures
        push_result(s, value) == Ok::<bool, BStackError>(value),
        top_result(after_push(s, value)) == Ok::<bool, BStackError>(value),
        after_pop(after_push(s, value)) == s,
        after_pop(after_push(s, value)).len() == s.len(),
{
    assert(s.push(value).drop_last() =~= s);
}

/// A successful push makes the stack one entry larger, a successful pop one
/// entry smaller, and a failed one of either leaves the size as it was.
pub proof fn lemma_size_steps(s: Seq<bool>, value: bool)
    ensures
        push_result(s, value) is Ok ==> after_push(s, value).len() == s.len() + 1,
        push_result(s, value) is Err ==> after_push(s, value).len() == s.len(),
        top_result(s) is Ok ==> after_pop(s).len() == s.len() - 1,
        top_result(s) is Err ==> after_pop(s).len() == s.len(),
{
}

/// Nothing can be taken or read from a stack without entries.
pub proof fn lemma_empty_stack(s: Seq<bool>)
    requires
        s.len() == 0,
    ensures
        top_result(s) == Err::<bool, BStackError>(BStackError::EmptyStack),
        after_pop(s) == s,
{
}

/// A push on a stack that holds as many entries as the word has room for
/// fails and changes nothing.
pub proof fn lemma_push_on_full(s: Seq<bool>, value: bool)
    requires
        s.len() == capacity(),
    ensures
        push_result(s, value) == Err::<bool, BStackError>(BStackError::FullStack),
        after_push(s, value) == s,
{
}

/// `usize::leading_zeros` counts the zero digits above the highest set bit
/// of its argument, so together with the argument's binary digits it makes
/// up the full width of the word.
pub assume_specification[ usize::leading_zeros ](i: usize) -> (r: u32)
    ensures
        r == usize::BITS - bit_length(i as nat),
;

/// A word with `bit_length` digits lies between the two neighbouring powers
/// of two.
pub proof fn lemma_bit_length_bounds(w: nat)
    requires
        w >= 1,
    ensures
        bit_length(w) >= 1,
        pow2((bit_length(w) - 1) as nat) <= w < pow2(bit_length(w)),
    decreases w,
{
    lemma2_to64();
    if w == 1 {
        assert(bit_length(0) == 0);
        assert(bit_length(1) == 1);
    } else {
        lemma_bit_length_bounds(w / 2);
        lemma_pow2_unfold(bit_length(w));
        lemma_pow2_unfold((bit_length(w) - 1) as nat);
    }
}

/// A larger number has no fewer binary digits.
pub proof fn lemma_bit_length_monotone(a: nat, b: nat)
    requires
        a <= b,
    ensures
        bit_length(a) <= bit_length(b),
    decreases b,
{
    if a > 0 {
        lemma_bit_length_monotone(a / 2, b / 2);
    }
}

/// A word holds one stored boolean fewer than it has binary digits, and is
/// recovered from them by putting the sentinel back on top.
pub proof fn lemma_bits_of(w: nat)
    requires
        w >= 1,
    ensures
        bits_of(w).len() == bit_length(w) - 1,
        w == pow2(bits_of(w).len()) + path_value(bits_of(w)),
        path_value(bits_of(w)) < pow2(bits_of(w).len()),
    decreases w,
{
    lemma2_to64();
    if w == 1 {
        assert(bit_length(0) == 0);
        assert(bit_length(1) == 1);
    } else {
        lemma_bits_of(w / 2);
        let s = bits_of(w);
        assert(s.drop_last() =~= bits_of(w / 2));
        lemma_pow2_unfold(s.len());
    }
}

/// A path that starts with a set entry has a value with exactly as many
/// binary digits as the path has entries: the first entry is the leading
/// digit, so the value of such a path is a 1-based node index.
pub proof fn lemma_path_value_bounds(s: Seq<bool>)
    requires
        s.len() > 0,
        s[0],
    ensures
        pow2((s.len() - 1) as nat) <= path_value(s) < pow2(s.len()),
    decreases s.len(),
{
    lemma2_to64();
    if s.len() == 1 {
        assert(path_value(s.drop_last()) == 0);
    } else {
        lemma_path_value_bounds(s.drop_last());
        lemma_pow2_unfold(s.len());
        lemma_pow2_unfold((s.len() - 1) as nat);
    }
}

/// Pushing an entry doubles the value of a path and adds the entry.
pub proof fn lemma_path_value_push(s: Seq<bool>, b: bool)
    ensures
        path_value(s.push(b)) == 2 * path_value(s) + if b { 1nat } else { 0nat },
{
    assert(s.push(b).drop_last() =~= s);
}

/// The stored booleans of a word are the path whose value, below the
/// sentinel, the word holds: reading a path back from its word loses
/// nothing.
pub proof fn lemma_bits_of_path(s: Seq<bool>)
    ensures
        path_value(s) < pow2(s.len()),
        bits_of(pow2(s.len()) + path_value(s)) == s,
    decreases s.len(),
{
    lemma2_to64();
    if s.len() == 0 {
        assert(bits_of(1) =~= s);
    } else {
        lemma_bits_of_path(s.drop_last());
        lemma_pow2_unfold(s.len());
        let w = pow2(s.len()) + path_value(s);
        let h = pow2((s.len() - 1) as nat) + path_value(s.drop_last());
        assert(w / 2 == h);
        assert(bits_of(w) =~= bits_of(h).push(s.last()));
        assert(s.drop_last().push(s.last()) =~= s);
    }
}

#[derive(Clone, Copy, Debug, PartialEq, Eq, Structural)]
pub enum BStackError {
    /// Nothing to pop or to read.
    EmptyStack,
    /// No room for another entry below the sentinel.
    FullStack,
}

/// A stack of at most `capacity()` booleans in one word.
pub struct BStack {
    stack: usize,
}

impl View for BStack {
    type V = Seq<bool>;

    /// The stored booleans, oldest first; the last entry is the top.
    closed spec fn view(&self) -> Seq<bool> {
        bits_of(self.stack as nat)
    }
}

impl BStack {
    #[verifier::type_invariant]
    spec fn sentinel_present(self) -> bool {
        self.stack >= 1
    }

    /// The empty stack: the sentinel alone.
    pub fn new() -> (s: BStack)
        ensures
            s@ == Seq::<bool>::empty(),
    {
        BStack { stack: 1 }
    }

    /// Puts `value` on top and returns it, unless the stack is full.
    pub fn push(&mut self, value: bool) -> (r: Result<bool, BStackError>)
        ensures
            r == push_result(old(self)@, value),
            final(self)@ == after_push(old(self)@, value),
            r is Err ==> *final(self) == *old(self),
    {
        proof {
            use_type_invariant(&*self);
        }
        if self.size() == usize::BITS - 1 {
            return Err(BStackError::FullStack);
        }
        let ghost w = self.stack;
        proof {
            lemma_bit_length_bounds(w as nat);
            lemma_bits_of(w as nat);
            vstd::layout::unsigned_int_max_values();
            lemma_pow2_unfold(usize::BITS as nat);
            vstd::arithmetic::power2::lemma_pow2_strictly_increases(
                bit_length(w as nat),
                usize::BITS as nat,
            );
            if bit_length(w as nat) < usize::BITS - 1 {
                vstd::arithmetic::power2::lemma_pow2_strictly_increases(
                    bit_length(w as nat),
                    (usize::BITS - 1) as nat,
                );
            }
            assert(w < pow2((usize::BITS - 1) as nat));
            assert(2 * w + 1 <= usize::MAX);
            lemma2_to64();
            vstd::bits::lemma_usize_shl_is_mul(w, 1);
        }
        self.stack <<= 1;
        assert(self.stack == 2 * w);
        if value {
            self.stack += 1;
        }
        assert(self@ =~= old(self)@.push(value));
        Ok(value)
    }

    /// The entry on top, unless the stack is empty.
    pub fn top(&self) -> (r: Result<bool, BStackError>)
        ensures
            r == top_result(self@),
    {
        proof {
            use_type_invariant(self);
            lemma_bits_of(self.stack as nat);
            lemma_bit_length_bounds(self.stack as nat);
            lemma2_to64();
        }
        if self.stack == 1 {
            return Err(BStackError::EmptyStack);
        }
        let w = self.stack;
        assert(w & 1 == w % 2) by (bit_vector);
        Ok((self.stack & 1) == 1)
    }

    /// Takes the entry on top off and returns it, unless the stack is empty.
    pub fn pop(&mut self) -> (r: Result<bool, BStackError>)
        ensures
            r == top_result(old(self)@),
            final(self)@ == after_pop(old(self)@),
            r is Err ==> *final(self) == *old(self),
    {
        proof {
            use_type_invariant(&*self);
            lemma_bits_of(self.stack as nat);
            lemma_bit_length_bounds(self.stack as nat);
            lemma2_to64();
        }
        if self.stack == 1 {
            return Err(BStackError::EmptyStack);
        }
        let w = self.stack;
        assert(w & 1 == w % 2) by (bit_vector);
        assert(w >> 1 == w / 2) by (bit_vector);
        let result = (self.stack & 1) == 1;
        self.stack >>= 1;
        assert(self@ =~= old(self)@.drop_last());
        Ok(result)
    }

    /// The number of entries.
    pub fn size(&self) -> (n: u32)
        ensures
            n == self@.len(),
            n <= capacity(),
    {
        proof {
            use_type_invariant(self);
            lemma_bits_of(self.stack as nat);
        }
        usize::BITS - usize::leading_zeros(self.stack) - 1
    }

    /// The entries read as a binary number, without the sentinel.
    pub fn get_state(&self) -> (v: usize)
        ensures
            v == path_value(self@),
    {
        let k: usize = self.size() as usize;
        let w = self.stack;
        proof {
            use_type_invariant(self);
            lemma_bits_of(w as nat);
            lemma_bit_length_bounds(w as nat);
            vstd::layout::unsigned_int_max_values();
            vstd::bits::lemma_usize_shl_is_mul(1usize, k);
            vstd::bits::lemma_usize_shr_is_div(w, k);
            let p = pow2(k as nat) as int;
            assert(w as int / p == 1) by (nonlinear_arith)
                requires
                    0 < p <= w < 2 * p,
            ;
        }
        let bit: usize = 1usize << k;
        assert(w ^ (1usize << k) == w - (1usize << k)) by (bit_vector)
            requires
                w >> k == 1usize,
                k < usize::BITS,
        ;
        self.stack ^ bit
    }
}

} // verus!
