//! What the tree asks of the order on its element type, as spec functions
//! over std's comparison traits.

use std::cmp::Ordering;
use vstd::prelude::*;
use vstd::std_specs::cmp::{OrdSpec, PartialEqSpec, PartialOrdSpec};

verus! {

/// `a` is strictly less than `b`.
pub open spec fn lt<T: Ord>(a: T, b: T) -> bool {
    a.partial_cmp_spec(&b) == Some(Ordering::Less)
}

/// `a` is strictly greater than `b`.
pub open spec fn gt<T: Ord>(a: T, b: T) -> bool {
    a.partial_cmp_spec(&b) == Some(Ordering::Greater)
}

/// `a` and `b` compare as equal.
pub open spec fn equiv<T: Ord>(a: T, b: T) -> bool {
    a.eq_spec(&b)
}

/// The comparison operators of `T` compute what their spec functions say.
pub open spec fn comparisons_specified<T: Ord>() -> bool {
    T::obeys_eq_spec() && T::obeys_partial_cmp_spec()
}

/// The comparisons of `T` are specified and form a total order.
pub open spec fn total_order<T: Ord>() -> bool {
    vstd::laws_cmp::obeys_cmp::<T>()
}

/// In a total order exactly one of less, equal and greater holds of any two
/// values, and greater is less with the sides exchanged.
pub proof fn lemma_trichotomy<T: Ord>(a: T, b: T)
    requires
        total_order::<T>(),
    ensures
        comparisons_specified::<T>(),
        gt(a, b) == lt(b, a),
        gt(b, a) == lt(a, b),
        equiv(a, b) == equiv(b, a),
        lt(a, b) || equiv(a, b) || lt(b, a),
        !(lt(a, b) && equiv(a, b)),
        !(lt(b, a) && equiv(a, b)),
        !(lt(a, b) && lt(b, a)),
{
    reveal(vstd::laws_eq::obeys_eq_spec_properties);
    reveal(vstd::laws_cmp::obeys_partial_cmp_spec_properties);
    reveal(vstd::laws_cmp::obeys_cmp_partial_ord);
    reveal(vstd::laws_cmp::obeys_cmp_ord);
    let ab = a.partial_cmp_spec(&b);
    let ba = b.partial_cmp_spec(&a);
    assert(ab == Some(a.cmp_spec(&b)));
    assert(ba == Some(b.cmp_spec(&a)));
    assert(ab == Some(Ordering::Less) <==> ba == Some(Ordering::Greater));
    assert(ba == Some(Ordering::Less) <==> ab == Some(Ordering::Greater));
    assert(ab == Some(Ordering::Equal) <==> a.eq_spec(&b));
    assert(ba == Some(Ordering::Equal) <==> b.eq_spec(&a));
}

/// Every value compares as equal to itself.
pub proof fn lemma_equiv_reflexive<T: Ord>(a: T)
    requires
        total_order::<T>(),
    ensures
        equiv(a, a),
        !lt(a, a),
{
    lemma_trichotomy(a, a);
}

/// Less-than is transitive.
pub proof fn lemma_lt_transitive<T: Ord>(a: T, b: T, c: T)
    requires
        total_order::<T>(),
        lt(a, b),
        lt(b, c),
    ensures
        lt(a, c),
{
    reveal(vstd::laws_cmp::obeys_partial_cmp_spec_properties);
}

} // verus!
