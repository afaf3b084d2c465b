//! The order on keys.
//!
//! Keys are compared with `Ord::cmp`. Everything proved about the tree
//! assumes that this comparison is a total order whose `Equal` is equality,
//! which is what [`total_order`] says. Of the integer types the verifier
//! knows this without being told.

use core::cmp::Ordering;
use vstd::laws_cmp::obeys_cmp;
use vstd::laws_eq::obeys_concrete_eq;
use vstd::prelude::*;
use vstd::std_specs::cmp::OrdSpec;

verus! {

/// `T`'s comparison is a total order, and two keys compare equal exactly
/// when they are the same value.
pub open spec fn total_order<T: Ord>() -> bool {
    &&& obeys_cmp::<T>()
    &&& obeys_concrete_eq::<T>()
}

/// `a` comes strictly before `b`.
pub open spec fn less<T: Ord>(a: T, b: T) -> bool {
    a.cmp_spec(&b) == Ordering::Less
}

/// Every element comes strictly before each later one.
pub open spec fn strictly_increasing<T: Ord>(s: Seq<T>) -> bool {
    forall|i: int, j: int| 0 <= i < j < s.len() ==> less(#[trigger] s[i], #[trigger] s[j])
}

/// Under a total order, exactly one of `a < b`, `a == b`, `b < a` holds, and
/// `<` is transitive.
pub proof fn lemma_total_order<T: Ord>()
    requires
        total_order::<T>(),
    ensures
        forall|a: T, b: T| #![trigger a.cmp_spec(&b)] a.cmp_spec(&b) == Ordering::Equal <==> a == b,
        forall|a: T, b: T|
            #![trigger a.cmp_spec(&b)]
            a.cmp_spec(&b) == Ordering::Greater <==> less(b, a),
        forall|a: T, b: T, c: T| #[trigger] less(a, b) && #[trigger] less(b, c) ==> less(a, c),
{
    reveal(vstd::laws_cmp::obeys_cmp_ord);
    reveal(vstd::laws_cmp::obeys_partial_cmp_spec_properties);
    reveal(vstd::laws_eq::obeys_concrete_eq);
}

/// Under a total order two keys compare equal exactly when they are the same
/// value.
pub proof fn lemma_equal<T: Ord>(a: T, b: T)
    requires
        total_order::<T>(),
    ensures
        a.cmp_spec(&b) == Ordering::Equal <==> a == b,
{
    lemma_total_order::<T>();
}

/// Under a total order `Ord::cmp` returns what its specification says.
pub proof fn lemma_obeys<T: Ord>()
    requires
        total_order::<T>(),
    ensures
        T::obeys_cmp_spec(),
{
    reveal(vstd::laws_cmp::obeys_cmp_ord);
}

} // verus!
