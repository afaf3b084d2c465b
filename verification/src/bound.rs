//! How high a balanced tree can be for the number of keys it holds.

use crate::shape::Shape;
use vstd::arithmetic::power::{
    lemma_pow_distributes,
    lemma_pow_multiplies,
    lemma_pow_positive,
    pow,
};
use vstd::prelude::*;

verus! {

/// The least number of keys that a balanced tree of height `h` can hold: one
/// for the root, the least for a subtree of height `h - 1`, and the least
/// for one of height `h - 2`.
pub open spec fn min_size(h: nat) -> nat
    decreases h,
{
    if h == 0 {
        0
    } else if h == 1 {
        1
    } else {
        min_size((h - 1) as nat) + min_size((h - 2) as nat) + 1
    }
}

/// A tree is at most as high as it has keys, and counts at most as many
/// leaves.
pub proof fn lemma_size_covers<T>(s: Shape<T>)
    ensures
        s.height() <= s.size(),
        s.leaves() <= s.size(),
    decreases s,
{
    match s {
        Shape::Nil => {},
        Shape::Fork { left, right, .. } => {
            lemma_size_covers(*left);
            lemma_size_covers(*right);
        },
    }
}

/// A tree counts at most half as many leaves as it has keys, rounded up.
pub proof fn lemma_leaves_half<T>(s: Shape<T>)
    ensures
        2 * s.leaves() <= s.size() + 1,
    decreases s,
{
    match s {
        Shape::Nil => {},
        Shape::Fork { left, right, .. } => {
            lemma_leaves_half(*left);
            lemma_leaves_half(*right);
        },
    }
}

/// Two more keys are needed for every level at least:
/// `min_size(h) + 2 >= 2 * h`.
pub proof fn lemma_min_size_doubles(h: nat)
    ensures
        2 * h <= min_size(h) + 2,
    decreases h,
{
    reveal_with_fuel(min_size, 4);
    if h >= 4 {
        lemma_min_size_doubles((h - 2) as nat);
    }
}

/// A higher tree needs at least as many keys.
pub proof fn lemma_min_size_increases(a: nat, b: nat)
    requires
        a <= b,
    ensures
        min_size(a) <= min_size(b),
    decreases b,
{
    if a < b {
        lemma_min_size_increases(a, (b - 1) as nat);
    }
}

/// A balanced tree of height `h` holds at least `min_size(h)` keys.
pub proof fn lemma_balanced_size<T>(s: Shape<T>)
    requires
        s.balanced(),
    ensures
        min_size(s.height()) <= s.size(),
    decreases s,
{
    match s {
        Shape::Nil => {},
        Shape::Fork { left, right, .. } => {
            lemma_balanced_size(*left);
            lemma_balanced_size(*right);
            let h = s.height();
            // The lower subtree is lower by 1 at most. Where the right one
            // is the higher, the left one is lower by 1 exactly.
            if h >= 2 && left.height() >= right.height() {
                lemma_min_size_increases((h - 2) as nat, right.height());
            }
        },
    }
}

/// With every level the least size grows by the factor 21/13 at least:
/// `min_size(h) + 1 >= (21/13)^h`.
pub proof fn lemma_min_size_grows(h: nat)
    ensures
        pow(21, h) <= pow(13, h) * (min_size(h) + 1),
    decreases h,
{
    reveal(pow);
    if h == 1 {
        reveal_with_fuel(pow, 2);
        assert(pow(21, 1) == 21 && pow(13, 1) == 13);
    } else if h >= 2 {
        let a = (h - 1) as nat;
        let b = (h - 2) as nat;
        lemma_min_size_grows(a);
        lemma_min_size_grows(b);
        let ga = min_size(a) + 1;
        let gb = min_size(b) + 1;
        assert(min_size(h) + 1 == ga + gb);
        let pa = pow(13, a);
        let pb = pow(13, b);
        let qb = pow(21, b);
        lemma_pow_positive(21, b);
        assert(pow(13, h) * (ga + gb) >= pow(21, h)) by (nonlinear_arith)
            requires
                pow(13, h) == 13 * pa,
                pa == 13 * pb,
                pow(21, h) == 441 * qb,
                21 * qb <= pa * ga,
                qb <= pb * gb,
                qb > 0,
        ;
    }
}

/// A greater base gives a greater power.
pub proof fn lemma_pow_base_increases(a: int, b: int, e: nat)
    requires
        0 <= a <= b,
    ensures
        0 <= pow(a, e) <= pow(b, e),
    decreases e,
{
    reveal(pow);
    if e > 0 {
        lemma_pow_base_increases(a, b, (e - 1) as nat);
        let x = pow(a, (e - 1) as nat);
        let y = pow(b, (e - 1) as nat);
        assert(0 <= a * x <= b * y) by (nonlinear_arith)
            requires
                0 <= a <= b,
                0 <= x <= y,
        ;
    }
}

/// `(21/13)^29 >= 2^20`.
proof fn lemma_factor()
    ensures
        pow(2, 20) * pow(13, 29) <= pow(21, 29),
{
    reveal_with_fuel(pow, 30);
    assert(pow(2, 20) == 1048576);
    assert(pow(13, 29) == 201538126434611150798503956371773);
    assert(pow(21, 29) == 220983347100817338120002444455525554981);
}

/// The height of a balanced tree with `n` keys is at most
/// `1.45 * log2(n + 2)`.
///
/// The bound is stated without logarithms. `h <= 1.45 * log2(n + 2)` says
/// that `20 * h <= 29 * log2(n + 2)`, which is `2^(20 * h) <= (n + 2)^29`.
pub proof fn lemma_height_bound<T>(s: Shape<T>)
    requires
        s.balanced(),
    ensures
        pow(2, 20 * s.height()) <= pow((s.size() + 2) as int, 29),
{
    let h = s.height();
    let g = min_size(h) + 1;
    lemma_balanced_size(s);
    lemma_min_size_grows(h);
    lemma_factor();
    lemma_pow_positive(21, h);
    lemma_pow_positive(2, 20);
    lemma_pow_positive(13, 29);
    // (21^h)^29 <= (13^h * g)^29 = 13^(29h) * g^29
    lemma_pow_base_increases(pow(21, h), pow(13, h) * g, 29);
    lemma_pow_distributes(pow(13, h), g as int, 29);
    // (2^20 * 13^29)^h <= (21^29)^h, and the left side is 2^(20h) * 13^(29h)
    lemma_pow_base_increases(pow(2, 20) * pow(13, 29), pow(21, 29), h);
    lemma_pow_distributes(pow(2, 20), pow(13, 29), h);
    lemma_pow_multiplies(2, 20, h);
    lemma_pow_multiplies(13, 29, h);
    lemma_pow_multiplies(21, 29, h);
    lemma_pow_multiplies(13, h, 29);
    lemma_pow_multiplies(21, h, 29);
    assert(29 * h == h * 29) by (nonlinear_arith);
    // Together: 2^(20h) * 13^(29h) <= 13^(29h) * g^29
    let c = pow(13, 29 * h);
    lemma_pow_positive(13, 29 * h);
    assert(pow(2, 20 * h) * c <= c * pow(g as int, 29));
    assert(pow(2, 20 * h) <= pow(g as int, 29)) by (nonlinear_arith)
        requires
            c > 0,
            pow(2, 20 * h) * c <= c * pow(g as int, 29),
    ;
    lemma_pow_base_increases(g as int, (s.size() + 2) as int, 29);
}

} // verus!
