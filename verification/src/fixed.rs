//! Fixed-point conventions and the integer arithmetic every statistic rests on.
//!
//! Rates (returns, weights, standard deviations, scores) are integers counting
//! millionths; variances and covariances count millionths of millionths.
//! Every division rounds toward negative infinity.

use vstd::prelude::*;
use vstd::arithmetic::div_mod::{
    lemma_div_is_ordered, lemma_div_multiples_vanish, lemma_fundamental_div_mod,
    lemma_fundamental_div_mod_converse,
};

verus! {

/// The fixed-point representation of 1.0.
pub const ONE: u32 = 1_000_000;

/// How far the total of a weight vector may lie from `ONE`.
pub const TOLERANCE: u32 = 1_000;

/// `s` is the square root of `x`, rounded down.
pub open spec fn is_floor_sqrt(x: int, s: int) -> bool {
    0 <= s && s * s <= x < (s + 1) * (s + 1)
}

/// The square root of `x`, rounded down. For negative `x` no such number exists and the
/// value is unspecified.
pub open spec fn floor_sqrt(x: int) -> int {
    choose|s: int| is_floor_sqrt(x, s)
}

proof fn lemma_floor_sqrt_witness(x: int) -> (s: int)
    requires
        0 <= x,
    ensures
        is_floor_sqrt(x, s),
    decreases x,
{
    if x == 0 {
        assert(is_floor_sqrt(0, 0)) by (nonlinear_arith);
        0
    } else {
        let p = lemma_floor_sqrt_witness(x - 1);
        let s = p + 1;
        if s * s <= x {
            assert((s + 1) * (s + 1) > s * s) by (nonlinear_arith)
                requires
                    0 <= s,
            ;
            assert(is_floor_sqrt(x, s));
            s
        } else {
            assert(is_floor_sqrt(x, p));
            p
        }
    }
}

/// Every non-negative integer has exactly one rounded-down square root.
pub proof fn lemma_floor_sqrt(x: int)
    requires
        0 <= x,
    ensures
        is_floor_sqrt(x, floor_sqrt(x)),
        forall|s: int| is_floor_sqrt(x, s) ==> s == floor_sqrt(x),
{
    lemma_floor_sqrt_witness(x);
    let r = floor_sqrt(x);
    assert forall|s: int| is_floor_sqrt(x, s) implies s == r by {
        lemma_floor_sqrt_unique(x, s, r);
    }
}

proof fn lemma_floor_sqrt_unique(x: int, a: int, b: int)
    requires
        is_floor_sqrt(x, a),
        is_floor_sqrt(x, b),
    ensures
        a == b,
{
    if a < b {
        assert((a + 1) * (a + 1) <= b * b) by (nonlinear_arith)
            requires
                0 <= a,
                a + 1 <= b,
        ;
    } else if b < a {
        assert((b + 1) * (b + 1) <= a * a) by (nonlinear_arith)
            requires
                0 <= b,
                b + 1 <= a,
        ;
    }
}

/// A quotient lies between two bounds that the dividend lies between when they are
/// multiplied by the divisor.
pub proof fn lemma_floor_div_bounds(x: int, d: int, lo: int, hi: int)
    requires
        0 < d,
        d * lo <= x <= d * hi,
    ensures
        lo <= x / d <= hi,
{
    lemma_div_is_ordered(d * lo, x, d);
    lemma_div_is_ordered(x, d * hi, d);
    lemma_div_multiples_vanish(lo, d);
    lemma_div_multiples_vanish(hi, d);
}

/// Division by a positive divisor, rounded toward negative infinity.
pub fn floor_div(x: i128, d: i128) -> (q: i128)
    requires
        d > 0,
    ensures
        q == x / d,
{
    if x >= 0 {
        x / d
    } else {
        // -(x + 1) is in 0..=i128::MAX, so nothing below overflows.
        let m: i128 = -(x + 1);
        let t: i128 = m / d;
        let q: i128 = -t - 1;
        proof {
            let r = m as int % d as int;
            assert(m == d * t + r && 0 <= r < d) by {
                lemma_fundamental_div_mod(m as int, d as int);
            }
            assert(x == q * d + (d - 1 - r)) by (nonlinear_arith)
                requires
                    m == d * t + r,
                    m == -(x + 1),
                    q == -t - 1,
            ;
            lemma_fundamental_div_mod_converse(x as int, d as int, q as int, d - 1 - r);
        }
        q
    }
}

/// The difference `pos - neg` divided by a positive divisor, rounded toward negative
/// infinity. The difference itself need not fit in an `i128`; the quotient must.
pub fn floor_div_difference(pos: u128, neg: u128, d: u128) -> (q: i128)
    requires
        d > 0,
        i128::MIN <= (pos - neg) / (d as int) <= i128::MAX,
    ensures
        q == (pos - neg) / (d as int),
{
    if pos >= neg {
        let t: u128 = (pos - neg) / d;
        t as i128
    } else {
        let m: u128 = neg - pos - 1;
        let t: u128 = m / d;
        proof {
            let r = m as int % d as int;
            assert(m == d * t + r && 0 <= r < d) by {
                lemma_fundamental_div_mod(m as int, d as int);
            }
            assert(pos - neg == (-t - 1) * d + (d - 1 - r)) by (nonlinear_arith)
                requires
                    m == d * t + r,
                    m == neg - pos - 1,
            ;
            lemma_fundamental_div_mod_converse(pos - neg, d as int, -t - 1, d - 1 - r);
        }
        -(t as i128) - 1
    }
}

/// The square root of `x`, rounded down.
pub fn isqrt(x: u128) -> (s: u64)
    ensures
        s == floor_sqrt(x as int),
        is_floor_sqrt(x as int, s as int),
{
    let mut lo: u128 = 0;
    let mut hi: u128 = 0x1_0000_0000_0000_0000;
    assert(hi * hi > x) by (nonlinear_arith)
        requires
            hi == 0x1_0000_0000_0000_0000,
            x <= u128::MAX,
    ;
    while hi - lo > 1
        invariant
            lo < hi <= 0x1_0000_0000_0000_0000,
            lo * lo <= x < hi * hi,
        decreases hi - lo,
    {
        let mid: u128 = lo + (hi - lo) / 2;
        assert(mid * mid < 0x1_0000_0000_0000_0000 * 0x1_0000_0000_0000_0000) by (nonlinear_arith)
            requires
                0 <= mid < 0x1_0000_0000_0000_0000,
        ;
        if mid * mid <= x {
            lo = mid;
        } else {
            hi = mid;
        }
    }
    proof {
        assert(hi == lo + 1);
        assert(is_floor_sqrt(x as int, lo as int));
        lemma_floor_sqrt(x as int);
    }
    lo as u64
}

} // verus!
