//! What the statistics of return series are, as functions of the series alone.
//!
//! A series is a sequence of returns counted in millionths. Means are counted in
//! millionths too; variances and covariances in millionths of millionths.

use vstd::prelude::*;
use crate::error::EvaluationError;
use crate::fixed::{floor_sqrt, lemma_floor_div_bounds};
use vstd::arithmetic::div_mod::{
    lemma_div_multiples_vanish, lemma_div_pos_is_pos, lemma_fundamental_div_mod,
};

verus! {

/// The sum of the first `n` returns of `s`.
pub open spec fn partial_sum(s: Seq<i32>, n: nat) -> int
    decreases n,
{
    if n == 0 {
        0
    } else {
        partial_sum(s, (n - 1) as nat) + s[n - 1]
    }
}

/// The arithmetic mean of `s`, rounded down.
pub open spec fn mean(s: Seq<i32>) -> int {
    partial_sum(s, s.len()) / (s.len() as int)
}

/// The sum, over the first `n` periods, of the squared distance of `s` from `center`.
pub open spec fn squared_deviations(s: Seq<i32>, center: int, n: nat) -> int
    decreases n,
{
    if n == 0 {
        0
    } else {
        squared_deviations(s, center, (n - 1) as nat) + (s[n - 1] - center) * (s[n - 1] - center)
    }
}

/// The sum, over the first `n` periods, of the product of the distances of `a` from
/// `center_a` and of `b` from `center_b`.
pub open spec fn cross_deviations(
    a: Seq<i32>,
    center_a: int,
    b: Seq<i32>,
    center_b: int,
    n: nat,
) -> int
    decreases n,
{
    if n == 0 {
        0
    } else {
        cross_deviations(a, center_a, b, center_b, (n - 1) as nat) + (a[n - 1] - center_a) * (b[n
            - 1] - center_b)
    }
}

/// The variance of `s` around its mean with the population denominator, rounded down.
pub open spec fn population_variance(s: Seq<i32>) -> int {
    squared_deviations(s, mean(s), s.len()) / (s.len() as int)
}

/// The variance of `s` around its mean with Bessel's correction, rounded down.
pub open spec fn sample_variance(s: Seq<i32>) -> int {
    squared_deviations(s, mean(s), s.len()) / (s.len() - 1)
}

/// The number of periods that `a` and `b` share: the length of the shorter one.
pub open spec fn common_length(a: Seq<i32>, b: Seq<i32>) -> nat {
    if a.len() <= b.len() {
        a.len()
    } else {
        b.len()
    }
}

/// The covariance of `a` and `b` over the periods they share, each centered on the mean
/// of its whole series, with Bessel's correction, rounded down.
pub open spec fn sample_covariance(a: Seq<i32>, b: Seq<i32>) -> int {
    cross_deviations(a, mean(a), b, mean(b), common_length(a, b)) / (common_length(a, b) - 1)
}

/// The mean of a series, or why it has none.
pub open spec fn mean_of(s: Seq<i32>) -> Result<int, EvaluationError> {
    if s.len() == 0 {
        Err(EvaluationError::EmptySeries)
    } else {
        Ok(mean(s))
    }
}

/// The population variance of a series, or why it has none.
pub open spec fn variance_of(s: Seq<i32>) -> Result<int, EvaluationError> {
    if s.len() == 0 {
        Err(EvaluationError::EmptySeries)
    } else {
        Ok(population_variance(s))
    }
}

/// The standard deviation of a series, the square root of its population variance
/// rounded down, or why it has none.
pub open spec fn deviation_of(s: Seq<i32>) -> Result<int, EvaluationError> {
    if s.len() == 0 {
        Err(EvaluationError::EmptySeries)
    } else {
        Ok(floor_sqrt(population_variance(s)))
    }
}

/// The sample covariance of two series, or why they have none.
pub open spec fn covariance_of(a: Seq<i32>, b: Seq<i32>) -> Result<int, EvaluationError> {
    if a.len() == 0 || b.len() == 0 {
        Err(EvaluationError::EmptySeries)
    } else if a.len() == 1 || b.len() == 1 {
        Err(EvaluationError::InsufficientData)
    } else {
        Ok(sample_covariance(a, b))
    }
}

/// The largest magnitude that the distance of a return from a mean can have, squared.
pub open spec fn deviation_product_bound() -> int {
    0x1_0000_0000_0000_0000
}

/// The largest magnitude that a covariance can have.
pub open spec fn covariance_bound() -> int {
    2 * deviation_product_bound()
}

/// A partial sum lies within the range of its returns, times their number.
pub proof fn lemma_partial_sum_bounds(s: Seq<i32>, n: nat)
    requires
        n <= s.len(),
    ensures
        n * i32::MIN <= partial_sum(s, n) <= n * i32::MAX,
    decreases n,
{
    if n > 0 {
        lemma_partial_sum_bounds(s, (n - 1) as nat);
        assert((n - 1) * i32::MIN + i32::MIN == n * i32::MIN) by (nonlinear_arith);
        assert((n - 1) * i32::MAX + i32::MAX == n * i32::MAX) by (nonlinear_arith);
    }
}

/// The mean is the largest integer that, taken once for every period, does not exceed
/// the sum of the returns.
pub proof fn lemma_mean_rounds_down(s: Seq<i32>)
    requires
        s.len() > 0,
    ensures
        s.len() * mean(s) <= partial_sum(s, s.len()) < s.len() * (mean(s) + 1),
{
    let n = s.len() as int;
    let sum = partial_sum(s, s.len());
    lemma_fundamental_div_mod(sum, n);
    assert(n * (sum / n + 1) == n * (sum / n) + n) by (nonlinear_arith);
}

/// The mean of a series lies within the range of its returns.
pub proof fn lemma_mean_bounds(s: Seq<i32>)
    requires
        s.len() > 0,
    ensures
        i32::MIN <= mean(s) <= i32::MAX,
{
    lemma_partial_sum_bounds(s, s.len());
    lemma_floor_div_bounds(
        partial_sum(s, s.len()),
        s.len() as int,
        i32::MIN as int,
        i32::MAX as int,
    );
}

/// The product of two distances between a return and a mean stays under the bound.
pub proof fn lemma_deviation_product_bounds(x: int, center_x: int, y: int, center_y: int)
    requires
        i32::MIN <= x <= i32::MAX,
        i32::MIN <= center_x <= i32::MAX,
        i32::MIN <= y <= i32::MAX,
        i32::MIN <= center_y <= i32::MAX,
    ensures
        -deviation_product_bound() < (x - center_x) * (y - center_y) < deviation_product_bound(),
{
    let dx = x - center_x;
    let dy = y - center_y;
    assert(-0x1_0000_0000_0000_0000 < dx * dy < 0x1_0000_0000_0000_0000) by (nonlinear_arith)
        requires
            -0xffff_ffff <= dx <= 0xffff_ffff,
            -0xffff_ffff <= dy <= 0xffff_ffff,
    ;
}

/// Deviations of a series multiplied with themselves are its squared deviations.
pub proof fn lemma_cross_deviations_of_self(s: Seq<i32>, center: int, n: nat)
    ensures
        cross_deviations(s, center, s, center, n) == squared_deviations(s, center, n),
    decreases n,
{
    if n > 0 {
        lemma_cross_deviations_of_self(s, center, (n - 1) as nat);
    }
}

/// The covariance of a series with itself is its variance with Bessel's correction.
pub proof fn lemma_covariance_of_self(s: Seq<i32>)
    requires
        s.len() >= 2,
    ensures
        sample_covariance(s, s) == sample_variance(s),
        covariance_of(s, s) == Ok::<int, EvaluationError>(sample_variance(s)),
{
    lemma_cross_deviations_of_self(s, mean(s), s.len());
}

/// Swapping the two series leaves the sum of their deviation products unchanged.
pub proof fn lemma_cross_deviations_symmetric(
    a: Seq<i32>,
    center_a: int,
    b: Seq<i32>,
    center_b: int,
    n: nat,
)
    ensures
        cross_deviations(a, center_a, b, center_b, n) == cross_deviations(
            b,
            center_b,
            a,
            center_a,
            n,
        ),
    decreases n,
{
    if n > 0 {
        lemma_cross_deviations_symmetric(a, center_a, b, center_b, (n - 1) as nat);
        assert((a[n - 1] - center_a) * (b[n - 1] - center_b) == (b[n - 1] - center_b) * (a[n - 1]
            - center_a)) by (nonlinear_arith);
    }
}

/// Covariance does not depend on the order of its two series.
pub proof fn lemma_covariance_symmetric(a: Seq<i32>, b: Seq<i32>)
    ensures
        sample_covariance(a, b) == sample_covariance(b, a),
        covariance_of(a, b) == covariance_of(b, a),
{
    lemma_cross_deviations_symmetric(a, mean(a), b, mean(b), common_length(a, b));
}

/// Every period of `s` has the same return.
pub open spec fn constant(s: Seq<i32>) -> bool {
    forall|i: int, j: int| 0 <= i < s.len() && 0 <= j < s.len() ==> s[i] == s[j]
}

/// The mean of a series that never changes is the return of each of its periods.
pub proof fn lemma_constant_mean(s: Seq<i32>)
    requires
        constant(s),
        s.len() > 0,
    ensures
        mean(s) == s[0],
{
    lemma_constant_partial_sum(s, s.len());
    lemma_div_multiples_vanish(s[0] as int, s.len() as int);
}

proof fn lemma_constant_partial_sum(s: Seq<i32>, n: nat)
    requires
        constant(s),
        0 < s.len(),
        n <= s.len(),
    ensures
        partial_sum(s, n) == n * s[0],
    decreases n,
{
    if n > 0 {
        lemma_constant_partial_sum(s, (n - 1) as nat);
        assert(s[n - 1] == s[0]);
        assert((n - 1) * s[0] + s[0] == n * s[0]) by (nonlinear_arith);
    } else {
        assert(0 * s[0] == 0) by (nonlinear_arith);
    }
}

/// A series that never changes has no covariance with any series.
pub proof fn lemma_constant_covariance(a: Seq<i32>, b: Seq<i32>)
    requires
        constant(a),
        a.len() >= 2,
        b.len() >= 2,
    ensures
        sample_covariance(a, b) == 0,
        sample_covariance(b, a) == 0,
{
    lemma_constant_mean(a);
    lemma_constant_cross_deviations(a, b, mean(b), common_length(a, b));
    lemma_covariance_symmetric(a, b);
}

proof fn lemma_constant_cross_deviations(a: Seq<i32>, b: Seq<i32>, center_b: int, n: nat)
    requires
        constant(a),
        0 < a.len(),
        n <= a.len(),
    ensures
        cross_deviations(a, a[0] as int, b, center_b, n) == 0,
    decreases n,
{
    if n > 0 {
        lemma_constant_cross_deviations(a, b, center_b, (n - 1) as nat);
        assert(a[n - 1] == a[0]);
        assert((a[n - 1] - a[0]) * (b[n - 1] - center_b) == 0) by (nonlinear_arith)
            requires
                a[n - 1] == a[0],
        ;
    }
}

/// The population variance of a series is never negative.
pub proof fn lemma_population_variance_nonnegative(s: Seq<i32>)
    requires
        s.len() > 0,
    ensures
        0 <= population_variance(s),
{
    lemma_squared_deviations_nonnegative(s, mean(s), s.len());
    lemma_div_pos_is_pos(squared_deviations(s, mean(s), s.len()), s.len() as int);
}

proof fn lemma_squared_deviations_nonnegative(s: Seq<i32>, center: int, n: nat)
    ensures
        0 <= squared_deviations(s, center, n),
    decreases n,
{
    if n > 0 {
        lemma_squared_deviations_nonnegative(s, center, (n - 1) as nat);
        let d = s[n - 1] - center;
        assert(0 <= d * d) by (nonlinear_arith);
    }
}

} // verus!
