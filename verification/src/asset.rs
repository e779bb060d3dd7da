//! Return series, the assets that own them, and the statistics of both.

use vstd::prelude::*;
use crate::error::{outcome, EvaluationError};
use crate::fixed::{floor_div, floor_div_difference, isqrt, lemma_floor_div_bounds};
use crate::statistics::{
    common_length, covariance_bound, covariance_of, cross_deviations, deviation_of,
    deviation_product_bound, lemma_deviation_product_bounds, lemma_mean_bounds,
    lemma_partial_sum_bounds, mean_of, partial_sum, squared_deviations, variance_of,
};

verus! {

/// How much time one period of a return series spans.
#[derive(Debug, Clone, Copy, PartialEq, Eq, Structural)]
pub enum Interval {
    Monthly,
    Quarterly,
    Yearly,
}

/// The returns of one asset, one per period, oldest first, counted in millionths.
#[derive(Debug)]
pub struct Returns {
    interval: Interval,
    values: Vec<i32>,
}

impl View for Returns {
    type V = Seq<i32>;

    closed spec fn view(&self) -> Seq<i32> {
        self.values@
    }
}

impl Returns {
    /// The time that one period spans.
    pub closed spec fn spec_interval(&self) -> Interval {
        self.interval
    }

    pub fn new(interval: Interval, values: Vec<i32>) -> (series: Self)
        ensures
            series@ == values@,
            series.spec_interval() == interval,
    {
        Self { interval, values }
    }

    pub fn len(&self) -> (n: usize)
        ensures
            n == self@.len(),
    {
        self.values.len()
    }

    pub fn interval(&self) -> (interval: Interval)
        ensures
            interval == self.spec_interval(),
    {
        self.interval
    }

    /// Takes the most recent return off the series, if there is one.
    pub fn next(&mut self) -> (taken: Option<i32>)
        ensures
            final(self).spec_interval() == old(self).spec_interval(),
            old(self)@.len() == 0 ==> taken.is_none() && final(self)@ == old(self)@,
            old(self)@.len() > 0 ==> taken == Some(old(self)@.last()) && final(self)@ == old(
                self,
            )@.drop_last(),
    {
        self.values.pop()
    }
}

/// A named asset and its return series.
#[derive(Debug)]
pub struct Asset {
    name: String,
    series: Returns,
}

impl Asset {
    /// The returns of the asset, oldest first.
    pub closed spec fn series(&self) -> Seq<i32> {
        self.series@
    }

    /// The asset's name.
    pub closed spec fn spec_name(&self) -> Seq<char> {
        self.name@
    }

    /// The time that one period of the asset's series spans.
    pub closed spec fn spec_interval(&self) -> Interval {
        self.series.spec_interval()
    }

    pub fn new(name: String, interval: Interval, values: Vec<i32>) -> (asset: Self)
        ensures
            asset.series() == values@,
            asset.spec_name() == name@,
            asset.spec_interval() == interval,
    {
        Self { name, series: Returns::new(interval, values) }
    }

    pub fn name(&self) -> (name: &str)
        ensures
            name@ == self.spec_name(),
    {
        self.name.as_str()
    }

    /// The number of periods that the asset has a return for.
    pub fn periods(&self) -> (n: usize)
        ensures
            n == self.series().len(),
    {
        self.series.len()
    }

    /// The arithmetic mean of the returns, rounded down. A series without a period has
    /// none.
    pub fn mean_return(&self) -> (r: Result<i128, EvaluationError>)
        ensures
            outcome(r) == mean_of(self.series()),
    {
        let n = self.series.values.len();
        if n == 0 {
            return Err(EvaluationError::EmptySeries);
        }
        let mut sum: i128 = 0;
        let mut i: usize = 0;
        while i < n
            invariant
                n == self.series.values@.len(),
                i <= n,
                sum == partial_sum(self.series.values@, i as nat),
            decreases n - i,
        {
            proof {
                lemma_partial_sum_bounds(self.series.values@, i as nat);
                assert(i * i32::MIN >= 0xffff_ffff_ffff_ffff * i32::MIN) by (nonlinear_arith)
                    requires
                        0 <= i <= 0xffff_ffff_ffff_ffff,
                ;
                assert(i * i32::MAX <= 0xffff_ffff_ffff_ffff * i32::MAX) by (nonlinear_arith)
                    requires
                        0 <= i <= 0xffff_ffff_ffff_ffff,
                ;
            }
            sum = sum + self.series.values[i] as i128;
            i = i + 1;
        }
        Ok(floor_div(sum, n as i128))
    }

    /// The variance of the returns around their mean, with the population denominator,
    /// rounded down. A series without a period has none.
    pub fn variance(&self) -> (r: Result<i128, EvaluationError>)
        ensures
            outcome(r) == variance_of(self.series()),
            r matches Ok(v) ==> 0 <= v <= deviation_product_bound(),
    {
        let center = match self.mean_return() {
            Ok(m) => m,
            Err(e) => {
                return Err(e);
            },
        };
        let n = self.series.values.len();
        let mut squares: u128 = 0;
        let mut i: usize = 0;
        proof {
            lemma_mean_bounds(self.series.values@);
        }
        while i < n
            invariant
                n == self.series.values@.len(),
                i <= n,
                i32::MIN <= center <= i32::MAX,
                squares == squared_deviations(self.series.values@, center as int, i as nat),
                squares <= i * deviation_product_bound(),
            decreases n - i,
        {
            let d: i128 = self.series.values[i] as i128 - center;
            proof {
                lemma_deviation_product_bounds(
                    self.series.values@[i as int] as int,
                    center as int,
                    self.series.values@[i as int] as int,
                    center as int,
                );
                assert(0 <= d * d) by (nonlinear_arith);
            }
            squares = squares + (d * d) as u128;
            i = i + 1;
        }
        proof {
            lemma_floor_div_bounds(squares as int, n as int, 0, deviation_product_bound());
        }
        Ok((squares / (n as u128)) as i128)
    }

    /// The square root of the variance, rounded down. A series without a period has
    /// none.
    pub fn standard_deviation(&self) -> (r: Result<i128, EvaluationError>)
        ensures
            outcome(r) == deviation_of(self.series()),
    {
        match self.variance() {
            Ok(v) => Ok(isqrt(v as u128) as i128),
            Err(e) => Err(e),
        }
    }
}

/// The sample covariance of the two assets' returns over the periods that both series
/// hold, each return taken relative to the mean of its whole series, rounded down. It
/// needs a mean of both series and at least two shared periods.
pub fn covariance(asset_a: &Asset, asset_b: &Asset) -> (r: Result<i128, EvaluationError>)
    ensures
        outcome(r) == covariance_of(asset_a.series(), asset_b.series()),
        r matches Ok(c) ==> -covariance_bound() <= c <= covariance_bound(),
{
    let center_a = match asset_a.mean_return() {
        Ok(m) => m,
        Err(e) => {
            return Err(e);
        },
    };
    let center_b = match asset_b.mean_return() {
        Ok(m) => m,
        Err(e) => {
            return Err(e);
        },
    };
    let len_a = asset_a.series.values.len();
    let len_b = asset_b.series.values.len();
    let n = if len_a <= len_b {
        len_a
    } else {
        len_b
    };
    if n <= 1 {
        return Err(EvaluationError::InsufficientData);
    }
    let ghost a = asset_a.series.values@;
    let ghost b = asset_b.series.values@;
    proof {
        lemma_mean_bounds(a);
        lemma_mean_bounds(b);
    }
    // The sum of the products may exceed an `i128` by one bit, so what the positive
    // products add up to and what the negative ones add up to are kept apart.
    let mut gains: u128 = 0;
    let mut losses: u128 = 0;
    let mut i: usize = 0;
    while i < n
        invariant
            a == asset_a.series.values@,
            b == asset_b.series.values@,
            n == common_length(a, b),
            i <= n,
            i32::MIN <= center_a <= i32::MAX,
            i32::MIN <= center_b <= i32::MAX,
            gains - losses == cross_deviations(a, center_a as int, b, center_b as int, i as nat),
            gains <= i * deviation_product_bound(),
            losses <= i * deviation_product_bound(),
        decreases n - i,
    {
        let da: i128 = asset_a.series.values[i] as i128 - center_a;
        let db: i128 = asset_b.series.values[i] as i128 - center_b;
        proof {
            lemma_deviation_product_bounds(
                a[i as int] as int,
                center_a as int,
                b[i as int] as int,
                center_b as int,
            );
        }
        let product: i128 = da * db;
        if product >= 0 {
            gains = gains + product as u128;
        } else {
            losses = losses + (-product) as u128;
        }
        i = i + 1;
    }
    proof {
        let d = n - 1;
        assert(n * deviation_product_bound() <= d * covariance_bound()) by (nonlinear_arith)
            requires
                n >= 2,
                d == n - 1,
                covariance_bound() == 2 * deviation_product_bound(),
                deviation_product_bound() >= 0,
        ;
        assert(d * (-covariance_bound()) == -(d * covariance_bound())) by (nonlinear_arith);
        lemma_floor_div_bounds(gains - losses, d, -covariance_bound(), covariance_bound());
    }
    Ok(floor_div_difference(gains, losses, (n - 1) as u128))
}

} // verus!
