//! A portfolio: a weight for every asset of a universe, with the return that the
//! allocation can be expected to bring and the risk that it carries.

use vstd::prelude::*;
use vstd::arithmetic::div_mod::lemma_div_multiples_vanish;
use crate::asset::{covariance, Asset};
use crate::error::{outcome, EvaluationError};
use crate::evaluator::PortfolioEvaluator;
use crate::fixed::{
    floor_div, floor_sqrt, is_floor_sqrt, isqrt, lemma_floor_div_bounds, lemma_floor_sqrt, ONE,
};
use crate::statistics::{
    constant, covariance_bound, covariance_of, lemma_constant_covariance, lemma_mean_bounds, mean,
    sample_covariance,
};
use crate::universe::AssetList;

verus! {

/// The largest universe that a portfolio can be held over. With more assets the sum of
/// the weighted covariances could leave the range of an `i128`.
pub const MAX_ASSETS: usize = 1024;

/// `weights` holds one weight between zero and one for each asset of `universe`, and
/// the universe is not too large.
pub open spec fn valid_allocation(universe: Seq<Asset>, weights: Seq<u32>) -> bool {
    &&& weights.len() == universe.len()
    &&& universe.len() <= MAX_ASSETS
    &&& forall|i: int| 0 <= i < weights.len() ==> #[trigger] weights[i] <= ONE
}

/// The sum, over the first `n` assets, of the asset's mean return times its weight.
pub open spec fn weighted_means(universe: Seq<Asset>, weights: Seq<u32>, n: nat) -> int
    decreases n,
{
    if n == 0 {
        0
    } else {
        weighted_means(universe, weights, (n - 1) as nat) + weights[n - 1] * mean(
            universe[n - 1].series(),
        )
    }
}

/// The covariance of asset `i` and asset `j` times the weights of both.
pub open spec fn weighted_covariance(universe: Seq<Asset>, weights: Seq<u32>, i: int, j: int) -> int {
    (weights[i] * weights[j]) * sample_covariance(universe[i].series(), universe[j].series())
}

/// The sum, over the first `m` assets `j`, of the covariance of asset `i` and asset `j`
/// times the weights of both.
pub open spec fn weighted_covariance_row(
    universe: Seq<Asset>,
    weights: Seq<u32>,
    i: int,
    m: nat,
) -> int
    decreases m,
{
    if m == 0 {
        0
    } else {
        weighted_covariance_row(universe, weights, i, (m - 1) as nat) + weighted_covariance(
            universe,
            weights,
            i,
            m - 1,
        )
    }
}

/// The sum, over the first `n` assets `i` and all assets `j`, of the covariance of
/// asset `i` and asset `j` times the weights of both.
pub open spec fn weighted_covariances(universe: Seq<Asset>, weights: Seq<u32>, n: nat) -> int
    decreases n,
{
    if n == 0 {
        0
    } else {
        weighted_covariances(universe, weights, (n - 1) as nat) + weighted_covariance_row(
            universe,
            weights,
            n - 1,
            universe.len(),
        )
    }
}

/// Why no portfolio over `universe` has an expected return, if that is so.
pub open spec fn return_defect(universe: Seq<Asset>) -> Option<EvaluationError> {
    if universe.len() == 0 {
        Some(EvaluationError::EmptyUniverse)
    } else if exists|i: int| 0 <= i < universe.len() && (#[trigger] universe[i]).series().len() == 0 {
        Some(EvaluationError::EmptySeries)
    } else {
        None
    }
}

/// Why no portfolio over `universe` has a variance, if that is so.
pub open spec fn risk_defect(universe: Seq<Asset>) -> Option<EvaluationError> {
    if return_defect(universe).is_some() {
        return_defect(universe)
    } else if exists|i: int| 0 <= i < universe.len() && (#[trigger] universe[i]).series().len() == 1 {
        Some(EvaluationError::InsufficientData)
    } else {
        None
    }
}

/// The return that the allocation can be expected to bring: the weighted sum of the
/// assets' mean returns, rounded down.
pub open spec fn expected_return_of(universe: Seq<Asset>, weights: Seq<u32>) -> Result<
    int,
    EvaluationError,
> {
    match return_defect(universe) {
        Some(e) => Err(e),
        None => Ok(weighted_means(universe, weights, universe.len()) / (ONE as int)),
    }
}

/// The variance of the allocation: the quadratic form of the weights over the assets'
/// pairwise covariances, rounded down.
pub open spec fn variance_of(universe: Seq<Asset>, weights: Seq<u32>) -> Result<
    int,
    EvaluationError,
> {
    match risk_defect(universe) {
        Some(e) => Err(e),
        None => Ok(weighted_covariances(universe, weights, universe.len()) / (ONE * ONE)),
    }
}

/// The standard deviation of the allocation: the square root, rounded down, of its
/// variance, where a negative variance counts as zero.
pub open spec fn deviation_of(universe: Seq<Asset>, weights: Seq<u32>) -> Result<
    int,
    EvaluationError,
> {
    match variance_of(universe, weights) {
        Ok(v) => Ok(
            floor_sqrt(
                if v < 0 {
                    0
                } else {
                    v
                },
            ),
        ),
        Err(e) => Err(e),
    }
}

/// The largest magnitude that the expected return of a valid allocation can have.
pub open spec fn return_bound() -> int {
    MAX_ASSETS * 0x8000_0000
}

/// The largest magnitude that the variance of a valid allocation can have.
pub open spec fn variance_bound() -> int {
    MAX_ASSETS * MAX_ASSETS * covariance_bound()
}

/// The largest magnitude that the product of two weights and a covariance can have.
const TERM_BOUND: i128 = 36_893_488_147_419_103_232_000_000_000_000;

/// The largest magnitude that one row of weighted covariances can add up to.
const ROW_BOUND: i128 = 37_778_931_862_957_161_709_568_000_000_000_000;

proof fn lemma_term_bound(weight_i: int, weight_j: int, c: int)
    requires
        0 <= weight_i <= ONE,
        0 <= weight_j <= ONE,
        -covariance_bound() <= c <= covariance_bound(),
    ensures
        0 <= weight_i * weight_j <= 1_000_000_000_000,
        -TERM_BOUND <= (weight_i * weight_j) * c <= TERM_BOUND,
{
    let ww = weight_i * weight_j;
    assert(0 <= ww <= 1_000_000_000_000) by (nonlinear_arith)
        requires
            ww == weight_i * weight_j,
            0 <= weight_i <= 1_000_000,
            0 <= weight_j <= 1_000_000,
    ;
    assert(-36893488147419103232000000000000 <= ww * c <= 36893488147419103232000000000000)
        by (nonlinear_arith)
        requires
            0 <= ww <= 1_000_000_000_000,
            -36893488147419103232 <= c <= 36893488147419103232,
    ;
}

/// A row of weighted covariances whose terms are all zero adds up to zero.
proof fn lemma_row_of_zeros(universe: Seq<Asset>, weights: Seq<u32>, i: int, m: nat)
    requires
        forall|j: int| 0 <= j < m ==> #[trigger] weighted_covariance(universe, weights, i, j) == 0,
    ensures
        weighted_covariance_row(universe, weights, i, m) == 0,
    decreases m,
{
    if m > 0 {
        lemma_row_of_zeros(universe, weights, i, (m - 1) as nat);
    }
}

/// A row of weighted covariances with a single term that is not zero adds up to that
/// term, once it has been reached.
proof fn lemma_row_of_one_term(universe: Seq<Asset>, weights: Seq<u32>, i: int, only: int, m: nat)
    requires
        0 <= only,
        forall|j: int|
            0 <= j < m && j != only ==> #[trigger] weighted_covariance(universe, weights, i, j) == 0,
    ensures
        weighted_covariance_row(universe, weights, i, m) == if only < m {
            weighted_covariance(universe, weights, i, only)
        } else {
            0
        },
    decreases m,
{
    if m > 0 {
        lemma_row_of_one_term(universe, weights, i, only, (m - 1) as nat);
    }
}

/// Weighted covariances whose rows are all zero but one add up to that row, once it
/// has been reached.
proof fn lemma_one_row(universe: Seq<Asset>, weights: Seq<u32>, only: int, n: nat)
    requires
        0 <= only,
        forall|i: int|
            0 <= i < n && i != only ==> #[trigger] weighted_covariance_row(
                universe,
                weights,
                i,
                universe.len(),
            ) == 0,
    ensures
        weighted_covariances(universe, weights, n) == if only < n {
            weighted_covariance_row(universe, weights, only, universe.len())
        } else {
            0
        },
    decreases n,
{
    if n > 0 {
        lemma_one_row(universe, weights, only, (n - 1) as nat);
    }
}

/// A portfolio that puts everything into one asset has for its variance the covariance
/// of that asset with itself.
pub proof fn lemma_single_asset_variance(universe: Seq<Asset>, weights: Seq<u32>, held: int)
    requires
        valid_allocation(universe, weights),
        risk_defect(universe).is_none(),
        0 <= held < weights.len(),
        weights[held] == ONE,
        forall|i: int| 0 <= i < weights.len() && i != held ==> weights[i] == 0,
    ensures
        variance_of(universe, weights) == covariance_of(
            universe[held].series(),
            universe[held].series(),
        ),
        variance_of(universe, weights) == Ok::<int, EvaluationError>(
            sample_covariance(universe[held].series(), universe[held].series()),
        ),
{
    let k = universe.len();
    let c = sample_covariance(universe[held].series(), universe[held].series());
    assert forall|i: int| 0 <= i < k && i != held implies #[trigger] weighted_covariance_row(
        universe,
        weights,
        i,
        k,
    ) == 0 by {
        assert forall|j: int| 0 <= j < k implies #[trigger] weighted_covariance(
            universe,
            weights,
            i,
            j,
        ) == 0 by {
            assert(weights[i] == 0);
            assert((0 * weights[j]) * sample_covariance(
                universe[i].series(),
                universe[j].series(),
            ) == 0) by (nonlinear_arith);
        }
        lemma_row_of_zeros(universe, weights, i, k);
    }
    assert forall|j: int| 0 <= j < k && j != held implies #[trigger] weighted_covariance(
        universe,
        weights,
        held,
        j,
    ) == 0 by {
        assert(weights[j] == 0);
        assert((weights[held] * 0) * sample_covariance(
            universe[held].series(),
            universe[j].series(),
        ) == 0) by (nonlinear_arith);
    }
    lemma_row_of_one_term(universe, weights, held, held, k);
    lemma_one_row(universe, weights, held, k);
    assert(weighted_covariance(universe, weights, held, held) == (ONE * ONE) * c);
    lemma_div_multiples_vanish(c, ONE * ONE);
    assert(universe[held].series().len() >= 2);
}

/// Over assets whose returns never change, no allocation has any variance or any
/// standard deviation.
pub proof fn lemma_constant_returns_carry_no_risk(universe: Seq<Asset>, weights: Seq<u32>)
    requires
        risk_defect(universe).is_none(),
        forall|i: int| 0 <= i < universe.len() ==> constant((#[trigger] universe[i]).series()),
    ensures
        variance_of(universe, weights) == Ok::<int, EvaluationError>(0),
        deviation_of(universe, weights) == Ok::<int, EvaluationError>(0),
{
    let k = universe.len();
    assert forall|i: int| 0 <= i < k implies #[trigger] weighted_covariance_row(
        universe,
        weights,
        i,
        k,
    ) == 0 by {
        assert forall|j: int| 0 <= j < k implies #[trigger] weighted_covariance(
            universe,
            weights,
            i,
            j,
        ) == 0 by {
            assert(constant(universe[i].series()));
            assert(universe[j].series().len() >= 2);
            lemma_constant_covariance(universe[i].series(), universe[j].series());
            assert((weights[i] * weights[j]) * 0 == 0) by (nonlinear_arith);
        }
        lemma_row_of_zeros(universe, weights, i, k);
    }
    lemma_one_row(universe, weights, k as int, k);
    assert(0int / (ONE * ONE) == 0);
    lemma_floor_sqrt(0);
    assert(is_floor_sqrt(0, 0)) by (nonlinear_arith);
}

/// The length of the shortest return series in a universe that holds an asset.
fn shortest_series(list: &AssetList) -> (shortest: usize)
    requires
        list@.len() > 0,
    ensures
        forall|i: int| 0 <= i < list@.len() ==> shortest <= (#[trigger] list@[i]).series().len(),
        exists|i: int| 0 <= i < list@.len() && (#[trigger] list@[i]).series().len() == shortest,
{
    let k = list.len();
    let mut shortest = list.get(0).unwrap().periods();
    let mut i: usize = 1;
    while i < k
        invariant
            k == list@.len(),
            1 <= i <= k,
            forall|j: int| 0 <= j < i ==> shortest <= (#[trigger] list@[j]).series().len(),
            exists|j: int| 0 <= j < i && (#[trigger] list@[j]).series().len() == shortest,
        decreases k - i,
    {
        let n = list.get(i).unwrap().periods();
        if n < shortest {
            shortest = n;
        }
        i = i + 1;
    }
    shortest
}

/// A weight for every asset of a universe. The portfolio refers to the universe and
/// does not own it.
#[derive(Debug)]
pub struct Portfolio<'a> {
    asset_list: &'a AssetList,
    weights: Vec<u32>,
}

impl<'a> Portfolio<'a> {
    /// The assets that the portfolio is held over.
    pub closed spec fn universe(&self) -> Seq<Asset> {
        self.asset_list@
    }

    /// The weight of each asset, counted in millionths.
    pub closed spec fn allocation(&self) -> Seq<u32> {
        self.weights@
    }

    /// The portfolio holds a valid allocation over its universe.
    pub open spec fn well_formed(&self) -> bool {
        valid_allocation(self.universe(), self.allocation())
    }

    #[verifier::type_invariant]
    spec fn holds_valid_allocation(&self) -> bool {
        self.well_formed()
    }

    /// What `expected_return` gives.
    pub open spec fn spec_expected_return(&self) -> Result<int, EvaluationError> {
        expected_return_of(self.universe(), self.allocation())
    }

    /// What `variance` gives.
    pub open spec fn spec_variance(&self) -> Result<int, EvaluationError> {
        variance_of(self.universe(), self.allocation())
    }

    /// What `standard_deviation` gives.
    pub open spec fn spec_standard_deviation(&self) -> Result<int, EvaluationError> {
        deviation_of(self.universe(), self.allocation())
    }

    /// A portfolio over `asset_list` with the given weights, one for each asset and none
    /// above one. The weights need not add up to one.
    pub fn new(asset_list: &'a AssetList, weights: Vec<u32>) -> (portfolio: Self)
        requires
            valid_allocation(asset_list@, weights@),
        ensures
            portfolio.universe() == asset_list@,
            portfolio.allocation() == weights@,
            portfolio.well_formed(),
    {
        Self { asset_list, weights }
    }

    pub fn asset_list(&self) -> (asset_list: &'a AssetList)
        ensures
            asset_list@ == self.universe(),
    {
        self.asset_list
    }

    pub fn weights(&self) -> (weights: &Vec<u32>)
        ensures
            weights@ == self.allocation(),
            self.well_formed(),
    {
        proof {
            use_type_invariant(self);
        }
        &self.weights
    }

    /// The weighted sum of the assets' mean returns, rounded down. It needs a universe
    /// that holds an asset, and a return in every series.
    pub fn expected_return(&self) -> (r: Result<i128, EvaluationError>)
        ensures
            outcome(r) == self.spec_expected_return(),
            r matches Ok(v) ==> -return_bound() <= v <= return_bound(),
    {
        proof {
            use_type_invariant(self);
        }
        let k = self.asset_list.len();
        if k == 0 {
            return Err(EvaluationError::EmptyUniverse);
        }
        if shortest_series(self.asset_list) == 0 {
            return Err(EvaluationError::EmptySeries);
        }
        let mut sum: i128 = 0;
        let mut i: usize = 0;
        while i < k
            invariant
                self.well_formed(),
                k == self.asset_list@.len(),
                i <= k,
                forall|j: int| 0 <= j < k ==> (#[trigger] self.asset_list@[j]).series().len() > 0,
                sum == weighted_means(self.asset_list@, self.weights@, i as nat),
                -i * 0x8000_0000 * ONE <= sum <= i * 0x8000_0000 * ONE,
            decreases k - i,
        {
            let asset = self.asset_list.get(i).unwrap();
            let center = asset.mean_return().unwrap();
            let weight = self.weights[i] as i128;
            proof {
                lemma_mean_bounds(asset.series());
                assert(-0x8000_0000 * ONE <= weight * center <= 0x8000_0000 * ONE)
                    by (nonlinear_arith)
                    requires
                        0 <= weight <= ONE,
                        -0x8000_0000 <= center <= 0x8000_0000,
                ;
            }
            sum = sum + weight * center;
            i = i + 1;
        }
        proof {
            lemma_floor_div_bounds(sum as int, ONE as int, -return_bound(), return_bound());
        }
        Ok(floor_div(sum, ONE as i128))
    }

    /// The quadratic form of the weights over the pairwise covariances of the assets,
    /// rounded down. It needs a universe that holds an asset, and two returns in every
    /// series. Rounding can leave a variance slightly below zero.
    pub fn variance(&self) -> (r: Result<i128, EvaluationError>)
        ensures
            outcome(r) == self.spec_variance(),
            r matches Ok(v) ==> -variance_bound() <= v <= variance_bound(),
    {
        proof {
            use_type_invariant(self);
        }
        let k = self.asset_list.len();
        if k == 0 {
            return Err(EvaluationError::EmptyUniverse);
        }
        let shortest = shortest_series(self.asset_list);
        if shortest == 0 {
            return Err(EvaluationError::EmptySeries);
        }
        if shortest == 1 {
            return Err(EvaluationError::InsufficientData);
        }
        let mut sum: i128 = 0;
        let mut i: usize = 0;
        while i < k
            invariant
                self.well_formed(),
                k == self.asset_list@.len(),
                i <= k,
                forall|j: int| 0 <= j < k ==> (#[trigger] self.asset_list@[j]).series().len() >= 2,
                sum == weighted_covariances(self.asset_list@, self.weights@, i as nat),
                -i * ROW_BOUND <= sum <= i * ROW_BOUND,
            decreases k - i,
        {
            let asset_i = self.asset_list.get(i).unwrap();
            let weight_i = self.weights[i] as i128;
            let mut row: i128 = 0;
            let mut j: usize = 0;
            while j < k
                invariant
                    self.well_formed(),
                    k == self.asset_list@.len(),
                    i < k,
                    j <= k,
                    *asset_i == self.asset_list@[i as int],
                    weight_i == self.weights@[i as int],
                    forall|j: int|
                        0 <= j < k ==> (#[trigger] self.asset_list@[j]).series().len() >= 2,
                    row == weighted_covariance_row(
                        self.asset_list@,
                        self.weights@,
                        i as int,
                        j as nat,
                    ),
                    -j * TERM_BOUND <= row <= j * TERM_BOUND,
                decreases k - j,
            {
                let asset_j = self.asset_list.get(j).unwrap();
                let weight_j = self.weights[j] as i128;
                let c = covariance(asset_i, asset_j).unwrap();
                proof {
                    lemma_term_bound(weight_i as int, weight_j as int, c as int);
                }
                row = row + (weight_i * weight_j) * c;
                j = j + 1;
            }
            sum = sum + row;
            i = i + 1;
        }
        proof {
            assert(variance_bound() == 0x20_0000_0000_0000_0000_0000) by (nonlinear_arith)
                requires
                    variance_bound() == 1024 * 1024 * 0x2_0000_0000_0000_0000,
            ;
            lemma_floor_div_bounds(sum as int, ONE * ONE, -variance_bound(), variance_bound());
        }
        Ok(floor_div(sum, (ONE as i128) * (ONE as i128)))
    }

    /// The score that `evaluator` gives the portfolio.
    pub fn score<E: PortfolioEvaluator>(&self, evaluator: &E) -> (r: Result<i128, EvaluationError>)
        ensures
            outcome(r) == evaluator.score_of(self),
    {
        evaluator.evaluate(self)
    }

    /// The square root of the variance, rounded down. A negative variance counts as
    /// zero.
    pub fn standard_deviation(&self) -> (r: Result<i128, EvaluationError>)
        ensures
            outcome(r) == self.spec_standard_deviation(),
            r matches Ok(v) ==> 0 <= v <= u64::MAX,
    {
        match self.variance() {
            Ok(v) => {
                let clamped: u128 = if v < 0 {
                    0
                } else {
                    v as u128
                };
                Ok(isqrt(clamped) as i128)
            },
            Err(e) => Err(e),
        }
    }
}

} // verus!
