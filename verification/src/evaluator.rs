//! Scores that rank portfolios: mean-variance utility and the Sharpe ratio.

use vstd::prelude::*;
use vstd::arithmetic::div_mod::lemma_div_is_ordered;
use crate::error::{outcome, EvaluationError};
use crate::fixed::{floor_div, lemma_floor_div_bounds, ONE};
use crate::portfolio::{
    lemma_constant_returns_carry_no_risk, risk_defect, variance_bound, Portfolio,
};
use crate::statistics::constant;

verus! {

/// The expected return less the variance times the risk aversion, rounded up to the
/// next millionth.
pub open spec fn mean_variance_utility(expected: int, variance: int, risk_aversion: int) -> int {
    expected - (risk_aversion * variance) / (ONE * ONE)
}

/// The return in excess of the risk-free rate per unit of standard deviation, rounded
/// down.
pub open spec fn sharpe_ratio(expected: int, deviation: int, risk_free_rate: int) -> int {
    ((expected - risk_free_rate) * ONE) / deviation
}

/// The mean-variance utility of a portfolio, or why it has none.
pub open spec fn mean_variance_score(portfolio: &Portfolio, risk_aversion: int) -> Result<
    int,
    EvaluationError,
> {
    match (portfolio.spec_expected_return(), portfolio.spec_variance()) {
        (Err(e), _) => Err(e),
        (Ok(_), Err(e)) => Err(e),
        (Ok(expected), Ok(variance)) => Ok(
            mean_variance_utility(expected, variance, risk_aversion),
        ),
    }
}

/// The Sharpe ratio of a portfolio, or why it has none. A portfolio without risk has
/// none.
pub open spec fn sharpe_score(portfolio: &Portfolio, risk_free_rate: int) -> Result<
    int,
    EvaluationError,
> {
    match (portfolio.spec_expected_return(), portfolio.spec_standard_deviation()) {
        (Err(e), _) => Err(e),
        (Ok(_), Err(e)) => Err(e),
        (Ok(expected), Ok(deviation)) => if deviation == 0 {
            Err(EvaluationError::ZeroRisk)
        } else {
            Ok(sharpe_ratio(expected, deviation, risk_free_rate))
        },
    }
}

/// A way to score a portfolio. A higher score is better.
pub trait PortfolioEvaluator {
    /// The score that the evaluator gives `portfolio`, or why it gives none.
    spec fn score_of(&self, portfolio: &Portfolio) -> Result<int, EvaluationError>;

    fn evaluate(&self, portfolio: &Portfolio) -> (r: Result<i128, EvaluationError>)
        ensures
            outcome(r) == self.score_of(portfolio),
    ;
}

/// Scores a portfolio by its expected return less a penalty for its variance.
pub struct MeanVarianceEvaluator {
    /// How many units of expected return one unit of variance costs, in millionths.
    pub risk_aversion: u32,
}

impl PortfolioEvaluator for MeanVarianceEvaluator {
    open spec fn score_of(&self, portfolio: &Portfolio) -> Result<int, EvaluationError> {
        mean_variance_score(portfolio, self.risk_aversion as int)
    }

    fn evaluate(&self, portfolio: &Portfolio) -> (r: Result<i128, EvaluationError>) {
        let expected = match portfolio.expected_return() {
            Ok(m) => m,
            Err(e) => {
                return Err(e);
            },
        };
        let variance = match portfolio.variance() {
            Ok(v) => v,
            Err(e) => {
                return Err(e);
            },
        };
        let aversion = self.risk_aversion as i128;
        proof {
            assert(-0x1_0000_0000 * variance_bound() <= aversion * variance <= 0x1_0000_0000
                * variance_bound()) by (nonlinear_arith)
                requires
                    0 <= aversion <= 0x1_0000_0000,
                    -variance_bound() <= variance <= variance_bound(),
            ;
            assert(variance_bound() == 0x20_0000_0000_0000_0000_0000) by (nonlinear_arith)
                requires
                    variance_bound() == 1024 * 1024 * 0x2_0000_0000_0000_0000,
            ;
            lemma_floor_div_bounds(
                aversion * variance,
                ONE * ONE,
                -0x1_0000_0000 * variance_bound(),
                0x1_0000_0000 * variance_bound(),
            );
        }
        let penalty = floor_div(aversion * variance, (ONE as i128) * (ONE as i128));
        Ok(expected - penalty)
    }
}

/// Scores a portfolio by its return in excess of a risk-free rate, per unit of risk.
pub struct SharpeRatioEvaluator {
    /// The return that can be had without risk, in millionths.
    pub risk_free_rate: i32,
}

impl PortfolioEvaluator for SharpeRatioEvaluator {
    open spec fn score_of(&self, portfolio: &Portfolio) -> Result<int, EvaluationError> {
        sharpe_score(portfolio, self.risk_free_rate as int)
    }

    fn evaluate(&self, portfolio: &Portfolio) -> (r: Result<i128, EvaluationError>) {
        let expected = match portfolio.expected_return() {
            Ok(m) => m,
            Err(e) => {
                return Err(e);
            },
        };
        let deviation = match portfolio.standard_deviation() {
            Ok(d) => d,
            Err(e) => {
                return Err(e);
            },
        };
        if deviation == 0 {
            return Err(EvaluationError::ZeroRisk);
        }
        let excess = expected - self.risk_free_rate as i128;
        Ok(floor_div(excess * (ONE as i128), deviation))
    }
}

/// For a portfolio whose variance is not negative, a higher risk aversion never gives a
/// higher mean-variance utility.
pub proof fn lemma_utility_falls_with_risk_aversion(
    expected: int,
    variance: int,
    lower: int,
    higher: int,
)
    requires
        0 <= variance,
        lower <= higher,
    ensures
        mean_variance_utility(expected, variance, higher) <= mean_variance_utility(
            expected,
            variance,
            lower,
        ),
{
    assert(lower * variance <= higher * variance) by (nonlinear_arith)
        requires
            0 <= variance,
            lower <= higher,
    ;
    lemma_div_is_ordered(lower * variance, higher * variance, ONE * ONE);
}

/// Of two mean-variance evaluators, the one with the higher risk aversion never scores
/// a portfolio higher than the other, unless the portfolio's variance is negative.
pub proof fn lemma_score_falls_with_risk_aversion(
    portfolio: &Portfolio,
    lower: MeanVarianceEvaluator,
    higher: MeanVarianceEvaluator,
)
    requires
        lower.risk_aversion <= higher.risk_aversion,
        portfolio.spec_variance() matches Ok(v) && 0 <= v,
    ensures
        lower.score_of(portfolio) is Ok <==> higher.score_of(portfolio) is Ok,
        lower.score_of(portfolio) matches Ok(a) ==> higher.score_of(portfolio) matches Ok(b) && b
            <= a,
{
    if let Ok(expected) = portfolio.spec_expected_return() {
        lemma_utility_falls_with_risk_aversion(
            expected,
            portfolio.spec_variance()->Ok_0,
            lower.risk_aversion as int,
            higher.risk_aversion as int,
        );
    }
}

/// A portfolio over assets whose returns never change has no Sharpe ratio: there is no
/// risk to divide by.
pub proof fn lemma_constant_returns_have_no_sharpe_ratio(
    portfolio: &Portfolio,
    evaluator: SharpeRatioEvaluator,
)
    requires
        risk_defect(portfolio.universe()).is_none(),
        forall|i: int|
            0 <= i < portfolio.universe().len() ==> constant(
                (#[trigger] portfolio.universe()[i]).series(),
            ),
    ensures
        evaluator.score_of(portfolio) == Err::<int, EvaluationError>(EvaluationError::ZeroRisk),
{
    lemma_constant_returns_carry_no_risk(portfolio.universe(), portfolio.allocation());
}

} // verus!
