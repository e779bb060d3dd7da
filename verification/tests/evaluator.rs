use portfolio_optimizer::asset::{Asset, Interval};
use portfolio_optimizer::error::EvaluationError;
use portfolio_optimizer::evaluator::{
    MeanVarianceEvaluator, PortfolioEvaluator, SharpeRatioEvaluator,
};
use portfolio_optimizer::portfolio::Portfolio;
use portfolio_optimizer::universe::AssetList;

fn asset(name: &str, values: Vec<i32>) -> Asset {
    Asset::new(name.to_string(), Interval::Monthly, values)
}

fn two_assets() -> AssetList {
    AssetList::builder()
        .add_asset(asset("AMZN", vec![20_000, -10_000, 30_000, 40_000]))
        .add_asset(asset("AAPL", vec![30_000, -20_000, 50_000, 10_000]))
        .build()
}

#[test]
fn mean_variance_utility_of_known_portfolios() {
    let list = two_assets();
    let evaluator = MeanVarianceEvaluator { risk_aversion: 2_000_000 };
    // 17_500 - ceil-free floor: 2_000_000 * 891_666_666 / 10^12 = 1_783 (rounded down)
    assert_eq!(evaluator.evaluate(&Portfolio::new(&list, vec![0, 1_000_000])), Ok(15_717));
    assert_eq!(evaluator.evaluate(&Portfolio::new(&list, vec![500_000, 500_000])), Ok(17_638));
    assert_eq!(evaluator.evaluate(&Portfolio::new(&list, vec![1_000_000, 0])), Ok(19_067));
}

#[test]
fn without_risk_aversion_the_utility_is_the_expected_return() {
    let list = two_assets();
    let evaluator = MeanVarianceEvaluator { risk_aversion: 0 };
    let portfolio = Portfolio::new(&list, vec![300_000, 700_000]);
    assert_eq!(evaluator.evaluate(&portfolio), portfolio.expected_return());
    assert_eq!(evaluator.evaluate(&portfolio), Ok(18_250));
}

#[test]
fn utility_never_rises_with_risk_aversion() {
    let list = two_assets();
    let portfolio = Portfolio::new(&list, vec![400_000, 600_000]);
    let mut last = i128::MAX;
    for &risk_aversion in &[0u32, 1, 1_000, 1_000_000, 2_000_000, 10_000_000, u32::MAX] {
        let score = MeanVarianceEvaluator { risk_aversion }.evaluate(&portfolio).unwrap();
        assert!(score <= last);
        last = score;
    }
    assert_eq!(last, 18_500 - 2_592_728);
}

#[test]
fn utility_rises_with_risk_aversion_where_the_variance_is_negative() {
    let list = AssetList::builder()
        .add_asset(asset("X", vec![-2, -3, -1]))
        .add_asset(asset("Y", vec![0, 1, 0]))
        .build();
    let portfolio = Portfolio::new(&list, vec![500_000, 500_000]);
    assert_eq!(portfolio.variance(), Ok(-1));
    assert_eq!(MeanVarianceEvaluator { risk_aversion: 0 }.evaluate(&portfolio), Ok(-1));
    assert_eq!(MeanVarianceEvaluator { risk_aversion: 1 }.evaluate(&portfolio), Ok(0));
}

#[test]
fn sharpe_ratio_of_known_portfolios() {
    let list = two_assets();
    let evaluator = SharpeRatioEvaluator { risk_free_rate: 1_000 };
    assert_eq!(evaluator.evaluate(&Portfolio::new(&list, vec![0, 1_000_000])), Ok(552_578));
    assert_eq!(evaluator.evaluate(&Portfolio::new(&list, vec![500_000, 500_000])), Ok(752_628));
    assert_eq!(evaluator.evaluate(&Portfolio::new(&list, vec![1_000_000, 0])), Ok(879_548));
}

#[test]
fn sharpe_ratio_below_the_risk_free_rate_is_rounded_down() {
    let list = two_assets();
    let evaluator = SharpeRatioEvaluator { risk_free_rate: 30_000 };
    // (20_000 - 30_000) * 10^6 / 21_602 = -462_920.1...
    assert_eq!(evaluator.evaluate(&Portfolio::new(&list, vec![1_000_000, 0])), Ok(-462_921));
}

#[test]
fn sharpe_ratio_fails_on_constant_returns() {
    let list = AssetList::builder()
        .add_asset(asset("FLAT", vec![10_000, 10_000, 10_000, 10_000]))
        .add_asset(asset("LEVEL", vec![-5, -5, -5, -5]))
        .build();
    let evaluator = SharpeRatioEvaluator { risk_free_rate: 0 };
    for weights in [vec![1_000_000, 0], vec![500_000, 500_000], vec![0, 1_000_000]] {
        let portfolio = Portfolio::new(&list, weights);
        assert_eq!(portfolio.variance(), Ok(0));
        assert_eq!(portfolio.standard_deviation(), Ok(0));
        assert_eq!(evaluator.evaluate(&portfolio), Err(EvaluationError::ZeroRisk));
    }
}

#[test]
fn sharpe_ratio_fails_where_only_the_constant_asset_is_held() {
    let list = AssetList::builder()
        .add_asset(asset("FLAT", vec![10_000, 10_000, 10_000, 10_000]))
        .add_asset(asset("AAPL", vec![30_000, -20_000, 50_000, 10_000]))
        .build();
    let evaluator = SharpeRatioEvaluator { risk_free_rate: 0 };
    assert_eq!(
        evaluator.evaluate(&Portfolio::new(&list, vec![1_000_000, 0])),
        Err(EvaluationError::ZeroRisk)
    );
    assert_eq!(
        evaluator.evaluate(&Portfolio::new(&list, vec![0, 1_000_000])),
        Ok(17_500 * 1_000_000 / 29_860)
    );
}

#[test]
fn scores_fail_as_the_statistics_do() {
    let mean_variance = MeanVarianceEvaluator { risk_aversion: 1_000_000 };
    let sharpe = SharpeRatioEvaluator { risk_free_rate: 0 };

    let none = AssetList::builder().build();
    let portfolio = Portfolio::new(&none, vec![]);
    assert_eq!(mean_variance.evaluate(&portfolio), Err(EvaluationError::EmptyUniverse));
    assert_eq!(sharpe.evaluate(&portfolio), Err(EvaluationError::EmptyUniverse));

    let hollow = AssetList::builder().add_asset(asset("E", vec![])).build();
    let portfolio = Portfolio::new(&hollow, vec![1_000_000]);
    assert_eq!(mean_variance.evaluate(&portfolio), Err(EvaluationError::EmptySeries));
    assert_eq!(sharpe.evaluate(&portfolio), Err(EvaluationError::EmptySeries));

    let short = AssetList::builder().add_asset(asset("S", vec![5])).build();
    let portfolio = Portfolio::new(&short, vec![1_000_000]);
    assert_eq!(mean_variance.evaluate(&portfolio), Err(EvaluationError::InsufficientData));
    assert_eq!(sharpe.evaluate(&portfolio), Err(EvaluationError::InsufficientData));
}

#[test]
fn a_portfolio_is_scored_by_the_evaluator_it_is_given() {
    let list = two_assets();
    let portfolio = Portfolio::new(&list, vec![900_000, 100_000]);
    assert_eq!(portfolio.score(&MeanVarianceEvaluator { risk_aversion: 2_000_000 }), Ok(18_821));
    assert_eq!(portfolio.score(&SharpeRatioEvaluator { risk_free_rate: 1_000 }), Ok(869_625));
}
