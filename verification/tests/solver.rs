use portfolio_optimizer::asset::{Asset, Interval};
use portfolio_optimizer::error::EvaluationError;
use portfolio_optimizer::evaluator::{MeanVarianceEvaluator, SharpeRatioEvaluator};
use portfolio_optimizer::frontier::efficient_frontier;
use portfolio_optimizer::portfolio::Portfolio;
use portfolio_optimizer::solver::{Optimizer, PortfolioOptimizer};
use portfolio_optimizer::universe::AssetList;

fn asset(name: &str, values: Vec<i32>) -> Asset {
    Asset::new(name.to_string(), Interval::Monthly, values)
}

fn two_assets() -> AssetList {
    AssetList::builder()
        .add_asset(asset("AMZN", vec![20_000, -10_000, 30_000, 40_000]))
        .add_asset(asset("AAPL", vec![30_000, -20_000, 50_000, 10_000]))
        .build()
}

fn three_assets() -> AssetList {
    AssetList::builder()
        .add_asset(asset("AMZN", vec![20_000, -10_000, 30_000, 40_000]))
        .add_asset(asset("AAPL", vec![30_000, -20_000, 50_000, 10_000]))
        .add_asset(asset("CASH", vec![10_000, 10_000, 10_000, 10_000]))
        .build()
}

fn place(portfolio: &Portfolio) -> (i128, i128) {
    (
        portfolio.expected_return().unwrap(),
        portfolio.standard_deviation().unwrap(),
    )
}

fn dominates(a: (i128, i128), b: (i128, i128)) -> bool {
    a.0 >= b.0 && a.1 <= b.1 && (a.0 > b.0 || a.1 < b.1)
}

fn weights_of(portfolios: &[Portfolio]) -> Vec<Vec<u32>> {
    portfolios.iter().map(|p| p.weights().clone()).collect()
}

#[test]
fn the_optimizer_enumerates_the_grid() {
    let optimizer = PortfolioOptimizer::new(two_assets(), 500_000);
    assert_eq!(
        optimizer.generate_weight_combinations(),
        vec![vec![0, 1_000_000], vec![500_000, 500_000], vec![1_000_000, 0]]
    );
    let candidates = optimizer.get_candidate_portfolios();
    assert_eq!(
        weights_of(&candidates),
        vec![vec![0, 1_000_000], vec![500_000, 500_000], vec![1_000_000, 0]]
    );
    for candidate in &candidates {
        assert_eq!(candidate.asset_list().len(), 2);
        assert_eq!(candidate.asset_list().get(0).unwrap().name(), "AMZN");
    }
}

#[test]
fn two_assets_at_tenth_steps_end_to_end() {
    let optimizer = PortfolioOptimizer::new(two_assets(), 100_000);
    let candidates = optimizer.get_candidate_portfolios();
    assert_eq!(candidates.len(), 11);
    let expected: [(i128, i128, i128); 11] = [
        (17_500, 891_666_666, 29_860),
        (17_750, 804_916_666, 28_371),
        (18_000, 727_999_999, 26_981),
        (18_250, 660_916_666, 25_708),
        (18_500, 603_666_666, 24_569),
        (18_750, 556_249_999, 23_584),
        (19_000, 518_666_666, 22_774),
        (19_250, 490_916_666, 22_156),
        (19_500, 472_999_999, 21_748),
        (19_750, 464_916_666, 21_561),
        (20_000, 466_666_666, 21_602),
    ];
    for (i, candidate) in candidates.iter().enumerate() {
        let first = 100_000 * i as u32;
        assert_eq!(candidate.weights(), &vec![first, 1_000_000 - first]);
        assert_eq!(candidate.expected_return(), Ok(expected[i].0));
        let variance = candidate.variance().unwrap();
        assert!(variance >= 0);
        assert_eq!(variance, expected[i].1);
        assert_eq!(candidate.standard_deviation(), Ok(expected[i].2));
    }
    let efficient = optimizer.get_efficient_portfolios().unwrap();
    assert!(!efficient.is_empty());
    assert_eq!(
        weights_of(&efficient),
        vec![vec![900_000, 100_000], vec![1_000_000, 0]]
    );
    for chosen in &efficient {
        for candidate in &candidates {
            assert!(!dominates(place(candidate), place(chosen)));
        }
    }
}

#[test]
fn the_frontier_excludes_every_dominated_candidate() {
    let optimizer = PortfolioOptimizer::new(three_assets(), 100_000);
    let candidates = optimizer.get_candidate_portfolios();
    assert_eq!(candidates.len(), 66);
    let efficient = optimizer.get_efficient_portfolios().unwrap();
    assert!(!efficient.is_empty());
    let places: Vec<(i128, i128)> = candidates.iter().map(place).collect();
    let mut expected = Vec::new();
    for (i, candidate) in candidates.iter().enumerate() {
        let dominated = places.iter().any(|&other| dominates(other, places[i]));
        let repeated = places[..i].contains(&places[i]);
        if !dominated && !repeated {
            expected.push(candidate.weights().clone());
        }
    }
    assert_eq!(weights_of(&efficient), expected);
    for chosen in &efficient {
        for &other in &places {
            assert!(!dominates(other, place(chosen)));
        }
    }
}

#[test]
fn three_assets_at_half_steps() {
    let optimizer = PortfolioOptimizer::new(three_assets(), 500_000);
    let candidates = optimizer.get_candidate_portfolios();
    let places: Vec<(i128, i128)> = candidates.iter().map(place).collect();
    assert_eq!(
        places,
        vec![
            (10_000, 0),
            (13_750, 14_930),
            (17_500, 29_860),
            (15_000, 10_801),
            (18_750, 23_584),
            (20_000, 21_602),
        ]
    );
    let efficient = optimizer.get_efficient_portfolios().unwrap();
    assert_eq!(
        weights_of(&efficient),
        vec![
            vec![0, 0, 1_000_000],
            vec![500_000, 0, 500_000],
            vec![1_000_000, 0, 0],
        ]
    );
}

#[test]
fn a_step_without_candidates_gives_an_empty_result() {
    let optimizer = PortfolioOptimizer::new(two_assets(), 300_000);
    assert!(optimizer.get_candidate_portfolios().is_empty());
    assert_eq!(optimizer.get_efficient_portfolios().map(|v| v.len()), Ok(0));
}

#[test]
fn without_candidates_a_defective_universe_is_no_error() {
    let short = AssetList::builder().add_asset(asset("S", vec![5])).build();
    let optimizer = PortfolioOptimizer::new(short, 300_000);
    assert_eq!(optimizer.get_efficient_portfolios().map(|v| v.len()), Ok(0));
    let none = PortfolioOptimizer::new(AssetList::builder().build(), 500_000);
    assert!(none.get_candidate_portfolios().is_empty());
    assert_eq!(none.get_efficient_portfolios().map(|v| v.len()), Ok(0));
}

#[test]
fn with_candidates_a_defective_universe_is_an_error() {
    let short = AssetList::builder()
        .add_asset(asset("A", vec![1, 2, 3]))
        .add_asset(asset("S", vec![5]))
        .build();
    let optimizer = PortfolioOptimizer::new(short, 500_000);
    assert_eq!(optimizer.get_candidate_portfolios().len(), 3);
    assert_eq!(
        optimizer.get_efficient_portfolios().map(|v| v.len()),
        Err(EvaluationError::InsufficientData)
    );
    let hollow = AssetList::builder()
        .add_asset(asset("S", vec![5]))
        .add_asset(asset("E", vec![]))
        .build();
    let optimizer = PortfolioOptimizer::new(hollow, 500_000);
    assert_eq!(
        optimizer.get_efficient_portfolios().map(|v| v.len()),
        Err(EvaluationError::EmptySeries)
    );
}

#[test]
fn of_candidates_at_one_point_the_first_is_kept() {
    let list = two_assets();
    let candidates = vec![
        Portfolio::new(&list, vec![500_000, 500_000]),
        Portfolio::new(&list, vec![1_000_000, 0]),
        Portfolio::new(&list, vec![900_000, 100_000]),
        Portfolio::new(&list, vec![1_000_000, 0]),
        Portfolio::new(&list, vec![900_000, 100_000]),
        Portfolio::new(&list, vec![0, 1_000_000]),
    ];
    let efficient = efficient_frontier(candidates).unwrap();
    assert_eq!(
        weights_of(&efficient),
        vec![vec![1_000_000, 0], vec![900_000, 100_000]]
    );
}

#[test]
fn the_frontier_of_nothing_is_nothing() {
    assert_eq!(efficient_frontier(Vec::new()).map(|v| v.len()), Ok(0));
}

#[test]
fn a_single_candidate_is_efficient() {
    let list = two_assets();
    let efficient = efficient_frontier(vec![Portfolio::new(&list, vec![200_000, 300_000])]).unwrap();
    assert_eq!(weights_of(&efficient), vec![vec![200_000, 300_000]]);
}

#[test]
fn the_frontier_fails_as_the_first_failing_candidate_does() {
    let good = two_assets();
    let short = AssetList::builder().add_asset(asset("S", vec![5])).build();
    let hollow = AssetList::builder().add_asset(asset("E", vec![])).build();
    let candidates = vec![
        Portfolio::new(&good, vec![500_000, 500_000]),
        Portfolio::new(&short, vec![1_000_000]),
        Portfolio::new(&hollow, vec![1_000_000]),
    ];
    assert_eq!(
        efficient_frontier(candidates).map(|v| v.len()),
        Err(EvaluationError::InsufficientData)
    );
    let candidates = vec![
        Portfolio::new(&hollow, vec![1_000_000]),
        Portfolio::new(&short, vec![1_000_000]),
    ];
    assert_eq!(
        efficient_frontier(candidates).map(|v| v.len()),
        Err(EvaluationError::EmptySeries)
    );
}

#[test]
fn every_candidate_is_scored() {
    let optimizer = PortfolioOptimizer::new(two_assets(), 500_000);
    let scored = optimizer.get_scored_portfolios(&MeanVarianceEvaluator { risk_aversion: 2_000_000 });
    let found: Vec<(Vec<u32>, Result<i128, EvaluationError>)> = scored
        .iter()
        .map(|(portfolio, score)| (portfolio.weights().clone(), *score))
        .collect();
    assert_eq!(
        found,
        vec![
            (vec![0, 1_000_000], Ok(15_717)),
            (vec![500_000, 500_000], Ok(17_638)),
            (vec![1_000_000, 0], Ok(19_067)),
        ]
    );
}

#[test]
fn a_candidate_without_a_score_keeps_its_place() {
    let list = AssetList::builder()
        .add_asset(asset("FLAT", vec![10_000, 10_000, 10_000, 10_000]))
        .add_asset(asset("AAPL", vec![30_000, -20_000, 50_000, 10_000]))
        .build();
    let optimizer = PortfolioOptimizer::new(list, 500_000);
    let scored = optimizer.get_scored_portfolios(&SharpeRatioEvaluator { risk_free_rate: 0 });
    let scores: Vec<Result<i128, EvaluationError>> = scored.iter().map(|(_, score)| *score).collect();
    assert_eq!(
        scores,
        vec![
            Ok(17_500 * 1_000_000 / 29_860),
            Ok(13_750 * 1_000_000 / 14_930),
            Err(EvaluationError::ZeroRisk),
        ]
    );
}
