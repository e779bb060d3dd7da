use portfolio_optimizer::asset::{covariance, Asset, Interval};
use portfolio_optimizer::error::EvaluationError;
use portfolio_optimizer::portfolio::Portfolio;
use portfolio_optimizer::universe::{AssetList, AssetListBuilder};

fn asset(name: &str, values: Vec<i32>) -> Asset {
    Asset::new(name.to_string(), Interval::Monthly, values)
}

fn two_assets() -> AssetList {
    AssetList::builder()
        .add_asset(asset("AMZN", vec![20_000, -10_000, 30_000, 40_000]))
        .add_asset(asset("AAPL", vec![30_000, -20_000, 50_000, 10_000]))
        .build()
}

#[test]
fn a_builder_keeps_the_order_of_the_assets() {
    let list = two_assets();
    assert_eq!(list.len(), 2);
    assert_eq!(list.get(0).unwrap().name(), "AMZN");
    assert_eq!(list.get(1).unwrap().name(), "AAPL");
    assert!(list.get(2).is_none());
}

#[test]
fn a_builder_starts_empty_and_keeps_equal_names() {
    assert_eq!(AssetListBuilder::new().build().len(), 0);
    assert_eq!(AssetList::builder().build().len(), 0);
    let list = AssetListBuilder::new()
        .add_asset(asset("A", vec![1]))
        .add_asset(asset("A", vec![2, 3]))
        .build();
    assert_eq!(list.len(), 2);
    assert_eq!(list.get(0).unwrap().periods(), 1);
    assert_eq!(list.get(1).unwrap().periods(), 2);
}

#[test]
fn a_list_can_be_made_from_a_vector() {
    let list = AssetList::new(vec![asset("A", vec![1]), asset("B", vec![2])]);
    assert_eq!(list.len(), 2);
    assert_eq!(list.get(1).unwrap().name(), "B");
}

#[test]
fn a_portfolio_keeps_its_weights_and_universe() {
    let list = two_assets();
    let portfolio = Portfolio::new(&list, vec![800_000, 200_000]);
    assert_eq!(portfolio.weights(), &vec![800_000, 200_000]);
    assert_eq!(portfolio.asset_list().len(), 2);
}

#[test]
fn expected_return_is_the_weighted_mean() {
    let list = two_assets();
    assert_eq!(Portfolio::new(&list, vec![0, 1_000_000]).expected_return(), Ok(17_500));
    assert_eq!(Portfolio::new(&list, vec![1_000_000, 0]).expected_return(), Ok(20_000));
    assert_eq!(Portfolio::new(&list, vec![800_000, 200_000]).expected_return(), Ok(19_500));
    assert_eq!(Portfolio::new(&list, vec![300_000, 700_000]).expected_return(), Ok(18_250));
}

#[test]
fn expected_return_is_rounded_down() {
    let list = AssetList::builder()
        .add_asset(asset("X", vec![-2, -3, -1]))
        .add_asset(asset("Y", vec![0, 1, 0]))
        .build();
    assert_eq!(Portfolio::new(&list, vec![500_000, 500_000]).expected_return(), Ok(-1));
    assert_eq!(Portfolio::new(&list, vec![0, 0]).expected_return(), Ok(0));
}

#[test]
fn weights_need_not_add_up_to_one() {
    let list = two_assets();
    let portfolio = Portfolio::new(&list, vec![1_000_000, 1_000_000]);
    assert_eq!(portfolio.expected_return(), Ok(37_500));
    assert_eq!(
        portfolio.variance(),
        Ok(466_666_666 + 891_666_666 + 2 * 433_333_333)
    );
}

#[test]
fn variance_is_the_quadratic_form_of_the_covariances() {
    let list = two_assets();
    assert_eq!(Portfolio::new(&list, vec![0, 1_000_000]).variance(), Ok(891_666_666));
    assert_eq!(Portfolio::new(&list, vec![500_000, 500_000]).variance(), Ok(556_249_999));
    assert_eq!(Portfolio::new(&list, vec![800_000, 200_000]).variance(), Ok(472_999_999));
    assert_eq!(Portfolio::new(&list, vec![900_000, 100_000]).variance(), Ok(464_916_666));
}

#[test]
fn everything_in_one_asset_has_that_assets_sample_variance() {
    let list = two_assets();
    let first = Portfolio::new(&list, vec![1_000_000, 0]);
    let own = covariance(list.get(0).unwrap(), list.get(0).unwrap());
    assert_eq!(own, Ok(466_666_666));
    assert_eq!(first.variance(), own);
    assert_eq!(list.get(0).unwrap().variance(), Ok(350_000_000));
    let second = Portfolio::new(&list, vec![0, 1_000_000]);
    assert_eq!(
        second.variance(),
        covariance(list.get(1).unwrap(), list.get(1).unwrap())
    );
}

#[test]
fn portfolio_deviation_is_the_root_of_the_variance() {
    let list = two_assets();
    assert_eq!(Portfolio::new(&list, vec![0, 1_000_000]).standard_deviation(), Ok(29_860));
    assert_eq!(Portfolio::new(&list, vec![500_000, 500_000]).standard_deviation(), Ok(23_584));
    assert_eq!(Portfolio::new(&list, vec![1_000_000, 0]).standard_deviation(), Ok(21_602));
}

#[test]
fn a_negative_variance_has_no_deviation() {
    let list = AssetList::builder()
        .add_asset(asset("X", vec![-2, -3, -1]))
        .add_asset(asset("Y", vec![0, 1, 0]))
        .build();
    let portfolio = Portfolio::new(&list, vec![500_000, 500_000]);
    assert_eq!(portfolio.variance(), Ok(-1));
    assert_eq!(portfolio.standard_deviation(), Ok(0));
}

#[test]
fn series_of_different_lengths_are_cut_to_the_shorter() {
    let list = AssetList::builder()
        .add_asset(asset("N", vec![-5, -4, -2]))
        .add_asset(asset("S", vec![3, 1]))
        .build();
    let portfolio = Portfolio::new(&list, vec![1_000_000, 1_000_000]);
    // cov(N, N) = 2, cov(S, S) = 2, cov(N, S) = -1
    assert_eq!(covariance(list.get(0).unwrap(), list.get(0).unwrap()), Ok(2));
    assert_eq!(covariance(list.get(1).unwrap(), list.get(1).unwrap()), Ok(2));
    assert_eq!(portfolio.variance(), Ok(2));
    assert_eq!(portfolio.expected_return(), Ok(-2));
}

#[test]
fn an_empty_universe_has_no_statistics() {
    let list = AssetList::builder().build();
    let portfolio = Portfolio::new(&list, vec![]);
    assert_eq!(portfolio.expected_return(), Err(EvaluationError::EmptyUniverse));
    assert_eq!(portfolio.variance(), Err(EvaluationError::EmptyUniverse));
    assert_eq!(portfolio.standard_deviation(), Err(EvaluationError::EmptyUniverse));
}

#[test]
fn an_empty_series_leaves_the_portfolio_without_statistics() {
    let list = AssetList::builder()
        .add_asset(asset("A", vec![1]))
        .add_asset(asset("B", vec![]))
        .build();
    let portfolio = Portfolio::new(&list, vec![1_000_000, 0]);
    assert_eq!(portfolio.expected_return(), Err(EvaluationError::EmptySeries));
    assert_eq!(portfolio.variance(), Err(EvaluationError::EmptySeries));
    assert_eq!(portfolio.standard_deviation(), Err(EvaluationError::EmptySeries));
}

#[test]
fn a_single_period_gives_a_return_and_no_variance() {
    let list = AssetList::builder()
        .add_asset(asset("A", vec![4, 8]))
        .add_asset(asset("B", vec![10]))
        .build();
    let portfolio = Portfolio::new(&list, vec![500_000, 500_000]);
    assert_eq!(portfolio.expected_return(), Ok(8));
    assert_eq!(portfolio.variance(), Err(EvaluationError::InsufficientData));
    assert_eq!(portfolio.standard_deviation(), Err(EvaluationError::InsufficientData));
}

#[test]
fn the_largest_universe_at_the_widest_returns_does_not_overflow() {
    let mut assets = Vec::new();
    for _ in 0..1024 {
        assets.push(asset("W", vec![i32::MAX, i32::MIN]));
    }
    let list = AssetList::new(assets);
    let portfolio = Portfolio::new(&list, vec![1_000_000; 1024]);
    assert_eq!(portfolio.expected_return(), Ok(-1024));
    assert_eq!(
        portfolio.variance(),
        Ok(1024 * 1024 * 9_223_372_032_559_808_513)
    );
}
