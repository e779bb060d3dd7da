//! The optimizer: every allocation on the weight grid of a universe, and those among
//! them that no other dominates.

use vstd::prelude::*;
use crate::asset::Asset;
use crate::error::{outcome, EvaluationError};
use crate::evaluator::PortfolioEvaluator;
use crate::fixed::ONE;
use crate::frontier::{
    dominates, efficient, efficient_frontier, first_failure, frontier, lemma_frontier_complete,
    lemma_frontier_members, lemma_frontier_nonempty, point_of, points_of, Point,
};
use crate::portfolio::{deviation_of, expected_return_of, risk_defect, Portfolio, MAX_ASSETS};
use crate::simplex::{
    admissible, enumerates, generate_weight_combinations, lemma_lex_less_asymmetric, lex_less,
};
use crate::universe::AssetList;

verus! {

/// Where the allocation `weights` over `universe` lies. It means nothing where the
/// universe has a defect.
pub open spec fn place_of(universe: Seq<Asset>, weights: Seq<u32>) -> Point {
    (expected_return_of(universe, weights)->Ok_0, deviation_of(universe, weights)->Ok_0)
}

/// A source of candidate portfolios over one universe and of the efficient ones among
/// them.
pub trait Optimizer {
    /// The assets that the optimizer allocates over.
    spec fn universe(&self) -> Seq<Asset>;

    /// Whether the optimizer takes the allocation `weights` for a candidate.
    spec fn considers(&self, weights: Seq<u32>) -> bool;

    /// A portfolio for every allocation that the optimizer considers.
    fn get_candidate_portfolios(&self) -> (candidates: Vec<Portfolio<'_>>)
        ensures
            forall|j: int|
                0 <= j < candidates@.len() ==> {
                    &&& (#[trigger] candidates@[j]).universe() == self.universe()
                    &&& self.considers(candidates@[j].allocation())
                },
            forall|w: Seq<u32>| #[trigger]
                self.considers(w) ==> exists|j: int|
                    0 <= j < candidates@.len() && (#[trigger] candidates@[j]).allocation() == w,
    ;

    /// Candidates that no candidate dominates. Without a candidate there is nothing to
    /// evaluate and the result is empty; otherwise the universe must allow a variance.
    fn get_efficient_portfolios(&self) -> (r: Result<Vec<Portfolio<'_>>, EvaluationError>)
        ensures
            r is Err <==> risk_defect(self.universe()).is_some() && exists|w: Seq<u32>|
                self.considers(w),
            r matches Err(e) ==> risk_defect(self.universe()) == Some(e),
            r matches Ok(chosen) ==> forall|k: int|
                0 <= k < chosen@.len() ==> {
                    &&& (#[trigger] chosen@[k]).universe() == self.universe()
                    &&& self.considers(chosen@[k].allocation())
                    &&& forall|w: Seq<u32>| #[trigger]
                        self.considers(w) ==> !dominates(
                            place_of(self.universe(), w),
                            place_of(self.universe(), chosen@[k].allocation()),
                        )
                },
    ;
}

/// Searches the allocations over a universe whose weights are multiples of a step.
pub struct PortfolioOptimizer {
    step_size: u32,
    asset_list: AssetList,
}

impl PortfolioOptimizer {
    /// The grid step, in millionths.
    pub closed spec fn step(&self) -> int {
        self.step_size as int
    }

    /// `weights` is a candidate that no candidate dominates and that comes first among
    /// the candidates that lie where it lies.
    pub open spec fn is_efficient(&self, weights: Seq<u32>) -> bool {
        &&& self.considers(weights)
        &&& forall|other: Seq<u32>| #[trigger]
            self.considers(other) ==> {
                &&& !dominates(
                    place_of(self.universe(), other),
                    place_of(self.universe(), weights),
                )
                &&& place_of(self.universe(), other) == place_of(self.universe(), weights)
                    ==> !lex_less(other, weights)
            }
    }

    #[verifier::type_invariant]
    spec fn within_limits(&self) -> bool {
        0 < self.step_size <= ONE && self.asset_list@.len() <= MAX_ASSETS
    }

    /// An optimizer over `asset_list` with a grid step between zero, exclusive, and one.
    pub fn new(asset_list: AssetList, step_size: u32) -> (optimizer: Self)
        requires
            0 < step_size <= ONE,
            asset_list@.len() <= MAX_ASSETS,
        ensures
            optimizer.universe() == asset_list@,
            optimizer.step() == step_size,
    {
        Self { asset_list, step_size }
    }

    /// Every allocation over the universe whose weights are multiples of the step between
    /// zero and one and add up to one within the tolerance: each once, in lexicographic
    /// order.
    pub fn generate_weight_combinations(&self) -> (combinations: Vec<Vec<u32>>)
        ensures
            enumerates(combinations@, self.universe().len(), self.step()),
    {
        proof {
            use_type_invariant(self);
        }
        generate_weight_combinations(self.asset_list.len(), self.step_size)
    }

    /// Every candidate portfolio, in lexicographic order of the allocations, with the
    /// score that `evaluator` gives it. A candidate without a score keeps its place,
    /// with the reason for which it has none.
    pub fn get_scored_portfolios<E: PortfolioEvaluator>(&self, evaluator: &E) -> (scored: Vec<
        (Portfolio<'_>, Result<i128, EvaluationError>),
    >)
        ensures
            forall|j: int|
                0 <= j < scored@.len() ==> {
                    &&& (#[trigger] scored@[j]).0.universe() == self.universe()
                    &&& self.considers(scored@[j].0.allocation())
                    &&& outcome(scored@[j].1) == evaluator.score_of(&scored@[j].0)
                },
            forall|w: Seq<u32>| #[trigger]
                self.considers(w) ==> exists|j: int|
                    0 <= j < scored@.len() && (#[trigger] scored@[j]).0.allocation() == w,
            forall|i: int, j: int|
                0 <= i < j < scored@.len() ==> lex_less(
                    (#[trigger] scored@[i]).0.allocation(),
                    (#[trigger] scored@[j]).0.allocation(),
                ),
    {
        let candidates = self.get_candidate_portfolios();
        let ghost all = candidates@;
        let mut scored: Vec<(Portfolio<'_>, Result<i128, EvaluationError>)> = Vec::new();
        for portfolio in iter: candidates.into_iter()
            invariant
                iter.seq() == all,
                scored@.len() == iter.index(),
                forall|j: int|
                    0 <= j < scored@.len() ==> {
                        &&& (#[trigger] scored@[j]).0 == all[j]
                        &&& outcome(scored@[j].1) == evaluator.score_of(&scored@[j].0)
                    },
        {
            let score = evaluator.evaluate(&portfolio);
            scored.push((portfolio, score));
        }
        proof {
            assert forall|w: Seq<u32>| #[trigger] self.considers(w) implies exists|j: int|
                0 <= j < scored@.len() && (#[trigger] scored@[j]).0.allocation() == w by {
                let j = choose|j: int| 0 <= j < all.len() && (#[trigger] all[j]).allocation() == w;
                assert(scored@[j].0 == all[j]);
            }
        }
        scored
    }
}

/// Portfolios over one universe all fail for the reason for which the universe allows
/// no variance, if there is one.
pub proof fn lemma_uniform_failure(portfolios: Seq<Portfolio>, universe: Seq<Asset>, n: nat)
    requires
        n <= portfolios.len(),
        forall|j: int| 0 <= j < portfolios.len() ==> (#[trigger] portfolios[j]).universe() == universe,
    ensures
        n == 0 ==> first_failure(portfolios, n).is_none(),
        n > 0 ==> first_failure(portfolios, n) == risk_defect(universe),
        forall|j: int|
            0 <= j < portfolios.len() && risk_defect(universe).is_none() ==> point_of(
                &#[trigger] portfolios[j],
            ) == Ok::<Point, EvaluationError>(place_of(universe, portfolios[j].allocation())),
    decreases n,
{
    if n > 0 {
        lemma_uniform_failure(portfolios, universe, (n - 1) as nat);
        let last = portfolios[n - 1];
        assert(last.universe() == universe);
    }
    assert forall|j: int|
        0 <= j < portfolios.len() && risk_defect(universe).is_none() implies point_of(
        &#[trigger] portfolios[j],
    ) == Ok::<Point, EvaluationError>(place_of(universe, portfolios[j].allocation())) by {
        assert(portfolios[j].universe() == universe);
    }
}

/// The allocations of `portfolios` ascend in lexicographic order.
pub open spec fn lex_ascending(portfolios: Seq<Portfolio>) -> bool {
    forall|i: int, j: int|
        0 <= i < j < portfolios.len() ==> lex_less(
            (#[trigger] portfolios[i]).allocation(),
            (#[trigger] portfolios[j]).allocation(),
        )
}

impl Optimizer for PortfolioOptimizer {
    closed spec fn universe(&self) -> Seq<Asset> {
        self.asset_list@
    }

    open spec fn considers(&self, weights: Seq<u32>) -> bool {
        admissible(weights, self.universe().len(), self.step())
    }

    /// A portfolio for every allocation on the grid that is fully invested, in
    /// lexicographic order of the allocations.
    fn get_candidate_portfolios(&self) -> (candidates: Vec<Portfolio<'_>>)
        ensures
            lex_ascending(candidates@),
    {
        proof {
            use_type_invariant(self);
        }
        let combinations = self.generate_weight_combinations();
        let ghost rows = combinations@;
        let mut candidates: Vec<Portfolio<'_>> = Vec::new();
        for weights in iter: combinations.into_iter()
            invariant
                iter.seq() == rows,
                self.asset_list@.len() <= MAX_ASSETS,
                forall|j: int|
                    0 <= j < rows.len() ==> admissible(
                        (#[trigger] rows[j])@,
                        self.universe().len(),
                        self.step(),
                    ),
                candidates@.len() == iter.index(),
                forall|j: int|
                    0 <= j < candidates@.len() ==> {
                        &&& (#[trigger] candidates@[j]).universe() == self.universe()
                        &&& candidates@[j].allocation() == rows[j]@
                    },
        {
            candidates.push(Portfolio::new(&self.asset_list, weights));
        }
        proof {
            assert forall|w: Seq<u32>| #[trigger] self.considers(w) implies exists|j: int|
                0 <= j < candidates@.len() && (#[trigger] candidates@[j]).allocation() == w by {
                let j = choose|j: int| 0 <= j < rows.len() && (#[trigger] rows[j])@ == w;
                assert(candidates@[j].allocation() == w);
            }
        }
        candidates
    }

    /// The portfolios of the efficient allocations, in lexicographic order of the
    /// allocations.
    fn get_efficient_portfolios(&self) -> (r: Result<Vec<Portfolio<'_>>, EvaluationError>)
        ensures
            r matches Ok(chosen) ==> {
                &&& lex_ascending(chosen@)
                &&& (chosen@.len() == 0 <==> (forall|w: Seq<u32>| !self.considers(w)))
                &&& forall|k: int|
                    0 <= k < chosen@.len() ==> self.is_efficient(
                        (#[trigger] chosen@[k]).allocation(),
                    )
                &&& forall|w: Seq<u32>| #[trigger]
                    self.is_efficient(w) ==> exists|k: int|
                        0 <= k < chosen@.len() && (#[trigger] chosen@[k]).allocation() == w
            },
    {
        let candidates = self.get_candidate_portfolios();
        let ghost all = candidates@;
        let ghost places = points_of(all);
        let ghost picks = frontier(places, all.len());
        let r = efficient_frontier(candidates);
        proof {
            let universe = self.universe();
            lemma_uniform_failure(all, universe, all.len());
            lemma_frontier_members(places, all.len());
            if all.len() > 0 {
                assert(self.considers(all[0].allocation()));
                lemma_frontier_nonempty(places);
            }
            if r is Ok {
                let chosen = r->Ok_0;
                assert forall|j: int| 0 <= j < all.len() implies #[trigger] places[j] == place_of(
                    universe,
                    all[j].allocation(),
                ) by {
                    assert(point_of(&all[j]) == Ok::<Point, EvaluationError>(
                        place_of(universe, all[j].allocation()),
                    ));
                }
                assert forall|k: int| 0 <= k < chosen@.len() implies self.is_efficient(
                    (#[trigger] chosen@[k]).allocation(),
                ) by {
                    let i = picks[k];
                    assert(chosen@[k] == all[i]);
                    assert(efficient(places, i));
                    assert forall|other: Seq<u32>| #[trigger] self.considers(other) implies {
                        &&& !dominates(
                            place_of(universe, other),
                            place_of(universe, all[i].allocation()),
                        )
                        &&& place_of(universe, other) == place_of(universe, all[i].allocation())
                            ==> !lex_less(other, all[i].allocation())
                    } by {
                        let j = choose|j: int|
                            0 <= j < all.len() && (#[trigger] all[j]).allocation() == other;
                        assert(places[j] == place_of(universe, other));
                        if places[j] == places[i] && i < j {
                            lemma_lex_less_asymmetric(all[i].allocation(), all[j].allocation());
                        }
                    }
                }
                assert forall|w: Seq<u32>| #[trigger] self.is_efficient(w) implies exists|k: int|
                    0 <= k < chosen@.len() && (#[trigger] chosen@[k]).allocation() == w by {
                    let i = choose|i: int| 0 <= i < all.len() && (#[trigger] all[i]).allocation() == w;
                    assert forall|j: int| 0 <= j < places.len() implies !dominates(
                        #[trigger] places[j],
                        places[i],
                    ) by {
                        assert(self.considers(all[j].allocation()));
                    }
                    assert forall|j: int| 0 <= j < i implies #[trigger] places[j] != places[i] by {
                        assert(self.considers(all[j].allocation()));
                        assert(lex_less(all[j].allocation(), all[i].allocation()));
                    }
                    lemma_frontier_complete(places, all.len(), i);
                    let k = choose|k: int| 0 <= k < picks.len() && (#[trigger] picks[k]) == i;
                    assert(chosen@[k] == all[i]);
                }
                assert forall|k: int, l: int| 0 <= k < l < chosen@.len() implies lex_less(
                    (#[trigger] chosen@[k]).allocation(),
                    (#[trigger] chosen@[l]).allocation(),
                ) by {
                    assert(chosen@[k] == all[picks[k]]);
                    assert(chosen@[l] == all[picks[l]]);
                    assert(picks[k] < picks[l]);
                }
            }
        }
        r
    }
}

} // verus!
