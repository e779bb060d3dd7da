//! Pareto dominance between portfolios and the efficient frontier of a list of them.

use vstd::prelude::*;
use crate::error::EvaluationError;
use crate::portfolio::Portfolio;

verus! {

/// Where a portfolio lies: its expected return and its standard deviation.
pub type Point = (int, int);

/// `a` is at least as good as `b` in return and in risk, and better in one of them.
pub open spec fn dominates(a: Point, b: Point) -> bool {
    a.0 >= b.0 && a.1 <= b.1 && (a.0 > b.0 || a.1 < b.1)
}

/// No point of `points` dominates the one at `i`, and none before it is the same.
pub open spec fn efficient(points: Seq<Point>, i: int) -> bool {
    &&& forall|j: int| 0 <= j < points.len() ==> !dominates(#[trigger] points[j], points[i])
    &&& forall|j: int| 0 <= j < i ==> #[trigger] points[j] != points[i]
}

/// The efficient indices below `n`, in ascending order.
pub open spec fn frontier(points: Seq<Point>, n: nat) -> Seq<int>
    decreases n,
{
    if n == 0 {
        Seq::empty()
    } else if efficient(points, n - 1) {
        frontier(points, (n - 1) as nat).push(n - 1)
    } else {
        frontier(points, (n - 1) as nat)
    }
}

/// Where `portfolio` lies, or why it has no place.
pub open spec fn point_of(portfolio: &Portfolio) -> Result<Point, EvaluationError> {
    match (portfolio.spec_expected_return(), portfolio.spec_standard_deviation()) {
        (Err(e), _) => Err(e),
        (Ok(_), Err(e)) => Err(e),
        (Ok(expected), Ok(deviation)) => Ok((expected, deviation)),
    }
}

/// Where each of `portfolios` lies. An entry means nothing for a portfolio without a
/// place.
pub open spec fn points_of(portfolios: Seq<Portfolio>) -> Seq<Point> {
    Seq::new(portfolios.len(), |i: int| point_of(&portfolios[i])->Ok_0)
}

/// Why the first of the first `n` portfolios that has no place has none.
pub open spec fn first_failure(portfolios: Seq<Portfolio>, n: nat) -> Option<EvaluationError>
    decreases n,
{
    if n == 0 {
        None
    } else if first_failure(portfolios, (n - 1) as nat).is_some() {
        first_failure(portfolios, (n - 1) as nat)
    } else {
        match point_of(&portfolios[n - 1]) {
            Ok(_) => None,
            Err(e) => Some(e),
        }
    }
}

/// `chosen` holds the portfolios of `portfolios` at the indices `picks`, in that order.
pub open spec fn selects(chosen: Seq<Portfolio>, portfolios: Seq<Portfolio>, picks: Seq<int>) -> bool {
    &&& chosen.len() == picks.len()
    &&& forall|k: int| 0 <= k < chosen.len() ==> #[trigger] chosen[k] == portfolios[picks[k]]
}

/// The indices of a frontier ascend, lie below `n`, and are efficient.
pub proof fn lemma_frontier_members(points: Seq<Point>, n: nat)
    ensures
        forall|k: int|
            0 <= k < frontier(points, n).len() ==> {
                &&& 0 <= (#[trigger] frontier(points, n)[k]) < n
                &&& efficient(points, frontier(points, n)[k])
            },
        forall|k: int, l: int|
            0 <= k < l < frontier(points, n).len() ==> #[trigger] frontier(points, n)[k]
                < #[trigger] frontier(points, n)[l],
    decreases n,
{
    if n > 0 {
        lemma_frontier_members(points, (n - 1) as nat);
        let shorter = frontier(points, (n - 1) as nat);
        let longer = frontier(points, n);
        assert forall|k: int| 0 <= k < longer.len() implies {
            &&& 0 <= (#[trigger] longer[k]) < n
            &&& efficient(points, longer[k])
        } by {
            if k < shorter.len() {
                assert(longer[k] == shorter[k]);
            }
        }
        assert forall|k: int, l: int| 0 <= k < l < longer.len() implies #[trigger] longer[k]
            < #[trigger] longer[l] by {
            assert(longer[k] == shorter[k]);
            if l < shorter.len() {
                assert(longer[l] == shorter[l]);
            }
        }
    }
}

/// Every efficient index below `n` is on the frontier.
pub proof fn lemma_frontier_complete(points: Seq<Point>, n: nat, i: int)
    requires
        0 <= i < n,
        efficient(points, i),
    ensures
        frontier(points, n).contains(i),
    decreases n,
{
    if i == n - 1 {
        assert(frontier(points, n).last() == i);
    } else {
        lemma_frontier_complete(points, (n - 1) as nat, i);
        let shorter = frontier(points, (n - 1) as nat);
        let k = choose|k: int| 0 <= k < shorter.len() && (#[trigger] shorter[k]) == i;
        assert(frontier(points, n)[k] == i);
    }
}

/// No point dominates a point on the frontier.
pub proof fn lemma_frontier_excludes_dominated(points: Seq<Point>, k: int, j: int)
    requires
        0 <= k < frontier(points, points.len()).len(),
        0 <= j < points.len(),
    ensures
        !dominates(points[j], points[frontier(points, points.len())[k]]),
{
    lemma_frontier_members(points, points.len());
}

/// Among the first `n` points there is one that none of them dominates and that none
/// before it equals.
proof fn lemma_best_index(points: Seq<Point>, n: nat) -> (best: int)
    requires
        0 < n <= points.len(),
    ensures
        0 <= best < n,
        forall|j: int| 0 <= j < n ==> !dominates(#[trigger] points[j], points[best]),
        forall|j: int| 0 <= j < best ==> #[trigger] points[j] != points[best],
    decreases n,
{
    if n == 1 {
        0
    } else {
        let earlier = lemma_best_index(points, (n - 1) as nat);
        if dominates(points[n - 1], points[earlier]) {
            assert forall|j: int| 0 <= j < n implies !dominates(
                #[trigger] points[j],
                points[n - 1],
            ) by {
                if j < n - 1 && dominates(points[j], points[n - 1]) {
                    assert(dominates(points[j], points[earlier]));
                }
            }
            assert forall|j: int| 0 <= j < n - 1 implies #[trigger] points[j] != points[n - 1] by {
                if points[j] == points[n - 1] {
                    assert(dominates(points[j], points[earlier]));
                }
            }
            n - 1
        } else {
            earlier
        }
    }
}

/// A list of points that is not empty has a frontier that is not empty.
pub proof fn lemma_frontier_nonempty(points: Seq<Point>)
    requires
        points.len() > 0,
    ensures
        frontier(points, points.len()).len() > 0,
{
    let best = lemma_best_index(points, points.len());
    lemma_frontier_complete(points, points.len(), best);
}

/// Once a portfolio without a place has been met, the failure stays what it is.
pub proof fn lemma_first_failure_stable(portfolios: Seq<Portfolio>, m: nat, n: nat)
    requires
        m <= n,
        first_failure(portfolios, m).is_some(),
    ensures
        first_failure(portfolios, n) == first_failure(portfolios, m),
    decreases n,
{
    if m < n {
        lemma_first_failure_stable(portfolios, m, (n - 1) as nat);
    }
}

/// The candidates that no candidate dominates, in the order in which they were given.
/// Of candidates that lie at the same point only the first is kept. If a candidate has
/// no expected return or no standard deviation, the first such candidate's error is
/// returned.
pub fn efficient_frontier<'a>(candidates: Vec<Portfolio<'a>>) -> (r: Result<
    Vec<Portfolio<'a>>,
    EvaluationError,
>)
    ensures
        match r {
            Ok(chosen) => {
                &&& first_failure(candidates@, candidates@.len()).is_none()
                &&& selects(
                    chosen@,
                    candidates@,
                    frontier(points_of(candidates@), candidates@.len()),
                )
            },
            Err(e) => first_failure(candidates@, candidates@.len()) == Some(e),
        },
{
    let n = candidates.len();
    let ghost all = candidates@;
    let ghost places = points_of(all);
    let mut points: Vec<(i128, i128)> = Vec::new();
    let mut i: usize = 0;
    while i < n
        invariant
            all == candidates@,
            places == points_of(all),
            n == all.len(),
            i <= n,
            points@.len() == i,
            first_failure(all, i as nat).is_none(),
            forall|j: int|
                0 <= j < i ==> (#[trigger] points@[j]).0 == places[j].0 && points@[j].1
                    == places[j].1,
        decreases n - i,
    {
        let expected = match candidates[i].expected_return() {
            Ok(m) => m,
            Err(e) => {
                proof {
                    lemma_first_failure_stable(all, (i + 1) as nat, n as nat);
                }
                return Err(e);
            },
        };
        let deviation = match candidates[i].standard_deviation() {
            Ok(d) => d,
            Err(e) => {
                proof {
                    lemma_first_failure_stable(all, (i + 1) as nat, n as nat);
                }
                return Err(e);
            },
        };
        points.push((expected, deviation));
        i = i + 1;
    }
    let mut keep: Vec<bool> = Vec::new();
    i = 0;
    while i < n
        invariant
            places.len() == n,
            points@.len() == n,
            i <= n,
            keep@.len() == i,
            forall|j: int|
                0 <= j < n ==> (#[trigger] points@[j]).0 == places[j].0 && points@[j].1
                    == places[j].1,
            forall|j: int| 0 <= j < i ==> #[trigger] keep@[j] == efficient(places, j),
        decreases n - i,
    {
        let this = points[i];
        let mut good = true;
        let mut j: usize = 0;
        while j < n
            invariant
                places.len() == n,
                points@.len() == n,
                i < n,
                j <= n,
                this == points@[i as int],
                forall|j: int|
                    0 <= j < n ==> (#[trigger] points@[j]).0 == places[j].0 && points@[j].1
                        == places[j].1,
                good <==> forall|l: int|
                    0 <= l < j ==> !dominates(#[trigger] places[l], places[i as int]) && (l < i
                        ==> places[l] != places[i as int]),
            decreases n - j,
        {
            let other = points[j];
            let dominated = other.0 >= this.0 && other.1 <= this.1 && (other.0 > this.0 || other.1
                < this.1);
            let repeated = j < i && other.0 == this.0 && other.1 == this.1;
            proof {
                assert(dominated == dominates(places[j as int], places[i as int]));
                assert(repeated == (j < i && places[j as int] == places[i as int]));
            }
            if dominated || repeated {
                good = false;
            }
            j = j + 1;
        }
        keep.push(good);
        i = i + 1;
    }
    let mut chosen: Vec<Portfolio<'a>> = Vec::new();
    let mut at: usize = 0;
    for portfolio in iter: candidates.into_iter()
        invariant
            iter.seq() == all,
            at == iter.index(),
            n == all.len(),
            keep@.len() == n,
            forall|j: int| 0 <= j < n ==> #[trigger] keep@[j] == efficient(places, j),
            selects(chosen@, all, frontier(places, at as nat)),
    {
        if keep[at] {
            chosen.push(portfolio);
        }
        at = at + 1;
    }
    Ok(chosen)
}

} // verus!
