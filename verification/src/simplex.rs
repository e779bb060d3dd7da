//! The quantized weight simplex: every allocation over a fixed number of assets whose
//! weights are multiples of a grid step and add up to one, within a tolerance.

use vstd::prelude::*;
use vstd::arithmetic::div_mod::{lemma_fundamental_div_mod, lemma_mod_multiples_basic};
use crate::fixed::{ONE, TOLERANCE};

verus! {

/// The sum of the weights in `w`.
pub open spec fn total(w: Seq<u32>) -> int
    decreases w.len(),
{
    if w.len() == 0 {
        0
    } else {
        total(w.drop_last()) + w.last()
    }
}

/// Every weight in `w` is a multiple of `step` between zero and one.
pub open spec fn on_grid(w: Seq<u32>, step: int) -> bool {
    forall|i: int| 0 <= i < w.len() ==> (#[trigger] w[i]) as int % step == 0 && w[i] <= ONE
}

/// The weights in `w` add up to one, give or take the tolerance.
pub open spec fn fully_invested(w: Seq<u32>) -> bool {
    ONE - TOLERANCE <= total(w) <= ONE + TOLERANCE
}

/// `w` is an allocation over `num_assets` assets at grid resolution `step`.
pub open spec fn admissible(w: Seq<u32>, num_assets: nat, step: int) -> bool {
    w.len() == num_assets && on_grid(w, step) && fully_invested(w)
}

/// `a` comes before `b` in lexicographic order.
pub open spec fn lex_less(a: Seq<u32>, b: Seq<u32>) -> bool {
    exists|i: int| 0 <= i < a.len() && i < b.len() && #[trigger] a.take(i) == b.take(i) && a[i] < b[i]
}

/// `rows` is strictly increasing in lexicographic order.
pub open spec fn lex_sorted(rows: Seq<Vec<u32>>) -> bool {
    forall|i: int, j: int| 0 <= i < j < rows.len() ==> lex_less(#[trigger] rows[i]@, #[trigger] rows[j]@)
}

/// `rows` holds every admissible weight vector, each once, in lexicographic order, and
/// nothing else.
pub open spec fn enumerates(rows: Seq<Vec<u32>>, num_assets: nat, step: int) -> bool {
    &&& forall|j: int| 0 <= j < rows.len() ==> admissible((#[trigger] rows[j])@, num_assets, step)
    &&& forall|w: Seq<u32>| #[trigger]
        admissible(w, num_assets, step) ==> exists|j: int|
            0 <= j < rows.len() && (#[trigger] rows[j])@ == w
    &&& lex_sorted(rows)
}

/// The total of a prefix grows by the weight that the prefix is extended with.
pub proof fn lemma_total_take_step(w: Seq<u32>, i: int)
    requires
        0 <= i < w.len(),
    ensures
        total(w.take(i + 1)) == total(w.take(i)) + w[i],
{
    assert(w.take(i + 1).drop_last() =~= w.take(i));
}

/// No prefix of a weight vector has a larger total than the whole vector.
pub proof fn lemma_total_take_bounded(w: Seq<u32>, i: int)
    requires
        0 <= i <= w.len(),
    ensures
        0 <= total(w.take(i)) <= total(w),
    decreases w.len() - i,
{
    if i == w.len() {
        assert(w.take(i) =~= w);
        lemma_total_nonnegative(w);
    } else {
        lemma_total_take_step(w, i);
        lemma_total_take_bounded(w, i + 1);
        lemma_total_nonnegative(w.take(i));
    }
}

proof fn lemma_total_nonnegative(w: Seq<u32>)
    ensures
        0 <= total(w),
    decreases w.len(),
{
    if w.len() > 0 {
        lemma_total_nonnegative(w.drop_last());
    }
}

/// Two multiples of `step` less than `step` apart are the same number.
proof fn lemma_multiples_apart(a: int, b: int, step: int)
    requires
        0 < step,
        a % step == 0,
        b % step == 0,
        a <= b < a + step,
    ensures
        a == b,
{
    lemma_fundamental_div_mod(a, step);
    lemma_fundamental_div_mod(b, step);
    let qa = a / step;
    let qb = b / step;
    assert(qa == qb) by (nonlinear_arith)
        requires
            0 < step,
            a == step * qa,
            b == step * qb,
            a <= b < a + step,
    ;
}

/// Of two sequences at most one comes before the other.
pub proof fn lemma_lex_less_asymmetric(a: Seq<u32>, b: Seq<u32>)
    requires
        lex_less(a, b),
    ensures
        !lex_less(b, a),
{
    if lex_less(b, a) {
        let i = choose|i: int|
            0 <= i < a.len() && i < b.len() && #[trigger] a.take(i) == b.take(i) && a[i] < b[i];
        let j = choose|j: int|
            0 <= j < b.len() && j < a.len() && #[trigger] b.take(j) == a.take(j) && b[j] < a[j];
        if i < j {
            assert(a.take(j)[i] == b.take(j)[i]);
        } else if j < i {
            assert(a.take(i)[j] == b.take(i)[j]);
        }
    }
}

/// The rows of two enumerations of one grid agree up to row `n`.
proof fn lemma_enumerations_agree(
    a: Seq<Vec<u32>>,
    b: Seq<Vec<u32>>,
    num_assets: nat,
    step: int,
    n: nat,
)
    requires
        enumerates(a, num_assets, step),
        enumerates(b, num_assets, step),
        n <= a.len(),
    ensures
        n <= b.len(),
        forall|j: int| 0 <= j < n ==> (#[trigger] a[j])@ == b[j]@,
    decreases n,
{
    if n > 0 {
        lemma_enumerations_agree(a, b, num_assets, step, (n - 1) as nat);
        let i = n - 1;
        let in_b = choose|m: int| 0 <= m < b.len() && (#[trigger] b[m])@ == a[i]@;
        if in_b < i {
            assert(a[in_b]@ == b[in_b]@);
            assert(lex_less(a[in_b]@, a[i]@));
        }
        let in_a = choose|m: int| 0 <= m < a.len() && (#[trigger] a[m])@ == b[i]@;
        if in_a < i {
            assert(a[in_a]@ == b[in_a]@);
            assert(lex_less(b[in_a]@, b[i]@));
        }
        if i < in_b {
            assert(lex_less(b[i]@, b[in_b]@));
            if i < in_a {
                assert(lex_less(a[i]@, a[in_a]@));
                lemma_lex_less_asymmetric(a[i]@, b[i]@);
            }
        }
    }
}

/// A grid has one enumeration: two enumerations of it hold the same weight vectors at
/// the same places.
pub proof fn lemma_enumeration_unique(
    a: Seq<Vec<u32>>,
    b: Seq<Vec<u32>>,
    num_assets: nat,
    step: int,
)
    requires
        enumerates(a, num_assets, step),
        enumerates(b, num_assets, step),
    ensures
        a.len() == b.len(),
        forall|j: int| 0 <= j < a.len() ==> (#[trigger] a[j])@ == b[j]@,
{
    lemma_enumerations_agree(a, b, num_assets, step, a.len());
    lemma_enumerations_agree(b, a, num_assets, step, b.len());
}

/// Rows in strictly increasing order hold no weight vector twice.
pub proof fn lemma_lex_sorted_distinct(rows: Seq<Vec<u32>>, i: int, j: int)
    requires
        lex_sorted(rows),
        0 <= i < rows.len(),
        0 <= j < rows.len(),
        i != j,
    ensures
        rows[i]@ != rows[j]@,
{
    if i < j {
        assert(lex_less(rows[i]@, rows[j]@));
    } else {
        assert(lex_less(rows[j]@, rows[i]@));
    }
}

/// Appends to `combinations`, in lexicographic order, every admissible weight vector that
/// begins with the first `index` entries of `weights`. `partial` is the total of those
/// entries. A branch is abandoned as soon as its running total exceeds what a fully
/// invested vector can hold.
fn generate_combinations_recursive(
    num_assets: usize,
    step: u32,
    combinations: &mut Vec<Vec<u32>>,
    weights: &mut Vec<u32>,
    index: usize,
    partial: u32,
)
    requires
        0 < step <= ONE,
        old(weights)@.len() == num_assets,
        index <= num_assets,
        partial == total(old(weights)@.take(index as int)),
        partial <= ONE + TOLERANCE,
        on_grid(old(weights)@.take(index as int), step as int),
    ensures
        final(weights)@.len() == num_assets,
        final(weights)@.take(index as int) == old(weights)@.take(index as int),
        final(combinations)@.len() >= old(combinations)@.len(),
        final(combinations)@.take(old(combinations)@.len() as int) == old(combinations)@,
        forall|j: int|
            old(combinations)@.len() <= j < final(combinations)@.len() ==> {
                &&& admissible((#[trigger] final(combinations)@[j])@, num_assets as nat, step as int)
                &&& final(combinations)@[j]@.take(index as int) == old(weights)@.take(index as int)
            },
        forall|w: Seq<u32>|
            admissible(w, num_assets as nat, step as int) && #[trigger] w.take(index as int) == old(
                weights,
            )@.take(index as int) ==> exists|j: int|
                old(combinations)@.len() <= j < final(combinations)@.len() && (
                #[trigger] final(combinations)@[j])@ == w,
        forall|i: int, j: int|
            old(combinations)@.len() <= i < j < final(combinations)@.len() ==> lex_less(
                (#[trigger] final(combinations)@[i])@,
                (#[trigger] final(combinations)@[j])@,
            ),
    decreases num_assets - index,
{
    let ghost prefix = weights@.take(index as int);
    let ghost before = combinations@;
    if index == num_assets {
        proof {
            assert(prefix =~= weights@);
        }
        if partial >= ONE - TOLERANCE {
            let row = weights.clone();
            proof {
                assert(row@ =~= weights@);
            }
            combinations.push(row);
            proof {
                assert(combinations@.take(before.len() as int) =~= before);
                assert(combinations@[before.len() as int]@ == weights@);
                assert forall|w: Seq<u32>|
                    admissible(w, num_assets as nat, step as int) && #[trigger] w.take(index as int)
                        == prefix implies exists|j: int|
                    before.len() <= j < combinations@.len() && (#[trigger] combinations@[j])@ == w by {
                    assert(w.take(index as int) =~= w);
                    assert(combinations@[before.len() as int]@ == w);
                }
            }
        } else {
            proof {
                assert(combinations@.take(before.len() as int) =~= before);
                assert forall|w: Seq<u32>|
                    admissible(w, num_assets as nat, step as int) && #[trigger] w.take(index as int)
                        == prefix implies false by {
                    assert(w.take(index as int) =~= w);
                }
            }
        }
        return ;
    }
    let mut weight: u32 = 0;
    let ghost mut multiple: int = 0;
    proof {
        assert(combinations@.take(before.len() as int) =~= before);
    }
    while weight <= ONE && partial + weight <= ONE + TOLERANCE
        invariant
            0 < step <= ONE,
            index < num_assets,
            weights@.len() == num_assets,
            weights@.take(index as int) == prefix,
            partial == total(prefix),
            partial <= ONE + TOLERANCE,
            on_grid(prefix, step as int),
            0 <= multiple,
            weight == multiple * step,
            weight <= ONE + step,
            combinations@.len() >= before.len(),
            combinations@.take(before.len() as int) == before,
            forall|j: int|
                before.len() <= j < combinations@.len() ==> {
                    &&& admissible((#[trigger] combinations@[j])@, num_assets as nat, step as int)
                    &&& combinations@[j]@.take(index as int) == prefix
                    &&& combinations@[j]@[index as int] < weight
                },
            forall|w: Seq<u32>|
                admissible(w, num_assets as nat, step as int) && #[trigger] w.take(index as int)
                    == prefix && w[index as int] < weight ==> exists|j: int|
                    before.len() <= j < combinations@.len() && (#[trigger] combinations@[j])@ == w,
            forall|i: int, j: int|
                before.len() <= i < j < combinations@.len() ==> lex_less(
                    (#[trigger] combinations@[i])@,
                    (#[trigger] combinations@[j])@,
                ),
        decreases ONE + step - weight,
    {
        let ghost middle = combinations@;
        weights.set(index, weight);
        proof {
            let extended = weights@.take(index as int + 1);
            assert(weights@.take(index as int) =~= prefix);
            lemma_total_take_step(weights@, index as int);
            lemma_mod_multiples_basic(multiple, step as int);
            assert forall|i: int| 0 <= i < extended.len() implies (#[trigger] extended[i]) as int % (
            step as int) == 0 && extended[i] <= ONE by {
                if i < index {
                    assert(extended[i] == prefix[i]);
                }
            }
        }
        generate_combinations_recursive(
            num_assets,
            step,
            combinations,
            weights,
            index + 1,
            partial + weight,
        );
        proof {
            let extended = weights@.take(index as int + 1);
            assert(weights@.take(index as int) =~= extended.take(index as int));
            assert(combinations@.take(before.len() as int) =~= combinations@.take(
                middle.len() as int,
            ).take(before.len() as int));
            assert forall|j: int| before.len() <= j < combinations@.len() implies {
                &&& admissible((#[trigger] combinations@[j])@, num_assets as nat, step as int)
                &&& combinations@[j]@.take(index as int) == prefix
                &&& combinations@[j]@[index as int] < weight + step
            } by {
                if j < middle.len() {
                    assert(combinations@[j] == combinations@.take(middle.len() as int)[j]);
                } else {
                    let row = combinations@[j]@;
                    assert(row.take(index as int) =~= row.take(index as int + 1).take(index as int));
                    assert(row[index as int] == row.take(index as int + 1)[index as int]);
                }
            }
            assert forall|w: Seq<u32>|
                admissible(w, num_assets as nat, step as int) && #[trigger] w.take(index as int)
                    == prefix && w[index as int] < weight + step implies exists|j: int|
                before.len() <= j < combinations@.len() && (#[trigger] combinations@[j])@ == w by {
                if w[index as int] < weight {
                    let j = choose|j: int|
                        before.len() <= j < middle.len() && (#[trigger] middle[j])@ == w;
                    assert(combinations@[j] == combinations@.take(middle.len() as int)[j]);
                } else {
                    lemma_multiples_apart(weight as int, w[index as int] as int, step as int);
                    assert(w.take(index as int + 1) =~= extended);
                }
            }
            assert forall|i: int, j: int|
                before.len() <= i < j < combinations@.len() implies lex_less(
                (#[trigger] combinations@[i])@,
                (#[trigger] combinations@[j])@,
            ) by {
                if j < middle.len() {
                    assert(combinations@[i] == combinations@.take(middle.len() as int)[i]);
                    assert(combinations@[j] == combinations@.take(middle.len() as int)[j]);
                } else if i < middle.len() {
                    assert(combinations@[i] == combinations@.take(middle.len() as int)[i]);
                    let a = combinations@[i]@;
                    let b = combinations@[j]@;
                    assert(b.take(index as int) =~= b.take(index as int + 1).take(index as int));
                    assert(b[index as int] == b.take(index as int + 1)[index as int]);
                    assert(a.take(index as int) == b.take(index as int) && a[index as int]
                        < b[index as int]);
                }
            }
            multiple = multiple + 1;
            assert((multiple - 1) * step + step == multiple * step) by (nonlinear_arith);
        }
        weight = weight + step;
    }
    proof {
        assert forall|w: Seq<u32>|
            admissible(w, num_assets as nat, step as int) && #[trigger] w.take(index as int)
                == prefix implies exists|j: int|
            before.len() <= j < combinations@.len() && (#[trigger] combinations@[j])@ == w by {
            lemma_total_take_step(w, index as int);
            lemma_total_take_bounded(w, index as int + 1);
        }
    }
}

/// Every allocation over `num_assets` assets whose weights are multiples of `step`
/// between zero and one and add up to one within the tolerance: each exactly once, in
/// lexicographic order.
pub fn generate_weight_combinations(num_assets: usize, step: u32) -> (combinations: Vec<Vec<u32>>)
    requires
        0 < step <= ONE,
    ensures
        enumerates(combinations@, num_assets as nat, step as int),
{
    let mut combinations: Vec<Vec<u32>> = Vec::new();
    let mut weights: Vec<u32> = Vec::new();
    let mut filled: usize = 0;
    while filled < num_assets
        invariant
            filled <= num_assets,
            weights@.len() == filled,
        decreases num_assets - filled,
    {
        weights.push(0);
        filled = filled + 1;
    }
    proof {
        assert(weights@.take(0) =~= Seq::<u32>::empty());
    }
    let ghost start = weights@;
    generate_combinations_recursive(num_assets, step, &mut combinations, &mut weights, 0, 0);
    proof {
        assert forall|w: Seq<u32>| #[trigger]
            admissible(w, num_assets as nat, step as int) implies exists|j: int|
            0 <= j < combinations@.len() && (#[trigger] combinations@[j])@ == w by {
            assert(w.take(0) =~= start.take(0));
        }
    }
    combinations
}

} // verus!
