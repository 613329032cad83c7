//! Nutrient totals, the balance score, and recommendations.

use vstd::prelude::*;

use crate::amount::AMOUNT_LIMIT;
use crate::catalog::{foods_wf, in_range, nutrients_wf, Food, Nutrient, INTAKE_FLOOR};
use crate::rank::{is_top, k_largest, k_largest_of, top_keys_agree};

verus! {

/// How many foods are recommended at most.
pub const RECOMMENDATIONS: usize = 3;

/// Bound on the contribution of any one nutrient to a balance score.
pub const TERM_LIMIT: i128 = 1000;

/// Beyond this consumed amount, in magnitude, a nutrient's contribution is
/// at its bound whatever the food holds.
const CONSUMED_CAP: i128 = 10_000_000_000_000_000_000_000_000_000_000;

/// The total amount of nutrient `j` in `foods`.
pub open spec fn column_sum(foods: Seq<Food>, j: int) -> int
    decreases foods.len(),
{
    if foods.len() == 0 {
        0
    } else {
        column_sum(foods.drop_last(), j) + foods.last().nutrients@[j]
    }
}

proof fn lemma_column_sum_bound(foods: Seq<Food>, j: int, k: nat)
    requires
        foods_wf(foods, k),
        0 <= j < k,
    ensures
        -(foods.len() * AMOUNT_LIMIT) <= column_sum(foods, j) <= foods.len() * AMOUNT_LIMIT,
    decreases foods.len(),
{
    if foods.len() > 0 {
        assert(foods_wf(foods.drop_last(), k)) by {
            assert forall|i: int| 0 <= i < foods.drop_last().len() implies (
            #[trigger] foods.drop_last()[i]).wf(k) by {
                assert(foods.drop_last()[i] == foods[i]);
            }
        }
        lemma_column_sum_bound(foods.drop_last(), j, k);
        assert(foods[foods.len() - 1].wf(k));
    }
}

/// Totals each nutrient of the catalog over `foods`.
pub fn sum_nutrients(nutrients: Vec<Nutrient>, foods: Vec<Food>) -> (r: Vec<i128>)
    requires
        foods_wf(foods@, nutrients@.len()),
    ensures
        r@.len() == nutrients@.len(),
        forall|j: int| 0 <= j < nutrients@.len() ==> #[trigger] r@[j] == column_sum(foods@, j),
{
    let k = nutrients.len();
    let mut sums: Vec<i128> = Vec::new();
    let mut j: usize = 0;
    while j < k
        invariant
            k == nutrients@.len(),
            foods_wf(foods@, k as nat),
            j <= k,
            sums@.len() == j,
            forall|m: int| 0 <= m < j ==> #[trigger] sums@[m] == column_sum(foods@, m),
        decreases k - j,
    {
        let mut total: i128 = 0;
        let mut i: usize = 0;
        while i < foods.len()
            invariant
                k == nutrients@.len(),
                foods_wf(foods@, k as nat),
                j < k,
                i <= foods@.len(),
                total == column_sum(foods@.take(i as int), j as int),
            decreases foods@.len() - i,
        {
            proof {
                assert(foods@.take(i + 1).drop_last() =~= foods@.take(i as int));
                assert(foods_wf(foods@.take(i + 1), k as nat)) by {
                    assert forall|a: int| 0 <= a < foods@.take(i + 1).len() implies (
                    #[trigger] foods@.take(i + 1)[a]).wf(k as nat) by {
                        assert(foods@.take(i + 1)[a] == foods@[a]);
                    }
                }
                lemma_column_sum_bound(foods@.take(i + 1), j as int, k as nat);
                assert((i + 1) * AMOUNT_LIMIT <= 0x1_0000_0000_0000_0000 * AMOUNT_LIMIT)
                    by (nonlinear_arith)
                    requires
                        i + 1 <= 0x1_0000_0000_0000_0000,
                ;
            }
            total = total + foods[i].nutrients[j];
            i = i + 1;
        }
        assert(foods@.take(foods@.len() as int) =~= foods@);
        sums.push(total);
        j = j + 1;
    }
    sums
}

/// Division that rounds toward zero, for a positive divisor.
pub open spec fn trunc_div(a: int, b: int) -> int {
    if a >= 0 {
        a / b
    } else {
        -((-a) / b)
    }
}

pub open spec fn clamp(x: int, lo: int, hi: int) -> int {
    if x < lo {
        lo
    } else if x > hi {
        hi
    } else {
        x
    }
}

/// What one nutrient adds to a food's balance score: the food's amount
/// relative to the recommended intake, times how far the consumed amount is
/// below a quarter of it, scaled by a thousand, rounded toward zero and
/// bounded by a thousand either way.
pub open spec fn balance_term(amount: int, intake: int, consumed: int) -> int {
    clamp(
        trunc_div(1000 * amount * (intake - 4 * consumed), intake * intake),
        -TERM_LIMIT as int,
        TERM_LIMIT as int,
    )
}

/// The balance score over the first `n` nutrients of the catalog.
pub open spec fn score_upto(
    nutrients: Seq<Nutrient>,
    amounts: Seq<i128>,
    sums: Seq<i128>,
    n: int,
) -> int
    decreases n,
{
    if n <= 0 {
        0
    } else {
        score_upto(nutrients, amounts, sums, n - 1) + if nutrients[n - 1].has_guidance() {
            balance_term(
                amounts[n - 1] as int,
                nutrients[n - 1].recommended_intake as int,
                sums[n - 1] as int,
            )
        } else {
            0
        }
    }
}

/// How well a food's amounts would correct the consumed `sums`, summed over
/// the nutrients that have a recommended intake.
pub open spec fn balance_score_of(
    nutrients: Seq<Nutrient>,
    amounts: Seq<i128>,
    sums: Seq<i128>,
) -> int {
    score_upto(nutrients, amounts, sums, nutrients.len() as int)
}

proof fn lemma_term_clamped(af: int, ad: int, q: int, s: int)
    requires
        af >= 1,
        q >= 1,
        af * ad >= q,
        ad >= 0,
        s == 1 || s == -1,
    ensures
        clamp(trunc_div(s * 1000 * af * ad, q), -1000, 1000) == s * 1000,
{
    assert(1000 * af * ad >= 1000 * q) by (nonlinear_arith)
        requires
            af * ad >= q,
    ;
    assert((1000 * af * ad) / q >= 1000) by (nonlinear_arith)
        requires
            1000 * af * ad >= 1000 * q,
            q >= 1,
    ;
    let m = 1000 * af * ad;
    assert(s * 1000 * af * ad == s * m) by (nonlinear_arith)
        requires
            m == 1000 * af * ad,
    ;
    if s == 1 {
        assert(s * m == m);
    } else {
        assert(s * m == -m) by (nonlinear_arith)
            requires
                s == -1,
        ;
    }
}

proof fn lemma_term_inside(af: int, ad: int, q: int, s: int)
    requires
        af >= 1,
        q >= 1,
        0 <= af * ad < q,
        ad >= 0,
        s == 1 || s == -1,
    ensures
        clamp(trunc_div(s * 1000 * af * ad, q), -1000, 1000) == s * ((1000 * af * ad) / q),
        0 <= (1000 * af * ad) / q < 1000,
{
    assert(1000 * af * ad < 1000 * q) by (nonlinear_arith)
        requires
            af * ad < q,
    ;
    assert(0 <= (1000 * af * ad) / q < 1000) by (nonlinear_arith)
        requires
            0 <= 1000 * af * ad < 1000 * q,
            q >= 1,
    ;
    let m = 1000 * af * ad;
    assert(s * 1000 * af * ad == s * m) by (nonlinear_arith)
        requires
            m == 1000 * af * ad,
    ;
    if s == 1 {
        assert(s * m == m);
    } else {
        assert(s * m == -m) by (nonlinear_arith)
            requires
                s == -1,
        ;
    }
}

/// What one nutrient adds to a food's balance score.
fn balance_term_exec(amount: i128, intake: i128, consumed: i128) -> (r: i128)
    requires
        in_range(amount as int),
        INTAKE_FLOOR < intake < AMOUNT_LIMIT,
    ensures
        r == balance_term(amount as int, intake as int, consumed as int),
        -TERM_LIMIT <= r <= TERM_LIMIT,
{
    let ghost f = amount as int;
    let ghost ri = intake as int;
    let ghost t = consumed as int;
    assert(intake * intake < 1_000_000_000_000_000_000_000_000_000_000) by (nonlinear_arith)
        requires
            0 < intake < 1_000_000_000_000_000,
    ;
    let q = intake * intake;
    assert(q > 0) by (nonlinear_arith)
        requires
            0 < intake,
            q == intake * intake,
    ;
    if amount == 0 {
        assert(1000 * f * (ri - 4 * t) == 0) by (nonlinear_arith)
            requires
                f == 0,
        ;
        return 0;
    }
    let af: i128 = if amount < 0 {
        -amount
    } else {
        amount
    };
    let s: i128 = if amount < 0 {
        -1
    } else {
        1
    };
    assert(f == s * af) by (nonlinear_arith)
        requires
            f == amount,
            af == if amount < 0 {
                -amount
            } else {
                amount as int
            },
            s == if amount < 0 {
                -1int
            } else {
                1int
            },
    ;
    if consumed >= CONSUMED_CAP || consumed <= -CONSUMED_CAP {
        // The factor for the consumed amount outweighs any amount.
        let ghost ad = if consumed > 0 {
            4 * t - ri
        } else {
            ri - 4 * t
        };
        let sd: i128 = if consumed > 0 {
            -1
        } else {
            1
        };
        assert(ri - 4 * t == sd * ad) by (nonlinear_arith)
            requires
                ad == if consumed > 0 {
                    4 * t - ri
                } else {
                    ri - 4 * t
                },
                sd == if consumed > 0 {
                    -1int
                } else {
                    1int
                },
        ;
        assert(ad >= q);
        assert(af * ad >= q) by (nonlinear_arith)
            requires
                af >= 1,
                ad >= q,
                q > 0,
        ;
        assert(1000 * f * (ri - 4 * t) == (s * sd) * 1000 * af * ad) by (nonlinear_arith)
            requires
                f == s * af,
                ri - 4 * t == sd * ad,
        ;
        proof {
            lemma_term_clamped(af as int, ad, q as int, s * sd);
        }
        return s * sd * TERM_LIMIT;
    }
    let d = intake - 4 * consumed;
    let ad: i128 = if d < 0 {
        -d
    } else {
        d
    };
    let sd: i128 = if d < 0 {
        -1
    } else {
        1
    };
    assert(d == sd * ad) by (nonlinear_arith)
        requires
            ad == if d < 0 {
                -d
            } else {
                d as int
            },
            sd == if d < 0 {
                -1int
            } else {
                1int
            },
    ;
    assert(1000 * f * (ri - 4 * t) == (s * sd) * 1000 * af * ad) by (nonlinear_arith)
        requires
            f == s * af,
            ri - 4 * t == sd * ad,
    ;
    // Smallest magnitude of `d` at which the term reaches its bound.
    let c = (q + af - 1) / af;
    assert(c * af >= q && (c - 1) * af < q) by (nonlinear_arith)
        requires
            af >= 1,
            q >= 1,
            c as int == (q as int + af as int - 1) / (af as int),
    ;
    if ad >= c {
        assert(af * ad >= q) by (nonlinear_arith)
            requires
                af >= 1,
                ad >= c,
                c * af >= q,
        ;
        proof {
            lemma_term_clamped(af as int, ad as int, q as int, s * sd);
        }
        s * sd * TERM_LIMIT
    } else {
        assert(0 <= af * ad < q) by (nonlinear_arith)
            requires
                af >= 1,
                0 <= ad <= c - 1,
                (c - 1) * af < q,
        ;
        assert(1000 * af * ad < 1000 * q) by (nonlinear_arith)
            requires
                af * ad < q,
        ;
        proof {
            lemma_term_inside(af as int, ad as int, q as int, s * sd);
        }
        let m = (1000 * af * ad) / q;
        s * sd * m
    }
}

/// The balance score of a food against the consumed `sums`.
fn balance_score(nutrients: &Vec<Nutrient>, food: &Food, sums: &Vec<i128>) -> (r: i128)
    requires
        nutrients_wf(nutrients@),
        food.wf(nutrients@.len()),
        sums@.len() == nutrients@.len(),
    ensures
        r == balance_score_of(nutrients@, food.nutrients@, sums@),
        -1000 * nutrients@.len() <= r <= 1000 * nutrients@.len(),
{
    let mut total: i128 = 0;
    let mut j: usize = 0;
    while j < nutrients.len()
        invariant
            nutrients_wf(nutrients@),
            food.wf(nutrients@.len()),
            sums@.len() == nutrients@.len(),
            j <= nutrients@.len(),
            total == score_upto(nutrients@, food.nutrients@, sums@, j as int),
            -1000 * j <= total <= 1000 * j,
        decreases nutrients@.len() - j,
    {
        let n = &nutrients[j];
        if n.recommended_intake > INTAKE_FLOOR {
            assert(nutrients@[j as int].wf());
            let term = balance_term_exec(food.nutrients[j], n.recommended_intake, sums[j]);
            total = total + term;
        }
        j = j + 1;
    }
    total
}

/// Positions of the foods that may be recommended, in catalog order.
pub open spec fn eligible(foods: Seq<Food>) -> Seq<usize>
    decreases foods.len(),
{
    if foods.len() == 0 {
        Seq::empty()
    } else {
        eligible(foods.drop_last()) + if foods.last().recommend {
            seq![(foods.len() - 1) as usize]
        } else {
            Seq::empty()
        }
    }
}

/// The balance scores of the foods at the positions `picked`.
pub open spec fn scores_at(
    nutrients: Seq<Nutrient>,
    foods: Seq<Food>,
    sums: Seq<i128>,
    picked: Seq<usize>,
) -> Seq<i128> {
    Seq::new(
        picked.len(),
        |a: int| balance_score_of(nutrients, foods[picked[a] as int].nutrients@, sums) as i128,
    )
}

/// The positions, among the eligible foods, of those recommended.
pub open spec fn recommended_ranks(
    nutrients: Seq<Nutrient>,
    foods: Seq<Food>,
    sums: Seq<i128>,
) -> Seq<usize> {
    k_largest_of(scores_at(nutrients, foods, sums, eligible(foods)), RECOMMENDATIONS)
}

/// The foods recommended to correct the consumed `sums`: the eligible foods
/// with the highest balance scores, best first.
pub open spec fn recommendation(
    nutrients: Seq<Nutrient>,
    foods: Seq<Food>,
    sums: Seq<i128>,
) -> Seq<Food> {
    let e = eligible(foods);
    recommended_ranks(nutrients, foods, sums).map_values(|a: usize| foods[e[a as int] as int])
}

/// Recommends up to three foods, among those that may be recommended, whose
/// balance scores against the consumed `nutrients_sum` are highest, best
/// first.
pub fn recommend_foods<'a>(
    nutrients: Vec<Nutrient>,
    foods: &'a Vec<Food>,
    nutrients_sum: Vec<i128>,
) -> (r: Vec<&'a Food>)
    requires
        nutrients_wf(nutrients@),
        foods_wf(foods@, nutrients@.len()),
        nutrients_sum@.len() == nutrients@.len(),
    ensures
        r@.map_values(|f: &Food| *f) == recommendation(nutrients@, foods@, nutrients_sum@),
        is_top(
            scores_at(nutrients@, foods@, nutrients_sum@, eligible(foods@)),
            RECOMMENDATIONS,
            recommended_ranks(nutrients@, foods@, nutrients_sum@),
        ),
        r@.len() <= RECOMMENDATIONS,
        forall|a: int| 0 <= a < r@.len() ==> (#[trigger] r@[a]).recommend,
{
    let ghost k = nutrients@.len();
    let mut picked: Vec<usize> = Vec::new();
    let mut scores: Vec<i128> = Vec::new();
    let mut i: usize = 0;
    while i < foods.len()
        invariant
            nutrients_wf(nutrients@),
            foods_wf(foods@, k),
            k == nutrients@.len(),
            nutrients_sum@.len() == k,
            i <= foods@.len(),
            picked@ == eligible(foods@.take(i as int)),
            forall|a: int|
                0 <= a < picked@.len() ==> #[trigger] picked@[a] < i && foods@[picked@[a] as int].recommend,
            scores@ == scores_at(nutrients@, foods@, nutrients_sum@, picked@),
        decreases foods@.len() - i,
    {
        assert(foods@.take(i + 1).drop_last() =~= foods@.take(i as int));
        assert(foods@.take(i + 1).last() == foods@[i as int]);
        if foods[i].recommend {
            assert(foods@[i as int].wf(k));
            let score = balance_score(&nutrients, &foods[i], &nutrients_sum);
            picked.push(i);
            scores.push(score);
            assert(scores@ =~= scores_at(nutrients@, foods@, nutrients_sum@, picked@));
        } else {
            assert(picked@ + Seq::<usize>::empty() =~= picked@);
        }
        i = i + 1;
    }
    assert(foods@.take(foods@.len() as int) =~= foods@);
    let top = k_largest(&scores, RECOMMENDATIONS);
    let mut chosen: Vec<&'a Food> = Vec::new();
    let mut a: usize = 0;
    while a < top.len()
        invariant
            top@ == recommended_ranks(nutrients@, foods@, nutrients_sum@),
            is_top(scores@, RECOMMENDATIONS, top@),
            picked@ == eligible(foods@),
            scores@.len() == picked@.len(),
            forall|b: int|
                0 <= b < picked@.len() ==> #[trigger] picked@[b] < foods@.len() && foods@[picked@[b] as int].recommend,
            a <= top@.len(),
            chosen@.len() == a,
            forall|b: int|
                0 <= b < a ==> *#[trigger] chosen@[b] == foods@[picked@[top@[b] as int] as int],
        decreases top@.len() - a,
    {
        let p = picked[top[a]];
        chosen.push(&foods[p]);
        a = a + 1;
    }
    assert(chosen@.map_values(|f: &Food| *f) =~= recommendation(
        nutrients@,
        foods@,
        nutrients_sum@,
    ));
    chosen
}

/// Totalling no foods gives zero for every nutrient.
pub proof fn sum_of_no_foods(nutrients: Seq<Nutrient>)
    ensures
        forall|j: int| 0 <= j < nutrients.len() ==> #[trigger] column_sum(Seq::<Food>::empty(), j) == 0,
{
}

/// Totalling a single food gives exactly that food's amounts.
pub proof fn sum_of_one_food(nutrients: Seq<Nutrient>, food: Food)
    requires
        food.wf(nutrients.len()),
    ensures
        forall|j: int|
            0 <= j < nutrients.len() ==> #[trigger] column_sum(seq![food], j) == food.nutrients@[j],
{
    assert forall|j: int| 0 <= j < nutrients.len() implies #[trigger] column_sum(seq![food], j)
        == food.nutrients@[j] by {
        assert(seq![food].drop_last() =~= Seq::<Food>::empty());
        assert(column_sum(Seq::<Food>::empty(), j) == 0);
        assert(seq![food].last() == food);
    }
}

/// Two recommendations made from the same catalogs and the same sums hold
/// the same foods, in the same order.
pub proof fn recommendations_repeat(
    nutrients: Seq<Nutrient>,
    foods: Seq<Food>,
    sums: Seq<i128>,
    first: Seq<Food>,
    second: Seq<Food>,
)
    requires
        first == recommendation(nutrients, foods, sums),
        second == recommendation(nutrients, foods, sums),
    ensures
        first == second,
{
}

/// However ties among equal scores are broken, two recommendations from the
/// same catalogs and sums hold as many foods and, position by position, the
/// same balance scores.
pub proof fn recommendation_scores_agree(
    nutrients: Seq<Nutrient>,
    foods: Seq<Food>,
    sums: Seq<i128>,
    first: Seq<usize>,
    second: Seq<usize>,
)
    requires
        is_top(scores_at(nutrients, foods, sums, eligible(foods)), RECOMMENDATIONS, first),
        is_top(scores_at(nutrients, foods, sums, eligible(foods)), RECOMMENDATIONS, second),
    ensures
        first.len() == second.len(),
        forall|i: int|
            0 <= i < first.len() ==> scores_at(nutrients, foods, sums, eligible(foods))[#[trigger] first[i] as int]
                == scores_at(nutrients, foods, sums, eligible(foods))[second[i] as int],
{
    top_keys_agree(
        scores_at(nutrients, foods, sums, eligible(foods)),
        RECOMMENDATIONS,
        first,
        second,
    );
}

} // verus!
