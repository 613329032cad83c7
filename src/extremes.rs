//! The nutrients with the highest and lowest share of their recommended
//! intake in a profile of amounts.

use vstd::prelude::*;

use crate::amount::AMOUNT_LIMIT;
use crate::catalog::{nutrients_wf, Nutrient, INTAKE_FLOOR};

verus! {

/// `values[i] / intake(i) < values[j] / intake(j)`, over positive intakes.
pub open spec fn share_below(nutrients: Seq<Nutrient>, values: Seq<i128>, i: int, j: int) -> bool {
    values[i] * nutrients[j].recommended_intake < values[j] * nutrients[i].recommended_intake
}

pub open spec fn guided(nutrients: Seq<Nutrient>, j: int) -> bool {
    0 <= j < nutrients.len() && nutrients[j].has_guidance()
}

/// `h` has the largest share among the nutrients with guidance, and is the
/// last such one.
pub open spec fn is_highest(nutrients: Seq<Nutrient>, values: Seq<i128>, h: int) -> bool {
    &&& guided(nutrients, h)
    &&& forall|j: int| #[trigger] guided(nutrients, j) ==> !share_below(nutrients, values, h, j)
    &&& forall|j: int|
        h < j && #[trigger] guided(nutrients, j) ==> share_below(nutrients, values, j, h)
}

/// `l` has the smallest share among the nutrients with guidance, and is the
/// first such one.
pub open spec fn is_lowest(nutrients: Seq<Nutrient>, values: Seq<i128>, l: int) -> bool {
    &&& guided(nutrients, l)
    &&& forall|j: int| #[trigger] guided(nutrients, j) ==> !share_below(nutrients, values, j, l)
    &&& forall|j: int|
        j < l && #[trigger] guided(nutrients, j) ==> share_below(nutrients, values, l, j)
}

proof fn lemma_cross_trans(a1: int, r1: int, a2: int, r2: int, a3: int, r3: int)
    requires
        r1 > 0,
        r2 > 0,
        r3 > 0,
        a1 * r2 <= a2 * r1,
        a2 * r3 <= a3 * r2,
    ensures
        a1 * r3 <= a3 * r1,
        a1 * r2 < a2 * r1 || a2 * r3 < a3 * r2 ==> a1 * r3 < a3 * r1,
{
    assert(a1 * r2 * r3 <= a2 * r1 * r3) by (nonlinear_arith)
        requires
            a1 * r2 <= a2 * r1,
            r3 > 0,
    ;
    assert(a2 * r3 * r1 <= a3 * r2 * r1) by (nonlinear_arith)
        requires
            a2 * r3 <= a3 * r2,
            r1 > 0,
    ;
    assert(a1 * r3 * r2 <= a3 * r1 * r2) by (nonlinear_arith)
        requires
            a1 * r2 * r3 <= a2 * r1 * r3,
            a2 * r3 * r1 <= a3 * r2 * r1,
    ;
    assert(a1 * r3 <= a3 * r1) by (nonlinear_arith)
        requires
            a1 * r3 * r2 <= a3 * r1 * r2,
            r2 > 0,
    ;
    if a1 * r2 < a2 * r1 || a2 * r3 < a3 * r2 {
        assert(a1 * r2 * r3 < a2 * r1 * r3 || a2 * r3 * r1 < a3 * r2 * r1) by (nonlinear_arith)
            requires
                a1 * r2 < a2 * r1 || a2 * r3 < a3 * r2,
                r1 > 0,
                r3 > 0,
        ;
        assert(a1 * r3 * r2 < a3 * r1 * r2) by (nonlinear_arith)
            requires
                a1 * r2 * r3 <= a2 * r1 * r3,
                a2 * r3 * r1 <= a3 * r2 * r1,
                a1 * r2 * r3 < a2 * r1 * r3 || a2 * r3 * r1 < a3 * r2 * r1,
        ;
        assert(a1 * r3 < a3 * r1) by (nonlinear_arith)
            requires
                a1 * r3 * r2 < a3 * r1 * r2,
                r2 > 0,
        ;
    }
}

/// Whether `a1 / r1 < a2 / r2`, computed without overflow.
fn share_less(a1: i128, r1: i128, a2: i128, r2: i128) -> (r: bool)
    requires
        0 < r1 < AMOUNT_LIMIT,
        0 < r2 < AMOUNT_LIMIT,
    ensures
        r == (a1 * r2 < a2 * r1),
{
    assert(i128::MIN <= (a1 as int) / (r1 as int) <= i128::MAX) by (nonlinear_arith)
        requires
            r1 >= 1,
            i128::MIN <= a1 <= i128::MAX,
    ;
    assert(i128::MIN <= (a2 as int) / (r2 as int) <= i128::MAX) by (nonlinear_arith)
        requires
            r2 >= 1,
            i128::MIN <= a2 <= i128::MAX,
    ;
    let q1 = match a1.checked_div_euclid(r1) {
        Some(q) => q,
        None => 0,
    };
    let m1 = match a1.checked_rem_euclid(r1) {
        Some(m) => m,
        None => 0,
    };
    let q2 = match a2.checked_div_euclid(r2) {
        Some(q) => q,
        None => 0,
    };
    let m2 = match a2.checked_rem_euclid(r2) {
        Some(m) => m,
        None => 0,
    };
    assert(a1 == q1 * r1 + m1 && 0 <= m1 < r1) by (nonlinear_arith)
        requires
            r1 > 0,
            q1 == (a1 as int) / (r1 as int),
            m1 == (a1 as int) % (r1 as int),
    ;
    assert(a2 == q2 * r2 + m2 && 0 <= m2 < r2) by (nonlinear_arith)
        requires
            r2 > 0,
            q2 == (a2 as int) / (r2 as int),
            m2 == (a2 as int) % (r2 as int),
    ;
    assert(m1 * r2 < AMOUNT_LIMIT * AMOUNT_LIMIT && m2 * r1 < AMOUNT_LIMIT * AMOUNT_LIMIT)
        by (nonlinear_arith)
        requires
            0 <= m1 < r1 < AMOUNT_LIMIT,
            0 <= m2 < r2 < AMOUNT_LIMIT,
    ;
    assert(m1 * r2 >= 0 && m2 * r1 >= 0) by (nonlinear_arith)
        requires
            0 <= m1,
            0 <= m2,
            r1 > 0,
            r2 > 0,
    ;
    assert(a1 * r2 - a2 * r1 == (q1 - q2) * r1 * r2 + m1 * r2 - m2 * r1) by (nonlinear_arith)
        requires
            a1 == q1 * r1 + m1,
            a2 == q2 * r2 + m2,
    ;
    if q1 < q2 {
        assert((q1 - q2) * r1 * r2 <= -(r1 * r2)) by (nonlinear_arith)
            requires
                q1 - q2 <= -1,
                r1 > 0,
                r2 > 0,
        ;
        assert(m1 * r2 < r1 * r2) by (nonlinear_arith)
            requires
                m1 < r1,
                r2 > 0,
        ;
        true
    } else if q1 > q2 {
        assert((q1 - q2) * r1 * r2 >= r1 * r2) by (nonlinear_arith)
            requires
                q1 - q2 >= 1,
                r1 > 0,
                r2 > 0,
        ;
        assert(m2 * r1 < r2 * r1) by (nonlinear_arith)
            requires
                m2 < r2,
                r1 > 0,
        ;
        false
    } else {
        assert((q1 - q2) * r1 * r2 == 0) by (nonlinear_arith)
            requires
                q1 == q2,
        ;
        m1 * r2 < m2 * r1
    }
}

fn copy_nutrient(n: &Nutrient) -> (r: Nutrient)
    ensures
        r == *n,
{
    Nutrient {
        name: n.name.clone(),
        display_name: n.display_name.clone(),
        abbreviation: n.abbreviation.clone(),
        units: n.units.clone(),
        recommended_intake: n.recommended_intake,
    }
}

/// The nutrients with the highest and the lowest share of their recommended
/// intake in `nutrient_values`, among those with a recommended intake above
/// 0.1; none when there is no such nutrient.
pub fn get_highest_and_lowest_nutrients(nutrients: Vec<Nutrient>, nutrient_values: Vec<i128>) -> (r:
    Option<(Nutrient, Nutrient)>)
    requires
        nutrients_wf(nutrients@),
        nutrient_values@.len() == nutrients@.len(),
    ensures
        r is None <==> forall|j: int| !#[trigger] guided(nutrients@, j),
        r is Some ==> exists|h: int, l: int|
            is_highest(nutrients@, nutrient_values@, h) && is_lowest(
                nutrients@,
                nutrient_values@,
                l,
            ) && r == Some((nutrients@[h], nutrients@[l])),
{
    let ghost ns = nutrients@;
    let ghost vs = nutrient_values@;
    let mut found = false;
    let mut high: usize = 0;
    let mut low: usize = 0;
    let mut j: usize = 0;
    while j < nutrients.len()
        invariant
            ns == nutrients@,
            vs == nutrient_values@,
            nutrients_wf(ns),
            vs.len() == ns.len(),
            j <= ns.len(),
            found <==> exists|g: int| 0 <= g < j && #[trigger] guided(ns, g),
            found ==> high < j && low < j && guided(ns, high as int) && guided(ns, low as int),
            found ==> forall|g: int|
                g < j && #[trigger] guided(ns, g) ==> !share_below(ns, vs, high as int, g),
            found ==> forall|g: int|
                high < g < j && #[trigger] guided(ns, g) ==> share_below(ns, vs, g, high as int),
            found ==> forall|g: int|
                g < j && #[trigger] guided(ns, g) ==> !share_below(ns, vs, g, low as int),
            found ==> forall|g: int|
                g < low && #[trigger] guided(ns, g) ==> share_below(ns, vs, low as int, g),
        decreases ns.len() - j,
    {
        let rj = nutrients[j].recommended_intake;
        if rj > INTAKE_FLOOR {
            assert(ns[j as int].wf());
            assert(guided(ns, j as int));
            if !found {
                high = j;
                low = j;
                found = true;
                assert forall|g: int| g < j + 1 && #[trigger] guided(ns, g) implies g == j by {}
            } else {
                assert(ns[high as int].wf() && ns[low as int].wf());
                let vj = nutrient_values[j];
                let above = share_less(
                    vj,
                    rj,
                    nutrient_values[high],
                    nutrients[high].recommended_intake,
                );
                if !above {
                    let ghost old_high = high as int;
                    high = j;
                    assert forall|g: int|
                        g < j + 1 && #[trigger] guided(ns, g) implies !share_below(
                        ns,
                        vs,
                        high as int,
                        g,
                    ) by {
                        if g < j {
                            assert(ns[g].wf());
                            lemma_cross_trans(
                                vs[g] as int,
                                ns[g].recommended_intake as int,
                                vs[old_high] as int,
                                ns[old_high].recommended_intake as int,
                                vj as int,
                                rj as int,
                            );
                        }
                    }
                }
                let below = share_less(
                    vj,
                    rj,
                    nutrient_values[low],
                    nutrients[low].recommended_intake,
                );
                if below {
                    let ghost old_low = low as int;
                    low = j;
                    assert forall|g: int|
                        g < j + 1 && #[trigger] guided(ns, g) && g != j implies share_below(
                        ns,
                        vs,
                        low as int,
                        g,
                    ) by {
                        assert(ns[g].wf());
                        lemma_cross_trans(
                            vj as int,
                            rj as int,
                            vs[old_low] as int,
                            ns[old_low].recommended_intake as int,
                            vs[g] as int,
                            ns[g].recommended_intake as int,
                        );
                    }
                }
            }
        }
        j = j + 1;
    }
    if !found {
        return None;
    }
    let h = copy_nutrient(&nutrients[high]);
    let l = copy_nutrient(&nutrients[low]);
    assert(is_highest(ns, vs, high as int));
    assert(is_lowest(ns, vs, low as int));
    Some((h, l))
}

/// A nutrient whose share of its recommended intake is larger than that of
/// every other nutrient with guidance is the one reported as highest.
pub proof fn largest_share_is_highest(
    nutrients: Seq<Nutrient>,
    values: Seq<i128>,
    x: int,
    h: int,
)
    requires
        guided(nutrients, x),
        forall|j: int| #[trigger] guided(nutrients, j) && j != x ==> share_below(nutrients, values, j, x),
        is_highest(nutrients, values, h),
    ensures
        h == x,
{
    if h != x {
        assert(guided(nutrients, h));
        assert(!share_below(nutrients, values, h, x));
    }
}

} // verus!
