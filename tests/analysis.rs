use balance::catalog::{Food, Nutrient};
use balance::extremes::get_highest_and_lowest_nutrients;
use balance::nutrition::{recommend_foods, sum_nutrients};

const UNIT: i128 = 1_000_000;

fn nutrient(name: &str, intake: i128) -> Nutrient {
    Nutrient {
        name: name.to_string(),
        display_name: name.to_uppercase(),
        abbreviation: name.to_string(),
        units: "g".to_string(),
        recommended_intake: intake,
    }
}

fn food(name: &str, recommend: bool, amounts: &[i128]) -> Food {
    Food {
        name: name.to_string(),
        display_name: name.to_string(),
        recommend,
        emoji: String::new(),
        nutrients: amounts.to_vec(),
    }
}

/// Two guided nutrients (intakes 100 and 10) and one without guidance.
fn catalog() -> (Vec<Nutrient>, Vec<Food>) {
    let nutrients = vec![
        nutrient("a", 100 * UNIT),
        nutrient("b", 10 * UNIT),
        nutrient("c", 0),
    ];
    let foods = vec![
        food("x", true, &[50 * UNIT, 0, 0]),
        food("y", true, &[0, 6 * UNIT, 0]),
        food("z", true, &[200 * UNIT, 0, 0]),
        food("w", false, &[900 * UNIT, 900 * UNIT, 0]),
        food("v", true, &[10 * UNIT, 0, 900 * UNIT]),
    ];
    (nutrients, foods)
}

fn names(foods: &[&Food]) -> Vec<String> {
    foods.iter().map(|f| f.name.clone()).collect()
}

#[test]
fn sum_of_no_foods_is_zero() {
    let (nutrients, _) = catalog();
    let sums = sum_nutrients(nutrients.clone(), Vec::new());
    assert_eq!(sums, vec![0, 0, 0]);
}

#[test]
fn sum_of_one_food_is_its_amounts() {
    let (nutrients, foods) = catalog();
    let sums = sum_nutrients(nutrients, vec![foods[4].clone()]);
    assert_eq!(sums, foods[4].nutrients);
}

#[test]
fn sums_add_amounts_per_nutrient() {
    let (nutrients, foods) = catalog();
    let picked = vec![foods[0].clone(), foods[1].clone(), foods[0].clone()];
    let sums = sum_nutrients(nutrients, picked);
    assert_eq!(sums, vec![100 * UNIT, 6 * UNIT, 0]);
}

#[test]
fn sums_keep_negative_and_fractional_amounts() {
    let nutrients = vec![nutrient("a", UNIT)];
    let foods = vec![food("p", true, &[-1_500_000]), food("q", true, &[250_000])];
    assert_eq!(sum_nutrients(nutrients, foods), vec![-1_250_000]);
}

#[test]
fn recommends_best_balance_first() {
    let (nutrients, foods) = catalog();
    // Scores with nothing eaten: z 1000 (bounded), y 600, x 500, v 100.
    let r = recommend_foods(nutrients, &foods, vec![0, 0, 0]);
    assert_eq!(names(&r), vec!["z", "y", "x"]);
}

#[test]
fn surplus_turns_scores_negative() {
    let (nutrients, foods) = catalog();
    // Half the intake of `a` eaten: its factor is -1, so
    // y 600, v -100, x -500, z -1000.
    let r = recommend_foods(nutrients, &foods, vec![50 * UNIT, 0, 0]);
    assert_eq!(names(&r), vec!["y", "v", "x"]);
}

#[test]
fn recommendations_are_eligible_and_at_most_three() {
    let (nutrients, foods) = catalog();
    let r = recommend_foods(nutrients, &foods, vec![7 * UNIT, 2 * UNIT, 0]);
    assert!(r.len() <= 3);
    assert!(r.iter().all(|f| f.recommend));
}

#[test]
fn small_pools_give_fewer_recommendations() {
    let (nutrients, mut foods) = catalog();
    foods.truncate(4);
    foods[0].recommend = false;
    foods[2].recommend = false;
    let r = recommend_foods(nutrients, &foods, vec![0, 0, 0]);
    assert_eq!(names(&r), vec!["y"]);
}

#[test]
fn recommending_twice_gives_the_same_foods() {
    let (nutrients, foods) = catalog();
    let sums = vec![3 * UNIT, 1 * UNIT, 0];
    let first = names(&recommend_foods(nutrients.clone(), &foods, sums.clone()));
    let second = names(&recommend_foods(nutrients, &foods, sums));
    assert_eq!(first, second);
}

#[test]
fn highest_and_lowest_shares() {
    let (nutrients, _) = catalog();
    // a: 50 of 100, b: 6 of 10; c has no guidance however large.
    let (high, low) =
        get_highest_and_lowest_nutrients(nutrients, vec![50 * UNIT, 6 * UNIT, 900 * UNIT])
            .unwrap();
    assert_eq!(high.name, "b");
    assert_eq!(low.name, "a");
}

#[test]
fn equal_shares_take_last_highest_and_first_lowest() {
    let nutrients = vec![
        nutrient("p", 10 * UNIT),
        nutrient("q", 20 * UNIT),
        nutrient("r", 40 * UNIT),
    ];
    let (high, low) =
        get_highest_and_lowest_nutrients(nutrients, vec![UNIT, 2 * UNIT, 4 * UNIT]).unwrap();
    assert_eq!(high.name, "r");
    assert_eq!(low.name, "p");
}

#[test]
fn shares_compare_exactly_for_huge_sums() {
    let nutrients = vec![nutrient("p", 3 * UNIT), nutrient("q", 7 * UNIT)];
    let big: i128 = 1 << 100;
    let (high, low) =
        get_highest_and_lowest_nutrients(nutrients, vec![3 * big, 7 * big + 1]).unwrap();
    assert_eq!(high.name, "q");
    assert_eq!(low.name, "p");
}

#[test]
fn no_guided_nutrient_gives_none() {
    let nutrients = vec![nutrient("p", 0), nutrient("q", 100_000)];
    assert!(get_highest_and_lowest_nutrients(nutrients, vec![UNIT, UNIT]).is_none());
}
