use balance::catalog::{Food, Nutrient};
use balance::report::{find_nutrient, get_tasty_message, is_well_supplied};

fn nutrient(name: &str, intake: i128) -> Nutrient {
    Nutrient {
        name: name.to_string(),
        display_name: name.to_string(),
        abbreviation: name.to_string(),
        units: "g".to_string(),
        recommended_intake: intake,
    }
}

fn food(name: &str, amounts: &[i128]) -> Food {
    Food {
        name: name.to_string(),
        display_name: name.to_string(),
        recommend: true,
        emoji: String::new(),
        nutrients: amounts.to_vec(),
    }
}

#[test]
fn finds_nutrients_by_name() {
    let nutrients = vec![
        nutrient("fibre_g", 30_000_000),
        nutrient("water_g", 0),
        nutrient("water_g", 1),
    ];
    assert_eq!(find_nutrient(&nutrients, "water_g"), Some(1));
    assert_eq!(find_nutrient(&nutrients, "fibre_g"), Some(0));
    assert_eq!(find_nutrient(&nutrients, "fibre"), None);
}

#[test]
fn a_fifth_of_the_intake_is_well_supplied() {
    let n = nutrient("fibre_g", 30_000_000);
    assert!(is_well_supplied(&n, 6_000_000));
    assert!(!is_well_supplied(&n, 5_999_999));
    assert!(!is_well_supplied(&nutrient("x", 100_000), 1_000_000_000));
}

#[test]
fn greeting_follows_names_and_water() {
    let nutrients = vec![nutrient("fibre_g", 30_000_000), nutrient("water_g", 0)];
    // 4 letters times 3 whole grams of water: 12, and 12 % 5 == 2.
    let foods = vec![food("Amla", &[0, 3_900_000])];
    assert_eq!(get_tasty_message(&nutrients, &foods), "Sounds tasty");
    // Adds 3 letters times 2 grams: 18, and 18 % 5 == 3.
    let foods = vec![food("Amla", &[0, 3_900_000]), food("Fig", &[0, 2_000_000])];
    assert_eq!(get_tasty_message(&nutrients, &foods), "Delicious and nutritious");
}

#[test]
fn greeting_counts_name_bytes() {
    let nutrients = vec![nutrient("water_g", 0)];
    // "é" is two bytes: 2 * 1 g of water gives 2, "Sounds tasty".
    let foods = vec![food("é", &[1_000_000])];
    assert_eq!(get_tasty_message(&nutrients, &foods), "Sounds tasty");
}

#[test]
fn greeting_without_water_is_the_first() {
    let nutrients = vec![nutrient("fibre_g", 30_000_000)];
    let foods = vec![food("Amla", &[7_000_000])];
    assert_eq!(get_tasty_message(&nutrients, &foods), "Sounds delicious");
    assert_eq!(get_tasty_message(&nutrients, &Vec::new()), "Sounds delicious");
}
