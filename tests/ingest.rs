use balance::amount::parse_amount;
use balance::catalog::{foods_from_rows, get_foods, IngestError};

fn fixture() -> String {
    [
        "food_code,display_name,emoji,recommend,vitamin_c_mg,fibre_g,water_g,energy_kcal",
        ",,,,mg,g,g,kcal",
        ",,,,VitC,Fib,H2O,E",
        ",,,,Vitamin C,Fibre,Water,Energy",
        ",,,,40,30,,2000",
        "\"Ackee, canned, drained\",Canned Ackee,A,TRUE,30.0,N,70.5,151",
        "Amla,Amla,B,TRUE,8,3.4,80,40",
        "\"Pudding, rice, canned\",Canned Rice Pudding,C,FALSE,Tr,0.2,77.6,89",
        "Wheatgerm,Wheatgerm,D,true,0,15.6,11.7,357",
    ]
    .join("\n")
}

fn rows(cells: &[&[&str]]) -> Vec<Vec<String>> {
    cells
        .iter()
        .map(|r| r.iter().map(|c| c.to_string()).collect())
        .collect()
}

#[test]
fn fixture_parses_into_catalogs() {
    let (nutrients, foods) = get_foods(fixture()).expect("fixture is well formed");
    assert_eq!(nutrients.len(), 4);
    assert_eq!(foods.len(), 4);
    for f in &foods {
        assert_eq!(f.nutrients.len(), nutrients.len());
    }
    assert_eq!(nutrients[0].name, "vitamin_c_mg");
    assert_eq!(nutrients[0].units, "mg");
    assert_eq!(nutrients[0].abbreviation, "VitC");
    assert_eq!(nutrients[0].display_name, "Vitamin C");
    assert_eq!(nutrients[0].recommended_intake, 40_000_000);
    assert_eq!(nutrients[3].recommended_intake, 2_000_000_000);
}

#[test]
fn empty_intake_cell_reads_as_zero() {
    let (nutrients, _) = get_foods(fixture()).unwrap();
    assert_eq!(nutrients[2].name, "water_g");
    assert_eq!(nutrients[2].recommended_intake, 0);
}

#[test]
fn ackee_has_thirty_mg_vitamin_c() {
    let (_, foods) = get_foods(fixture()).unwrap();
    let ackee = &foods[0];
    assert_eq!(ackee.name, "Ackee, canned, drained");
    assert_eq!(ackee.display_name, "Canned Ackee");
    assert_eq!(ackee.emoji, "A");
    assert_eq!(ackee.nutrients[0], 30_000_000);
    assert_eq!(ackee.nutrients[2], 70_500_000);
}

#[test]
fn unmeasured_cells_take_a_fifth_of_the_intake() {
    let (_, foods) = get_foods(fixture()).unwrap();
    // "N" for fibre, whose intake is 30 g.
    assert_eq!(foods[0].nutrients[1], 6_000_000);
    // "Tr" for vitamin C, whose intake is 40 mg.
    assert_eq!(foods[2].nutrients[0], 8_000_000);
}

#[test]
fn only_the_exact_true_token_recommends() {
    let (_, foods) = get_foods(fixture()).unwrap();
    assert!(foods[0].recommend);
    assert!(foods[1].recommend);
    assert!(!foods[2].recommend);
    assert!(!foods[3].recommend);
}

#[test]
fn too_few_rows_is_missing_headers() {
    let text = "a,b,c,d,n\n,,,,g\n,,,,G\n".to_string();
    assert_eq!(get_foods(text).unwrap_err(), IngestError::MissingHeaders);
}

#[test]
fn too_few_columns_is_reported() {
    let text = "a,b,c\na,b,c\na,b,c\na,b,c\na,b,c\n".to_string();
    assert_eq!(get_foods(text).unwrap_err(), IngestError::MissingColumns);
}

#[test]
fn ragged_text_is_unreadable() {
    let mut text = fixture();
    text.push_str("\nShort,Short,S,TRUE,1");
    assert_eq!(get_foods(text).unwrap_err(), IngestError::Unreadable);
}

#[test]
fn ragged_rows_name_the_first_bad_row() {
    let r = rows(&[
        &["id", "d", "e", "r", "n"],
        &["", "", "", "", "g"],
        &["", "", "", "", "N"],
        &["", "", "", "", "Nut"],
        &["", "", "", "", "10"],
        &["f", "F", "x", "TRUE", "1"],
        &["g", "G", "y", "TRUE"],
        &["h", "H", "z", "TRUE", "1", "2"],
    ]);
    assert_eq!(foods_from_rows(&r).unwrap_err(), IngestError::ColumnCount(6));
}

#[test]
fn headers_only_give_no_foods() {
    let r = rows(&[
        &["id", "d", "e", "r"],
        &["", "", "", ""],
        &["", "", "", ""],
        &["", "", "", ""],
        &["", "", "", ""],
    ]);
    let (nutrients, foods) = foods_from_rows(&r).unwrap();
    assert!(nutrients.is_empty());
    assert!(foods.is_empty());
}

#[test]
fn amounts_read_as_millionths() {
    assert_eq!(parse_amount("30.0"), Some(30_000_000));
    assert_eq!(parse_amount("0.0015"), Some(1_500));
    assert_eq!(parse_amount("-2.5"), Some(-2_500_000));
    assert_eq!(parse_amount("+7"), Some(7_000_000));
    assert_eq!(parse_amount("5."), Some(5_000_000));
    assert_eq!(parse_amount(".5"), Some(500_000));
    assert_eq!(parse_amount("1.23456789"), Some(1_234_567));
    assert_eq!(parse_amount("999999999.999999"), Some(999_999_999_999_999));
}

#[test]
fn exponents_scale_amounts() {
    assert_eq!(parse_amount("1e5"), Some(100_000_000_000));
    assert_eq!(parse_amount("1E2"), Some(100_000_000));
    assert_eq!(parse_amount("2.5e-3"), Some(2_500));
    assert_eq!(parse_amount("-4e+1"), Some(-40_000_000));
    assert_eq!(parse_amount("1.e1"), Some(10_000_000));
    assert_eq!(parse_amount("123e-9"), Some(0));
    assert_eq!(parse_amount("7e-7"), Some(0));
    assert_eq!(parse_amount("0e999999999999999999999999999999999"), Some(0));
}

#[test]
fn large_amounts_are_held_to_the_largest() {
    assert_eq!(parse_amount("1234567890"), Some(999_999_999_999_999));
    assert_eq!(parse_amount("-1e40"), Some(-999_999_999_999_999));
    assert_eq!(parse_amount("1e999999999999999999999999999999999999"), Some(999_999_999_999_999));
    assert_eq!(parse_amount("5e-999999999999999999999999999999999999"), Some(0));
    assert_eq!(parse_amount("12345678901234567890e-11"), Some(123_456_789_012_345));
}

#[test]
fn exponent_cells_are_measured() {
    let text = [
        "id,d,e,r,a",
        ",,,,g",
        ",,,,A",
        ",,,,Alpha",
        ",,,,1e2",
        "f,F,x,TRUE,1e5",
    ]
    .join("\n");
    let (nutrients, foods) = get_foods(text).unwrap();
    assert_eq!(nutrients[0].recommended_intake, 100_000_000);
    assert_eq!(foods[0].nutrients[0], 100_000_000_000);
}

#[test]
fn codes_and_odd_text_are_not_amounts() {
    assert_eq!(parse_amount("Tr"), None);
    assert_eq!(parse_amount("N"), None);
    assert_eq!(parse_amount(""), None);
    assert_eq!(parse_amount("."), None);
    assert_eq!(parse_amount("-"), None);
    assert_eq!(parse_amount("1e"), None);
    assert_eq!(parse_amount("1e+"), None);
    assert_eq!(parse_amount("e5"), None);
    assert_eq!(parse_amount(".e5"), None);
    assert_eq!(parse_amount("1e5x"), None);
    assert_eq!(parse_amount("1.2.3"), None);
    assert_eq!(parse_amount(" 1"), None);
}
