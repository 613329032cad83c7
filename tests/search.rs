use balance::catalog::get_foods;
use balance::search::{lookup_food, rank_matches};

fn fixture() -> String {
    [
        "food_code,display_name,emoji,recommend,vitamin_c_mg",
        ",,,,mg",
        ",,,,VitC",
        ",,,,Vitamin C",
        ",,,,40",
        "\"Ackee, canned, drained\",Canned Ackee,A,TRUE,30.0",
        "Amla,Amla,B,TRUE,8",
        "\"Pudding, rice, canned\",Canned Rice Pudding,C,FALSE,Tr",
        "Wheatgerm,Wheatgerm,D,TRUE,0",
        "\"Apples, cooking, baked with sugar, flesh only\",Baked Cooking Apples with Sugar,E,TRUE,12",
    ]
    .join("\n")
}

#[test]
fn search_finds_ackee_first() {
    let (_, foods) = get_foods(fixture()).unwrap();
    let found = lookup_food(&foods, "Ackee".to_string());
    assert_eq!(found[0].name, "Ackee, canned, drained");
}

#[test]
fn search_matches_several_words() {
    let (_, foods) = get_foods(fixture()).unwrap();
    let found = lookup_food(&foods, "rice pudding".to_string());
    assert_eq!(found[0].name, "Pudding, rice, canned");
}

#[test]
fn search_without_match_is_empty() {
    let (_, foods) = get_foods(fixture()).unwrap();
    assert!(lookup_food(&foods, "glorb".to_string()).is_empty());
}

#[test]
fn blank_search_is_empty() {
    let (_, foods) = get_foods(fixture()).unwrap();
    assert!(lookup_food(&foods, String::new()).is_empty());
    assert!(lookup_food(&foods, "   ".to_string()).is_empty());
}

#[test]
fn search_ignores_case_and_surrounding_space() {
    let (_, foods) = get_foods(fixture()).unwrap();
    let upper = lookup_food(&foods, "ACKEE".to_string());
    assert_eq!(upper[0].name, "Ackee, canned, drained");
    let padded = lookup_food(&foods, "  Ackee  ".to_string());
    assert_eq!(padded[0].name, "Ackee, canned, drained");
}

#[test]
fn search_returns_at_most_five() {
    let (_, foods) = get_foods(fixture()).unwrap();
    let found = lookup_food(&foods, "a".to_string());
    assert!(!found.is_empty());
    assert!(found.len() <= 5);
}

#[test]
fn ranking_prefers_score_then_short_names() {
    let (_, foods) = get_foods(fixture()).unwrap();
    // Keys: 100 * score - length of display name.
    let scores = vec![Some(10), Some(10), None, Some(0), Some(11)];
    let ranked = rank_matches(&foods, &scores);
    let names: Vec<&str> = ranked.iter().map(|f| f.name.as_str()).collect();
    assert_eq!(
        names,
        vec![
            "Apples, cooking, baked with sugar, flesh only",
            "Amla",
            "Ackee, canned, drained"
        ]
    );
}

#[test]
fn ranking_key_counts_name_bytes() {
    let (_, mut foods) = get_foods(fixture()).unwrap();
    foods.truncate(2);
    // "Amla" is 4 bytes; "Ééé" is 3 characters but 6 bytes.
    foods[0].display_name = "Ééé".to_string();
    let ranked = rank_matches(&foods, &vec![Some(1), Some(1)]);
    assert_eq!(ranked[0].name, "Amla");
    assert_eq!(ranked[1].name, "Ackee, canned, drained");
}

#[test]
fn ranking_keeps_five_of_many() {
    let (_, mut foods) = get_foods(fixture()).unwrap();
    let extra = foods.clone();
    foods.extend(extra);
    let scores: Vec<Option<i64>> = (1..=10).map(|s| Some(s as i64)).collect();
    let ranked = rank_matches(&foods, &scores);
    assert_eq!(ranked.len(), 5);
    // The last five foods carry the scores 6 to 10, best last.
    assert_eq!(ranked[0].name, foods[9].name);
    assert_eq!(ranked[4].name, foods[5].name);
}
