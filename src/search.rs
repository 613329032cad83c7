//! Finding foods by a free-text query.

use vstd::prelude::*;

use fuzzy_matcher::skim::SkimMatcherV2;
use fuzzy_matcher::FuzzyMatcher;

use vstd::utf8::encode_utf8;

use crate::catalog::Food;
use crate::rank::{is_top, k_largest, k_largest_of};

verus! {

/// How many foods a search returns at most.
pub const MAX_RESULTS: usize = 5;

/// The characters with the Unicode property White_Space.
pub open spec fn is_white_space(c: char) -> bool {
    ('\u{9}' <= c && c <= '\u{d}') || c == ' ' || c == '\u{85}' || c == '\u{a0}' || c
        == '\u{1680}' || ('\u{2000}' <= c && c <= '\u{200a}') || c == '\u{2028}' || c
        == '\u{2029}' || c == '\u{202f}' || c == '\u{205f}' || c == '\u{3000}'
}

/// The text without its leading white space.
pub open spec fn trim_start_of(s: Seq<char>) -> Seq<char>
    decreases s.len(),
{
    if s.len() > 0 && is_white_space(s[0]) {
        trim_start_of(s.drop_first())
    } else {
        s
    }
}

/// The text without its trailing white space.
pub open spec fn trim_end_of(s: Seq<char>) -> Seq<char>
    decreases s.len(),
{
    if s.len() > 0 && is_white_space(s.last()) {
        trim_end_of(s.drop_last())
    } else {
        s
    }
}

/// The text without leading and trailing white space.
pub open spec fn trim_of(s: Seq<char>) -> Seq<char> {
    trim_end_of(trim_start_of(s))
}

/// What `str::to_lowercase` makes of a text.
pub uninterp spec fn lower_of(s: Seq<char>) -> Seq<char>;

/// The score that skim's fuzzy matcher, in its default configuration, gives
/// `choice` for `pattern`; none when the pattern's characters do not occur
/// in order in the choice.
pub uninterp spec fn skim_score(choice: Seq<char>, pattern: Seq<char>) -> Option<i64>;

/// Relies on `str::trim`: the text without the leading and trailing
/// characters that have the Unicode property White_Space.
#[verifier::external_body]
fn trimmed(s: &str) -> (r: String)
    ensures
        r@ == trim_of(s@),
{
    s.trim().to_string()
}

/// Relies on `str::to_lowercase`: the result depends on the text alone.
#[verifier::external_body]
fn lowercase(s: &str) -> (r: String)
    ensures
        r@ == lower_of(s@),
{
    s.to_lowercase()
}

/// Relies on fuzzy-matcher's `SkimMatcherV2::fuzzy_match` with the default
/// matcher; its score depends on the two texts alone.
#[verifier::external_body]
fn fuzzy_score(choice: &str, pattern: &str) -> (r: Option<i64>)
    ensures
        r == skim_score(choice@, pattern@),
{
    SkimMatcherV2::default().fuzzy_match(choice, pattern)
}

/// The ranking key of a food with a display name of `name_len` bytes:
/// a hundred times its match score, less the length; none when the food does
/// not match.
pub open spec fn match_key(score: Option<i64>, name_len: nat) -> Option<int> {
    match score {
        Some(s) => if s > 0 {
            Some(100 * s - name_len)
        } else {
            None
        },
        None => None,
    }
}

pub open spec fn key_of(food: Food, score: Option<i64>) -> Option<int> {
    match_key(score, encode_utf8(food.display_name@).len())
}

/// Positions of the foods that match, in catalog order.
pub open spec fn matching(foods: Seq<Food>, scores: Seq<Option<i64>>) -> Seq<usize>
    decreases foods.len(),
{
    if foods.len() == 0 {
        Seq::empty()
    } else {
        let n = foods.len() - 1;
        matching(foods.drop_last(), scores) + if key_of(foods[n], scores[n]) is Some {
            seq![n as usize]
        } else {
            Seq::empty()
        }
    }
}

/// The ranking keys of the foods at the positions `picked`.
pub open spec fn keys_at(
    foods: Seq<Food>,
    scores: Seq<Option<i64>>,
    picked: Seq<usize>,
) -> Seq<i128> {
    Seq::new(
        picked.len(),
        |a: int| key_of(foods[picked[a] as int], scores[picked[a] as int])->0 as i128,
    )
}

/// The positions, among the matching foods, of those returned.
pub open spec fn ranked_positions(foods: Seq<Food>, scores: Seq<Option<i64>>) -> Seq<usize> {
    k_largest_of(keys_at(foods, scores, matching(foods, scores)), MAX_RESULTS)
}

/// The matching foods with the largest keys, best first.
pub open spec fn ranked_matches(foods: Seq<Food>, scores: Seq<Option<i64>>) -> Seq<Food> {
    let m = matching(foods, scores);
    ranked_positions(foods, scores).map_values(|a: usize| foods[m[a as int] as int])
}

/// The scores of all foods' display names for a pattern.
pub open spec fn scores_for(foods: Seq<Food>, pattern: Seq<char>) -> Seq<Option<i64>> {
    Seq::new(foods.len(), |i: int| skim_score(foods[i].display_name@, pattern))
}

fn name_key(food: &Food, score: Option<i64>) -> (r: Option<i128>)
    ensures
        match r {
            Some(k) => key_of(*food, score) == Some(k as int),
            None => key_of(*food, score) is None,
        },
{
    match score {
        Some(s) => if s > 0 {
            let len = food.display_name.as_str().as_bytes().len();
            Some(100 * (s as i128) - (len as i128))
        } else {
            None
        },
        None => None,
    }
}

/// Ranks the foods by their match `scores` (one per food): of the foods
/// with a positive score, the five with the largest keys, best first.
pub fn rank_matches<'a>(foods: &'a Vec<Food>, scores: &Vec<Option<i64>>) -> (r: Vec<&'a Food>)
    requires
        scores@.len() == foods@.len(),
    ensures
        r@.map_values(|f: &Food| *f) == ranked_matches(foods@, scores@),
        is_top(
            keys_at(foods@, scores@, matching(foods@, scores@)),
            MAX_RESULTS,
            ranked_positions(foods@, scores@),
        ),
        r@.len() <= MAX_RESULTS,
{
    let mut picked: Vec<usize> = Vec::new();
    let mut keys: Vec<i128> = Vec::new();
    let mut i: usize = 0;
    while i < foods.len()
        invariant
            scores@.len() == foods@.len(),
            i <= foods@.len(),
            picked@ == matching(foods@.take(i as int), scores@),
            forall|a: int| 0 <= a < picked@.len() ==> #[trigger] picked@[a] < i,
            keys@ == keys_at(foods@, scores@, picked@),
        decreases foods@.len() - i,
    {
        assert(foods@.take(i + 1).drop_last() =~= foods@.take(i as int));
        assert(foods@.take(i + 1)[i as int] == foods@[i as int]);
        match name_key(&foods[i], scores[i]) {
            Some(k) => {
                picked.push(i);
                keys.push(k);
                assert(keys@ =~= keys_at(foods@, scores@, picked@));
            },
            None => {
                assert(picked@ + Seq::<usize>::empty() =~= picked@);
            },
        }
        i = i + 1;
    }
    assert(foods@.take(foods@.len() as int) =~= foods@);
    let top = k_largest(&keys, MAX_RESULTS);
    let mut chosen: Vec<&'a Food> = Vec::new();
    let mut a: usize = 0;
    while a < top.len()
        invariant
            top@ == ranked_positions(foods@, scores@),
            is_top(keys@, MAX_RESULTS, top@),
            picked@ == matching(foods@, scores@),
            keys@.len() == picked@.len(),
            forall|b: int| 0 <= b < picked@.len() ==> #[trigger] picked@[b] < foods@.len(),
            a <= top@.len(),
            chosen@.len() == a,
            forall|b: int|
                0 <= b < a ==> *#[trigger] chosen@[b] == foods@[picked@[top@[b] as int] as int],
        decreases top@.len() - a,
    {
        let p = picked[top[a]];
        chosen.push(&foods[p]);
        a = a + 1;
    }
    assert(chosen@.map_values(|f: &Food| *f) =~= ranked_matches(foods@, scores@));
    chosen
}

/// Searches the foods' display names for `search`: nothing for a blank
/// query, else the best fuzzy matches of the trimmed, lower-cased query.
pub fn lookup_food<'a>(foods: &'a Vec<Food>, search: String) -> (r: Vec<&'a Food>)
    ensures
        trim_of(search@).len() == 0 ==> r@.len() == 0,
        trim_of(search@).len() > 0 ==> r@.map_values(|f: &Food| *f) == ranked_matches(
            foods@,
            scores_for(foods@, lower_of(trim_of(search@))),
        ),
        trim_of(search@).len() > 0 ==> is_top(
            keys_at(
                foods@,
                scores_for(foods@, lower_of(trim_of(search@))),
                matching(foods@, scores_for(foods@, lower_of(trim_of(search@)))),
            ),
            MAX_RESULTS,
            ranked_positions(foods@, scores_for(foods@, lower_of(trim_of(search@)))),
        ),
        r@.len() <= MAX_RESULTS,
{
    let query = trimmed(search.as_str());
    if query.as_str().unicode_len() == 0 {
        return Vec::new();
    }
    let pattern = lowercase(query.as_str());
    let ghost pat = lower_of(trim_of(search@));
    let mut scores: Vec<Option<i64>> = Vec::new();
    let mut i: usize = 0;
    while i < foods.len()
        invariant
            pattern@ == pat,
            i <= foods@.len(),
            scores@.len() == i,
            forall|j: int|
                0 <= j < i ==> #[trigger] scores@[j] == skim_score(foods@[j].display_name@, pat),
        decreases foods@.len() - i,
    {
        scores.push(fuzzy_score(foods[i].display_name.as_str(), pattern.as_str()));
        i = i + 1;
    }
    assert(scores@ =~= scores_for(foods@, pat));
    rank_matches(foods, &scores)
}

} // verus!
