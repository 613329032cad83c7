//! Small rules for presenting a day's intake.

use vstd::prelude::*;

use vstd::arithmetic::div_mod::{lemma_add_mod_noop, lemma_add_mod_noop_right, lemma_mul_mod_noop_general};

use vstd::utf8::encode_utf8;

use crate::amount::SCALE;
use crate::catalog::{foods_wf, Food, Nutrient, INTAKE_FLOOR};

verus! {

/// `i` is the first position of a nutrient called `name`.
pub open spec fn first_named(nutrients: Seq<Nutrient>, name: Seq<char>, i: int) -> bool {
    &&& 0 <= i < nutrients.len()
    &&& nutrients[i].name@ == name
    &&& forall|j: int| 0 <= j < i ==> (#[trigger] nutrients[j]).name@ != name
}

fn same_text(a: &str, b: &str) -> (r: bool)
    ensures
        r == (a@ == b@),
{
    let n = a.unicode_len();
    if n != b.unicode_len() {
        return false;
    }
    let mut i: usize = 0;
    while i < n
        invariant
            n == a@.len(),
            n == b@.len(),
            i <= n,
            forall|j: int| 0 <= j < i ==> a@[j] == b@[j],
        decreases n - i,
    {
        if a.get_char(i) != b.get_char(i) {
            return false;
        }
        i = i + 1;
    }
    assert(a@ =~= b@);
    true
}

/// Finds the first nutrient of the catalog called `name`.
pub fn find_nutrient(nutrients: &Vec<Nutrient>, name: &str) -> (r: Option<usize>)
    ensures
        match r {
            Some(i) => first_named(nutrients@, name@, i as int),
            None => forall|j: int| 0 <= j < nutrients@.len() ==> (#[trigger] nutrients@[j]).name@ != name@,
        },
{
    let mut i: usize = 0;
    while i < nutrients.len()
        invariant
            i <= nutrients@.len(),
            forall|j: int| 0 <= j < i ==> (#[trigger] nutrients@[j]).name@ != name@,
        decreases nutrients@.len() - i,
    {
        if same_text(nutrients[i].name.as_str(), name) {
            return Some(i);
        }
        i = i + 1;
    }
    None
}

/// Whether `value` reaches a fifth of the nutrient's recommended intake,
/// for a nutrient that has one.
pub fn is_well_supplied(nutrient: &Nutrient, value: i128) -> (r: bool)
    ensures
        r == (nutrient.has_guidance() && 5 * value >= nutrient.recommended_intake),
{
    let ri = nutrient.recommended_intake;
    if ri <= INTAKE_FLOOR {
        return false;
    }
    let c = (ri - 1) / 5 + 1;
    assert(value >= c <==> 5 * value >= ri) by (nonlinear_arith)
        requires
            ri > 0,
            c == (ri - 1) / 5 + 1,
    ;
    value >= c
}

pub open spec fn water_name() -> Seq<char> {
    "water_g"@
}

/// Where the catalog keeps water, if it does.
pub open spec fn water_index(nutrients: Seq<Nutrient>) -> Option<int> {
    if exists|i: int| first_named(nutrients, water_name(), i) {
        Some(choose|i: int| first_named(nutrients, water_name(), i))
    } else {
        None
    }
}

/// Whole units of a positive amount; nothing for others.
pub open spec fn whole_units(v: int) -> int {
    if v > 0 {
        v / SCALE as int
    } else {
        0
    }
}

/// Sum over the foods of the length of the name in bytes times the whole grams of
/// water, the water being at position `w` if any.
pub open spec fn greeting_seed(foods: Seq<Food>, w: Option<int>) -> int
    decreases foods.len(),
{
    if foods.len() == 0 {
        0
    } else {
        greeting_seed(foods.drop_last(), w) + encode_utf8(foods.last().name@).len() * match w {
            Some(i) => whole_units(foods.last().nutrients@[i] as int),
            None => 0,
        }
    }
}

pub open spec fn greeting(i: int) -> Seq<char> {
    if i == 0 {
        "Sounds delicious"@
    } else if i == 1 {
        "Sounds delectable"@
    } else if i == 2 {
        "Sounds tasty"@
    } else if i == 3 {
        "Delicious and nutritious"@
    } else {
        "Those are some of my favourite foods"@
    }
}

fn greeting_text(i: usize) -> (r: String)
    ensures
        r@ == greeting(i as int),
{
    if i == 0 {
        String::from_str("Sounds delicious")
    } else if i == 1 {
        String::from_str("Sounds delectable")
    } else if i == 2 {
        String::from_str("Sounds tasty")
    } else if i == 3 {
        String::from_str("Delicious and nutritious")
    } else {
        String::from_str("Those are some of my favourite foods")
    }
}

proof fn lemma_first_named_unique(nutrients: Seq<Nutrient>, name: Seq<char>, i: int, j: int)
    requires
        first_named(nutrients, name, i),
        first_named(nutrients, name, j),
    ensures
        i == j,
{
    if i < j {
        assert(nutrients[i].name@ != name);
    } else if j < i {
        assert(nutrients[j].name@ != name);
    }
}

/// A friendly remark on the selected foods, picked by their names and water.
pub fn get_tasty_message(nutrients: &Vec<Nutrient>, selected_foods: &Vec<Food>) -> (r: String)
    requires
        foods_wf(selected_foods@, nutrients@.len()),
    ensures
        r@ == greeting(greeting_seed(selected_foods@, water_index(nutrients@)) % 5),
{
    let water = find_nutrient(nutrients, "water_g");
    let ghost w: Option<int> = match water {
        Some(i) => Some(i as int),
        None => None,
    };
    proof {
        match water {
            Some(i) => {
                assert(first_named(nutrients@, water_name(), i as int));
                let c = choose|k: int| first_named(nutrients@, water_name(), k);
                lemma_first_named_unique(nutrients@, water_name(), i as int, c);
            },
            None => {
                assert(!exists|k: int| first_named(nutrients@, water_name(), k));
            },
        }
    }
    assert(w == water_index(nutrients@));
    let mut acc: usize = 0;
    let mut i: usize = 0;
    while i < selected_foods.len()
        invariant
            foods_wf(selected_foods@, nutrients@.len()),
            w == match water {
                Some(k) => Some(k as int),
                None => None::<int>,
            },
            match water {
                Some(k) => k < nutrients@.len(),
                None => true,
            },
            i <= selected_foods@.len(),
            acc < 5,
            acc == greeting_seed(selected_foods@.take(i as int), w) % 5,
        decreases selected_foods@.len() - i,
    {
        let f = &selected_foods[i];
        assert(f.wf(nutrients@.len()));
        let len = f.name.as_str().as_bytes().len();
        let units: i128 = match water {
            Some(k) => {
                let v = f.nutrients[k];
                if v > 0 {
                    v / SCALE
                } else {
                    0
                }
            },
            None => 0,
        };
        let ghost prev = greeting_seed(selected_foods@.take(i as int), w);
        let ghost term = len as int * units as int;
        proof {
            assert(selected_foods@.take(i + 1).drop_last() =~= selected_foods@.take(i as int));
            assert(selected_foods@.take(i + 1).last() == *f);
            assert(greeting_seed(selected_foods@.take(i + 1), w) == prev + term);
            lemma_add_mod_noop(prev, term, 5);
            lemma_mul_mod_noop_general(len as int, units as int, 5);
            lemma_add_mod_noop_right(prev % 5, (len as int % 5) * (units as int % 5), 5);
        }
        assert(units >= 0);
        let l5 = len % 5;
        let u5 = (units % 5) as usize;
        assert(l5 < 5 && u5 < 5 && u5 == units as int % 5);
        assert(l5 * u5 <= 16) by (nonlinear_arith)
            requires
                l5 < 5,
                u5 < 5,
        ;
        acc = (acc + l5 * u5) % 5;
        i = i + 1;
    }
    assert(selected_foods@.take(selected_foods@.len() as int) =~= selected_foods@);
    greeting_text(acc)
}

} // verus!
