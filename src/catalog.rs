//! The nutrient and food catalogs, and how they are read from the table.
//!
//! The table has five header rows and then one row per food. Its first four
//! columns hold a food's name, display name, emoji and recommendation flag;
//! every further column belongs to one nutrient. The header rows give, for
//! each nutrient column, its name, units, abbreviation, display name and
//! recommended intake.

use vstd::prelude::*;

use crate::amount::{amount_of, parse_amount, AMOUNT_LIMIT};

verus! {

/// Rows before the first food.
pub const HEADER_ROWS: usize = 5;

/// Columns before the first nutrient.
pub const LEAD_COLUMNS: usize = 4;

/// Recommended intakes at or below this many millionths (0.1) give no guidance.
pub const INTAKE_FLOOR: i128 = 100_000;

#[derive(Debug, Clone)]
pub struct Nutrient {
    pub name: String,
    pub display_name: String,
    pub abbreviation: String,
    pub units: String,
    /// Recommended daily intake, in millionths of `units`.
    pub recommended_intake: i128,
}

#[derive(Debug, Clone)]
pub struct Food {
    pub name: String,
    pub display_name: String,
    /// Whether the food may be recommended.
    pub recommend: bool,
    pub emoji: String,
    /// Amount per 100 g of each nutrient of the catalog, in catalog order,
    /// in millionths of the nutrient's units.
    pub nutrients: Vec<i128>,
}

/// Why a table could not be read.
#[derive(Debug, Clone, Copy, PartialEq, Eq, Structural)]
pub enum IngestError {
    /// The text is not comma-separated data.
    Unreadable,
    /// There are fewer than five header rows.
    MissingHeaders,
    /// The first row has fewer than the four leading columns.
    MissingColumns,
    /// The row at this index (header rows counted) has another number of
    /// fields than the first row.
    ColumnCount(usize),
}

pub open spec fn in_range(v: int) -> bool {
    -AMOUNT_LIMIT < v < AMOUNT_LIMIT
}

impl Nutrient {
    pub open spec fn wf(&self) -> bool {
        in_range(self.recommended_intake as int)
    }

    /// The nutrient has a recommended intake that ratios can be taken of.
    pub open spec fn has_guidance(&self) -> bool {
        self.recommended_intake > INTAKE_FLOOR
    }
}

impl Food {
    /// The food has an amount in range for each of `k` nutrients.
    pub open spec fn wf(&self, k: nat) -> bool {
        &&& self.nutrients@.len() == k
        &&& forall|j: int| 0 <= j < k ==> in_range(#[trigger] self.nutrients@[j] as int)
    }
}

pub open spec fn nutrients_wf(nutrients: Seq<Nutrient>) -> bool {
    forall|j: int| 0 <= j < nutrients.len() ==> (#[trigger] nutrients[j]).wf()
}

pub open spec fn foods_wf(foods: Seq<Food>, k: nat) -> bool {
    forall|i: int| 0 <= i < foods.len() ==> (#[trigger] foods[i]).wf(k)
}

/// Both catalogs are well formed and every food has one amount per nutrient.
pub open spec fn catalog_wf(nutrients: Seq<Nutrient>, foods: Seq<Food>) -> bool {
    nutrients_wf(nutrients) && foods_wf(foods, nutrients.len())
}

pub open spec fn rows_view(rows: Seq<Vec<String>>) -> Seq<Seq<Seq<char>>> {
    rows.map_values(|r: Vec<String>| r@.map_values(|f: String| f@))
}

/// A recommended intake cell: an amount, or nothing known.
pub open spec fn intake_of(cell: Seq<char>) -> int {
    match amount_of(cell) {
        Some(v) => v,
        None => 0,
    }
}

/// What an unmeasured amount stands for: a fifth of the recommended intake.
pub open spec fn unmeasured(intake: int) -> int {
    if intake >= 0 {
        intake / 5
    } else {
        -((-intake) / 5)
    }
}

/// A food's amount cell, with unmeasured amounts filled in.
pub open spec fn amount_or_default(cell: Seq<char>, intake: int) -> int {
    match amount_of(cell) {
        Some(v) => v,
        None => unmeasured(intake),
    }
}

pub open spec fn true_token() -> Seq<char> {
    seq!['T', 'R', 'U', 'E']
}

/// `n` is the nutrient described by column `c` of the header rows.
pub open spec fn nutrient_from_headers(n: Nutrient, rows: Seq<Seq<Seq<char>>>, c: int) -> bool {
    &&& n.name@ == rows[0][c]
    &&& n.units@ == rows[1][c]
    &&& n.abbreviation@ == rows[2][c]
    &&& n.display_name@ == rows[3][c]
    &&& n.recommended_intake == intake_of(rows[4][c])
}

/// `f` is the food that `row` describes against the nutrient catalog.
pub open spec fn food_from_row(f: Food, nutrients: Seq<Nutrient>, row: Seq<Seq<char>>) -> bool {
    &&& f.name@ == row[0]
    &&& f.display_name@ == row[1]
    &&& f.emoji@ == row[2]
    &&& f.recommend == (row[3] == true_token())
    &&& f.nutrients@.len() == nutrients.len()
    &&& forall|j: int|
        0 <= j < nutrients.len() ==> #[trigger] f.nutrients@[j] == amount_or_default(
            row[LEAD_COLUMNS + j],
            nutrients[j].recommended_intake as int,
        )
}

/// All rows have as many fields as the first one.
pub open spec fn rectangular(rows: Seq<Seq<Seq<char>>>) -> bool {
    forall|i: int| 0 <= i < rows.len() ==> (#[trigger] rows[i]).len() == rows[0].len()
}

/// The outcome of reading the catalogs from the rows of a table.
pub open spec fn ingested(
    rows: Seq<Seq<Seq<char>>>,
    r: Result<(Vec<Nutrient>, Vec<Food>), IngestError>,
) -> bool {
    match r {
        Ok((nutrients, foods)) => {
            &&& rows.len() >= HEADER_ROWS
            &&& rows[0].len() >= LEAD_COLUMNS
            &&& rectangular(rows)
            &&& nutrients@.len() == rows[0].len() - LEAD_COLUMNS
            &&& forall|j: int|
                0 <= j < nutrients@.len() ==> nutrient_from_headers(
                    #[trigger] nutrients@[j],
                    rows,
                    LEAD_COLUMNS + j,
                )
            &&& foods@.len() == rows.len() - HEADER_ROWS
            &&& forall|i: int|
                0 <= i < foods@.len() ==> food_from_row(
                    #[trigger] foods@[i],
                    nutrients@,
                    rows[HEADER_ROWS + i],
                )
            &&& catalog_wf(nutrients@, foods@)
        },
        Err(IngestError::MissingHeaders) => rows.len() < HEADER_ROWS,
        Err(IngestError::MissingColumns) => rows.len() >= HEADER_ROWS && rows[0].len()
            < LEAD_COLUMNS,
        Err(IngestError::ColumnCount(i)) => {
            &&& rows.len() >= HEADER_ROWS
            &&& rows[0].len() >= LEAD_COLUMNS
            &&& i < rows.len()
            &&& rows[i as int].len() != rows[0].len()
            &&& forall|j: int| 0 <= j < i ==> (#[trigger] rows[j]).len() == rows[0].len()
        },
        Err(IngestError::Unreadable) => false,
    }
}

#[verifier::external_type_specification]
#[verifier::external_body]
pub struct ExCsvError(csv::Error);

/// The records and fields that csv's reader finds in a text, if it reads it.
pub uninterp spec fn csv_rows(text: Seq<char>) -> Option<Seq<Seq<Seq<char>>>>;

/// Relies on csv's `Reader` (no header row, default dialect) to split the
/// text into records and fields, stopping at its first error; the outcome
/// depends on the text alone.
#[verifier::external_body]
fn read_rows(text: &str) -> (r: Result<Vec<Vec<String>>, csv::Error>)
    ensures
        r is Ok <==> csv_rows(text@) is Some,
        r is Ok ==> rows_view(r->Ok_0@) == csv_rows(text@)->0,
{
    csv::ReaderBuilder::new().has_headers(false).from_reader(text.as_bytes()).records().map(
        |rec| rec.map(|rec| rec.iter().map(|f| f.to_string()).collect()),
    ).collect()
}

fn is_true_token(s: &String) -> (r: bool)
    ensures
        r == (s@ == true_token()),
{
    let t = s.as_str();
    if t.unicode_len() != 4 {
        return false;
    }
    let r = t.get_char(0) == 'T' && t.get_char(1) == 'R' && t.get_char(2) == 'U' && t.get_char(3)
        == 'E';
    assert(r ==> s@ =~= true_token());
    r
}

fn unmeasured_amount(intake: i128) -> (r: i128)
    requires
        in_range(intake as int),
    ensures
        r == unmeasured(intake as int),
        in_range(r as int),
{
    if intake >= 0 {
        intake / 5
    } else {
        -((-intake) / 5)
    }
}

fn parse_intake(cell: &String) -> (r: i128)
    ensures
        r == intake_of(cell@),
        in_range(r as int),
{
    match parse_amount(cell.as_str()) {
        Some(v) => v,
        None => 0,
    }
}

/// Builds the nutrient catalog from the header rows, one nutrient per
/// column after the leading ones.
fn get_nutrients(rows: &Vec<Vec<String>>) -> (r: Vec<Nutrient>)
    requires
        rows@.len() >= HEADER_ROWS,
        rows@[0]@.len() >= LEAD_COLUMNS,
        rectangular(rows_view(rows@)),
    ensures
        r@.len() == rows@[0]@.len() - LEAD_COLUMNS,
        forall|j: int|
            0 <= j < r@.len() ==> nutrient_from_headers(
                #[trigger] r@[j],
                rows_view(rows@),
                LEAD_COLUMNS + j,
            ),
        nutrients_wf(r@),
{
    let ghost v = rows_view(rows@);
    let width = rows[0].len();
    let mut nutrients: Vec<Nutrient> = Vec::new();
    let mut c: usize = LEAD_COLUMNS;
    assert forall|i: int| 0 <= i < HEADER_ROWS implies (#[trigger] rows@[i])@.len() == width by {
        assert(v[i].len() == v[0].len());
    }
    while c < width
        invariant
            v == rows_view(rows@),
            width == rows@[0]@.len(),
            rows@.len() >= HEADER_ROWS,
            LEAD_COLUMNS <= c <= width,
            forall|i: int| 0 <= i < HEADER_ROWS ==> (#[trigger] rows@[i])@.len() == width,
            nutrients@.len() == c - LEAD_COLUMNS,
            forall|j: int|
                0 <= j < nutrients@.len() ==> nutrient_from_headers(
                    #[trigger] nutrients@[j],
                    v,
                    LEAD_COLUMNS + j,
                ),
            nutrients_wf(nutrients@),
        decreases width - c,
    {
        let n = Nutrient {
            name: rows[0][c].clone(),
            display_name: rows[3][c].clone(),
            abbreviation: rows[2][c].clone(),
            units: rows[1][c].clone(),
            recommended_intake: parse_intake(&rows[4][c]),
        };
        nutrients.push(n);
        c = c + 1;
    }
    nutrients
}

/// Builds the food that a data row describes.
fn make_food(row: &Vec<String>, nutrients: &Vec<Nutrient>) -> (f: Food)
    requires
        row@.len() == LEAD_COLUMNS + nutrients@.len(),
        nutrients_wf(nutrients@),
    ensures
        food_from_row(f, nutrients@, row@.map_values(|s: String| s@)),
        f.wf(nutrients@.len()),
{
    let ghost cells = row@.map_values(|s: String| s@);
    let mut amounts: Vec<i128> = Vec::new();
    let mut j: usize = 0;
    let width = row.len();
    while j < nutrients.len()
        invariant
            width == row@.len(),
            cells == row@.map_values(|s: String| s@),
            row@.len() == LEAD_COLUMNS + nutrients@.len(),
            nutrients_wf(nutrients@),
            j <= nutrients@.len(),
            amounts@.len() == j,
            forall|k: int|
                0 <= k < j ==> #[trigger] amounts@[k] == amount_or_default(
                    cells[LEAD_COLUMNS + k],
                    nutrients@[k].recommended_intake as int,
                ),
            forall|k: int| 0 <= k < j ==> in_range(#[trigger] amounts@[k] as int),
        decreases nutrients@.len() - j,
    {
        let a = match parse_amount(row[LEAD_COLUMNS + j].as_str()) {
            Some(v) => v,
            None => {
                assert(nutrients@[j as int].wf());
                unmeasured_amount(nutrients[j].recommended_intake)
            },
        };
        amounts.push(a);
        j = j + 1;
    }
    Food {
        name: row[0].clone(),
        display_name: row[1].clone(),
        recommend: is_true_token(&row[3]),
        emoji: row[2].clone(),
        nutrients: amounts,
    }
}

/// Reads both catalogs from the rows of a table: header rows first, then
/// one row per food.
pub fn foods_from_rows(rows: &Vec<Vec<String>>) -> (r: Result<
    (Vec<Nutrient>, Vec<Food>),
    IngestError,
>)
    ensures
        ingested(rows_view(rows@), r),
{
    let ghost v = rows_view(rows@);
    let n_rows = rows.len();
    if n_rows < HEADER_ROWS {
        return Err(IngestError::MissingHeaders);
    }
    let width = rows[0].len();
    if width < LEAD_COLUMNS {
        return Err(IngestError::MissingColumns);
    }
    let mut i: usize = 0;
    while i < n_rows
        invariant
            v == rows_view(rows@),
            n_rows == rows@.len(),
            width == v[0].len(),
            n_rows >= HEADER_ROWS,
            width >= LEAD_COLUMNS,
            i <= n_rows,
            forall|j: int| 0 <= j < i ==> (#[trigger] v[j]).len() == width,
        decreases n_rows - i,
    {
        assert(v[i as int].len() == rows@[i as int]@.len());
        if rows[i].len() != width {
            return Err(IngestError::ColumnCount(i));
        }
        i = i + 1;
    }
    let nutrients = get_nutrients(rows);
    let mut foods: Vec<Food> = Vec::new();
    let mut i: usize = HEADER_ROWS;
    while i < n_rows
        invariant
            v == rows_view(rows@),
            n_rows == rows@.len(),
            rectangular(v),
            width == v[0].len(),
            n_rows >= HEADER_ROWS,
            width >= LEAD_COLUMNS,
            nutrients@.len() == width - LEAD_COLUMNS,
            nutrients_wf(nutrients@),
            HEADER_ROWS <= i <= n_rows,
            foods@.len() == i - HEADER_ROWS,
            forall|k: int|
                0 <= k < foods@.len() ==> food_from_row(
                    #[trigger] foods@[k],
                    nutrients@,
                    v[HEADER_ROWS + k],
                ),
            foods_wf(foods@, nutrients@.len()),
        decreases n_rows - i,
    {
        assert(v[i as int].len() == width);
        assert(rows@[i as int]@.map_values(|s: String| s@) == v[i as int]);
        let f = make_food(&rows[i], &nutrients);
        foods.push(f);
        i = i + 1;
    }
    Ok((nutrients, foods))
}

/// Reads both catalogs from the text of a table.
pub fn get_foods(csv: String) -> (r: Result<(Vec<Nutrient>, Vec<Food>), IngestError>)
    ensures
        match csv_rows(csv@) {
            None => r == Err::<(Vec<Nutrient>, Vec<Food>), IngestError>(IngestError::Unreadable),
            Some(rows) => ingested(rows, r),
        },
{
    match read_rows(csv.as_str()) {
        Ok(rows) => foods_from_rows(&rows),
        Err(_) => Err(IngestError::Unreadable),
    }
}

} // verus!
