//! Database values as the service renders them: as display text and as
//! JSON cells.
use vstd::prelude::*;

use crate::text::{decimal, decimal_text, join, owned};

verus! {

/// One value read from a result row.
///
/// Floating-point values and values of other outside types are carried by
/// what stands for them in the rendering: their text.
#[derive(Debug, Clone, PartialEq)]
pub enum SqlValue {
    Null,
    Boolean(bool),
    TinyInt(i8),
    SmallInt(i16),
    Int(i32),
    BigInt(i64),
    UTinyInt(u8),
    USmallInt(u16),
    UInt(u32),
    UBigInt(u64),
    HugeInt(i128),
    /// A `FLOAT` or `DOUBLE`: its display text and, when it is finite, the
    /// text of the JSON number that stands for it.
    Real { text: String, json_number: Option<String> },
    /// A `DECIMAL`: its display text.
    Decimal(String),
    Text(Vec<u8>),
    Blob(Vec<u8>),
    /// A date, as days since 1970-01-01.
    Date32(i32),
    /// A time of day, in the unit of the column.
    Time64(i64),
    /// A point in time, in the unit of the column.
    Timestamp(i64),
    /// A value of any other kind: its debug text.
    Other(String),
}

/// A JSON value as the service sends it for one result cell.
#[derive(Debug, Clone, PartialEq)]
pub enum JsonCell {
    Null,
    Bool(bool),
    /// A JSON number, given by its JSON text.
    Number(String),
    /// A JSON string.
    Text(String),
}

/// The mathematical model of a JSON cell.
pub enum JsonModel {
    Null,
    Bool(bool),
    Number(Seq<char>),
    Text(Seq<char>),
}

impl View for JsonCell {
    type V = JsonModel;

    open spec fn view(&self) -> JsonModel {
        match self {
            JsonCell::Null => JsonModel::Null,
            JsonCell::Bool(b) => JsonModel::Bool(*b),
            JsonCell::Number(t) => JsonModel::Number(t@),
            JsonCell::Text(t) => JsonModel::Text(t@),
        }
    }
}

/// The text of a bool as `Display` writes it.
pub open spec fn bool_text(b: bool) -> Seq<char> {
    if b {
        "true"@
    } else {
        "false"@
    }
}

fn bool_string(b: bool) -> (r: String)
    ensures
        r@ == bool_text(b),
{
    if b {
        owned("true")
    } else {
        owned("false")
    }
}

/// The views of an optional string.
pub open spec fn text_option(o: Option<String>) -> Option<Seq<char>> {
    match o {
        Some(s) => Some(s@),
        None => None,
    }
}

// ---------------------------------------------------------------------------
// Trusted conversions
// ---------------------------------------------------------------------------

/// What `String::from_utf8_lossy` makes of `bytes`.
pub uninterp spec fn utf8_lossy(bytes: Seq<u8>) -> Seq<char>;

/// `String::from_utf8_lossy` as an owned string. What is claimed: the result
/// is a function of the bytes, and valid UTF-8 is decoded unchanged; how
/// invalid sequences are replaced is left to the name.
#[verifier::external_body]
fn utf8_lossy_text(bytes: &[u8]) -> (r: String)
    ensures
        r@ == utf8_lossy(bytes@),
        vstd::utf8::valid_utf8(bytes@) ==> r@ == vstd::utf8::decode_utf8(bytes@),
{
    String::from_utf8_lossy(bytes).to_string()
}

/// The text of the date `days` days after `year`-`month`-`day`, as chrono's
/// `NaiveDate` writes it, or `None` when that date does not exist or lies
/// outside chrono's range.
pub uninterp spec fn date_after_days(year: int, month: int, day: int, days: int) -> Option<
    Seq<char>,
>;

/// chrono's `NaiveDate::from_ymd_opt`, `checked_add_signed` with
/// `Duration::days`, and the date's `to_string`. What is claimed: the result
/// is a function of the four arguments; the calendar arithmetic and the
/// range of dates are left to the name.
#[verifier::external_body]
fn calendar_date_after(year: i32, month: u32, day: u32, days: i32) -> (r: Option<String>)
    ensures
        text_option(r) == date_after_days(year as int, month as int, day as int, days as int),
{
    let start = chrono::NaiveDate::from_ymd_opt(year, month, day)?;
    let moved = start.checked_add_signed(chrono::Duration::days(days as i64))?;
    Some(moved.to_string())
}

// ---------------------------------------------------------------------------
// Dates and byte strings
// ---------------------------------------------------------------------------

/// The text of a date given as days since 1970-01-01: the calendar date, or
/// the number of days where there is no such date.
pub open spec fn date32_text(days: i32) -> Seq<char> {
    match date_after_days(1970, 1, 1, days as int) {
        Some(t) => t,
        None => decimal(days as int),
    }
}

/// The text of a date given the calendar's answer for it: that answer, or
/// the number of days where the calendar has none.
pub fn date_text_or_days(calendar: Option<String>, days_since_epoch: i32) -> (r: String)
    ensures
        r@ == match text_option(calendar) {
            Some(t) => t,
            None => decimal(days_since_epoch as int),
        },
{
    match calendar {
        Some(t) => t,
        None => decimal_text(days_since_epoch as i128),
    }
}

/// The calendar date `days_since_epoch` days after 1970-01-01, or the
/// number itself when no such date can be represented.
pub fn date32_to_string(days_since_epoch: i32) -> (r: String)
    ensures
        r@ == date32_text(days_since_epoch),
{
    let calendar = calendar_date_after(1970, 1, 1, days_since_epoch);
    date_text_or_days(calendar, days_since_epoch)
}

/// The decimal texts of the bytes.
pub open spec fn byte_texts(bytes: Seq<u8>) -> Seq<Seq<char>> {
    bytes.map_values(|b: u8| decimal(b as int))
}

/// The debug text of a byte slice: `[1, 2, 3]`.
pub open spec fn bytes_debug_text(bytes: Seq<u8>) -> Seq<char> {
    "["@ + join(byte_texts(bytes), ", "@) + "]"@
}

/// The debug text of a byte slice, as `{:?}` writes it.
pub fn bytes_debug(bytes: &[u8]) -> (r: String)
    ensures
        r@ == bytes_debug_text(bytes@),
{
    let mut body = String::new();
    let mut i: usize = 0;
    while i < bytes.len()
        invariant
            i <= bytes@.len(),
            body@ == join(byte_texts(bytes@.take(i as int)), ", "@),
        decreases bytes@.len() - i,
    {
        proof {
            assert(byte_texts(bytes@.take(i + 1)).drop_last() =~= byte_texts(bytes@.take(i as int)));
        }
        if i > 0 {
            body.append(", ");
        }
        let d = decimal_text(bytes[i] as i128);
        body.append(d.as_str());
        i = i + 1;
    }
    assert(bytes@.take(bytes@.len() as int) =~= bytes@);
    let mut r = owned("[");
    r.append(body.as_str());
    r.append("]");
    r
}

// ---------------------------------------------------------------------------
// Display text of a value
// ---------------------------------------------------------------------------

/// The text that the plan listing shows for a value.
pub open spec fn value_text(v: SqlValue) -> Seq<char> {
    match v {
        SqlValue::Null => Seq::empty(),
        SqlValue::Boolean(b) => bool_text(b),
        SqlValue::TinyInt(x) => decimal(x as int),
        SqlValue::SmallInt(x) => decimal(x as int),
        SqlValue::Int(x) => decimal(x as int),
        SqlValue::BigInt(x) => decimal(x as int),
        SqlValue::UTinyInt(x) => decimal(x as int),
        SqlValue::USmallInt(x) => decimal(x as int),
        SqlValue::UInt(x) => decimal(x as int),
        SqlValue::UBigInt(x) => decimal(x as int),
        SqlValue::HugeInt(x) => decimal(x as int),
        SqlValue::Real { text, json_number } => text@,
        SqlValue::Decimal(t) => t@,
        SqlValue::Text(b) => utf8_lossy(b@),
        SqlValue::Blob(b) => bytes_debug_text(b@),
        SqlValue::Date32(d) => date32_text(d),
        SqlValue::Time64(x) => decimal(x as int),
        SqlValue::Timestamp(x) => decimal(x as int),
        SqlValue::Other(t) => t@,
    }
}

/// A value as display text: empty for `NULL`, decimal for integers, the
/// calendar date for dates, the decoded text for text.
pub fn json_value_to_string(value: &SqlValue) -> (r: String)
    ensures
        r@ == value_text(*value),
{
    match value {
        SqlValue::Null => String::new(),
        SqlValue::Boolean(b) => bool_string(*b),
        SqlValue::TinyInt(x) => decimal_text(*x as i128),
        SqlValue::SmallInt(x) => decimal_text(*x as i128),
        SqlValue::Int(x) => decimal_text(*x as i128),
        SqlValue::BigInt(x) => decimal_text(*x as i128),
        SqlValue::UTinyInt(x) => decimal_text(*x as i128),
        SqlValue::USmallInt(x) => decimal_text(*x as i128),
        SqlValue::UInt(x) => decimal_text(*x as i128),
        SqlValue::UBigInt(x) => decimal_text(*x as i128),
        SqlValue::HugeInt(x) => decimal_text(*x),
        SqlValue::Real { text, json_number: _ } => text.clone(),
        SqlValue::Decimal(t) => t.clone(),
        SqlValue::Text(b) => utf8_lossy_text(b.as_slice()),
        SqlValue::Blob(b) => bytes_debug(b.as_slice()),
        SqlValue::Date32(d) => date32_to_string(*d),
        SqlValue::Time64(x) => decimal_text(*x as i128),
        SqlValue::Timestamp(x) => decimal_text(*x as i128),
        SqlValue::Other(t) => t.clone(),
    }
}

// ---------------------------------------------------------------------------
// JSON cell of a value
// ---------------------------------------------------------------------------

/// The JSON cell for a 128-bit integer: a number when it fits in `i64` or
/// `u64`, else its decimal text as a string.
pub open spec fn i128_json(v: i128) -> JsonModel {
    if i64::MIN <= v <= u64::MAX {
        JsonModel::Number(decimal(v as int))
    } else {
        JsonModel::Text(decimal(v as int))
    }
}

/// The JSON cell for a 128-bit integer.
pub fn i128_to_json(value: i128) -> (r: JsonCell)
    ensures
        r@ == i128_json(value),
{
    if i64::MIN as i128 <= value && value <= u64::MAX as i128 {
        JsonCell::Number(decimal_text(value))
    } else {
        JsonCell::Text(decimal_text(value))
    }
}

/// The JSON cell sent for a value.
pub open spec fn value_json(v: SqlValue) -> JsonModel {
    match v {
        SqlValue::Null => JsonModel::Null,
        SqlValue::Boolean(b) => JsonModel::Bool(b),
        SqlValue::TinyInt(x) => JsonModel::Number(decimal(x as int)),
        SqlValue::SmallInt(x) => JsonModel::Number(decimal(x as int)),
        SqlValue::Int(x) => JsonModel::Number(decimal(x as int)),
        SqlValue::BigInt(x) => JsonModel::Number(decimal(x as int)),
        SqlValue::UTinyInt(x) => JsonModel::Number(decimal(x as int)),
        SqlValue::USmallInt(x) => JsonModel::Number(decimal(x as int)),
        SqlValue::UInt(x) => JsonModel::Number(decimal(x as int)),
        SqlValue::UBigInt(x) => JsonModel::Number(decimal(x as int)),
        SqlValue::HugeInt(x) => i128_json(x),
        SqlValue::Real { text, json_number } => match json_number {
            Some(n) => JsonModel::Number(n@),
            None => JsonModel::Null,
        },
        SqlValue::Decimal(t) => JsonModel::Text(t@),
        SqlValue::Text(b) => JsonModel::Text(utf8_lossy(b@)),
        SqlValue::Blob(b) => JsonModel::Text(bytes_debug_text(b@)),
        SqlValue::Date32(d) => JsonModel::Text(date32_text(d)),
        SqlValue::Time64(x) => JsonModel::Text(decimal(x as int)),
        SqlValue::Timestamp(x) => JsonModel::Text(decimal(x as int)),
        SqlValue::Other(t) => JsonModel::Text(t@),
    }
}

/// A value as a JSON cell: `null`, a bool, a number for integers (128-bit
/// ones only when they fit in 64 bits) and finite reals, a string otherwise.
pub fn json_value_to_json(value: &SqlValue) -> (r: JsonCell)
    ensures
        r@ == value_json(*value),
{
    match value {
        SqlValue::Null => JsonCell::Null,
        SqlValue::Boolean(b) => JsonCell::Bool(*b),
        SqlValue::TinyInt(x) => JsonCell::Number(decimal_text(*x as i128)),
        SqlValue::SmallInt(x) => JsonCell::Number(decimal_text(*x as i128)),
        SqlValue::Int(x) => JsonCell::Number(decimal_text(*x as i128)),
        SqlValue::BigInt(x) => JsonCell::Number(decimal_text(*x as i128)),
        SqlValue::UTinyInt(x) => JsonCell::Number(decimal_text(*x as i128)),
        SqlValue::USmallInt(x) => JsonCell::Number(decimal_text(*x as i128)),
        SqlValue::UInt(x) => JsonCell::Number(decimal_text(*x as i128)),
        SqlValue::UBigInt(x) => JsonCell::Number(decimal_text(*x as i128)),
        SqlValue::HugeInt(x) => i128_to_json(*x),
        SqlValue::Real { text: _, json_number } => match json_number {
            Some(n) => JsonCell::Number(n.clone()),
            None => JsonCell::Null,
        },
        SqlValue::Decimal(t) => JsonCell::Text(t.clone()),
        SqlValue::Text(b) => JsonCell::Text(utf8_lossy_text(b.as_slice())),
        SqlValue::Blob(b) => JsonCell::Text(bytes_debug(b.as_slice())),
        SqlValue::Date32(d) => JsonCell::Text(date32_to_string(*d)),
        SqlValue::Time64(x) => JsonCell::Text(decimal_text(*x as i128)),
        SqlValue::Timestamp(x) => JsonCell::Text(decimal_text(*x as i128)),
        SqlValue::Other(t) => JsonCell::Text(t.clone()),
    }
}

/// The display text of a JSON cell: a string as it is, `null` as nothing,
/// anything else as its JSON text.
pub open spec fn cell_text(c: JsonModel) -> Seq<char> {
    match c {
        JsonModel::Null => Seq::empty(),
        JsonModel::Bool(b) => bool_text(b),
        JsonModel::Number(t) => t,
        JsonModel::Text(t) => t,
    }
}

/// The display text of a JSON cell.
pub fn json_to_display_string(value: &JsonCell) -> (r: String)
    ensures
        r@ == cell_text(value@),
{
    match value {
        JsonCell::Text(t) => t.clone(),
        JsonCell::Null => String::new(),
        JsonCell::Bool(b) => bool_string(*b),
        JsonCell::Number(t) => t.clone(),
    }
}

/// Law: for every value but a real, the display text of its JSON cell is
/// the value's own display text.
pub proof fn display_of_json_is_value_text(v: SqlValue)
    requires
        !(v is Real),
    ensures
        cell_text(value_json(v)) == value_text(v),
{
}

/// Law: a 128-bit integer's cell displays as its decimal text, whichever
/// kind of cell it is.
pub proof fn i128_cell_displays_decimal(v: i128)
    ensures
        cell_text(i128_json(v)) == decimal(v as int),
{
}

/// A copy of a JSON cell.
pub fn copy_cell(c: &JsonCell) -> (r: JsonCell)
    ensures
        r@ == c@,
{
    match c {
        JsonCell::Null => JsonCell::Null,
        JsonCell::Bool(b) => JsonCell::Bool(*b),
        JsonCell::Number(t) => JsonCell::Number(t.clone()),
        JsonCell::Text(t) => JsonCell::Text(t.clone()),
    }
}

/// The JSON cells of a row of values, in order.
pub fn row_to_json(values: &[SqlValue]) -> (r: Vec<JsonCell>)
    ensures
        r@.len() == values@.len(),
        forall|i: int| 0 <= i < values@.len() ==> #[trigger] r@[i]@ == value_json(values@[i]),
{
    let mut r: Vec<JsonCell> = Vec::new();
    let mut i: usize = 0;
    while i < values.len()
        invariant
            i <= values@.len(),
            r@.len() == i,
            forall|k: int| 0 <= k < i ==> #[trigger] r@[k]@ == value_json(values@[k]),
        decreases values@.len() - i,
    {
        r.push(json_value_to_json(&values[i]));
        i = i + 1;
    }
    r
}

// ---------------------------------------------------------------------------
// Plan listing rows
// ---------------------------------------------------------------------------

/// One row of an `EXPLAIN` result: its first two columns, each present
/// when the row could be read there.
pub struct ExplainRow {
    pub explain_key: Option<SqlValue>,
    pub explain_value: Option<SqlValue>,
}

/// The text that a plan row contributes: the second column when present,
/// else the first, else nothing.
pub open spec fn explain_row_text(row: ExplainRow) -> Seq<char> {
    match row.explain_value {
        Some(v) => value_text(v),
        None => match row.explain_key {
            Some(v) => value_text(v),
            None => Seq::empty(),
        },
    }
}

/// The non-empty texts of the rows, in order.
pub open spec fn explain_lines_spec(rows: Seq<ExplainRow>) -> Seq<Seq<char>>
    decreases rows.len(),
{
    if rows.len() == 0 {
        Seq::empty()
    } else {
        let prev = explain_lines_spec(rows.drop_last());
        let t = explain_row_text(rows.last());
        if t.len() > 0 {
            prev.push(t)
        } else {
            prev
        }
    }
}

/// The plan listing: the text of each row, leaving out empty ones.
pub fn explain_lines(rows: &[ExplainRow]) -> (r: Vec<String>)
    ensures
        crate::text::views(r@) == explain_lines_spec(rows@),
{
    let mut r: Vec<String> = Vec::new();
    let mut i: usize = 0;
    while i < rows.len()
        invariant
            i <= rows@.len(),
            crate::text::views(r@) == explain_lines_spec(rows@.take(i as int)),
        decreases rows@.len() - i,
    {
        proof {
            assert(rows@.take(i + 1).drop_last() =~= rows@.take(i as int));
        }
        let row = &rows[i];
        let line = match &row.explain_value {
            Some(v) => json_value_to_string(v),
            None => match &row.explain_key {
                Some(v) => json_value_to_string(v),
                None => String::new(),
            },
        };
        if line.as_str().is_empty() {
            proof {
                assert(explain_lines_spec(rows@.take(i + 1)) == explain_lines_spec(rows@.take(i as int)));
            }
        } else {
            let ghost before = r@;
            r.push(line);
            proof {
                assert(crate::text::views(r@) =~= crate::text::views(before).push(r@.last()@));
            }
        }
        i = i + 1;
    }
    assert(rows@.take(rows@.len() as int) =~= rows@);
    r
}

// ---------------------------------------------------------------------------
// Schema and statistics rows
// ---------------------------------------------------------------------------

/// The views of the cells of a row.
pub open spec fn row_view(row: Vec<JsonCell>) -> Seq<JsonModel> {
    row@.map_values(|c: JsonCell| c@)
}

/// A column of a table and its type, as `DESCRIBE` lists them.
pub struct ColumnSchema {
    pub column: String,
    pub ty: String,
}

/// The (column, type) texts of the rows that have at least two cells.
pub open spec fn schema_spec(rows: Seq<Vec<JsonCell>>) -> Seq<(Seq<char>, Seq<char>)>
    decreases rows.len(),
{
    if rows.len() == 0 {
        Seq::empty()
    } else {
        let prev = schema_spec(rows.drop_last());
        let row = rows.last();
        if row@.len() >= 2 {
            prev.push((cell_text(row@[0]@), cell_text(row@[1]@)))
        } else {
            prev
        }
    }
}

/// The views of schema entries.
pub open spec fn schema_views(s: Seq<ColumnSchema>) -> Seq<(Seq<char>, Seq<char>)> {
    s.map_values(|e: ColumnSchema| (e.column@, e.ty@))
}

/// The schema of a table from the rows of `DESCRIBE`: the display texts of
/// the first two cells of each row, skipping rows with fewer cells.
pub fn schema_entries(rows: &[Vec<JsonCell>]) -> (r: Vec<ColumnSchema>)
    ensures
        schema_views(r@) == schema_spec(rows@),
{
    let mut r: Vec<ColumnSchema> = Vec::new();
    let mut i: usize = 0;
    while i < rows.len()
        invariant
            i <= rows@.len(),
            schema_views(r@) == schema_spec(rows@.take(i as int)),
        decreases rows@.len() - i,
    {
        proof {
            assert(rows@.take(i + 1).drop_last() =~= rows@.take(i as int));
        }
        let row = &rows[i];
        if row.len() >= 2 {
            let column = json_to_display_string(&row[0]);
            let ty = json_to_display_string(&row[1]);
            let ghost before = r@;
            r.push(ColumnSchema { column, ty });
            proof {
                assert(schema_views(r@) =~= schema_views(before).push((r@.last().column@, r@.last().ty@)));
            }
        }
        i = i + 1;
    }
    assert(rows@.take(rows@.len() as int) =~= rows@);
    r
}

/// The display texts of the first cells of the rows that have one.
pub open spec fn column_names_spec(rows: Seq<Vec<JsonCell>>) -> Seq<Seq<char>>
    decreases rows.len(),
{
    if rows.len() == 0 {
        Seq::empty()
    } else {
        let prev = column_names_spec(rows.drop_last());
        let row = rows.last();
        if row@.len() >= 1 {
            prev.push(cell_text(row@[0]@))
        } else {
            prev
        }
    }
}

/// The column names of a table from the rows of `DESCRIBE`.
pub fn column_names(rows: &[Vec<JsonCell>]) -> (r: Vec<String>)
    ensures
        crate::text::views(r@) == column_names_spec(rows@),
{
    let mut r: Vec<String> = Vec::new();
    let mut i: usize = 0;
    while i < rows.len()
        invariant
            i <= rows@.len(),
            crate::text::views(r@) == column_names_spec(rows@.take(i as int)),
        decreases rows@.len() - i,
    {
        proof {
            assert(rows@.take(i + 1).drop_last() =~= rows@.take(i as int));
        }
        let row = &rows[i];
        if row.len() >= 1 {
            let name = json_to_display_string(&row[0]);
            let ghost before = r@;
            r.push(name);
            proof {
                assert(crate::text::views(r@) =~= crate::text::views(before).push(r@.last()@));
            }
        }
        i = i + 1;
    }
    assert(rows@.take(rows@.len() as int) =~= rows@);
    r
}

/// The statistics of one column.
pub struct StatsEntry {
    pub min: JsonCell,
    pub max: JsonCell,
    pub avg: JsonCell,
    pub distinct: JsonCell,
    pub nulls: JsonCell,
}

/// Cell `i` of the first row, or `null` when there is none.
pub open spec fn first_row_cell(rows: Seq<Vec<JsonCell>>, i: int) -> JsonModel {
    if rows.len() > 0 && 0 <= i < rows[0]@.len() {
        rows[0]@[i]@
    } else {
        JsonModel::Null
    }
}

fn first_row_cell_exec(rows: &[Vec<JsonCell>], i: usize) -> (r: JsonCell)
    ensures
        r@ == first_row_cell(rows@, i as int),
{
    if rows.len() > 0 && i < rows[0].len() {
        copy_cell(&rows[0][i])
    } else {
        JsonCell::Null
    }
}

/// The statistics of a column from the rows of its statistics query: the
/// first five cells of the first row, each `null` where missing.
pub fn stats_entry(rows: &[Vec<JsonCell>]) -> (r: StatsEntry)
    ensures
        r.min@ == first_row_cell(rows@, 0),
        r.max@ == first_row_cell(rows@, 1),
        r.avg@ == first_row_cell(rows@, 2),
        r.distinct@ == first_row_cell(rows@, 3),
        r.nulls@ == first_row_cell(rows@, 4),
{
    StatsEntry {
        min: first_row_cell_exec(rows, 0),
        max: first_row_cell_exec(rows, 1),
        avg: first_row_cell_exec(rows, 2),
        distinct: first_row_cell_exec(rows, 3),
        nulls: first_row_cell_exec(rows, 4),
    }
}

// ---------------------------------------------------------------------------
// Laws on integers
// ---------------------------------------------------------------------------

/// The integer that a signed decimal text writes: an optional `-` and at
/// least one ASCII digit.
pub open spec fn read_decimal(t: Seq<char>) -> Option<int> {
    if t.len() > 0 && t[0] == '-' {
        let d = t.drop_first();
        if d.len() > 0 && crate::plan::all_digits(d) {
            Some(-crate::plan::digits_value(d))
        } else {
            None
        }
    } else if t.len() > 0 && crate::plan::all_digits(t) {
        Some(crate::plan::digits_value(t))
    } else {
        None
    }
}

/// The mathematical value of an integer column value.
pub open spec fn integer_of(v: SqlValue) -> Option<int> {
    match v {
        SqlValue::TinyInt(x) => Some(x as int),
        SqlValue::SmallInt(x) => Some(x as int),
        SqlValue::Int(x) => Some(x as int),
        SqlValue::BigInt(x) => Some(x as int),
        SqlValue::UTinyInt(x) => Some(x as int),
        SqlValue::USmallInt(x) => Some(x as int),
        SqlValue::UInt(x) => Some(x as int),
        SqlValue::UBigInt(x) => Some(x as int),
        SqlValue::HugeInt(x) => Some(x as int),
        _ => None,
    }
}

/// Law: a decimal text reads back as the integer it was made from.
pub proof fn decimal_reads_back(x: int)
    ensures
        read_decimal(decimal(x)) == Some(x),
{
    if x < 0 {
        let d = crate::text::digits_of((-x) as nat);
        crate::plan::lemma_digits_of_value((-x) as nat);
        assert((seq!['-'] + d).drop_first() =~= d);
    } else {
        let d = crate::text::digits_of(x as nat);
        crate::plan::lemma_digits_of_value(x as nat);
        assert(crate::text::is_digit(d[0]));
    }
}

/// Law: an integer value of any integer column type is shown as the signed
/// decimal of its value, and its JSON cell is a number with that text (for
/// 128-bit integers, only when the value fits in `i64` or `u64`; else a
/// string with that text).
pub proof fn integers_render_as_their_value(v: SqlValue, x: int)
    requires
        integer_of(v) == Some(x),
    ensures
        read_decimal(value_text(v)) == Some(x),
        read_decimal(cell_text(value_json(v))) == Some(x),
        !(v is HugeInt) ==> value_json(v) is Number,
        v is HugeInt ==> (value_json(v) is Number <==> i64::MIN <= x <= u64::MAX),
{
    decimal_reads_back(x);
}

} // verus!
