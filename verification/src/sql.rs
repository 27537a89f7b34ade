//! SQL text built by the service: quoting of identifiers and string
//! literals, and the statements sent to the database.
use vstd::prelude::*;

use crate::text::{chars_of, decimal, decimal_text, owned, remove_char, remove_char_chars, text_of};

verus! {

// ---------------------------------------------------------------------------
// Quoting
// ---------------------------------------------------------------------------

/// `s` with every quote character `q` doubled.
pub open spec fn escape_quote(s: Seq<char>, q: char) -> Seq<char>
    decreases s.len(),
{
    if s.len() == 0 {
        s
    } else if s.last() == q {
        escape_quote(s.drop_last(), q) + seq![q, q]
    } else {
        escape_quote(s.drop_last(), q).push(s.last())
    }
}

/// `s` between two quote characters `q`, with the quotes inside doubled.
pub open spec fn quoted(s: Seq<char>, q: char) -> Seq<char> {
    seq![q] + escape_quote(s, q) + seq![q]
}

/// Reads a quoted body back: each doubled `q` stands for one `q`.
pub open spec fn unescape_quote(t: Seq<char>, q: char) -> Seq<char>
    decreases t.len(),
{
    if t.len() == 0 {
        t
    } else if t.len() >= 2 && t.last() == q && t[t.len() - 2] == q {
        unescape_quote(t.take(t.len() - 2), q).push(q)
    } else {
        unescape_quote(t.drop_last(), q).push(t.last())
    }
}

/// Reads a quoted token back: strips the outer quotes and undoubles the inner ones.
pub open spec fn unquoted(t: Seq<char>, q: char) -> Seq<char> {
    unescape_quote(t.subrange(1, t.len() - 1), q)
}

/// In `t`, every `q` is one half of an adjacent pair `qq`, so a reader of the
/// quoted token cannot take any of them for the closing quote.
pub open spec fn quotes_paired(t: Seq<char>, q: char) -> bool
    decreases t.len(),
{
    if t.len() == 0 {
        true
    } else if t.last() == q {
        t.len() >= 2 && t[t.len() - 2] == q && quotes_paired(t.take(t.len() - 2), q)
    } else {
        quotes_paired(t.drop_last(), q)
    }
}

fn quote_with(value: &str, q: char) -> (r: String)
    ensures
        r@ == quoted(value@, q),
{
    let chars = chars_of(value);
    let mut out: Vec<char> = Vec::new();
    out.push(q);
    let mut i: usize = 0;
    while i < chars.len()
        invariant
            i <= chars@.len(),
            out@ == seq![q] + escape_quote(chars@.take(i as int), q),
        decreases chars@.len() - i,
    {
        proof {
            assert(chars@.take(i + 1).drop_last() =~= chars@.take(i as int));
        }
        let c = chars[i];
        if c == q {
            out.push(q);
            out.push(q);
            proof {
                assert(out@ =~= seq![q] + escape_quote(chars@.take(i + 1), q));
            }
        } else {
            out.push(c);
            proof {
                assert(out@ =~= seq![q] + escape_quote(chars@.take(i + 1), q));
            }
        }
        i = i + 1;
    }
    out.push(q);
    assert(chars@.take(chars@.len() as int) =~= chars@);
    assert(out@ =~= quoted(value@, q));
    text_of(out.as_slice())
}

/// `value` as a SQL string literal: between single quotes, with each single
/// quote inside doubled.
pub fn sql_string_literal(value: &str) -> (r: String)
    ensures
        r@ == quoted(value@, '\''),
{
    quote_with(value, '\'')
}

/// `value` as a SQL quoted identifier: between double quotes, with each
/// double quote inside doubled.
pub fn quote_identifier(value: &str) -> (r: String)
    ensures
        r@ == quoted(value@, '"'),
{
    quote_with(value, '"')
}

proof fn lemma_escape_reads_back(s: Seq<char>, q: char)
    ensures
        unescape_quote(escape_quote(s, q), q) == s,
        quotes_paired(escape_quote(s, q), q),
    decreases s.len(),
{
    if s.len() > 0 {
        let e = escape_quote(s.drop_last(), q);
        lemma_escape_reads_back(s.drop_last(), q);
        if s.last() == q {
            let t = e + seq![q, q];
            assert(t.take(t.len() - 2) =~= e);
        } else {
            let t = e.push(s.last());
            assert(t.drop_last() =~= e);
        }
        assert(s.drop_last().push(s.last()) =~= s);
    }
}

/// Law: a quoted token reads back as the text that was quoted, and every
/// quote inside it is doubled; so two different texts never give the same
/// token, and the token ends exactly at its last character.
pub proof fn quoting_reads_back(s: Seq<char>, q: char)
    ensures
        unquoted(quoted(s, q), q) == s,
        quotes_paired(escape_quote(s, q), q),
        quoted(s, q).len() >= 2,
        quoted(s, q)[0] == q,
        quoted(s, q).last() == q,
{
    lemma_escape_reads_back(s, q);
    let t = quoted(s, q);
    assert(t.subrange(1, t.len() - 1) =~= escape_quote(s, q));
}

/// Law: quoting is injective, for identifiers and string literals alike.
pub proof fn quoting_is_injective(a: Seq<char>, b: Seq<char>, q: char)
    requires
        quoted(a, q) == quoted(b, q),
    ensures
        a == b,
{
    quoting_reads_back(a, q);
    quoting_reads_back(b, q);
}

// ---------------------------------------------------------------------------
// Statements
// ---------------------------------------------------------------------------

/// The text of `DESCRIBE <table>`.
pub open spec fn describe_spec(table_name: Seq<char>) -> Seq<char> {
    "DESCRIBE "@ + quoted(table_name, '"')
}

/// The statement that lists the columns of a table and their types.
pub fn describe_statement(table_name: &str) -> (r: String)
    ensures
        r@ == describe_spec(table_name@),
{
    let mut r = owned("DESCRIBE ");
    let q = quote_identifier(table_name);
    r.append(q.as_str());
    r
}

/// The number of preview rows when the request gives none.
pub const DEFAULT_PREVIEW_LIMIT: usize = 50;

/// The text of `SELECT * FROM <table> LIMIT <n>`.
pub open spec fn preview_spec(table_name: Seq<char>, limit: Option<usize>) -> Seq<char> {
    let n = match limit {
        Some(n) => n,
        None => DEFAULT_PREVIEW_LIMIT,
    };
    "SELECT * FROM "@ + quoted(table_name, '"') + " LIMIT "@ + decimal(n as int)
}

/// The statement that reads the first rows of a table (50 unless `limit` says).
pub fn preview_statement(table_name: &str, limit: Option<usize>) -> (r: String)
    ensures
        r@ == preview_spec(table_name@, limit),
{
    let n = match limit {
        Some(n) => n,
        None => DEFAULT_PREVIEW_LIMIT,
    };
    let mut r = owned("SELECT * FROM ");
    let q = quote_identifier(table_name);
    r.append(q.as_str());
    r.append(" LIMIT ");
    let d = decimal_text(n as i128);
    r.append(d.as_str());
    r
}

/// The text of the per-column statistics query.
pub open spec fn stats_spec(table_name: Seq<char>, column: Seq<char>) -> Seq<char> {
    let col = quoted(column, '"');
    let table = quoted(table_name, '"');
    "SELECT\n                MIN("@ + col + ")::VARCHAR AS min,\n                MAX("@ + col
        + ")::VARCHAR AS max,\n                AVG(TRY_CAST("@ + col
        + " AS DOUBLE)) AS avg,\n                COUNT(DISTINCT "@ + col
        + ") AS distinct_count,\n                SUM(CASE WHEN "@ + col
        + " IS NULL THEN 1 ELSE 0 END) AS nulls\n            FROM "@ + table + ";"@
}

/// The statement that computes min, max, average, distinct count and null
/// count of one column.
pub fn stats_statement(table_name: &str, column: &str) -> (r: String)
    ensures
        r@ == stats_spec(table_name@, column@),
{
    let col = quote_identifier(column);
    let table = quote_identifier(table_name);
    let mut r = owned("SELECT\n                MIN(");
    r.append(col.as_str());
    r.append(")::VARCHAR AS min,\n                MAX(");
    r.append(col.as_str());
    r.append(")::VARCHAR AS max,\n                AVG(TRY_CAST(");
    r.append(col.as_str());
    r.append(" AS DOUBLE)) AS avg,\n                COUNT(DISTINCT ");
    r.append(col.as_str());
    r.append(") AS distinct_count,\n                SUM(CASE WHEN ");
    r.append(col.as_str());
    r.append(" IS NULL THEN 1 ELSE 0 END) AS nulls\n            FROM ");
    r.append(table.as_str());
    r.append(";");
    r
}

/// The text of `EXPLAIN <query>`.
pub open spec fn explain_spec(query: Seq<char>) -> Seq<char> {
    "EXPLAIN "@ + query
}

/// The statement whose result is the plan of `query`.
pub fn explain_statement(query: &str) -> (r: String)
    ensures
        r@ == explain_spec(query@),
{
    let mut r = owned("EXPLAIN ");
    r.append(query);
    r
}

/// The text of `EXPLAIN ANALYZE <query>`.
pub open spec fn analyze_spec(query: Seq<char>) -> Seq<char> {
    "EXPLAIN ANALYZE "@ + query
}

/// The statement that runs `query` and reports its plan with timings.
pub fn analyze_statement(query: &str) -> (r: String)
    ensures
        r@ == analyze_spec(query@),
{
    let mut r = owned("EXPLAIN ANALYZE ");
    r.append(query);
    r
}

/// The text of the statement that registers a CSV file as a view.
pub open spec fn create_view_spec(table_name: Seq<char>, path: Seq<char>) -> Seq<char> {
    "CREATE VIEW "@ + table_name + " AS SELECT * FROM read_csv_auto("@ + quoted(path, '\'')
        + ");"@
}

/// The statement that registers the CSV file at `path` as the view
/// `table_name`, read through `read_csv_auto`.
pub fn create_view_statement(table_name: &str, path: &str) -> (r: String)
    ensures
        r@ == create_view_spec(table_name@, path@),
{
    let literal = sql_string_literal(path);
    let mut r = owned("CREATE VIEW ");
    r.append(table_name);
    r.append(" AS SELECT * FROM read_csv_auto(");
    r.append(literal.as_str());
    r.append(");");
    r
}

// ---------------------------------------------------------------------------
// Table names
// ---------------------------------------------------------------------------

/// The table name derived from an id: `table_` and the id without hyphens.
pub open spec fn table_name_spec(id: Seq<char>) -> Seq<char> {
    "table_"@ + remove_char(id, '-')
}

/// The table name for an uploaded file with the given id.
pub fn table_name_from_id(id: &str) -> (r: String)
    ensures
        r@ == table_name_spec(id@),
{
    let chars = chars_of(id);
    let kept = remove_char_chars(chars.as_slice(), '-');
    let rest = text_of(kept.as_slice());
    let mut r = owned("table_");
    r.append(rest.as_str());
    r
}

/// `c` is a digit or one of `a`..=`f`.
pub open spec fn is_lower_hex(c: char) -> bool {
    ('0' <= c <= '9') || ('a' <= c <= 'f')
}

/// `t` is a version-4 UUID written in the hyphenated lower-case form:
/// 36 characters, hyphens at 8, 13, 18 and 23, lower-case hex digits
/// elsewhere, and the version digit `4` at 14.
pub open spec fn is_uuid_v4_text(t: Seq<char>) -> bool {
    &&& t.len() == 36
    &&& forall|k: int|
        0 <= k < 36 ==> if k == 8 || k == 13 || k == 18 || k == 23 {
            #[trigger] t[k] == '-'
        } else {
            is_lower_hex(t[k])
        }
    &&& t[14] == '4'
}

/// A fresh random UUID (`uuid::Uuid::new_v4`) as text (`to_string`).
/// What is claimed: the text is the hyphenated lower-case form that the
/// crate's `Display` writes, with the version digit 4; which UUID comes out
/// rests on the random number generator and is left unsaid.
#[verifier::external_body]
fn new_uuid_text() -> (t: String)
    ensures
        is_uuid_v4_text(t@),
{
    uuid::Uuid::new_v4().to_string()
}

proof fn lemma_remove_char_keeps(s: Seq<char>, c: char)
    ensures
        forall|k: int|
            0 <= k < remove_char(s, c).len() ==> #[trigger] remove_char(s, c)[k] != c
                && s.contains(remove_char(s, c)[k]),
    decreases s.len(),
{
    if s.len() > 0 {
        lemma_remove_char_keeps(s.drop_last(), c);
        let r = remove_char(s, c);
        assert forall|k: int| 0 <= k < r.len() implies #[trigger] r[k] != c && s.contains(r[k]) by {
            let p = remove_char(s.drop_last(), c);
            if k < p.len() {
                assert(r[k] == p[k]);
                let j = choose|j: int| 0 <= j < s.drop_last().len() && s.drop_last()[j] == p[k];
                assert(s[j] == p[k]);
            } else {
                assert(r[k] == s[s.len() - 1]);
            }
        }
    }
}

/// Law: a generated table name is `table_` followed by lower-case hex digits
/// only, so it is a plain SQL identifier that needs no quoting.
pub proof fn uuid_table_names_are_plain(id: Seq<char>)
    requires
        is_uuid_v4_text(id),
    ensures
        table_name_spec(id).take(6) == "table_"@,
        forall|k: int|
            6 <= k < table_name_spec(id).len() ==> is_lower_hex(#[trigger] table_name_spec(id)[k]),
{
    reveal_strlit("table_");
    let r = remove_char(id, '-');
    lemma_remove_char_keeps(id, '-');
    assert(table_name_spec(id).take(6) =~= "table_"@);
    assert forall|k: int| 6 <= k < table_name_spec(id).len() implies is_lower_hex(
        #[trigger] table_name_spec(id)[k],
    ) by {
        let c = r[k - 6];
        assert(table_name_spec(id)[k] == c);
        assert(c != '-');
        let j = choose|j: int| 0 <= j < id.len() && id[j] == c;
        assert(id[j] == c);
    }
}

/// A new table name for an uploaded file: `table_` and the hex digits of a
/// fresh random UUID.
pub fn fresh_table_name() -> (r: String)
    ensures
        exists|id: Seq<char>| is_uuid_v4_text(id) && r@ == table_name_spec(id),
        r@.take(6) == "table_"@,
        forall|k: int| 6 <= k < r@.len() ==> is_lower_hex(#[trigger] r@[k]),
{
    let id = new_uuid_text();
    let r = table_name_from_id(id.as_str());
    proof {
        uuid_table_names_are_plain(id@);
    }
    r
}

/// The statement text before the row limit of a preview.
pub open spec fn preview_head(table_name: Seq<char>) -> Seq<char> {
    "SELECT * FROM "@ + quoted(table_name, '"') + " LIMIT "@
}

/// Law: a preview reads from the quoted table, and the digits after
/// ` LIMIT ` write the limit that was asked for, or 50 when none was.
pub proof fn preview_limit_is_the_one_asked(table_name: Seq<char>, limit: Option<usize>)
    ensures
        preview_spec(table_name, limit).take(preview_head(table_name).len() as int) == preview_head(
            table_name,
        ),
        crate::values::read_decimal(preview_spec(table_name, limit).skip(
            preview_head(table_name).len() as int,
        )) == Some(
            match limit {
                Some(n) => n as int,
                None => 50,
            },
        ),
{
    let head = preview_head(table_name);
    let n: usize = match limit {
        Some(n) => n,
        None => DEFAULT_PREVIEW_LIMIT,
    };
    let s = preview_spec(table_name, limit);
    assert(s =~= head + decimal(n as int));
    assert(s.take(head.len() as int) =~= head);
    assert(s.skip(head.len() as int) =~= decimal(n as int));
    crate::values::decimal_reads_back(n as int);
}

/// Law: asking for 50 rows and asking for none give the same preview.
pub proof fn preview_default_is_fifty(table_name: Seq<char>)
    ensures
        preview_spec(table_name, Some(50)) == preview_spec(table_name, None),
{
}

} // verus!
