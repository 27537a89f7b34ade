//! Reading a query plan listing into a tree of operators, and explaining it.
use vstd::prelude::*;

use crate::text::{
    chars_of, contains, contains_chars, decimal, decimal_text, digit_value, find, find_chars, find_from,
    is_digit, join, join_strings, owned, remove_char, remove_char_chars, text_of, trim,
    trim_chars, views,
};
use crate::values::text_option;

verus! {

// ---------------------------------------------------------------------------
// Trusted text operations
// ---------------------------------------------------------------------------

/// What `str::to_uppercase` makes of a text.
pub uninterp spec fn uppercase(s: Seq<char>) -> Seq<char>;

/// What `str::to_lowercase` makes of a text.
pub uninterp spec fn lowercase(s: Seq<char>) -> Seq<char>;

/// All characters of `s` are ASCII.
pub open spec fn is_ascii_text(s: Seq<char>) -> bool {
    forall|i: int| 0 <= i < s.len() ==> (#[trigger] s[i] as u32) < 128
}

/// The upper-case form of an ASCII character.
pub open spec fn ascii_upper(c: char) -> char {
    if 'a' <= c <= 'z' {
        ((c as u32) - 32) as char
    } else {
        c
    }
}

/// The lower-case form of an ASCII character.
pub open spec fn ascii_lower(c: char) -> char {
    if 'A' <= c <= 'Z' {
        ((c as u32) + 32) as char
    } else {
        c
    }
}

/// `str::to_uppercase`. What is claimed: the result is a function of the
/// text, and ASCII text maps letter for letter (`a`..=`z` to `A`..=`Z`, every
/// other character kept); the Unicode case mapping beyond ASCII is left to
/// the name.
#[verifier::external_body]
fn to_uppercase_text(s: &str) -> (r: String)
    ensures
        r@ == uppercase(s@),
        is_ascii_text(s@) ==> r@ == s@.map_values(|c: char| ascii_upper(c)),
{
    s.to_uppercase()
}

/// `str::to_lowercase`. What is claimed: the result is a function of the
/// text, and ASCII text maps letter for letter (`A`..=`Z` to `a`..=`z`, every
/// other character kept); the Unicode case mapping beyond ASCII is left to
/// the name.
#[verifier::external_body]
fn to_lowercase_text(s: &str) -> (r: String)
    ensures
        r@ == lowercase(s@),
        is_ascii_text(s@) ==> r@ == s@.map_values(|c: char| ascii_lower(c)),
{
    s.to_lowercase()
}

/// The text of capture group `group` in the leftmost match of the regular
/// expression `pattern` in `text`; `None` when the pattern does not compile,
/// does not match, or the group took part in no match.
pub uninterp spec fn regex_capture(pattern: Seq<char>, text: Seq<char>, group: int) -> Option<
    Seq<char>,
>;

/// The regex crate's `Regex::new`, `Regex::captures`, `Captures::get` and
/// `Match::as_str`. What is claimed: the result is a function of the
/// pattern, the text and the group number; the matching itself is left to
/// the name.
#[verifier::external_body]
fn regex_capture_text(pattern: &str, text: &str, group: usize) -> (r: Option<String>)
    ensures
        text_option(r) == regex_capture(pattern@, text@, group as int),
{
    let re = regex::Regex::new(pattern).ok()?;
    let caps = re.captures(text)?;
    let m = caps.get(group)?;
    Some(m.as_str().to_string())
}

// ---------------------------------------------------------------------------
// Lines of a plan listing
// ---------------------------------------------------------------------------

/// The pieces of `s` between newline characters (at least one piece).
pub open spec fn split_newlines(s: Seq<char>) -> Seq<Seq<char>>
    decreases s.len(),
{
    if s.len() == 0 {
        seq![Seq::empty()]
    } else if s.last() == '\n' {
        split_newlines(s.drop_last()).push(Seq::empty())
    } else {
        let p = split_newlines(s.drop_last());
        p.update(p.len() - 1, p.last().push(s.last()))
    }
}

/// A line without the carriage return that ended it.
pub open spec fn strip_cr(x: Seq<char>) -> Seq<char> {
    if x.len() > 0 && x.last() == '\r' {
        x.drop_last()
    } else {
        x
    }
}

/// The lines of `s` as `str::lines` gives them: split at `\n`, a `\r`
/// before the `\n` dropped, and no empty last line after a final `\n`.
pub open spec fn lines_of(s: Seq<char>) -> Seq<Seq<char>> {
    let p = split_newlines(s);
    let ended = p.drop_last().map_values(|x: Seq<char>| strip_cr(x));
    if p.last().len() == 0 {
        ended
    } else {
        ended.push(p.last())
    }
}

/// The box-drawing characters of the plan listing.
pub open spec fn is_box_char(c: char) -> bool {
    c == '┌' || c == '┐' || c == '└' || c == '┘' || c == '│' || c == '─' || c == '┬' || c == '┴'
}

fn is_box(c: char) -> (b: bool)
    ensures
        b == is_box_char(c),
{
    c == '┌' || c == '┐' || c == '└' || c == '┘' || c == '│' || c == '─' || c == '┬' || c == '┴'
}

/// `s` without its box-drawing characters.
pub open spec fn remove_box(s: Seq<char>) -> Seq<char>
    decreases s.len(),
{
    if s.len() == 0 {
        s
    } else if is_box_char(s.last()) {
        remove_box(s.drop_last())
    } else {
        remove_box(s.drop_last()).push(s.last())
    }
}

/// A line without box-drawing characters and surrounding whitespace.
pub open spec fn clean_line(x: Seq<char>) -> Seq<char> {
    trim(remove_box(x))
}

/// The cleaned lines, leaving out those that come out empty.
pub open spec fn clean_lines(ls: Seq<Seq<char>>) -> Seq<Seq<char>>
    decreases ls.len(),
{
    if ls.len() == 0 {
        Seq::empty()
    } else {
        let prev = clean_lines(ls.drop_last());
        let c = clean_line(ls.last());
        if c.len() > 0 {
            prev.push(c)
        } else {
            prev
        }
    }
}

/// The cleaned lines of a plan listing.
pub open spec fn clean_spec(text: Seq<char>) -> Seq<Seq<char>> {
    clean_lines(lines_of(text))
}

/// The views of a sequence of character vectors.
pub open spec fn char_views(v: Seq<Vec<char>>) -> Seq<Seq<char>> {
    v.map_values(|x: Vec<char>| x@)
}

fn split_lines_chars(s: &[char]) -> (r: Vec<Vec<char>>)
    ensures
        char_views(r@) == lines_of(s@),
{
    let mut done: Vec<Vec<char>> = Vec::new();
    let mut cur: Vec<char> = Vec::new();
    let mut i: usize = 0;
    while i < s.len()
        invariant
            i <= s@.len(),
            split_newlines(s@.take(i as int)) == char_views(done@).push(cur@),
        decreases s@.len() - i,
    {
        proof {
            assert(s@.take(i + 1).drop_last() =~= s@.take(i as int));
        }
        let c = s[i];
        if c == '\n' {
            let ghost before = char_views(done@);
            let piece = cur;
            done.push(piece);
            cur = Vec::new();
            proof {
                assert(char_views(done@) =~= before.push(piece@));
                assert(split_newlines(s@.take(i + 1)) =~= char_views(done@).push(cur@));
            }
        } else {
            let ghost before = cur@;
            cur.push(c);
            proof {
                let p = split_newlines(s@.take(i as int));
                assert(p.update(p.len() - 1, p.last().push(c)) =~= char_views(done@).push(cur@));
            }
        }
        i = i + 1;
    }
    assert(s@.take(s@.len() as int) =~= s@);
    let ghost p = split_newlines(s@);
    let mut r: Vec<Vec<char>> = Vec::new();
    let mut k: usize = 0;
    while k < done.len()
        invariant
            k <= done@.len(),
            p == char_views(done@).push(cur@),
            char_views(r@) =~= p.drop_last().take(k as int).map_values(|x: Seq<char>| strip_cr(x)),
        decreases done@.len() - k,
    {
        let piece = &done[k];
        let mut line: Vec<char> = Vec::new();
        let n = piece.len();
        let m = if n > 0 && piece[n - 1] == '\r' {
            n - 1
        } else {
            n
        };
        let mut j: usize = 0;
        while j < m
            invariant
                j <= m <= n,
                n == piece@.len(),
                line@ =~= piece@.take(j as int),
            decreases m - j,
        {
            line.push(piece[j]);
            j = j + 1;
        }
        proof {
            assert(p.drop_last()[k as int] == piece@);
            assert(line@ =~= strip_cr(piece@));
        }
        let ghost before = char_views(r@);
        r.push(line);
        k = k + 1;
        proof {
            assert(char_views(r@) =~= before.push(strip_cr(p.drop_last()[k - 1])));
        }
    }
    proof {
        assert(p.drop_last().take(done@.len() as int) =~= p.drop_last());
    }
    if cur.len() > 0 {
        let ghost before = char_views(r@);
        r.push(cur);
        proof {
            assert(char_views(r@) =~= before.push(p.last()));
        }
    }
    r
}

fn remove_box_chars(s: &[char]) -> (r: Vec<char>)
    ensures
        r@ == remove_box(s@),
{
    let mut r: Vec<char> = Vec::new();
    let mut i: usize = 0;
    while i < s.len()
        invariant
            i <= s@.len(),
            r@ == remove_box(s@.take(i as int)),
        decreases s@.len() - i,
    {
        proof {
            assert(s@.take(i + 1).drop_last() =~= s@.take(i as int));
        }
        if !is_box(s[i]) {
            r.push(s[i]);
        }
        i = i + 1;
    }
    assert(s@.take(s@.len() as int) =~= s@);
    r
}

/// The lines of a plan listing without box-drawing characters and
/// surrounding whitespace, leaving out lines that come out empty.
pub fn clean_explain_output(text: &str) -> (r: Vec<String>)
    ensures
        views(r@) == clean_spec(text@),
{
    let chars = chars_of(text);
    let lines = split_lines_chars(chars.as_slice());
    let ghost ls = lines_of(text@);
    let mut r: Vec<String> = Vec::new();
    let mut i: usize = 0;
    while i < lines.len()
        invariant
            i <= lines@.len(),
            char_views(lines@) == ls,
            views(r@) == clean_lines(ls.take(i as int)),
        decreases lines@.len() - i,
    {
        proof {
            assert(ls.take(i + 1).drop_last() =~= ls.take(i as int));
            assert(ls[i as int] == lines@[i as int]@);
        }
        let stripped = remove_box_chars(lines[i].as_slice());
        let cleaned = trim_chars(stripped.as_slice());
        if cleaned.len() > 0 {
            let ghost before = views(r@);
            let line = text_of(cleaned.as_slice());
            r.push(line);
            proof {
                assert(views(r@) =~= before.push(cleaned@));
            }
        }
        i = i + 1;
    }
    assert(ls.take(ls.len() as int) =~= ls);
    r
}

// ---------------------------------------------------------------------------
// Parts of one plan line
// ---------------------------------------------------------------------------

/// The aggregates that a line lists after `Aggregates:`, trimmed, when
/// there are any.
pub open spec fn aggregates_spec(line: Seq<char>) -> Option<Seq<char>> {
    match find(line, "Aggregates:"@) {
        Some(i) => {
            let v = trim(line.skip(i + "Aggregates:"@.len()));
            if v.len() > 0 {
                Some(v)
            } else {
                None
            }
        },
        None => None,
    }
}

/// The aggregates that a line lists after its first `Aggregates:`.
pub fn parse_aggregates(line: &str) -> (r: Option<String>)
    ensures
        text_option(r) == aggregates_spec(line@),
{
    let chars = chars_of(line);
    let key = chars_of("Aggregates:");
    match find_chars(chars.as_slice(), key.as_slice()) {
        Some(i) => {
            proof {
                crate::text::lemma_find_from_bounds(chars@, key@, 0);
                assert(find_from(chars@, key@, 0) == Some(i as int));
            }
            assert(i + key@.len() <= chars@.len());
            let n = chars.len();
            assert(i + key@.len() <= n);
            let start = i + key.len();
            let mut rest: Vec<char> = Vec::new();
            let mut k: usize = start;
            while k < chars.len()
                invariant
                    start <= k <= chars@.len(),
                    rest@ =~= chars@.subrange(start as int, k as int),
                decreases chars@.len() - k,
            {
                rest.push(chars[k]);
                k = k + 1;
            }
            assert(rest@ =~= line@.skip(i + key@.len()));
            let value = trim_chars(rest.as_slice());
            if value.len() > 0 {
                Some(text_of(value.as_slice()))
            } else {
                None
            }
        },
        None => None,
    }
}

/// All characters of `d` are ASCII digits.
pub open spec fn all_digits(d: Seq<char>) -> bool {
    forall|k: int| 0 <= k < d.len() ==> is_digit(#[trigger] d[k])
}

/// The number that the decimal digits `d` write.
pub open spec fn digits_value(d: Seq<char>) -> int
    decreases d.len(),
{
    if d.len() == 0 {
        0
    } else {
        digits_value(d.drop_last()) * 10 + digit_value(d.last())
    }
}

/// `s` without one leading `+`.
pub open spec fn unsigned_digits(s: Seq<char>) -> Seq<char> {
    if s.len() > 0 && s[0] == '+' {
        s.drop_first()
    } else {
        s
    }
}

/// What `str::parse::<u64>` gives: an optional `+` and at least one
/// decimal digit, with a value that fits in 64 bits.
pub open spec fn parse_u64_spec(s: Seq<char>) -> Option<u64> {
    let d = unsigned_digits(s);
    if d.len() > 0 && all_digits(d) && digits_value(d) <= u64::MAX {
        Some(digits_value(d) as u64)
    } else {
        None
    }
}

proof fn lemma_digits_value_nonneg(d: Seq<char>)
    requires
        all_digits(d),
    ensures
        0 <= digits_value(d),
    decreases d.len(),
{
    if d.len() > 0 {
        lemma_digits_value_nonneg(d.drop_last());
    }
}

proof fn lemma_digits_value_grows(d: Seq<char>, k: int)
    requires
        all_digits(d),
        0 <= k <= d.len(),
    ensures
        digits_value(d.take(k)) <= digits_value(d),
    decreases d.len(),
{
    if k == d.len() {
        assert(d.take(k) =~= d);
    } else {
        assert(d.drop_last().take(k) =~= d.take(k));
        lemma_digits_value_grows(d.drop_last(), k);
        lemma_digits_value_nonneg(d.drop_last());
    }
}

fn parse_u64_chars(s: &[char]) -> (r: Option<u64>)
    ensures
        r == parse_u64_spec(s@),
{
    let n = s.len();
    let start: usize = if n > 0 && s[0] == '+' {
        1
    } else {
        0
    };
    let ghost d = unsigned_digits(s@);
    assert(d =~= s@.subrange(start as int, n as int));
    if start == n {
        return None;
    }
    let mut acc: u64 = 0;
    let mut i: usize = start;
    while i < n
        invariant
            start <= i <= n,
            n == s@.len(),
            d =~= s@.subrange(start as int, n as int),
            d == unsigned_digits(s@),
            all_digits(d.take(i - start)),
            acc as int == digits_value(d.take(i - start)),
        decreases n - i,
    {
        let c = s[i];
        if !('0' <= c && c <= '9') {
            assert(d[i - start] == c);
            assert(!is_digit(d[i - start]));
            assert(!all_digits(d));
            assert(parse_u64_spec(s@) is None);
            return None;
        }
        let dig: u64 = (c as u32 - '0' as u32) as u64;
        proof {
            assert(d.take(i - start + 1).drop_last() =~= d.take(i - start));
            assert(d.take(i - start + 1).last() == c);
        }
        let wide: u128 = acc as u128 * 10 + dig as u128;
        if wide > u64::MAX as u128 {
            proof {
                let t = d.take(i - start + 1);
                assert(digit_value(c) == dig);
                assert(digits_value(t) == digits_value(t.drop_last()) * 10 + digit_value(t.last()));
                assert(digits_value(t) == acc * 10 + dig);
                if all_digits(d) {
                    lemma_digits_value_grows(d, i - start + 1);
                    assert(digits_value(d) > u64::MAX);
                }
            }
            return None;
        }
        acc = wide as u64;
        i = i + 1;
    }
    assert(d.take(n - start) =~= d);
    Some(acc)
}

/// The regular expression that finds the estimated row count of a plan line.
pub open spec fn rows_pattern() -> Seq<char> {
    "~\\s*([0-9,]+)\\s*rows"@
}

/// The row count read from a captured number: its digits without the
/// thousands separators, parsed as a `u64`.
pub open spec fn rows_from_capture_spec(capture: Option<Seq<char>>) -> Option<u64> {
    match capture {
        Some(t) => parse_u64_spec(remove_char(t, ',')),
        None => None,
    }
}

/// The row count read from a captured number.
pub fn rows_from_capture(capture: Option<String>) -> (r: Option<u64>)
    ensures
        r == rows_from_capture_spec(text_option(capture)),
{
    match capture {
        Some(t) => {
            let chars = chars_of(t.as_str());
            let digits = remove_char_chars(chars.as_slice(), ',');
            parse_u64_chars(digits.as_slice())
        },
        None => None,
    }
}

/// The estimated row count of a plan line, `~N rows`.
pub open spec fn rows_spec(line: Seq<char>) -> Option<u64> {
    rows_from_capture_spec(regex_capture(rows_pattern(), line, 1))
}

/// The estimated row count that a plan line gives as `~N rows`.
pub fn parse_rows(line: &str) -> (r: Option<u64>)
    ensures
        r == rows_spec(line@),
{
    let pattern = "~\\s*([0-9,]+)\\s*rows";
    proof {
        reveal_strlit("~\\s*([0-9,]+)\\s*rows");
    }
    assert(pattern@ == rows_pattern());
    let capture = regex_capture_text(pattern, line, 1);
    rows_from_capture(capture)
}

proof fn lemma_digit_char_value(d: int)
    requires
        0 <= d < 10,
    ensures
        digit_value(crate::text::digit_char(d)) == d,
{
}

pub proof fn lemma_digits_of_value(n: nat)
    ensures
        digits_value(crate::text::digits_of(n)) == n,
        all_digits(crate::text::digits_of(n)),
    decreases n,
{
    crate::text::lemma_digits_are_digits(n);
    lemma_digit_char_value((n % 10) as int);
    let d = crate::text::digits_of(n);
    if n >= 10 {
        lemma_digits_of_value(n / 10);
        assert(d.drop_last() =~= crate::text::digits_of(n / 10));
        assert(d.last() == crate::text::digit_char((n % 10) as int));
        vstd::arithmetic::div_mod::lemma_fundamental_div_mod(n as int, 10);
        assert(digits_value(d) == digits_value(d.drop_last()) * 10 + digit_value(d.last()));
    } else {
        assert(d.drop_last() =~= Seq::<char>::empty());
        assert(d.last() == crate::text::digit_char(n as int));
        lemma_digit_char_value(n as int);
        assert(digits_value(d.drop_last()) == 0);
        assert(digits_value(d) == digits_value(d.drop_last()) * 10 + digit_value(d.last()));
    }
}

proof fn lemma_remove_char_absent(s: Seq<char>, c: char)
    requires
        forall|k: int| 0 <= k < s.len() ==> #[trigger] s[k] != c,
    ensures
        remove_char(s, c) == s,
    decreases s.len(),
{
    if s.len() > 0 {
        lemma_remove_char_absent(s.drop_last(), c);
        assert(s.drop_last().push(s.last()) =~= s);
    }
}

/// Law: a row count written in decimal reads back as itself.
pub proof fn row_count_reads_back(n: u64)
    ensures
        rows_from_capture_spec(Some(decimal(n as int))) == Some(n),
{
    let d = crate::text::digits_of(n as nat);
    lemma_digits_of_value(n as nat);
    assert forall|k: int| 0 <= k < d.len() implies #[trigger] d[k] != ',' by {
        assert(is_digit(d[k]));
    }
    lemma_remove_char_absent(d, ',');
    assert(d[0] != '+') by {
        assert(is_digit(d[0]));
    }
}

/// The columns that a plan line is known to project.
pub open spec fn projection_spec(line: Seq<char>) -> Option<Seq<Seq<char>>> {
    if contains(lowercase(line), "salary"@) {
        Some(seq!["salary"@])
    } else {
        None
    }
}

/// The columns that an already lower-cased plan line is known to project:
/// `salary` when the line holds it.
pub fn projection_of_lowercase(lower_line: &str) -> (r: Option<Vec<String>>)
    ensures
        r matches Some(v) ==> contains(lower_line@, "salary"@) && views(v@) == seq!["salary"@],
        r is None ==> !contains(lower_line@, "salary"@),
{
    let chars = chars_of(lower_line);
    let key = chars_of("salary");
    if !contains_chars(chars.as_slice(), key.as_slice()) {
        return None;
    }
    let mut v: Vec<String> = Vec::new();
    v.push(owned("salary"));
    assert(views(v@) =~= seq!["salary"@]);
    Some(v)
}

/// The columns that a plan line is known to project: `salary` when the line
/// mentions it, in any case.
pub fn parse_projection_columns(line: &str) -> (r: Option<Vec<String>>)
    ensures
        r matches Some(v) ==> projection_spec(line@) == Some(views(v@)),
        r is None ==> projection_spec(line@) is None,
{
    let lower = to_lowercase_text(line);
    projection_of_lowercase(lower.as_str())
}

// ---------------------------------------------------------------------------
// Plan nodes
// ---------------------------------------------------------------------------

/// One operator of a query plan, with the operators it reads from.
#[derive(Debug, PartialEq)]
pub struct PlanNode {
    pub node_type: String,
    pub columns: Vec<String>,
    pub aggregates: Vec<String>,
    pub rows: Option<u64>,
    pub children: Vec<PlanNode>,
}

/// What a plan node says of its own operator, leaving out its children.
pub struct NodeModel {
    pub node_type: Seq<char>,
    pub columns: Seq<Seq<char>>,
    pub aggregates: Seq<Seq<char>>,
    pub rows: Option<u64>,
}

/// The model of a node's own operator.
pub open spec fn node_model(n: PlanNode) -> NodeModel {
    NodeModel {
        node_type: n.node_type@,
        columns: views(n.columns@),
        aggregates: views(n.aggregates@),
        rows: n.rows,
    }
}

/// The models of a sequence of nodes.
pub open spec fn node_models(ns: Seq<PlanNode>) -> Seq<NodeModel> {
    ns.map_values(|n: PlanNode| node_model(n))
}

/// A node of the given operator type with nothing else known.
pub open spec fn empty_node(node_type: Seq<char>) -> NodeModel {
    NodeModel { node_type, columns: Seq::empty(), aggregates: Seq::empty(), rows: None }
}

/// A new plan node of the given operator type, with no columns,
/// aggregates, row count or children.
pub fn make_node(node_type: &str) -> (n: PlanNode)
    ensures
        node_model(n) == empty_node(node_type@),
        n.children@.len() == 0,
{
    let n = PlanNode {
        node_type: owned(node_type),
        columns: Vec::new(),
        aggregates: Vec::new(),
        rows: None,
        children: Vec::new(),
    };
    assert(views(n.columns@) =~= Seq::<Seq<char>>::empty());
    assert(views(n.aggregates@) =~= Seq::<Seq<char>>::empty());
    n
}

/// The operator that an upper-cased plan line names, by the first of these
/// that it contains.
pub open spec fn operator_of(upper: Seq<char>) -> Option<Seq<char>> {
    if contains(upper, "UNGROUPED_AGGREGATE"@) {
        Some("UNGROUPED_AGGREGATE"@)
    } else if contains(upper, "HASH_JOIN"@) {
        Some("HASH_JOIN"@)
    } else if contains(upper, "PROJECTION"@) {
        Some("PROJECTION"@)
    } else if contains(upper, "SEQ_SCAN"@) {
        Some("SEQ_SCAN"@)
    } else if contains(upper, "READ_CSV_AUTO"@) {
        Some("READ_CSV_AUTO"@)
    } else if contains(upper, "FILTER"@) {
        Some("FILTER"@)
    } else {
        None
    }
}

/// The operator types that a plan node can have.
pub open spec fn is_operator_name(t: Seq<char>) -> bool {
    ||| t == "UNGROUPED_AGGREGATE"@
    ||| t == "HASH_JOIN"@
    ||| t == "PROJECTION"@
    ||| t == "SEQ_SCAN"@
    ||| t == "READ_CSV_AUTO"@
    ||| t == "FILTER"@
}

fn names(upper: &[char], name: &str) -> (b: bool)
    ensures
        b == contains(upper@, name@),
{
    let key = chars_of(name);
    contains_chars(upper, key.as_slice())
}

/// A new node for the operator that an already upper-cased plan line names,
/// if it names one.
pub fn operator_node(upper_line: &str) -> (r: Option<PlanNode>)
    ensures
        match r {
            Some(n) => operator_of(upper_line@) == Some(node_model(n).node_type) && node_model(n)
                == empty_node(node_model(n).node_type) && n.children@.len() == 0,
            None => operator_of(upper_line@) is None,
        },
{
    let chars = chars_of(upper_line);
    operator_node_chars(chars.as_slice())
}

fn operator_node_chars(upper: &[char]) -> (r: Option<PlanNode>)
    ensures
        match r {
            Some(n) => operator_of(upper@) == Some(node_model(n).node_type) && node_model(n)
                == empty_node(node_model(n).node_type) && n.children@.len() == 0,
            None => operator_of(upper@) is None,
        },
{
    if names(upper, "UNGROUPED_AGGREGATE") {
        Some(make_node("UNGROUPED_AGGREGATE"))
    } else if names(upper, "HASH_JOIN") {
        Some(make_node("HASH_JOIN"))
    } else if names(upper, "PROJECTION") {
        Some(make_node("PROJECTION"))
    } else if names(upper, "SEQ_SCAN") {
        Some(make_node("SEQ_SCAN"))
    } else if names(upper, "READ_CSV_AUTO") {
        Some(make_node("READ_CSV_AUTO"))
    } else if names(upper, "FILTER") {
        Some(make_node("FILTER"))
    } else {
        None
    }
}

/// `existing` with each of `new` appended that it does not hold yet.
pub open spec fn merge_columns(existing: Seq<Seq<char>>, new: Seq<Seq<char>>) -> Seq<Seq<char>>
    decreases new.len(),
{
    if new.len() == 0 {
        existing
    } else {
        let m = merge_columns(existing, new.drop_last());
        if m.contains(new.last()) {
            m
        } else {
            m.push(new.last())
        }
    }
}

/// A node after one more line of its listing: the line's aggregates
/// appended, its row count taken, its projected columns merged in.
pub open spec fn annotate_spec(n: NodeModel, line: Seq<char>) -> NodeModel {
    let aggregates = match aggregates_spec(line) {
        Some(a) => n.aggregates.push(a),
        None => n.aggregates,
    };
    let rows = match rows_spec(line) {
        Some(r) => Some(r),
        None => n.rows,
    };
    let columns = match projection_spec(line) {
        Some(c) => merge_columns(n.columns, c),
        None => n.columns,
    };
    NodeModel { node_type: n.node_type, columns, aggregates, rows }
}

/// The nodes after one more cleaned line: a new node when the line names an
/// operator, then the line's details added to the latest node.
pub open spec fn plan_step(nodes: Seq<NodeModel>, line: Seq<char>) -> Seq<NodeModel> {
    let with_new = match operator_of(uppercase(line)) {
        Some(k) => nodes.push(empty_node(k)),
        None => nodes,
    };
    if with_new.len() == 0 {
        with_new
    } else {
        with_new.update(with_new.len() - 1, annotate_spec(with_new.last(), line))
    }
}

/// The nodes after reading `lines`, one by one, on top of `start`.
pub open spec fn plan_fold(start: Seq<NodeModel>, lines: Seq<Seq<char>>) -> Seq<NodeModel>
    decreases lines.len(),
{
    if lines.len() == 0 {
        start
    } else {
        plan_step(plan_fold(start, lines.drop_last()), lines.last())
    }
}

/// The operator nodes that a sequence of cleaned lines describes, in order.
pub open spec fn plan_nodes(lines: Seq<Seq<char>>) -> Seq<NodeModel> {
    plan_fold(Seq::empty(), lines)
}

/// The operator nodes that a plan listing describes.
pub open spec fn plan_models(lines: Seq<String>) -> Seq<NodeModel> {
    plan_nodes(clean_spec(join(views(lines), "\n"@)))
}

fn has_string(v: &Vec<String>, s: &String) -> (b: bool)
    ensures
        b == views(v@).contains(s@),
{
    let mut k: usize = 0;
    while k < v.len()
        invariant
            k <= v@.len(),
            forall|j: int| 0 <= j < k ==> v@[j]@ != s@,
        decreases v@.len() - k,
    {
        if v[k] == *s {
            assert(views(v@)[k as int] == s@);
            return true;
        }
        k = k + 1;
    }
    proof {
        if views(v@).contains(s@) {
            let j = choose|j: int| 0 <= j < views(v@).len() && views(v@)[j] == s@;
            assert(v@[j]@ == s@);
        }
    }
    false
}

fn merge_columns_into(columns: Vec<String>, new: Vec<String>) -> (r: Vec<String>)
    ensures
        views(r@) == merge_columns(views(columns@), views(new@)),
{
    let mut columns = columns;
    let ghost start = views(columns@);
    let mut j: usize = 0;
    while j < new.len()
        invariant
            j <= new@.len(),
            views(columns@) == merge_columns(start, views(new@).take(j as int)),
        decreases new@.len() - j,
    {
        proof {
            assert(views(new@).take(j + 1).drop_last() =~= views(new@).take(j as int));
            assert(views(new@).take(j + 1).last() == new@[j as int]@);
        }
        if !has_string(&columns, &new[j]) {
            let ghost before = views(columns@);
            columns.push(new[j].clone());
            proof {
                assert(views(columns@) =~= before.push(new@[j as int]@));
            }
        }
        j = j + 1;
    }
    assert(views(new@).take(new@.len() as int) =~= views(new@));
    columns
}

fn annotate(node: PlanNode, line: &str) -> (r: PlanNode)
    ensures
        node_model(r) == annotate_spec(node_model(node), line@),
        r.children == node.children,
{
    let PlanNode { node_type, columns, aggregates, rows, children } = node;
    let mut aggregates = aggregates;
    match parse_aggregates(line) {
        Some(a) => {
            let ghost before = views(aggregates@);
            aggregates.push(a);
            assert(views(aggregates@) =~= before.push(aggregates@.last()@));
        },
        None => {},
    }
    let rows = match parse_rows(line) {
        Some(r) => Some(r),
        None => rows,
    };
    let columns = match parse_projection_columns(line) {
        Some(c) => merge_columns_into(columns, c),
        None => columns,
    };
    PlanNode { node_type, columns, aggregates, rows, children }
}

/// Every node in `ns` has no children.
pub open spec fn all_childless(ns: Seq<PlanNode>) -> bool {
    forall|k: int| 0 <= k < ns.len() ==> (#[trigger] ns[k]).children@.len() == 0
}

fn plan_node_list(lines: &Vec<String>) -> (r: Vec<PlanNode>)
    ensures
        node_models(r@) == plan_nodes(views(lines@)),
        all_childless(r@),
{
    let mut nodes: Vec<PlanNode> = Vec::new();
    let mut i: usize = 0;
    while i < lines.len()
        invariant
            i <= lines@.len(),
            node_models(nodes@) == plan_nodes(views(lines@).take(i as int)),
            all_childless(nodes@),
        decreases lines@.len() - i,
    {
        proof {
            assert(views(lines@).take(i + 1).drop_last() =~= views(lines@).take(i as int));
            assert(views(lines@).take(i + 1).last() == lines@[i as int]@);
        }
        let line = &lines[i];
        let upper = to_uppercase_text(line.as_str());
        let ghost before = node_models(nodes@);
        match operator_node(upper.as_str()) {
            Some(n) => {
                nodes.push(n);
                assert(node_models(nodes@) =~= before.push(node_model(n)));
            },
            None => {},
        }
        let ghost with_new = node_models(nodes@);
        if nodes.len() > 0 {
            let last = nodes.pop().unwrap();
            let ghost popped = node_models(nodes@);
            assert(popped =~= with_new.drop_last());
            let updated = annotate(last, line.as_str());
            nodes.push(updated);
            proof {
                assert(node_models(nodes@) =~= with_new.update(
                    with_new.len() - 1,
                    annotate_spec(with_new.last(), lines@[i as int]@),
                ));
            }
        }
        i = i + 1;
    }
    assert(views(lines@).take(lines@.len() as int) =~= views(lines@));
    nodes
}

// ---------------------------------------------------------------------------
// Trees
// ---------------------------------------------------------------------------

/// `a` and `b` agree on everything but their children.
pub open spec fn same_header(a: PlanNode, b: PlanNode) -> bool {
    &&& a.node_type == b.node_type
    &&& a.columns == b.columns
    &&& a.aggregates == b.aggregates
    &&& a.rows == b.rows
}

/// `t` is `ns[0]` with the tree of the rest of `ns` appended to its
/// children, and so on down: each node becomes the last child of the one
/// before it.
pub open spec fn assembled(t: PlanNode, ns: Seq<PlanNode>) -> bool
    decreases ns.len(),
{
    &&& ns.len() > 0
    &&& same_header(t, ns[0])
    &&& if ns.len() == 1 {
        t.children@ == ns[0].children@
    } else {
        &&& t.children@.len() == ns[0].children@.len() + 1
        &&& t.children@.drop_last() == ns[0].children@
        &&& assembled(t.children@.last(), ns.drop_first())
    }
}

/// Nests the nodes into one chain: each node becomes the last child of the
/// one before it; `None` when there are no nodes.
pub fn assemble_tree(nodes: Vec<PlanNode>) -> (r: Option<PlanNode>)
    ensures
        r is None <==> nodes@.len() == 0,
        r matches Some(t) ==> assembled(t, nodes@),
{
    let ghost orig = nodes@;
    let mut nodes = nodes;
    if nodes.len() == 0 {
        return None;
    }
    let mut acc = nodes.pop().unwrap();
    assert(orig.skip(nodes@.len() as int) =~= seq![acc]);
    while nodes.len() > 0
        invariant
            nodes@.len() < orig.len(),
            nodes@ == orig.take(nodes@.len() as int),
            assembled(acc, orig.skip(nodes@.len() as int)),
        decreases nodes@.len(),
    {
        let ghost old_acc = acc;
        let ghost k = (nodes@.len() - 1) as int;
        let mut prev = nodes.pop().unwrap();
        assert(prev == orig[k]);
        assert(nodes@ =~= orig.take(k));
        prev.children.push(acc);
        acc = prev;
        proof {
            let ns = orig.skip(k);
            assert(ns.drop_first() =~= orig.skip(k + 1));
            assert(acc.children@.drop_last() =~= orig[k].children@);
            assert(acc.children@.last() == old_acc);
            assert(ns[0] == orig[k]);
        }
    }
    assert(orig.skip(0) =~= orig);
    Some(acc)
}

/// `t` is a chain of nodes whose own operators are `ms`, in order from the
/// root: each node has the next as its only child, and the last has none.
pub open spec fn tree_is_chain(t: PlanNode, ms: Seq<NodeModel>) -> bool
    decreases ms.len(),
{
    &&& ms.len() > 0
    &&& node_model(t) == ms[0]
    &&& if ms.len() == 1 {
        t.children@.len() == 0
    } else {
        &&& t.children@.len() == 1
        &&& tree_is_chain(t.children@[0], ms.drop_first())
    }
}

proof fn lemma_assembled_is_chain(t: PlanNode, ns: Seq<PlanNode>)
    requires
        assembled(t, ns),
        all_childless(ns),
    ensures
        tree_is_chain(t, node_models(ns)),
    decreases ns.len(),
{
    let ms = node_models(ns);
    assert(ns[0].children@.len() == 0);
    if ns.len() > 1 {
        let rest = ns.drop_first();
        assert forall|k: int| 0 <= k < rest.len() implies (#[trigger] rest[k]).children@.len() == 0 by {
            assert(rest[k] == ns[k + 1]);
        }
        lemma_assembled_is_chain(t.children@.last(), rest);
        assert(node_models(rest) =~= ms.drop_first());
        assert(t.children@[0] == t.children@.last());
    }
}

/// The tree of operators that a plan listing describes: the lines are
/// joined, cleaned, and read one by one; each line that names an operator
/// starts a node, every line adds its details to the latest node, and the
/// nodes are nested into one chain in the order they came. `None` when no
/// line names an operator.
pub fn build_plan_tree(lines: &[String]) -> (r: Option<PlanNode>)
    ensures
        r is None <==> plan_models(lines@).len() == 0,
        r matches Some(t) ==> tree_is_chain(t, plan_models(lines@)),
{
    let joined = join_strings(lines, "\n");
    let cleaned = clean_explain_output(joined.as_str());
    let nodes = plan_node_list(&cleaned);
    let ghost ns = nodes@;
    let r = assemble_tree(nodes);
    proof {
        if r is Some {
            lemma_assembled_is_chain(r->0, ns);
        }
    }
    r
}

// ---------------------------------------------------------------------------
// Explanations
// ---------------------------------------------------------------------------

/// The one-sentence explanation of a plan's root operator.
pub open spec fn explanation(m: Option<NodeModel>) -> Seq<char> {
    match m {
        None => "Could not parse query plan."@,
        Some(n) => if n.node_type == "UNGROUPED_AGGREGATE"@ {
            "Computes aggregate: "@ + join(n.aggregates, ", "@) + "."@
        } else if n.node_type == "PROJECTION"@ {
            "Selects columns: "@ + join(n.columns, ", "@) + "."@
        } else if n.node_type == "SEQ_SCAN"@ {
            match n.rows {
                Some(r) => "Sequential scan over table (~"@ + decimal(r as int) + " rows)."@,
                None => "Sequential scan over table."@,
            }
        } else {
            "Executes operator: "@ + n.node_type + "."@
        },
    }
}

/// The model of an optional node.
pub open spec fn optional_model(node: Option<&PlanNode>) -> Option<NodeModel> {
    match node {
        Some(n) => Some(node_model(*n)),
        None => None,
    }
}

/// One sentence on what the root operator of a plan does.
pub fn explain_tree(node: Option<&PlanNode>) -> (r: String)
    ensures
        r@ == explanation(optional_model(node)),
{
    let node = match node {
        Some(n) => n,
        None => {
            return owned("Could not parse query plan.");
        },
    };
    if node.node_type == owned("UNGROUPED_AGGREGATE") {
        let mut r = owned("Computes aggregate: ");
        let list = join_strings(node.aggregates.as_slice(), ", ");
        r.append(list.as_str());
        r.append(".");
        r
    } else if node.node_type == owned("PROJECTION") {
        let mut r = owned("Selects columns: ");
        let list = join_strings(node.columns.as_slice(), ", ");
        r.append(list.as_str());
        r.append(".");
        r
    } else if node.node_type == owned("SEQ_SCAN") {
        match node.rows {
            Some(rows) => {
                let mut r = owned("Sequential scan over table (~");
                let d = decimal_text(rows as i128);
                r.append(d.as_str());
                r.append(" rows).");
                r
            },
            None => owned("Sequential scan over table."),
        }
    } else {
        let mut r = owned("Executes operator: ");
        r.append(node.node_type.as_str());
        r.append(".");
        r
    }
}

// ---------------------------------------------------------------------------
// Laws
// ---------------------------------------------------------------------------

proof fn lemma_merge_keeps_distinct(existing: Seq<Seq<char>>, new: Seq<Seq<char>>)
    requires
        existing.no_duplicates(),
    ensures
        merge_columns(existing, new).no_duplicates(),
    decreases new.len(),
{
    if new.len() > 0 {
        lemma_merge_keeps_distinct(existing, new.drop_last());
        let m = merge_columns(existing, new.drop_last());
        if !m.contains(new.last()) {
            let r = m.push(new.last());
            assert forall|i: int, j: int| 0 <= i < r.len() && 0 <= j < r.len() && i != j implies r[i]
                != r[j] by {
                if i < m.len() && j < m.len() {
                } else if i == m.len() {
                    assert(r[i] == new.last());
                    assert(r[j] == m[j]);
                } else {
                    assert(r[j] == new.last());
                    assert(r[i] == m[i]);
                }
            }
        }
    }
}

/// Law: every node that a listing gives names one of the six known
/// operators; no node lists a column twice; and there are at most as many
/// nodes as lines.
pub proof fn plan_nodes_are_well_formed(lines: Seq<Seq<char>>)
    ensures
        plan_nodes(lines).len() <= lines.len(),
        forall|k: int|
            0 <= k < plan_nodes(lines).len() ==> is_operator_name(
                (#[trigger] plan_nodes(lines)[k]).node_type,
            ) && plan_nodes(lines)[k].columns.no_duplicates(),
    decreases lines.len(),
{
    if lines.len() > 0 {
        let prev = plan_nodes(lines.drop_last());
        let line = lines.last();
        plan_nodes_are_well_formed(lines.drop_last());
        let with_new = match operator_of(uppercase(line)) {
            Some(k) => prev.push(empty_node(k)),
            None => prev,
        };
        assert forall|k: int| 0 <= k < with_new.len() implies is_operator_name(
            (#[trigger] with_new[k]).node_type,
        ) && with_new[k].columns.no_duplicates() by {
            if k < prev.len() {
                assert(with_new[k] == prev[k]);
            } else {
                assert(with_new[k].columns =~= Seq::<Seq<char>>::empty());
            }
        }
        if with_new.len() > 0 {
            let last = with_new.last();
            match projection_spec(line) {
                Some(c) => lemma_merge_keeps_distinct(last.columns, c),
                None => {},
            }
            let after = with_new.update(with_new.len() - 1, annotate_spec(last, line));
            assert(after == plan_nodes(lines));
            assert forall|k: int| 0 <= k < after.len() implies is_operator_name(
                (#[trigger] after[k]).node_type,
            ) && after[k].columns.no_duplicates() by {
                if k < with_new.len() - 1 {
                    assert(after[k] == with_new[k]);
                } else {
                    assert(with_new[k] == last);
                }
            }
        }
    }
}

/// Law: the tree that `build_plan_tree` returns is a chain of known
/// operators, none of which lists a column twice.
pub proof fn built_trees_name_operators(lines: Seq<String>, t: PlanNode)
    requires
        tree_is_chain(t, plan_models(lines)),
    ensures
        is_operator_name(t.node_type@),
        views(t.columns@).no_duplicates(),
        t.children@.len() <= 1,
{
    plan_nodes_are_well_formed(clean_spec(join(views(lines), "\n"@)));
    assert(node_model(t) == plan_models(lines)[0]);
}

proof fn lemma_remove_box_clean(s: Seq<char>)
    ensures
        forall|k: int| 0 <= k < remove_box(s).len() ==> !is_box_char(#[trigger] remove_box(s)[k]),
    decreases s.len(),
{
    if s.len() > 0 {
        lemma_remove_box_clean(s.drop_last());
        let p = remove_box(s.drop_last());
        assert forall|k: int| 0 <= k < remove_box(s).len() implies !is_box_char(
            #[trigger] remove_box(s)[k],
        ) by {
            if k < p.len() {
                assert(remove_box(s)[k] == p[k]);
            }
        }
    }
}

/// A cleaned plan line: not empty, no whitespace at either end, no
/// box-drawing characters.
pub open spec fn is_clean_line(l: Seq<char>) -> bool {
    &&& l.len() > 0
    &&& !crate::text::is_ws(l[0])
    &&& !crate::text::is_ws(l.last())
    &&& forall|k: int| 0 <= k < l.len() ==> !is_box_char(#[trigger] l[k])
}

proof fn lemma_clean_lines_clean(ls: Seq<Seq<char>>)
    ensures
        forall|k: int| 0 <= k < clean_lines(ls).len() ==> is_clean_line(#[trigger] clean_lines(ls)[k]),
    decreases ls.len(),
{
    if ls.len() > 0 {
        lemma_clean_lines_clean(ls.drop_last());
        let x = ls.last();
        let c = clean_line(x);
        crate::text::lemma_trim_shape(remove_box(x));
        lemma_remove_box_clean(x);
        if c.len() > 0 {
            assert forall|k: int| 0 <= k < c.len() implies !is_box_char(#[trigger] c[k]) by {
                let rb = remove_box(x);
                assert(rb.contains(c[k]));
                let j = choose|j: int| 0 <= j < rb.len() && rb[j] == c[k];
                assert(!is_box_char(rb[j]));
            }
            assert(is_clean_line(c));
            let p = clean_lines(ls.drop_last());
            assert forall|k: int| 0 <= k < clean_lines(ls).len() implies is_clean_line(
                #[trigger] clean_lines(ls)[k],
            ) by {
                if k < p.len() {
                    assert(clean_lines(ls)[k] == p[k]);
                }
            }
        }
    }
}

/// Law: every line that `clean_explain_output` keeps is non-empty, has no
/// whitespace at either end and holds no box-drawing character.
pub proof fn cleaned_lines_are_clean(text: Seq<char>)
    ensures
        forall|k: int| 0 <= k < clean_spec(text).len() ==> is_clean_line(#[trigger] clean_spec(text)[k]),
{
    lemma_clean_lines_clean(lines_of(text));
}

// ---------------------------------------------------------------------------
// Laws on cleaning and on what a listing holds besides operators
// ---------------------------------------------------------------------------

/// Every character of every line in `ls` is not a newline and has `p`.
pub open spec fn all_chars(ls: Seq<Seq<char>>, p: spec_fn(char) -> bool) -> bool {
    forall|k: int, i: int|
        0 <= k < ls.len() && 0 <= i < ls[k].len() ==> #[trigger] ls[k][i] != '\n' && p(ls[k][i])
}

/// The cleaned lines of each text of `texts`, one after the other.
pub open spec fn clean_all(texts: Seq<Seq<char>>) -> Seq<Seq<char>>
    decreases texts.len(),
{
    if texts.len() == 0 {
        Seq::empty()
    } else {
        clean_all(texts.drop_last()) + clean_spec(texts.last())
    }
}

proof fn lemma_split_nonempty(s: Seq<char>)
    ensures
        split_newlines(s).len() >= 1,
    decreases s.len(),
{
    if s.len() > 0 {
        lemma_split_nonempty(s.drop_last());
    }
}

proof fn lemma_split_concat(a: Seq<char>, b: Seq<char>)
    ensures
        split_newlines(a + seq!['\n'] + b) == split_newlines(a) + split_newlines(b),
    decreases b.len(),
{
    let x = a + seq!['\n'] + b;
    if b.len() == 0 {
        assert(x.drop_last() =~= a);
        assert(split_newlines(a) + split_newlines(b) =~= split_newlines(a).push(Seq::empty()));
    } else {
        lemma_split_concat(a, b.drop_last());
        assert(x.drop_last() =~= a + seq!['\n'] + b.drop_last());
        assert(x.last() == b.last());
        let pa = split_newlines(a);
        let pb = split_newlines(b.drop_last());
        if b.last() == '\n' {
            assert(pa + split_newlines(b) =~= (pa + pb).push(Seq::empty()));
        } else {
            lemma_split_nonempty(b.drop_last());
            let p = pa + pb;
            assert(p.update(p.len() - 1, p.last().push(b.last())) =~= pa + pb.update(
                pb.len() - 1,
                pb.last().push(b.last()),
            ));
        }
    }
}

proof fn lemma_split_chars(s: Seq<char>, p: spec_fn(char) -> bool)
    requires
        forall|i: int| 0 <= i < s.len() ==> #[trigger] s[i] == '\n' || p(s[i]),
    ensures
        all_chars(split_newlines(s), p),
    decreases s.len(),
{
    if s.len() > 0 {
        assert forall|i: int| 0 <= i < s.drop_last().len() implies #[trigger] s.drop_last()[i]
            == '\n' || p(s.drop_last()[i]) by {
            assert(s.drop_last()[i] == s[i]);
        }
        lemma_split_chars(s.drop_last(), p);
        let q = split_newlines(s.drop_last());
        lemma_split_nonempty(s.drop_last());
        let c = s.last();
        assert(c == s[s.len() - 1]);
        if c != '\n' {
            let r = split_newlines(s);
            assert forall|k: int, i: int| 0 <= k < r.len() && 0 <= i < r[k].len() implies #[trigger] r[k][i]
                != '\n' && p(r[k][i]) by {
                if k < q.len() - 1 {
                    assert(r[k] == q[k]);
                } else if i < q[k].len() {
                    assert(r[k][i] == q[k][i]);
                } else {
                    assert(r[k][i] == c);
                }
            }
        } else {
            let r = split_newlines(s);
            assert forall|k: int, i: int| 0 <= k < r.len() && 0 <= i < r[k].len() implies #[trigger] r[k][i]
                != '\n' && p(r[k][i]) by {
                assert(r[k] == q[k]);
            }
        }
    }
}

proof fn lemma_lines_chars(s: Seq<char>, p: spec_fn(char) -> bool)
    requires
        forall|i: int| 0 <= i < s.len() ==> #[trigger] s[i] == '\n' || p(s[i]),
    ensures
        all_chars(lines_of(s), p),
{
    lemma_split_chars(s, p);
    lemma_split_nonempty(s);
    let q = split_newlines(s);
    let l = lines_of(s);
    assert forall|k: int, i: int| 0 <= k < l.len() && 0 <= i < l[k].len() implies #[trigger] l[k][i]
        != '\n' && p(l[k][i]) by {
        if k < q.len() - 1 {
            assert(l[k] == strip_cr(q[k]));
            assert(l[k][i] == q[k][i]);
        } else {
            assert(l[k] == q[k]);
        }
    }
}

proof fn lemma_remove_box_keeps(s: Seq<char>)
    ensures
        forall|k: int| 0 <= k < remove_box(s).len() ==> s.contains(#[trigger] remove_box(s)[k]),
    decreases s.len(),
{
    if s.len() > 0 {
        lemma_remove_box_keeps(s.drop_last());
        let q = remove_box(s.drop_last());
        assert forall|k: int| 0 <= k < remove_box(s).len() implies s.contains(
            #[trigger] remove_box(s)[k],
        ) by {
            if k < q.len() {
                assert(remove_box(s)[k] == q[k]);
                let j = choose|j: int| 0 <= j < s.drop_last().len() && s.drop_last()[j] == q[k];
                assert(s[j] == q[k]);
            } else {
                assert(remove_box(s)[k] == s[s.len() - 1]);
            }
        }
    }
}

proof fn lemma_clean_lines_chars(ls: Seq<Seq<char>>, p: spec_fn(char) -> bool)
    requires
        all_chars(ls, p),
    ensures
        all_chars(clean_lines(ls), p),
    decreases ls.len(),
{
    if ls.len() > 0 {
        assert(all_chars(ls.drop_last(), p)) by {
            assert forall|k: int, i: int| 0 <= k < ls.drop_last().len() && 0 <= i < ls.drop_last()[k].len()
                implies #[trigger] ls.drop_last()[k][i] != '\n' && p(ls.drop_last()[k][i]) by {
                assert(ls.drop_last()[k] == ls[k]);
                assert(ls[k][i] == ls.drop_last()[k][i]);
            }
        }
        lemma_clean_lines_chars(ls.drop_last(), p);
        let x = ls.last();
        let rb = remove_box(x);
        let c = clean_line(x);
        crate::text::lemma_trim_shape(rb);
        lemma_remove_box_keeps(x);
        let prev = clean_lines(ls.drop_last());
        let r = clean_lines(ls);
        assert forall|k: int, i: int| 0 <= k < r.len() && 0 <= i < r[k].len() implies #[trigger] r[k][i]
            != '\n' && p(r[k][i]) by {
            if k < prev.len() {
                assert(r[k] == prev[k]);
            } else {
                assert(r[k] == c);
                assert(rb.contains(c[i]));
                let j = choose|j: int| 0 <= j < rb.len() && rb[j] == c[i];
                assert(x.contains(rb[j]));
                let m = choose|m: int| 0 <= m < x.len() && x[m] == rb[j];
                assert(x == ls[ls.len() - 1]);
                assert(ls[ls.len() - 1][m] == x[m]);
            }
        }
    }
}

proof fn lemma_clean_lines_concat(u: Seq<Seq<char>>, v: Seq<Seq<char>>)
    ensures
        clean_lines(u + v) == clean_lines(u) + clean_lines(v),
    decreases v.len(),
{
    if v.len() == 0 {
        assert(u + v =~= u);
        assert(clean_lines(u) + clean_lines(v) =~= clean_lines(u));
    } else {
        lemma_clean_lines_concat(u, v.drop_last());
        assert((u + v).drop_last() =~= u + v.drop_last());
        assert((u + v).last() == v.last());
        let c = clean_line(v.last());
        if c.len() > 0 {
            assert(clean_lines(u) + clean_lines(v) =~= (clean_lines(u) + clean_lines(v.drop_last())).push(c));
        }
    }
}

proof fn lemma_clean_line_strip_cr(x: Seq<char>)
    ensures
        clean_line(strip_cr(x)) == clean_line(x),
{
    if x.len() > 0 && x.last() == '\r' {
        let y = x.drop_last();
        assert(y.push('\r') =~= x);
        assert(!is_box_char('\r'));
        assert(remove_box(x) == remove_box(y).push('\r'));
        crate::text::lemma_trim_push_ws(remove_box(y), '\r');
    }
}

proof fn lemma_clean_one(y: Seq<char>)
    ensures
        clean_lines(seq![y]) == if clean_line(y).len() > 0 {
            seq![clean_line(y)]
        } else {
            Seq::<Seq<char>>::empty()
        },
{
    assert(seq![y].drop_last() =~= Seq::<Seq<char>>::empty());
    assert(seq![y].last() == y);
    assert(clean_lines(Seq::<Seq<char>>::empty()) =~= Seq::<Seq<char>>::empty());
    if clean_line(y).len() > 0 {
        assert(Seq::<Seq<char>>::empty().push(clean_line(y)) =~= seq![clean_line(y)]);
    }
}

proof fn lemma_clean_spec_concat(a: Seq<char>, b: Seq<char>)
    ensures
        clean_spec(a + seq!['\n'] + b) == clean_spec(a) + clean_spec(b),
{
    lemma_split_concat(a, b);
    lemma_split_nonempty(a);
    lemma_split_nonempty(b);
    let pa = split_newlines(a);
    let pb = split_newlines(b);
    let st = |x: Seq<char>| strip_cr(x);
    let la = lines_of(a);
    let lb = lines_of(b);
    let lx = lines_of(a + seq!['\n'] + b);
    let head = pa.drop_last().map_values(st);
    let last_a = pa.last();
    // the lines of the joined text: those of `a`, its last one now ended, then those of `b`
    assert(lx =~= head.push(strip_cr(last_a)) + lb);
    lemma_clean_lines_concat(head.push(strip_cr(last_a)), lb);
    assert(head.push(strip_cr(last_a)) =~= head + seq![strip_cr(last_a)]);
    lemma_clean_lines_concat(head, seq![strip_cr(last_a)]);
    lemma_clean_line_strip_cr(last_a);
    lemma_clean_one(strip_cr(last_a));
    if last_a.len() > 0 {
        assert(la =~= head + seq![last_a]);
        lemma_clean_lines_concat(head, seq![last_a]);
        lemma_clean_one(last_a);
    } else {
        assert(la =~= head);
        assert(clean_line(last_a) =~= Seq::<char>::empty()) by {
            assert(remove_box(last_a) =~= Seq::<char>::empty());
        }
        assert(clean_lines(head) + clean_lines(seq![strip_cr(last_a)]) =~= clean_lines(head));
    }
}

proof fn lemma_clean_join(ls: Seq<Seq<char>>)
    ensures
        clean_spec(join(ls, "\n"@)) == clean_all(ls),
    decreases ls.len(),
{
    reveal_strlit("\n");
    if ls.len() == 0 {
        assert(lines_of(Seq::<char>::empty()) =~= Seq::<Seq<char>>::empty());
    } else if ls.len() == 1 {
        assert(ls.drop_last() =~= Seq::<Seq<char>>::empty());
        assert(clean_all(ls.drop_last()) =~= Seq::<Seq<char>>::empty());
        assert(clean_all(ls) =~= clean_spec(ls[0]));
    } else {
        lemma_clean_join(ls.drop_last());
        assert("\n"@ =~= seq!['\n']);
        lemma_clean_spec_concat(join(ls.drop_last(), "\n"@), ls.last());
    }
}

proof fn lemma_clean_all_concat(u: Seq<Seq<char>>, v: Seq<Seq<char>>)
    ensures
        clean_all(u + v) == clean_all(u) + clean_all(v),
    decreases v.len(),
{
    if v.len() == 0 {
        assert(u + v =~= u);
        assert(clean_all(u) + clean_all(v) =~= clean_all(u));
    } else {
        lemma_clean_all_concat(u, v.drop_last());
        assert((u + v).drop_last() =~= u + v.drop_last());
        assert((u + v).last() == v.last());
        assert(clean_all(u) + clean_all(v) =~= clean_all(u) + clean_all(v.drop_last()) + clean_spec(
            v.last(),
        ));
    }
}

/// The cleaned lines of a whole listing are those of its items, in order.
proof fn lemma_plan_models_items(lines: Seq<String>)
    ensures
        plan_models(lines) == plan_nodes(clean_all(views(lines))),
{
    lemma_clean_join(views(lines));
}

proof fn lemma_split_single(s: Seq<char>)
    requires
        forall|i: int| 0 <= i < s.len() ==> #[trigger] s[i] != '\n',
    ensures
        split_newlines(s) == seq![s],
    decreases s.len(),
{
    if s.len() > 0 {
        lemma_split_single(s.drop_last());
        assert(s[s.len() - 1] != '\n');
        assert(s.drop_last().push(s.last()) =~= s);
        assert(seq![s.drop_last()].update(0, s.drop_last().push(s.last())) =~= seq![s]);
    } else {
        assert(s =~= Seq::<char>::empty());
    }
}

proof fn lemma_remove_box_absent(s: Seq<char>)
    requires
        forall|i: int| 0 <= i < s.len() ==> !is_box_char(#[trigger] s[i]),
    ensures
        remove_box(s) == s,
    decreases s.len(),
{
    if s.len() > 0 {
        lemma_remove_box_absent(s.drop_last());
        assert(!is_box_char(s[s.len() - 1]));
        assert(s.drop_last().push(s.last()) =~= s);
    }
}

proof fn lemma_clean_spec_of_clean_line(c: Seq<char>)
    requires
        is_clean_line(c),
        forall|i: int| 0 <= i < c.len() ==> #[trigger] c[i] != '\n',
    ensures
        clean_spec(c) == seq![c],
{
    lemma_split_single(c);
    assert(lines_of(c) =~= seq![c]);
    lemma_remove_box_absent(c);
    crate::text::lemma_trim_of_trimmed(c);
    lemma_clean_one(c);
}

proof fn lemma_clean_all_of_clean(cs: Seq<Seq<char>>)
    requires
        forall|k: int| 0 <= k < cs.len() ==> is_clean_line(#[trigger] cs[k]),
        all_chars(cs, |c: char| true),
    ensures
        clean_all(cs) == cs,
    decreases cs.len(),
{
    if cs.len() > 0 {
        let d = cs.drop_last();
        assert forall|k: int| 0 <= k < d.len() implies is_clean_line(#[trigger] d[k]) by {
            assert(d[k] == cs[k]);
        }
        assert(all_chars(d, |c: char| true)) by {
            assert forall|k: int, i: int| 0 <= k < d.len() && 0 <= i < d[k].len() implies #[trigger] d[k][i]
                != '\n' && (|c: char| true)(d[k][i]) by {
                assert(d[k] == cs[k]);
                assert(cs[k][i] == d[k][i]);
            }
        }
        lemma_clean_all_of_clean(d);
        let c = cs.last();
        assert(is_clean_line(cs[cs.len() - 1]));
        assert forall|i: int| 0 <= i < c.len() implies #[trigger] c[i] != '\n' by {
            assert(cs[cs.len() - 1][i] == c[i]);
        }
        lemma_clean_spec_of_clean_line(c);
        assert(d + seq![c] =~= cs);
    }
}

/// Law: cleaning is idempotent. Joining the cleaned lines of a listing with
/// newlines and cleaning again gives the same lines.
pub proof fn cleaning_is_idempotent(text: Seq<char>)
    ensures
        clean_spec(join(clean_spec(text), "\n"@)) == clean_spec(text),
{
    let cs = clean_spec(text);
    cleaned_lines_are_clean(text);
    lemma_lines_chars(text, |c: char| true);
    lemma_clean_lines_chars(lines_of(text), |c: char| true);
    lemma_clean_join(cs);
    lemma_clean_all_of_clean(cs);
}

/// An item of a listing made only of whitespace and box-drawing characters.
pub open spec fn is_blank_item(t: Seq<char>) -> bool {
    forall|i: int| 0 <= i < t.len() ==> crate::text::is_ws(#[trigger] t[i]) || is_box_char(t[i])
}

proof fn lemma_blank_cleans_to_nothing(t: Seq<char>)
    requires
        is_blank_item(t),
    ensures
        clean_spec(t).len() == 0,
{
    let p = |c: char| crate::text::is_ws(c) || is_box_char(c);
    lemma_lines_chars(t, p);
    lemma_clean_lines_chars(lines_of(t), p);
    cleaned_lines_are_clean(t);
    let cs = clean_spec(t);
    if cs.len() > 0 {
        assert(is_clean_line(cs[0]));
        assert(cs[0][0] != '\n' && p(cs[0][0]));
        assert(false);
    }
}

/// Law: an item made only of whitespace (newlines included) and
/// box-drawing characters changes nothing, wherever it stands in the listing:
/// neither the cleaned lines nor the plan that `build_plan_tree` reads.
pub proof fn blank_items_change_nothing(a: Seq<String>, item: String, b: Seq<String>)
    requires
        is_blank_item(item@),
    ensures
        clean_spec(join(views(a.push(item) + b), "\n"@)) == clean_spec(join(views(a + b), "\n"@)),
        plan_models(a.push(item) + b) == plan_models(a + b),
{
    lemma_plan_models_items(a.push(item) + b);
    lemma_plan_models_items(a + b);
    lemma_clean_join(views(a.push(item) + b));
    lemma_clean_join(views(a + b));
    assert(views(a.push(item) + b) =~= views(a).push(item@) + views(b));
    assert(views(a + b) =~= views(a) + views(b));
    lemma_clean_all_concat(views(a).push(item@), views(b));
    lemma_clean_all_concat(views(a), views(b));
    assert(views(a).push(item@).drop_last() =~= views(a));
    lemma_blank_cleans_to_nothing(item@);
    assert(clean_all(views(a).push(item@)) =~= clean_all(views(a)));
}

proof fn lemma_plan_fold_concat(start: Seq<NodeModel>, u: Seq<Seq<char>>, v: Seq<Seq<char>>)
    ensures
        plan_fold(start, u + v) == plan_fold(plan_fold(start, u), v),
    decreases v.len(),
{
    if v.len() == 0 {
        assert(u + v =~= u);
    } else {
        lemma_plan_fold_concat(start, u, v.drop_last());
        assert((u + v).drop_last() =~= u + v.drop_last());
        assert((u + v).last() == v.last());
    }
}

proof fn lemma_plan_fold_no_operator(u: Seq<Seq<char>>)
    requires
        forall|k: int| 0 <= k < u.len() ==> operator_of(uppercase(#[trigger] u[k])) is None,
    ensures
        plan_fold(Seq::empty(), u).len() == 0,
    decreases u.len(),
{
    if u.len() > 0 {
        assert forall|k: int| 0 <= k < u.drop_last().len() implies operator_of(
            uppercase(#[trigger] u.drop_last()[k]),
        ) is None by {
            assert(u.drop_last()[k] == u[k]);
        }
        lemma_plan_fold_no_operator(u.drop_last());
        assert(operator_of(uppercase(u[u.len() - 1])) is None);
    }
}

/// Law: items before the first line that names an operator change nothing.
/// When no cleaned line of `prefix` names an operator (in upper case),
/// `build_plan_tree` reads the same plan from `prefix` followed by `lines`
/// as from `lines` alone; their details (`Aggregates:`, `~N rows`,
/// `salary`) belong to no node.
pub proof fn leading_lines_without_operators_change_nothing(prefix: Seq<String>, lines: Seq<String>)
    requires
        forall|k: int|
            0 <= k < clean_spec(join(views(prefix), "\n"@)).len() ==> operator_of(
                uppercase(#[trigger] clean_spec(join(views(prefix), "\n"@))[k]),
            ) is None,
    ensures
        plan_models(prefix + lines) == plan_models(lines),
{
    lemma_plan_models_items(prefix + lines);
    lemma_plan_models_items(lines);
    lemma_clean_join(views(prefix));
    assert(views(prefix + lines) =~= views(prefix) + views(lines));
    lemma_clean_all_concat(views(prefix), views(lines));
    let c1 = clean_all(views(prefix));
    let c2 = clean_all(views(lines));
    lemma_plan_fold_concat(Seq::empty(), c1, c2);
    lemma_plan_fold_no_operator(c1);
    assert(plan_fold(Seq::empty(), c1) =~= Seq::<NodeModel>::empty());
}

// ---------------------------------------------------------------------------
// Laws on what each part of the reading does
// ---------------------------------------------------------------------------

/// The operator types of a sequence of node models.
pub open spec fn node_types(ns: Seq<NodeModel>) -> Seq<Seq<char>> {
    ns.map_values(|n: NodeModel| n.node_type)
}

/// The operators that the lines name, one for each line that names one,
/// in the order of the lines.
pub open spec fn named_operators(lines: Seq<Seq<char>>) -> Seq<Seq<char>>
    decreases lines.len(),
{
    if lines.len() == 0 {
        Seq::empty()
    } else {
        let prev = named_operators(lines.drop_last());
        match operator_of(uppercase(lines.last())) {
            Some(k) => prev.push(k),
            None => prev,
        }
    }
}

/// Law: reading lines gives one node for each line that names an operator,
/// and the i-th node has the type that the i-th such line names, whatever
/// the node before it is. No node is dropped or merged with another.
pub proof fn one_node_per_operator_line(lines: Seq<Seq<char>>)
    ensures
        node_types(plan_nodes(lines)) == named_operators(lines),
        plan_nodes(lines).len() == named_operators(lines).len(),
    decreases lines.len(),
{
    if lines.len() > 0 {
        one_node_per_operator_line(lines.drop_last());
        let prev = plan_nodes(lines.drop_last());
        let line = lines.last();
        let with_new = match operator_of(uppercase(line)) {
            Some(k) => prev.push(empty_node(k)),
            None => prev,
        };
        assert(node_types(with_new) =~= named_operators(lines));
        if with_new.len() > 0 {
            let after = with_new.update(with_new.len() - 1, annotate_spec(with_new.last(), line));
            assert(node_types(after) =~= node_types(with_new));
        }
    }
}

/// Law: the operator that a line is read as is one the line contains, and a
/// line that contains one of the six operator names is read as an operator.
pub proof fn operator_of_names_a_contained_operator(upper: Seq<char>)
    ensures
        operator_of(upper) matches Some(k) ==> contains(upper, k) && is_operator_name(k),
        operator_of(upper) is None <==> !contains(upper, "UNGROUPED_AGGREGATE"@) && !contains(
            upper,
            "HASH_JOIN"@,
        ) && !contains(upper, "PROJECTION"@) && !contains(upper, "SEQ_SCAN"@) && !contains(
            upper,
            "READ_CSV_AUTO"@,
        ) && !contains(upper, "FILTER"@),
{
}

/// Law: the built tree has exactly one node per cleaned line that names an
/// operator, with the types in the order of those lines.
pub proof fn built_tree_has_one_node_per_operator_line(lines: Seq<String>)
    ensures
        node_types(plan_models(lines)) == named_operators(clean_spec(join(views(lines), "\n"@))),
{
    one_node_per_operator_line(clean_spec(join(views(lines), "\n"@)));
}

/// Law: an operator other than an ungrouped aggregate, a projection or a
/// sequential scan is explained as `Executes operator: <type>.`, whatever its
/// columns, aggregates and row count.
pub proof fn other_operators_are_named(m: NodeModel)
    requires
        m.node_type != "UNGROUPED_AGGREGATE"@,
        m.node_type != "PROJECTION"@,
        m.node_type != "SEQ_SCAN"@,
    ensures
        explanation(Some(m)) == "Executes operator: "@ + m.node_type + "."@,
{
}

/// Law: only a sequential scan is explained as a scan. An explanation that
/// begins `Sequential scan` is that of a `SEQ_SCAN` root.
pub proof fn only_scans_are_explained_as_scans(m: Option<NodeModel>)
    requires
        explanation(m).len() >= 15,
        explanation(m).take(15) == "Sequential scan"@,
    ensures
        m matches Some(n) && n.node_type == "SEQ_SCAN"@,
{
    reveal_strlit("Sequential scan");
    reveal_strlit("Could not parse query plan.");
    reveal_strlit("Computes aggregate: ");
    reveal_strlit("Selects columns: ");
    reveal_strlit("Executes operator: ");
    let e = explanation(m);
    assert(e.take(15)[2] == 'q');
    match m {
        None => {
            assert(e[2] == 'u');
        },
        Some(n) => {
            if n.node_type == "UNGROUPED_AGGREGATE"@ {
                assert(e[2] == ("Computes aggregate: "@ + join(n.aggregates, ", "@))[2]);
                assert(e[2] == 'm');
            } else if n.node_type == "PROJECTION"@ {
                assert(e[2] == ("Selects columns: "@ + join(n.columns, ", "@))[2]);
                assert(e[2] == 'l');
            } else if n.node_type != "SEQ_SCAN"@ {
                assert(e[2] == ("Executes operator: "@ + n.node_type)[2]);
                assert(e[2] == 'e');
            }
        },
    }
}

proof fn lemma_remove_box_concat(u: Seq<char>, v: Seq<char>)
    ensures
        remove_box(u + v) == remove_box(u) + remove_box(v),
    decreases v.len(),
{
    if v.len() == 0 {
        assert(u + v =~= u);
        assert(remove_box(u) + remove_box(v) =~= remove_box(u));
    } else {
        lemma_remove_box_concat(u, v.drop_last());
        assert((u + v).drop_last() =~= u + v.drop_last());
        assert((u + v).last() == v.last());
        if !is_box_char(v.last()) {
            assert(remove_box(u) + remove_box(v) =~= (remove_box(u) + remove_box(v.drop_last())).push(
                v.last(),
            ));
        }
    }
}

/// Law: a line that holds none of the eight box-drawing characters
/// `┌ ┐ └ ┘ │ ─ ┬ ┴` is cleaned to itself without surrounding whitespace:
/// every other character, ASCII `-` included, is kept in order.
pub proof fn cleaning_keeps_other_characters(x: Seq<char>)
    requires
        forall|i: int|
            0 <= i < x.len() ==> #[trigger] x[i] != '\n' && x[i] != '┌' && x[i] != '┐' && x[i]
                != '└' && x[i] != '┘' && x[i] != '│' && x[i] != '─' && x[i] != '┬' && x[i] != '┴',
    ensures
        clean_line(x) == trim(x),
        clean_spec(x) == if trim(x).len() > 0 {
            seq![trim(x)]
        } else {
            Seq::<Seq<char>>::empty()
        },
{
    lemma_remove_box_absent(x);
    lemma_split_single(x);
    if x.len() > 0 {
        assert(lines_of(x) =~= seq![x]);
        lemma_clean_one(x);
    } else {
        assert(lines_of(x) =~= Seq::<Seq<char>>::empty());
        assert(trim(x) =~= x);
    }
}

/// Law: each of the eight box-drawing characters `┌ ┐ └ ┘ │ ─ ┬ ┴`, wherever
/// it stands in a line, is removed and changes nothing else.
pub proof fn box_characters_are_removed(a: Seq<char>, c: char, b: Seq<char>)
    requires
        c == '┌' || c == '┐' || c == '└' || c == '┘' || c == '│' || c == '─' || c == '┬' || c
            == '┴',
    ensures
        clean_line(a + seq![c] + b) == clean_line(a + b),
{
    lemma_remove_box_concat(a + seq![c], b);
    lemma_remove_box_concat(a, seq![c]);
    lemma_remove_box_concat(a, b);
    assert(seq![c].drop_last() =~= Seq::<char>::empty());
    assert(seq![c].last() == c);
    assert(is_box_char(c));
    assert(remove_box(Seq::<char>::empty()) =~= Seq::<char>::empty());
    assert(remove_box(seq![c]) =~= Seq::<char>::empty());
    assert(remove_box(a) + remove_box(seq![c]) =~= remove_box(a));
}

/// Law: the three named operators are explained by their own sentences: an
/// ungrouped aggregate lists its aggregates, a projection its columns, a
/// sequential scan its row count when it has one.
pub proof fn named_operators_are_explained(m: NodeModel)
    ensures
        m.node_type == "UNGROUPED_AGGREGATE"@ ==> explanation(Some(m)) == "Computes aggregate: "@
            + join(m.aggregates, ", "@) + "."@,
        m.node_type == "PROJECTION"@ ==> explanation(Some(m)) == "Selects columns: "@ + join(
            m.columns,
            ", "@,
        ) + "."@,
        m.node_type == "SEQ_SCAN"@ && m.rows is Some ==> explanation(Some(m))
            == "Sequential scan over table (~"@ + decimal(m.rows->0 as int) + " rows)."@,
        m.node_type == "SEQ_SCAN"@ && m.rows is None ==> explanation(Some(m))
            == "Sequential scan over table."@,
        explanation(None) == "Could not parse query plan."@,
{
    reveal_strlit("UNGROUPED_AGGREGATE");
    reveal_strlit("PROJECTION");
    reveal_strlit("SEQ_SCAN");
    assert("UNGROUPED_AGGREGATE"@.len() == 19);
    assert("PROJECTION"@.len() == 10);
    assert("SEQ_SCAN"@.len() == 8);
    assert("PROJECTION"@ != "UNGROUPED_AGGREGATE"@);
    assert("SEQ_SCAN"@ != "UNGROUPED_AGGREGATE"@);
    assert("SEQ_SCAN"@ != "PROJECTION"@);
}

/// Law: a line that begins with `Aggregates:` followed by a text with no
/// whitespace at either end gives that text as its aggregates; a line
/// without `Aggregates:` gives none.
pub proof fn aggregates_follow_the_key(rest: Seq<char>, line: Seq<char>)
    ensures
        rest.len() > 0 && !crate::text::is_ws(rest[0]) && !crate::text::is_ws(rest.last())
            ==> aggregates_spec("Aggregates:"@ + rest) == Some(rest),
        !contains(line, "Aggregates:"@) ==> aggregates_spec(line) is None,
{
    let key = "Aggregates:"@;
    let s = key + rest;
    if rest.len() > 0 && !crate::text::is_ws(rest[0]) && !crate::text::is_ws(rest.last()) {
        assert(s.subrange(0, key.len() as int) =~= key);
        assert(find(s, key) == Some(0int));
        assert(s.skip(key.len() as int) =~= rest);
        crate::text::lemma_trim_of_trimmed(rest);
    }
}

} // verus!
