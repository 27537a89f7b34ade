use aetherquery::sql::{
    analyze_statement, create_view_statement, describe_statement, explain_statement,
    fresh_table_name, preview_statement, quote_identifier, sql_string_literal, stats_statement,
    table_name_from_id,
};

#[test]
fn identifiers_are_double_quoted() {
    assert_eq!(quote_identifier("employees"), "\"employees\"");
    assert_eq!(quote_identifier("a\"b"), "\"a\"\"b\"");
    assert_eq!(quote_identifier(""), "\"\"");
    assert_eq!(quote_identifier("\""), "\"\"\"\"");
    assert_eq!(quote_identifier("it's"), "\"it's\"");
}

#[test]
fn literals_are_single_quoted() {
    assert_eq!(sql_string_literal("/tmp/a.csv"), "'/tmp/a.csv'");
    assert_eq!(sql_string_literal("it's"), "'it''s'");
    assert_eq!(sql_string_literal("''"), "''''''");
    assert_eq!(sql_string_literal("say \"hi\""), "'say \"hi\"'");
}

fn unquote(t: &str, q: char) -> String {
    let inner: Vec<char> = t.chars().collect();
    assert_eq!(inner.first(), Some(&q));
    assert_eq!(inner.last(), Some(&q));
    let body: String = inner[1..inner.len() - 1].iter().collect();
    body.replace(&format!("{q}{q}"), &q.to_string())
}

#[test]
fn quoting_reads_back_on_samples() {
    for s in ["", "x", "\"", "'", "a\"\"b", "ü\"'ß", "\"\"\""] {
        assert_eq!(unquote(&quote_identifier(s), '"'), s);
        assert_eq!(unquote(&sql_string_literal(s), '\''), s);
    }
    assert_ne!(quote_identifier("a\"b"), quote_identifier("a\"\"b"));
}

#[test]
fn statements() {
    assert_eq!(describe_statement("t"), "DESCRIBE \"t\"");
    assert_eq!(preview_statement("t", None), "SELECT * FROM \"t\" LIMIT 50");
    assert_eq!(preview_statement("my \"t\"", Some(7)), "SELECT * FROM \"my \"\"t\"\"\" LIMIT 7");
    assert_eq!(preview_statement("t", Some(0)), "SELECT * FROM \"t\" LIMIT 0");
    assert_eq!(explain_statement("SELECT 1"), "EXPLAIN SELECT 1");
    assert_eq!(analyze_statement("SELECT 1"), "EXPLAIN ANALYZE SELECT 1");
    assert_eq!(
        create_view_statement("table_ab", "/tmp/o'k.csv"),
        "CREATE VIEW table_ab AS SELECT * FROM read_csv_auto('/tmp/o''k.csv');"
    );
}

#[test]
fn stats_statement_text() {
    let expected = r#"SELECT
                MIN("age")::VARCHAR AS min,
                MAX("age")::VARCHAR AS max,
                AVG(TRY_CAST("age" AS DOUBLE)) AS avg,
                COUNT(DISTINCT "age") AS distinct_count,
                SUM(CASE WHEN "age" IS NULL THEN 1 ELSE 0 END) AS nulls
            FROM "people";"#;
    assert_eq!(stats_statement("people", "age"), expected);
}

#[test]
fn table_names() {
    assert_eq!(
        table_name_from_id("67e55044-10b1-426f-9247-bb680e5fe0c8"),
        "table_67e5504410b1426f9247bb680e5fe0c8"
    );
    assert_eq!(table_name_from_id(""), "table_");
    assert_eq!(table_name_from_id("--"), "table_");
}

#[test]
fn fresh_table_names_are_plain() {
    let a = fresh_table_name();
    let b = fresh_table_name();
    assert_eq!(a.len(), 38);
    assert!(a.starts_with("table_"));
    assert!(a[6..].chars().all(|c| c.is_ascii_digit() || ('a'..='f').contains(&c)));
    assert_eq!(a.chars().nth(6 + 12), Some('4'));
    assert_ne!(a, b);
}
