use aetherquery::text::{join_strings, decimal_text};
use aetherquery::values::{
    bytes_debug, column_names, date32_to_string, date_text_or_days, explain_lines, i128_to_json,
    json_to_display_string, json_value_to_json, json_value_to_string, row_to_json,
    schema_entries, stats_entry, ExplainRow, JsonCell, SqlValue,
};

fn text(s: &str) -> String {
    s.to_string()
}

#[test]
fn display_text_of_values() {
    assert_eq!(json_value_to_string(&SqlValue::Null), "");
    assert_eq!(json_value_to_string(&SqlValue::Boolean(true)), "true");
    assert_eq!(json_value_to_string(&SqlValue::Boolean(false)), "false");
    assert_eq!(json_value_to_string(&SqlValue::TinyInt(-128)), "-128");
    assert_eq!(json_value_to_string(&SqlValue::SmallInt(300)), "300");
    assert_eq!(json_value_to_string(&SqlValue::Int(-7)), "-7");
    assert_eq!(json_value_to_string(&SqlValue::BigInt(i64::MIN)), "-9223372036854775808");
    assert_eq!(json_value_to_string(&SqlValue::UTinyInt(255)), "255");
    assert_eq!(json_value_to_string(&SqlValue::USmallInt(0)), "0");
    assert_eq!(json_value_to_string(&SqlValue::UInt(4000000000)), "4000000000");
    assert_eq!(json_value_to_string(&SqlValue::UBigInt(u64::MAX)), "18446744073709551615");
    assert_eq!(
        json_value_to_string(&SqlValue::HugeInt(i128::MIN)),
        "-170141183460469231731687303715884105728"
    );
    assert_eq!(
        json_value_to_string(&SqlValue::Real { text: text("1"), json_number: Some(text("1.0")) }),
        "1"
    );
    assert_eq!(json_value_to_string(&SqlValue::Decimal(text("12.50"))), "12.50");
    assert_eq!(json_value_to_string(&SqlValue::Text(b"h\xc3\xa9".to_vec())), "hé");
    assert_eq!(json_value_to_string(&SqlValue::Text(vec![0x61, 0xff])), "a\u{fffd}");
    assert_eq!(json_value_to_string(&SqlValue::Blob(vec![1, 2, 255])), "[1, 2, 255]");
    assert_eq!(json_value_to_string(&SqlValue::Date32(19000)), "2022-01-08");
    assert_eq!(json_value_to_string(&SqlValue::Time64(3600000000)), "3600000000");
    assert_eq!(json_value_to_string(&SqlValue::Timestamp(-1)), "-1");
    assert_eq!(json_value_to_string(&SqlValue::Other(text("Interval"))), "Interval");
}

#[test]
fn json_cells_of_values() {
    assert_eq!(json_value_to_json(&SqlValue::Null), JsonCell::Null);
    assert_eq!(json_value_to_json(&SqlValue::Boolean(true)), JsonCell::Bool(true));
    assert_eq!(json_value_to_json(&SqlValue::Int(-7)), JsonCell::Number(text("-7")));
    assert_eq!(json_value_to_json(&SqlValue::UBigInt(u64::MAX)), JsonCell::Number(text("18446744073709551615")));
    assert_eq!(
        json_value_to_json(&SqlValue::Real { text: text("NaN"), json_number: None }),
        JsonCell::Null
    );
    assert_eq!(
        json_value_to_json(&SqlValue::Real { text: text("1.5"), json_number: Some(text("1.5")) }),
        JsonCell::Number(text("1.5"))
    );
    assert_eq!(json_value_to_json(&SqlValue::Decimal(text("1.10"))), JsonCell::Text(text("1.10")));
    assert_eq!(json_value_to_json(&SqlValue::Text(b"abc".to_vec())), JsonCell::Text(text("abc")));
    assert_eq!(json_value_to_json(&SqlValue::Blob(vec![])), JsonCell::Text(text("[]")));
    assert_eq!(json_value_to_json(&SqlValue::Date32(0)), JsonCell::Text(text("1970-01-01")));
    assert_eq!(json_value_to_json(&SqlValue::Date32(-1)), JsonCell::Text(text("1969-12-31")));
    assert_eq!(json_value_to_json(&SqlValue::Timestamp(5)), JsonCell::Text(text("5")));
    assert_eq!(json_value_to_json(&SqlValue::Other(text("[1, 2]"))), JsonCell::Text(text("[1, 2]")));
}

#[test]
fn huge_integers_become_numbers_only_when_they_fit() {
    assert_eq!(i128_to_json(0), JsonCell::Number(text("0")));
    assert_eq!(i128_to_json(i64::MIN as i128), JsonCell::Number(text("-9223372036854775808")));
    assert_eq!(i128_to_json(i64::MIN as i128 - 1), JsonCell::Text(text("-9223372036854775809")));
    assert_eq!(i128_to_json(u64::MAX as i128), JsonCell::Number(text("18446744073709551615")));
    assert_eq!(i128_to_json(u64::MAX as i128 + 1), JsonCell::Text(text("18446744073709551616")));
    assert_eq!(i128_to_json(i128::MAX), JsonCell::Text(text("170141183460469231731687303715884105727")));
}

#[test]
fn dates_fall_back_to_day_numbers() {
    assert_eq!(date32_to_string(0), "1970-01-01");
    assert_eq!(date32_to_string(365), "1971-01-01");
    assert_eq!(date32_to_string(-719162), "0001-01-01");
    assert_eq!(date32_to_string(i32::MAX), "2147483647");
    assert_eq!(date32_to_string(i32::MIN), "-2147483648");
}

#[test]
fn display_of_cells() {
    assert_eq!(json_to_display_string(&JsonCell::Null), "");
    assert_eq!(json_to_display_string(&JsonCell::Bool(false)), "false");
    assert_eq!(json_to_display_string(&JsonCell::Number(text("2.5"))), "2.5");
    assert_eq!(json_to_display_string(&JsonCell::Text(text("x y"))), "x y");
}

#[test]
fn display_of_json_matches_value_text() {
    let values = vec![
        SqlValue::Null,
        SqlValue::Boolean(true),
        SqlValue::Int(-3),
        SqlValue::HugeInt(i128::MAX),
        SqlValue::HugeInt(5),
        SqlValue::Decimal(text("1.0")),
        SqlValue::Text(vec![0xfe, 0x41]),
        SqlValue::Blob(vec![9, 10]),
        SqlValue::Date32(18000),
        SqlValue::Time64(1),
        SqlValue::Other(text("o")),
    ];
    for v in &values {
        assert_eq!(json_to_display_string(&json_value_to_json(v)), json_value_to_string(v));
    }
    // A real is the exception: its JSON number can be written otherwise.
    let real = SqlValue::Real { text: text("1"), json_number: Some(text("1.0")) };
    assert_ne!(json_to_display_string(&json_value_to_json(&real)), json_value_to_string(&real));
}

#[test]
fn bytes_debug_like_format() {
    for b in [vec![], vec![0u8], vec![1, 22, 255], vec![10; 5]] {
        assert_eq!(bytes_debug(&b), format!("{:?}", b.as_slice()));
    }
}

#[test]
fn decimals_like_to_string() {
    for v in [0i128, 1, -1, 9, 10, -10, 12345, i128::MAX, i128::MIN, i64::MIN as i128] {
        assert_eq!(decimal_text(v), v.to_string());
    }
}

#[test]
fn join_with_separator() {
    assert_eq!(join_strings(&[], ", "), "");
    assert_eq!(join_strings(&[text("a")], ", "), "a");
    assert_eq!(join_strings(&[text("a"), text(""), text("c")], "\n"), "a\n\nc");
}

#[test]
fn explain_lines_prefer_second_column_and_skip_empty() {
    let rows = vec![
        ExplainRow { explain_key: Some(SqlValue::Other(text("physical_plan"))), explain_value: Some(SqlValue::Text(b"PLAN".to_vec())) },
        ExplainRow { explain_key: Some(SqlValue::Text(b"only key".to_vec())), explain_value: None },
        ExplainRow { explain_key: None, explain_value: None },
        ExplainRow { explain_key: Some(SqlValue::Int(1)), explain_value: Some(SqlValue::Null) },
        ExplainRow { explain_key: None, explain_value: Some(SqlValue::Int(2)) },
    ];
    assert_eq!(explain_lines(&rows), vec![text("PLAN"), text("only key"), text("2")]);
    assert!(explain_lines(&[]).is_empty());
}

#[test]
fn rows_to_json() {
    let r = row_to_json(&[SqlValue::Int(1), SqlValue::Null, SqlValue::Text(b"x".to_vec())]);
    assert_eq!(r, vec![JsonCell::Number(text("1")), JsonCell::Null, JsonCell::Text(text("x"))]);
    assert!(row_to_json(&[]).is_empty());
}

#[test]
fn schema_from_describe_rows() {
    let rows = vec![
        vec![JsonCell::Text(text("name")), JsonCell::Text(text("VARCHAR")), JsonCell::Text(text("YES"))],
        vec![JsonCell::Text(text("short"))],
        vec![JsonCell::Null, JsonCell::Number(text("3"))],
        vec![],
    ];
    let schema = schema_entries(&rows);
    assert_eq!(schema.len(), 2);
    assert_eq!(schema[0].column, "name");
    assert_eq!(schema[0].ty, "VARCHAR");
    assert_eq!(schema[1].column, "");
    assert_eq!(schema[1].ty, "3");
    assert_eq!(column_names(&rows), vec![text("name"), text("short"), text("")]);
}

#[test]
fn stats_from_first_row() {
    let rows = vec![
        vec![JsonCell::Text(text("1")), JsonCell::Text(text("9")), JsonCell::Number(text("5.0"))],
        vec![JsonCell::Bool(true)],
    ];
    let e = stats_entry(&rows);
    assert_eq!(e.min, JsonCell::Text(text("1")));
    assert_eq!(e.max, JsonCell::Text(text("9")));
    assert_eq!(e.avg, JsonCell::Number(text("5.0")));
    assert_eq!(e.distinct, JsonCell::Null);
    assert_eq!(e.nulls, JsonCell::Null);
    let none = stats_entry(&[]);
    assert_eq!(none.min, JsonCell::Null);
    assert_eq!(none.nulls, JsonCell::Null);
}

#[test]
fn date_text_from_calendar_answer() {
    assert_eq!(date_text_or_days(Some(text("2000-01-01")), 10957), "2000-01-01");
    assert_eq!(date_text_or_days(None, -5), "-5");
}
