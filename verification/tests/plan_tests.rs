use aetherquery::plan::{
    assemble_tree, build_plan_tree, clean_explain_output, explain_tree, make_node, operator_node,
    parse_aggregates, parse_projection_columns, parse_rows, projection_of_lowercase,
    rows_from_capture, PlanNode,
};

fn node(node_type: &str, columns: &[&str], aggregates: &[&str], rows: Option<u64>) -> PlanNode {
    let mut n = make_node(node_type);
    n.columns = columns.iter().map(|s| s.to_string()).collect();
    n.aggregates = aggregates.iter().map(|s| s.to_string()).collect();
    n.rows = rows;
    n
}

const AGGREGATE_PLAN: &str = "\
┌───────────────────────────┐
│    UNGROUPED_AGGREGATE    │
│    ────────────────────   │
│    Aggregates: avg(#0)    │
└─────────────┬─────────────┘
┌─────────────┴─────────────┐
│         PROJECTION        │
│    ────────────────────   │
│           salary          │
│                           │
│          ~10 rows         │
└─────────────┬─────────────┘
┌─────────────┴─────────────┐
│         SEQ_SCAN          │
│    ────────────────────   │
│      Table: employees     │
│                           │
│         ~1,000 rows       │
└───────────────────────────┘";

#[test]
fn clean_removes_boxes_and_blank_lines() {
    let cleaned = clean_explain_output(AGGREGATE_PLAN);
    assert_eq!(
        cleaned,
        vec![
            "UNGROUPED_AGGREGATE",
            "Aggregates: avg(#0)",
            "PROJECTION",
            "salary",
            "~10 rows",
            "SEQ_SCAN",
            "Table: employees",
            "~1,000 rows",
        ]
    );
}

#[test]
fn clean_handles_crlf_and_trailing_newline() {
    let cleaned = clean_explain_output("  a  \r\n\r\n│ b │\n");
    assert_eq!(cleaned, vec!["a", "b"]);
    assert!(clean_explain_output("").is_empty());
    assert!(clean_explain_output("\n\n┌─┐\n").is_empty());
}

#[test]
fn build_reads_aggregate_plan_into_chain() {
    let tree = build_plan_tree(&[AGGREGATE_PLAN.to_string()]).expect("a plan");
    let mut scan = node("SEQ_SCAN", &[], &[], Some(1000));
    scan.children = vec![];
    let mut projection = node("PROJECTION", &["salary"], &[], Some(10));
    projection.children = vec![scan];
    let mut root = node("UNGROUPED_AGGREGATE", &[], &["avg(#0)"], None);
    root.children = vec![projection];
    assert_eq!(tree, root);
}

#[test]
fn build_starts_a_node_for_any_line_naming_an_operator() {
    // "Projections:" names PROJECTION once upper-cased.
    let lines = vec![
        "SEQ_SCAN".to_string(),
        "Projections: salary".to_string(),
        "~5 rows".to_string(),
    ];
    let tree = build_plan_tree(&lines).expect("a plan");
    let mut expected = node("SEQ_SCAN", &[], &[], None);
    expected.children = vec![node("PROJECTION", &["salary"], &[], Some(5))];
    assert_eq!(tree, expected);
}

#[test]
fn build_uppercases_before_matching() {
    let tree = build_plan_tree(&["seq_scan employees".to_string()]).expect("a plan");
    assert_eq!(tree.node_type, "SEQ_SCAN");
}

#[test]
fn build_without_operators_is_none() {
    assert_eq!(build_plan_tree(&[]), None);
    assert_eq!(build_plan_tree(&["~10 rows".to_string(), "Aggregates: x".to_string()]), None);
}

#[test]
fn build_joins_lines_and_ignores_details_before_first_node() {
    let lines = vec!["~3 rows\nHASH_JOIN".to_string(), "FILTER ~7 rows".to_string()];
    let tree = build_plan_tree(&lines).expect("a plan");
    let mut expected = node("HASH_JOIN", &[], &[], None);
    expected.children = vec![node("FILTER", &[], &[], Some(7))];
    assert_eq!(tree, expected);
}

#[test]
fn build_first_operator_name_wins_and_columns_are_not_repeated() {
    let lines = vec![
        "READ_CSV_AUTO then FILTER".to_string(),
        "salary".to_string(),
        "SALARY again".to_string(),
        "~2 rows".to_string(),
        "~4 rows".to_string(),
    ];
    let tree = build_plan_tree(&lines).expect("a plan");
    assert_eq!(tree, node("READ_CSV_AUTO", &["salary"], &[], Some(4)));
}

#[test]
fn make_node_is_empty() {
    let n = make_node("FILTER");
    assert_eq!(n.node_type, "FILTER");
    assert!(n.columns.is_empty());
    assert!(n.aggregates.is_empty());
    assert_eq!(n.rows, None);
    assert!(n.children.is_empty());
}

#[test]
fn assemble_nests_each_node_under_the_previous() {
    assert_eq!(assemble_tree(vec![]), None);
    let tree = assemble_tree(vec![make_node("A"), make_node("B"), make_node("C")]).unwrap();
    assert_eq!(tree.node_type, "A");
    assert_eq!(tree.children.len(), 1);
    assert_eq!(tree.children[0].node_type, "B");
    assert_eq!(tree.children[0].children.len(), 1);
    assert_eq!(tree.children[0].children[0].node_type, "C");
    assert!(tree.children[0].children[0].children.is_empty());
}

#[test]
fn assemble_appends_after_existing_children() {
    let mut first = make_node("A");
    first.children.push(make_node("X"));
    let tree = assemble_tree(vec![first, make_node("B")]).unwrap();
    assert_eq!(tree.children.len(), 2);
    assert_eq!(tree.children[0].node_type, "X");
    assert_eq!(tree.children[1].node_type, "B");
}

#[test]
fn explain_each_kind() {
    assert_eq!(explain_tree(None), "Could not parse query plan.");
    let agg = node("UNGROUPED_AGGREGATE", &[], &["avg(#0)", "count(*)"], None);
    assert_eq!(explain_tree(Some(&agg)), "Computes aggregate: avg(#0), count(*).");
    let proj = node("PROJECTION", &["salary", "name"], &[], None);
    assert_eq!(explain_tree(Some(&proj)), "Selects columns: salary, name.");
    let scan = node("SEQ_SCAN", &[], &[], Some(1000));
    assert_eq!(explain_tree(Some(&scan)), "Sequential scan over table (~1000 rows).");
    let scan_unknown = node("SEQ_SCAN", &[], &[], None);
    assert_eq!(explain_tree(Some(&scan_unknown)), "Sequential scan over table.");
    let join = node("HASH_JOIN", &[], &[], None);
    assert_eq!(explain_tree(Some(&join)), "Executes operator: HASH_JOIN.");
    let empty_agg = node("UNGROUPED_AGGREGATE", &[], &[], None);
    assert_eq!(explain_tree(Some(&empty_agg)), "Computes aggregate: .");
}

#[test]
fn explain_of_built_plan() {
    let tree = build_plan_tree(&[AGGREGATE_PLAN.to_string()]);
    assert_eq!(explain_tree(tree.as_ref()), "Computes aggregate: avg(#0).");
}

#[test]
fn aggregates_after_the_first_key() {
    assert_eq!(parse_aggregates("Aggregates: avg(salary)"), Some("avg(salary)".to_string()));
    assert_eq!(parse_aggregates("x Aggregates:  sum(a) Aggregates: b "), Some("sum(a) Aggregates: b".to_string()));
    assert_eq!(parse_aggregates("Aggregates:   "), None);
    assert_eq!(parse_aggregates("aggregates: x"), None);
    assert_eq!(parse_aggregates(""), None);
}

#[test]
fn rows_from_plan_lines() {
    assert_eq!(parse_rows("~1,000 rows"), Some(1000));
    assert_eq!(parse_rows("~ 42   rows"), Some(42));
    assert_eq!(parse_rows("EC: ~12 rows estimated"), Some(12));
    assert_eq!(parse_rows("~1,000"), None);
    assert_eq!(parse_rows("1000 rows"), None);
    assert_eq!(parse_rows("~, rows"), None);
    assert_eq!(parse_rows("~18446744073709551615 rows"), Some(u64::MAX));
    assert_eq!(parse_rows("~18446744073709551616 rows"), None);
    assert_eq!(parse_rows("~3 rows then ~4 rows"), Some(3));
}

#[test]
fn rows_from_captured_text() {
    assert_eq!(rows_from_capture(None), None);
    assert_eq!(rows_from_capture(Some("1,2,3".to_string())), Some(123));
    assert_eq!(rows_from_capture(Some("+5".to_string())), Some(5));
    assert_eq!(rows_from_capture(Some("+".to_string())), None);
    assert_eq!(rows_from_capture(Some("".to_string())), None);
    assert_eq!(rows_from_capture(Some("-5".to_string())), None);
    assert_eq!(rows_from_capture(Some("007".to_string())), Some(7));
    assert_eq!(rows_from_capture(Some("1 2".to_string())), None);
}

#[test]
fn row_counts_read_back() {
    for n in [0u64, 7, 10, 999, 1000, 123456789, u64::MAX] {
        assert_eq!(rows_from_capture(Some(n.to_string())), Some(n));
    }
}

#[test]
fn projection_columns_by_salary() {
    assert_eq!(parse_projection_columns("SALARY"), Some(vec!["salary".to_string()]));
    assert_eq!(parse_projection_columns("avg(Salary)"), Some(vec!["salary".to_string()]));
    assert_eq!(parse_projection_columns("name"), None);
}

#[test]
fn operator_of_upper_cased_lines() {
    assert_eq!(operator_node("SEQ_SCAN EMPLOYEES").map(|n| n.node_type), Some("SEQ_SCAN".to_string()));
    assert_eq!(operator_node("HASH_JOIN ON FILTER").map(|n| n.node_type), Some("HASH_JOIN".to_string()));
    assert_eq!(operator_node("xUNGROUPED_AGGREGATEx PROJECTION").map(|n| n.node_type), Some("UNGROUPED_AGGREGATE".to_string()));
    assert_eq!(operator_node("READ_CSV_AUTO").map(|n| n.node_type), Some("READ_CSV_AUTO".to_string()));
    assert_eq!(operator_node("seq_scan").map(|n| n.node_type), None);
    assert_eq!(operator_node("").map(|n| n.node_type), None);
}

#[test]
fn projection_of_lower_cased_lines() {
    assert_eq!(projection_of_lowercase("avg(salary)"), Some(vec!["salary".to_string()]));
    assert_eq!(projection_of_lowercase("SALARY"), None);
}

fn check_chain(t: &PlanNode) {
    let known = ["UNGROUPED_AGGREGATE", "HASH_JOIN", "PROJECTION", "SEQ_SCAN", "READ_CSV_AUTO", "FILTER"];
    assert!(known.contains(&t.node_type.as_str()));
    let mut cols = t.columns.clone();
    cols.sort();
    cols.dedup();
    assert_eq!(cols.len(), t.columns.len());
    assert!(t.children.len() <= 1);
    for c in &t.children {
        check_chain(c);
    }
}

#[test]
fn built_trees_are_chains_of_known_operators() {
    let inputs = vec![
        vec![AGGREGATE_PLAN.to_string()],
        vec!["filter salary salary\nProjection salary".to_string(), "hash_join".to_string()],
    ];
    for lines in inputs {
        let tree = build_plan_tree(&lines).expect("a plan");
        check_chain(&tree);
    }
}

#[test]
fn cleaned_lines_are_trimmed_and_box_free() {
    for line in clean_explain_output(AGGREGATE_PLAN) {
        assert!(!line.is_empty());
        assert_eq!(line.trim(), line);
        assert!(!line.chars().any(|c| "┌┐└┘│─┬┴".contains(c)));
    }
}

#[test]
fn cleaning_twice_changes_nothing() {
    for text in [AGGREGATE_PLAN, "  a  \r\n\r\n│ b │\n", "", "x\ny\r\n z "] {
        let once = clean_explain_output(text);
        let twice = clean_explain_output(&once.join("\n"));
        assert_eq!(twice, once);
    }
}

#[test]
fn blank_items_change_nothing_in_plans() {
    let lines = vec![AGGREGATE_PLAN.to_string(), "FILTER ~3 rows".to_string()];
    let mut with_blanks = lines.clone();
    with_blanks.insert(1, " ┌──┐\n\t│ │ \r\n".to_string());
    with_blanks.insert(0, "".to_string());
    with_blanks.push("\n\n".to_string());
    assert_eq!(build_plan_tree(&with_blanks), build_plan_tree(&lines));
    assert_eq!(
        clean_explain_output(&with_blanks.join("\n")),
        clean_explain_output(&lines.join("\n"))
    );
}

#[test]
fn lines_before_the_first_operator_change_nothing() {
    let prefix = vec!["Aggregates: sum(x)".to_string(), "~12 rows\nsalary".to_string()];
    let lines = vec![AGGREGATE_PLAN.to_string()];
    let all = [prefix.clone(), lines.clone()].concat();
    assert_eq!(build_plan_tree(&all), build_plan_tree(&lines));
    assert_eq!(build_plan_tree(&prefix), None);
}
