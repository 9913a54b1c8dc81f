use pyastq::query::variables::MatchCaptures;
use pyastq::report::{finding_line, sort_findings, Finding};

fn finding(path: &str, line: usize, column: usize, rule: Option<&str>) -> Finding {
    Finding {
        path: path.to_owned(),
        line,
        column,
        text: "eval(x)".to_owned(),
        rule_id: rule.map(str::to_owned),
        message: None,
        severity: None,
        start_byte: 0,
        end_byte: 7,
        captures: MatchCaptures::new(),
    }
}

#[test]
fn returns_findings_in_location_order_instead_of_rule_order() {
    let mut findings = vec![
        finding("example.py", 2, 1, Some("no-eval")),
        finding("example.py", 1, 1, Some("no-print")),
    ];
    sort_findings(&mut findings);
    assert_eq!(
        findings
            .iter()
            .map(|finding| (finding.line, finding.rule_id.as_deref()))
            .collect::<Vec<_>>(),
        [(1, Some("no-print")), (2, Some("no-eval"))]
    );
}

#[test]
fn sorting_orders_by_path_then_line_then_column_and_is_stable() {
    let mut findings = vec![
        finding("b.py", 1, 1, Some("first")),
        finding("a.py", 3, 5, None),
        finding("a.py", 3, 2, None),
        finding("b.py", 1, 1, Some("second")),
    ];
    sort_findings(&mut findings);
    let keys: Vec<_> = findings
        .iter()
        .map(|f| (f.path.as_str(), f.line, f.column, f.rule_id.as_deref()))
        .collect();
    assert_eq!(
        keys,
        [
            ("a.py", 3, 2, None),
            ("a.py", 3, 5, None),
            ("b.py", 1, 1, Some("first")),
            ("b.py", 1, 1, Some("second")),
        ]
    );
}

#[test]
fn text_lines_name_the_rule_where_one_matched() {
    assert_eq!(finding_line(&finding("a.py", 3, 7, None)), "a.py:3:7: eval(x)");
    assert_eq!(
        finding_line(&finding("a.py", 3, 7, Some("no-eval"))),
        "a.py:3:7: [warning/no-eval] rule matched: eval(x)"
    );
}
