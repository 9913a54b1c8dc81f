use pyastq::query::variables::{MatchCaptures, QueryVariables};
use pyastq::report::Finding;
use pyastq::rewrite::{
    apply_changes, apply_file_edits, edits_fit_source, render_template, validate_change, Change,
    ChangeSafety, ChangeSpec, Edit,
};

#[test]
fn renders_captures_variables_and_escaped_dollars() {
    let variables = QueryVariables::from_pairs(vec![("module".to_owned(), "json".to_owned())]);
    let captures = MatchCaptures::from_pairs(vec![("expr".to_owned(), "document".to_owned())]);
    assert_eq!(
        render_template("${module}.loads($expr) $$", &variables, &captures).unwrap(),
        "json.loads(document) $"
    );
}

#[test]
fn rendering_reports_each_kind_of_bad_template() {
    let empty = QueryVariables::new();
    assert_eq!(
        render_template("cost $", &empty, &empty).err().unwrap(),
        "replacement template ends with `$`"
    );
    assert_eq!(
        render_template("${open", &empty, &empty).err().unwrap(),
        "unterminated replacement variable"
    );
    assert_eq!(
        render_template("$-", &empty, &empty).err().unwrap(),
        "invalid replacement variable `$`"
    );
    assert_eq!(
        render_template("$missing", &empty, &empty).err().unwrap(),
        "replacement variable `$missing` is not defined"
    );
    assert_eq!(render_template("plain text", &empty, &empty).unwrap(), "plain text");
}

#[test]
fn captures_win_over_variables_of_the_same_name() {
    let variables = QueryVariables::from_pairs(vec![("x".to_owned(), "variable".to_owned())]);
    let captures = MatchCaptures::from_pairs(vec![("x".to_owned(), "capture".to_owned())]);
    assert_eq!(render_template("$x", &variables, &captures).unwrap(), "capture");
}

#[test]
fn changes_need_a_label() {
    let change = Change { label: "  ".to_owned(), replace: String::new(), safety: ChangeSafety::Safe };
    assert_eq!(validate_change(&change).err().unwrap(), "change labels cannot be empty");
    let change = Change { label: "fix".to_owned(), replace: String::new(), safety: ChangeSafety::default() };
    assert!(validate_change(&change).is_ok());
}

fn finding(path: &str, start: usize, end: usize, expr: &str) -> Finding {
    Finding {
        path: path.to_owned(),
        line: 1,
        column: start + 1,
        text: String::new(),
        rule_id: None,
        message: None,
        severity: None,
        start_byte: start,
        end_byte: end,
        captures: MatchCaptures::from_pairs(vec![("expr".to_owned(), expr.to_owned())]),
    }
}

#[test]
fn planned_changes_skip_unsafe_ones_unless_allowed() {
    let safe = Change { label: "safe".to_owned(), replace: "json.loads($expr)".to_owned(), safety: ChangeSafety::Safe };
    let risky = Change { label: "risky".to_owned(), replace: "x".to_owned(), safety: ChangeSafety::Unsafe };
    let variables = QueryVariables::new();
    let findings = vec![finding("a.py", 0, 14, "document"), finding("a.py", 15, 19, "y")];
    let specs = vec![
        Some(ChangeSpec { change: &safe, variables: &variables }),
        Some(ChangeSpec { change: &risky, variables: &variables }),
    ];
    let (summary, groups) = apply_changes(&findings, false, &specs).unwrap();
    assert_eq!(summary.applied, 1);
    assert_eq!(summary.skipped_unsafe, 1);
    assert_eq!(groups.len(), 1);
    assert_eq!(groups[0].edits[0].replacement, "json.loads(document)");

    let (summary, groups) = apply_changes(&findings, true, &specs).unwrap();
    assert_eq!(summary.applied, 2);
    assert_eq!(summary.skipped_unsafe, 0);
    assert_eq!(groups[0].edits.len(), 2);
}

#[test]
fn edits_replace_byte_ranges_from_the_end() {
    let source = "eval(document)\nparse(value)\n";
    let edits = vec![
        Edit { start_byte: 15, end_byte: 27, replacement: "parse(other)".to_owned() },
        Edit { start_byte: 0, end_byte: 14, replacement: "json.loads(document)".to_owned() },
    ];
    assert!(edits_fit_source(source, &edits));
    assert_eq!(
        apply_file_edits("example.py", source, edits).unwrap(),
        "json.loads(document)\nparse(other)\n"
    );
}

#[test]
fn overlapping_edits_are_refused() {
    let source = "abcdef";
    let edits = vec![
        Edit { start_byte: 0, end_byte: 4, replacement: "x".to_owned() },
        Edit { start_byte: 2, end_byte: 6, replacement: "y".to_owned() },
    ];
    assert_eq!(
        apply_file_edits("f.py", source, edits).err().unwrap(),
        "f.py has overlapping changes at bytes 0..4 and 2..6"
    );
}

#[test]
fn edits_count_bytes_of_multibyte_characters() {
    let source = "é = 1";
    let inside = vec![Edit { start_byte: 1, end_byte: 2, replacement: "x".to_owned() }];
    assert!(!edits_fit_source(source, &inside));
    let whole = vec![Edit { start_byte: 0, end_byte: 2, replacement: "e".to_owned() }];
    assert!(edits_fit_source(source, &whole));
    assert_eq!(apply_file_edits("f.py", source, whole).unwrap(), "e = 1");
}

#[test]
fn text_without_dollar_renders_as_itself() {
    let variables = QueryVariables::from_pairs(vec![("x".to_owned(), "1".to_owned())]);
    let captures = MatchCaptures::from_pairs(vec![("y".to_owned(), "2".to_owned())]);
    assert_eq!(
        render_template("json.loads(text) {x}", &variables, &captures).unwrap(),
        "json.loads(text) {x}"
    );
}

#[test]
fn doubled_dollar_renders_one_in_front_of_the_rest() {
    let variables = QueryVariables::new();
    let captures = MatchCaptures::from_pairs(vec![("y".to_owned(), "2".to_owned())]);
    assert_eq!(render_template("$$$y", &variables, &captures).unwrap(), "$2");
    assert!(render_template("$$$z", &variables, &captures).is_err());
}

#[test]
fn doubled_dollars_render_back_to_the_text() {
    let variables = QueryVariables::new();
    let captures = MatchCaptures::new();
    assert_eq!(render_template("price: $$5 $$$$x", &variables, &captures).unwrap(), "price: $5 $$x");
}

#[test]
fn a_later_pair_replaces_an_earlier_one() {
    let variables = QueryVariables::from_pairs(vec![
        ("x".to_owned(), "first".to_owned()),
        ("y".to_owned(), "other".to_owned()),
        ("x".to_owned(), "second".to_owned()),
    ]);
    let captures = MatchCaptures::new();
    assert_eq!(render_template("${x} ${y}", &variables, &captures).unwrap(), "second other");
    assert!(render_template("${z}", &variables, &captures).is_err());
}
