use pyastq::find::{matching_lines, matching_texts};
use pyastq::query_parser::{value_match, FieldPattern, FindPattern, ValuePattern};
use pyastq::search::parse_source;

fn class_pattern(value: ValuePattern) -> FindPattern {
    FindPattern {
        node_kind: "class_definition".to_owned(),
        fields: vec![FieldPattern {
            field_name: "name".to_owned(),
            node_kind: Some("identifier".to_owned()),
            value,
        }],
    }
}

fn matching_text(source: &str, pattern: FindPattern) -> Vec<String> {
    let tree = parse_source("example.py", source).unwrap();
    matching_texts(&tree, &pattern)
}

#[test]
fn finds_exact_direct_calls() {
    let source = "eval('x')\nevaluate('x')\nmodule.eval('x')\n";
    assert_eq!(
        matching_text(source, FindPattern::parse("call:eval").unwrap()),
        vec!["eval('x')"]
    );
}

#[test]
fn finds_exact_class_names() {
    let source = "class User:\n    pass\n\nclass SuperUser:\n    pass\n";
    assert_eq!(
        matching_text(source, FindPattern::parse("class:User").unwrap()),
        vec!["class User:\n    pass"]
    );
}

#[test]
fn finds_class_names_that_start_with_value() {
    let source =
        "class User:\n    pass\n\nclass SuperUser:\n    pass\n\nclass Supervisor:\n    pass\n";
    let pattern = class_pattern(ValuePattern::StartsWith("Super".to_owned()));
    assert_eq!(
        matching_text(source, pattern),
        vec!["class SuperUser:\n    pass", "class Supervisor:\n    pass"]
    );
}

#[test]
fn finds_class_names_that_end_with_value() {
    let source =
        "class User:\n    pass\n\nclass SuperUser:\n    pass\n\nclass UserProfile:\n    pass\n";
    let pattern = class_pattern(ValuePattern::EndsWith("User".to_owned()));
    assert_eq!(
        matching_text(source, pattern),
        vec!["class User:\n    pass", "class SuperUser:\n    pass"]
    );
}

#[test]
fn parses_call_pattern() {
    assert_eq!(
        FindPattern::parse("call:eval"),
        Ok(FindPattern {
            node_kind: "call".to_owned(),
            fields: vec![FieldPattern {
                field_name: "function".to_owned(),
                node_kind: Some("identifier".to_owned()),
                value: ValuePattern::Exact("eval".to_owned()),
            }],
        })
    );
}

#[test]
fn parses_class_pattern() {
    let pattern = FindPattern::parse("class:User").unwrap();
    assert_eq!(pattern.node_kind, "class_definition");
    assert_eq!(pattern.fields[0].field_name, "name");
    assert_eq!(pattern.fields[0].value, ValuePattern::Exact("User".to_owned()));
}

#[test]
fn rejects_invalid_patterns() {
    assert!(FindPattern::parse("eval").is_err());
    assert!(FindPattern::parse("import:os").is_err());
    assert!(FindPattern::parse("call:").is_err());
}

#[test]
fn matches_values() {
    assert!(value_match(&ValuePattern::Exact("User".to_owned()), "User"));
    assert!(value_match(&ValuePattern::StartsWith("Super".to_owned()), "SuperUser"));
    assert!(value_match(&ValuePattern::EndsWith("User".to_owned()), "SuperUser"));
    assert!(!value_match(&ValuePattern::Exact("User".to_owned()), "SuperUser"));
}

#[test]
fn reports_each_match_with_its_position_and_first_line() {
    let source = "x = 1\nclass User:\n    pass\n\nclass Other:\n    pass\n";
    let tree = parse_source("models.py", source).unwrap();
    let pattern = FindPattern::parse("class:User").unwrap();
    assert_eq!(matching_lines("models.py", &tree, &pattern), vec!["models.py:2:1: class User:"]);
}
