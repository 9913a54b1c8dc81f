use pyastq::rules::{
    default_severity, discover_step, merge_rule_files, rule_result_key, test_rules, validate_rules, ConfigCandidate,
    DiscoverStep, Rule, RuleFile,
};

fn rule(id: &str, query: &str, message: &str) -> Rule {
    Rule {
        id: id.to_owned(),
        query: query.to_owned(),
        message: message.to_owned(),
        severity: default_severity(),
        includes: Vec::new(),
        exclude: Vec::new(),
        valid: Vec::new(),
        invalid: Vec::new(),
    }
}

#[test]
fn validates_rule_examples() {
    let mut no_eval = rule("no-eval", "call:eval", "Avoid eval");
    no_eval.valid = vec!["parse(value)".to_owned()];
    no_eval.invalid = vec!["eval(value)".to_owned()];
    let rules = RuleFile { exclude: Vec::new(), rules: vec![no_eval] };
    assert!(test_rules(&rules).unwrap().is_empty());
}

#[test]
fn reports_examples_that_go_the_wrong_way() {
    let mut no_eval = rule("no-eval", "call:eval", "Avoid eval");
    no_eval.valid = vec!["parse(value)".to_owned(), "eval(value)".to_owned()];
    no_eval.invalid = vec!["print(value)".to_owned()];
    let rules = RuleFile { exclude: Vec::new(), rules: vec![no_eval] };
    assert_eq!(
        test_rules(&rules).unwrap(),
        vec![
            "no-eval valid example 2 unexpectedly matched".to_owned(),
            "no-eval invalid example 1 did not match".to_owned(),
        ]
    );
}

#[test]
fn rejects_empty_duplicate_and_badly_graded_rules() {
    let empty = RuleFile { exclude: Vec::new(), rules: Vec::new() };
    assert_eq!(
        validate_rules(&empty).err().unwrap(),
        "rule configuration must define at least one rule"
    );
    let blank = RuleFile { exclude: Vec::new(), rules: vec![rule(" ", "call:eval", "m")] };
    assert_eq!(validate_rules(&blank).err().unwrap(), "rule IDs cannot be empty");
    let twice = RuleFile {
        exclude: Vec::new(),
        rules: vec![rule("no-eval", "call:eval", "m"), rule("no-eval", "call:exec", "m")],
    };
    assert_eq!(validate_rules(&twice).err().unwrap(), "duplicate rule ID `no-eval`");
    let mut loud = rule("loud", "call:eval", "m");
    loud.severity = "fatal".to_owned();
    let graded = RuleFile { exclude: Vec::new(), rules: vec![loud] };
    assert_eq!(
        validate_rules(&graded).err().unwrap(),
        "rule `loud` has invalid severity `fatal`; expected info, warning, or error"
    );
    let fine = RuleFile { exclude: Vec::new(), rules: vec![rule("ok", "call:eval", "m")] };
    assert!(validate_rules(&fine).is_ok());
}

#[test]
fn rejects_duplicate_ids_across_external_and_inline_rules() {
    let inline = RuleFile { exclude: Vec::new(), rules: vec![rule("no-eval", "call:eval", "Avoid eval again")] };
    let external = RuleFile { exclude: Vec::new(), rules: vec![rule("no-eval", "call:eval", "Avoid eval")] };
    let merged = merge_rule_files(inline, external);
    assert!(validate_rules(&merged).err().unwrap().contains("duplicate rule ID `no-eval`"));
}

#[test]
fn loads_relative_rules_file_and_merges_inline_rules() {
    let inline = RuleFile { exclude: vec!["generated/**".to_owned()], rules: vec![rule("no-print", "call:print", "Avoid print")] };
    let external = RuleFile { exclude: vec!["vendor/**".to_owned()], rules: vec![rule("no-eval", "call:eval", "Avoid eval")] };
    let rules = merge_rule_files(inline, external);
    assert_eq!(rules.exclude, ["generated/**", "vendor/**"]);
    assert_eq!(rules.rules.len(), 2);
    assert_eq!(rules.rules[0].id, "no-eval");
    assert_eq!(rules.rules[1].id, "no-print");
}

#[test]
fn rules_whose_query_does_not_parse_are_named() {
    let rules = RuleFile { exclude: Vec::new(), rules: vec![rule("bad", "call:regex:[", "m")] };
    assert!(test_rules(&rules).err().unwrap().starts_with("rule `bad`: "));
}

#[test]
fn result_keys_hold_everything_that_decides_a_result() {
    let r = rule("no-eval", "call:eval", "Avoid eval");
    let key = rule_result_key("src", &r, &vec!["a/**".to_owned()], &Vec::new());
    assert_eq!(
        key,
        "resolver-v1|check|no-eval|call:eval|Avoid eval|warning|root=src|include=[\"a/**\"]|rule_include=[]|exclude=[]|rule_exclude=[]"
    );
}

#[test]
fn the_nearest_configuration_table_wins() {
    assert!(matches!(discover_step(ConfigCandidate::Table, true), DiscoverStep::Use));
    assert!(matches!(discover_step(ConfigCandidate::Table, false), DiscoverStep::Use));
    assert!(matches!(discover_step(ConfigCandidate::NoTable, true), DiscoverStep::Climb));
    assert!(matches!(discover_step(ConfigCandidate::NoFile, true), DiscoverStep::Climb));
    assert!(matches!(discover_step(ConfigCandidate::NoFile, false), DiscoverStep::NotFound));
}

#[test]
fn an_example_with_a_syntax_error_fails_the_test_run() {
    let mut no_eval = rule("no-eval", "call:eval", "Avoid eval");
    no_eval.valid = vec!["parse(value)".to_owned()];
    no_eval.invalid = vec!["def broken(:".to_owned()];
    let rules = RuleFile { exclude: Vec::new(), rules: vec![no_eval] };
    assert_eq!(
        test_rules(&rules).err().unwrap(),
        "<rule-test>.py:1:12: invalid Python syntax: def broken(:"
    );
}
