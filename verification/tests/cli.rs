use pyastq::cli::{
    collect_variables, exit_code, find_cache_key, parse_num_workers, parse_variable_assignment,
    validate_find_change_args, EXIT_ERROR, EXIT_FINDINGS, EXIT_OK,
};
use pyastq::query::variables::QueryVariables;

#[test]
fn num_workers_must_be_positive() {
    assert_eq!(
        parse_num_workers("0").err().unwrap(),
        "num-workers must be a positive integer"
    );
    assert_eq!(parse_num_workers("4").unwrap(), 4);
}

#[test]
fn variable_assignments_require_unique_valid_names() {
    assert_eq!(
        parse_variable_assignment("1bad=value").err().unwrap(),
        "invalid variable name `1bad`"
    );
    assert_eq!(
        collect_variables(vec![
            ("target".to_owned(), "eval".to_owned()),
            ("target".to_owned(), "print".to_owned()),
        ])
        .err()
        .unwrap(),
        "duplicate variable `target`"
    );
    assert_eq!(
        validate_find_change_args(Some(&"value".to_owned()), None, false).err().unwrap(),
        "--replace requires --change-label"
    );
}

#[test]
fn num_workers_rejects_text_and_accepts_a_plus_sign() {
    assert!(parse_num_workers("many").is_err());
    assert!(parse_num_workers("-1").is_err());
    assert_eq!(parse_num_workers("+2").unwrap(), 2);
}

#[test]
fn variable_assignments_split_at_the_first_equals_sign() {
    assert_eq!(
        parse_variable_assignment("expr=a=b").unwrap(),
        ("expr".to_owned(), "a=b".to_owned())
    );
    assert_eq!(
        parse_variable_assignment("novalue").err().unwrap(),
        "variables must use KEY=VALUE"
    );
}

#[test]
fn collected_variables_keep_every_assignment() {
    let variables = collect_variables(vec![
        ("target".to_owned(), "eval".to_owned()),
        ("module".to_owned(), "json".to_owned()),
    ])
    .unwrap();
    assert_eq!(variables.len(), 2);
    assert_eq!(variables.get(&['t', 'a', 'r', 'g', 'e', 't']).unwrap(), "eval");
}

#[test]
fn change_arguments_go_together() {
    let text = "x".to_owned();
    assert!(validate_find_change_args(Some(&text), Some(&text), true).is_ok());
    assert!(validate_find_change_args(None, None, false).is_ok());
    assert_eq!(
        validate_find_change_args(None, Some(&text), false).err().unwrap(),
        "--change-label requires --replace"
    );
    assert_eq!(
        validate_find_change_args(None, None, true).err().unwrap(),
        "--unsafe-change requires --replace"
    );
}

#[test]
fn find_cache_keys_hold_the_query_and_the_variables_sorted_by_name() {
    let variables = QueryVariables::from_pairs(vec![
        ("module".to_owned(), "json".to_owned()),
        ("fn".to_owned(), "loads".to_owned()),
    ]);
    assert_eq!(
        find_cache_key("call:$module.$fn", &variables),
        "find|call:$module.$fn|vars={\"fn\": \"loads\", \"module\": \"json\"}"
    );
    assert_eq!(find_cache_key("call:eval", &QueryVariables::new()), "find|call:eval|vars={}");
}

#[test]
fn findings_fail_a_run_only_where_they_count() {
    assert_eq!(exit_code(false, true), EXIT_OK);
    assert_eq!(exit_code(true, false), EXIT_OK);
    assert_eq!(exit_code(true, true), EXIT_FINDINGS);
    assert_eq!(EXIT_ERROR, 2);
}
