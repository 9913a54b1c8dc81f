use pyastq::query::lexer::{tokenize, Token};
use pyastq::query::parser::{is_variable_name, parse_query, parse_query_with_variables};
use pyastq::query::variables::QueryVariables;

#[test]
fn tokenizes_relationships_and_quoted_values() {
    assert_eq!(
        tokenize("class:* -> function:regex:\"^[A-Z].*\"").unwrap(),
        vec![
            Token::Atom("class:*".to_owned()),
            Token::Arrow,
            Token::Atom("function:regex:^[A-Z].*".to_owned()),
        ]
    );
}

#[test]
fn parses_nested_regex_query() {
    parse_query("class:* -> function:regex:^[A-Z]").unwrap();
}

#[test]
fn parses_boolean_relationships() {
    parse_query("function:* AND descendant(call:open) AND NOT descendant(call:close)").unwrap();
}

#[test]
fn rejects_bad_regex_and_argument_keys() {
    assert!(parse_query("function:regex:[").is_err());
    assert!(parse_query("call:f AND argument:1bad:4").is_err());
}

#[test]
fn parses_defined_and_capture_variables() {
    let variables =
        QueryVariables::from_pairs(vec![("target".to_owned(), "regex:^safe_".to_owned())]);
    parse_query_with_variables("call:$target", &variables).unwrap();
    parse_query("call:* AND argument:0:$x AND argument:1:${x}").unwrap();
    assert!(parse_query("call:$1bad").is_err());
}

#[test]
fn rejects_undefined_variables_inside_predicates() {
    assert_eq!(
        parse_query("call:contains:$target").err().unwrap(),
        "undefined variable `$target` cannot be used in contains"
    );
}

#[test]
fn variable_names_start_with_a_letter_or_underscore() {
    assert!(is_variable_name("target"));
    assert!(is_variable_name("_x1"));
    assert!(!is_variable_name("1bad"));
    assert!(!is_variable_name(""));
    assert!(!is_variable_name("a-b"));
}

#[test]
fn tokenizes_boolean_words_and_parentheses() {
    assert_eq!(
        tokenize("NOT (call:a OR call:b)").unwrap(),
        vec![
            Token::Not,
            Token::LeftParen,
            Token::Atom("call:a".to_owned()),
            Token::Or,
            Token::Atom("call:b".to_owned()),
            Token::RightParen,
        ]
    );
}

#[test]
fn an_open_quote_at_the_end_is_an_error() {
    assert_eq!(tokenize("call:\"eval").err().unwrap(), "unterminated quoted value");
    assert_eq!(tokenize("call:'x\\'").err().unwrap(), "unterminated quoted value");
    assert!(tokenize("call:'x\\''").is_ok());
}

#[test]
fn keywords_never_stand_as_atoms() {
    let tokens = tokenize("call:f AND child inside OR NOT descendant").unwrap();
    for token in tokens {
        if let Token::Atom(word) = token {
            assert!(!word.is_empty());
            assert!(!["AND", "OR", "NOT", "child", "descendant", "ancestor", "inside"].contains(&word.as_str()));
        }
    }
}
