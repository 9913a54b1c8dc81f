use pyastq::query::parser::{parse_query, parse_query_with_variables};
use pyastq::query::variables::QueryVariables;
use pyastq::search::{search_source, SearchContext};

fn context(rule_id: Option<&str>) -> SearchContext<'_> {
    SearchContext {
        rule_id,
        message: None,
        severity: None,
    }
}

fn texts(source: &str, query: &str) -> Vec<String> {
    let query = parse_query(query).unwrap();
    search_source("example.py", source, &query, context(None))
        .unwrap()
        .into_iter()
        .map(|finding| finding.text)
        .collect()
}

#[test]
fn tests_searches_nested_patterns() {
    let source = "class User:\n    def Valid(self):\n        pass\n";
    let query = parse_query("class:* -> function:regex:^[A-Z]").unwrap();
    let findings = search_source("example.py", source, &query, context(None)).unwrap();
    assert_eq!(findings.len(), 1);
    assert_eq!(findings[0].text, "class User:");
}

#[test]
fn search_tests_searches_nested_patterns() {
    let source = "class User:\n    def Valid(self):\n        pass\n";
    let query = parse_query("class:* -> function:regex:^[A-Z]").unwrap();
    let findings = search_source("example.py", source, &query, context(None)).unwrap();
    assert_eq!(findings.len(), 1);
    assert_eq!(findings[0].text, "class User:");
}

const CHAIN_SOURCE: &str = "\
class User:
    log()

    def save(self):
        pass

class Admin:
    def save(self):
        log()
";

#[test]
fn tests_descendant_chains_keep_each_match_inside_the_previous_match() {
    let query = parse_query("class:* -> function:* -> call:log").unwrap();
    let findings = search_source("example.py", CHAIN_SOURCE, &query, context(None)).unwrap();
    assert_eq!(findings.len(), 1);
    assert_eq!(findings[0].text, "class Admin:");
}

#[test]
fn search_tests_descendant_chains_keep_each_match_inside_the_previous_match() {
    let query = parse_query("class:* -> function:* -> call:log").unwrap();
    let findings = search_source("example.py", CHAIN_SOURCE, &query, context(None)).unwrap();
    assert_eq!(findings.len(), 1);
    assert_eq!(findings[0].text, "class Admin:");
}

#[test]
fn tests_honors_inline_suppressions() {
    let source = "eval(value)  # pyastq: ignore no-eval\n";
    let query = parse_query("call:eval").unwrap();
    let findings = search_source("example.py", source, &query, context(Some("no-eval"))).unwrap();
    assert!(findings.is_empty());
}

#[test]
fn search_tests_honors_inline_suppressions() {
    let source = "eval(value)  # past: ignore no-eval\n";
    let query = parse_query("call:eval").unwrap();
    let findings = search_source("example.py", source, &query, context(Some("no-eval"))).unwrap();
    assert!(findings.is_empty());
}

fn check_keyword_and_positional_arguments() {
    let source = "func(1, size=4)\nfunc(4, size=1)\nfunc(\"input.txt\")\n";
    let query = parse_query("call:func AND argument:0:1 AND argument:size:>3").unwrap();
    let findings = search_source("example.py", source, &query, context(None)).unwrap();
    assert_eq!(findings.len(), 1);
    assert_eq!(findings[0].text, "func(1, size=4)");

    let query = parse_query("call:func AND argument:0:\"input.txt\"").unwrap();
    let findings = search_source("example.py", source, &query, context(None)).unwrap();
    assert_eq!(findings.len(), 1);
    assert_eq!(findings[0].text, "func(\"input.txt\")");
}

#[test]
fn tests_matches_keyword_and_positional_arguments() {
    check_keyword_and_positional_arguments();
}

#[test]
fn search_tests_matches_keyword_and_positional_arguments() {
    check_keyword_and_positional_arguments();
}

#[test]
fn captures_undefined_variables_within_each_match() {
    let source = "same(value, value)\ndifferent(first, second)\nstrings(\"x\", \"x\")\n";
    assert_eq!(
        texts(source, "call:* AND argument:0:$x AND argument:1:$x"),
        ["same(value, value)", "strings(\"x\", \"x\")"]
    );
}

#[test]
fn applies_defined_variables_to_query_templates() {
    let source = "eval(value)\nparse(value)\n";
    let variables = QueryVariables::from_pairs(vec![("target".to_owned(), "eval".to_owned())]);
    let query = parse_query_with_variables("call:$target", &variables).unwrap();
    let findings = search_source("example.py", source, &query, context(None)).unwrap();
    assert_eq!(findings.len(), 1);
    assert_eq!(findings[0].text, "eval(value)");
}

const NEGATION_SOURCE: &str = "\
def safe():
    open_file()

def unsafe():
    open_file()
    close_file()
";

fn check_negation_and_ancestor_relationships() {
    let query = parse_query(
        "function:* AND descendant(call:open_file) AND NOT descendant(call:close_file)",
    )
    .unwrap();
    let findings = search_source("example.py", NEGATION_SOURCE, &query, context(None)).unwrap();
    assert_eq!(findings.len(), 1);
    assert_eq!(findings[0].text, "def safe():");

    let query = parse_query("call:open_file AND ancestor(function:safe)").unwrap();
    let findings = search_source("example.py", NEGATION_SOURCE, &query, context(None)).unwrap();
    assert_eq!(findings.len(), 1);
}

#[test]
fn tests_supports_negation_and_ancestor_relationships() {
    check_negation_and_ancestor_relationships();
}

#[test]
fn search_tests_supports_negation_and_ancestor_relationships() {
    check_negation_and_ancestor_relationships();
}

fn check_file_and_previous_line_suppressions(prefix: &str) {
    let query = parse_query("call:eval").unwrap();
    let file_suppressed = format!("# {prefix}: ignore-file no-eval\neval(first)\neval(second)\n");
    assert!(search_source("example.py", &file_suppressed, &query, context(Some("no-eval")))
        .unwrap()
        .is_empty());

    let line_suppressed = format!("# {prefix}: ignore no-eval\neval(value)\n");
    assert!(search_source("example.py", &line_suppressed, &query, context(Some("no-eval")))
        .unwrap()
        .is_empty());
}

#[test]
fn tests_honors_file_and_previous_line_suppressions() {
    check_file_and_previous_line_suppressions("pyastq");
}

#[test]
fn search_tests_honors_file_and_previous_line_suppressions() {
    check_file_and_previous_line_suppressions("past");
}

fn check_imports_and_value_predicates() {
    let source = "import requests\n\nclass UserService:\n    pass\n";
    assert_eq!(texts(source, "import:requests").len(), 1);
    assert_eq!(texts(source, "class:ends_with:Service").len(), 1);
}

#[test]
fn tests_matches_imports_and_value_predicates() {
    check_imports_and_value_predicates();
}

#[test]
fn search_tests_matches_imports_and_value_predicates() {
    check_imports_and_value_predicates();
}

#[test]
fn resolves_import_aliases_and_from_imports_for_calls() {
    let source = "\
import requests as r
from requests import get
from requests import post as send

r.get(first)
get(second)
send(third)
";
    assert_eq!(
        texts(source, "call:requests.get"),
        ["r.get(first)", "get(second)"]
    );
    let post = texts(source, "call:requests.post");
    assert_eq!(post.len(), 1);
    assert_eq!(post[0], "send(third)");
}

#[test]
fn imported_names_are_not_resolved_when_shadowed() {
    let source = "\
import requests
import requests as r

requests.get(before)
r.get(before_alias)

def fetch(requests, r):
    requests.get(parameter)
    r.get(alias_parameter)

requests = client
r = client
requests.get(after)
r.get(after_alias)
";
    assert_eq!(
        texts(source, "call:requests.get"),
        ["requests.get(before)", "r.get(before_alias)"]
    );
}

#[test]
fn function_local_bindings_shadow_imports_for_the_whole_scope() {
    let source = "\
import requests

def fetch():
    requests.get(before_assignment)
    requests = client
";
    assert!(texts(source, "call:requests.get").is_empty());
}

#[test]
fn resolves_function_local_imports_and_skips_class_namespaces_for_methods() {
    let source = "\
import requests as module_requests

def fetch():
    from requests import get as fetch_url
    fetch_url(local)

class Client:
    import other_requests as module_requests

    def fetch(self):
        module_requests.get(module)
";
    assert_eq!(
        texts(source, "call:requests.get"),
        ["fetch_url(local)", "module_requests.get(module)"]
    );
    assert!(texts(source, "call:other_requests.get").is_empty());
}

#[test]
fn comprehension_targets_do_not_leak_and_global_declarations_use_module_imports() {
    let source = "\
import requests

[requests.get(item) for requests in clients]
requests.get(after_comprehension)

def fetch():
    global requests
    requests.get(global_name)
";
    assert_eq!(
        texts(source, "call:requests.get"),
        [
            "requests.get(after_comprehension)",
            "requests.get(global_name)"
        ]
    );
}

#[test]
fn literal_call_queries_still_work_without_known_imports() {
    let source = "\
requests.get(url)

def fetch(requests):
    requests.get(other)
";
    assert_eq!(texts(source, "call:requests.get").len(), 2);
}

#[test]
fn rejects_invalid_python_with_its_location_and_source_line() {
    let query = parse_query("call:eval").unwrap();
    let error = search_source("invalid.py", "def broken(:\n    pass\n", &query, context(None))
        .err()
        .unwrap();
    assert_eq!(error, "invalid.py:1:12: invalid Python syntax: def broken(:");
}

#[test]
fn invalid_python_cannot_be_hidden_by_a_file_suppression() {
    let query = parse_query("call:eval").unwrap();
    let error = search_source(
        "invalid.py",
        "# pyastq: ignore-file no-eval\ndef broken(:\n",
        &query,
        context(Some("no-eval")),
    )
    .err()
    .unwrap();
    assert!(error.starts_with("invalid.py:2:"));
}

#[test]
fn compares_numbers_by_value() {
    let source = "f(1_000)\nf(2.5)\nf(1e3)\nf(-4)\nf(x)\n";
    assert_eq!(texts(source, "call:f AND argument:0:>=1000"), ["f(1_000)", "f(1e3)"]);
    assert_eq!(texts(source, "call:f AND argument:0:<3"), ["f(2.5)", "f(-4)"]);
    assert_eq!(
        texts(source, "call:f AND argument:0:>2.4"),
        ["f(1_000)", "f(2.5)", "f(1e3)"]
    );
    assert_eq!(texts(source, "call:f AND argument:0:<=-4.0"), ["f(-4)"]);
    assert_eq!(texts(source, "call:f AND argument:0:>inf").len(), 0);
}

#[test]
fn numbers_compare_as_the_doubles_they_round_to() {
    let source = "f(9007199254740993)\nf(0.30000000000000001)\nf(1e400)\nf(1e-400)\nf(2.5e-324)\nf(2.4e-324)\n";
    assert_eq!(texts(source, "call:f AND argument:0:>9007199254740992"), ["f(1e400)"]);
    assert_eq!(texts(source, "call:f AND argument:0:>=9007199254740992"), ["f(9007199254740993)", "f(1e400)"]);
    assert_eq!(texts(source, "call:f AND argument:0:>0.3"), ["f(9007199254740993)", "f(1e400)"]);
    assert_eq!(texts(source, "call:f AND argument:0:<=0.3"), ["f(0.30000000000000001)", "f(1e-400)", "f(2.5e-324)", "f(2.4e-324)"]);
    assert_eq!(texts(source, "call:f AND argument:0:>1e399").len(), 0);
    assert_eq!(texts(source, "call:f AND argument:0:>=inf"), ["f(1e400)"]);
    assert_eq!(texts(source, "call:f AND argument:0:>0"), ["f(9007199254740993)", "f(0.30000000000000001)", "f(1e400)", "f(2.5e-324)"]);
    assert_eq!(texts(source, "call:f AND argument:0:<=0"), ["f(1e-400)", "f(2.4e-324)"]);
    assert_eq!(texts(source, "call:f AND argument:0:>=5e-324"), ["f(9007199254740993)", "f(0.30000000000000001)", "f(1e400)", "f(2.5e-324)"]);
    assert_eq!(texts(source, "call:f AND argument:0:<1.7976931348623157e308"), ["f(9007199254740993)", "f(0.30000000000000001)", "f(1e-400)", "f(2.5e-324)", "f(2.4e-324)"]);
}

#[test]
fn numbers_with_very_large_exponents_still_compare() {
    let source = "f(1e99999999999999999999)\nf(1e-99999999999999999999)\nf(2)\n";
    assert_eq!(
        texts(source, "call:f AND argument:0:>1e300"),
        ["f(1e99999999999999999999)"]
    );
    assert_eq!(
        texts(source, "call:f AND argument:0:<1e-300"),
        ["f(1e-99999999999999999999)"]
    );
}

#[test]
fn exact_values_match_string_contents_and_keywords() {
    let source = "open('data.txt', mode=\"r\")\nopen(\"\"\"other\"\"\")\n";
    assert_eq!(
        texts(source, "call:open AND argument:0:data.txt AND argument:mode:r"),
        ["open('data.txt', mode=\"r\")"]
    );
    assert_eq!(texts(source, "call:open AND argument:*:other"), ["open(\"\"\"other\"\"\")"]);
    assert_eq!(texts(source, "call:open AND argument:1:*").len(), 0);
}

#[test]
fn child_relationships_look_one_level_down() {
    let source = "class A:\n    def f(self):\n        pass\n";
    assert_eq!(texts(source, "class:* AND child(function:f)").len(), 0);
    assert_eq!(texts(source, "class:* AND descendant(function:f)"), ["class A:"]);
    assert_eq!(texts(source, "function:f AND inside(class:A)"), ["def f(self):"]);
    assert_eq!(
        texts(source, "class:* AND (child(function:f) OR descendant(function:f))"),
        ["class A:"]
    );
}

#[test]
fn findings_record_their_location_and_bytes() {
    let query = parse_query("call:eval").unwrap();
    let findings = search_source("example.py", "x = 1\n  eval(y)\n", &query, context(Some("r"))).unwrap();
    assert_eq!(findings.len(), 1);
    assert_eq!((findings[0].line, findings[0].column), (2, 3));
    assert_eq!((findings[0].start_byte, findings[0].end_byte), (8, 15));
    assert_eq!(findings[0].rule_id.as_deref(), Some("r"));
}

const NESTED_SOURCE: &str = "\
def load(text):
    return eval(text)

def show(text):
    print(text)
";

#[test]
fn arrow_and_descendant_condition_find_the_same_nodes() {
    let arrow = texts(NESTED_SOURCE, "function:* -> call:eval");
    let spelled = texts(NESTED_SOURCE, "function:* AND descendant(call:eval)");
    assert_eq!(arrow, vec!["def load(text):".to_owned()]);
    assert_eq!(arrow, spelled);
}

#[test]
fn bare_condition_pattern_means_descendant() {
    let bare = texts(NESTED_SOURCE, "function:* AND call:print");
    let spelled = texts(NESTED_SOURCE, "function:* AND descendant(call:print)");
    assert_eq!(bare, vec!["def show(text):".to_owned()]);
    assert_eq!(bare, spelled);
}

#[test]
fn inside_means_ancestor() {
    let inside = texts(NESTED_SOURCE, "call:* AND inside(function:load)");
    let ancestor = texts(NESTED_SOURCE, "call:* AND ancestor(function:load)");
    assert_eq!(inside, vec!["eval(text)".to_owned()]);
    assert_eq!(inside, ancestor);
}

#[test]
fn a_comment_on_the_line_above_suppresses_only_its_rule() {
    let source = "# pyastq: ignore no-eval\neval(value)\n";
    let query = parse_query("call:eval").unwrap();
    let same_rule = search_source("example.py", source, &query, context(Some("no-eval"))).unwrap();
    assert!(same_rule.is_empty());
    let other_rule = search_source("example.py", source, &query, context(Some("other"))).unwrap();
    assert_eq!(other_rule.len(), 1);
    assert_eq!(other_rule[0].line, 2);
}

#[test]
fn a_file_comment_without_ids_suppresses_every_rule() {
    let source = "eval(value)\n# pyastq: ignore-file\nexec(code)\n";
    let query = parse_query("call:*").unwrap();
    let findings = search_source("example.py", source, &query, context(Some("anything"))).unwrap();
    assert!(findings.is_empty());
    let without_rule = search_source("example.py", source, &query, context(None)).unwrap();
    assert_eq!(without_rule.len(), 2);
}

#[test]
fn several_rule_ids_may_follow_one_directive() {
    let query = parse_query("call:eval").unwrap();
    for directive in ["# pyastq: ignore no-print,no-eval", "# pyastq: ignore no-print no-eval", "# pyastq: ignore  no-print, no-eval"] {
        let source = format!("eval(value)  {directive}\n");
        assert!(search_source("example.py", &source, &query, context(Some("no-eval"))).unwrap().is_empty());
        assert_eq!(search_source("example.py", &source, &query, context(Some("other"))).unwrap().len(), 1);
    }
}

#[test]
fn value_predicates_match_as_documented() {
    let source = "class User:\n    pass\n\nclass SuperUser:\n    pass\n\nclass test_case:\n    pass\n";
    assert_eq!(texts(source, "class:User"), ["class User:"]);
    assert_eq!(texts(source, "class:exact:User"), ["class User:"]);
    assert_eq!(texts(source, "class:contains:User"), ["class User:", "class SuperUser:"]);
    assert_eq!(texts(source, "class:starts_with:test_"), ["class test_case:"]);
    assert_eq!(texts(source, "class:regex:^[A-Z]"), ["class User:", "class SuperUser:"]);
    assert_eq!(texts(source, "class:*").len(), 3);
}

#[test]
fn suppressions_name_rules_in_a_list() {
    let query = parse_query("call:eval").unwrap();
    let listed = search_source("example.py", "x = eval(v)  # pyastq: ignore no-print, no-eval\n", &query, context(Some("no-eval"))).unwrap();
    assert!(listed.is_empty());
    let other = search_source("example.py", "x = eval(v)  # pyastq: ignore no-print\n", &query, context(Some("no-eval"))).unwrap();
    assert_eq!(other.len(), 1);
    let bare = search_source("example.py", "x = eval(v)  # pyastq: ignore\n", &query, context(Some("any"))).unwrap();
    assert!(bare.is_empty());
}

#[test]
fn arrow_and_descendant_queries_find_the_same() {
    let source = "class User:\n    def Valid(self):\n        pass\n\nclass Other:\n    pass\n";
    let arrow = texts(source, "class:* -> function:regex:^[A-Z]");
    let written_out = texts(source, "class:* AND descendant function:regex:^[A-Z]");
    assert_eq!(arrow, ["class User:"]);
    assert_eq!(arrow, written_out);
}
