use pyastq::cache::{content_hash, SearchCache};
use pyastq::query::parser::parse_query;
use pyastq::rules::{default_severity, Rule, RuleFile};
use pyastq::runs::{global_excludes, QueryRun, RuleRun};
use pyastq::search::{cache_enabled, SearchContext, SearchOptions};

fn rule(id: &str, query: &str, includes: &[&str]) -> Rule {
    Rule {
        id: id.to_owned(),
        query: query.to_owned(),
        message: format!("message of {id}"),
        severity: default_severity(),
        includes: includes.iter().map(|s| s.to_string()).collect(),
        exclude: Vec::new(),
        valid: Vec::new(),
        invalid: Vec::new(),
    }
}

fn rule_file(rules: Vec<Rule>) -> RuleFile {
    RuleFile { exclude: vec!["generated/**".to_owned()], rules }
}

#[test]
fn the_cache_is_used_only_without_limits_or_changed_files() {
    let mut options = SearchOptions::new();
    assert!(cache_enabled(&options));
    options.max_matches = Some(3);
    assert!(!cache_enabled(&options));
    options.max_matches = None;
    options.changed_only = true;
    assert!(!cache_enabled(&options));
    options.changed_only = false;
    options.use_cache = false;
    assert!(!cache_enabled(&options));
}

#[test]
fn global_exclusions_are_the_options_then_the_rule_file() {
    let mut options = SearchOptions::new();
    options.excludes = vec!["build/**".to_owned()];
    let rules = rule_file(vec![rule("no-eval", "call:eval", &[])]);
    assert_eq!(global_excludes(&options, &rules), ["build/**", "generated/**"]);
}

#[test]
fn a_rule_whose_query_does_not_parse_stops_the_run() {
    let rules = rule_file(vec![rule("ok", "call:eval", &[]), rule("bad", "call:eval AND", &[])]);
    let error = RuleRun::new("/work", &rules, &SearchOptions::new()).err().unwrap();
    assert!(error.starts_with("rule `bad`: "));
}

#[test]
fn a_rule_exclusion_holds_for_that_rule_only() {
    let options = SearchOptions::new();
    let mut quiet = rule("no-print", "call:print", &[]);
    quiet.exclude = vec!["scripts/**".to_owned()];
    let rules = rule_file(vec![quiet, rule("no-eval", "call:eval", &[])]);
    let mut run = RuleRun::new("/work", &rules, &options).unwrap();
    let collection = run.collection_filter(&options, None).unwrap();
    assert!(collection.accepts("scripts/tool.py"));
    run.build_rule_filters(&options).unwrap();
    assert!(!run.filters[0].accepts("scripts/tool.py"));
    assert!(run.filters[1].accepts("scripts/tool.py"));
    assert!(!run.filters[1].accepts("generated/tool.py"));
    run.add_file("/work/scripts/tool.py", "scripts/tool.py", "print(eval(x))\n").unwrap();
    let (findings, _) = run.finish(None);
    assert_eq!(findings.len(), 1);
    assert_eq!(findings[0].rule_id.as_deref(), Some("no-eval"));
}

#[test]
fn rules_see_only_the_files_they_cover_and_findings_come_sorted() {
    let options = SearchOptions::new();
    let rules = rule_file(vec![
        rule("no-print", "call:print", &[]),
        rule("no-eval", "call:eval", &["src/**"]),
    ]);
    let mut run = RuleRun::new("/work", &rules, &options).unwrap();
    let collection = run.collection_filter(&options, None).unwrap();
    assert!(collection.accepts("src/app.py"));
    assert!(!collection.accepts("generated/app.py"));
    run.build_rule_filters(&options).unwrap();
    run.add_file("/work/tools/run.py", "tools/run.py", "eval(x)\nprint(x)\n").unwrap();
    run.add_file("/work/src/app.py", "src/app.py", "print(1)\neval(y)\n").unwrap();
    let (findings, cache) = run.finish(None);
    assert!(cache.is_none());
    let lines: Vec<(String, usize, Option<String>)> =
        findings.iter().map(|f| (f.path.clone(), f.line, f.rule_id.clone())).collect();
    assert_eq!(
        lines,
        vec![
            ("/work/src/app.py".to_owned(), 1, Some("no-print".to_owned())),
            ("/work/src/app.py".to_owned(), 2, Some("no-eval".to_owned())),
            ("/work/tools/run.py".to_owned(), 2, Some("no-print".to_owned())),
        ]
    );
}

#[test]
fn cached_results_are_reused_and_kept_only_for_covered_files() {
    let options = SearchOptions::new();
    let rules = rule_file(vec![rule("no-eval", "call:eval", &[])]);
    let source = "eval(x)\n";
    let mut cache = SearchCache::new("/work/.pyastq-cache.json".to_owned(), "/work".to_owned());
    let mut first = RuleRun::new("/work", &rules, &options).unwrap();
    first.build_rule_filters(&options).unwrap();
    first.cache = Some(cache);
    first.add_file("/work/a.py", "a.py", source).unwrap();
    let (findings, stored) = first.finish(None);
    assert_eq!(findings.len(), 1);
    cache = stored.unwrap();
    let key = first_result_key(&rules, &options);
    let hash = content_hash(source.as_bytes());
    assert_eq!(cache.findings("a.py", &hash, &key).unwrap().len(), 1);

    let mut second = RuleRun::new("/work", &rules, &options).unwrap();
    second.build_rule_filters(&options).unwrap();
    second.cache = Some(cache);
    second.add_file("/work/a.py", "a.py", source).unwrap();
    let (findings, stored) = second.finish(Some(5));
    assert_eq!(findings.len(), 1);
    assert_eq!(findings[0].text, "eval(x)");
    assert_eq!(stored.unwrap().entries().len(), 1);
}

fn first_result_key(rules: &RuleFile, options: &SearchOptions) -> String {
    let run = RuleRun::new("/work", rules, options).unwrap();
    run.result_keys[0].clone()
}

#[test]
fn files_not_seen_again_lose_their_results() {
    let options = SearchOptions::new();
    let rules = rule_file(vec![rule("no-eval", "call:eval", &[])]);
    let mut first = RuleRun::new("/work", &rules, &options).unwrap();
    first.build_rule_filters(&options).unwrap();
    first.cache = Some(SearchCache::new("/work/c.json".to_owned(), "/work".to_owned()));
    first.add_file("/work/a.py", "a.py", "eval(x)\n").unwrap();
    first.add_file("/work/b.py", "b.py", "eval(y)\n").unwrap();
    let (_, stored) = first.finish(None);
    assert_eq!(stored.as_ref().unwrap().entries().len(), 2);
    let mut second = RuleRun::new("/work", &rules, &options).unwrap();
    second.build_rule_filters(&options).unwrap();
    second.cache = stored;
    second.add_file("/work/a.py", "a.py", "eval(x)\n").unwrap();
    let (_, stored) = second.finish(None);
    let cache = stored.unwrap();
    assert_eq!(cache.entries().len(), 1);
    assert_eq!(cache.entries()[0].0, "a.py");
}

#[test]
fn the_limit_cuts_the_sorted_findings() {
    let options = SearchOptions::new();
    let rules = rule_file(vec![rule("no-eval", "call:eval", &[])]);
    let mut run = RuleRun::new("/work", &rules, &options).unwrap();
    run.build_rule_filters(&options).unwrap();
    run.add_file("/work/b.py", "b.py", "eval(1)\neval(2)\n").unwrap();
    run.add_file("/work/a.py", "a.py", "eval(3)\n").unwrap();
    let (findings, _) = run.finish(Some(2));
    let texts: Vec<&str> = findings.iter().map(|f| f.text.as_str()).collect();
    assert_eq!(texts, ["eval(3)", "eval(1)"]);
}

fn no_rule() -> SearchContext<'static> {
    SearchContext { rule_id: None, message: None, severity: None }
}

#[test]
fn a_query_run_stops_once_it_has_enough_findings() {
    let mut options = SearchOptions::new();
    options.max_matches = Some(2);
    let query = parse_query("call:eval").unwrap();
    let mut run = QueryRun::new(&options, None);
    assert!(run.add_file("a.py", "eval(1)\n", &query, &no_rule()).unwrap());
    assert!(!run.add_file("b.py", "eval(2)\neval(3)\n", &query, &no_rule()).unwrap());
    let (findings, cache) = run.finish();
    assert!(cache.is_none());
    let texts: Vec<&str> = findings.iter().map(|f| f.text.as_str()).collect();
    assert_eq!(texts, ["eval(1)", "eval(2)"]);
}

#[test]
fn a_query_run_stores_and_reuses_its_results() {
    let mut options = SearchOptions::new();
    options.cache_key = Some("find|call:eval|vars=".to_owned());
    let query = parse_query("call:eval").unwrap();
    let cache = SearchCache::new("/work/c.json".to_owned(), "/work".to_owned());
    let mut run = QueryRun::new(&options, Some(cache));
    assert!(run.add_file("/work/a.py", "eval(1)\n", &query, &no_rule()).unwrap());
    let (findings, stored) = run.finish();
    assert_eq!(findings.len(), 1);
    let cache = stored.unwrap();
    let hash = content_hash("eval(1)\n".as_bytes());
    assert_eq!(cache.findings("a.py", &hash, "find|call:eval|vars=").unwrap().len(), 1);
    let mut again = QueryRun::new(&options, Some(cache));
    assert!(again.add_file("/work/a.py", "eval(1)\n", &query, &no_rule()).unwrap());
    assert_eq!(again.finish().0.len(), 1);
}

#[test]
fn a_query_run_without_a_key_uses_no_cache() {
    let options = SearchOptions::new();
    let query = parse_query("call:eval").unwrap();
    let cache = SearchCache::new("/work/c.json".to_owned(), "/work".to_owned());
    let mut run = QueryRun::new(&options, Some(cache));
    run.add_file("/work/a.py", "eval(1)\n", &query, &no_rule()).unwrap();
    assert!(run.finish().1.is_none());
}

#[test]
fn rule_results_are_cached_per_rule_under_one_file_hash() {
    let options = SearchOptions::new();
    let rules = RuleFile {
        exclude: Vec::new(),
        rules: vec![rule("no-eval", "call:eval", &[]), rule("no-print", "call:print", &[])],
    };
    let source = "eval(value)\nprint(value)\n";
    let mut run = RuleRun::new("/work", &rules, &options).unwrap();
    run.build_rule_filters(&options).unwrap();
    run.cache = Some(SearchCache::new("/work/.pyastq-cache.json".to_owned(), "/work".to_owned()));
    run.add_file("/work/example.py", "example.py", source).unwrap();
    let (first, stored) = run.finish(None);
    assert_eq!(first.len(), 2);
    let cache = stored.unwrap();
    assert_eq!(cache.entries().len(), 1);
    let (file, cached) = &cache.entries()[0];
    assert_eq!(file, "example.py");
    assert_eq!(cached.hash, content_hash(source.as_bytes()));
    assert_eq!(cached.results.len(), 2);

    let mut again = RuleRun::new("/work", &rules, &options).unwrap();
    again.build_rule_filters(&options).unwrap();
    again.cache = Some(cache);
    again.add_file("/work/example.py", "example.py", source).unwrap();
    assert_eq!(again.finish(None).0.len(), 2);
}

fn query_pass(cache: SearchCache, files: &[(&str, &str)]) -> (Vec<String>, SearchCache) {
    let mut options = SearchOptions::new();
    options.cache_key = Some("test|call:eval".to_owned());
    let query = parse_query("call:eval").unwrap();
    let mut run = QueryRun::new(&options, Some(cache));
    for (path, source) in files {
        run.add_file(path, source, &query, &no_rule()).unwrap();
    }
    let (findings, stored) = run.finish();
    (findings.into_iter().map(|f| f.path).collect(), stored.unwrap())
}

#[test]
fn query_results_follow_changed_and_deleted_files() {
    let cache = SearchCache::new("/work/.pyastq-cache.json".to_owned(), "/work".to_owned());
    let (initial, cache) = query_pass(cache, &[("/work/first.py", "eval(value)\n"), ("/work/second.py", "parse(value)\n")]);
    assert_eq!(initial, ["/work/first.py"]);
    let (unchanged, cache) =
        query_pass(cache, &[("/work/first.py", "eval(value)\n"), ("/work/second.py", "parse(value)\n")]);
    assert_eq!(unchanged, ["/work/first.py"]);
    let (changed, cache) =
        query_pass(cache, &[("/work/first.py", "parse(value)\n"), ("/work/second.py", "eval(value)\n")]);
    assert_eq!(changed, ["/work/second.py"]);
    let (deleted, cache) = query_pass(cache, &[("/work/first.py", "parse(value)\n")]);
    assert!(deleted.is_empty());
    assert!(cache.entries().iter().all(|(file, _)| file != "second.py"));
}

#[test]
fn a_rule_run_reports_invalid_python() {
    let options = SearchOptions::new();
    let rules = rule_file(vec![rule("no-eval", "call:eval", &[])]);
    let mut run = RuleRun::new("/work", &rules, &options).unwrap();
    run.build_rule_filters(&options).unwrap();
    let error = run.add_file("/work/invalid.py", "invalid.py", "def broken(:\n    pass\n").err().unwrap();
    assert_eq!(error, "/work/invalid.py:1:12: invalid Python syntax: def broken(:");
    let mut fine = RuleRun::new("/work", &rules, &options).unwrap();
    fine.build_rule_filters(&options).unwrap();
    fine.add_file("/work/valid.py", "valid.py", "a\n").unwrap();
    assert!(fine.finish(None).0.is_empty());
}
