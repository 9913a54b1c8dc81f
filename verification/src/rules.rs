//! Rules: rule files and their checks, compiled queries, the keys under
//! which the cache keeps a rule's results, and the rules' own examples.
use vstd::prelude::*;
use crate::query::model::{Query, QueryView};
use crate::query::parser::{parse_query, spec_parse_query};
use crate::report::{findings_view, FindingView};
use crate::search::{search_source, spec_search_source, ContextView, SearchContext};
use crate::text::{
    append_chars, chars_eq, chars_of, debug_str, push_decimal, spec_debug_str, spec_decimal,
    spec_trim, string_of, trim,
};

verus! {

/// A rule: what it matches, what it says, how severe it is, which files it
/// covers, and examples that must not and must match.
pub struct Rule {
    pub id: String,
    pub query: String,
    pub message: String,
    pub severity: String,
    pub includes: Vec<String>,
    pub exclude: Vec<String>,
    pub valid: Vec<String>,
    pub invalid: Vec<String>,
}

/// A rule file: paths that no rule covers, and the rules.
pub struct RuleFile {
    pub exclude: Vec<String>,
    pub rules: Vec<Rule>,
}

pub open spec fn strings_view(v: Seq<String>) -> Seq<Seq<char>> {
    v.map_values(|s: String| s@)
}

pub struct RuleView {
    pub id: Seq<char>,
    pub query: Seq<char>,
    pub message: Seq<char>,
    pub severity: Seq<char>,
    pub includes: Seq<Seq<char>>,
    pub exclude: Seq<Seq<char>>,
    pub valid: Seq<Seq<char>>,
    pub invalid: Seq<Seq<char>>,
}

impl View for Rule {
    type V = RuleView;

    open spec fn view(&self) -> RuleView {
        RuleView {
            id: self.id@,
            query: self.query@,
            message: self.message@,
            severity: self.severity@,
            includes: strings_view(self.includes@),
            exclude: strings_view(self.exclude@),
            valid: strings_view(self.valid@),
            invalid: strings_view(self.invalid@),
        }
    }
}

pub open spec fn rules_view(v: Seq<Rule>) -> Seq<RuleView> {
    v.map_values(|r: Rule| r@)
}

/// The severity of a rule that names none.
pub open spec fn spec_default_severity() -> Seq<char> {
    "warning"@
}

pub fn default_severity() -> (r: String)
    ensures
        r@ == spec_default_severity(),
{
    proof {
        reveal_strlit("warning");
    }
    "warning".to_owned()
}

pub open spec fn is_severity(s: Seq<char>) -> bool {
    s == "info"@ || s == "warning"@ || s == "error"@
}

pub open spec fn no_rules_message() -> Seq<char> {
    "rule configuration must define at least one rule"@
}

pub open spec fn empty_id_message() -> Seq<char> {
    "rule IDs cannot be empty"@
}

pub open spec fn duplicate_id_message(id: Seq<char>) -> Seq<char> {
    "duplicate rule ID `"@ + id + "`"@
}

pub open spec fn severity_message(id: Seq<char>, severity: Seq<char>) -> Seq<char> {
    "rule `"@ + id + "` has invalid severity `"@ + severity
        + "`; expected info, warning, or error"@
}

/// The first problem among the rules from `k` on, given the rules before them.
pub open spec fn spec_rules_problem(rules: Seq<RuleView>, k: int) -> Option<Seq<char>>
    decreases rules.len() - k,
{
    if k < 0 || k >= rules.len() {
        None
    } else {
        let rule = rules[k];
        if spec_trim(rule.id).len() == 0 {
            Some(empty_id_message())
        } else if exists|j: int| 0 <= j < k && rules[j].id == rule.id {
            Some(duplicate_id_message(rule.id))
        } else if !is_severity(rule.severity) {
            Some(severity_message(rule.id, rule.severity))
        } else {
            spec_rules_problem(rules, k + 1)
        }
    }
}

/// What is wrong with rule `k` by itself and against the rules before it.
pub open spec fn rule_problem(rules: Seq<RuleView>, k: int) -> Option<Seq<char>> {
    let rule = rules[k];
    if spec_trim(rule.id).len() == 0 {
        Some(empty_id_message())
    } else if exists|j: int| 0 <= j < k && rules[j].id == rule.id {
        Some(duplicate_id_message(rule.id))
    } else if !is_severity(rule.severity) {
        Some(severity_message(rule.id, rule.severity))
    } else {
        None
    }
}

/// Validation reports the problem of the first rule, in file order, that
/// has one, and reports none where no rule has one.
pub proof fn validation_reports_first_problem(rules: Seq<RuleView>, i: int)
    requires
        0 <= i <= rules.len(),
    ensures
        spec_rules_problem(rules, i) matches Some(e) ==> exists|k: int|
            i <= k < rules.len() && rule_problem(rules, k) == Some(e) && forall|j: int|
                i <= j < k ==> #[trigger] rule_problem(rules, j) is None,
        spec_rules_problem(rules, i) is None ==> forall|j: int|
            i <= j < rules.len() ==> #[trigger] rule_problem(rules, j) is None,
    decreases rules.len() - i,
{
    if i < rules.len() {
        validation_reports_first_problem(rules, i + 1);
        if rule_problem(rules, i) is None {
            if let Some(e) = spec_rules_problem(rules, i) {
                let k = choose|k: int|
                    i + 1 <= k < rules.len() && rule_problem(rules, k) == Some(e) && forall|j: int|
                        i + 1 <= j < k ==> #[trigger] rule_problem(rules, j) is None;
                assert forall|j: int| i <= j < k implies #[trigger] rule_problem(rules, j) is None by {}
            }
        }
    }
}

/// A rule file with at least one rule, whose rules have nonblank IDs that
/// no two share and each the severity `info`, `warning` or `error`, passes
/// validation.
pub proof fn well_formed_rules_validate(rules: Seq<RuleView>)
    requires
        rules.len() > 0,
        forall|k: int| 0 <= k < rules.len() ==> spec_trim(#[trigger] rules[k].id).len() > 0,
        forall|j: int, k: int| 0 <= j < k < rules.len() ==> #[trigger] rules[j].id != #[trigger] rules[k].id,
        forall|k: int|
            0 <= k < rules.len() ==> #[trigger] rules[k].severity == "info"@ || rules[k].severity == "warning"@
                || rules[k].severity == "error"@,
    ensures
        spec_validate_rules(rules) is None,
{
    validation_reports_first_problem(rules, 0);
    assert forall|j: int| 0 <= j < rules.len() implies #[trigger] rule_problem(rules, j) is None by {
        assert(spec_trim(rules[j].id).len() > 0);
        assert(rules[j].severity == "info"@ || rules[j].severity == "warning"@ || rules[j].severity == "error"@);
        assert(!exists|i: int| 0 <= i < j && rules[i].id == rules[j].id);
    }
}

/// Only such a rule file passes validation: one that validates has a rule,
/// every rule a nonblank ID that no other rule has, and every severity one
/// of `info`, `warning` and `error`.
pub proof fn validated_rules_are_well_formed(rules: Seq<RuleView>)
    requires
        spec_validate_rules(rules) is None,
    ensures
        rules.len() > 0,
        forall|k: int| 0 <= k < rules.len() ==> spec_trim(#[trigger] rules[k].id).len() > 0,
        forall|j: int, k: int| 0 <= j < k < rules.len() ==> #[trigger] rules[j].id != #[trigger] rules[k].id,
        forall|k: int|
            0 <= k < rules.len() ==> #[trigger] rules[k].severity == "info"@ || rules[k].severity == "warning"@
                || rules[k].severity == "error"@,
{
    validation_reports_first_problem(rules, 0);
    assert forall|k: int| 0 <= k < rules.len() implies spec_trim(#[trigger] rules[k].id).len() > 0 by {
        assert(rule_problem(rules, k) is None);
    }
    assert forall|j: int, k: int| 0 <= j < k < rules.len() implies #[trigger] rules[j].id != #[trigger] rules[k].id by {
        assert(rule_problem(rules, k) is None);
    }
    assert forall|k: int|
        0 <= k < rules.len() implies #[trigger] rules[k].severity == "info"@ || rules[k].severity == "warning"@
            || rules[k].severity == "error"@ by {
        assert(rule_problem(rules, k) is None);
    }
}

/// A rule file must have a rule, and each rule a nonblank ID that no earlier
/// rule has and a severity of `info`, `warning` or `error`.
pub open spec fn spec_validate_rules(rules: Seq<RuleView>) -> Option<Seq<char>> {
    if rules.len() == 0 {
        Some(no_rules_message())
    } else {
        spec_rules_problem(rules, 0)
    }
}

proof fn lemma_no_problem_distinct(rules: Seq<RuleView>, k: int)
    requires
        0 <= k,
        spec_rules_problem(rules, k) is None,
    ensures
        forall|i: int, j: int|
            0 <= i < j < rules.len() && k <= j ==> #[trigger] rules[i].id != #[trigger] rules[j].id,
    decreases rules.len() - k,
{
    if k < rules.len() {
        lemma_no_problem_distinct(rules, k + 1);
        assert(!exists|j: int| 0 <= j < k && rules[j].id == rules[k].id);
    }
}

/// Validation accepts no two rules with one ID.
pub proof fn accepted_rules_have_unique_ids(rules: Seq<RuleView>)
    requires
        spec_validate_rules(rules) is None,
    ensures
        forall|i: int, j: int|
            0 <= i < j < rules.len() ==> #[trigger] rules[i].id != #[trigger] rules[j].id,
{
    lemma_no_problem_distinct(rules, 0);
}

/// Rule IDs stay unique across both sources of a merged configuration: where
/// the rule file's rules followed by the inline ones pass validation, no rule
/// of the one source shares its ID with a rule of the other.
pub proof fn merged_rules_have_unique_ids(external: Seq<RuleView>, inline: Seq<RuleView>)
    requires
        spec_validate_rules(external + inline) is None,
    ensures
        forall|i: int, j: int|
            0 <= i < external.len() && 0 <= j < inline.len() ==> #[trigger] external[i].id
                != #[trigger] inline[j].id,
{
    let all = external + inline;
    accepted_rules_have_unique_ids(all);
    assert forall|i: int, j: int|
        0 <= i < external.len() && 0 <= j < inline.len() implies #[trigger] external[i].id
        != #[trigger] inline[j].id by {
        assert(all[i] == external[i]);
        assert(all[external.len() + j] == inline[j]);
    }
}

fn equals_str(a: &[char], b: &str) -> (r: bool)
    ensures
        r == (a@ == b@),
{
    chars_eq(a, &chars_of(b))
}

fn push_str(out: &mut Vec<char>, s: &str)
    ensures
        final(out)@ == old(out)@ + s@,
{
    append_chars(out, &chars_of(s));
}

/// Checks a rule file as `spec_validate_rules` says.
pub fn validate_rules(rule_file: &RuleFile) -> (r: Result<(), String>)
    ensures
        match r {
            Ok(()) => spec_validate_rules(rules_view(rule_file.rules@)) is None,
            Err(e) => spec_validate_rules(rules_view(rule_file.rules@)) == Some(e@),
        },
{
    let ghost rv = rules_view(rule_file.rules@);
    if rule_file.rules.len() == 0 {
        proof {
            reveal_strlit("rule configuration must define at least one rule");
        }
        return Err("rule configuration must define at least one rule".to_owned());
    }
    let mut k: usize = 0;
    while k < rule_file.rules.len()
        invariant
            k <= rv.len(),
            rv == rules_view(rule_file.rules@),
            spec_rules_problem(rv, 0) == spec_rules_problem(rv, k as int),
        decreases rv.len() - k,
    {
        let rule = &rule_file.rules[k];
        assert(rv[k as int] == rule@);
        let id = chars_of(rule.id.as_str());
        if trim(&id).len() == 0 {
            proof {
                reveal_strlit("rule IDs cannot be empty");
            }
            return Err("rule IDs cannot be empty".to_owned());
        }
        let mut j: usize = 0;
        while j < k
            invariant
                j <= k < rv.len(),
                rv == rules_view(rule_file.rules@),
                id@ == rv[k as int].id,
                spec_rules_problem(rv, 0) == spec_rules_problem(rv, k as int),
                spec_trim(rv[k as int].id).len() > 0,
                forall|m: int| 0 <= m < j ==> rv[m].id != rv[k as int].id,
            decreases k - j,
        {
            assert(rv[j as int] == rule_file.rules@[j as int]@);
            if chars_eq(&chars_of(rule_file.rules[j].id.as_str()), &id) {
                let mut message = chars_of("duplicate rule ID `");
                append_chars(&mut message, &id);
                message.push('`');
                proof {
                    reveal_strlit("duplicate rule ID `");
                    reveal_strlit("`");
                    assert(message@ =~= duplicate_id_message(rv[k as int].id));
                    assert(rv[j as int].id == rv[k as int].id);
                }
                return Err(string_of(&message));
            }
            j = j + 1;
        }
        let severity = chars_of(rule.severity.as_str());
        proof {
            reveal_strlit("info");
            reveal_strlit("warning");
            reveal_strlit("error");
        }
        if !(equals_str(&severity, "info") || equals_str(&severity, "warning") || equals_str(
            &severity,
            "error",
        )) {
            let mut message = chars_of("rule `");
            append_chars(&mut message, &id);
            push_str(&mut message, "` has invalid severity `");
            append_chars(&mut message, &severity);
            push_str(&mut message, "`; expected info, warning, or error");
            proof {
                reveal_strlit("rule `");
                reveal_strlit("` has invalid severity `");
                reveal_strlit("`; expected info, warning, or error");
                assert(message@ =~= severity_message(rv[k as int].id, rv[k as int].severity));
            }
            return Err(string_of(&message));
        }
        k = k + 1;
    }
    Ok(())
}

/// A rule with its query parsed.
pub struct CompiledRule<'a> {
    pub rule: &'a Rule,
    pub query: Query,
}

pub open spec fn compile_message(id: Seq<char>, error: Seq<char>) -> Seq<char> {
    "rule `"@ + id + "`: "@ + error
}

/// The first rule from `k` on whose query does not parse, with its error.
pub open spec fn spec_compile_problem(rules: Seq<RuleView>, k: int) -> Option<Seq<char>>
    decreases rules.len() - k,
{
    if k < 0 || k >= rules.len() {
        None
    } else {
        match spec_parse_query(rules[k].query, seq![]) {
            Err(e) => Some(compile_message(rules[k].id, e)),
            Ok(_) => spec_compile_problem(rules, k + 1),
        }
    }
}

/// Parses the query of each rule; the error names the first rule whose query
/// does not parse.
pub fn compile_rules<'a>(rule_file: &'a RuleFile) -> (r: Result<Vec<CompiledRule<'a>>, String>)
    ensures
        match r {
            Ok(compiled) => spec_compile_problem(rules_view(rule_file.rules@), 0) is None
                && compiled@.len() == rule_file.rules@.len() && forall|k: int|
                0 <= k < compiled@.len() ==> *(#[trigger] compiled@[k]).rule == rule_file.rules@[k]
                    && spec_parse_query(rule_file.rules@[k].query@, seq![]) == Ok::<QueryView, Seq<char>>(
                    compiled@[k].query@,
                ),
            Err(e) => spec_compile_problem(rules_view(rule_file.rules@), 0) == Some(e@),
        },
{
    let ghost rv = rules_view(rule_file.rules@);
    let mut compiled: Vec<CompiledRule<'a>> = Vec::new();
    let mut k: usize = 0;
    while k < rule_file.rules.len()
        invariant
            k <= rv.len(),
            rv == rules_view(rule_file.rules@),
            spec_compile_problem(rv, 0) == spec_compile_problem(rv, k as int),
            compiled@.len() == k,
            forall|m: int|
                0 <= m < k ==> *(#[trigger] compiled@[m]).rule == rule_file.rules@[m]
                    && spec_parse_query(rule_file.rules@[m].query@, seq![]) == Ok::<QueryView, Seq<char>>(
                    compiled@[m].query@,
                ),
        decreases rv.len() - k,
    {
        let rule = &rule_file.rules[k];
        assert(rv[k as int] == rule@);
        match parse_query(rule.query.as_str()) {
            Ok(query) => {
                compiled.push(CompiledRule { rule, query });
            },
            Err(error) => {
                let mut message = chars_of("rule `");
                push_str(&mut message, rule.id.as_str());
                push_str(&mut message, "`: ");
                push_str(&mut message, error.as_str());
                proof {
                    reveal_strlit("rule `");
                    reveal_strlit("`: ");
                    assert(message@ =~= compile_message(rule.id@, error@));
                }
                return Err(string_of(&message));
            },
        }
        k = k + 1;
    }
    Ok(compiled)
}

/// The path under which rule examples are searched.
pub open spec fn example_path() -> Seq<char> {
    "<rule-test>.py"@
}

/// The context in which a rule's examples are searched.
pub open spec fn example_context(rule: RuleView) -> ContextView {
    ContextView { rule_id: Some(rule.id), message: Some(rule.message), severity: Some(rule.severity) }
}

/// Whether an example matched: the search of the example's text, on behalf
/// of the rule, found something.
pub open spec fn example_outcome(rule: RuleView, q: QueryView, example: Seq<char>, matched: bool) -> bool {
    spec_search_source(example_path(), example, q, example_context(rule)) matches Ok(f) && (f.len() > 0)
        == matched
}

/// The search of the example's text failed with `e`.
pub open spec fn example_error(rule: RuleView, q: QueryView, example: Seq<char>, e: Seq<char>) -> bool {
    spec_search_source(example_path(), example, q, example_context(rule)) == Err::<
        Seq<FindingView>,
        Seq<char>,
    >(e)
}

/// Searches one example with a compiled rule; whether it found something.
fn example_matches(compiled: &CompiledRule, example: &str) -> (r: Result<bool, String>)
    ensures
        r matches Ok(m) ==> example_outcome(compiled.rule@, compiled.query@, example@, m),
        r matches Err(e) ==> example_error(compiled.rule@, compiled.query@, example@, e@),
{
    let rule = compiled.rule;
    proof {
        reveal_strlit("<rule-test>.py");
    }
    let findings = search_source(
        "<rule-test>.py",
        example,
        &compiled.query,
        SearchContext {
            rule_id: Some(rule.id.as_str()),
            message: Some(rule.message.as_str()),
            severity: Some(rule.severity.as_str()),
        },
    );
    match findings {
        Ok(findings) => Ok(findings.len() > 0),
        Err(e) => Err(e),
    }
}

pub open spec fn valid_failure(id: Seq<char>, index: nat) -> Seq<char> {
    id + " valid example "@ + spec_decimal(index + 1) + " unexpectedly matched"@
}

pub open spec fn invalid_failure(id: Seq<char>, index: nat) -> Seq<char> {
    id + " invalid example "@ + spec_decimal(index + 1) + " did not match"@
}

/// The failure messages for the examples of one rule, given whether each matched.
pub open spec fn failures_of(id: Seq<char>, matched: Seq<bool>, valid: bool) -> Seq<Seq<char>>
    decreases matched.len(),
{
    if matched.len() == 0 {
        seq![]
    } else {
        let i = (matched.len() - 1) as nat;
        let earlier = failures_of(id, matched.drop_last(), valid);
        if valid && matched.last() {
            earlier.push(valid_failure(id, i))
        } else if !valid && !matched.last() {
            earlier.push(invalid_failure(id, i))
        } else {
            earlier
        }
    }
}

fn failure_message(id: &String, index: usize, valid: bool) -> (r: String)
    requires
        index < usize::MAX,
    ensures
        r@ == if valid {
            valid_failure(id@, index as nat)
        } else {
            invalid_failure(id@, index as nat)
        },
{
    let mut message = chars_of(id.as_str());
    if valid {
        push_str(&mut message, " valid example ");
    } else {
        push_str(&mut message, " invalid example ");
    }
    push_decimal(&mut message, index + 1);
    if valid {
        push_str(&mut message, " unexpectedly matched");
    } else {
        push_str(&mut message, " did not match");
    }
    proof {
        reveal_strlit(" valid example ");
        reveal_strlit(" invalid example ");
        reveal_strlit(" unexpectedly matched");
        reveal_strlit(" did not match");
        if valid {
            assert(message@ =~= valid_failure(id@, index as nat));
        } else {
            assert(message@ =~= invalid_failure(id@, index as nat));
        }
    }
    string_of(&message)
}

/// Runs the examples of one kind for a rule, adding a failure for each that
/// went the wrong way.
fn run_examples(
    compiled: &CompiledRule,
    examples: &Vec<String>,
    valid: bool,
    failures: &mut Vec<String>,
) -> (r: Result<(), String>)
    ensures
        r is Ok ==> exists|matched: Seq<bool>|
            matched.len() == examples@.len() && (forall|i: int|
                0 <= i < matched.len() ==> example_outcome(
                    compiled.rule@,
                    compiled.query@,
                    examples@[i]@,
                    #[trigger] matched[i],
                )) && strings_view(final(failures)@) == strings_view(old(failures)@) + failures_of(
                compiled.rule.id@,
                matched,
                valid,
            ),
        r matches Err(e) ==> exists|matched: Seq<bool>|
            matched.len() < examples@.len() && (forall|i: int|
                0 <= i < matched.len() ==> example_outcome(
                    compiled.rule@,
                    compiled.query@,
                    examples@[i]@,
                    #[trigger] matched[i],
                )) && example_error(compiled.rule@, compiled.query@, examples@[matched.len() as int]@, e@),
{
    let ghost start = strings_view(failures@);
    let ghost mut matched: Seq<bool> = seq![];
    let mut i: usize = 0;
    assert(start + failures_of(compiled.rule.id@, matched, valid) =~= start);
    while i < examples.len()
        invariant
            i <= examples@.len(),
            matched.len() == i,
            forall|j: int|
                0 <= j < i ==> example_outcome(
                    compiled.rule@,
                    compiled.query@,
                    examples@[j]@,
                    #[trigger] matched[j],
                ),
            strings_view(failures@) == start + failures_of(compiled.rule.id@, matched, valid),
            start == strings_view(old(failures)@),
        decreases examples@.len() - i,
    {
        let m = match example_matches(compiled, examples[i].as_str()) {
            Ok(m) => m,
            Err(e) => {
                proof {
                    assert(examples[i as int]@ == examples@[i as int]@);
                    assert(example_error(compiled.rule@, compiled.query@, examples@[matched.len() as int]@, e@));
                }
                return Err(e);
            },
        };
        let ghost before = strings_view(failures@);
        let ghost old_matched = matched;
        proof {
            matched = matched.push(m);
            assert(matched.drop_last() =~= old_matched);
        }
        if (valid && m) || (!valid && !m) {
            let message = failure_message(&compiled.rule.id, i, valid);
            failures.push(message);
            assert(strings_view(failures@) =~= before.push(message@));
        }
        proof {
            assert forall|j: int| 0 <= j < i + 1 implies example_outcome(
                compiled.rule@,
                compiled.query@,
                examples@[j]@,
                #[trigger] matched[j],
            ) by {
                if j < i {
                    assert(matched[j] == old_matched[j]);
                }
            }
            assert(strings_view(failures@) =~= start + failures_of(compiled.rule.id@, matched, valid));
        }
        i = i + 1;
    }
    Ok(())
}

/// The failures of the rules before `k`, given whether each valid and each
/// invalid example matched.
pub open spec fn all_failures(rules: Seq<RuleView>, valid: Seq<Seq<bool>>, invalid: Seq<Seq<bool>>, k: int) -> Seq<
    Seq<char>,
>
    decreases k,
{
    if k <= 0 {
        seq![]
    } else {
        all_failures(rules, valid, invalid, k - 1) + failures_of(rules[k - 1].id, valid[k - 1], true)
            + failures_of(rules[k - 1].id, invalid[k - 1], false)
    }
}

proof fn lemma_failures_empty(id: Seq<char>, matched: Seq<bool>, valid: bool)
    ensures
        failures_of(id, matched, valid).len() == 0 <==> forall|i: int|
            0 <= i < matched.len() ==> #[trigger] matched[i] != valid,
    decreases matched.len(),
{
    if matched.len() > 0 {
        let front = matched.drop_last();
        lemma_failures_empty(id, front, valid);
        if forall|i: int| 0 <= i < matched.len() ==> #[trigger] matched[i] != valid {
            assert forall|i: int| 0 <= i < front.len() implies #[trigger] front[i] != valid by {
                assert(front[i] == matched[i]);
            }
        }
        if forall|i: int| 0 <= i < front.len() ==> #[trigger] front[i] != valid {
            if matched.last() != valid {
                assert forall|i: int| 0 <= i < matched.len() implies #[trigger] matched[i] != valid by {
                    if i < front.len() {
                        assert(front[i] == matched[i]);
                    }
                }
            }
        }
    }
}

/// The failure message for example `i` (counted from 0) of rule `id`.
pub open spec fn failure_text(id: Seq<char>, i: nat, valid: bool) -> Seq<char> {
    if valid {
        id + " valid example "@ + spec_decimal(i + 1) + " unexpectedly matched"@
    } else {
        id + " invalid example "@ + spec_decimal(i + 1) + " did not match"@
    }
}

/// The example positions behind a list of failures: in increasing order,
/// each names an example that went the wrong way, and every such example is
/// among them.
pub open spec fn names_wrong_examples(
    id: Seq<char>,
    matched: Seq<bool>,
    valid: bool,
    failures: Seq<Seq<char>>,
    idx: Seq<nat>,
) -> bool {
    &&& idx.len() == failures.len()
    &&& forall|p: int|
        0 <= p < idx.len() ==> #[trigger] idx[p] < matched.len() && matched[idx[p] as int] == valid && failures[p]
            == failure_text(id, idx[p], valid)
    &&& forall|p: int, q: int| 0 <= p < q < idx.len() ==> #[trigger] idx[p] < #[trigger] idx[q]
    &&& forall|i: int| 0 <= i < matched.len() && #[trigger] matched[i] == valid ==> exists|p: int|
        0 <= p < idx.len() && idx[p] == i
}

/// The failures of one rule's examples are, in example order, the messages
/// `<id> valid example <n> unexpectedly matched` for each valid example that
/// matched (or `<id> invalid example <n> did not match` for each invalid one
/// that did not), `n` counting from 1, and nothing else.
pub proof fn failures_name_wrong_examples(id: Seq<char>, matched: Seq<bool>, valid: bool)
    ensures
        exists|idx: Seq<nat>| names_wrong_examples(id, matched, valid, failures_of(id, matched, valid), idx),
    decreases matched.len(),
{
    if matched.len() == 0 {
        assert(names_wrong_examples(id, matched, valid, failures_of(id, matched, valid), seq![]));
    } else {
        let front = matched.drop_last();
        failures_name_wrong_examples(id, front, valid);
        let earlier = failures_of(id, front, valid);
        let idx = choose|idx: Seq<nat>| names_wrong_examples(id, front, valid, earlier, idx);
        let last = (matched.len() - 1) as nat;
        if matched.last() == valid {
            let idx2 = idx.push(last);
            let f = failures_of(id, matched, valid);
            assert(f == earlier.push(failure_text(id, last, valid)));
            assert forall|p: int| 0 <= p < idx2.len() implies #[trigger] idx2[p] < matched.len() && matched[idx2[p] as int]
                == valid && f[p] == failure_text(id, idx2[p], valid) by {
                if p < idx.len() {
                    assert(idx2[p] == idx[p]);
                    assert(matched[idx[p] as int] == front[idx[p] as int]);
                }
            }
            assert forall|i: int| 0 <= i < matched.len() && #[trigger] matched[i] == valid implies exists|p: int|
                0 <= p < idx2.len() && idx2[p] == i by {
                if i < front.len() {
                    assert(front[i] == matched[i]);
                    let p = choose|p: int| 0 <= p < idx.len() && idx[p] == i;
                    assert(idx2[p] == i);
                } else {
                    assert(idx2[idx.len() as int] == i);
                }
            }
            assert(names_wrong_examples(id, matched, valid, f, idx2));
        } else {
            assert(failures_of(id, matched, valid) == earlier);
            assert forall|p: int| 0 <= p < idx.len() implies #[trigger] idx[p] < matched.len() && matched[idx[p] as int]
                == valid && earlier[p] == failure_text(id, idx[p], valid) by {
                assert(matched[idx[p] as int] == front[idx[p] as int]);
            }
            assert forall|i: int| 0 <= i < matched.len() && #[trigger] matched[i] == valid implies exists|p: int|
                0 <= p < idx.len() && idx[p] == i by {
                assert(front[i] == matched[i]);
            }
            assert(names_wrong_examples(id, matched, valid, earlier, idx));
        }
    }
}

/// The examples pass exactly when they go the right way: the rules before
/// `k` yield no failure if and only if no valid example of theirs matched and
/// every invalid one did.
pub proof fn examples_pass_exactly_when_right(
    rules: Seq<RuleView>,
    valid: Seq<Seq<bool>>,
    invalid: Seq<Seq<bool>>,
    k: int,
)
    requires
        0 <= k <= rules.len(),
        k <= valid.len(),
        k <= invalid.len(),
    ensures
        all_failures(rules, valid, invalid, k).len() == 0 <==> (forall|m: int, i: int|
            0 <= m < k && 0 <= i < valid[m].len() ==> !#[trigger] valid[m][i]) && (forall|m: int, i: int|
            0 <= m < k && 0 <= i < invalid[m].len() ==> #[trigger] invalid[m][i]),
    decreases k,
{
    if k > 0 {
        examples_pass_exactly_when_right(rules, valid, invalid, k - 1);
        lemma_failures_empty(rules[k - 1].id, valid[k - 1], true);
        lemma_failures_empty(rules[k - 1].id, invalid[k - 1], false);
    }
}

/// `valid` and `invalid` say, for each rule and each of its examples, whether
/// the search of the example on behalf of the rule found something.
pub open spec fn outcomes(
    rules: Seq<RuleView>,
    queries: Seq<QueryView>,
    valid: Seq<Seq<bool>>,
    invalid: Seq<Seq<bool>>,
    k: int,
) -> bool {
    &&& valid.len() == k && invalid.len() == k
    &&& forall|m: int|
        0 <= m < k ==> (#[trigger] valid[m]).len() == rules[m].valid.len() && forall|i: int|
            0 <= i < valid[m].len() ==> example_outcome(rules[m], queries[m], rules[m].valid[i], valid[m][i])
    &&& forall|m: int|
        0 <= m < k ==> (#[trigger] invalid[m]).len() == rules[m].invalid.len() && forall|i: int|
            0 <= i < invalid[m].len() ==> example_outcome(rules[m], queries[m], rules[m].invalid[i], invalid[m][i])
}

/// The search of one of rule `m`'s examples fails with `e`.
pub open spec fn some_example_error(rules: Seq<RuleView>, m: int, e: Seq<char>) -> bool {
    spec_parse_query(rules[m].query, seq![]) matches Ok(q) && ((exists|i: int|
        0 <= i < rules[m].valid.len() && example_error(rules[m], q, #[trigger] rules[m].valid[i], e)) || (exists|
        i: int,
    | 0 <= i < rules[m].invalid.len() && example_error(rules[m], q, #[trigger] rules[m].invalid[i], e)))
}

/// Runs each rule's examples: a valid example must not match and an invalid
/// one must. The result lists, rule by rule, the examples that went the wrong
/// way; a rule whose query does not parse is an error.
pub fn test_rules(rule_file: &RuleFile) -> (r: Result<Vec<String>, String>)
    ensures
        spec_compile_problem(rules_view(rule_file.rules@), 0) matches Some(e) ==> r matches Err(x) && x@ == e,
        r matches Ok(failures) ==> exists|queries: Seq<QueryView>, valid: Seq<Seq<bool>>, invalid: Seq<Seq<bool>>|
            queries.len() == rule_file.rules@.len() && (forall|m: int|
                0 <= m < queries.len() ==> spec_parse_query(rule_file.rules@[m].query@, seq![]) == Ok::<
                    QueryView,
                    Seq<char>,
                >(#[trigger] queries[m])) && outcomes(
                rules_view(rule_file.rules@),
                queries,
                valid,
                invalid,
                rule_file.rules@.len() as int,
            ) && strings_view(failures@) == all_failures(
                rules_view(rule_file.rules@),
                valid,
                invalid,
                rule_file.rules@.len() as int,
            ),
        r matches Err(x) ==> spec_compile_problem(rules_view(rule_file.rules@), 0) == Some(x@) || (spec_compile_problem(
            rules_view(rule_file.rules@),
            0,
        ) is None && exists|m: int|
            0 <= m < rule_file.rules@.len() && some_example_error(rules_view(rule_file.rules@), m, x@)),
{
    let ghost rv = rules_view(rule_file.rules@);
    let compiled = compile_rules(rule_file)?;
    let ghost queries = compiled@.map_values(|c: CompiledRule| c.query@);
    let mut failures: Vec<String> = Vec::new();
    let ghost mut valid: Seq<Seq<bool>> = seq![];
    let ghost mut invalid: Seq<Seq<bool>> = seq![];
    let mut k: usize = 0;
    assert(strings_view(failures@) =~= Seq::<Seq<char>>::empty());
    while k < compiled.len()
        invariant
            k <= compiled@.len(),
            compiled@.len() == rv.len(),
            rv == rules_view(rule_file.rules@),
            queries == compiled@.map_values(|c: CompiledRule| c.query@),
            spec_compile_problem(rv, 0) is None,
            forall|m: int| 0 <= m < compiled@.len() ==> *(#[trigger] compiled@[m]).rule == rule_file.rules@[m],
            forall|m: int|
                0 <= m < compiled@.len() ==> spec_parse_query(rule_file.rules@[m].query@, seq![]) == Ok::<
                    QueryView,
                    Seq<char>,
                >((#[trigger] compiled@[m]).query@),
            outcomes(rv, queries, valid, invalid, k as int),
            strings_view(failures@) == all_failures(rv, valid, invalid, k as int),
        decreases compiled@.len() - k,
    {
        let c = &compiled[k];
        assert(rv[k as int] == c.rule@);
        assert(queries[k as int] == c.query@);
        let ghost before = strings_view(failures@);
        assert(spec_parse_query(rv[k as int].query, seq![]) == Ok::<QueryView, Seq<char>>(c.query@));
        match run_examples(c, &c.rule.valid, true, &mut failures) {
            Ok(()) => {},
            Err(e) => {
                proof {
                    let matched = choose|matched: Seq<bool>|
                        matched.len() < c.rule.valid@.len() && (forall|i: int|
                            0 <= i < matched.len() ==> example_outcome(
                                c.rule@,
                                c.query@,
                                c.rule.valid@[i]@,
                                #[trigger] matched[i],
                            )) && example_error(c.rule@, c.query@, c.rule.valid@[matched.len() as int]@, e@);
                    assert(rv[k as int].valid[matched.len() as int] == c.rule.valid@[matched.len() as int]@);
                    assert(some_example_error(rv, k as int, e@));
                }
                return Err(e);
            },
        }
        let ghost mv = choose|matched: Seq<bool>|
            matched.len() == c.rule.valid@.len() && (forall|i: int|
                0 <= i < matched.len() ==> example_outcome(
                    c.rule@,
                    c.query@,
                    c.rule.valid@[i]@,
                    #[trigger] matched[i],
                )) && strings_view(failures@) == before + failures_of(c.rule.id@, matched, true);
        let ghost middle = strings_view(failures@);
        match run_examples(c, &c.rule.invalid, false, &mut failures) {
            Ok(()) => {},
            Err(e) => {
                proof {
                    let matched = choose|matched: Seq<bool>|
                        matched.len() < c.rule.invalid@.len() && (forall|i: int|
                            0 <= i < matched.len() ==> example_outcome(
                                c.rule@,
                                c.query@,
                                c.rule.invalid@[i]@,
                                #[trigger] matched[i],
                            )) && example_error(c.rule@, c.query@, c.rule.invalid@[matched.len() as int]@, e@);
                    assert(rv[k as int].invalid[matched.len() as int] == c.rule.invalid@[matched.len() as int]@);
                    assert(some_example_error(rv, k as int, e@));
                }
                return Err(e);
            },
        }
        let ghost mi = choose|matched: Seq<bool>|
            matched.len() == c.rule.invalid@.len() && (forall|i: int|
                0 <= i < matched.len() ==> example_outcome(
                    c.rule@,
                    c.query@,
                    c.rule.invalid@[i]@,
                    #[trigger] matched[i],
                )) && strings_view(failures@) == middle + failures_of(c.rule.id@, matched, false);
        proof {
            let old_valid = valid;
            let old_invalid = invalid;
            valid = valid.push(mv);
            invalid = invalid.push(mi);
            assert forall|m: int| 0 <= m < k + 1 implies (#[trigger] valid[m]).len() == rv[m].valid.len()
                && forall|i: int|
                0 <= i < valid[m].len() ==> example_outcome(rv[m], queries[m], rv[m].valid[i], valid[m][i]) by {
                if m < k {
                    assert(valid[m] == old_valid[m]);
                } else {
                    assert forall|i: int| 0 <= i < valid[m].len() implies example_outcome(
                        rv[m],
                        queries[m],
                        rv[m].valid[i],
                        valid[m][i],
                    ) by {
                        assert(rv[m].valid[i] == c.rule.valid@[i]@);
                    }
                }
            }
            assert forall|m: int| 0 <= m < k + 1 implies (#[trigger] invalid[m]).len() == rv[m].invalid.len()
                && forall|i: int|
                0 <= i < invalid[m].len() ==> example_outcome(rv[m], queries[m], rv[m].invalid[i], invalid[m][i]) by {
                if m < k {
                    assert(invalid[m] == old_invalid[m]);
                } else {
                    assert forall|i: int| 0 <= i < invalid[m].len() implies example_outcome(
                        rv[m],
                        queries[m],
                        rv[m].invalid[i],
                        invalid[m][i],
                    ) by {
                        assert(rv[m].invalid[i] == c.rule.invalid@[i]@);
                    }
                }
            }
            assert(all_failures(rv, valid, invalid, k as int) == all_failures(rv, old_valid, old_invalid, k as int)) by {
                lemma_all_failures_prefix(rv, old_valid, old_invalid, valid, invalid, k as int);
            }
            assert(strings_view(failures@) =~= all_failures(rv, valid, invalid, k + 1));
        }
        k = k + 1;
    }
    proof {
        assert forall|m: int| 0 <= m < queries.len() implies spec_parse_query(rule_file.rules@[m].query@, seq![])
            == Ok::<QueryView, Seq<char>>(#[trigger] queries[m]) by {
            assert(queries[m] == compiled@[m].query@);
        }
    }
    Ok(failures)
}

proof fn lemma_all_failures_prefix(
    rules: Seq<RuleView>,
    v1: Seq<Seq<bool>>,
    i1: Seq<Seq<bool>>,
    v2: Seq<Seq<bool>>,
    i2: Seq<Seq<bool>>,
    k: int,
)
    requires
        k <= v1.len(),
        k <= i1.len(),
        k <= v2.len(),
        k <= i2.len(),
        forall|m: int| 0 <= m < k ==> v1[m] == v2[m] && i1[m] == i2[m],
    ensures
        all_failures(rules, v1, i1, k) == all_failures(rules, v2, i2, k),
    decreases k,
{
    if k > 0 {
        lemma_all_failures_prefix(rules, v1, i1, v2, i2, k - 1);
    }
}

/// `[a, b]` for a list of texts, each written as `Debug` writes a string.
pub open spec fn debug_list(items: Seq<Seq<char>>) -> Seq<char> {
    seq!['['] + debug_items(items) + seq![']']
}

pub open spec fn debug_items(items: Seq<Seq<char>>) -> Seq<char>
    decreases items.len(),
{
    if items.len() == 0 {
        seq![]
    } else if items.len() == 1 {
        spec_debug_str(items[0])
    } else {
        debug_items(items.drop_last()) + ", "@ + spec_debug_str(items.last())
    }
}

fn push_debug_list(out: &mut Vec<char>, items: &Vec<String>)
    ensures
        final(out)@ == old(out)@ + debug_list(strings_view(items@)),
{
    let ghost iv = strings_view(items@);
    let ghost start = out@;
    out.push('[');
    let mut i: usize = 0;
    assert(iv.subrange(0, 0) =~= Seq::<Seq<char>>::empty());
    assert(out@ =~= start + seq!['['] + debug_items(iv.subrange(0, 0)));
    while i < items.len()
        invariant
            i <= iv.len(),
            iv == strings_view(items@),
            out@ == start + seq!['['] + debug_items(iv.subrange(0, i as int)),
        decreases iv.len() - i,
    {
        if i > 0 {
            push_str(out, ", ");
        }
        let d = debug_str(items[i].as_str());
        append_chars(out, &chars_of(d.as_str()));
        proof {
            reveal_strlit(", ");
            let pre = iv.subrange(0, i + 1);
            assert(pre.drop_last() =~= iv.subrange(0, i as int));
            assert(pre.last() == items@[i as int]@);
            if i == 0 {
                assert(pre.len() == 1);
                assert(pre[0] == items@[0]@);
                assert(out@ =~= start + seq!['['] + debug_items(pre));
            } else {
                assert(out@ =~= start + seq!['['] + debug_items(pre));
            }
        }
        i = i + 1;
    }
    out.push(']');
    assert(iv.subrange(0, iv.len() as int) =~= iv);
    assert(out@ =~= start + debug_list(iv));
}

/// The key under which the cache keeps a rule's results: everything that
/// decides them, from the rule to the search root and the path patterns.
pub open spec fn spec_rule_result_key(
    root: Seq<char>,
    rule: RuleView,
    includes: Seq<Seq<char>>,
    global_excludes: Seq<Seq<char>>,
) -> Seq<char> {
    "resolver-v1|check|"@ + rule.id + seq!['|'] + rule.query + seq!['|'] + rule.message + seq!['|']
        + rule.severity + "|root="@ + root + "|include="@ + debug_list(includes) + "|rule_include="@
        + debug_list(rule.includes) + "|exclude="@ + debug_list(global_excludes) + "|rule_exclude="@
        + debug_list(rule.exclude)
}

pub fn rule_result_key(root: &str, rule: &Rule, includes: &Vec<String>, global_excludes: &Vec<String>) -> (r: String)
    ensures
        r@ == spec_rule_result_key(root@, rule@, strings_view(includes@), strings_view(global_excludes@)),
{
    let mut out = chars_of("resolver-v1|check|");
    push_str(&mut out, rule.id.as_str());
    out.push('|');
    push_str(&mut out, rule.query.as_str());
    out.push('|');
    push_str(&mut out, rule.message.as_str());
    out.push('|');
    push_str(&mut out, rule.severity.as_str());
    push_str(&mut out, "|root=");
    push_str(&mut out, root);
    push_str(&mut out, "|include=");
    push_debug_list(&mut out, includes);
    push_str(&mut out, "|rule_include=");
    push_debug_list(&mut out, &rule.includes);
    push_str(&mut out, "|exclude=");
    push_debug_list(&mut out, global_excludes);
    push_str(&mut out, "|rule_exclude=");
    push_debug_list(&mut out, &rule.exclude);
    proof {
        reveal_strlit("resolver-v1|check|");
        reveal_strlit("|root=");
        reveal_strlit("|include=");
        reveal_strlit("|rule_include=");
        reveal_strlit("|exclude=");
        reveal_strlit("|rule_exclude=");
        assert(out@ =~= spec_rule_result_key(root@, rule@, strings_view(includes@), strings_view(global_excludes@)));
    }
    string_of(&out)
}

/// The rules of a `pyproject.toml` that names a rule file: the rule file's
/// rules first, then the inline ones; the exclusions of both.
pub fn merge_rule_files(inline: RuleFile, external: RuleFile) -> (r: RuleFile)
    ensures
        rules_view(r.rules@) == rules_view(external.rules@) + rules_view(inline.rules@),
        strings_view(r.exclude@) == strings_view(inline.exclude@) + strings_view(external.exclude@),
{
    let mut exclude = inline.exclude;
    let mut more_exclude = external.exclude;
    let ghost e1 = exclude@;
    let ghost e2 = more_exclude@;
    exclude.append(&mut more_exclude);
    assert(exclude@ =~= e1 + e2);
    assert(strings_view(exclude@) =~= strings_view(e1) + strings_view(e2));
    let mut rules = external.rules;
    let mut inline_rules = inline.rules;
    let ghost r1 = rules@;
    let ghost r2 = inline_rules@;
    rules.append(&mut inline_rules);
    assert(rules@ =~= r1 + r2);
    assert(rules_view(rules@) =~= rules_view(r1) + rules_view(r2));
    RuleFile { exclude, rules }
}

/// What one directory on the way up from the searched path holds.
pub enum ConfigCandidate {
    /// No `pyproject.toml`.
    NoFile,
    /// A `pyproject.toml` without a `[tool.pyastq]` table.
    NoTable,
    /// A `pyproject.toml` with a `[tool.pyastq]` table.
    Table,
}

/// The next move of the search for a configuration.
pub enum DiscoverStep {
    /// Use this directory's `pyproject.toml`.
    Use,
    /// Look in the parent directory.
    Climb,
    /// There is no parent: no configuration was found.
    NotFound,
}

/// One step of the search for a configuration, from the searched path up to
/// the root: the nearest `pyproject.toml` with a `[tool.pyastq]` table wins.
pub fn discover_step(candidate: ConfigCandidate, has_parent: bool) -> (r: DiscoverStep)
    ensures
        candidate is Table ==> r is Use,
        !(candidate is Table) && has_parent ==> r is Climb,
        !(candidate is Table) && !has_parent ==> r is NotFound,
{
    match candidate {
        ConfigCandidate::Table => DiscoverStep::Use,
        _ => if has_parent {
            DiscoverStep::Climb
        } else {
            DiscoverStep::NotFound
        },
    }
}

} // verus!
