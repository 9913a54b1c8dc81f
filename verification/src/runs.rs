//! Running one query, or the rules of a rule file, over the files of a
//! tree: which rules cover a file, which results the cache already holds,
//! what is searched, and the findings in order.
use vstd::prelude::*;
use crate::cache::{
    content_hash, spec_content_hash, spec_findings, spec_retain, spec_store, spec_strip_path_prefix,
    CachedFileView, SearchCache,
};
use crate::files::{filter_problem, groups_view, normalized, spec_accepts, spec_filter, FileFilter};
use crate::query::model::Query;
use crate::report::{
    duplicate_findings, finding_le, findings_view, lemma_sort_findings, sort_findings, sorted_findings,
    spec_sort_findings, Finding, FindingView,
};
use crate::rules::{
    compile_rules, rule_result_key, rules_view, spec_compile_problem, spec_rule_result_key,
    strings_view, CompiledRule, Rule, RuleFile,
};
use crate::search::{
    cache_enabled, cache_used, parse_error, search_source, search_source_queries, spec_search_source, spec_search_tree,
    ContextView, SearchContext, SearchOptions,
};
use crate::syntax::python_tree;
use vstd::string::{StrSliceExecFns, StringSliceAdditionalSpecFns};

verus! {

/// The exclusions of a run: those of the options, then those of the rule file.
pub fn global_excludes(options: &SearchOptions, rule_file: &RuleFile) -> (r: Vec<String>)
    ensures
        strings_view(r@) == strings_view(options.excludes@) + strings_view(rule_file.exclude@),
{
    let mut out: Vec<String> = Vec::new();
    let mut k: usize = 0;
    while k < options.excludes.len()
        invariant
            k <= options.excludes@.len(),
            strings_view(out@) == strings_view(options.excludes@).subrange(0, k as int),
        decreases options.excludes@.len() - k,
    {
        let ghost before = strings_view(out@);
        out.push(options.excludes[k].clone());
        assert(strings_view(out@) =~= before.push(options.excludes@[k as int]@));
        assert(strings_view(out@) =~= strings_view(options.excludes@).subrange(0, k + 1));
        k = k + 1;
    }
    let mut j: usize = 0;
    assert(strings_view(out@) =~= strings_view(options.excludes@) + strings_view(rule_file.exclude@).subrange(
        0,
        0,
    ));
    while j < rule_file.exclude.len()
        invariant
            j <= rule_file.exclude@.len(),
            strings_view(out@) == strings_view(options.excludes@) + strings_view(rule_file.exclude@).subrange(
                0,
                j as int,
            ),
        decreases rule_file.exclude@.len() - j,
    {
        let ghost before = strings_view(out@);
        out.push(rule_file.exclude[j].clone());
        assert(strings_view(out@) =~= before.push(rule_file.exclude@[j as int]@));
        assert(strings_view(out@) =~= strings_view(options.excludes@) + strings_view(rule_file.exclude@).subrange(
            0,
            j + 1,
        ));
        j = j + 1;
    }
    assert(strings_view(rule_file.exclude@).subrange(0, rule_file.exclude@.len() as int) =~= strings_view(
        rule_file.exclude@,
    ));
    out
}

/// `a` followed by `b`, as a new vector.
fn concat_strings(a: &Vec<String>, b: &Vec<String>) -> (r: Vec<String>)
    ensures
        strings_view(r@) == strings_view(a@) + strings_view(b@),
{
    let mut out: Vec<String> = Vec::new();
    let mut k: usize = 0;
    while k < a.len()
        invariant
            k <= a@.len(),
            strings_view(out@) == strings_view(a@).subrange(0, k as int),
        decreases a@.len() - k,
    {
        let ghost before = strings_view(out@);
        out.push(a[k].clone());
        assert(strings_view(out@) =~= before.push(a@[k as int]@));
        assert(strings_view(out@) =~= strings_view(a@).subrange(0, k + 1));
        k = k + 1;
    }
    let mut j: usize = 0;
    assert(strings_view(out@) =~= strings_view(a@) + strings_view(b@).subrange(0, 0));
    while j < b.len()
        invariant
            j <= b@.len(),
            strings_view(out@) == strings_view(a@) + strings_view(b@).subrange(0, j as int),
        decreases b@.len() - j,
    {
        let ghost before = strings_view(out@);
        out.push(b[j].clone());
        assert(strings_view(out@) =~= before.push(b@[j as int]@));
        assert(strings_view(out@) =~= strings_view(a@) + strings_view(b@).subrange(0, j + 1));
        j = j + 1;
    }
    assert(strings_view(b@).subrange(0, b@.len() as int) =~= strings_view(b@));
    out
}

fn copy_strings(a: &Vec<String>) -> (r: Vec<String>)
    ensures
        strings_view(r@) == strings_view(a@),
{
    let empty: Vec<String> = Vec::new();
    let r = concat_strings(a, &empty);
    assert(strings_view(empty@) =~= Seq::<Seq<char>>::empty());
    assert(strings_view(a@) + Seq::<Seq<char>>::empty() =~= strings_view(a@));
    r
}

/// The indices below `n` at which `p` holds, in order.
pub open spec fn indices_where(p: spec_fn(int) -> bool, n: int) -> Seq<int>
    decreases n,
{
    if n <= 0 {
        seq![]
    } else if p(n - 1) {
        indices_where(p, n - 1).push(n - 1)
    } else {
        indices_where(p, n - 1)
    }
}

/// The indices where `p` holds are below `n`, increasing, and index `k`
/// stands after those below it.
pub proof fn lemma_indices_where(p: spec_fn(int) -> bool, n: int)
    requires
        0 <= n,
    ensures
        indices_where(p, n).len() <= n,
        forall|j: int|
            0 <= j < indices_where(p, n).len() ==> 0 <= #[trigger] indices_where(p, n)[j] < n && p(
                indices_where(p, n)[j],
            ),
        forall|i: int, j: int|
            0 <= i < j < indices_where(p, n).len() ==> #[trigger] indices_where(p, n)[i]
                < #[trigger] indices_where(p, n)[j],
        forall|k: int|
            0 <= k < n && #[trigger] p(k) ==> indices_where(p, k).len() < indices_where(p, n).len()
                && indices_where(p, n)[indices_where(p, k).len() as int] == k,
        forall|k: int|
            0 <= k <= n ==> indices_where(p, k).len() <= indices_where(p, n).len() && #[trigger] indices_where(
                p,
                k,
            ) == indices_where(p, n).subrange(0, indices_where(p, k).len() as int),
    decreases n,
{
    if n > 0 {
        lemma_indices_where(p, n - 1);
        let prev = indices_where(p, n - 1);
        let cur = indices_where(p, n);
        if p(n - 1) {
            assert(cur == prev.push(n - 1));
            assert forall|k: int| 0 <= k <= n implies indices_where(p, k).len() <= cur.len()
                && #[trigger] indices_where(p, k) == cur.subrange(0, indices_where(p, k).len() as int) by {
                if k == n {
                    assert(cur.subrange(0, cur.len() as int) =~= cur);
                } else {
                    assert(prev.subrange(0, indices_where(p, k).len() as int) =~= cur.subrange(
                        0,
                        indices_where(p, k).len() as int,
                    ));
                }
            }
            assert forall|k: int| 0 <= k < n && #[trigger] p(k) implies indices_where(p, k).len() < cur.len()
                && cur[indices_where(p, k).len() as int] == k by {
                if k < n - 1 {
                    assert(cur[indices_where(p, k).len() as int] == prev[indices_where(p, k).len() as int]);
                }
            }
        } else {
            assert forall|k: int| 0 <= k <= n implies indices_where(p, k).len() <= cur.len()
                && #[trigger] indices_where(p, k) == cur.subrange(0, indices_where(p, k).len() as int) by {
                if k == n {
                    assert(cur.subrange(0, cur.len() as int) =~= cur);
                }
            }
        }
    }
}

/// The results stored for one file, one pair of result key and findings
/// after the other.
pub open spec fn store_all(
    files: Seq<(Seq<char>, CachedFileView)>,
    file: Seq<char>,
    hash: Seq<char>,
    pairs: Seq<(Seq<char>, Seq<FindingView>)>,
) -> Seq<(Seq<char>, CachedFileView)>
    decreases pairs.len(),
{
    if pairs.len() == 0 {
        files
    } else {
        spec_store(store_all(files, file, hash, pairs.drop_last()), file, hash, pairs.last().0, pairs.last().1)
    }
}

fn push_string_at(v: &mut Vec<Vec<String>>, k: usize, s: String)
    requires
        k < old(v)@.len(),
    ensures
        final(v)@.len() == old(v)@.len(),
        forall|m: int| 0 <= m < old(v)@.len() && m != k ==> #[trigger] final(v)@[m] == old(v)@[m],
        strings_view(final(v)@[k as int]@) == strings_view(old(v)@[k as int]@).push(s@),
{
    let mut slot = v.remove(k);
    let ghost before = slot@;
    slot.push(s);
    assert(strings_view(slot@) =~= strings_view(before).push(s@));
    v.insert(k, slot);
}

fn extend_findings_at(v: &mut Vec<Vec<Finding>>, k: usize, more: Vec<Finding>)
    requires
        k < old(v)@.len(),
    ensures
        final(v)@.len() == old(v)@.len(),
        forall|m: int| 0 <= m < old(v)@.len() && m != k ==> #[trigger] final(v)@[m] == old(v)@[m],
        findings_view(final(v)@[k as int]@) == findings_view(old(v)@[k as int]@) + findings_view(more@),
{
    let mut slot = v.remove(k);
    let ghost before = slot@;
    let mut more = more;
    let ghost added = more@;
    slot.append(&mut more);
    assert(slot@ =~= before + added);
    assert(findings_view(slot@) =~= findings_view(before) + findings_view(added));
    v.insert(k, slot);
}

/// The search context of a rule: its ID, message and severity.
pub open spec fn rule_context(rule: Rule) -> ContextView {
    ContextView { rule_id: Some(rule.id@), message: Some(rule.message@), severity: Some(rule.severity@) }
}

/// The include groups of the filter of one rule: the run's, then the rule's.
pub open spec fn rule_groups(includes: Seq<Seq<char>>, rule: Rule) -> Seq<Seq<Seq<char>>> {
    seq![includes, strings_view(rule.includes@)]
}

/// The first problem among the filters of the rules from `k` on.
pub open spec fn rule_filters_problem(
    rules: Seq<Rule>,
    includes: Seq<Seq<char>>,
    global: Seq<Seq<char>>,
    k: int,
) -> Option<Seq<char>>
    decreases rules.len() - k,
{
    if k < 0 || k >= rules.len() {
        None
    } else {
        match filter_problem(rule_groups(includes, rules[k]), global + strings_view(rules[k].exclude@)) {
            Some(e) => Some(e),
            None => rule_filters_problem(rules, includes, global, k + 1),
        }
    }
}

/// The cache after keeping, for each of the first `k` rules in turn, its
/// results only for the files it covered.
pub open spec fn retain_all(
    files: Seq<(Seq<char>, CachedFileView)>,
    keys: Seq<Seq<char>>,
    current: Seq<Seq<Seq<char>>>,
    k: int,
) -> Seq<(Seq<char>, CachedFileView)>
    decreases k,
{
    if k <= 0 {
        files
    } else {
        spec_retain(retain_all(files, keys, current, k - 1), keys[k - 1], current[k - 1])
    }
}

/// At most `max` of `v`, from the front.
pub open spec fn at_most(v: Seq<FindingView>, max: Option<usize>) -> Seq<FindingView> {
    match max {
        Some(m) => if m < v.len() {
            v.take(m as int)
        } else {
            v
        },
        None => v,
    }
}

/// What a run reports comes in order of file, line and column, whatever the
/// order of the rules; each finding is one that a rule found, and without a
/// limit every finding of every rule is reported, once.
pub proof fn run_findings_are_ordered(found: Seq<Seq<FindingView>>, max: Option<usize>)
    ensures
        sorted_findings(at_most(spec_sort_findings(found.flatten()), max)),
        forall|f: FindingView|
            #[trigger] at_most(spec_sort_findings(found.flatten()), max).contains(f) ==> found.flatten().contains(f),
        max is None ==> at_most(spec_sort_findings(found.flatten()), max).to_multiset()
            == found.flatten().to_multiset(),
{
    broadcast use vstd::seq_lib::group_to_multiset_ensures;
    let all = found.flatten();
    let sorted = spec_sort_findings(all);
    lemma_sort_findings(all);
    let shown = at_most(sorted, max);
    assert forall|i: int, j: int| 0 <= i < j < shown.len() implies finding_le(
        #[trigger] shown[i],
        #[trigger] shown[j],
    ) by {
        assert(shown[i] == sorted[i] && shown[j] == sorted[j]);
    }
    assert forall|f: FindingView| #[trigger] shown.contains(f) implies all.contains(f) by {
        let i = choose|i: int| 0 <= i < shown.len() && shown[i] == f;
        assert(sorted[i] == f);
        assert(sorted.to_multiset().count(f) > 0);
        assert(all.to_multiset().count(f) > 0);
    }
}

/// The rules of a rule file run over many files: the compiled rules, the
/// exclusions that hold for all of them, the cache key of each rule's
/// results, each rule's file filter, the cache if it is used, and for each
/// rule the files it covered and the findings so far.
pub struct RuleRun<'a> {
    pub rules: Vec<CompiledRule<'a>>,
    pub global_excludes: Vec<String>,
    pub result_keys: Vec<String>,
    pub filters: Vec<FileFilter>,
    pub cache: Option<SearchCache>,
    pub current: Vec<Vec<String>>,
    pub found: Vec<Vec<Finding>>,
}

pub open spec fn nested_strings(v: Seq<Vec<String>>) -> Seq<Seq<Seq<char>>> {
    v.map_values(|x: Vec<String>| strings_view(x@))
}

pub open spec fn nested_findings(v: Seq<Vec<Finding>>) -> Seq<Seq<FindingView>> {
    v.map_values(|x: Vec<Finding>| findings_view(x@))
}

pub open spec fn opt_cache(c: Option<SearchCache>) -> Option<Seq<(Seq<char>, CachedFileView)>> {
    match c {
        Some(c) => Some(c@),
        None => None,
    }
}

impl<'a> RuleRun<'a> {
    pub open spec fn rule(&self, k: int) -> Rule {
        *self.rules@[k].rule
    }

    pub open spec fn rule_seq(&self) -> Seq<Rule> {
        self.rules@.map_values(|c: CompiledRule<'a>| *c.rule)
    }

    /// One key, one list of covered files and one list of findings per rule.
    pub open spec fn sized(&self) -> bool {
        &&& self.result_keys@.len() == self.rules@.len()
        &&& self.current@.len() == self.rules@.len()
        &&& self.found@.len() == self.rules@.len()
    }

    /// Sized, with one filter per rule.
    pub open spec fn ready(&self) -> bool {
        self.sized() && self.filters@.len() == self.rules@.len()
    }

    /// Compiles the rules of `rule_file` and works out what stays the same
    /// for every file: the exclusions for all rules and each rule's result
    /// key. The error is that of the first rule whose query does not parse.
    pub fn new(root: &str, rule_file: &'a RuleFile, options: &SearchOptions) -> (r: Result<Self, String>)
        ensures
            match r {
                Ok(run) => {
                    &&& spec_compile_problem(rules_view(rule_file.rules@), 0) is None
                    &&& run.sized()
                    &&& run.rules@.len() == rule_file.rules@.len()
                    &&& forall|k: int|
                        0 <= k < run.rules@.len() ==> *(#[trigger] run.rules@[k]).rule == rule_file.rules@[k]
                            && crate::query::parser::spec_parse_query(rule_file.rules@[k].query@, seq![])
                            == Ok::<crate::query::model::QueryView, Seq<char>>(run.rules@[k].query@)
                    &&& strings_view(run.global_excludes@) == strings_view(options.excludes@) + strings_view(
                        rule_file.exclude@,
                    )
                    &&& forall|k: int|
                        0 <= k < run.rules@.len() ==> (#[trigger] run.result_keys@[k])@ == spec_rule_result_key(
                            root@,
                            rule_file.rules@[k]@,
                            strings_view(options.includes@),
                            strings_view(run.global_excludes@),
                        )
                    &&& run.filters@.len() == 0
                    &&& run.cache is None
                    &&& forall|k: int| 0 <= k < run.rules@.len() ==> (#[trigger] run.current@[k])@.len() == 0
                    &&& forall|k: int| 0 <= k < run.rules@.len() ==> (#[trigger] run.found@[k])@.len() == 0
                },
                Err(e) => spec_compile_problem(rules_view(rule_file.rules@), 0) == Some(e@),
            },
    {
        let rules = match compile_rules(rule_file) {
            Ok(rules) => rules,
            Err(e) => {
                return Err(e);
            },
        };
        let global = global_excludes(options, rule_file);
        let mut result_keys: Vec<String> = Vec::new();
        let mut current: Vec<Vec<String>> = Vec::new();
        let mut found: Vec<Vec<Finding>> = Vec::new();
        let mut k: usize = 0;
        while k < rules.len()
            invariant
                k <= rules@.len(),
                rules@.len() == rule_file.rules@.len(),
                forall|m: int| 0 <= m < rules@.len() ==> *(#[trigger] rules@[m]).rule == rule_file.rules@[m],
                result_keys@.len() == k,
                current@.len() == k,
                found@.len() == k,
                forall|m: int|
                    0 <= m < k ==> (#[trigger] result_keys@[m])@ == spec_rule_result_key(
                        root@,
                        rule_file.rules@[m]@,
                        strings_view(options.includes@),
                        strings_view(global@),
                    ),
                forall|m: int| 0 <= m < k ==> (#[trigger] current@[m])@.len() == 0,
                forall|m: int| 0 <= m < k ==> (#[trigger] found@[m])@.len() == 0,
            decreases rules@.len() - k,
        {
            let key = rule_result_key(root, rules[k].rule, &options.includes, &global);
            result_keys.push(key);
            current.push(Vec::new());
            found.push(Vec::new());
            k = k + 1;
        }
        Ok(RuleRun {
            rules,
            global_excludes: global,
            result_keys,
            filters: Vec::new(),
            cache: None,
            current,
            found,
        })
    }

    /// The filter of the files to visit: the run's includes, the exclusions
    /// for all rules, and where only changed files count, their paths. The
    /// error is the first glob that does not compile.
    pub fn collection_filter(&self, options: &SearchOptions, changed: Option<Vec<String>>) -> (r: Result<
        FileFilter,
        String,
    >)
        ensures
            match r {
                Ok(f) => filter_problem(seq![strings_view(options.includes@)], strings_view(self.global_excludes@))
                    is None && f@ == spec_filter(
                    seq![strings_view(options.includes@)],
                    strings_view(self.global_excludes@),
                    crate::files::opt_strings(changed),
                ),
                Err(e) => filter_problem(seq![strings_view(options.includes@)], strings_view(self.global_excludes@))
                    == Some(e@),
            },
    {
        let mut groups: Vec<Vec<String>> = Vec::new();
        groups.push(copy_strings(&options.includes));
        assert(groups_view(groups@) =~= seq![strings_view(options.includes@)]);
        FileFilter::new(&groups, &self.global_excludes, changed)
    }

    /// Builds the filter of each rule: the run's includes and the rule's, the
    /// exclusions for all rules and the rule's. The error is the first glob
    /// that does not compile, rule after rule.
    pub fn build_rule_filters(&mut self, options: &SearchOptions) -> (r: Result<(), String>)
        requires
            old(self).sized(),
        ensures
            final(self).rules@ == old(self).rules@,
            final(self).global_excludes@ == old(self).global_excludes@,
            final(self).result_keys@ == old(self).result_keys@,
            final(self).cache == old(self).cache,
            final(self).current@ == old(self).current@,
            final(self).found@ == old(self).found@,
            match r {
                Ok(()) => {
                    &&& rule_filters_problem(
                        old(self).rule_seq(),
                        strings_view(options.includes@),
                        strings_view(old(self).global_excludes@),
                        0,
                    ) is None
                    &&& final(self).ready()
                    &&& forall|k: int|
                        0 <= k < old(self).rules@.len() ==> (#[trigger] final(self).filters@[k])@ == spec_filter(
                            rule_groups(strings_view(options.includes@), old(self).rule(k)),
                            strings_view(old(self).global_excludes@) + strings_view(
                                old(self).rule(k).exclude@,
                            ),
                            None,
                        )
                },
                Err(e) => rule_filters_problem(
                    old(self).rule_seq(),
                    strings_view(options.includes@),
                    strings_view(old(self).global_excludes@),
                    0,
                ) == Some(e@),
            },
    {
        let ghost includes = strings_view(options.includes@);
        let ghost global = strings_view(self.global_excludes@);
        let ghost rules = self.rule_seq();
        let mut filters: Vec<FileFilter> = Vec::new();
        let mut k: usize = 0;
        while k < self.rules.len()
            invariant
                k <= self.rules@.len(),
                rules == self.rule_seq(),
                includes == strings_view(options.includes@),
                global == strings_view(self.global_excludes@),
                filters@.len() == k,
                rule_filters_problem(rules, includes, global, 0) == rule_filters_problem(
                    rules,
                    includes,
                    global,
                    k as int,
                ),
                forall|m: int|
                    0 <= m < k ==> (#[trigger] filters@[m])@ == spec_filter(
                        rule_groups(includes, rules[m]),
                        global + strings_view(rules[m].exclude@),
                        None,
                    ),
            decreases self.rules@.len() - k,
        {
            let rule = self.rules[k].rule;
            assert(rules[k as int] == *rule);
            let mut groups: Vec<Vec<String>> = Vec::new();
            groups.push(copy_strings(&options.includes));
            groups.push(copy_strings(&rule.includes));
            assert(groups_view(groups@) =~= rule_groups(includes, *rule));
            let excludes = concat_strings(&self.global_excludes, &rule.exclude);
            let filter = match FileFilter::new(&groups, &excludes, None) {
                Ok(f) => f,
                Err(e) => {
                    assert(strings_view(excludes@) == global + strings_view(rules[k as int].exclude@));
                    assert(rule_filters_problem(rules, includes, global, k as int) == Some(e@));
                    return Err(e);
                },
            };
            filters.push(filter);
            k = k + 1;
        }
        self.filters = filters;
        Ok(())
    }

    /// The key under which the cache holds the file shown as `display`; empty
    /// where no cache is used.
    pub open spec fn file_key_of(&self, display: Seq<char>) -> Seq<char> {
        match self.cache {
            Some(c) => normalized(
                match spec_strip_path_prefix(display, c.base()@) {
                    Some(relative) => relative,
                    None => display,
                },
            ),
            None => seq![],
        }
    }

    /// Whether rule `k` covers the file at `relative`.
    pub open spec fn covers(&self, k: int, relative: Seq<char>) -> bool {
        spec_accepts(self.filters@[k]@, normalized(relative))
    }

    /// The findings of rule `k` that the cache holds for a file.
    pub open spec fn cached(&self, k: int, key: Seq<char>, hash: Seq<char>) -> Option<Seq<FindingView>> {
        match self.cache {
            Some(c) => spec_findings(c@, key, hash, self.result_keys@[k]@),
            None => None,
        }
    }

    /// Whether rule `k` must search a file whose cache key is `key`: it
    /// covers the file, and the cache holds no findings for it.
    pub open spec fn to_search_key(&self, relative: Seq<char>, key: Seq<char>, hash: Seq<char>, k: int) -> bool {
        self.covers(k, relative) && self.cached(k, key, hash) is None
    }

    /// Whether rule `k` must search the file shown as `display`.
    pub open spec fn to_search(&self, display: Seq<char>, relative: Seq<char>, hash: Seq<char>, k: int) -> bool {
        self.to_search_key(relative, self.file_key_of(display), hash, k)
    }

    /// The rules that must search a file, in order.
    pub open spec fn searched_rules(&self, display: Seq<char>, relative: Seq<char>, hash: Seq<char>) -> Seq<int> {
        indices_where(|k: int| self.to_search(display, relative, hash, k), self.rules@.len() as int)
    }

    /// What rule `k` adds for a file: nothing where it does not cover it, the
    /// cached findings where there are some, else its search result, which
    /// stands in `searched` at the rule's place among the rules that search.
    pub open spec fn added(
        &self,
        display: Seq<char>,
        relative: Seq<char>,
        hash: Seq<char>,
        searched: Seq<Seq<FindingView>>,
        k: int,
    ) -> Seq<FindingView> {
        if !self.covers(k, relative) {
            seq![]
        } else {
            match self.cached(k, self.file_key_of(display), hash) {
                Some(f) => f,
                None => searched[indices_where(
                    |m: int| self.to_search(display, relative, hash, m),
                    k,
                ).len() as int],
            }
        }
    }

    /// The result keys of the rules in `ms` paired with the findings in `searched`.
    pub open spec fn stored_pairs(&self, ms: Seq<int>, searched: Seq<Seq<FindingView>>) -> Seq<
        (Seq<char>, Seq<FindingView>),
    > {
        Seq::new(searched.len(), |j: int| (self.result_keys@[ms[j]]@, searched[j]))
    }

    /// Takes in one file: its name as shown, its path relative to the root,
    /// and its text. Each rule that covers it notes it among its files (where
    /// the cache is used) and adds the findings that the cache holds for it;
    /// the rules without such findings search the text together, add what
    /// they found and store it in the cache.
    #[verifier::spinoff_prover]
    #[verifier::rlimit(60)]
    pub fn add_file(&mut self, display: &str, relative: &str, source: &str) -> (r: Result<(), String>)
        requires
            old(self).ready(),
        ensures
            final(self).rules@ == old(self).rules@,
            final(self).global_excludes@ == old(self).global_excludes@,
            final(self).result_keys@ == old(self).result_keys@,
            final(self).filters@ == old(self).filters@,
            final(self).ready(),
            ({
                let hash = spec_content_hash(source.spec_bytes());
                let key = old(self).file_key_of(display@);
                let ms = old(self).searched_rules(display@, relative@, hash);
                match r {
                    Ok(()) => {
                        &&& forall|k: int|
                            0 <= k < old(self).rules@.len() ==> #[trigger] nested_strings(final(self).current@)[k]
                                == nested_strings(old(self).current@)[k] + if old(self).covers(k, relative@)
                                && old(self).cache is Some {
                                seq![key]
                            } else {
                                seq![]
                            }
                        &&& exists|searched: Seq<Seq<FindingView>>|
                            {
                                &&& searched.len() == ms.len()
                                &&& ms.len() > 0 ==> (python_tree(source@) matches Some(v)
                                    && forall|j: int|
                                        0 <= j < ms.len() ==> spec_search_tree(
                                            display@,
                                            v,
                                            old(self).rules@[ms[j]].query@,
                                            rule_context(old(self).rule(ms[j])),
                                        ) == Ok::<Seq<FindingView>, Seq<char>>(#[trigger] searched[j]))
                                &&& forall|k: int|
                                    0 <= k < old(self).rules@.len() ==> #[trigger] nested_findings(
                                        final(self).found@,
                                    )[k] == nested_findings(old(self).found@)[k] + old(self).added(
                                        display@,
                                        relative@,
                                        hash,
                                        searched,
                                        k,
                                    )
                                &&& opt_cache(final(self).cache) == match opt_cache(old(self).cache) {
                                    Some(c) => Some(store_all(c, key, hash, old(self).stored_pairs(ms, searched))),
                                    None => None,
                                }
                            }
                    },
                    Err(e) => ms.len() > 0 && (parse_error(display@, source@, e@) || (python_tree(source@) matches Some(v)
                        && exists|j: int|
                        0 <= j < ms.len() && spec_search_tree(
                            display@,
                            v,
                            old(self).rules@[ms[j]].query@,
                            rule_context(old(self).rule(ms[j])),
                        ) == Err::<Seq<FindingView>, Seq<char>>(e@))),
                }
            }),
    {
        let bytes = source.as_bytes_vec();
        let hash = content_hash(bytes.as_slice());
        let key = match &self.cache {
            Some(c) => c.file_key(display),
            None => String::new(),
        };
        let ghost start = *self;
        let ghost p = |m: int| start.to_search_key(relative@, key@, hash@, m);
        let n = self.rules.len();
        let missing = self.take_cached(relative, &key, &hash);
        let ghost ms = missing@.map_values(|x: usize| x as int);
        let ghost mid = *self;
        proof {
            lemma_indices_where(p, n as int);
            assert(p =~= (|m: int| start.to_search(display@, relative@, hash@, m)));
            assert(ms == start.searched_rules(display@, relative@, hash@));
        }
        if missing.len() == 0 {
            proof {
                let searched: Seq<Seq<FindingView>> = seq![];
                assert forall|m: int| 0 <= m < n implies #[trigger] nested_findings(self.found@)[m]
                    == nested_findings(start.found@)[m] + start.added(display@, relative@, hash@, searched, m) by {
                    if start.covers(m, relative@) && start.cached(m, key@, hash@) is None {
                        assert(p(m));
                    }
                    if !(start.covers(m, relative@) && start.cached(m, key@, hash@) is Some) {
                        assert(nested_findings(start.found@)[m] + Seq::<FindingView>::empty() =~= nested_findings(
                            start.found@,
                        )[m]);
                    }
                }
                assert(start.stored_pairs(ms, searched) =~= Seq::<(Seq<char>, Seq<FindingView>)>::empty());
            }
            return Ok(());
        }
        proof {
            assert forall|i: int| 0 <= i < missing@.len() implies #[trigger] missing@[i] < self.rules@.len() by {
                assert(ms[i] == missing@[i] as int);
            }
        }
        let queries = self.queries_of(&missing);
        let searched = match search_source_queries(display, source, &queries) {
            Ok(all) => all,
            Err(e) => {
                proof {
                    if !parse_error(display@, source@, e@) {
                        let v = python_tree(source@)->Some_0;
                        let i = choose|i: int|
                            0 <= i < queries@.len() && spec_search_tree(
                                display@,
                                v,
                                queries@[i].0@,
                                queries@[i].1@,
                            ) == Err::<Seq<FindingView>, Seq<char>>(e@);
                        assert(ms[i] == missing@[i] as int);
                        assert(queries@[i].0@ == start.rules@[ms[i]].query@);
                        assert(queries@[i].1@ == rule_context(start.rule(ms[i])));
                    }
                }
                return Err(e);
            },
        };
        let ghost sv = nested_findings(searched@);
        self.store_searched(&key, &hash, &missing, &searched, Ghost(p));
        proof {
            let v = python_tree(source@)->Some_0;
            assert forall|j: int| 0 <= j < ms.len() implies spec_search_tree(
                display@,
                v,
                start.rules@[ms[j]].query@,
                rule_context(start.rule(ms[j])),
            ) == Ok::<Seq<FindingView>, Seq<char>>(#[trigger] sv[j]) by {
                assert(ms[j] == missing@[j] as int);
                assert(queries@[j].0@ == start.rules@[ms[j]].query@);
                assert(queries@[j].1@ == rule_context(start.rule(ms[j])));
                assert(findings_view(searched@[j]@) == sv[j]);
            }
            assert(mid.stored_pairs(ms, sv) =~= start.stored_pairs(ms, sv));
            assert forall|m: int| 0 <= m < n implies #[trigger] nested_findings(self.found@)[m]
                == nested_findings(start.found@)[m] + start.added(display@, relative@, hash@, sv, m) by {
                if start.covers(m, relative@) && start.cached(m, key@, hash@) is None {
                    assert(p(m));
                    assert(nested_findings(mid.found@)[m] == nested_findings(start.found@)[m] + Seq::<
                        FindingView,
                    >::empty());
                    assert(nested_findings(start.found@)[m] + Seq::<FindingView>::empty() =~= nested_findings(
                        start.found@,
                    )[m]);
                } else {
                    assert(!p(m));
                    assert(nested_findings(self.found@)[m] == nested_findings(mid.found@)[m] + Seq::<
                        FindingView,
                    >::empty());
                    assert(nested_findings(mid.found@)[m] + Seq::<FindingView>::empty() =~= nested_findings(
                        mid.found@,
                    )[m]);
                    if !start.covers(m, relative@) {
                        assert(nested_findings(start.found@)[m] + Seq::<FindingView>::empty() =~= nested_findings(
                            start.found@,
                        )[m]);
                    }
                }
            }
            assert(sv.len() == ms.len());
        }
        Ok(())
    }

    /// The searches of the rules in `missing`: each rule's query and context.
    fn queries_of(&self, missing: &Vec<usize>) -> (r: Vec<(&Query, SearchContext)>)
        requires
            forall|i: int| 0 <= i < missing@.len() ==> #[trigger] missing@[i] < self.rules@.len(),
        ensures
            r@.len() == missing@.len(),
            forall|i: int|
                0 <= i < missing@.len() ==> (#[trigger] r@[i]).0@ == self.rules@[missing@[i] as int].query@
                    && r@[i].1@ == rule_context(self.rule(missing@[i] as int)),
    {
        let mut queries: Vec<(&Query, SearchContext)> = Vec::new();
        let mut j: usize = 0;
        while j < missing.len()
            invariant
                j <= missing@.len(),
                forall|i: int| 0 <= i < missing@.len() ==> #[trigger] missing@[i] < self.rules@.len(),
                queries@.len() == j,
                forall|i: int|
                    0 <= i < j ==> (#[trigger] queries@[i]).0@ == self.rules@[missing@[i] as int].query@
                        && queries@[i].1@ == rule_context(self.rule(missing@[i] as int)),
            decreases missing@.len() - j,
        {
            let m = missing[j];
            let rule = self.rules[m].rule;
            queries.push(
                (
                    &self.rules[m].query,
                    SearchContext {
                        rule_id: Some(rule.id.as_str()),
                        message: Some(rule.message.as_str()),
                        severity: Some(rule.severity.as_str()),
                    },
                ),
            );
            j = j + 1;
        }
        queries
    }

    /// Notes a file among the files of each rule that covers it (where the
    /// cache is used) and adds the findings that the cache holds for it; the
    /// rules left to search, in order.
    #[verifier::spinoff_prover]
    #[verifier::rlimit(60)]
    fn take_cached(&mut self, relative: &str, key: &String, hash: &String) -> (missing: Vec<usize>)
        requires
            old(self).ready(),
        ensures
            final(self).rules@ == old(self).rules@,
            final(self).global_excludes@ == old(self).global_excludes@,
            final(self).result_keys@ == old(self).result_keys@,
            final(self).filters@ == old(self).filters@,
            final(self).cache == old(self).cache,
            final(self).ready(),
            missing@.map_values(|x: usize| x as int) == indices_where(
                |m: int| old(self).to_search_key(relative@, key@, hash@, m),
                old(self).rules@.len() as int,
            ),
            forall|m: int|
                0 <= m < old(self).rules@.len() ==> #[trigger] nested_strings(final(self).current@)[m]
                    == nested_strings(old(self).current@)[m] + if old(self).covers(m, relative@) && old(
                    self,
                ).cache is Some {
                    seq![key@]
                } else {
                    seq![]
                },
            forall|m: int|
                0 <= m < old(self).rules@.len() ==> #[trigger] nested_findings(final(self).found@)[m]
                    == nested_findings(old(self).found@)[m] + if old(self).covers(m, relative@) && old(
                    self,
                ).cached(m, key@, hash@) is Some {
                    old(self).cached(m, key@, hash@)->0
                } else {
                    seq![]
                },
    {
        let ghost start = *self;
        let ghost p = |m: int| start.to_search_key(relative@, key@, hash@, m);
        let n = self.rules.len();
        let mut missing: Vec<usize> = Vec::new();
        let mut k: usize = 0;
        while k < n
            invariant
                n == start.rules@.len(),
                k <= n,
                self.rules@ == start.rules@,
                self.global_excludes@ == start.global_excludes@,
                self.result_keys@ == start.result_keys@,
                self.filters@ == start.filters@,
                self.cache == start.cache,
                self.ready(),
                start.ready(),
                p == (|m: int| start.to_search_key(relative@, key@, hash@, m)),
                missing@.map_values(|x: usize| x as int) == indices_where(p, k as int),
                forall|m: int|
                    0 <= m < k ==> #[trigger] nested_strings(self.current@)[m] == nested_strings(
                        start.current@,
                    )[m] + if start.covers(m, relative@) && start.cache is Some {
                        seq![key@]
                    } else {
                        seq![]
                    },
                forall|m: int|
                    k <= m < n ==> #[trigger] nested_strings(self.current@)[m] == nested_strings(
                        start.current@,
                    )[m],
                forall|m: int|
                    0 <= m < k ==> #[trigger] nested_findings(self.found@)[m] == nested_findings(
                        start.found@,
                    )[m] + if start.covers(m, relative@) && start.cached(m, key@, hash@) is Some {
                        start.cached(m, key@, hash@)->0
                    } else {
                        seq![]
                    },
                forall|m: int|
                    k <= m < n ==> #[trigger] nested_findings(self.found@)[m] == nested_findings(
                        start.found@,
                    )[m],
            decreases n - k,
        {
            let ghost cur0 = self.current@;
            let ghost found0 = self.found@;
            if self.filters[k].accepts(relative) {
                match &self.cache {
                    Some(cache) => {
                        push_string_at(&mut self.current, k, key.clone());
                        match cache.findings(key.as_str(), hash.as_str(), self.result_keys[k].as_str()) {
                            Some(f) => {
                                extend_findings_at(&mut self.found, k, f);
                            },
                            None => {
                                missing.push(k);
                            },
                        }
                    },
                    None => {
                        missing.push(k);
                    },
                }
            }
            proof {
                assert(missing@.map_values(|x: usize| x as int) =~= indices_where(p, k + 1));
                assert forall|m: int| 0 <= m < n implies #[trigger] nested_strings(self.current@)[m]
                    == (if m == k {
                    nested_strings(cur0)[m] + if start.covers(m, relative@) && start.cache is Some {
                        seq![key@]
                    } else {
                        seq![]
                    }
                } else {
                    nested_strings(cur0)[m]
                }) by {}
                assert forall|m: int| 0 <= m < n implies #[trigger] nested_findings(self.found@)[m]
                    == (if m == k {
                    nested_findings(found0)[m] + if start.covers(m, relative@) && start.cached(m, key@, hash@) is Some {
                        start.cached(m, key@, hash@)->0
                    } else {
                        seq![]
                    }
                } else {
                    nested_findings(found0)[m]
                }) by {}
            }
            k = k + 1;
        }
        missing
    }

    /// Adds the findings that the rules in `missing` found, in `searched`, and
    /// stores them in the cache where it is used.
    #[verifier::spinoff_prover]
    #[verifier::rlimit(60)]
    fn store_searched(
        &mut self,
        key: &String,
        hash: &String,
        missing: &Vec<usize>,
        searched: &Vec<Vec<Finding>>,
        Ghost(p): Ghost<spec_fn(int) -> bool>,
    )
        requires
            old(self).ready(),
            missing@.map_values(|x: usize| x as int) == indices_where(p, old(self).rules@.len() as int),
            searched@.len() == missing@.len(),
        ensures
            final(self).rules@ == old(self).rules@,
            final(self).global_excludes@ == old(self).global_excludes@,
            final(self).result_keys@ == old(self).result_keys@,
            final(self).filters@ == old(self).filters@,
            final(self).current@ == old(self).current@,
            final(self).ready(),
            forall|m: int|
                0 <= m < old(self).rules@.len() ==> #[trigger] nested_findings(final(self).found@)[m]
                    == nested_findings(old(self).found@)[m] + if p(m) {
                    nested_findings(searched@)[indices_where(p, m).len() as int]
                } else {
                    seq![]
                },
            opt_cache(final(self).cache) == match opt_cache(old(self).cache) {
                Some(c) => Some(
                    store_all(
                        c,
                        key@,
                        hash@,
                        old(self).stored_pairs(missing@.map_values(|x: usize| x as int), nested_findings(searched@)),
                    ),
                ),
                None => None,
            },
    {
        let ghost start = *self;
        let ghost n = self.rules@.len() as int;
        let ghost ms = missing@.map_values(|x: usize| x as int);
        let ghost sv = nested_findings(searched@);
        let ghost pairs = start.stored_pairs(ms, sv);
        proof {
            lemma_indices_where(p, n);
        }
        let mut j: usize = 0;
        while j < missing.len()
            invariant
                n == start.rules@.len(),
                self.rules@ == start.rules@,
                self.global_excludes@ == start.global_excludes@,
                self.result_keys@ == start.result_keys@,
                self.filters@ == start.filters@,
                self.current@ == start.current@,
                self.ready(),
                start.ready(),
                j <= missing@.len(),
                ms == missing@.map_values(|x: usize| x as int),
                ms == indices_where(p, n),
                sv == nested_findings(searched@),
                sv.len() == ms.len(),
                pairs == start.stored_pairs(ms, sv),
                forall|i: int| 0 <= i < ms.len() ==> 0 <= #[trigger] ms[i] < n && p(ms[i]),
                forall|a: int, b: int| 0 <= a < b < ms.len() ==> #[trigger] ms[a] < #[trigger] ms[b],
                forall|m: int|
                    0 <= m < n && #[trigger] p(m) ==> indices_where(p, m).len() < ms.len() && ms[indices_where(
                        p,
                        m,
                    ).len() as int] == m,
                forall|m: int|
                    0 <= m < n ==> #[trigger] nested_findings(self.found@)[m] == nested_findings(start.found@)[m]
                        + if p(m) && indices_where(p, m).len() < j {
                        sv[indices_where(p, m).len() as int]
                    } else {
                        seq![]
                    },
                opt_cache(self.cache) == match opt_cache(start.cache) {
                    Some(c) => Some(store_all(c, key@, hash@, pairs.take(j as int))),
                    None => None,
                },
            decreases missing@.len() - j,
        {
            let m = missing[j];
            assert(ms[j as int] == m as int);
            let ghost before = self.found@;
            match &mut self.cache {
                Some(cache) => {
                    cache.store(key.as_str(), hash.as_str(), self.result_keys[m].clone(), duplicate_findings(&searched[j]));
                },
                None => {},
            }
            let more = duplicate_findings(&searched[j]);
            assert(findings_view(more@) == sv[j as int]);
            extend_findings_at(&mut self.found, m, more);
            proof {
                assert(pairs.take(j + 1).drop_last() =~= pairs.take(j as int));
                assert(pairs.take(j + 1).last() == (start.result_keys@[m as int]@, sv[j as int]));
                assert(p(m as int));
                assert(indices_where(p, m as int).len() == j) by {
                    let x = indices_where(p, m as int).len() as int;
                    if x < j {
                        assert(ms[x] < ms[j as int]);
                    } else if x > j {
                        assert(ms[j as int] < ms[x]);
                    }
                }
                assert forall|q: int| 0 <= q < n implies #[trigger] nested_findings(self.found@)[q]
                    == nested_findings(start.found@)[q] + if p(q) && indices_where(p, q).len() < j + 1 {
                    sv[indices_where(p, q).len() as int]
                } else {
                    seq![]
                } by {
                    if q != m {
                        assert(self.found@[q] == before[q]);
                        assert(nested_findings(self.found@)[q] == nested_findings(before)[q]);
                        if p(q) && indices_where(p, q).len() == j {
                            assert(ms[j as int] == q);
                        }
                    } else {
                        assert(nested_findings(before)[q] == nested_findings(start.found@)[q] + Seq::<
                            FindingView,
                        >::empty());
                        assert(nested_findings(start.found@)[q] + Seq::<FindingView>::empty() =~= nested_findings(
                            start.found@,
                        )[q]);
                        assert(nested_findings(self.found@)[q] == nested_findings(before)[q] + sv[j as int]);
                    }
                }
            }
            j = j + 1;
        }
        proof {
            assert(pairs.take(ms.len() as int) =~= pairs);
        }
    }

    /// Ends the run. The cache keeps each rule's results only for the files
    /// the rule covered this time. The findings are those of all rules, rule
    /// after rule, sorted by file, line and column, and at most `max_matches`
    /// of them.
    pub fn finish(self, max_matches: Option<usize>) -> (r: (Vec<Finding>, Option<SearchCache>))
        requires
            self.sized(),
        ensures
            opt_cache(r.1) == match opt_cache(self.cache) {
                Some(c) => Some(
                    retain_all(
                        c,
                        strings_view(self.result_keys@),
                        nested_strings(self.current@),
                        self.rules@.len() as int,
                    ),
                ),
                None => None,
            },
            findings_view(r.0@) == at_most(spec_sort_findings(nested_findings(self.found@).flatten()), max_matches),
    {
        let n = self.rules.len();
        let ghost keys = strings_view(self.result_keys@);
        let ghost cur = nested_strings(self.current@);
        let ghost fv = nested_findings(self.found@);
        let RuleRun { rules: _, global_excludes: _, result_keys, filters: _, cache, current, found } = self;
        let mut cache = cache;
        let ghost c0 = opt_cache(cache);
        let mut k: usize = 0;
        while k < n
            invariant
                k <= n,
                n == result_keys@.len(),
                n == current@.len(),
                keys == strings_view(result_keys@),
                cur == nested_strings(current@),
                opt_cache(cache) == match c0 {
                    Some(c) => Some(retain_all(c, keys, cur, k as int)),
                    None => None,
                },
            decreases n - k,
        {
            match &mut cache {
                Some(c) => {
                    c.retain_result_files(result_keys[k].as_str(), &current[k]);
                    assert(current@[k as int]@.map_values(|s: String| s@) =~= cur[k as int]);
                },
                None => {},
            }
            k = k + 1;
        }
        let mut all: Vec<Finding> = Vec::new();
        let mut j: usize = 0;
        while j < n
            invariant
                j <= n,
                n == found@.len(),
                fv == nested_findings(found@),
                findings_view(all@) == fv.take(j as int).flatten_alt(),
            decreases n - j,
        {
            let ghost before = findings_view(all@);
            let mut more = duplicate_findings(&found[j]);
            let ghost added = more@;
            let ghost all0 = all@;
            all.append(&mut more);
            proof {
                assert(all@ =~= all0 + added);
                assert(findings_view(all@) =~= before + fv[j as int]);
                assert(fv.take(j + 1).drop_last() =~= fv.take(j as int));
            }
            j = j + 1;
        }
        proof {
            assert(fv.take(n as int) =~= fv);
            fv.lemma_flatten_and_flatten_alt_are_equivalent();
        }
        sort_findings(&mut all);
        let ghost sorted = findings_view(all@);
        match max_matches {
            Some(m) => {
                if m < all.len() {
                    all.truncate(m);
                    assert(findings_view(all@) =~= sorted.take(m as int));
                }
            },
            None => {},
        }
        (all, cache)
    }
}

/// One query run over many files: the cache and the key of the query's
/// results where the cache is used, the files searched so far under it, the
/// findings so far, and how many findings at most.
pub struct QueryRun {
    pub cache: Option<SearchCache>,
    pub result_key: String,
    pub current: Vec<String>,
    pub found: Vec<Finding>,
    pub max_matches: Option<usize>,
}

impl QueryRun {
    /// Starts a run with the given options. The cache is used where the
    /// options allow it and name a result key; `cache` is then the cache as
    /// it was stored.
    pub fn new(options: &SearchOptions, cache: Option<SearchCache>) -> (r: Self)
        ensures
            opt_cache(r.cache) == if cache_used(options) && options.cache_key is Some {
                opt_cache(cache)
            } else {
                None
            },
            r.cache is Some ==> (options.cache_key matches Some(k) && r.result_key@ == k@),
            r.current@.len() == 0,
            r.found@.len() == 0,
            r.max_matches == options.max_matches,
    {
        let enabled = cache_enabled(options);
        let (cache, result_key) = match &options.cache_key {
            Some(k) => if enabled {
                (cache, k.clone())
            } else {
                (None, String::new())
            },
            None => (None, String::new()),
        };
        QueryRun { cache, result_key, current: Vec::new(), found: Vec::new(), max_matches: options.max_matches }
    }

    /// The key under which the cache holds the file shown as `display`.
    pub open spec fn file_key_of(&self, display: Seq<char>) -> Seq<char> {
        match self.cache {
            Some(c) => normalized(
                match spec_strip_path_prefix(display, c.base()@) {
                    Some(relative) => relative,
                    None => display,
                },
            ),
            None => seq![],
        }
    }

    /// Takes in one file, by its name as shown and its text: the findings the
    /// cache holds for it, or else those the search finds, which the cache
    /// then stores. `true` while the run may go on, `false` once it has as
    /// many findings as it may have, the last file's cut to fit.
    pub fn add_file(&mut self, display: &str, source: &str, query: &Query, context: &SearchContext) -> (r: Result<
        bool,
        String,
    >)
        ensures
            final(self).result_key == old(self).result_key,
            final(self).max_matches == old(self).max_matches,
            ({
                let hash = spec_content_hash(source.spec_bytes());
                let key = old(self).file_key_of(display@);
                let cached = match old(self).cache {
                    Some(c) => spec_findings(c@, key, hash, old(self).result_key@),
                    None => None,
                };
                match r {
                    Ok(go_on) => {
                        &&& strings_view(final(self).current@) == strings_view(old(self).current@) + if old(
                            self,
                        ).cache is Some {
                            seq![key]
                        } else {
                            seq![]
                        }
                        &&& exists|added: Seq<FindingView>|
                            {
                                &&& match cached {
                                    Some(f) => added == f,
                                    None => spec_search_source(display@, source@, query@, context@) == Ok::<
                                        Seq<FindingView>,
                                        Seq<char>,
                                    >(added),
                                }
                                &&& findings_view(final(self).found@) == at_most(
                                    findings_view(old(self).found@) + added,
                                    old(self).max_matches,
                                )
                                &&& go_on == !((old(self).max_matches matches Some(m) && findings_view(
                                    old(self).found@,
                                ).len() + added.len() >= m))
                                &&& opt_cache(final(self).cache) == match old(self).cache {
                                    Some(c) => if cached is Some {
                                        Some(c@)
                                    } else {
                                        Some(spec_store(c@, key, hash, old(self).result_key@, added))
                                    },
                                    None => None,
                                }
                            }
                    },
                    Err(e) => cached is None && (spec_search_source(
                        display@,
                        source@,
                        query@,
                        context@,
                    ) == Err::<Seq<FindingView>, Seq<char>>(e@)),
                }
            }),
    {
        let bytes = source.as_bytes_vec();
        let hash = content_hash(bytes.as_slice());
        let context = SearchContext {
            rule_id: context.rule_id,
            message: context.message,
            severity: context.severity,
        };
        let found = match &mut self.cache {
            Some(cache) => {
                let key = cache.file_key(display);
                self.current.push(key.clone());
                match cache.findings(key.as_str(), hash.as_str(), self.result_key.as_str()) {
                    Some(found) => found,
                    None => {
                        let found = match search_source(display, source, query, context) {
                            Ok(found) => found,
                            Err(e) => {
                                return Err(e);
                            },
                        };
                        cache.store(key.as_str(), hash.as_str(), self.result_key.clone(), duplicate_findings(&found));
                        found
                    },
                }
            },
            None => match search_source(display, source, query, context) {
                Ok(found) => found,
                Err(e) => {
                    return Err(e);
                },
            },
        };
        let ghost added = findings_view(found@);
        let ghost before = findings_view(self.found@);
        let mut found = found;
        let ghost f0 = self.found@;
        let ghost a0 = found@;
        self.found.append(&mut found);
        proof {
            assert(self.found@ =~= f0 + a0);
            assert(findings_view(self.found@) =~= before + added);
        }
        match self.max_matches {
            Some(m) => {
                if self.found.len() >= m {
                    self.found.truncate(m);
                    assert(findings_view(self.found@) =~= (before + added).take(m as int));
                    return Ok(false);
                }
            },
            None => {},
        }
        Ok(true)
    }

    /// Ends the run: the cache keeps the query's results only for the files
    /// searched this time; the findings.
    pub fn finish(self) -> (r: (Vec<Finding>, Option<SearchCache>))
        ensures
            findings_view(r.0@) == findings_view(self.found@),
            opt_cache(r.1) == match self.cache {
                Some(c) => Some(spec_retain(c@, self.result_key@, strings_view(self.current@))),
                None => None,
            },
    {
        let QueryRun { cache, result_key, current, found, max_matches: _ } = self;
        let mut cache = cache;
        match &mut cache {
            Some(c) => {
                c.retain_result_files(result_key.as_str(), &current);
                assert(current@.map_values(|s: String| s@) =~= strings_view(current@));
            },
            None => {},
        }
        (found, cache)
    }
}

} // verus!
