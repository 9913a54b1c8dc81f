//! Searching one Python source text with a query: syntax checks,
//! suppression comments, and the findings of each matching node.
use vstd::prelude::*;
use crate::query::matcher::{captures_query, spec_captures_query, states_view};
use crate::query::model::Query;
use crate::query::resolver::{is_named_child, spec_scopes, NameResolver, ScopeView};
use crate::report::{findings_view, Finding, FindingView};
use crate::syntax::{build_tree, named_below, parsed_as, python_tree, SyntaxTree, TreeView};
use crate::ts::{parse_text, python_parser};
use crate::text::{
    chars_eq, chars_of, find_sub, first_line, line_at, push_decimal, spec_decimal, spec_find,
    spec_find_sub, spec_first_line, spec_line_at, spec_trim, string_of, strip_cr, trim,
};

verus! {

/// What to search: path patterns, whether only changed files count, how many
/// findings at most, and how the cache is used.
pub struct SearchOptions {
    pub includes: Vec<String>,
    pub required_includes: Vec<Vec<String>>,
    pub excludes: Vec<String>,
    pub changed_only: bool,
    pub max_matches: Option<usize>,
    pub use_cache: bool,
    pub cache_key: Option<String>,
    pub num_workers: usize,
}

impl SearchOptions {
    /// No patterns, all files, no limit, the cache on, one worker.
    pub fn new() -> (r: Self)
        ensures
            r.includes@.len() == 0,
            r.required_includes@.len() == 0,
            r.excludes@.len() == 0,
            !r.changed_only,
            r.max_matches is None,
            r.use_cache,
            r.cache_key is None,
            r.num_workers == 1,
    {
        SearchOptions {
            includes: Vec::new(),
            required_includes: Vec::new(),
            excludes: Vec::new(),
            changed_only: false,
            max_matches: None,
            use_cache: true,
            cache_key: None,
            num_workers: 1,
        }
    }
}

/// Whether a search over many files reads and writes the cache: where it is
/// on, and neither only changed files nor a limit on findings count.
pub open spec fn cache_used(options: &SearchOptions) -> bool {
    options.use_cache && !options.changed_only && options.max_matches is None
}

pub fn cache_enabled(options: &SearchOptions) -> (r: bool)
    ensures
        r == cache_used(options),
{
    options.use_cache && !options.changed_only && options.max_matches.is_none()
}

/// The rule on whose behalf a search runs, if any.
pub struct SearchContext<'a> {
    pub rule_id: Option<&'a str>,
    pub message: Option<&'a str>,
    pub severity: Option<&'a str>,
}

pub struct ContextView {
    pub rule_id: Option<Seq<char>>,
    pub message: Option<Seq<char>>,
    pub severity: Option<Seq<char>>,
}

pub open spec fn opt_str(o: Option<&str>) -> Option<Seq<char>> {
    match o {
        Some(s) => Some(s@),
        None => None,
    }
}

impl<'a> View for SearchContext<'a> {
    type V = ContextView;

    open spec fn view(&self) -> ContextView {
        ContextView {
            rule_id: opt_str(self.rule_id),
            message: opt_str(self.message),
            severity: opt_str(self.severity),
        }
    }
}

pub open spec fn is_separator(c: char) -> bool {
    c == ',' || c == ' ' || c == '\t'
}

/// The pieces of `s` between separators, as `str::split` with
/// `[',', ' ', '\t']` yields them (empty pieces included).
pub open spec fn spec_pieces(s: Seq<char>) -> Seq<Seq<char>>
    decreases s.len(),
{
    if s.len() == 0 {
        seq![seq![]]
    } else {
        let p = spec_pieces(s.drop_last());
        if is_separator(s.last()) {
            p.push(seq![])
        } else {
            p.update(p.len() - 1, p.last().push(s.last()))
        }
    }
}

pub proof fn lemma_pieces_nonempty(s: Seq<char>)
    ensures
        spec_pieces(s).len() > 0,
    decreases s.len(),
{
    if s.len() > 0 {
        lemma_pieces_nonempty(s.drop_last());
    }
}

/// `s[i..j]` is one of the runs of `s` between separators (`,`, space or
/// tab), the ends of `s` counting as separators.
pub open spec fn piece_at(s: Seq<char>, i: int, j: int) -> bool {
    &&& 0 <= i <= j <= s.len()
    &&& (i == 0 || s[i - 1] == ',' || s[i - 1] == ' ' || s[i - 1] == '\t')
    &&& (j == s.len() || s[j] == ',' || s[j] == ' ' || s[j] == '\t')
    &&& forall|k: int| i <= k < j ==> !(#[trigger] s[k] == ',' || s[k] == ' ' || s[k] == '\t')
}

/// The last piece of `p` is the run that ends `s`.
#[verifier::opaque]
pub open spec fn runs_last(s: Seq<char>, p: Seq<Seq<char>>) -> bool {
    p.len() >= 1 && exists|ls: int| piece_at(s, ls, s.len() as int) && p.last() == s.subrange(ls, s.len() as int)
}

/// Some run of `s` that ends before the end of `s` spells `w`.
pub open spec fn early_run(s: Seq<char>, w: Seq<char>) -> bool {
    exists|i: int, j: int| piece_at(s, i, j) && j < s.len() && s.subrange(i, j) == w
}

/// Every other piece of `p` is a run that ends before the end of `s`.
#[verifier::opaque]
pub open spec fn runs_sound(s: Seq<char>, p: Seq<Seq<char>>) -> bool {
    forall|m: int| 0 <= m < p.len() - 1 ==> early_run(s, #[trigger] p[m])
}

/// Every run that ends before the end of `s` is one of those other pieces.
#[verifier::opaque]
pub open spec fn runs_complete(s: Seq<char>, p: Seq<Seq<char>>) -> bool {
    forall|i: int, j: int|
        #![trigger piece_at(s, i, j)]
        piece_at(s, i, j) && j < s.len() ==> exists|m: int| 0 <= m < p.len() - 1 && #[trigger] p[m] == s.subrange(i, j)
}

/// Only one run ends `s`.
#[verifier::opaque]
pub open spec fn runs_tail(s: Seq<char>, p: Seq<Seq<char>>) -> bool {
    p.len() >= 1 && forall|i: int| piece_at(s, i, s.len() as int) ==> #[trigger] s.subrange(i, s.len() as int) == p.last()
}

pub open spec fn runs_ok(s: Seq<char>, p: Seq<Seq<char>>) -> bool {
    runs_last(s, p) && runs_sound(s, p) && runs_complete(s, p) && runs_tail(s, p)
}

/// A run that ends inside `s` is a run of `s` without its last character,
/// with the same text.
proof fn lemma_piece_shrink(s: Seq<char>, i: int, j: int)
    requires
        s.len() > 0,
        0 <= j < s.len(),
    ensures
        piece_at(s, i, j) <==> piece_at(s.drop_last(), i, j) && (j < s.len() - 1 || is_separator(s.last())),
        0 <= i <= j ==> s.subrange(i, j) == s.drop_last().subrange(i, j),
{
    let t = s.drop_last();
    assert forall|k: int| 0 <= k < t.len() implies t[k] == s[k] by {}
    if 0 <= i <= j {
        assert(s.subrange(i, j) =~= t.subrange(i, j));
    }
}

/// A run that ends `s` after a character other than a separator is the run
/// that ends `s` without that character, with the character added.
proof fn lemma_piece_grow(s: Seq<char>, i: int)
    requires
        s.len() > 0,
        !is_separator(s.last()),
        0 <= i < s.len(),
    ensures
        piece_at(s, i, s.len() as int) <==> piece_at(s.drop_last(), i, s.len() - 1),
        s.subrange(i, s.len() as int) == s.drop_last().subrange(i, s.len() - 1).push(s.last()),
{
    let t = s.drop_last();
    assert forall|k: int| 0 <= k < t.len() implies t[k] == s[k] by {}
    assert(s.subrange(i, s.len() as int) =~= t.subrange(i, s.len() - 1).push(s.last()));
}

proof fn lemma_runs_empty(s: Seq<char>)
    requires
        s.len() == 0,
    ensures
        runs_ok(s, spec_pieces(s)),
{
    reveal(runs_last);
    reveal(runs_sound);
    reveal(runs_complete);
    reveal(runs_tail);
    assert(spec_pieces(s) == seq![Seq::<char>::empty()]);
    assert(piece_at(s, 0, 0));
    assert(s.subrange(0, 0) =~= Seq::<char>::empty());
    assert forall|i: int| piece_at(s, i, s.len() as int) implies #[trigger] s.subrange(i, s.len() as int)
        == spec_pieces(s).last() by {
        assert(s.subrange(i, 0) =~= Seq::<char>::empty());
    }
}

proof fn lemma_runs_separator(s: Seq<char>)
    requires
        s.len() > 0,
        is_separator(s.last()),
        runs_ok(s.drop_last(), spec_pieces(s.drop_last())),
    ensures
        runs_ok(s, spec_pieces(s)),
{
    let n = s.len() as int;
    let t = s.drop_last();
    let p = spec_pieces(t);
    let q = p.push(seq![]);
    assert(spec_pieces(s) == q);
    assert(runs_last(s, q)) by {
        reveal(runs_last);
        assert(piece_at(s, n, n));
        assert(s.subrange(n, n) =~= Seq::<char>::empty());
    }
    assert(runs_sound(s, q)) by {
        reveal(runs_sound);
        reveal(runs_last);
        let ls = choose|ls: int| piece_at(t, ls, t.len() as int) && p.last() == t.subrange(ls, t.len() as int);
        assert forall|m: int| 0 <= m < q.len() - 1 implies early_run(s, #[trigger] q[m]) by {
            if m < p.len() - 1 {
                assert(early_run(t, p[m]));
                let (i, j) = choose|i: int, j: int| piece_at(t, i, j) && j < t.len() && t.subrange(i, j) == p[m];
                lemma_piece_shrink(s, i, j);
                assert(q[m] == p[m]);
                assert(piece_at(s, i, j) && j < s.len() && s.subrange(i, j) == q[m]);
            } else {
                lemma_piece_shrink(s, ls, n - 1);
                assert(piece_at(s, ls, n - 1) && n - 1 < s.len() && s.subrange(ls, n - 1) == q[m]);
            }
        }
    }
    assert(runs_complete(s, q)) by {
        reveal(runs_complete);
        reveal(runs_tail);
        assert forall|i: int, j: int|
            #![trigger piece_at(s, i, j)]
            piece_at(s, i, j) && j < s.len() implies exists|m: int| 0 <= m < q.len() - 1 && #[trigger] q[m] == s.subrange(i, j) by {
            lemma_piece_shrink(s, i, j);
            if j < n - 1 {
                let m = choose|m: int| 0 <= m < p.len() - 1 && #[trigger] p[m] == t.subrange(i, j);
                assert(q[m] == p[m]);
            } else {
                assert(t.subrange(i, t.len() as int) == p.last());
                assert(q[p.len() - 1] == p.last());
            }
        }
    }
    assert(runs_tail(s, q)) by {
        reveal(runs_tail);
        assert forall|i: int| piece_at(s, i, s.len() as int) implies #[trigger] s.subrange(i, s.len() as int) == q.last() by {
            if i < n {
                assert(!(s[n - 1] == ',' || s[n - 1] == ' ' || s[n - 1] == '\t'));
            }
            assert(s.subrange(i, n) =~= Seq::<char>::empty());
        }
    }
}

proof fn lemma_runs_plain(s: Seq<char>)
    requires
        s.len() > 0,
        !is_separator(s.last()),
        runs_ok(s.drop_last(), spec_pieces(s.drop_last())),
    ensures
        runs_ok(s, spec_pieces(s)),
{
    let n = s.len() as int;
    let t = s.drop_last();
    let c = s.last();
    let p = spec_pieces(t);
    assert(p.len() >= 1) by {
        reveal(runs_last);
    }
    let l = p.len() - 1;
    let q = p.update(l, p.last().push(c));
    assert(spec_pieces(s) == q);
    assert(runs_last(s, q)) by {
        reveal(runs_last);
        let ls = choose|ls: int| piece_at(t, ls, t.len() as int) && p.last() == t.subrange(ls, t.len() as int);
        if ls == n {
        }
        assert(ls < n);
        lemma_piece_grow(s, ls);
    }
    assert(runs_sound(s, q)) by {
        reveal(runs_sound);
        assert forall|m: int| 0 <= m < q.len() - 1 implies early_run(s, #[trigger] q[m]) by {
            assert(early_run(t, p[m]));
            let (i, j) = choose|i: int, j: int| piece_at(t, i, j) && j < t.len() && t.subrange(i, j) == p[m];
            lemma_piece_shrink(s, i, j);
            assert(q[m] == p[m]);
            assert(piece_at(s, i, j) && j < s.len() && s.subrange(i, j) == q[m]);
        }
    }
    assert(runs_complete(s, q)) by {
        reveal(runs_complete);
        assert forall|i: int, j: int|
            #![trigger piece_at(s, i, j)]
            piece_at(s, i, j) && j < s.len() implies exists|m: int| 0 <= m < q.len() - 1 && #[trigger] q[m] == s.subrange(i, j) by {
            lemma_piece_shrink(s, i, j);
            assert(j < n - 1);
            let m = choose|m: int| 0 <= m < p.len() - 1 && #[trigger] p[m] == t.subrange(i, j);
            assert(q[m] == p[m]);
        }
    }
    assert(runs_tail(s, q)) by {
        reveal(runs_tail);
        assert forall|i: int| piece_at(s, i, s.len() as int) implies #[trigger] s.subrange(i, s.len() as int) == q.last() by {
            if i == n {
                assert(s[n - 1] == c);
            }
            assert(i < n);
            lemma_piece_grow(s, i);
            assert(t.subrange(i, t.len() as int) == p.last());
        }
    }
}

proof fn lemma_pieces_runs(s: Seq<char>)
    ensures
        runs_ok(s, spec_pieces(s)),
    decreases s.len(),
{
    if s.len() == 0 {
        lemma_runs_empty(s);
    } else {
        lemma_pieces_runs(s.drop_last());
        if is_separator(s.last()) {
            lemma_runs_separator(s);
        } else {
            lemma_runs_plain(s);
        }
    }
}

/// The pieces that a rule list splits into are exactly the runs of the list
/// between separators (`,`, space or tab): `w` is among them just where some
/// run of the text spells `w`.
pub proof fn pieces_are_runs_between_separators(s: Seq<char>, w: Seq<char>)
    ensures
        spec_pieces(s).contains(w) <==> exists|i: int, j: int| piece_at(s, i, j) && s.subrange(i, j) == w,
{
    lemma_pieces_runs(s);
    reveal(runs_last);
    reveal(runs_sound);
    reveal(runs_complete);
    reveal(runs_tail);
    let p = spec_pieces(s);
    if p.contains(w) {
        let m = choose|m: int| 0 <= m < p.len() && p[m] == w;
        if m < p.len() - 1 {
            assert(p[m] == w);
        } else {
            let ls = choose|ls: int| piece_at(s, ls, s.len() as int) && p.last() == s.subrange(ls, s.len() as int);
            assert(piece_at(s, ls, s.len() as int) && s.subrange(ls, s.len() as int) == w);
        }
    }
    if exists|i: int, j: int| piece_at(s, i, j) && s.subrange(i, j) == w {
        let (i, j) = choose|i: int, j: int| piece_at(s, i, j) && s.subrange(i, j) == w;
        if j < s.len() {
            let m = choose|m: int| 0 <= m < p.len() - 1 && #[trigger] p[m] == s.subrange(i, j);
            assert(p[m] == w);
        } else {
            assert(s.subrange(i, s.len() as int) == p.last());
            assert(p[p.len() - 1] == w);
        }
    }
}

/// Whether `line` holds `directive`, followed by no rule, or by `rule_id`
/// among the rules listed after it.
#[verifier::opaque]
pub open spec fn spec_directive_matches(line: Seq<char>, directive: Seq<char>, rule_id: Seq<char>) -> bool {
    match spec_find_sub(line, directive) {
        None => false,
        Some(i) => {
            let arguments = spec_trim(line.subrange(i + directive.len(), line.len() as int));
            arguments.len() == 0 || spec_pieces(arguments).contains(rule_id)
        },
    }
}

/// A directive names a rule just where the text after its first occurrence
/// in the line, trimmed, is empty (naming every rule) or has a run between
/// separators (`,`, space or tab) that spells the rule.
pub proof fn directive_names_listed_rules(line: Seq<char>, directive: Seq<char>, rule_id: Seq<char>)
    ensures
        spec_directive_matches(line, directive, rule_id) <==> match spec_find_sub(line, directive) {
            None => false,
            Some(i) => {
                let args = spec_trim(line.subrange(i + directive.len(), line.len() as int));
                args.len() == 0 || exists|a: int, b: int| piece_at(args, a, b) && args.subrange(a, b) == rule_id
            },
        },
{
    reveal(spec_directive_matches);
    if let Some(i) = spec_find_sub(line, directive) {
        let args = spec_trim(line.subrange(i + directive.len(), line.len() as int));
        pieces_are_runs_between_separators(args, rule_id);
    }
}

pub open spec fn ignore_directive() -> Seq<char> {
    "pyastq: ignore"@
}

pub open spec fn ignore_file_directive() -> Seq<char> {
    "pyastq: ignore-file"@
}

pub open spec fn short_ignore_directive() -> Seq<char> {
    "past: ignore"@
}

pub open spec fn short_ignore_file_directive() -> Seq<char> {
    "past: ignore-file"@
}

/// Whether `line` suppresses `rule_id` on its own line and the next one
/// (`pyastq: ignore`, also spelled `past: ignore`).
pub open spec fn spec_line_directive(line: Seq<char>, rule_id: Seq<char>) -> bool {
    spec_directive_matches(line, ignore_directive(), rule_id) || spec_directive_matches(
        line,
        short_ignore_directive(),
        rule_id,
    )
}

/// Whether `line` suppresses `rule_id` in the whole file (`pyastq: ignore-file`,
/// also spelled `past: ignore-file`).
pub open spec fn spec_file_directive(line: Seq<char>, rule_id: Seq<char>) -> bool {
    spec_directive_matches(line, ignore_file_directive(), rule_id) || spec_directive_matches(
        line,
        short_ignore_file_directive(),
        rule_id,
    )
}

/// Whether some line of `source` suppresses `rule_id` in the whole file.
#[verifier::opaque]
pub open spec fn spec_file_suppressed(source: Seq<char>, rule_id: Seq<char>) -> bool
    decreases source.len(),
{
    if source.len() == 0 {
        false
    } else {
        match spec_find(source, '\n') {
            Some(i) => if !(0 <= i < source.len()) {
                false
            } else {
                spec_file_directive(strip_cr(source.subrange(0, i)), rule_id) || spec_file_suppressed(
                    source.subrange(i + 1, source.len() as int),
                    rule_id,
                )
            },
            None => spec_file_directive(source, rule_id),
        }
    }
}

/// Whether line `line_number` (one-based) of `source`, or the line before it,
/// suppresses `rule_id`. For the first line, "the line before" is the first
/// line again.
pub open spec fn spec_line_suppressed(source: Seq<char>, line_number: nat, rule_id: Seq<char>) -> bool {
    let current = if line_number >= 1 {
        (line_number - 1) as nat
    } else {
        0
    };
    let previous = if line_number >= 2 {
        (line_number - 2) as nat
    } else {
        0
    };
    (spec_line_at(source, current) matches Some(l) && spec_line_directive(l, rule_id)) || (
    spec_line_at(source, previous) matches Some(l) && spec_line_directive(l, rule_id))
}

/// Node `i` marks a syntax error, and no node before it does.
pub open spec fn is_first_error(t: TreeView, i: int) -> bool {
    0 <= i < t.len() && t.node(i).is_error && forall|j: int| 0 <= j < i ==> !t.node(j).is_error
}

/// The first node, in the order of the tree, that marks a syntax error.
pub open spec fn spec_first_error(t: TreeView) -> Option<int> {
    if exists|i: int| 0 <= i < t.len() && t.node(i).is_error {
        Some(choose|i: int| is_first_error(t, i))
    } else {
        None
    }
}

/// `path:line:column: invalid Python syntax: source line` for the node that
/// marks the error.
pub open spec fn spec_syntax_error(path: Seq<char>, t: TreeView, e: int) -> Seq<char> {
    let n = t.node(e);
    path + seq![':'] + spec_decimal((n.row + 1) as nat) + seq![':'] + spec_decimal(
        (n.column + 1) as nat,
    ) + ": invalid Python syntax: "@ + match spec_line_at(t.source, n.row as nat) {
        Some(l) => l,
        None => seq![],
    }
}

/// The finding for node `i` with the captures of its first match.
pub open spec fn spec_finding(
    path: Seq<char>,
    t: TreeView,
    i: int,
    ctx: ContextView,
    captures: Seq<(Seq<char>, Seq<char>)>,
) -> FindingView {
    let n = t.node(i);
    FindingView {
        path,
        line: (n.row + 1) as nat,
        column: (n.column + 1) as nat,
        text: spec_first_line(t.text(i)),
        rule_id: ctx.rule_id,
        message: ctx.message,
        severity: ctx.severity,
        start_byte: n.start_byte as nat,
        end_byte: n.end_byte as nat,
        captures,
    }
}

/// The finding at node `i`, if the query matches there and no comment
/// suppresses the rule on its line.
pub open spec fn spec_node_findings(
    path: Seq<char>,
    t: TreeView,
    scopes: Seq<ScopeView>,
    q: crate::query::model::QueryView,
    ctx: ContextView,
    i: int,
) -> Seq<FindingView> {
    let caps = spec_captures_query(t, scopes, i, q);
    let suppressed = match ctx.rule_id {
        Some(id) => spec_line_suppressed(t.source, (t.node(i).row + 1) as nat, id),
        None => false,
    };
    if caps.len() > 0 && !suppressed {
        seq![spec_finding(path, t, i, ctx, caps[0])]
    } else {
        seq![]
    }
}

/// The findings at node `i` and below it, visiting named children in order.
pub open spec fn spec_walk(
    path: Seq<char>,
    t: TreeView,
    scopes: Seq<ScopeView>,
    q: crate::query::model::QueryView,
    ctx: ContextView,
    i: int,
) -> Seq<FindingView>
    decreases t.len() - i, 1int, 0int,
{
    if !(0 <= i < t.len()) {
        seq![]
    } else {
        spec_node_findings(path, t, scopes, q, ctx, i) + spec_walk_children(path, t, scopes, q, ctx, i, 0)
    }
}

pub open spec fn spec_walk_children(
    path: Seq<char>,
    t: TreeView,
    scopes: Seq<ScopeView>,
    q: crate::query::model::QueryView,
    ctx: ContextView,
    i: int,
    k: int,
) -> Seq<FindingView>
    decreases t.len() - i, 0int, t.child_count(i) - k,
{
    if !(0 <= i < t.len()) || k < 0 || k >= t.child_count(i) {
        seq![]
    } else {
        let piece = if is_named_child(t, i, k) {
            spec_walk(path, t, scopes, q, ctx, t.child(i, k))
        } else {
            seq![]
        };
        piece + spec_walk_children(path, t, scopes, q, ctx, i, k + 1)
    }
}

/// The search of a parsed file: its first syntax error, or nothing where a
/// comment suppresses the rule in the whole file, or the findings of the
/// matching nodes in document order.
pub open spec fn spec_search_tree(
    path: Seq<char>,
    t: TreeView,
    q: crate::query::model::QueryView,
    ctx: ContextView,
) -> Result<Seq<FindingView>, Seq<char>> {
    match spec_first_error(t) {
        Some(e) => Err(spec_syntax_error(path, t, e)),
        None => if ctx.rule_id matches Some(id) && spec_file_suppressed(t.source, id) {
            Ok(seq![])
        } else {
            Ok(spec_walk(path, t, spec_scopes(t), q, ctx, 0))
        },
    }
}

/// No finding of the walk below node `i` stands on a line that suppresses its rule.
proof fn lemma_walk_unsuppressed(
    path: Seq<char>,
    t: TreeView,
    scopes: Seq<ScopeView>,
    q: crate::query::model::QueryView,
    ctx: ContextView,
    id: Seq<char>,
    i: int,
)
    requires
        ctx.rule_id == Some(id),
    ensures
        forall|m: int|
            0 <= m < spec_walk(path, t, scopes, q, ctx, i).len() ==> !spec_line_suppressed(
                t.source,
                #[trigger] spec_walk(path, t, scopes, q, ctx, i)[m].line,
                id,
            ),
    decreases t.len() - i, 1int, 0int,
{
    if 0 <= i < t.len() {
        lemma_children_unsuppressed(path, t, scopes, q, ctx, id, i, 0);
        let node = spec_node_findings(path, t, scopes, q, ctx, i);
        let rest = spec_walk_children(path, t, scopes, q, ctx, i, 0);
        assert(spec_walk(path, t, scopes, q, ctx, i) == node + rest);
        assert forall|m: int|
            0 <= m < (node + rest).len() implies !spec_line_suppressed(
            t.source,
            #[trigger] (node + rest)[m].line,
            id,
        ) by {
            if m < node.len() {
                assert((node + rest)[m] == node[m]);
            } else {
                assert((node + rest)[m] == rest[m - node.len()]);
            }
        }
    }
}

proof fn lemma_children_unsuppressed(
    path: Seq<char>,
    t: TreeView,
    scopes: Seq<ScopeView>,
    q: crate::query::model::QueryView,
    ctx: ContextView,
    id: Seq<char>,
    i: int,
    k: int,
)
    requires
        ctx.rule_id == Some(id),
    ensures
        forall|m: int|
            0 <= m < spec_walk_children(path, t, scopes, q, ctx, i, k).len()
                ==> !spec_line_suppressed(
                t.source,
                #[trigger] spec_walk_children(path, t, scopes, q, ctx, i, k)[m].line,
                id,
            ),
    decreases t.len() - i, 0int, t.child_count(i) - k,
{
    if 0 <= i < t.len() && 0 <= k < t.child_count(i) {
        let piece = if is_named_child(t, i, k) {
            lemma_walk_unsuppressed(path, t, scopes, q, ctx, id, t.child(i, k));
            spec_walk(path, t, scopes, q, ctx, t.child(i, k))
        } else {
            seq![]
        };
        lemma_children_unsuppressed(path, t, scopes, q, ctx, id, i, k + 1);
        let rest = spec_walk_children(path, t, scopes, q, ctx, i, k + 1);
        assert(spec_walk_children(path, t, scopes, q, ctx, i, k) == piece + rest);
        assert forall|m: int|
            0 <= m < (piece + rest).len() implies !spec_line_suppressed(
            t.source,
            #[trigger] (piece + rest)[m].line,
            id,
        ) by {
            if m < piece.len() {
                assert((piece + rest)[m] == piece[m]);
            } else {
                assert((piece + rest)[m] == rest[m - piece.len()]);
            }
        }
    }
}

/// Whether `line` holds an `ignore-file` directive (either spelling) that
/// names rule `id` or names no rule.
pub open spec fn names_file_ignore(line: Seq<char>, id: Seq<char>) -> bool {
    spec_directive_matches(line, "pyastq: ignore-file"@, id) || spec_directive_matches(line, "past: ignore-file"@, id)
}

/// Whether `line` holds an `ignore` directive (either spelling) that names
/// rule `id` or names no rule.
pub open spec fn names_line_ignore(line: Seq<char>, id: Seq<char>) -> bool {
    spec_directive_matches(line, "pyastq: ignore"@, id) || spec_directive_matches(line, "past: ignore"@, id)
}

/// A file is suppressed for a rule only where one of its lines holds an
/// `ignore-file` directive naming that rule or naming none.
pub proof fn file_suppressed_only_by_ignore_file(source: Seq<char>, id: Seq<char>)
    ensures
        spec_file_suppressed(source, id) ==> exists|n: nat|
            #[trigger] spec_line_at(source, n) matches Some(l) && names_file_ignore(l, id),
    decreases source.len(),
{
    reveal(spec_file_suppressed);
    reveal(spec_line_at);
    if source.len() > 0 && spec_file_suppressed(source, id) {
        match spec_find(source, '\n') {
            Some(i) => {
                if 0 <= i < source.len() {
                    let first = strip_cr(source.subrange(0, i));
                    let rest = source.subrange(i + 1, source.len() as int);
                    if spec_file_directive(first, id) {
                        assert(spec_line_at(source, 0) == Some(first));
                    } else {
                        file_suppressed_only_by_ignore_file(rest, id);
                        let n = choose|n: nat| #[trigger] spec_line_at(rest, n) matches Some(l) && names_file_ignore(l, id);
                        assert(spec_line_at(source, n + 1) == spec_line_at(rest, n));
                    }
                }
            },
            None => {
                assert(spec_line_at(source, 0) == Some(source));
            },
        }
    }
}

proof fn lemma_ignore_file_suppresses(source: Seq<char>, id: Seq<char>, n: nat)
    requires
        spec_line_at(source, n) matches Some(l) && names_file_ignore(l, id),
    ensures
        spec_file_suppressed(source, id),
    decreases source.len(),
{
    reveal(spec_file_suppressed);
    reveal(spec_line_at);
    assert(ignore_file_directive() == "pyastq: ignore-file"@);
    assert(short_ignore_file_directive() == "past: ignore-file"@);
    if source.len() > 0 {
        match spec_find(source, '\n') {
            Some(i) => {
                if 0 <= i < source.len() && n > 0 {
                    lemma_ignore_file_suppresses(source.subrange(i + 1, source.len() as int), id, (n - 1) as nat);
                }
            },
            None => {},
        }
    }
}

/// A line with an `ignore-file` directive for the rule (or for no rule)
/// silences the whole file: a search without syntax errors finds nothing.
pub proof fn ignore_file_silences_the_file(
    path: Seq<char>,
    t: TreeView,
    q: crate::query::model::QueryView,
    ctx: ContextView,
    id: Seq<char>,
    n: nat,
)
    requires
        ctx.rule_id == Some(id),
        spec_first_error(t) is None,
        spec_line_at(t.source, n) matches Some(l) && names_file_ignore(l, id),
    ensures
        spec_search_tree(path, t, q, ctx) == Ok::<Seq<FindingView>, Seq<char>>(seq![]),
{
    lemma_ignore_file_suppresses(t.source, id, n);
}

/// No finding stands on a line that holds an `ignore` directive for the
/// rule (or for no rule), nor on the line just after such a line.
pub proof fn ignored_lines_have_no_findings(
    path: Seq<char>,
    t: TreeView,
    q: crate::query::model::QueryView,
    ctx: ContextView,
    id: Seq<char>,
)
    requires
        ctx.rule_id == Some(id),
    ensures
        spec_search_tree(path, t, q, ctx) matches Ok(fs) ==> forall|m: int|
            0 <= m < fs.len() && #[trigger] fs[m].line >= 1 ==> (spec_line_at(t.source, (fs[m].line - 1) as nat) matches Some(
                l,
            ) ==> !names_line_ignore(l, id)) && (fs[m].line >= 2 ==> (spec_line_at(
                t.source,
                (fs[m].line - 2) as nat,
            ) matches Some(l) ==> !names_line_ignore(l, id))),
{
    suppressed_rules_are_not_reported(path, t, q, ctx, id);
    assert(ignore_directive() == "pyastq: ignore"@);
    assert(short_ignore_directive() == "past: ignore"@);
}

proof fn lemma_walk_holds(
    path: Seq<char>,
    t: TreeView,
    scopes: Seq<ScopeView>,
    q: crate::query::model::QueryView,
    ctx: ContextView,
    i: int,
    d: int,
    n: nat,
    f: FindingView,
)
    requires
        i == d || named_below(t, i, d, n),
        0 <= d < t.len(),
        spec_node_findings(path, t, scopes, q, ctx, d).contains(f),
    ensures
        spec_walk(path, t, scopes, q, ctx, i).contains(f),
    decreases n,
{
    let own = spec_node_findings(path, t, scopes, q, ctx, i);
    if i == d {
        let below = spec_walk_children(path, t, scopes, q, ctx, i, 0);
        assert(spec_walk(path, t, scopes, q, ctx, i) == own + below);
        let m = choose|m: int| 0 <= m < own.len() && own[m] == f;
        assert((own + below)[m] == f);
    } else {
        let k = choose|k: int|
            0 <= k < t.child_count(i) && i < #[trigger] t.child(i, k) < t.len() && t.node(t.child(i, k)).named && (
            t.child(i, k) == d || named_below(t, t.child(i, k), d, (n - 1) as nat));
        let c = t.child(i, k);
        lemma_walk_holds(path, t, scopes, q, ctx, c, d, (n - 1) as nat, f);
        lemma_children_hold(path, t, scopes, q, ctx, i, 0, k, f);
        let below = spec_walk_children(path, t, scopes, q, ctx, i, 0);
        assert(spec_walk(path, t, scopes, q, ctx, i) == own + below);
        let m = choose|m: int| 0 <= m < below.len() && below[m] == f;
        assert((own + below)[m + own.len()] == f);
    }
}

proof fn lemma_children_hold(
    path: Seq<char>,
    t: TreeView,
    scopes: Seq<ScopeView>,
    q: crate::query::model::QueryView,
    ctx: ContextView,
    i: int,
    k: int,
    j: int,
    f: FindingView,
)
    requires
        0 <= i < t.len(),
        0 <= k <= j < t.child_count(i),
        is_named_child(t, i, j),
        spec_walk(path, t, scopes, q, ctx, t.child(i, j)).contains(f),
    ensures
        spec_walk_children(path, t, scopes, q, ctx, i, k).contains(f),
    decreases j - k,
{
    let piece = if is_named_child(t, i, k) {
        spec_walk(path, t, scopes, q, ctx, t.child(i, k))
    } else {
        seq![]
    };
    let rest = spec_walk_children(path, t, scopes, q, ctx, i, k + 1);
    assert(spec_walk_children(path, t, scopes, q, ctx, i, k) == piece + rest);
    if k == j {
        let m = choose|m: int| 0 <= m < piece.len() && piece[m] == f;
        assert((piece + rest)[m] == f);
    } else {
        lemma_children_hold(path, t, scopes, q, ctx, i, k + 1, j, f);
        let m = choose|m: int| 0 <= m < rest.len() && rest[m] == f;
        assert((piece + rest)[m + piece.len()] == f);
    }
}

/// The search misses no unsuppressed match. Searching a tree without a
/// syntax error on behalf of rule `id`, where no line holds an `ignore-file`
/// directive for the rule, a node at or below the root where the query
/// matches, on a line that, like the line before it, holds no `ignore`
/// directive for the rule, is reported: its finding is among the results.
pub proof fn unsuppressed_matches_are_reported(
    path: Seq<char>,
    t: TreeView,
    q: crate::query::model::QueryView,
    ctx: ContextView,
    id: Seq<char>,
    d: int,
    n: nat,
)
    requires
        ctx.rule_id == Some(id),
        spec_first_error(t) is None,
        forall|k: nat| #[trigger] spec_line_at(t.source, k) matches Some(l) ==> !names_file_ignore(l, id),
        d == 0 || named_below(t, 0, d, n),
        0 <= d < t.len(),
        spec_captures_query(t, spec_scopes(t), d, q).len() > 0,
        spec_line_at(t.source, t.node(d).row as nat) matches Some(l) ==> !names_line_ignore(l, id),
        t.node(d).row >= 1 ==> (spec_line_at(t.source, (t.node(d).row - 1) as nat) matches Some(l)
            ==> !names_line_ignore(l, id)),
    ensures
        spec_search_tree(path, t, q, ctx) matches Ok(fs) && fs.contains(
            spec_finding(path, t, d, ctx, spec_captures_query(t, spec_scopes(t), d, q)[0]),
        ),
{
    file_suppressed_only_by_ignore_file(t.source, id);
    assert(!spec_file_suppressed(t.source, id));
    assert(ignore_directive() == "pyastq: ignore"@);
    assert(short_ignore_directive() == "past: ignore"@);
    assert(!spec_line_suppressed(t.source, (t.node(d).row + 1) as nat, id));
    let f = spec_finding(path, t, d, ctx, spec_captures_query(t, spec_scopes(t), d, q)[0]);
    assert(spec_node_findings(path, t, spec_scopes(t), q, ctx, d) == seq![f]);
    assert(seq![f][0] == f);
    lemma_walk_holds(path, t, spec_scopes(t), q, ctx, 0, d, n, f);
}

/// A suppressed rule is never reported. Searching on behalf of rule `id`, no
/// finding stands on a line that `pyastq: ignore` (or `past: ignore`) on that
/// line or the line above suppresses for `id`; and a file with a matching
/// `ignore-file` comment and no syntax error yields no finding at all.
pub proof fn suppressed_rules_are_not_reported(
    path: Seq<char>,
    t: TreeView,
    q: crate::query::model::QueryView,
    ctx: ContextView,
    id: Seq<char>,
)
    requires
        ctx.rule_id == Some(id),
    ensures
        spec_search_tree(path, t, q, ctx) matches Ok(fs) ==> forall|m: int|
            0 <= m < fs.len() ==> !spec_line_suppressed(t.source, #[trigger] fs[m].line, id),
        spec_first_error(t) is None && spec_file_suppressed(t.source, id) ==> spec_search_tree(
            path,
            t,
            q,
            ctx,
        ) == Ok::<Seq<FindingView>, Seq<char>>(seq![]),
{
    lemma_walk_unsuppressed(path, t, spec_scopes(t), q, ctx, id, 0);
}

/// Whether `rule_id` is among the pieces of `arguments`.
fn pieces_contain(arguments: &[char], rule_id: &[char]) -> (r: bool)
    ensures
        r == spec_pieces(arguments@).contains(rule_id@),
{
    let mut current: Vec<char> = Vec::new();
    let mut found = false;
    let mut i: usize = 0;
    assert(arguments@.subrange(0, 0) =~= Seq::<char>::empty());
    while i < arguments.len()
        invariant
            i <= arguments@.len(),
            spec_pieces(arguments@.subrange(0, i as int)).len() > 0,
            current@ == spec_pieces(arguments@.subrange(0, i as int)).last(),
            found == spec_pieces(arguments@.subrange(0, i as int)).drop_last().contains(rule_id@),
        decreases arguments@.len() - i,
    {
        let ghost prefix = arguments@.subrange(0, i as int);
        let ghost next = arguments@.subrange(0, i + 1);
        assert(next.drop_last() =~= prefix);
        assert(next.last() == arguments@[i as int]);
        proof {
            lemma_pieces_nonempty(prefix);
        }
        let c = arguments[i];
        if c == ',' || c == ' ' || c == '\t' {
            let matched = chars_eq(&current, rule_id);
            proof {
                let p = spec_pieces(prefix);
                assert(spec_pieces(next) == p.push(seq![]));
                assert(p.push(Seq::<char>::empty()).drop_last() =~= p);
                assert(p =~= p.drop_last().push(p.last()));
                assert(p.drop_last().push(p.last()).contains(rule_id@) == (p.drop_last().contains(
                    rule_id@,
                ) || p.last() == rule_id@)) by {
                    if p.last() == rule_id@ {
                        assert(p.drop_last().push(p.last())[p.len() - 1] == rule_id@);
                    }
                    if p.drop_last().contains(rule_id@) {
                        let k = choose|k: int| 0 <= k < p.drop_last().len() && p.drop_last()[k] == rule_id@;
                        assert(p.drop_last().push(p.last())[k] == rule_id@);
                    }
                }
            }
            found = found || matched;
            current = Vec::new();
        } else {
            current.push(c);
            proof {
                let p = spec_pieces(prefix);
                assert(spec_pieces(next) == p.update(p.len() - 1, p.last().push(c)));
                assert(p.update(p.len() - 1, p.last().push(c)).drop_last() =~= p.drop_last());
            }
        }
        i = i + 1;
    }
    proof {
        let p = spec_pieces(arguments@.subrange(0, i as int));
        assert(arguments@.subrange(0, i as int) =~= arguments@);
        assert(p =~= p.drop_last().push(p.last()));
        if p.last() == rule_id@ {
            assert(p.drop_last().push(p.last())[p.len() - 1] == rule_id@);
        }
        if p.drop_last().contains(rule_id@) {
            let k = choose|k: int| 0 <= k < p.drop_last().len() && p.drop_last()[k] == rule_id@;
            assert(p.drop_last().push(p.last())[k] == rule_id@);
        }
        if p.contains(rule_id@) {
            let k = choose|k: int| 0 <= k < p.len() && p[k] == rule_id@;
            if k < p.len() - 1 {
                assert(p.drop_last()[k] == rule_id@);
            }
        }
    }
    found || chars_eq(&current, rule_id)
}

fn directive_matches(line: &[char], directive: &str, rule_id: &[char]) -> (r: bool)
    ensures
        r == spec_directive_matches(line@, directive@, rule_id@),
{
    proof {
        reveal(spec_directive_matches);
    }
    let d = chars_of(directive);
    match find_sub(line, &d) {
        None => false,
        Some(i) => {
            assert(i + d@.len() <= line@.len());
            assert(line@.len() == line.len());
            assert(d@.len() == d.len());
            let rest = crate::text::slice_to_vec_range(line, i + d.len(), line.len());
            let arguments = trim(&rest);
            arguments.len() == 0 || pieces_contain(&arguments, rule_id)
        },
    }
}

fn line_directive(line: &[char], rule_id: &[char]) -> (r: bool)
    ensures
        r == spec_line_directive(line@, rule_id@),
{
    proof {
        reveal_strlit("pyastq: ignore");
        reveal_strlit("past: ignore");
    }
    directive_matches(line, "pyastq: ignore", rule_id) || directive_matches(line, "past: ignore", rule_id)
}

fn file_directive(line: &[char], rule_id: &[char]) -> (r: bool)
    ensures
        r == spec_file_directive(line@, rule_id@),
{
    proof {
        reveal_strlit("pyastq: ignore-file");
        reveal_strlit("past: ignore-file");
    }
    directive_matches(line, "pyastq: ignore-file", rule_id) || directive_matches(
        line,
        "past: ignore-file",
        rule_id,
    )
}

proof fn lemma_file_suppressed_found(s: Seq<char>, i: int, rule_id: Seq<char>)
    requires
        spec_find(s, '\n') == Some(i),
        0 <= i < s.len(),
    ensures
        spec_file_suppressed(s, rule_id) == (spec_file_directive(strip_cr(s.subrange(0, i)), rule_id)
            || spec_file_suppressed(s.subrange(i + 1, s.len() as int), rule_id)),
{
    reveal(spec_file_suppressed);
}

proof fn lemma_file_suppressed_last(s: Seq<char>, rule_id: Seq<char>)
    requires
        spec_find(s, '\n') is None,
        s.len() > 0,
    ensures
        spec_file_suppressed(s, rule_id) == spec_file_directive(s, rule_id),
{
    reveal(spec_file_suppressed);
}

proof fn lemma_file_suppressed_empty(s: Seq<char>, rule_id: Seq<char>)
    requires
        s.len() == 0,
    ensures
        !spec_file_suppressed(s, rule_id),
{
    reveal(spec_file_suppressed);
}

/// Whether some line of `source` suppresses `rule_id` in the whole file.
#[verifier::spinoff_prover]
#[verifier::rlimit(90)]
fn file_is_suppressed(source: &[char], rule_id: &[char]) -> (r: bool)
    ensures
        r == spec_file_suppressed(source@, rule_id@),
{
    let mut start: usize = 0;
    assert(source@.subrange(0, source@.len() as int) =~= source@);
    while start < source.len()
        invariant
            start <= source@.len(),
            spec_file_suppressed(source@, rule_id@) == spec_file_suppressed(
                source@.subrange(start as int, source@.len() as int),
                rule_id@,
            ),
        decreases source@.len() - start,
    {
        let ghost rest = source@.subrange(start as int, source@.len() as int);
        match crate::text::find_newline_from(source, start) {
            Some(j) => {
                proof {
                    lemma_file_suppressed_found(rest, j - start, rule_id@);
                }
                let mut line = crate::text::slice_to_vec_range(source, start, j);
                if j > start && source[j - 1] == '\r' {
                    line.pop();
                }
                proof {
                    assert(rest.subrange(0, j - start) =~= source@.subrange(start as int, j as int));
                    if j > start && source@[j - 1] == '\r' {
                        assert(line@ =~= strip_cr(rest.subrange(0, j - start)));
                    }
                    assert(rest.subrange(j - start + 1, rest.len() as int) =~= source@.subrange(
                        j + 1,
                        source@.len() as int,
                    ));
                }
                if file_directive(&line, rule_id) {
                    return true;
                }
                start = j + 1;
            },
            None => {
                proof {
                    lemma_file_suppressed_last(rest, rule_id@);
                }
                let line = crate::text::slice_to_vec_range(source, start, source.len());
                return file_directive(&line, rule_id);
            },
        }
    }
    proof {
        lemma_file_suppressed_empty(source@.subrange(start as int, source@.len() as int), rule_id@);
    }
    false
}

/// Whether line `line_number` of `source`, or the line before it, suppresses `rule_id`.
fn line_is_suppressed(source: &[char], line_number: usize, rule_id: &[char]) -> (r: bool)
    ensures
        r == spec_line_suppressed(source@, line_number as nat, rule_id@),
{
    let current = if line_number >= 1 {
        line_number - 1
    } else {
        0
    };
    let previous = if line_number >= 2 {
        line_number - 2
    } else {
        0
    };
    let a = match line_at(source, current) {
        Some(l) => line_directive(&l, rule_id),
        None => false,
    };
    let b = match line_at(source, previous) {
        Some(l) => line_directive(&l, rule_id),
        None => false,
    };
    a || b
}

proof fn lemma_first_error_is(t: TreeView, i: int)
    requires
        0 <= i < t.len(),
        t.node(i).is_error,
        forall|j: int| 0 <= j < i ==> !t.node(j).is_error,
    ensures
        spec_first_error(t) == Some(i),
{
    assert(is_first_error(t, i));
    let k = choose|k: int| is_first_error(t, k);
    assert(is_first_error(t, k));
    if k < i {
        assert(!t.node(k).is_error);
    }
    if k > i {
        assert(!t.node(i).is_error);
    }
}

/// The first node of the tree that marks a syntax error.
fn first_error(t: &SyntaxTree) -> (r: Option<usize>)
    requires
        t.wf(),
    ensures
        r matches Some(e) ==> spec_first_error(t@) == Some(e as int) && e < t.nodes@.len(),
        r is None ==> spec_first_error(t@) is None,
{
    let mut i: usize = 0;
    while i < t.nodes.len()
        invariant
            i <= t.nodes@.len(),
            t@.len() == t.nodes@.len(),
            forall|j: int| 0 <= j < i ==> !t@.node(j).is_error,
        decreases t.nodes@.len() - i,
    {
        assert(t@.node(i as int) == t.nodes@[i as int]@);
        if t.nodes[i].is_error {
            proof {
                lemma_first_error_is(t@, i as int);
            }
            return Some(i);
        }
        i = i + 1;
    }
    None
}

fn syntax_error(path: &str, t: &SyntaxTree, e: usize) -> (r: String)
    requires
        t.wf(),
        e < t.nodes@.len(),
    ensures
        r@ == spec_syntax_error(path@, t@, e as int),
{
    assert(t.node_ok(e as int));
    let n = &t.nodes[e];
    let mut out = chars_of(path);
    out.push(':');
    push_decimal(&mut out, n.row + 1);
    out.push(':');
    push_decimal(&mut out, n.column + 1);
    let tail = chars_of(": invalid Python syntax: ");
    crate::text::append_chars(&mut out, &tail);
    match line_at(&t.source, n.row) {
        Some(l) => crate::text::append_chars(&mut out, &l),
        None => {},
    }
    proof {
        reveal_strlit(": invalid Python syntax: ");
        let l = match spec_line_at(t.source@, n.row as nat) {
            Some(l) => l,
            None => Seq::<char>::empty(),
        };
        assert(out@ =~= spec_syntax_error(path@, t@, e as int));
    }
    string_of(&out)
}

fn opt_string(o: Option<&str>) -> (r: Option<String>)
    ensures
        crate::report::opt_chars(r) == opt_str(o),
{
    match o {
        Some(s) => Some(string_of(&chars_of(s))),
        None => None,
    }
}

/// Adds the findings at node `i` and below it to `out`.
fn collect_matches(
    path: &str,
    t: &SyntaxTree,
    resolver: &NameResolver,
    query: &Query,
    ctx: &SearchContext,
    i: usize,
    out: &mut Vec<Finding>,
)
    requires
        t.wf(),
        i < t.nodes@.len(),
        resolver.wf(),
    ensures
        findings_view(final(out)@) == findings_view(old(out)@) + spec_walk(
            path@,
            t@,
            resolver@,
            query@,
            ctx@,
            i as int,
        ),
    decreases t.nodes@.len() - i,
{
    let ghost start = findings_view(out@);
    let captures = captures_query(t, i, query, resolver);
    assert(t.node_ok(i as int));
    if captures.len() > 0 {
        let suppressed = match ctx.rule_id {
            Some(id) => line_is_suppressed(&t.source, t.nodes[i].row + 1, &chars_of(id)),
            None => false,
        };
        if !suppressed {
            let text = t.node_text(i);
            let finding = Finding {
                path: string_of(&chars_of(path)),
                line: t.nodes[i].row + 1,
                column: t.nodes[i].column + 1,
                text: string_of(&first_line(&text)),
                rule_id: opt_string(ctx.rule_id),
                message: opt_string(ctx.message),
                severity: opt_string(ctx.severity),
                start_byte: t.nodes[i].start_byte,
                end_byte: t.nodes[i].end_byte,
                captures: captures[0].duplicate(),
            };
            let ghost before = out@;
            out.push(finding);
            proof {
                assert(states_view(captures@)[0] == captures@[0]@);
                assert(findings_view(out@) =~= findings_view(before).push(finding@));
            }
        }
    }
    proof {
        assert(findings_view(out@) =~= start + spec_node_findings(
            path@,
            t@,
            resolver@,
            query@,
            ctx@,
            i as int,
        ));
    }
    let ghost mid = findings_view(out@);
    let mut k: usize = 0;
    while k < t.nodes[i].children.len()
        invariant
            t.wf(),
            resolver.wf(),
            i < t.nodes@.len(),
            k <= t.child_count(i as int),
            findings_view(out@) + spec_walk_children(path@, t@, resolver@, query@, ctx@, i as int, k as int)
                == mid + spec_walk_children(path@, t@, resolver@, query@, ctx@, i as int, 0),
        decreases t.child_count(i as int) - k,
    {
        assert(t.node_ok(i as int));
        let c = t.nodes[i].children[k];
        let ghost before = findings_view(out@);
        if t.nodes[c].named {
            collect_matches(path, t, resolver, query, ctx, c, out);
        }
        proof {
            let rest = spec_walk_children(path@, t@, resolver@, query@, ctx@, i as int, k + 1);
            assert(findings_view(out@) + rest =~= before + spec_walk_children(
                path@,
                t@,
                resolver@,
                query@,
                ctx@,
                i as int,
                k as int,
            ));
        }
        k = k + 1;
    }
    proof {
        assert(findings_view(out@) =~= findings_view(out@) + Seq::<FindingView>::empty());
        assert(start + spec_walk(path@, t@, resolver@, query@, ctx@, i as int) =~= mid
            + spec_walk_children(path@, t@, resolver@, query@, ctx@, i as int, 0));
    }
}

/// Searches a parsed file with a query on behalf of `context`, with the
/// scopes of `resolver`, which are those of `t`.
fn search_with_resolver(
    path: &str,
    t: &SyntaxTree,
    resolver: &NameResolver,
    query: &Query,
    context: &SearchContext,
) -> (r: Result<Vec<Finding>, String>)
    requires
        t.wf(),
        resolver.wf(),
        resolver@ == spec_scopes(t@),
    ensures
        match r {
            Ok(f) => spec_search_tree(path@, t@, query@, context@) == Ok::<Seq<FindingView>, Seq<char>>(
                findings_view(f@),
            ),
            Err(e) => spec_search_tree(path@, t@, query@, context@) == Err::<Seq<FindingView>, Seq<char>>(
                e@,
            ),
        },
{
    match first_error(t) {
        Some(e) => {
            return Err(syntax_error(path, t, e));
        },
        None => {},
    }
    let mut findings: Vec<Finding> = Vec::new();
    assert(findings_view(findings@) =~= Seq::<FindingView>::empty());
    match context.rule_id {
        Some(id) => {
            if file_is_suppressed(&t.source, &chars_of(id)) {
                return Ok(findings);
            }
        },
        None => {},
    }
    collect_matches(path, t, resolver, query, context, 0, &mut findings);
    assert(findings_view(findings@) =~= Seq::<FindingView>::empty() + spec_walk(
        path@,
        t@,
        resolver@,
        query@,
        context@,
        0,
    ));
    Ok(findings)
}

/// Searches a parsed file with a query on behalf of `context`: the file's
/// first syntax error, or its findings in document order.
pub fn search_tree(path: &str, t: &SyntaxTree, query: &Query, context: SearchContext) -> (r: Result<
    Vec<Finding>,
    String,
>)
    requires
        t.wf(),
    ensures
        match r {
            Ok(f) => spec_search_tree(path@, t@, query@, context@) == Ok::<Seq<FindingView>, Seq<char>>(
                findings_view(f@),
            ),
            Err(e) => spec_search_tree(path@, t@, query@, context@) == Err::<Seq<FindingView>, Seq<char>>(
                e@,
            ),
        },
{
    let resolver = NameResolver::new(t);
    search_with_resolver(path, t, &resolver, query, &context)
}

/// Parsing `source` failed with `e`: the text has no syntax tree, and `e` is
/// `could not parse <path>`.
pub open spec fn parse_error(path: Seq<char>, source: Seq<char>, e: Seq<char>) -> bool {
    e == "could not parse "@ + path && python_tree(source) is None
}

/// Parses `source` with the Python grammar: the tree that `source` parses
/// to, or `could not parse <path>` where it has none.
pub fn parse_source(path: &str, source: &str) -> (r: Result<SyntaxTree, String>)
    ensures
        r matches Ok(t) ==> parsed_as(t, source@),
        r matches Err(e) ==> parse_error(path@, source@, e@),
{
    let mut parser = match python_parser() {
        Ok(p) => p,
        Err(e) => {
            return Err(e);
        },
    };
    let tree = match parse_text(&mut parser, source) {
        Some(tree) => build_tree(source, &tree),
        None => None,
    };
    match tree {
        Some(t) => Ok(t),
        None => {
            let mut message = chars_of("could not parse ");
            crate::text::append_chars(&mut message, &chars_of(path));
            Err(string_of(&message))
        },
    }
}

/// The search of a source text: `could not parse <path>` where the text has
/// no syntax tree, else the search of the tree that it parses to.
pub open spec fn spec_search_source(
    path: Seq<char>,
    source: Seq<char>,
    q: crate::query::model::QueryView,
    ctx: ContextView,
) -> Result<Seq<FindingView>, Seq<char>> {
    match python_tree(source) {
        Some(v) => spec_search_tree(path, v, q, ctx),
        None => Err("could not parse "@ + path),
    }
}

/// Searches the Python source text of the file at `path` with a query on
/// behalf of `context`: its first syntax error, or its findings in document
/// order, for the tree that `tree-sitter` parses from it.
pub fn search_source(path: &str, source: &str, query: &Query, context: SearchContext) -> (r: Result<
    Vec<Finding>,
    String,
>)
    ensures
        match r {
            Ok(f) => spec_search_source(path@, source@, query@, context@) == Ok::<
                Seq<FindingView>,
                Seq<char>,
            >(findings_view(f@)),
            Err(e) => spec_search_source(path@, source@, query@, context@) == Err::<
                Seq<FindingView>,
                Seq<char>,
            >(e@),
        },
{
    let t = match parse_source(path, source) {
        Ok(t) => t,
        Err(e) => {
            return Err(e);
        },
    };
    search_tree(path, &t, query, context)
}

/// Searches one source text with several queries, each on behalf of its
/// rule; the file is parsed once, and each query finds what searching the
/// text with it alone finds. Where the file has a syntax error, that error
/// is the result.
pub fn search_source_queries(path: &str, source: &str, queries: &Vec<(&Query, SearchContext)>) -> (r: Result<
    Vec<Vec<Finding>>,
    String,
>)
    ensures
        r matches Ok(all) ==> all@.len() == queries@.len() && (python_tree(source@) matches Some(v)
            && forall|k: int|
            0 <= k < queries@.len() ==> spec_search_tree(
                path@,
                v,
                queries@[k].0@,
                queries@[k].1@,
            ) == Ok::<Seq<FindingView>, Seq<char>>(findings_view(#[trigger] all@[k]@))),
        r matches Ok(all) ==> forall|k: int|
            0 <= k < queries@.len() ==> spec_search_source(path@, source@, queries@[k].0@, queries@[k].1@)
                == Ok::<Seq<FindingView>, Seq<char>>(findings_view(#[trigger] all@[k]@)),
        r matches Err(e) ==> parse_error(path@, source@, e@) || (python_tree(source@) matches Some(v)
            && exists|k: int|
            0 <= k < queries@.len() && spec_search_tree(
                path@,
                v,
                queries@[k].0@,
                queries@[k].1@,
            ) == Err::<Seq<FindingView>, Seq<char>>(e@)),
{
    let t = match parse_source(path, source) {
        Ok(t) => t,
        Err(e) => {
            return Err(e);
        },
    };
    let resolver = NameResolver::new(&t);
    let mut all: Vec<Vec<Finding>> = Vec::new();
    let mut k: usize = 0;
    while k < queries.len()
        invariant
            parsed_as(t, source@),
            resolver.wf(),
            resolver@ == spec_scopes(t@),
            k <= queries@.len(),
            all@.len() == k,
            forall|j: int|
                0 <= j < k ==> spec_search_tree(path@, t@, queries@[j].0@, queries@[j].1@) == Ok::<
                    Seq<FindingView>,
                    Seq<char>,
                >(findings_view(#[trigger] all@[j]@)),
        decreases queries@.len() - k,
    {
        let found = match search_with_resolver(path, &t, &resolver, queries[k].0, &queries[k].1) {
            Ok(found) => found,
            Err(e) => {
                return Err(e);
            },
        };
        all.push(found);
        k = k + 1;
    }
    Ok(all)
}

/// Checks that `source` parses as Python: the error is the first syntax
/// error, written as `path:line:column: invalid Python syntax: line`.
pub fn validate_python(path: &str, source: &str) -> (r: Result<(), String>)
    ensures
        r is Ok ==> (python_tree(source@) matches Some(v) && spec_first_error(v) is None),
        r matches Err(e) ==> parse_error(path@, source@, e@) || (python_tree(source@) matches Some(v)
            && spec_first_error(v) matches Some(k) && e@ == spec_syntax_error(path@, v, k)),
{
    let t = match parse_source(path, source) {
        Ok(t) => t,
        Err(e) => {
            return Err(e);
        },
    };
    match first_error(&t) {
        Some(k) => Err(syntax_error(path, &t, k)),
        None => Ok(()),
    }
}

} // verus!
