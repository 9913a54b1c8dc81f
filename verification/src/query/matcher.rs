//! Matching a query against the nodes of a syntax tree.
use vstd::prelude::*;
use crate::number::{double_of, parse_number, spec_double, spec_parse_number, Number};
use crate::query::model::{
    ArgumentKey, ArgumentKeyView, Comparison, Expression, ExpressionView, NodePattern,
    NodePatternView, patterns_view, PatternKind, PatternKindView, Query, QueryView, Relationship, ValuePattern,
    ValuePatternView,
};
use crate::query::resolver::{
    is_named_child, spec_resolve, NameResolution, NameResolutionView, NameResolver, ScopeView,
};
use crate::query::variables::{lookup, spec_insert, MatchCaptures, StringMap};
use crate::query::lexer::{arrow_and_descendant_texts_tokenize, is_keyword, plain_word};
use crate::query::parser::{arrow_and_descendant_parse, spec_parse_node_pattern, spec_parse_query};
use crate::regex_support::{regex_is_match, regex_matches};
use crate::syntax::{named_below, SyntaxTree, TreeView};
use crate::text::{
    chars_eq, chars_of, contains, ends_with, spec_contains, spec_ends_with, spec_starts_with,
    slice_to_vec_range, starts_with, string_of,
};
use crate::words::{
    word_arguments, word_call, word_class_definition, word_function, word_function_definition,
    word_import_from_statement, word_import_statement, word_keyword_argument, word_name, word_value,
    w_arguments, w_call, w_class_definition, w_function, w_function_definition, w_import_from_statement,
    w_import_statement, w_keyword_argument, w_name, w_value,
};

verus! {

/// The values that capture variables took: name/value pairs.
pub type CapturesView = Seq<(Seq<char>, Seq<char>)>;

pub open spec fn states_view(v: Seq<StringMap>) -> Seq<CapturesView> {
    v.map_values(|m: StringMap| m@)
}

pub open spec fn opt_seq(o: Option<CapturesView>) -> Seq<CapturesView> {
    match o {
        Some(s) => seq![s],
        None => seq![],
    }
}

/// `name` bound to `actual`: kept where it already holds `actual`, refused
/// where it holds something else, added where it is unbound.
pub open spec fn spec_bind_capture(st: CapturesView, name: Seq<char>, actual: Seq<char>) -> Option<
    CapturesView,
> {
    match lookup(st, name) {
        Some(v) => if v == actual {
            Some(st)
        } else {
            None
        },
        None => Some(spec_insert(st, name, actual)),
    }
}

pub open spec fn quoted_by(v: Seq<char>, q: Seq<char>) -> bool {
    v.len() >= 2 * q.len() && spec_starts_with(v, q) && spec_ends_with(v, q)
}

pub open spec fn unquote(v: Seq<char>, n: int) -> Seq<char> {
    v.subrange(n, v.len() - n)
}

/// A string literal's text without its quotes: the first of `'''`, `"""`,
/// `'` and `"` that both starts and ends `v` is taken off both ends.
pub open spec fn spec_strip_string_quotes(v: Seq<char>) -> Option<Seq<char>> {
    if quoted_by(v, seq!['\'', '\'', '\'']) {
        Some(unquote(v, 3))
    } else if quoted_by(v, seq!['"', '"', '"']) {
        Some(unquote(v, 3))
    } else if quoted_by(v, seq!['\'']) {
        Some(unquote(v, 1))
    } else if quoted_by(v, seq!['"']) {
        Some(unquote(v, 1))
    } else {
        None
    }
}

/// Whether the text `actual`, read as a double, stands in `comparison` to
/// `expected` read as a double: both are rounded to the nearest double first,
/// so two decimals that round to one double are equal, and NaN stands in no
/// comparison.
pub open spec fn spec_numeric_holds(
    actual: Seq<char>,
    comparison: Comparison,
    expected: crate::number::NumberView,
) -> bool {
    match spec_parse_number(actual) {
        None => false,
        Some(a) => match (spec_double(a), spec_double(expected)) {
            (Some(x), Some(y)) => match comparison {
                Comparison::Greater => x > y,
                Comparison::GreaterOrEqual => x >= y,
                Comparison::Less => x < y,
                Comparison::LessOrEqual => x <= y,
            },
            _ => false,
        },
    }
}

/// The state after `actual` meets the value predicate `p`, if it does.
pub open spec fn spec_match_value(p: ValuePatternView, actual: Seq<char>, st: CapturesView) -> Option<
    CapturesView,
> {
    match p {
        ValuePatternView::Any => Some(st),
        ValuePatternView::Exact(e) => if actual == e || spec_strip_string_quotes(actual) == Some(e) {
            Some(st)
        } else {
            None
        },
        ValuePatternView::Contains(e) => if spec_contains(actual, e) {
            Some(st)
        } else {
            None
        },
        ValuePatternView::StartsWith(e) => if spec_starts_with(actual, e) {
            Some(st)
        } else {
            None
        },
        ValuePatternView::EndsWith(e) => if spec_ends_with(actual, e) {
            Some(st)
        } else {
            None
        },
        ValuePatternView::Regex(r) => if regex_is_match(r, actual) {
            Some(st)
        } else {
            None
        },
        ValuePatternView::Numeric(c, n) => if spec_numeric_holds(actual, c, n) {
            Some(st)
        } else {
            None
        },
        ValuePatternView::Capture(name) => spec_bind_capture(st, name, actual),
    }
}

/// The node whose text a pattern of kind `kind` reads at node `i`: the
/// called expression of a call, the name of a class or function definition.
pub open spec fn spec_node_target(t: TreeView, i: int, kind: PatternKindView) -> Option<int> {
    match kind {
        PatternKindView::Call => if t.is_kind(i, w_call()) {
            t.field_child(i, w_function())
        } else {
            None
        },
        PatternKindView::Class => if t.is_kind(i, w_class_definition()) {
            t.field_child(i, w_name())
        } else {
            None
        },
        PatternKindView::Function => if t.is_kind(i, w_function_definition()) {
            t.field_child(i, w_name())
        } else {
            None
        },
        _ => None,
    }
}

pub open spec fn is_import(t: TreeView, i: int) -> bool {
    t.is_kind(i, w_import_statement()) || t.is_kind(i, w_import_from_statement())
}

/// A called name meets `p` as written, or as the import it resolves to; a
/// name whose import is shadowed meets no exact name.
pub open spec fn spec_call_value(
    scopes: Seq<ScopeView>,
    position: int,
    p: ValuePatternView,
    actual: Seq<char>,
    st: CapturesView,
) -> Seq<CapturesView> {
    match spec_resolve(scopes, position, actual) {
        NameResolutionView::Canonical(c) => opt_seq(spec_match_value(p, actual, st)) + opt_seq(
            spec_match_value(p, c, st),
        ),
        NameResolutionView::ShadowedImport => if p is Exact {
            seq![]
        } else {
            opt_seq(spec_match_value(p, actual, st))
        },
        NameResolutionView::Unresolved => opt_seq(spec_match_value(p, actual, st)),
    }
}

/// The named descendants of an import, in document order, each matched by its text.
pub open spec fn spec_import_children(t: TreeView, i: int, k: int, p: ValuePatternView, st: CapturesView) -> Seq<
    CapturesView,
>
    decreases t.len() - i, t.child_count(i) - k,
{
    if !(0 <= i < t.len()) || k < 0 || k >= t.child_count(i) {
        seq![]
    } else {
        let piece = if is_named_child(t, i, k) {
            let c = t.child(i, k);
            opt_seq(spec_match_value(p, t.text(c), st)) + spec_import_children(t, c, 0, p, st)
        } else {
            seq![]
        };
        piece + spec_import_children(t, i, k + 1, p, st)
    }
}

proof fn lemma_import_children_hold(t: TreeView, i: int, k: int, j: int, p: ValuePatternView, st: CapturesView, x: CapturesView)
    requires
        0 <= i < t.len(),
        0 <= k <= j < t.child_count(i),
        is_named_child(t, i, j),
        (opt_seq(spec_match_value(p, t.text(t.child(i, j)), st)) + spec_import_children(t, t.child(i, j), 0, p, st)).contains(x),
    ensures
        spec_import_children(t, i, k, p, st).contains(x),
    decreases j - k,
{
    let piece = if is_named_child(t, i, k) {
        opt_seq(spec_match_value(p, t.text(t.child(i, k)), st)) + spec_import_children(t, t.child(i, k), 0, p, st)
    } else {
        seq![]
    };
    let rest = spec_import_children(t, i, k + 1, p, st);
    assert(spec_import_children(t, i, k, p, st) == piece + rest);
    if k == j {
        let m = choose|m: int| 0 <= m < piece.len() && piece[m] == x;
        assert((piece + rest)[m] == x);
    } else {
        lemma_import_children_hold(t, i, k + 1, j, p, st, x);
        let m = choose|m: int| 0 <= m < rest.len() && rest[m] == x;
        assert((piece + rest)[m + piece.len()] == x);
    }
}

proof fn lemma_import_descendant(t: TreeView, i: int, d: int, n: nat, p: ValuePatternView, st: CapturesView)
    requires
        named_below(t, i, d, n),
        spec_match_value(p, t.text(d), st) is Some,
    ensures
        spec_import_children(t, i, 0, p, st).contains(spec_match_value(p, t.text(d), st)->Some_0),
    decreases n,
{
    let x = spec_match_value(p, t.text(d), st)->Some_0;
    let k = choose|k: int|
        0 <= k < t.child_count(i) && i < #[trigger] t.child(i, k) < t.len() && t.node(t.child(i, k)).named && (
        t.child(i, k) == d || named_below(t, t.child(i, k), d, (n - 1) as nat));
    let c = t.child(i, k);
    let own = opt_seq(spec_match_value(p, t.text(c), st));
    let below = spec_import_children(t, c, 0, p, st);
    if c == d {
        assert((own + below)[0] == x);
    } else {
        lemma_import_descendant(t, c, d, (n - 1) as nat, p, st);
        let m = choose|m: int| 0 <= m < below.len() && below[m] == x;
        assert((own + below)[m + own.len()] == x);
    }
    lemma_import_children_hold(t, i, 0, k, p, st, x);
}

proof fn lemma_import_children_sound(t: TreeView, i: int, k: int, p: ValuePatternView, st: CapturesView, x: CapturesView)
    requires
        spec_import_children(t, i, k, p, st).contains(x),
    ensures
        exists|d: int, n: nat| named_below(t, i, d, n) && spec_match_value(p, t.text(d), st) == Some(x),
    decreases t.len() - i, t.child_count(i) - k,
{
    if 0 <= i < t.len() && 0 <= k < t.child_count(i) {
        let c = t.child(i, k);
        let own = opt_seq(spec_match_value(p, t.text(c), st));
        let below = spec_import_children(t, c, 0, p, st);
        let piece = if is_named_child(t, i, k) {
            own + below
        } else {
            seq![]
        };
        let rest = spec_import_children(t, i, k + 1, p, st);
        assert(spec_import_children(t, i, k, p, st) == piece + rest);
        let m = choose|m: int| 0 <= m < (piece + rest).len() && (piece + rest)[m] == x;
        if m < piece.len() {
            assert(piece[m] == x);
            if m < own.len() {
                assert(named_below(t, i, c, 1));
            } else {
                assert(below[m - own.len()] == x);
                lemma_import_children_sound(t, c, 0, p, st, x);
                let (d, n) = choose|d: int, n: nat| named_below(t, c, d, n) && spec_match_value(p, t.text(d), st) == Some(x);
                assert(named_below(t, i, d, n + 1));
            }
        } else {
            assert(rest[m - piece.len()] == x);
            lemma_import_children_sound(t, i, k + 1, p, st, x);
        }
    }
}

/// An import pattern matches nothing but import statements, and each of its
/// matches comes from a named descendant of the statement whose text meets
/// the pattern's value.
pub proof fn import_matches_come_from_descendants(
    t: TreeView,
    scopes: Seq<ScopeView>,
    i: int,
    p: NodePatternView,
    st: CapturesView,
    x: CapturesView,
)
    requires
        p.kind is Import,
        spec_match_node(t, scopes, i, p, st).contains(x),
    ensures
        is_import(t, i),
        exists|d: int, n: nat| named_below(t, i, d, n) && spec_match_value(p.value, t.text(d), st) == Some(x),
{
    lemma_import_children_sound(t, i, 0, p.value, st, x);
}

/// An import pattern matches an import statement wherever any named
/// descendant of the statement, at any depth (such as the module name inside
/// `requests as r`, or `os` inside `os.path`), has text that meets the
/// pattern's value; the state that meets it is among the matches.
pub proof fn import_matches_any_named_descendant(
    t: TreeView,
    scopes: Seq<ScopeView>,
    i: int,
    d: int,
    n: nat,
    p: NodePatternView,
    st: CapturesView,
)
    requires
        p.kind is Import,
        is_import(t, i),
        named_below(t, i, d, n),
        spec_match_value(p.value, t.text(d), st) is Some,
    ensures
        spec_match_node(t, scopes, i, p, st).contains(spec_match_value(p.value, t.text(d), st)->Some_0),
{
    lemma_import_descendant(t, i, d, n, p.value, st);
}

/// The states in which node `i` matches pattern `p`.
pub open spec fn spec_match_node(
    t: TreeView,
    scopes: Seq<ScopeView>,
    i: int,
    p: NodePatternView,
    st: CapturesView,
) -> Seq<CapturesView> {
    if p.kind is Import {
        if is_import(t, i) {
            spec_import_children(t, i, 0, p.value, st)
        } else {
            seq![]
        }
    } else {
        match spec_node_target(t, i, p.kind) {
            None => seq![],
            Some(target) => if p.kind is Call {
                spec_call_value(scopes, t.node(i).start_byte as int, p.value, t.text(target), st)
            } else {
                opt_seq(spec_match_value(p.value, t.text(target), st))
            },
        }
    }
}

pub open spec fn spec_node_value(t: TreeView, n: int, p: ValuePatternView, st: CapturesView) -> Seq<
    CapturesView,
> {
    opt_seq(spec_match_value(p, t.text(n), st))
}

/// The value of an argument: itself, or the `value` of a keyword argument.
pub open spec fn spec_argument_value(t: TreeView, a: int) -> Option<int> {
    if t.is_kind(a, w_keyword_argument()) {
        t.field_child(a, w_value())
    } else {
        Some(a)
    }
}

/// Every argument's value, from the `k`th child of the argument list on.
pub open spec fn spec_any_arguments(t: TreeView, args: int, k: int, p: ValuePatternView, st: CapturesView) -> Seq<
    CapturesView,
>
    decreases t.child_count(args) - k,
{
    if !(0 <= args < t.len()) || k < 0 || k >= t.child_count(args) {
        seq![]
    } else {
        let piece = if is_named_child(t, args, k) {
            match spec_argument_value(t, t.child(args, k)) {
                Some(v) => spec_node_value(t, v, p, st),
                None => seq![],
            }
        } else {
            seq![]
        };
        piece + spec_any_arguments(t, args, k + 1, p, st)
    }
}

/// The `n`th positional argument, counting from the `k`th child on.
pub open spec fn spec_nth_positional(t: TreeView, args: int, k: int, n: nat) -> Option<int>
    decreases t.child_count(args) - k,
{
    if !(0 <= args < t.len()) || k < 0 || k >= t.child_count(args) {
        None
    } else if is_named_child(t, args, k) && !t.is_kind(t.child(args, k), w_keyword_argument()) {
        if n == 0 {
            Some(t.child(args, k))
        } else {
            spec_nth_positional(t, args, k + 1, (n - 1) as nat)
        }
    } else {
        spec_nth_positional(t, args, k + 1, n)
    }
}

/// Whether `a` is a keyword argument named `name`.
pub open spec fn is_keyword_named(t: TreeView, a: int, name: Seq<char>) -> bool {
    t.is_kind(a, w_keyword_argument()) && (t.field_child(a, w_name()) matches Some(n) && t.text(n)
        == name)
}

/// The values of the keyword arguments named `name`, from the `k`th child on.
pub open spec fn spec_keyword_arguments(
    t: TreeView,
    args: int,
    k: int,
    name: Seq<char>,
    p: ValuePatternView,
    st: CapturesView,
) -> Seq<CapturesView>
    decreases t.child_count(args) - k,
{
    if !(0 <= args < t.len()) || k < 0 || k >= t.child_count(args) {
        seq![]
    } else {
        let a = t.child(args, k);
        let piece = if is_named_child(t, args, k) && is_keyword_named(t, a, name) {
            match t.field_child(a, w_value()) {
                Some(v) => spec_node_value(t, v, p, st),
                None => seq![],
            }
        } else {
            seq![]
        };
        piece + spec_keyword_arguments(t, args, k + 1, name, p, st)
    }
}

/// The states in which an argument of the call at node `i` meets an
/// `argument:` pattern.
pub open spec fn spec_match_argument(t: TreeView, i: int, p: NodePatternView, st: CapturesView) -> Seq<
    CapturesView,
> {
    match p.kind {
        PatternKindView::Argument(key) => match t.field_child(i, w_arguments()) {
            None => seq![],
            Some(args) => match key {
                ArgumentKeyView::Any => spec_any_arguments(t, args, 0, p.value, st),
                ArgumentKeyView::Position(n) => match spec_nth_positional(t, args, 0, n) {
                    Some(a) => spec_node_value(t, a, p.value, st),
                    None => seq![],
                },
                ArgumentKeyView::Keyword(name) => spec_keyword_arguments(
                    t,
                    args,
                    0,
                    name,
                    p.value,
                    st,
                ),
            },
        },
        _ => seq![],
    }
}

/// The matches of `p` among the named children of `i`, from the `k`th child on.
pub open spec fn spec_child_matches(
    t: TreeView,
    scopes: Seq<ScopeView>,
    i: int,
    k: int,
    p: NodePatternView,
    st: CapturesView,
) -> Seq<CapturesView>
    decreases t.child_count(i) - k,
{
    if !(0 <= i < t.len()) || k < 0 || k >= t.child_count(i) {
        seq![]
    } else {
        let piece = if is_named_child(t, i, k) {
            spec_match_node(t, scopes, t.child(i, k), p, st)
        } else {
            seq![]
        };
        piece + spec_child_matches(t, scopes, i, k + 1, p, st)
    }
}

/// The matches of `p` among the named descendants of `i`, in document order,
/// from its `k`th child on.
pub open spec fn spec_descendant_matches(
    t: TreeView,
    scopes: Seq<ScopeView>,
    i: int,
    k: int,
    p: NodePatternView,
    st: CapturesView,
) -> Seq<CapturesView>
    decreases t.len() - i, t.child_count(i) - k,
{
    if !(0 <= i < t.len()) || k < 0 || k >= t.child_count(i) {
        seq![]
    } else {
        let piece = if is_named_child(t, i, k) {
            let c = t.child(i, k);
            spec_match_node(t, scopes, c, p, st) + spec_descendant_matches(t, scopes, c, 0, p, st)
        } else {
            seq![]
        };
        piece + spec_descendant_matches(t, scopes, i, k + 1, p, st)
    }
}

/// The matches of `p` among the ancestors of `i`, nearest first.
pub open spec fn spec_ancestor_matches(
    t: TreeView,
    scopes: Seq<ScopeView>,
    i: int,
    p: NodePatternView,
    st: CapturesView,
) -> Seq<CapturesView>
    decreases i,
{
    if !(0 <= i < t.len()) {
        seq![]
    } else {
        match t.node(i).parent {
            Some(q) => if q < i {
                spec_match_node(t, scopes, q as int, p, st) + spec_ancestor_matches(
                    t,
                    scopes,
                    q as int,
                    p,
                    st,
                )
            } else {
                seq![]
            },
            None => seq![],
        }
    }
}

/// The states in which a node in relationship `r` to node `i` matches `p`;
/// an `argument:` pattern reads the arguments of `i` itself.
pub open spec fn spec_match_relation(
    t: TreeView,
    scopes: Seq<ScopeView>,
    i: int,
    r: Relationship,
    p: NodePatternView,
    st: CapturesView,
) -> Seq<CapturesView> {
    if p.kind is Argument {
        spec_match_argument(t, i, p, st)
    } else {
        match r {
            Relationship::Child => spec_child_matches(t, scopes, i, 0, p, st),
            Relationship::Descendant => spec_descendant_matches(t, scopes, i, 0, p, st),
            Relationship::Ancestor => spec_ancestor_matches(t, scopes, i, p, st),
        }
    }
}

/// The states in which the patterns `ps` match a chain of nodes below `i`,
/// each a descendant of the one before.
pub open spec fn spec_chain(
    t: TreeView,
    scopes: Seq<ScopeView>,
    i: int,
    ps: Seq<NodePatternView>,
    st: CapturesView,
) -> Seq<CapturesView>
    decreases t.len() - i, 1int, 0int,
{
    if ps.len() == 0 {
        seq![st]
    } else if !(0 <= i < t.len()) {
        seq![]
    } else {
        spec_chain_children(t, scopes, i, 0, ps, st)
    }
}

pub open spec fn spec_chain_children(
    t: TreeView,
    scopes: Seq<ScopeView>,
    i: int,
    k: int,
    ps: Seq<NodePatternView>,
    st: CapturesView,
) -> Seq<CapturesView>
    decreases t.len() - i, 0int, t.child_count(i) - k,
{
    if !(0 <= i < t.len()) || k < 0 || k >= t.child_count(i) || ps.len() == 0 {
        seq![]
    } else {
        let piece = if is_named_child(t, i, k) {
            let c = t.child(i, k);
            spec_chain_states(
                t,
                scopes,
                c,
                ps.drop_first(),
                spec_match_node(t, scopes, c, ps[0], st),
            ) + spec_chain(t, scopes, c, ps, st)
        } else {
            seq![]
        };
        piece + spec_chain_children(t, scopes, i, k + 1, ps, st)
    }
}

pub open spec fn spec_chain_states(
    t: TreeView,
    scopes: Seq<ScopeView>,
    c: int,
    ps: Seq<NodePatternView>,
    states: Seq<CapturesView>,
) -> Seq<CapturesView>
    decreases t.len() - c, 2int, states.len(),
{
    if states.len() == 0 || !(0 <= c < t.len()) {
        seq![]
    } else {
        spec_chain(t, scopes, c, ps, states[0]) + spec_chain_states(
            t,
            scopes,
            c,
            ps,
            states.drop_first(),
        )
    }
}

/// The states in which the condition `e` holds at node `i`.
pub open spec fn spec_match_expression(
    t: TreeView,
    scopes: Seq<ScopeView>,
    i: int,
    e: ExpressionView,
    st: CapturesView,
) -> Seq<CapturesView>
    decreases e, 0int,
{
    match e {
        ExpressionView::Relation(r, p) => spec_match_relation(t, scopes, i, r, p, st),
        ExpressionView::DescendantChain(ps) => spec_chain(t, scopes, i, ps, st),
        ExpressionView::And(l, r) => spec_and_all(
            t,
            scopes,
            i,
            *r,
            spec_match_expression(t, scopes, i, *l, st),
        ),
        ExpressionView::Or(l, r) => spec_match_expression(t, scopes, i, *l, st)
            + spec_match_expression(t, scopes, i, *r, st),
        ExpressionView::Not(x) => if spec_match_expression(t, scopes, i, *x, st).len() == 0 {
            seq![st]
        } else {
            seq![]
        },
    }
}

/// For each state in turn, the states in which `e` then holds at node `i`.
pub open spec fn spec_and_all(
    t: TreeView,
    scopes: Seq<ScopeView>,
    i: int,
    e: ExpressionView,
    states: Seq<CapturesView>,
) -> Seq<CapturesView>
    decreases e, states.len() + 1,
{
    if states.len() == 0 {
        seq![]
    } else {
        spec_match_expression(t, scopes, i, e, states[0]) + spec_and_all(
            t,
            scopes,
            i,
            e,
            states.drop_first(),
        )
    }
}

/// The captures of each way in which `q` matches at node `i`: its anchor,
/// then its condition from each state the anchor leaves.
pub open spec fn spec_captures_query(t: TreeView, scopes: Seq<ScopeView>, i: int, q: QueryView) -> Seq<
    CapturesView,
> {
    let anchors = spec_match_node(t, scopes, i, q.anchor, seq![]);
    match q.condition {
        None => anchors,
        Some(c) => spec_and_all(t, scopes, i, c, anchors),
    }
}

proof fn lemma_chain_states_done(t: TreeView, scopes: Seq<ScopeView>, c: int, states: Seq<CapturesView>)
    requires
        0 <= c < t.len(),
    ensures
        spec_chain_states(t, scopes, c, Seq::empty(), states) == states,
    decreases states.len(),
{
    if states.len() > 0 {
        lemma_chain_states_done(t, scopes, c, states.drop_first());
        assert(spec_chain(t, scopes, c, Seq::empty(), states[0]) == seq![states[0]]);
        assert(spec_chain_states(t, scopes, c, Seq::empty(), states) == seq![states[0]]
            + spec_chain_states(t, scopes, c, Seq::empty(), states.drop_first()));
        assert(states =~= seq![states[0]] + states.drop_first());
    } else {
        assert(states =~= Seq::<CapturesView>::empty());
    }
}

proof fn lemma_single_chain(
    t: TreeView,
    scopes: Seq<ScopeView>,
    i: int,
    k: int,
    p: NodePatternView,
    st: CapturesView,
)
    ensures
        spec_chain_children(t, scopes, i, k, seq![p], st) == spec_descendant_matches(
            t,
            scopes,
            i,
            k,
            p,
            st,
        ),
    decreases t.len() - i, t.child_count(i) - k,
{
    if 0 <= i < t.len() && 0 <= k < t.child_count(i) {
        if is_named_child(t, i, k) {
            let c = t.child(i, k);
            assert(seq![p].drop_first() =~= Seq::<NodePatternView>::empty());
            lemma_chain_states_done(t, scopes, c, spec_match_node(t, scopes, c, p, st));
            lemma_single_chain(t, scopes, c, 0, p, st);
            assert(spec_chain(t, scopes, c, seq![p], st) == spec_chain_children(
                t,
                scopes,
                c,
                0,
                seq![p],
                st,
            ));
        }
        lemma_single_chain(t, scopes, i, k + 1, p, st);
        assert(seq![p].len() == 1);
    }
}

/// `a -> b` is shorthand for `a AND descendant(b)`: a one-pattern chain below
/// node `i` holds in the same states, in the same order, as the descendant
/// relation. An `argument:` pattern is left out: in a relation it reads the
/// arguments of `i` itself.
pub proof fn arrow_is_descendant(
    t: TreeView,
    scopes: Seq<ScopeView>,
    i: int,
    p: NodePatternView,
    st: CapturesView,
)
    requires
        !(p.kind is Argument),
    ensures
        spec_match_expression(t, scopes, i, ExpressionView::DescendantChain(seq![p]), st)
            == spec_match_expression(
            t,
            scopes,
            i,
            ExpressionView::Relation(Relationship::Descendant, p),
            st,
        ),
{
    lemma_single_chain(t, scopes, i, 0, p, st);
}

proof fn lemma_and_all_same(
    t: TreeView,
    scopes: Seq<ScopeView>,
    i: int,
    e1: ExpressionView,
    e2: ExpressionView,
    states: Seq<CapturesView>,
)
    requires
        forall|s: CapturesView|
            #[trigger] spec_match_expression(t, scopes, i, e1, s) == spec_match_expression(
                t,
                scopes,
                i,
                e2,
                s,
            ),
    ensures
        spec_and_all(t, scopes, i, e1, states) == spec_and_all(t, scopes, i, e2, states),
    decreases states.len(),
{
    if states.len() > 0 {
        lemma_and_all_same(t, scopes, i, e1, e2, states.drop_first());
        assert(spec_and_all(t, scopes, i, e1, states) == spec_match_expression(t, scopes, i, e1, states[0])
            + spec_and_all(t, scopes, i, e1, states.drop_first()));
        assert(spec_and_all(t, scopes, i, e2, states) == spec_match_expression(t, scopes, i, e2, states[0])
            + spec_and_all(t, scopes, i, e2, states.drop_first()));
    }
}

/// The queries `a -> b` and `a AND descendant(b)` report the same captures,
/// in the same order, at every node, for every pattern `b` but `argument:`.
pub proof fn arrow_query_is_descendant_query(
    t: TreeView,
    scopes: Seq<ScopeView>,
    i: int,
    a: NodePatternView,
    b: NodePatternView,
)
    requires
        !(b.kind is Argument),
    ensures
        spec_captures_query(
            t,
            scopes,
            i,
            (QueryView { anchor: a, condition: Some(ExpressionView::DescendantChain(seq![b])) }),
        ) == spec_captures_query(
            t,
            scopes,
            i,
            (QueryView {
                anchor: a,
                condition: Some(ExpressionView::Relation(Relationship::Descendant, b)),
            }),
        ),
{
    let e1 = ExpressionView::DescendantChain(seq![b]);
    let e2 = ExpressionView::Relation(Relationship::Descendant, b);
    assert forall|s: CapturesView|
        #[trigger] spec_match_expression(t, scopes, i, e1, s) == spec_match_expression(
            t,
            scopes,
            i,
            e2,
            s,
        ) by {
        arrow_is_descendant(t, scopes, i, b, s);
    }
    lemma_and_all_same(t, scopes, i, e1, e2, spec_match_node(t, scopes, i, a, seq![]));
}

/// The query texts `a -> b` and `a AND descendant b` parse to queries that
/// report the same captures, in the same order, at every node, where `a`
/// and `b` are node patterns written as plain words and `b` is no
/// `argument:` pattern.
pub proof fn arrow_text_searches_as_descendant(
    a: Seq<char>,
    b: Seq<char>,
    vars: Seq<(Seq<char>, Seq<char>)>,
    t: TreeView,
    scopes: Seq<ScopeView>,
    i: int,
)
    requires
        a.len() > 0,
        b.len() > 0,
        plain_word(a),
        plain_word(b),
        !is_keyword(a),
        !is_keyword(b),
        spec_parse_node_pattern(a, vars) is Ok,
        spec_parse_node_pattern(b, vars) matches Ok(pb) && !(pb.kind is Argument),
    ensures
        spec_parse_query(a + seq![' ', '-', '>', ' '] + b, vars) matches Ok(q1) && spec_parse_query(
            a + seq![' ', 'A', 'N', 'D', ' ', 'd', 'e', 's', 'c', 'e', 'n', 'd', 'a', 'n', 't', ' '] + b,
            vars,
        ) matches Ok(q2) && spec_captures_query(t, scopes, i, q1) == spec_captures_query(t, scopes, i, q2),
{
    arrow_and_descendant_texts_tokenize(a, b);
    arrow_and_descendant_parse(a, b, vars);
    arrow_query_is_descendant_query(
        t,
        scopes,
        i,
        spec_parse_node_pattern(a, vars)->Ok_0,
        spec_parse_node_pattern(b, vars)->Ok_0,
    );
}

pub open spec fn opt_view(o: Option<StringMap>) -> Option<CapturesView> {
    match o {
        Some(m) => Some(m@),
        None => None,
    }
}

/// Adds `o` to the end of `acc`, where it is a state.
fn push_state(acc: &mut Vec<StringMap>, o: Option<StringMap>)
    ensures
        states_view(final(acc)@) == states_view(old(acc)@) + opt_seq(opt_view(o)),
{
    match o {
        Some(m) => {
            let ghost before = acc@;
            acc.push(m);
            assert(states_view(acc@) =~= states_view(before) + opt_seq(opt_view(o)));
        },
        None => {
            assert(states_view(acc@) =~= states_view(acc@) + opt_seq(opt_view(o)));
        },
    }
}

/// Adds the states of `more` to the end of `acc`.
fn append_states(acc: &mut Vec<StringMap>, more: Vec<StringMap>)
    ensures
        states_view(final(acc)@) == states_view(old(acc)@) + states_view(more@),
{
    let ghost before = acc@;
    let mut more = more;
    let ghost added = more@;
    acc.append(&mut more);
    assert(acc@ =~= before + added);
    assert(states_view(acc@) =~= states_view(before) + states_view(added));
}

/// `name` bound to `actual` in a copy of `st`, unless it holds another value.
fn bind_capture(st: &StringMap, name: &String, actual: &[char]) -> (r: Option<StringMap>)
    ensures
        opt_view(r) == spec_bind_capture(st@, name@, actual@),
{
    let key = chars_of(name.as_str());
    match st.get(&key) {
        Some(expected) => {
            let e = chars_of(expected.as_str());
            if chars_eq(&e, actual) {
                Some(st.duplicate())
            } else {
                None
            }
        },
        None => {
            let mut next = st.duplicate();
            next.insert(name.clone(), string_of(actual));
            Some(next)
        },
    }
}

fn quoted_by_exec(v: &[char], q: &[char]) -> (r: bool)
    ensures
        r == quoted_by(v@, q@),
{
    v.len() / 2 >= q.len() && starts_with(v, q) && ends_with(v, q)
}

/// A string literal's text without its quotes.
fn strip_string_quotes(v: &[char]) -> (r: Option<Vec<char>>)
    ensures
        r matches Some(x) ==> spec_strip_string_quotes(v@) == Some(x@),
        r is None ==> spec_strip_string_quotes(v@) is None,
{
    let single = ['\''];
    let double = ['"'];
    let triple_single = ['\'', '\'', '\''];
    let triple_double = ['"', '"', '"'];
    assert(triple_single@ =~= seq!['\'', '\'', '\'']);
    assert(triple_double@ =~= seq!['"', '"', '"']);
    assert(single@ =~= seq!['\'']);
    assert(double@ =~= seq!['"']);
    let n: usize = if quoted_by_exec(v, &triple_single) {
        3
    } else if quoted_by_exec(v, &triple_double) {
        3
    } else if quoted_by_exec(v, &single) {
        1
    } else if quoted_by_exec(v, &double) {
        1
    } else {
        return None;
    };
    Some(slice_to_vec_range(v, n, v.len() - n))
}

/// Whether the text `actual`, read as a number, stands in `comparison` to `expected`.
fn numeric_holds(actual: &[char], comparison: Comparison, expected: &Number) -> (r: bool)
    ensures
        r == spec_numeric_holds(actual@, comparison, expected@),
{
    match parse_number(actual) {
        None => false,
        Some(a) => match (double_of(&a), double_of(expected)) {
            (Some(x), Some(y)) => match comparison {
                Comparison::Greater => x > y,
                Comparison::GreaterOrEqual => x >= y,
                Comparison::Less => x < y,
                Comparison::LessOrEqual => x <= y,
            },
            _ => false,
        },
    }
}

/// The state after `actual` meets the value predicate `p`, if it does.
fn match_value(p: &ValuePattern, actual: &[char], st: &StringMap) -> (r: Option<StringMap>)
    ensures
        opt_view(r) == spec_match_value(p@, actual@, st@),
{
    let holds = match p {
        ValuePattern::Any => true,
        ValuePattern::Exact(e) => {
            let e = chars_of(e.as_str());
            chars_eq(actual, &e) || match strip_string_quotes(actual) {
                Some(inner) => chars_eq(&inner, &e),
                None => false,
            }
        },
        ValuePattern::Contains(e) => contains(actual, &chars_of(e.as_str())),
        ValuePattern::StartsWith(e) => starts_with(actual, &chars_of(e.as_str())),
        ValuePattern::EndsWith(e) => ends_with(actual, &chars_of(e.as_str())),
        ValuePattern::Regex(r) => {
            let text = string_of(actual);
            regex_matches(r, text.as_str())
        },
        ValuePattern::Numeric(c, n) => numeric_holds(actual, *c, n),
        ValuePattern::Capture(name) => {
            return bind_capture(st, name, actual);
        },
    };
    if holds {
        Some(st.duplicate())
    } else {
        None
    }
}

/// The named descendants of import node `i`, each matched by its text.
fn match_import(t: &SyntaxTree, i: usize, p: &ValuePattern, st: &StringMap) -> (r: Vec<StringMap>)
    requires
        t.wf(),
        i < t.nodes@.len(),
    ensures
        states_view(r@) == spec_import_children(t@, i as int, 0, p@, st@),
    decreases t.nodes@.len() - i,
{
    let mut acc: Vec<StringMap> = Vec::new();
    let mut k: usize = 0;
    assert(t.node_ok(i as int));
    while k < t.nodes[i].children.len()
        invariant
            t.wf(),
            i < t.nodes@.len(),
            k <= t.child_count(i as int),
            states_view(acc@) + spec_import_children(t@, i as int, k as int, p@, st@)
                == spec_import_children(t@, i as int, 0, p@, st@),
        decreases t.child_count(i as int) - k,
    {
        assert(t.node_ok(i as int));
        let c = t.nodes[i].children[k];
        let ghost before = states_view(acc@);
        if t.nodes[c].named {
            let text = t.node_text(c);
            push_state(&mut acc, match_value(p, &text, st));
            let sub = match_import(t, c, p, st);
            append_states(&mut acc, sub);
        }
        proof {
            let rest = spec_import_children(t@, i as int, k + 1, p@, st@);
            assert(states_view(acc@) + rest =~= before + spec_import_children(
                t@,
                i as int,
                k as int,
                p@,
                st@,
            ));
        }
        k = k + 1;
    }
    acc
}

/// A called name meets `p` as written, or as the import it resolves to.
fn call_value(
    resolver: &NameResolver,
    position: usize,
    p: &ValuePattern,
    actual: &[char],
    st: &StringMap,
) -> (r: Vec<StringMap>)
    requires
        resolver.wf(),
    ensures
        states_view(r@) == spec_call_value(resolver@, position as int, p@, actual@, st@),
{
    let mut acc: Vec<StringMap> = Vec::new();
    assert(states_view(acc@) =~= Seq::<CapturesView>::empty());
    match resolver.resolve(position, actual) {
        NameResolution::Canonical(canonical) => {
            push_state(&mut acc, match_value(p, actual, st));
            let c = chars_of(canonical.as_str());
            push_state(&mut acc, match_value(p, &c, st));
        },
        NameResolution::ShadowedImport => {
            let exact = match p {
                ValuePattern::Exact(_) => true,
                _ => false,
            };
            if !exact {
                push_state(&mut acc, match_value(p, actual, st));
            }
        },
        NameResolution::Unresolved => {
            push_state(&mut acc, match_value(p, actual, st));
        },
    }
    acc
}

/// The states in which node `i` matches pattern `p`.
fn match_node(t: &SyntaxTree, resolver: &NameResolver, i: usize, p: &NodePattern, st: &StringMap) -> (r: Vec<
    StringMap,
>)
    requires
        t.wf(),
        i < t.nodes@.len(),
        resolver.wf(),
    ensures
        states_view(r@) == spec_match_node(t@, resolver@, i as int, p@, st@),
{
    let target = match &p.kind {
        PatternKind::Import => {
            if t.kind_is(i, word_import_statement()) || t.kind_is(i, word_import_from_statement()) {
                return match_import(t, i, &p.value, st);
            } else {
                let r: Vec<StringMap> = Vec::new();
                assert(states_view(r@) =~= Seq::<CapturesView>::empty());
                return r;
            }
        },
        PatternKind::Call => if t.kind_is(i, word_call()) {
            t.child_by_field_name(i, word_function())
        } else {
            None
        },
        PatternKind::Class => if t.kind_is(i, word_class_definition()) {
            t.child_by_field_name(i, word_name())
        } else {
            None
        },
        PatternKind::Function => if t.kind_is(i, word_function_definition()) {
            t.child_by_field_name(i, word_name())
        } else {
            None
        },
        PatternKind::Argument(_) => None,
    };
    match target {
        None => {
            let r: Vec<StringMap> = Vec::new();
            assert(states_view(r@) =~= Seq::<CapturesView>::empty());
            r
        },
        Some(target) => {
            let actual = t.node_text(target);
            let is_call = match p.kind {
                PatternKind::Call => true,
                _ => false,
            };
            if is_call {
                call_value(resolver, t.nodes[i].start_byte, &p.value, &actual, st)
            } else {
                let mut r: Vec<StringMap> = Vec::new();
                assert(states_view(r@) =~= Seq::<CapturesView>::empty());
                push_state(&mut r, match_value(&p.value, &actual, st));
                r
            }
        },
    }
}

fn empty_states() -> (r: Vec<StringMap>)
    ensures
        states_view(r@) == Seq::<CapturesView>::empty(),
{
    let r: Vec<StringMap> = Vec::new();
    assert(states_view(r@) =~= Seq::<CapturesView>::empty());
    r
}

/// The state after the text of node `n` meets `p`, as a list.
fn node_value(t: &SyntaxTree, n: usize, p: &ValuePattern, st: &StringMap) -> (r: Vec<StringMap>)
    requires
        t.wf(),
        n < t.nodes@.len(),
    ensures
        states_view(r@) == spec_node_value(t@, n as int, p@, st@),
{
    let mut r = empty_states();
    let text = t.node_text(n);
    push_state(&mut r, match_value(p, &text, st));
    r
}

/// Every argument's value in the argument list `args`.
fn any_arguments(t: &SyntaxTree, args: usize, p: &ValuePattern, st: &StringMap) -> (r: Vec<StringMap>)
    requires
        t.wf(),
        args < t.nodes@.len(),
    ensures
        states_view(r@) == spec_any_arguments(t@, args as int, 0, p@, st@),
{
    let mut acc = empty_states();
    let mut k: usize = 0;
    assert(t.node_ok(args as int));
    while k < t.nodes[args].children.len()
        invariant
            t.wf(),
            args < t.nodes@.len(),
            k <= t.child_count(args as int),
            states_view(acc@) + spec_any_arguments(t@, args as int, k as int, p@, st@)
                == spec_any_arguments(t@, args as int, 0, p@, st@),
        decreases t.child_count(args as int) - k,
    {
        assert(t.node_ok(args as int));
        let a = t.nodes[args].children[k];
        let ghost before = states_view(acc@);
        if t.nodes[a].named {
            let value = if t.kind_is(a, word_keyword_argument()) {
                t.child_by_field_name(a, word_value())
            } else {
                Some(a)
            };
            match value {
                Some(v) => {
                    let more = node_value(t, v, p, st);
                    append_states(&mut acc, more);
                },
                None => {},
            }
        }
        proof {
            let rest = spec_any_arguments(t@, args as int, k + 1, p@, st@);
            assert(states_view(acc@) + rest =~= before + spec_any_arguments(
                t@,
                args as int,
                k as int,
                p@,
                st@,
            ));
        }
        k = k + 1;
    }
    acc
}

/// The `n`th positional argument in the argument list `args`.
fn nth_positional(t: &SyntaxTree, args: usize, n: usize) -> (r: Option<usize>)
    requires
        t.wf(),
        args < t.nodes@.len(),
    ensures
        r matches Some(a) ==> spec_nth_positional(t@, args as int, 0, n as nat) == Some(a as int)
            && a < t.nodes@.len(),
        r is None ==> spec_nth_positional(t@, args as int, 0, n as nat) is None,
{
    let mut k: usize = 0;
    let mut left: usize = n;
    assert(t.node_ok(args as int));
    while k < t.nodes[args].children.len()
        invariant
            t.wf(),
            args < t.nodes@.len(),
            k <= t.child_count(args as int),
            spec_nth_positional(t@, args as int, k as int, left as nat) == spec_nth_positional(
                t@,
                args as int,
                0,
                n as nat,
            ),
        decreases t.child_count(args as int) - k,
    {
        assert(t.node_ok(args as int));
        let a = t.nodes[args].children[k];
        if t.nodes[a].named && !t.kind_is(a, word_keyword_argument()) {
            if left == 0 {
                return Some(a);
            }
            left = left - 1;
        }
        k = k + 1;
    }
    None
}

/// The values of the keyword arguments named `name` in the argument list `args`.
fn keyword_arguments(t: &SyntaxTree, args: usize, name: &String, p: &ValuePattern, st: &StringMap) -> (r: Vec<
    StringMap,
>)
    requires
        t.wf(),
        args < t.nodes@.len(),
    ensures
        states_view(r@) == spec_keyword_arguments(t@, args as int, 0, name@, p@, st@),
{
    let mut acc = empty_states();
    let mut k: usize = 0;
    let expected = chars_of(name.as_str());
    assert(t.node_ok(args as int));
    while k < t.nodes[args].children.len()
        invariant
            t.wf(),
            args < t.nodes@.len(),
            k <= t.child_count(args as int),
            expected@ == name@,
            states_view(acc@) + spec_keyword_arguments(t@, args as int, k as int, name@, p@, st@)
                == spec_keyword_arguments(t@, args as int, 0, name@, p@, st@),
        decreases t.child_count(args as int) - k,
    {
        assert(t.node_ok(args as int));
        let a = t.nodes[args].children[k];
        let ghost before = states_view(acc@);
        if t.nodes[a].named && t.kind_is(a, word_keyword_argument()) {
            let named = match t.child_by_field_name(a, word_name()) {
                Some(nm) => chars_eq(&t.node_text(nm), &expected),
                None => false,
            };
            if named {
                match t.child_by_field_name(a, word_value()) {
                    Some(v) => {
                        let more = node_value(t, v, p, st);
                        append_states(&mut acc, more);
                    },
                    None => {},
                }
            }
        }
        proof {
            let rest = spec_keyword_arguments(t@, args as int, k + 1, name@, p@, st@);
            assert(states_view(acc@) + rest =~= before + spec_keyword_arguments(
                t@,
                args as int,
                k as int,
                name@,
                p@,
                st@,
            ));
        }
        k = k + 1;
    }
    acc
}

/// The states in which an argument of the call at node `i` meets an `argument:` pattern.
fn match_argument(t: &SyntaxTree, i: usize, p: &NodePattern, st: &StringMap) -> (r: Vec<StringMap>)
    requires
        t.wf(),
        i < t.nodes@.len(),
    ensures
        states_view(r@) == spec_match_argument(t@, i as int, p@, st@),
{
    let key = match &p.kind {
        PatternKind::Argument(key) => key,
        _ => {
            return empty_states();
        },
    };
    let args = match t.child_by_field_name(i, word_arguments()) {
        Some(a) => a,
        None => {
            return empty_states();
        },
    };
    match key {
        ArgumentKey::Any => any_arguments(t, args, &p.value, st),
        ArgumentKey::Position(n) => match nth_positional(t, args, *n) {
            Some(a) => node_value(t, a, &p.value, st),
            None => empty_states(),
        },
        ArgumentKey::Keyword(name) => keyword_arguments(t, args, name, &p.value, st),
    }
}

/// The matches of `p` among the named children of `i`.
fn child_matches(t: &SyntaxTree, resolver: &NameResolver, i: usize, p: &NodePattern, st: &StringMap) -> (r: Vec<
    StringMap,
>)
    requires
        t.wf(),
        i < t.nodes@.len(),
        resolver.wf(),
    ensures
        states_view(r@) == spec_child_matches(t@, resolver@, i as int, 0, p@, st@),
{
    let mut acc = empty_states();
    let mut k: usize = 0;
    assert(t.node_ok(i as int));
    while k < t.nodes[i].children.len()
        invariant
            t.wf(),
            resolver.wf(),
            i < t.nodes@.len(),
            k <= t.child_count(i as int),
            states_view(acc@) + spec_child_matches(t@, resolver@, i as int, k as int, p@, st@)
                == spec_child_matches(t@, resolver@, i as int, 0, p@, st@),
        decreases t.child_count(i as int) - k,
    {
        assert(t.node_ok(i as int));
        let c = t.nodes[i].children[k];
        let ghost before = states_view(acc@);
        if t.nodes[c].named {
            let more = match_node(t, resolver, c, p, st);
            append_states(&mut acc, more);
        }
        proof {
            let rest = spec_child_matches(t@, resolver@, i as int, k + 1, p@, st@);
            assert(states_view(acc@) + rest =~= before + spec_child_matches(
                t@,
                resolver@,
                i as int,
                k as int,
                p@,
                st@,
            ));
        }
        k = k + 1;
    }
    acc
}

/// The matches of `p` among the named descendants of `i`, in document order.
#[verifier::spinoff_prover]
#[verifier::rlimit(30)]
fn descendant_matches(t: &SyntaxTree, resolver: &NameResolver, i: usize, p: &NodePattern, st: &StringMap) -> (r: Vec<
    StringMap,
>)
    requires
        t.wf(),
        i < t.nodes@.len(),
        resolver.wf(),
    ensures
        states_view(r@) == spec_descendant_matches(t@, resolver@, i as int, 0, p@, st@),
    decreases t.nodes@.len() - i,
{
    let mut acc = empty_states();
    let mut k: usize = 0;
    assert(t.node_ok(i as int));
    while k < t.nodes[i].children.len()
        invariant
            t.wf(),
            resolver.wf(),
            i < t.nodes@.len(),
            k <= t.child_count(i as int),
            states_view(acc@) + spec_descendant_matches(t@, resolver@, i as int, k as int, p@, st@)
                == spec_descendant_matches(t@, resolver@, i as int, 0, p@, st@),
        decreases t.child_count(i as int) - k,
    {
        assert(t.node_ok(i as int));
        let c = t.nodes[i].children[k];
        let ghost before = states_view(acc@);
        if t.nodes[c].named {
            let here = match_node(t, resolver, c, p, st);
            append_states(&mut acc, here);
            let below = descendant_matches(t, resolver, c, p, st);
            append_states(&mut acc, below);
        }
        proof {
            let rest = spec_descendant_matches(t@, resolver@, i as int, k + 1, p@, st@);
            assert(states_view(acc@) + rest =~= before + spec_descendant_matches(
                t@,
                resolver@,
                i as int,
                k as int,
                p@,
                st@,
            ));
        }
        k = k + 1;
    }
    acc
}

/// The matches of `p` among the ancestors of `i`, nearest first.
fn ancestor_matches(t: &SyntaxTree, resolver: &NameResolver, i: usize, p: &NodePattern, st: &StringMap) -> (r: Vec<
    StringMap,
>)
    requires
        t.wf(),
        i < t.nodes@.len(),
        resolver.wf(),
    ensures
        states_view(r@) == spec_ancestor_matches(t@, resolver@, i as int, p@, st@),
{
    let mut acc = empty_states();
    let mut j: usize = i;
    while j < t.nodes.len()
        invariant
            t.wf(),
            resolver.wf(),
            i < t.nodes@.len(),
            states_view(acc@) + spec_ancestor_matches(t@, resolver@, j as int, p@, st@)
                == spec_ancestor_matches(t@, resolver@, i as int, p@, st@),
        decreases j,
    {
        assert(t.node_ok(j as int));
        let ghost before = states_view(acc@);
        match t.nodes[j].parent {
            Some(q) => {
                let here = match_node(t, resolver, q, p, st);
                append_states(&mut acc, here);
                proof {
                    let rest = spec_ancestor_matches(t@, resolver@, q as int, p@, st@);
                    assert(states_view(acc@) + rest =~= before + spec_ancestor_matches(
                        t@,
                        resolver@,
                        j as int,
                        p@,
                        st@,
                    ));
                }
                j = q;
            },
            None => {
                assert(spec_ancestor_matches(t@, resolver@, j as int, p@, st@) =~= Seq::<
                    CapturesView,
                >::empty());
                assert(states_view(acc@) =~= states_view(acc@) + Seq::<CapturesView>::empty());
                return acc;
            },
        }
    }
    acc
}

/// The states in which a node in relationship `r` to node `i` matches `p`.
fn match_relation(
    t: &SyntaxTree,
    resolver: &NameResolver,
    i: usize,
    r: Relationship,
    p: &NodePattern,
    st: &StringMap,
) -> (out: Vec<StringMap>)
    requires
        t.wf(),
        i < t.nodes@.len(),
        resolver.wf(),
    ensures
        states_view(out@) == spec_match_relation(t@, resolver@, i as int, r, p@, st@),
{
    let is_argument = match p.kind {
        PatternKind::Argument(_) => true,
        _ => false,
    };
    if is_argument {
        return match_argument(t, i, p, st);
    }
    match r {
        Relationship::Child => child_matches(t, resolver, i, p, st),
        Relationship::Descendant => descendant_matches(t, resolver, i, p, st),
        Relationship::Ancestor => ancestor_matches(t, resolver, i, p, st),
    }
}

pub open spec fn pattern_views_from(ps: Seq<NodePattern>, from: int) -> Seq<NodePatternView> {
    patterns_view(ps).subrange(from, ps.len() as int)
}

/// The states in which the patterns `ps[from..]` match a chain of nodes below `i`.
fn chain(
    t: &SyntaxTree,
    resolver: &NameResolver,
    i: usize,
    ps: &Vec<NodePattern>,
    from: usize,
    st: &StringMap,
) -> (r: Vec<StringMap>)
    requires
        t.wf(),
        i < t.nodes@.len(),
        resolver.wf(),
        from <= ps@.len(),
    ensures
        states_view(r@) == spec_chain(t@, resolver@, i as int, pattern_views_from(ps@, from as int), st@),
    decreases t.nodes@.len() - i, 0int,
{
    let ghost ps_view = pattern_views_from(ps@, from as int);
    if from == ps.len() {
        let mut r = empty_states();
        push_state(&mut r, Some(st.duplicate()));
        assert(ps_view.len() == 0);
        assert(states_view(r@) =~= seq![st@]);
        return r;
    }
    let mut acc = empty_states();
    let mut k: usize = 0;
    assert(t.node_ok(i as int));
    proof {
        assert(ps_view.drop_first() =~= pattern_views_from(ps@, from + 1));
        assert(ps_view[0] == ps@[from as int]@);
    }
    while k < t.nodes[i].children.len()
        invariant
            t.wf(),
            resolver.wf(),
            i < t.nodes@.len(),
            from < ps@.len(),
            from < ps.len(),
            ps_view == pattern_views_from(ps@, from as int),
            ps_view.drop_first() == pattern_views_from(ps@, from + 1),
            ps_view[0] == ps@[from as int]@,
            k <= t.child_count(i as int),
            states_view(acc@) + spec_chain_children(t@, resolver@, i as int, k as int, ps_view, st@)
                == spec_chain_children(t@, resolver@, i as int, 0, ps_view, st@),
        decreases t.child_count(i as int) - k,
    {
        assert(t.node_ok(i as int));
        let c = t.nodes[i].children[k];
        let ghost before = states_view(acc@);
        if t.nodes[c].named {
            let states = match_node(t, resolver, c, &ps[from], st);
            let deeper = chain_states(t, resolver, c, ps, from + 1, &states);
            append_states(&mut acc, deeper);
            let below = chain(t, resolver, c, ps, from, st);
            append_states(&mut acc, below);
        }
        proof {
            let rest = spec_chain_children(t@, resolver@, i as int, k + 1, ps_view, st@);
            assert(states_view(acc@) + rest =~= before + spec_chain_children(
                t@,
                resolver@,
                i as int,
                k as int,
                ps_view,
                st@,
            ));
        }
        k = k + 1;
    }
    acc
}

/// For each state in turn, the chains of `ps[from..]` below node `c`.
fn chain_states(
    t: &SyntaxTree,
    resolver: &NameResolver,
    c: usize,
    ps: &Vec<NodePattern>,
    from: usize,
    states: &Vec<StringMap>,
) -> (r: Vec<StringMap>)
    requires
        t.wf(),
        c < t.nodes@.len(),
        resolver.wf(),
        from <= ps@.len(),
    ensures
        states_view(r@) == spec_chain_states(
            t@,
            resolver@,
            c as int,
            pattern_views_from(ps@, from as int),
            states_view(states@),
        ),
    decreases t.nodes@.len() - c, 1int,
{
    let ghost ps_view = pattern_views_from(ps@, from as int);
    let ghost all = states_view(states@);
    let mut acc = empty_states();
    let mut j: usize = 0;
    assert(all.subrange(0, all.len() as int) =~= all);
    assert(states_view(acc@) + all =~= all);
    while j < states.len()
        invariant
            t.wf(),
            resolver.wf(),
            c < t.nodes@.len(),
            from <= ps@.len(),
            ps_view == pattern_views_from(ps@, from as int),
            all == states_view(states@),
            j <= states@.len(),
            states_view(acc@) + spec_chain_states(
                t@,
                resolver@,
                c as int,
                ps_view,
                all.subrange(j as int, all.len() as int),
            ) == spec_chain_states(t@, resolver@, c as int, ps_view, all),
        decreases states@.len() - j,
    {
        let ghost before = states_view(acc@);
        let more = chain(t, resolver, c, ps, from, &states[j]);
        append_states(&mut acc, more);
        proof {
            let tail = all.subrange(j as int, all.len() as int);
            assert(tail.drop_first() =~= all.subrange(j + 1, all.len() as int));
            assert(tail[0] == states@[j as int]@);
            let rest = spec_chain_states(
                t@,
                resolver@,
                c as int,
                ps_view,
                all.subrange(j + 1, all.len() as int),
            );
            assert(states_view(acc@) + rest =~= before + spec_chain_states(
                t@,
                resolver@,
                c as int,
                ps_view,
                tail,
            ));
        }
        j = j + 1;
    }
    proof {
        assert(all.subrange(all.len() as int, all.len() as int) =~= Seq::<CapturesView>::empty());
        assert(all.subrange(0, all.len() as int) =~= all);
        assert(states_view(acc@) =~= states_view(acc@) + Seq::<CapturesView>::empty());
    }
    acc
}

/// The states in which the condition `e` holds at node `i`.
fn match_expression(t: &SyntaxTree, resolver: &NameResolver, i: usize, e: &Expression, st: &StringMap) -> (r: Vec<
    StringMap,
>)
    requires
        t.wf(),
        i < t.nodes@.len(),
        resolver.wf(),
    ensures
        states_view(r@) == spec_match_expression(t@, resolver@, i as int, e@, st@),
    decreases e, 0int,
{
    match e {
        Expression::Relation(r, p) => match_relation(t, resolver, i, *r, p, st),
        Expression::DescendantChain(ps) => {
            let r = chain(t, resolver, i, ps, 0, st);
            assert(pattern_views_from(ps@, 0) =~= patterns_view(ps@));
            r
        },
        Expression::And(l, r) => {
            let left = match_expression(t, resolver, i, l, st);
            and_all(t, resolver, i, r, &left)
        },
        Expression::Or(l, r) => {
            let mut acc = match_expression(t, resolver, i, l, st);
            let more = match_expression(t, resolver, i, r, st);
            append_states(&mut acc, more);
            acc
        },
        Expression::Not(x) => {
            let inner = match_expression(t, resolver, i, x, st);
            let mut acc = empty_states();
            if inner.len() == 0 {
                push_state(&mut acc, Some(st.duplicate()));
                assert(states_view(acc@) =~= seq![st@]);
            }
            acc
        },
    }
}

/// For each state in turn, the states in which `e` then holds at node `i`.
fn and_all(t: &SyntaxTree, resolver: &NameResolver, i: usize, e: &Expression, states: &Vec<StringMap>) -> (r: Vec<
    StringMap,
>)
    requires
        t.wf(),
        i < t.nodes@.len(),
        resolver.wf(),
    ensures
        states_view(r@) == spec_and_all(t@, resolver@, i as int, e@, states_view(states@)),
    decreases e, 1int,
{
    let ghost all = states_view(states@);
    let mut acc = empty_states();
    let mut j: usize = 0;
    assert(all.subrange(0, all.len() as int) =~= all);
    assert(states_view(acc@) + all =~= all);
    while j < states.len()
        invariant
            t.wf(),
            resolver.wf(),
            i < t.nodes@.len(),
            all == states_view(states@),
            j <= states@.len(),
            states_view(acc@) + spec_and_all(
                t@,
                resolver@,
                i as int,
                e@,
                all.subrange(j as int, all.len() as int),
            ) == spec_and_all(t@, resolver@, i as int, e@, all),
        decreases states@.len() - j,
    {
        let ghost before = states_view(acc@);
        let more = match_expression(t, resolver, i, e, &states[j]);
        append_states(&mut acc, more);
        proof {
            let tail = all.subrange(j as int, all.len() as int);
            assert(tail.drop_first() =~= all.subrange(j + 1, all.len() as int));
            assert(tail[0] == states@[j as int]@);
            let rest = spec_and_all(t@, resolver@, i as int, e@, all.subrange(j + 1, all.len() as int));
            assert(states_view(acc@) + rest =~= before + spec_and_all(t@, resolver@, i as int, e@, tail));
        }
        j = j + 1;
    }
    proof {
        assert(all.subrange(all.len() as int, all.len() as int) =~= Seq::<CapturesView>::empty());
        assert(states_view(acc@) =~= states_view(acc@) + Seq::<CapturesView>::empty());
    }
    acc
}

/// The captures of each way in which `query` matches at node `i`: its anchor
/// pattern, then its condition from each state the anchor leaves.
pub fn captures_query(t: &SyntaxTree, i: usize, query: &Query, resolver: &NameResolver) -> (r: Vec<
    MatchCaptures,
>)
    requires
        t.wf(),
        i < t.nodes@.len(),
        resolver.wf(),
    ensures
        states_view(r@) == spec_captures_query(t@, resolver@, i as int, query@),
{
    let start = StringMap::new();
    let anchors = match_node(t, resolver, i, &query.anchor, &start);
    match &query.condition {
        None => anchors,
        Some(c) => and_all(t, resolver, i, c, &anchors),
    }
}

} // verus!
