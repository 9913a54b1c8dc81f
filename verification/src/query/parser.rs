//! Parses a query: an anchor node pattern, then conditions on it.
use vstd::prelude::*;
use vstd::string::StringExecFns;
use crate::number::{parse_number, spec_parse_number, NumberView};
use crate::regex_support::{compile_regex, regex_compiles, regex_error};
use crate::text::{
    chars_eq, chars_of, is_name_char, parse_usize, slice_to_vec_range, spec_is_ascii_alphabetic,
    spec_is_name_char, spec_parse_usize, spec_split_once, spec_starts_with, split_once,
    starts_with, string_of,
};
use super::lexer::{tokens_view, Token, TokenView, RelationToken, tokenize, spec_tokenize};
use super::model::{
    ArgumentKey, ArgumentKeyView, Comparison, Expression, ExpressionView, NodePattern,
    NodePatternView, patterns_view, PatternKind, PatternKindView, Query, QueryView, Relationship, ValuePattern,
    ValuePatternView,
};
use super::variables::{lookup, lookup_from, names_distinct, QueryVariables};

verus! {

// ---------------------------------------------------------------------------
// Variable names and references
// ---------------------------------------------------------------------------

/// A variable name: `_` or an ASCII letter, then `_`, ASCII letters or digits.
pub open spec fn spec_is_variable_name(s: Seq<char>) -> bool {
    &&& s.len() > 0
    &&& (s[0] == '_' || spec_is_ascii_alphabetic(s[0]))
    &&& forall|i: int| 1 <= i < s.len() ==> spec_is_name_char(s[i])
}

pub fn is_variable_name_chars(value: &[char]) -> (r: bool)
    ensures
        r == spec_is_variable_name(value@),
{
    if value.len() == 0 {
        return false;
    }
    let first = value[0];
    if !(first == '_' || ('a' <= first && first <= 'z') || ('A' <= first && first <= 'Z')) {
        return false;
    }
    let mut i: usize = 1;
    while i < value.len()
        invariant
            1 <= i <= value@.len(),
            forall|j: int| 1 <= j < i ==> spec_is_name_char(value@[j]),
        decreases value@.len() - i,
    {
        if !is_name_char(value[i]) {
            return false;
        }
        i = i + 1;
    }
    true
}

/// Whether `value` is a valid variable name.
pub fn is_variable_name(value: &str) -> (r: bool)
    ensures
        r == spec_is_variable_name(value@),
{
    let chars = chars_of(value);
    is_variable_name_chars(&chars)
}

pub open spec fn invalid_reference_message(value: Seq<char>) -> Seq<char> {
    "invalid variable reference `"@ + value + "`"@
}

/// `$name` or `${name}`: the name, `None` for text that is no reference, or the error.
pub open spec fn spec_parse_variable_reference(value: Seq<char>) -> Result<Option<Seq<char>>, Seq<char>> {
    if value.len() == 0 || value[0] != '$' {
        Ok(None)
    } else {
        let rest = value.subrange(1, value.len() as int);
        if rest.len() > 0 && rest[0] == '{' {
            let inner = rest.subrange(1, rest.len() as int);
            if inner.len() > 0 && inner[inner.len() - 1] == '}' {
                let name = inner.subrange(0, inner.len() - 1);
                if spec_is_variable_name(name) {
                    Ok(Some(name))
                } else {
                    Err(invalid_reference_message(value))
                }
            } else {
                Err(invalid_reference_message(value))
            }
        } else if spec_is_variable_name(rest) {
            Ok(Some(rest))
        } else {
            Err(invalid_reference_message(value))
        }
    }
}

fn invalid_reference(value: &[char]) -> (r: String)
    ensures
        r@ == invalid_reference_message(value@),
{
    let mut m = "invalid variable reference `".to_owned();
    m.append(string_of(value).as_str());
    m.append("`");
    m
}

fn parse_variable_reference(value: &[char]) -> (r: Result<Option<Vec<char>>, String>)
    ensures
        r matches Ok(Some(n)) ==> spec_parse_variable_reference(value@) == Ok::<
            Option<Seq<char>>,
            Seq<char>,
        >(Some(n@)),
        r matches Ok(None) ==> spec_parse_variable_reference(value@) == Ok::<
            Option<Seq<char>>,
            Seq<char>,
        >(None),
        r matches Err(e) ==> spec_parse_variable_reference(value@) == Err::<
            Option<Seq<char>>,
            Seq<char>,
        >(e@),
{
    if value.len() == 0 || value[0] != '$' {
        return Ok(None);
    }
    let rest = slice_to_vec_range(value, 1, value.len());
    if rest.len() > 0 && rest[0] == '{' {
        let inner = slice_to_vec_range(&rest, 1, rest.len());
        if inner.len() > 0 && inner[inner.len() - 1] == '}' {
            let name = slice_to_vec_range(&inner, 0, inner.len() - 1);
            if is_variable_name_chars(&name) {
                Ok(Some(name))
            } else {
                Err(invalid_reference(value))
            }
        } else {
            Err(invalid_reference(value))
        }
    } else if is_variable_name_chars(&rest) {
        Ok(Some(rest))
    } else {
        Err(invalid_reference(value))
    }
}

pub open spec fn undefined_variable_message(name: Seq<char>, context: Seq<char>) -> Seq<char> {
    "undefined variable `$"@ + name + "` cannot be used in "@ + context
}

/// The text a predicate argument stands for: a defined variable's value, or
/// the text itself where it is no reference. An undefined variable is an error.
pub open spec fn spec_resolve_required(
    value: Seq<char>,
    vars: Seq<(Seq<char>, Seq<char>)>,
    context: Seq<char>,
) -> Result<Seq<char>, Seq<char>> {
    match spec_parse_variable_reference(value) {
        Err(e) => Err(e),
        Ok(None) => Ok(value),
        Ok(Some(name)) => match lookup(vars, name) {
            Some(v) => Ok(v),
            None => Err(undefined_variable_message(name, context)),
        },
    }
}

fn resolve_required_variable(value: &[char], variables: &QueryVariables, context: &str) -> (r:
    Result<Vec<char>, String>)
    ensures
        r matches Ok(v) ==> spec_resolve_required(value@, variables@, context@) == Ok::<
            Seq<char>,
            Seq<char>,
        >(v@),
        r matches Err(e) ==> spec_resolve_required(value@, variables@, context@) == Err::<
            Seq<char>,
            Seq<char>,
        >(e@),
{
    match parse_variable_reference(value)? {
        None => {
            let v = slice_to_vec_range(value, 0, value.len());
            assert(v@ =~= value@);
            Ok(v)
        },
        Some(name) => match variables.get(&name) {
            Some(v) => Ok(chars_of(v.as_str())),
            None => {
                let mut m = "undefined variable `$".to_owned();
                m.append(string_of(&name).as_str());
                m.append("` cannot be used in ");
                m.append(context);
                Err(m)
            },
        },
    }
}

// ---------------------------------------------------------------------------
// Value predicates, argument keys and node patterns
// ---------------------------------------------------------------------------

pub open spec fn self_reference_message(name: Seq<char>) -> Seq<char> {
    "variable `"@ + name + "` references itself"@
}

pub open spec fn invalid_number_message(text: Seq<char>) -> Seq<char> {
    "`"@ + text + "` is not a valid number"@
}

pub open spec fn invalid_regex_message(text: Seq<char>) -> Seq<char> {
    "invalid regex `"@ + text + "`: "@ + regex_error(text)
}

/// `value` without `prefix`, where it starts with it.
pub open spec fn strip_prefix(value: Seq<char>, prefix: Seq<char>) -> Option<Seq<char>> {
    if spec_starts_with(value, prefix) {
        Some(value.subrange(prefix.len() as int, value.len() as int))
    } else {
        None
    }
}

pub open spec fn spec_numeric(
    comparison: Comparison,
    number: Seq<char>,
    vars: Seq<(Seq<char>, Seq<char>)>,
) -> Result<ValuePatternView, Seq<char>> {
    match spec_resolve_required(number, vars, "numeric comparison"@) {
        Err(e) => Err(e),
        Ok(text) => match spec_parse_number(text) {
            Some(n) => Ok(ValuePatternView::Numeric(comparison, n)),
            None => Err(invalid_number_message(text)),
        },
    }
}

pub open spec fn seq_exact() -> Seq<char> {
    seq!['e', 'x', 'a', 'c', 't', ':']
}

pub open spec fn seq_contains() -> Seq<char> {
    seq!['c', 'o', 'n', 't', 'a', 'i', 'n', 's', ':']
}

pub open spec fn seq_starts_with() -> Seq<char> {
    seq!['s', 't', 'a', 'r', 't', 's', '_', 'w', 'i', 't', 'h', ':']
}

pub open spec fn seq_ends_with() -> Seq<char> {
    seq!['e', 'n', 'd', 's', '_', 'w', 'i', 't', 'h', ':']
}

pub open spec fn seq_regex() -> Seq<char> {
    seq!['r', 'e', 'g', 'e', 'x', ':']
}

/// A value predicate that is no variable reference: `*`, a comparison with a
/// number, a prefixed predicate, or an exact value.
#[verifier::opaque]
pub open spec fn spec_parse_plain_value(value: Seq<char>, vars: Seq<(Seq<char>, Seq<char>)>) -> Result<
    ValuePatternView,
    Seq<char>,
> {
    if value == seq!['*'] {
        Ok(ValuePatternView::Any)
    } else if let Some(rest) = strip_prefix(value, seq!['>', '=']) {
        spec_numeric(Comparison::GreaterOrEqual, rest, vars)
    } else if let Some(rest) = strip_prefix(value, seq!['<', '=']) {
        spec_numeric(Comparison::LessOrEqual, rest, vars)
    } else if let Some(rest) = strip_prefix(value, seq!['>']) {
        spec_numeric(Comparison::Greater, rest, vars)
    } else if let Some(rest) = strip_prefix(value, seq!['<']) {
        spec_numeric(Comparison::Less, rest, vars)
    } else if let Some(rest) = strip_prefix(value, seq_exact()) {
        match spec_resolve_required(rest, vars, "exact"@) {
            Ok(t) => Ok(ValuePatternView::Exact(t)),
            Err(e) => Err(e),
        }
    } else if let Some(rest) = strip_prefix(value, seq_contains()) {
        match spec_resolve_required(rest, vars, "contains"@) {
            Ok(t) => Ok(ValuePatternView::Contains(t)),
            Err(e) => Err(e),
        }
    } else if let Some(rest) = strip_prefix(value, seq_starts_with()) {
        match spec_resolve_required(rest, vars, "starts_with"@) {
            Ok(t) => Ok(ValuePatternView::StartsWith(t)),
            Err(e) => Err(e),
        }
    } else if let Some(rest) = strip_prefix(value, seq_ends_with()) {
        match spec_resolve_required(rest, vars, "ends_with"@) {
            Ok(t) => Ok(ValuePatternView::EndsWith(t)),
            Err(e) => Err(e),
        }
    } else if let Some(rest) = strip_prefix(value, seq_regex()) {
        match spec_resolve_required(rest, vars, "regex"@) {
            Ok(t) => if regex_compiles(t) {
                Ok(ValuePatternView::Regex(t))
            } else {
                Err(invalid_regex_message(t))
            },
            Err(e) => Err(e),
        }
    } else {
        Ok(ValuePatternView::Exact(value))
    }
}

/// A value predicate. A defined variable stands for its value, parsed in
/// turn; an undefined one captures the matched text. `stack` holds the
/// variables being expanded, to refuse a variable that refers to itself.
/// (Its names are distinct defined names, so it is shorter than `vars`
/// whenever one more name can be expanded.)
#[verifier::opaque]
pub open spec fn spec_parse_value(
    value: Seq<char>,
    vars: Seq<(Seq<char>, Seq<char>)>,
    stack: Seq<Seq<char>>,
) -> Result<ValuePatternView, Seq<char>>
    decreases vars.len() - stack.len(),
{
    match spec_parse_variable_reference(value) {
        Err(e) => Err(e),
        Ok(Some(name)) => match lookup(vars, name) {
            Some(replacement) => if stack.contains(name) || stack.len() >= vars.len() {
                Err(self_reference_message(name))
            } else {
                spec_parse_value(replacement, vars, stack.push(name))
            },
            None => Ok(ValuePatternView::Capture(name)),
        },
        Ok(None) => spec_parse_plain_value(value, vars),
    }
}

pub open spec fn invalid_key_message(key: Seq<char>) -> Seq<char> {
    "invalid argument key `"@ + key + "`"@
}

/// An argument key: `*`, a position, or a keyword name.
pub open spec fn spec_parse_argument_key(key: Seq<char>) -> Result<ArgumentKeyView, Seq<char>> {
    if key == seq!['*'] {
        Ok(ArgumentKeyView::Any)
    } else if let Some(p) = spec_parse_usize(key) {
        Ok(ArgumentKeyView::Position(p))
    } else if spec_is_variable_name(key) {
        Ok(ArgumentKeyView::Keyword(key))
    } else {
        Err(invalid_key_message(key))
    }
}

pub open spec fn invalid_pattern_message(pattern: Seq<char>) -> Seq<char> {
    "invalid pattern `"@ + pattern + "`; expected `<kind>:<value>`"@
}

pub open spec fn unsupported_kind_message(kind: Seq<char>) -> Seq<char> {
    "unsupported pattern kind `"@ + kind + "`"@
}

pub open spec fn argument_format_message() -> Seq<char> {
    "arguments require a key and value, for example `argument:timeout:30`"@
}

pub open spec fn seq_call() -> Seq<char> {
    seq!['c', 'a', 'l', 'l']
}

pub open spec fn seq_class() -> Seq<char> {
    seq!['c', 'l', 'a', 's', 's']
}

pub open spec fn seq_function() -> Seq<char> {
    seq!['f', 'u', 'n', 'c', 't', 'i', 'o', 'n']
}

pub open spec fn seq_function_definition() -> Seq<char> {
    seq!['f', 'u', 'n', 'c', 't', 'i', 'o', 'n', '_', 'd', 'e', 'f', 'i', 'n', 'i', 't', 'i', 'o', 'n']
}

pub open spec fn seq_import() -> Seq<char> {
    seq!['i', 'm', 'p', 'o', 'r', 't']
}

pub open spec fn seq_argument() -> Seq<char> {
    seq!['a', 'r', 'g', 'u', 'm', 'e', 'n', 't']
}

pub open spec fn with_kind(kind: PatternKindView, value: Result<ValuePatternView, Seq<char>>) -> Result<
    NodePatternView,
    Seq<char>,
> {
    match value {
        Ok(v) => Ok(NodePatternView { kind, value: v }),
        Err(e) => Err(e),
    }
}

/// `<kind>:<value>`, or `argument:<key>:<value>`.
#[verifier::opaque]
pub open spec fn spec_parse_node_pattern(pattern: Seq<char>, vars: Seq<(Seq<char>, Seq<char>)>) -> Result<
    NodePatternView,
    Seq<char>,
> {
    match spec_split_once(pattern, ':') {
        None => Err(invalid_pattern_message(pattern)),
        Some((kind, value)) => if kind == seq_call() {
            with_kind(PatternKindView::Call, spec_parse_value(value, vars, seq![]))
        } else if kind == seq_class() {
            with_kind(PatternKindView::Class, spec_parse_value(value, vars, seq![]))
        } else if kind == seq_function() || kind == seq_function_definition() {
            with_kind(PatternKindView::Function, spec_parse_value(value, vars, seq![]))
        } else if kind == seq_import() {
            with_kind(PatternKindView::Import, spec_parse_value(value, vars, seq![]))
        } else if kind == seq_argument() {
            match spec_split_once(value, ':') {
                None => Err(argument_format_message()),
                Some((key, rest)) => match spec_parse_argument_key(key) {
                    Err(e) => Err(e),
                    Ok(k) => with_kind(PatternKindView::Argument(k), spec_parse_value(rest, vars, seq![])),
                },
            }
        } else {
            Err(unsupported_kind_message(kind))
        },
    }
}

proof fn lemma_stack_shorter(
    stack: Seq<Seq<char>>,
    vars: Seq<(Seq<char>, Seq<char>)>,
    name: Seq<char>,
)
    requires
        stack.no_duplicates(),
        names_distinct(vars),
        forall|i: int| 0 <= i < stack.len() ==> lookup(vars, #[trigger] stack[i]) is Some,
        lookup(vars, name) is Some,
        !stack.contains(name),
    ensures
        stack.len() < vars.len(),
{
    let keys = vars.map_values(|e: (Seq<char>, Seq<char>)| e.0);
    let extended = stack.push(name);
    assert forall|i: int, j: int| 0 <= i < keys.len() && 0 <= j < keys.len() && i != j implies keys[i]
        != keys[j] by {
        if i < j {
            assert(vars[i].0 != vars[j].0);
        } else {
            assert(vars[j].0 != vars[i].0);
        }
    }
    assert(keys.no_duplicates());
    assert(extended.no_duplicates()) by {
        assert forall|i: int, j: int|
            0 <= i < extended.len() && 0 <= j < extended.len() && i != j implies extended[i]
            != extended[j] by {
            if i < stack.len() && j < stack.len() {
            } else if i == stack.len() {
                assert(stack[j] == extended[j]);
            } else {
                assert(stack[i] == extended[i]);
            }
        }
    }
    assert forall|x: Seq<char>| extended.to_set().contains(x) implies keys.to_set().contains(x) by {
        let i = choose|i: int| 0 <= i < extended.len() && extended[i] == x;
        assert(lookup(vars, x) is Some);
        lemma_lookup_some_is_key(vars, x, 0);
        let k = choose|k: int| 0 <= k < vars.len() && vars[k].0 == x;
        assert(keys[k] == x);
    }
    keys.unique_seq_to_set();
    extended.unique_seq_to_set();
    vstd::set_lib::lemma_len_subset(extended.to_set(), keys.to_set());
}

proof fn lemma_lookup_some_is_key(v: Seq<(Seq<char>, Seq<char>)>, name: Seq<char>, i: int)
    requires
        0 <= i,
        lookup_from(v, name, i) is Some,
    ensures
        exists|k: int| 0 <= k < v.len() && v[k].0 == name,
    decreases v.len() - i,
{
    if i < v.len() && v[i].0 != name {
        lemma_lookup_some_is_key(v, name, i + 1);
    }
}

fn stack_contains(stack: &Vec<Vec<char>>, name: &[char]) -> (r: bool)
    ensures
        r == stack@.map_values(|v: Vec<char>| v@).contains(name@),
{
    let ghost views = stack@.map_values(|v: Vec<char>| v@);
    let mut i: usize = 0;
    while i < stack.len()
        invariant
            i <= stack@.len(),
            views == stack@.map_values(|v: Vec<char>| v@),
            forall|j: int| 0 <= j < i ==> views[j] != name@,
        decreases stack@.len() - i,
    {
        if chars_eq(&stack[i], name) {
            assert(views[i as int] == name@);
            return true;
        }
        i = i + 1;
    }
    false
}

fn message3(a: &str, b: &[char], c: &str) -> (r: String)
    ensures
        r@ == a@ + b@ + c@,
{
    let mut m = a.to_owned();
    m.append(string_of(b).as_str());
    m.append(c);
    m
}

fn numeric_value(comparison: Comparison, number: &[char], variables: &QueryVariables) -> (r: Result<
    ValuePattern,
    String,
>)
    ensures
        r matches Ok(v) ==> spec_numeric(comparison, number@, variables@) == Ok::<
            ValuePatternView,
            Seq<char>,
        >(v@),
        r matches Err(e) ==> spec_numeric(comparison, number@, variables@) == Err::<
            ValuePatternView,
            Seq<char>,
        >(e@),
{
    let text = resolve_required_variable(number, variables, "numeric comparison")?;
    match parse_number(&text) {
        Some(n) => Ok(ValuePattern::Numeric(comparison, n)),
        None => Err(message3("`", &text, "` is not a valid number")),
    }
}

fn resolved(value: &[char], variables: &QueryVariables, context: &str) -> (r: Result<String, String>)
    ensures
        r matches Ok(v) ==> spec_resolve_required(value@, variables@, context@) == Ok::<
            Seq<char>,
            Seq<char>,
        >(v@),
        r matches Err(e) ==> spec_resolve_required(value@, variables@, context@) == Err::<
            Seq<char>,
            Seq<char>,
        >(e@),
{
    let v = resolve_required_variable(value, variables, context)?;
    Ok(string_of(&v))
}

fn strip(value: &[char], prefix: &[char]) -> (r: Option<Vec<char>>)
    ensures
        r matches Some(v) ==> strip_prefix(value@, prefix@) == Some(v@),
        r is None ==> strip_prefix(value@, prefix@) is None,
{
    if starts_with(value, prefix) {
        Some(slice_to_vec_range(value, prefix.len(), value.len()))
    } else {
        None
    }
}

fn word_star() -> (r: &'static [char])
    ensures
        r@ == seq!['*'],
{
    let l: &'static [char] = &['*'];
    assert(l@ =~= seq!['*']);
    l
}

fn word_ge() -> (r: &'static [char])
    ensures
        r@ == seq!['>', '='],
{
    let l: &'static [char] = &['>', '='];
    assert(l@ =~= seq!['>', '=']);
    l
}

fn word_le() -> (r: &'static [char])
    ensures
        r@ == seq!['<', '='],
{
    let l: &'static [char] = &['<', '='];
    assert(l@ =~= seq!['<', '=']);
    l
}

fn word_gt() -> (r: &'static [char])
    ensures
        r@ == seq!['>'],
{
    let l: &'static [char] = &['>'];
    assert(l@ =~= seq!['>']);
    l
}

fn word_lt() -> (r: &'static [char])
    ensures
        r@ == seq!['<'],
{
    let l: &'static [char] = &['<'];
    assert(l@ =~= seq!['<']);
    l
}

fn word_exact() -> (r: &'static [char])
    ensures
        r@ == seq!['e', 'x', 'a', 'c', 't', ':'],
{
    let l: &'static [char] = &['e', 'x', 'a', 'c', 't', ':'];
    assert(l@ =~= seq!['e', 'x', 'a', 'c', 't', ':']);
    l
}

fn word_contains() -> (r: &'static [char])
    ensures
        r@ == seq!['c', 'o', 'n', 't', 'a', 'i', 'n', 's', ':'],
{
    let l: &'static [char] = &['c', 'o', 'n', 't', 'a', 'i', 'n', 's', ':'];
    assert(l@ =~= seq!['c', 'o', 'n', 't', 'a', 'i', 'n', 's', ':']);
    l
}

fn word_starts_with() -> (r: &'static [char])
    ensures
        r@ == seq!['s', 't', 'a', 'r', 't', 's', '_', 'w', 'i', 't', 'h', ':'],
{
    let l: &'static [char] = &['s', 't', 'a', 'r', 't', 's', '_', 'w', 'i', 't', 'h', ':'];
    assert(l@ =~= seq!['s', 't', 'a', 'r', 't', 's', '_', 'w', 'i', 't', 'h', ':']);
    l
}

fn word_ends_with() -> (r: &'static [char])
    ensures
        r@ == seq!['e', 'n', 'd', 's', '_', 'w', 'i', 't', 'h', ':'],
{
    let l: &'static [char] = &['e', 'n', 'd', 's', '_', 'w', 'i', 't', 'h', ':'];
    assert(l@ =~= seq!['e', 'n', 'd', 's', '_', 'w', 'i', 't', 'h', ':']);
    l
}

fn word_regex() -> (r: &'static [char])
    ensures
        r@ == seq!['r', 'e', 'g', 'e', 'x', ':'],
{
    let l: &'static [char] = &['r', 'e', 'g', 'e', 'x', ':'];
    assert(l@ =~= seq!['r', 'e', 'g', 'e', 'x', ':']);
    l
}

fn word_call() -> (r: &'static [char])
    ensures
        r@ == seq!['c', 'a', 'l', 'l'],
{
    let l: &'static [char] = &['c', 'a', 'l', 'l'];
    assert(l@ =~= seq!['c', 'a', 'l', 'l']);
    l
}

fn word_class() -> (r: &'static [char])
    ensures
        r@ == seq!['c', 'l', 'a', 's', 's'],
{
    let l: &'static [char] = &['c', 'l', 'a', 's', 's'];
    assert(l@ =~= seq!['c', 'l', 'a', 's', 's']);
    l
}

fn word_function() -> (r: &'static [char])
    ensures
        r@ == seq!['f', 'u', 'n', 'c', 't', 'i', 'o', 'n'],
{
    let l: &'static [char] = &['f', 'u', 'n', 'c', 't', 'i', 'o', 'n'];
    assert(l@ =~= seq!['f', 'u', 'n', 'c', 't', 'i', 'o', 'n']);
    l
}

fn word_function_definition() -> (r: &'static [char])
    ensures
        r@ == seq!['f', 'u', 'n', 'c', 't', 'i', 'o', 'n', '_', 'd', 'e', 'f', 'i', 'n', 'i', 't', 'i', 'o', 'n'],
{
    let l: &'static [char] = &['f', 'u', 'n', 'c', 't', 'i', 'o', 'n', '_', 'd', 'e', 'f', 'i', 'n', 'i', 't', 'i', 'o', 'n'];
    assert(l@ =~= seq!['f', 'u', 'n', 'c', 't', 'i', 'o', 'n', '_', 'd', 'e', 'f', 'i', 'n', 'i', 't', 'i', 'o', 'n']);
    l
}

fn word_import() -> (r: &'static [char])
    ensures
        r@ == seq!['i', 'm', 'p', 'o', 'r', 't'],
{
    let l: &'static [char] = &['i', 'm', 'p', 'o', 'r', 't'];
    assert(l@ =~= seq!['i', 'm', 'p', 'o', 'r', 't']);
    l
}

fn word_argument() -> (r: &'static [char])
    ensures
        r@ == seq!['a', 'r', 'g', 'u', 'm', 'e', 'n', 't'],
{
    let l: &'static [char] = &['a', 'r', 'g', 'u', 'm', 'e', 'n', 't'];
    assert(l@ =~= seq!['a', 'r', 'g', 'u', 'm', 'e', 'n', 't']);
    l
}

fn parse_plain_value(value: &[char], variables: &QueryVariables) -> (r: Result<ValuePattern, String>)
    ensures
        r matches Ok(v) ==> spec_parse_plain_value(value@, variables@) == Ok::<
            ValuePatternView,
            Seq<char>,
        >(v@),
        r matches Err(e) ==> spec_parse_plain_value(value@, variables@) == Err::<
            ValuePatternView,
            Seq<char>,
        >(e@),
{
    proof {
        reveal(spec_parse_plain_value);
    }
    if chars_eq(value, word_star()) {
        return Ok(ValuePattern::Any);
    }
    if let Some(rest) = strip(value, word_ge()) {
        return numeric_value(Comparison::GreaterOrEqual, &rest, variables);
    }
    if let Some(rest) = strip(value, word_le()) {
        return numeric_value(Comparison::LessOrEqual, &rest, variables);
    }
    if let Some(rest) = strip(value, word_gt()) {
        return numeric_value(Comparison::Greater, &rest, variables);
    }
    if let Some(rest) = strip(value, word_lt()) {
        return numeric_value(Comparison::Less, &rest, variables);
    }
    if let Some(rest) = strip(value, word_exact()) {
        return Ok(ValuePattern::Exact(resolved(&rest, variables, "exact")?));
    }
    if let Some(rest) = strip(value, word_contains()) {
        return Ok(ValuePattern::Contains(resolved(&rest, variables, "contains")?));
    }
    if let Some(rest) = strip(value, word_starts_with()) {
        return Ok(ValuePattern::StartsWith(resolved(&rest, variables, "starts_with")?));
    }
    if let Some(rest) = strip(value, word_ends_with()) {
        return Ok(ValuePattern::EndsWith(resolved(&rest, variables, "ends_with")?));
    }
    if let Some(rest) = strip(value, word_regex()) {
        let expression = resolved(&rest, variables, "regex")?;
        return match compile_regex(expression.as_str()) {
            Ok(p) => Ok(ValuePattern::Regex(p)),
            Err(error) => {
                let mut m = message3("invalid regex `", &chars_of(expression.as_str()), "`: ");
                m.append(error.as_str());
                Err(m)
            },
        };
    }
    Ok(ValuePattern::Exact(string_of(value)))
}

fn parse_value_with_stack(
    value: &[char],
    variables: &QueryVariables,
    stack: &mut Vec<Vec<char>>,
) -> (r: Result<ValuePattern, String>)
    requires
        old(stack)@.map_values(|v: Vec<char>| v@).no_duplicates(),
        forall|i: int|
            0 <= i < old(stack)@.len() ==> lookup(variables@, #[trigger] old(stack)@[i]@) is Some,
    ensures
        final(stack)@ == old(stack)@,
        r matches Ok(v) ==> spec_parse_value(
            value@,
            variables@,
            old(stack)@.map_values(|v: Vec<char>| v@),
        ) == Ok::<ValuePatternView, Seq<char>>(v@),
        r matches Err(e) ==> spec_parse_value(
            value@,
            variables@,
            old(stack)@.map_values(|v: Vec<char>| v@),
        ) == Err::<ValuePatternView, Seq<char>>(e@),
    decreases variables@.len() - old(stack)@.len(),
{
    let ghost views = stack@.map_values(|v: Vec<char>| v@);
    proof {
        reveal_with_fuel(spec_parse_value, 1);
    }
    match parse_variable_reference(value)? {
        Some(name) => match variables.get(&name) {
            Some(replacement) => {
                if stack_contains(stack, &name) {
                    return Err(message3("variable `", &name, "` references itself"));
                }
                proof {
                    use_type_invariant(variables);
                    assert forall|i: int| 0 <= i < views.len() implies lookup(
                        variables@,
                        #[trigger] views[i],
                    ) is Some by {
                        assert(views[i] == stack@[i]@);
                    }
                    lemma_stack_shorter(views, variables@, name@);
                }
                let replacement = chars_of(replacement.as_str());
                stack.push(name);
                proof {
                    assert(stack@.map_values(|v: Vec<char>| v@) =~= views.push(name@));
                    assert forall|i: int| 0 <= i < stack@.len() implies lookup(
                        variables@,
                        #[trigger] stack@[i]@,
                    ) is Some by {
                        if i < views.len() {
                            assert(stack@[i] == old(stack)@[i]);
                        }
                    }
                }
                let result = parse_value_with_stack(&replacement, variables, stack);
                stack.pop();
                proof {
                    assert(stack@ =~= old(stack)@);
                }
                result
            },
            None => Ok(ValuePattern::Capture(string_of(&name))),
        },
        None => parse_plain_value(value, variables),
    }
}

fn parse_value(value: &[char], variables: &QueryVariables) -> (r: Result<ValuePattern, String>)
    ensures
        r matches Ok(v) ==> spec_parse_value(value@, variables@, seq![]) == Ok::<
            ValuePatternView,
            Seq<char>,
        >(v@),
        r matches Err(e) ==> spec_parse_value(value@, variables@, seq![]) == Err::<
            ValuePatternView,
            Seq<char>,
        >(e@),
{
    let mut stack: Vec<Vec<char>> = Vec::new();
    assert(stack@.map_values(|v: Vec<char>| v@) =~= Seq::<Seq<char>>::empty());
    parse_value_with_stack(value, variables, &mut stack)
}

fn parse_argument_key(key: &[char]) -> (r: Result<ArgumentKey, String>)
    ensures
        r matches Ok(k) ==> spec_parse_argument_key(key@) == Ok::<ArgumentKeyView, Seq<char>>(k@),
        r matches Err(e) ==> spec_parse_argument_key(key@) == Err::<ArgumentKeyView, Seq<char>>(
            e@,
        ),
{
    if chars_eq(key, word_star()) {
        return Ok(ArgumentKey::Any);
    }
    if let Some(position) = parse_usize(key) {
        return Ok(ArgumentKey::Position(position));
    }
    if is_variable_name_chars(key) {
        return Ok(ArgumentKey::Keyword(string_of(key)));
    }
    Err(message3("invalid argument key `", key, "`"))
}

fn parse_node_pattern(pattern: &[char], variables: &QueryVariables) -> (r: Result<NodePattern, String>)
    ensures
        r matches Ok(p) ==> spec_parse_node_pattern(pattern@, variables@) == Ok::<
            NodePatternView,
            Seq<char>,
        >(p@),
        r matches Err(e) ==> spec_parse_node_pattern(pattern@, variables@) == Err::<
            NodePatternView,
            Seq<char>,
        >(e@),
{
    proof {
        reveal(spec_parse_node_pattern);
    }
    let (kind, value) = match split_once(pattern, ':') {
        Some(parts) => parts,
        None => {
            return Err(message3("invalid pattern `", pattern, "`; expected `<kind>:<value>`"));
        },
    };
    if chars_eq(&kind, word_call()) {
        Ok(NodePattern { kind: PatternKind::Call, value: parse_value(&value, variables)? })
    } else if chars_eq(&kind, word_class()) {
        Ok(NodePattern { kind: PatternKind::Class, value: parse_value(&value, variables)? })
    } else if chars_eq(&kind, word_function()) || chars_eq(
        &kind,
        word_function_definition(),
    ) {
        Ok(NodePattern { kind: PatternKind::Function, value: parse_value(&value, variables)? })
    } else if chars_eq(&kind, word_import()) {
        Ok(NodePattern { kind: PatternKind::Import, value: parse_value(&value, variables)? })
    } else if chars_eq(&kind, word_argument()) {
        let (key, rest) = match split_once(&value, ':') {
            Some(parts) => parts,
            None => {
                return Err(
                    "arguments require a key and value, for example `argument:timeout:30`".to_owned(),
                );
            },
        };
        let key = parse_argument_key(&key)?;
        Ok(NodePattern { kind: PatternKind::Argument(key), value: parse_value(&rest, variables)? })
    } else {
        Err(message3("unsupported pattern kind `", &kind, "`"))
    }
}

// ---------------------------------------------------------------------------
// The grammar
// ---------------------------------------------------------------------------
//
//   query     := pattern [ ("AND" | "->" ...) or ]
//   or        := and { "OR" and }
//   and       := primary { "AND" primary }
//   primary   := "NOT" primary | "(" or ")" | "->" pattern { "->" pattern }
//              | [relation] ( "(" pattern ")" | pattern )
//
// Each rule below gives the parsed value and the position after it. The
// guards on positions hold of every result (each rule consumes a token) and
// are there for termination only.

pub open spec fn relationship_of(r: RelationToken) -> Relationship {
    match r {
        RelationToken::Child => Relationship::Child,
        RelationToken::Descendant => Relationship::Descendant,
        RelationToken::Ancestor => Relationship::Ancestor,
    }
}

pub open spec fn token_at(t: Seq<TokenView>, pos: int) -> Option<TokenView> {
    if 0 <= pos < t.len() {
        Some(t[pos])
    } else {
        None
    }
}

pub open spec fn p_pattern(t: Seq<TokenView>, pos: int, vars: Seq<(Seq<char>, Seq<char>)>) -> Result<
    (NodePatternView, int),
    Seq<char>,
> {
    match token_at(t, pos) {
        Some(TokenView::Atom(a)) => match spec_parse_node_pattern(a, vars) {
            Ok(p) => Ok((p, pos + 1)),
            Err(e) => Err(e),
        },
        _ => Err("expected a node pattern"@),
    }
}

pub open spec fn p_chain(
    t: Seq<TokenView>,
    patterns: Seq<NodePatternView>,
    pos: int,
    vars: Seq<(Seq<char>, Seq<char>)>,
) -> Result<(ExpressionView, int), Seq<char>>
    decreases t.len() - pos,
{
    if 0 <= pos < t.len() && t[pos] is Arrow {
        match p_pattern(t, pos + 1, vars) {
            Ok((p, next)) => p_chain(t, patterns.push(p), next, vars),
            Err(e) => Err(e),
        }
    } else {
        Ok((ExpressionView::DescendantChain(patterns), pos))
    }
}

pub open spec fn p_primary(t: Seq<TokenView>, pos: int, vars: Seq<(Seq<char>, Seq<char>)>) -> Result<
    (ExpressionView, int),
    Seq<char>,
>
    decreases t.len() - pos, 0nat,
{
    if pos < 0 || pos > t.len() {
        Err(seq![])
    } else if token_at(t, pos) == Some(TokenView::Not) {
        match p_primary(t, pos + 1, vars) {
            Ok((e, next)) => Ok((ExpressionView::Not(Box::new(e)), next)),
            Err(m) => Err(m),
        }
    } else if token_at(t, pos) == Some(TokenView::LeftParen) {
        match p_or(t, pos + 1, vars) {
            Ok((e, next)) => if token_at(t, next) == Some(TokenView::RightParen) {
                Ok((e, next + 1))
            } else {
                Err("expected `)`"@)
            },
            Err(m) => Err(m),
        }
    } else if token_at(t, pos) == Some(TokenView::Arrow) {
        match p_pattern(t, pos + 1, vars) {
            Ok((p, next)) => p_chain(t, seq![p], next, vars),
            Err(m) => Err(m),
        }
    } else {
        let (relationship, after) = match token_at(t, pos) {
            Some(TokenView::Relation(r)) => (relationship_of(r), pos + 1),
            _ => (Relationship::Descendant, pos),
        };
        let wrapped = token_at(t, after) == Some(TokenView::LeftParen);
        let start = if wrapped {
            after + 1
        } else {
            after
        };
        match p_pattern(t, start, vars) {
            Ok((p, next)) => if !wrapped {
                Ok((ExpressionView::Relation(relationship, p), next))
            } else if token_at(t, next) == Some(TokenView::RightParen) {
                Ok((ExpressionView::Relation(relationship, p), next + 1))
            } else {
                Err("expected `)` after relationship pattern"@)
            },
            Err(m) => Err(m),
        }
    }
}

pub open spec fn p_and_rest(
    t: Seq<TokenView>,
    left: ExpressionView,
    pos: int,
    vars: Seq<(Seq<char>, Seq<char>)>,
) -> Result<(ExpressionView, int), Seq<char>>
    decreases t.len() - pos, 1nat,
{
    if 0 <= pos < t.len() && t[pos] == TokenView::And {
        match p_primary(t, pos + 1, vars) {
            Ok((right, next)) => if pos < next <= t.len() {
                p_and_rest(t, ExpressionView::And(Box::new(left), Box::new(right)), next, vars)
            } else {
                Err(seq![])
            },
            Err(m) => Err(m),
        }
    } else {
        Ok((left, pos))
    }
}

pub open spec fn p_and(t: Seq<TokenView>, pos: int, vars: Seq<(Seq<char>, Seq<char>)>) -> Result<
    (ExpressionView, int),
    Seq<char>,
>
    decreases t.len() - pos, 2nat,
{
    match p_primary(t, pos, vars) {
        Ok((left, next)) => if pos < next <= t.len() {
            p_and_rest(t, left, next, vars)
        } else {
            Err(seq![])
        },
        Err(m) => Err(m),
    }
}

pub open spec fn p_or_rest(
    t: Seq<TokenView>,
    left: ExpressionView,
    pos: int,
    vars: Seq<(Seq<char>, Seq<char>)>,
) -> Result<(ExpressionView, int), Seq<char>>
    decreases t.len() - pos, 3nat,
{
    if 0 <= pos < t.len() && t[pos] == TokenView::Or {
        match p_and(t, pos + 1, vars) {
            Ok((right, next)) => if pos < next <= t.len() {
                p_or_rest(t, ExpressionView::Or(Box::new(left), Box::new(right)), next, vars)
            } else {
                Err(seq![])
            },
            Err(m) => Err(m),
        }
    } else {
        Ok((left, pos))
    }
}

pub open spec fn p_or(t: Seq<TokenView>, pos: int, vars: Seq<(Seq<char>, Seq<char>)>) -> Result<
    (ExpressionView, int),
    Seq<char>,
>
    decreases t.len() - pos, 4nat,
{
    match p_and(t, pos, vars) {
        Ok((left, next)) => if pos < next <= t.len() {
            p_or_rest(t, left, next, vars)
        } else {
            Err(seq![])
        },
        Err(m) => Err(m),
    }
}

/// A bare pattern in a condition means `descendant(pattern)`: a condition
/// that is the atom `a` and one that is `descendant ( a )` parse to the same
/// expression, each ending after its own tokens, or fail with the same error.
pub proof fn bare_pattern_is_descendant(
    t1: Seq<TokenView>,
    pos1: int,
    t2: Seq<TokenView>,
    pos2: int,
    a: Seq<char>,
    vars: Seq<(Seq<char>, Seq<char>)>,
)
    requires
        0 <= pos1 < t1.len(),
        t1[pos1] == TokenView::Atom(a),
        0 <= pos2,
        pos2 + 3 < t2.len(),
        t2[pos2] == TokenView::Relation(RelationToken::Descendant),
        t2[pos2 + 1] == TokenView::LeftParen,
        t2[pos2 + 2] == TokenView::Atom(a),
        t2[pos2 + 3] == TokenView::RightParen,
    ensures
        match (p_primary(t1, pos1, vars), p_primary(t2, pos2, vars)) {
            (Ok((e1, n1)), Ok((e2, n2))) => e1 == e2 && n1 == pos1 + 1 && n2 == pos2 + 4,
            (Err(m1), Err(m2)) => m1 == m2,
            _ => false,
        },
{
    assert(token_at(t1, pos1) == Some(TokenView::Atom(a)));
    assert(token_at(t2, pos2) == Some(TokenView::Relation(RelationToken::Descendant)));
    assert(token_at(t2, pos2 + 1) == Some(TokenView::LeftParen));
    assert(token_at(t2, pos2 + 2) == Some(TokenView::Atom(a)));
    assert(token_at(t2, pos2 + 3) == Some(TokenView::RightParen));
}

proof fn lemma_chain_step(t: Seq<TokenView>, ps: Seq<NodePatternView>, pos: int, vars: Seq<(Seq<char>, Seq<char>)>)
    requires
        0 <= pos < t.len(),
        t[pos] is Arrow,
    ensures
        p_chain(t, ps, pos, vars) == match p_pattern(t, pos + 1, vars) {
            Ok((p, next)) => p_chain(t, ps.push(p), next, vars),
            Err(e) => Err(e),
        },
{
}

proof fn lemma_chain_stop(t: Seq<TokenView>, ps: Seq<NodePatternView>, pos: int, vars: Seq<(Seq<char>, Seq<char>)>)
    requires
        !(0 <= pos < t.len() && t[pos] is Arrow),
    ensures
        p_chain(t, ps, pos, vars) == Ok::<(ExpressionView, int), Seq<char>>(
            (ExpressionView::DescendantChain(ps), pos),
        ),
{
}

proof fn lemma_and_rest_step(t: Seq<TokenView>, left: ExpressionView, pos: int, vars: Seq<(Seq<char>, Seq<char>)>)
    requires
        0 <= pos < t.len(),
        t[pos] == TokenView::And,
    ensures
        p_and_rest(t, left, pos, vars) == match p_primary(t, pos + 1, vars) {
            Ok((right, next)) => if pos < next <= t.len() {
                p_and_rest(t, ExpressionView::And(Box::new(left), Box::new(right)), next, vars)
            } else {
                Err(seq![])
            },
            Err(m) => Err(m),
        },
{
}

proof fn lemma_and_rest_stop(t: Seq<TokenView>, left: ExpressionView, pos: int, vars: Seq<(Seq<char>, Seq<char>)>)
    requires
        !(0 <= pos < t.len() && t[pos] == TokenView::And),
    ensures
        p_and_rest(t, left, pos, vars) == Ok::<(ExpressionView, int), Seq<char>>((left, pos)),
{
}

proof fn lemma_or_rest_step(t: Seq<TokenView>, left: ExpressionView, pos: int, vars: Seq<(Seq<char>, Seq<char>)>)
    requires
        0 <= pos < t.len(),
        t[pos] == TokenView::Or,
    ensures
        p_or_rest(t, left, pos, vars) == match p_and(t, pos + 1, vars) {
            Ok((right, next)) => if pos < next <= t.len() {
                p_or_rest(t, ExpressionView::Or(Box::new(left), Box::new(right)), next, vars)
            } else {
                Err(seq![])
            },
            Err(m) => Err(m),
        },
{
}

proof fn lemma_or_rest_stop(t: Seq<TokenView>, left: ExpressionView, pos: int, vars: Seq<(Seq<char>, Seq<char>)>)
    requires
        !(0 <= pos < t.len() && t[pos] == TokenView::Or),
    ensures
        p_or_rest(t, left, pos, vars) == Ok::<(ExpressionView, int), Seq<char>>((left, pos)),
{
}

proof fn lemma_and_unfold(t: Seq<TokenView>, pos: int, vars: Seq<(Seq<char>, Seq<char>)>)
    requires
        0 <= pos <= t.len(),
    ensures
        p_and(t, pos, vars) == match p_primary(t, pos, vars) {
            Ok((left, next)) => if pos < next <= t.len() {
                p_and_rest(t, left, next, vars)
            } else {
                Err(seq![])
            },
            Err(m) => Err(m),
        },
{
}

proof fn lemma_or_unfold(t: Seq<TokenView>, pos: int, vars: Seq<(Seq<char>, Seq<char>)>)
    requires
        0 <= pos <= t.len(),
    ensures
        p_or(t, pos, vars) == match p_and(t, pos, vars) {
            Ok((left, next)) => if pos < next <= t.len() {
                p_or_rest(t, left, next, vars)
            } else {
                Err(seq![])
            },
            Err(m) => Err(m),
        },
{
}

/// The `Debug` rendering of a token.
pub open spec fn spec_token_debug(t: TokenView) -> Seq<char> {
    match t {
        TokenView::Atom(s) => "Atom("@ + crate::text::spec_debug_str(s) + ")"@,
        TokenView::And => "And"@,
        TokenView::Or => "Or"@,
        TokenView::Not => "Not"@,
        TokenView::Arrow => "Arrow"@,
        TokenView::Relation(RelationToken::Child) => "Relation(Child)"@,
        TokenView::Relation(RelationToken::Descendant) => "Relation(Descendant)"@,
        TokenView::Relation(RelationToken::Ancestor) => "Relation(Ancestor)"@,
        TokenView::LeftParen => "LeftParen"@,
        TokenView::RightParen => "RightParen"@,
    }
}

/// The query that tokens spell: the anchor pattern, then, after `AND` or at
/// a `->`, its condition; nothing may follow.
pub open spec fn spec_parse_tokens(t: Seq<TokenView>, vars: Seq<(Seq<char>, Seq<char>)>) -> Result<
    QueryView,
    Seq<char>,
> {
    match p_pattern(t, 0, vars) {
        Err(m) => Err(m),
        Ok((anchor, next)) => {
            let condition: Result<(Option<ExpressionView>, int), Seq<char>> = if next == t.len() {
                Ok((None, next))
            } else if token_at(t, next) == Some(TokenView::Arrow) {
                match p_or(t, next, vars) {
                    Ok((e, after)) => Ok((Some(e), after)),
                    Err(m) => Err(m),
                }
            } else if token_at(t, next) == Some(TokenView::And) {
                match p_or(t, next + 1, vars) {
                    Ok((e, after)) => Ok((Some(e), after)),
                    Err(m) => Err(m),
                }
            } else {
                Err("expected `AND` or `->` after the anchor"@)
            };
            match condition {
                Err(m) => Err(m),
                Ok((c, after)) => match token_at(t, after) {
                    Some(extra) => Err("unexpected token `"@ + spec_token_debug(extra) + "`"@),
                    None => Ok(QueryView { anchor, condition: c }),
                },
            }
        },
    }
}

/// The tokens of `a -> b` parse to the anchor `a` with the one-pattern chain
/// below it, and the tokens of `a AND descendant b` to the anchor `a` with
/// the descendant relation, where `a` and `b` are node patterns.
pub proof fn arrow_and_descendant_parse(a: Seq<char>, b: Seq<char>, vars: Seq<(Seq<char>, Seq<char>)>)
    requires
        spec_parse_node_pattern(a, vars) is Ok,
        spec_parse_node_pattern(b, vars) is Ok,
    ensures
        spec_parse_tokens(seq![TokenView::Atom(a), TokenView::Arrow, TokenView::Atom(b)], vars) == Ok::<
            QueryView,
            Seq<char>,
        >(
            QueryView {
                anchor: spec_parse_node_pattern(a, vars)->Ok_0,
                condition: Some(ExpressionView::DescendantChain(seq![spec_parse_node_pattern(b, vars)->Ok_0])),
            },
        ),
        spec_parse_tokens(
            seq![
                TokenView::Atom(a),
                TokenView::And,
                TokenView::Relation(RelationToken::Descendant),
                TokenView::Atom(b),
            ],
            vars,
        ) == Ok::<QueryView, Seq<char>>(
            QueryView {
                anchor: spec_parse_node_pattern(a, vars)->Ok_0,
                condition: Some(
                    ExpressionView::Relation(Relationship::Descendant, spec_parse_node_pattern(b, vars)->Ok_0),
                ),
            },
        ),
{
    let pa = spec_parse_node_pattern(a, vars)->Ok_0;
    let pb = spec_parse_node_pattern(b, vars)->Ok_0;
    let t1 = seq![TokenView::Atom(a), TokenView::Arrow, TokenView::Atom(b)];
    assert(p_pattern(t1, 0, vars) == Ok::<(NodePatternView, int), Seq<char>>((pa, 1)));
    assert(p_pattern(t1, 2, vars) == Ok::<(NodePatternView, int), Seq<char>>((pb, 3)));
    let chain = ExpressionView::DescendantChain(seq![pb]);
    assert(p_chain(t1, seq![pb], 3, vars) == Ok::<(ExpressionView, int), Seq<char>>((chain, 3)));
    assert(p_primary(t1, 1, vars) == Ok::<(ExpressionView, int), Seq<char>>((chain, 3)));
    assert(p_and_rest(t1, chain, 3, vars) == Ok::<(ExpressionView, int), Seq<char>>((chain, 3)));
    assert(p_and(t1, 1, vars) == Ok::<(ExpressionView, int), Seq<char>>((chain, 3)));
    assert(p_or_rest(t1, chain, 3, vars) == Ok::<(ExpressionView, int), Seq<char>>((chain, 3)));
    assert(p_or(t1, 1, vars) == Ok::<(ExpressionView, int), Seq<char>>((chain, 3)));
    let t2 = seq![
        TokenView::Atom(a),
        TokenView::And,
        TokenView::Relation(RelationToken::Descendant),
        TokenView::Atom(b),
    ];
    let rel = ExpressionView::Relation(Relationship::Descendant, pb);
    assert(p_pattern(t2, 0, vars) == Ok::<(NodePatternView, int), Seq<char>>((pa, 1)));
    assert(p_pattern(t2, 3, vars) == Ok::<(NodePatternView, int), Seq<char>>((pb, 4)));
    assert(relationship_of(RelationToken::Descendant) == Relationship::Descendant);
    assert(p_primary(t2, 2, vars) == Ok::<(ExpressionView, int), Seq<char>>((rel, 4)));
    assert(p_and_rest(t2, rel, 4, vars) == Ok::<(ExpressionView, int), Seq<char>>((rel, 4)));
    assert(p_and(t2, 2, vars) == Ok::<(ExpressionView, int), Seq<char>>((rel, 4)));
    assert(p_or_rest(t2, rel, 4, vars) == Ok::<(ExpressionView, int), Seq<char>>((rel, 4)));
    assert(p_or(t2, 2, vars) == Ok::<(ExpressionView, int), Seq<char>>((rel, 4)));
}

/// The query that a query text spells, with its variables.
pub open spec fn spec_parse_query(query: Seq<char>, vars: Seq<(Seq<char>, Seq<char>)>) -> Result<
    QueryView,
    Seq<char>,
> {
    match spec_tokenize(query) {
        Err(m) => Err(m),
        Ok(t) => spec_parse_tokens(t, vars),
    }
}

fn same_token(a: &Token, b: &Token) -> (r: bool)
    ensures
        r == (a@ == b@),
{
    match a {
        Token::Atom(x) => match b {
            Token::Atom(y) => {
                let r = *x == *y;
                proof {
                    if r {
                        assert(a@ == TokenView::Atom(x@));
                    } else {
                        assert(x@ != y@);
                    }
                }
                r
            },
            _ => false,
        },
        Token::And => matches!(b, Token::And),
        Token::Or => matches!(b, Token::Or),
        Token::Not => matches!(b, Token::Not),
        Token::Arrow => matches!(b, Token::Arrow),
        Token::Relation(x) => match b {
            Token::Relation(y) => *x == *y,
            _ => false,
        },
        Token::LeftParen => matches!(b, Token::LeftParen),
        Token::RightParen => matches!(b, Token::RightParen),
    }
}

fn token_debug(t: &Token) -> (r: String)
    ensures
        r@ == spec_token_debug(t@),
{
    match t {
        Token::Atom(s) => {
            let mut m = "Atom(".to_owned();
            m.append(crate::text::debug_str(s.as_str()).as_str());
            m.append(")");
            m
        },
        Token::And => "And".to_owned(),
        Token::Or => "Or".to_owned(),
        Token::Not => "Not".to_owned(),
        Token::Arrow => "Arrow".to_owned(),
        Token::Relation(RelationToken::Child) => "Relation(Child)".to_owned(),
        Token::Relation(RelationToken::Descendant) => "Relation(Descendant)".to_owned(),
        Token::Relation(RelationToken::Ancestor) => "Relation(Ancestor)".to_owned(),
        Token::LeftParen => "LeftParen".to_owned(),
        Token::RightParen => "RightParen".to_owned(),
    }
}

fn relationship_from(value: RelationToken) -> (r: Relationship)
    ensures
        r == relationship_of(value),
{
    match value {
        RelationToken::Child => Relationship::Child,
        RelationToken::Descendant => Relationship::Descendant,
        RelationToken::Ancestor => Relationship::Ancestor,
    }
}

struct TokenParser<'a> {
    tokens: Vec<Token>,
    position: usize,
    variables: &'a QueryVariables,
}

impl<'a> TokenParser<'a> {
    spec fn t(&self) -> Seq<TokenView> {
        tokens_view(self.tokens@)
    }

    spec fn same_input(&self, other: &Self) -> bool {
        self.tokens@ == other.tokens@ && self.variables == other.variables
    }

    fn new(tokens: Vec<Token>, variables: &'a QueryVariables) -> (r: Self)
        ensures
            r.tokens@ == tokens@,
            r.position == 0,
            r.variables == variables,
    {
        TokenParser { tokens, position: 0, variables }
    }

    fn peek(&self) -> (r: Option<&Token>)
        ensures
            r matches Some(x) ==> token_at(self.t(), self.position as int) == Some(x@),
            r is None ==> token_at(self.t(), self.position as int) is None,
    {
        if self.position < self.tokens.len() {
            Some(&self.tokens[self.position])
        } else {
            None
        }
    }

    fn is_at_end(&self) -> (r: bool)
        ensures
            r == (self.position == self.tokens@.len()),
    {
        self.position == self.tokens.len()
    }

    /// Steps over the next token where it is `expected`.
    fn consume(&mut self, expected: &Token) -> (r: bool)
        requires
            old(self).position <= old(self).tokens@.len(),
        ensures
            final(self).same_input(old(self)),
            r == (token_at(old(self).t(), old(self).position as int) == Some(expected@)),
            final(self).position == if r {
                old(self).position + 1
            } else {
                old(self).position as int
            },
            final(self).position <= final(self).tokens@.len(),
    {
        if self.position < self.tokens.len() && same_token(&self.tokens[self.position], expected) {
            self.position = self.position + 1;
            true
        } else {
            false
        }
    }

    fn expect(&mut self, expected: &Token, message: &str) -> (r: Result<(), String>)
        requires
            old(self).position <= old(self).tokens@.len(),
        ensures
            final(self).same_input(old(self)),
            token_at(old(self).t(), old(self).position as int) == Some(expected@) ==> r is Ok
                && final(self).position == old(self).position + 1,
            token_at(old(self).t(), old(self).position as int) != Some(expected@) ==> (r matches Err(
                e) && e@ == message@),
            r is Ok <==> token_at(old(self).t(), old(self).position as int) == Some(expected@),
            final(self).position <= final(self).tokens@.len(),
    {
        if self.consume(expected) {
            Ok(())
        } else {
            Err(message.to_owned())
        }
    }

    fn parse_pattern(&mut self) -> (r: Result<NodePattern, String>)
        requires
            old(self).position <= old(self).tokens@.len(),
        ensures
            final(self).same_input(old(self)),
            final(self).position <= final(self).tokens@.len(),
            r matches Ok(p) ==> p_pattern(old(self).t(), old(self).position as int, old(self).variables@)
                == Ok::<(NodePatternView, int), Seq<char>>((p@, final(self).position as int)),
            r matches Err(e) ==> p_pattern(old(self).t(), old(self).position as int, old(self).variables@)
                == Err::<(NodePatternView, int), Seq<char>>(e@),
    {
        if self.position >= self.tokens.len() {
            return Err("expected a node pattern".to_owned());
        }
        let chars = match &self.tokens[self.position] {
            Token::Atom(pattern) => chars_of(pattern.as_str()),
            _ => {
                return Err("expected a node pattern".to_owned());
            },
        };
        self.position = self.position + 1;
        parse_node_pattern(&chars, self.variables)
    }

    #[verifier::rlimit(60)]
    fn parse_primary(&mut self) -> (r: Result<Expression, String>)
        requires
            old(self).position <= old(self).tokens@.len(),
        ensures
            final(self).same_input(old(self)),
            final(self).position <= final(self).tokens@.len(),
            r matches Ok(e) ==> p_primary(old(self).t(), old(self).position as int, old(self).variables@)
                == Ok::<(ExpressionView, int), Seq<char>>((e@, final(self).position as int)),
            r matches Ok(e) ==> old(self).position < final(self).position,
            r matches Err(m) ==> p_primary(old(self).t(), old(self).position as int, old(self).variables@)
                == Err::<(ExpressionView, int), Seq<char>>(m@),
        decreases old(self).tokens@.len() - old(self).position, 0nat,
    {
        let ghost t = self.t();
        let ghost pos = self.position as int;
        let ghost vars = self.variables@;
        let ghost tokens0 = self.tokens@;
        let ghost vref = self.variables;
        proof {
                }
        if self.consume(&Token::Not) {
            let e = self.parse_primary()?;
            return Ok(Expression::Not(Box::new(e)));
        }
        if self.consume(&Token::LeftParen) {
            let e = self.parse_or()?;
            self.expect(&Token::RightParen, "expected `)`")?;
            return Ok(e);
        }
        if self.consume(&Token::Arrow) {
            let first = self.parse_pattern()?;
            let mut patterns: Vec<NodePattern> = Vec::new();
            patterns.push(first);
            assert(patterns_view(patterns@) =~= seq![first@]);
            loop
                invariant
                    self.t() == t,
                    self.variables@ == vars,
                    self.tokens@ == tokens0,
                    self.variables == vref,
                    tokens0 == old(self).tokens@,
                    vref == old(self).variables,
                    t == old(self).t(),
                    pos == old(self).position,
                    vars == old(self).variables@,
                    pos < self.position <= self.tokens@.len(),
                    p_primary(t, pos, vars) == p_chain(
                        t,
                        patterns_view(patterns@),
                        self.position as int,
                        vars,
                    ),
                decreases self.tokens@.len() - self.position,
            {
                let ghost here = self.position as int;
                if !self.consume(&Token::Arrow) {
                    proof {
                        lemma_chain_stop(t, patterns_view(patterns@), here, vars);
                    }
                    return Ok(Expression::DescendantChain(patterns));
                }
                proof {
                    lemma_chain_step(t, patterns_view(patterns@), here, vars);
                }
                let p = self.parse_pattern()?;
                let ghost before = patterns@;
                patterns.push(p);
                assert(patterns_view(patterns@) =~= patterns_view(before).push(p@));
            }
        }
        let relationship = match self.peek() {
            Some(Token::Relation(relation)) => {
                let relation = *relation;
                assert(self.t().len() == self.tokens@.len());
                assert(self.position < self.tokens.len());
                self.position = self.position + 1;
                relationship_from(relation)
            },
            _ => Relationship::Descendant,
        };
        let wrapped = self.consume(&Token::LeftParen);
        let pattern = self.parse_pattern()?;
        if wrapped {
            self.expect(&Token::RightParen, "expected `)` after relationship pattern")?;
        }
        Ok(Expression::Relation(relationship, pattern))
    }

    #[verifier::rlimit(60)]
    fn parse_and(&mut self) -> (r: Result<Expression, String>)
        requires
            old(self).position <= old(self).tokens@.len(),
        ensures
            final(self).same_input(old(self)),
            final(self).position <= final(self).tokens@.len(),
            r matches Ok(e) ==> p_and(old(self).t(), old(self).position as int, old(self).variables@)
                == Ok::<(ExpressionView, int), Seq<char>>((e@, final(self).position as int)),
            r matches Ok(e) ==> old(self).position < final(self).position,
            r matches Err(m) ==> p_and(old(self).t(), old(self).position as int, old(self).variables@)
                == Err::<(ExpressionView, int), Seq<char>>(m@),
        decreases old(self).tokens@.len() - old(self).position, 2nat,
    {
        let ghost t = self.t();
        let ghost pos = self.position as int;
        let ghost vars = self.variables@;
        let ghost tokens0 = self.tokens@;
        let ghost vref = self.variables;
        proof {
            lemma_and_unfold(t, pos, vars);
        }
        let mut expression = self.parse_primary()?;
        loop
            invariant
                self.t() == t,
                self.variables@ == vars,
                self.tokens@ == tokens0,
                self.variables == vref,
                tokens0 == old(self).tokens@,
                vref == old(self).variables,
                t == old(self).t(),
                pos == old(self).position,
                vars == old(self).variables@,
                pos < self.position <= self.tokens@.len(),
                p_and(t, pos, vars) == p_and_rest(t, expression@, self.position as int, vars),
            decreases self.tokens@.len() - self.position,
        {
            let ghost here = self.position as int;
            if !self.consume(&Token::And) {
                proof {
                    lemma_and_rest_stop(t, expression@, here, vars);
                }
                return Ok(expression);
            }
            proof {
                lemma_and_rest_step(t, expression@, here, vars);
            }
            let right = self.parse_primary()?;
            expression = Expression::And(Box::new(expression), Box::new(right));
        }
    }

    #[verifier::rlimit(60)]
    fn parse_or(&mut self) -> (r: Result<Expression, String>)
        requires
            old(self).position <= old(self).tokens@.len(),
        ensures
            final(self).same_input(old(self)),
            final(self).position <= final(self).tokens@.len(),
            r matches Ok(e) ==> p_or(old(self).t(), old(self).position as int, old(self).variables@)
                == Ok::<(ExpressionView, int), Seq<char>>((e@, final(self).position as int)),
            r matches Ok(e) ==> old(self).position < final(self).position,
            r matches Err(m) ==> p_or(old(self).t(), old(self).position as int, old(self).variables@)
                == Err::<(ExpressionView, int), Seq<char>>(m@),
        decreases old(self).tokens@.len() - old(self).position, 4nat,
    {
        let ghost t = self.t();
        let ghost pos = self.position as int;
        let ghost vars = self.variables@;
        let ghost tokens0 = self.tokens@;
        let ghost vref = self.variables;
        proof {
            lemma_or_unfold(t, pos, vars);
        }
        let mut expression = self.parse_and()?;
        loop
            invariant
                self.t() == t,
                self.variables@ == vars,
                self.tokens@ == tokens0,
                self.variables == vref,
                tokens0 == old(self).tokens@,
                vref == old(self).variables,
                t == old(self).t(),
                pos == old(self).position,
                vars == old(self).variables@,
                pos < self.position <= self.tokens@.len(),
                p_or(t, pos, vars) == p_or_rest(t, expression@, self.position as int, vars),
            decreases self.tokens@.len() - self.position,
        {
            let ghost here = self.position as int;
            if !self.consume(&Token::Or) {
                proof {
                    lemma_or_rest_stop(t, expression@, here, vars);
                }
                return Ok(expression);
            }
            proof {
                lemma_or_rest_step(t, expression@, here, vars);
            }
            let right = self.parse_and()?;
            expression = Expression::Or(Box::new(expression), Box::new(right));
        }
    }

    fn parse(self) -> (r: Result<Query, String>)
        requires
            self.position == 0,
        ensures
            r matches Ok(q) ==> spec_parse_tokens(self.t(), self.variables@) == Ok::<
                QueryView,
                Seq<char>,
            >(q@),
            r matches Err(m) ==> spec_parse_tokens(self.t(), self.variables@) == Err::<
                QueryView,
                Seq<char>,
            >(m@),
    {
        let mut parser = self;
        let anchor = parser.parse_pattern()?;
        let condition = if parser.is_at_end() {
            None
        } else if matches!(parser.peek(), Some(Token::Arrow)) {
            Some(parser.parse_or()?)
        } else {
            parser.expect(&Token::And, "expected `AND` or `->` after the anchor")?;
            Some(parser.parse_or()?)
        };
        if let Some(token) = parser.peek() {
            let mut m = "unexpected token `".to_owned();
            m.append(token_debug(token).as_str());
            m.append("`");
            return Err(m);
        }
        Ok(Query { anchor, condition })
    }
}

/// Parses a query whose `$name` references take the given variables.
pub fn parse_query_with_variables(query: &str, variables: &QueryVariables) -> (r: Result<
    Query,
    String,
>)
    ensures
        r matches Ok(q) ==> spec_parse_query(query@, variables@) == Ok::<QueryView, Seq<char>>(q@),
        r matches Err(m) ==> spec_parse_query(query@, variables@) == Err::<QueryView, Seq<char>>(
            m@,
        ),
{
    let tokens = tokenize(query)?;
    TokenParser::new(tokens, variables).parse()
}

/// Parses a query without variables.
pub fn parse_query(query: &str) -> (r: Result<Query, String>)
    ensures
        r matches Ok(q) ==> spec_parse_query(query@, seq![]) == Ok::<QueryView, Seq<char>>(q@),
        r matches Err(m) ==> spec_parse_query(query@, seq![]) == Err::<QueryView, Seq<char>>(m@),
{
    let variables = QueryVariables::new();
    parse_query_with_variables(query, &variables)
}

} // verus!
