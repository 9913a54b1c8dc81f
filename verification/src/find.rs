//! The `find` operation: the nodes of a tree that a `kind:name` pattern matches,
//! and the lines that report them.
use vstd::prelude::*;
use crate::query_parser::{spec_value_match, value_match, FindPattern, FindPatternView, FieldPatternView};
use crate::syntax::{SyntaxTree, TreeView};
use crate::text::{
    append_chars, chars_of, first_line, push_decimal, spec_decimal, spec_first_line, string_of,
};

verus! {

/// Whether field `f` of node `i` exists, holds a node of the required kind,
/// and has a text that meets the field's predicate.
pub open spec fn field_matches(t: TreeView, i: int, f: FieldPatternView) -> bool {
    match t.field_child(i, f.field_name) {
        None => false,
        Some(c) => (match f.node_kind {
            Some(k) => t.is_kind(c, k),
            None => true,
        }) && spec_value_match(f.value, t.text(c)),
    }
}

/// Whether node `i` is of the pattern's kind and every field pattern holds.
pub open spec fn spec_matches_pattern(t: TreeView, i: int, p: FindPatternView) -> bool {
    t.is_kind(i, p.node_kind) && forall|k: int| 0 <= k < p.fields.len() ==> field_matches(t, i, #[trigger] p.fields[k])
}

pub fn matches_pattern(t: &SyntaxTree, i: usize, pattern: &FindPattern) -> (r: bool)
    requires
        t.wf(),
        i < t.nodes@.len(),
    ensures
        r == spec_matches_pattern(t@, i as int, pattern@),
{
    let ghost pv = pattern@;
    if !t.kind_is(i, &chars_of(pattern.node_kind.as_str())) {
        return false;
    }
    let mut k: usize = 0;
    while k < pattern.fields.len()
        invariant
            t.wf(),
            i < t.nodes@.len(),
            k <= pattern.fields@.len(),
            pv == pattern@,
            forall|m: int| 0 <= m < k ==> field_matches(t@, i as int, #[trigger] pv.fields[m]),
        decreases pattern.fields@.len() - k,
    {
        let field = &pattern.fields[k];
        assert(pv.fields[k as int] == field@);
        let c = match t.child_by_field_name(i, &chars_of(field.field_name.as_str())) {
            Some(c) => c,
            None => {
                return false;
            },
        };
        let kind_ok = match &field.node_kind {
            Some(kind) => t.kind_is(c, &chars_of(kind.as_str())),
            None => true,
        };
        if !kind_ok {
            return false;
        }
        let text = string_of(&t.node_text(c));
        if !value_match(&field.value, text.as_str()) {
            return false;
        }
        k = k + 1;
    }
    true
}

/// The texts of the nodes before `n` that the pattern matches, in the order
/// of the tree (every node, named or not).
pub open spec fn spec_matching_texts(t: TreeView, p: FindPatternView, n: int) -> Seq<Seq<char>>
    decreases n,
{
    if n <= 0 {
        seq![]
    } else {
        let earlier = spec_matching_texts(t, p, n - 1);
        if spec_matches_pattern(t, n - 1, p) {
            earlier.push(t.text(n - 1))
        } else {
            earlier
        }
    }
}

/// The texts of the nodes that the pattern matches, in the order of the tree.
pub fn matching_texts(t: &SyntaxTree, pattern: &FindPattern) -> (r: Vec<String>)
    requires
        t.wf(),
    ensures
        r@.map_values(|s: String| s@) == spec_matching_texts(t@, pattern@, t.len()),
{
    let mut out: Vec<String> = Vec::new();
    let mut i: usize = 0;
    assert(out@.map_values(|s: String| s@) =~= Seq::<Seq<char>>::empty());
    while i < t.nodes.len()
        invariant
            t.wf(),
            i <= t.nodes@.len(),
            out@.map_values(|s: String| s@) == spec_matching_texts(t@, pattern@, i as int),
        decreases t.nodes@.len() - i,
    {
        let ghost before = out@.map_values(|s: String| s@);
        if matches_pattern(t, i, pattern) {
            let text = string_of(&t.node_text(i));
            out.push(text);
            assert(out@.map_values(|s: String| s@) =~= before.push(t.text(i as int)));
        }
        i = i + 1;
    }
    out
}

/// `path:line:column: text` for node `i`: one-based line and column, and the
/// first line of the node's text.
pub open spec fn spec_find_line(path: Seq<char>, t: TreeView, i: int) -> Seq<char> {
    let n = t.node(i);
    path + seq![':'] + spec_decimal((n.row + 1) as nat) + seq![':'] + spec_decimal(
        (n.column + 1) as nat,
    ) + ": "@ + spec_first_line(t.text(i))
}

/// The report lines of the nodes before `n` that the pattern matches, in the
/// order of the tree.
pub open spec fn spec_matching_lines(path: Seq<char>, t: TreeView, p: FindPatternView, n: int) -> Seq<
    Seq<char>,
>
    decreases n,
{
    if n <= 0 {
        seq![]
    } else {
        let earlier = spec_matching_lines(path, t, p, n - 1);
        if spec_matches_pattern(t, n - 1, p) {
            earlier.push(spec_find_line(path, t, n - 1))
        } else {
            earlier
        }
    }
}

fn find_line(path: &str, t: &SyntaxTree, i: usize) -> (r: String)
    requires
        t.wf(),
        i < t.nodes@.len(),
    ensures
        r@ == spec_find_line(path@, t@, i as int),
{
    assert(t.node_ok(i as int));
    let n = &t.nodes[i];
    let mut out = chars_of(path);
    out.push(':');
    push_decimal(&mut out, n.row + 1);
    out.push(':');
    push_decimal(&mut out, n.column + 1);
    append_chars(&mut out, &chars_of(": "));
    let text = t.node_text(i);
    append_chars(&mut out, &first_line(&text));
    string_of(&out)
}

/// The lines that report the nodes the pattern matches in the file at
/// `path`, in the order of the tree.
pub fn matching_lines(path: &str, t: &SyntaxTree, pattern: &FindPattern) -> (r: Vec<String>)
    requires
        t.wf(),
    ensures
        r@.map_values(|s: String| s@) == spec_matching_lines(path@, t@, pattern@, t.len()),
{
    let mut out: Vec<String> = Vec::new();
    let mut i: usize = 0;
    assert(out@.map_values(|s: String| s@) =~= Seq::<Seq<char>>::empty());
    while i < t.nodes.len()
        invariant
            t.wf(),
            i <= t.nodes@.len(),
            out@.map_values(|s: String| s@) == spec_matching_lines(path@, t@, pattern@, i as int),
        decreases t.nodes@.len() - i,
    {
        let ghost before = out@.map_values(|s: String| s@);
        if matches_pattern(t, i, pattern) {
            let line = find_line(path, t, i);
            out.push(line);
            assert(out@.map_values(|s: String| s@) =~= before.push(spec_find_line(path@, t@, i as int)));
        }
        i = i + 1;
    }
    out
}

} // verus!
