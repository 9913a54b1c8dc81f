//! Changes: replacement templates rendered with the captures of a finding,
//! and the edits that put them in place of the matched text.
use vstd::prelude::*;
use crate::query::parser::{is_variable_name_chars, spec_is_variable_name};
use crate::query::variables::{lookup, MatchCaptures, QueryVariables};
use crate::report::{findings_view, Finding, FindingView};
use crate::syntax::{spec_utf8_width, utf8_width};
use crate::text::{
    append_chars, chars_of, is_name_char, push_decimal, slice_to_vec_range, spec_decimal,
    spec_is_name_char, spec_trim, string_of, trim,
};

verus! {

/// Whether a change may be applied without `--allow-unsafe`.
#[derive(Clone, Copy, Debug, PartialEq, Eq, Structural)]
pub enum ChangeSafety {
    Safe,
    Unsafe,
}

impl Default for ChangeSafety {
    fn default() -> (r: Self)
        ensures
            r == ChangeSafety::Safe,
    {
        ChangeSafety::Safe
    }
}

/// A change that a rule or a search offers: its label, the replacement
/// template, and whether it is safe.
pub struct Change {
    pub label: String,
    pub replace: String,
    pub safety: ChangeSafety,
}

/// How many changes were applied, and how many unsafe ones were skipped.
#[derive(Clone, Copy, Debug, PartialEq, Eq, Structural)]
pub struct ChangeSummary {
    pub applied: usize,
    pub skipped_unsafe: usize,
}

impl Default for ChangeSummary {
    fn default() -> (r: Self)
        ensures
            r.applied == 0,
            r.skipped_unsafe == 0,
    {
        ChangeSummary { applied: 0, skipped_unsafe: 0 }
    }
}

/// The change to make at a finding, and the variables its template may use.
pub struct ChangeSpec<'a> {
    pub change: &'a Change,
    pub variables: &'a QueryVariables,
}

/// The length of the run of `_` and ASCII letters and digits that starts `s`.
pub open spec fn name_run(s: Seq<char>) -> nat
    decreases s.len(),
{
    if s.len() > 0 && spec_is_name_char(s[0]) {
        1 + name_run(s.subrange(1, s.len() as int))
    } else {
        0
    }
}

/// `prefix` put in front of a rendered text; an error stays as it is.
pub open spec fn prepend(prefix: Seq<char>, r: Result<Seq<char>, Seq<char>>) -> Result<Seq<char>, Seq<char>> {
    match r {
        Ok(s) => Ok(prefix + s),
        Err(e) => Err(e),
    }
}

pub open spec fn invalid_variable_message(name: Seq<char>) -> Seq<char> {
    "invalid replacement variable `$"@ + name + "`"@
}

pub open spec fn undefined_variable_message(name: Seq<char>) -> Seq<char> {
    "replacement variable `$"@ + name + "` is not defined"@
}

/// The value of variable `name`: a capture first, then a defined variable.
pub open spec fn variable_value(
    name: Seq<char>,
    variables: Seq<(Seq<char>, Seq<char>)>,
    captures: Seq<(Seq<char>, Seq<char>)>,
) -> Option<Seq<char>> {
    match lookup(captures, name) {
        Some(v) => Some(v),
        None => lookup(variables, name),
    }
}

/// The position of the first `}` in `s`.
pub open spec fn close_brace(s: Seq<char>) -> Option<int>
    decreases s.len(),
{
    if s.len() == 0 {
        None
    } else if s[0] == '}' {
        Some(0)
    } else {
        match close_brace(s.subrange(1, s.len() as int)) {
            Some(j) => Some(j + 1),
            None => None,
        }
    }
}

/// The variable reference at the start of `t` (which starts with a `$` that
/// is not doubled): `${name}` or `$name`, where `name` is the longest run of
/// `_` and ASCII letters and digits; the name and the text after it.
#[verifier::opaque]
pub open spec fn spec_reference(t: Seq<char>) -> Result<(Seq<char>, Seq<char>), Seq<char>> {
    if t[1] == '{' {
        match close_brace(t.subrange(2, t.len() as int)) {
            Some(j) => Ok((t.subrange(2, 2 + j), t.subrange(3 + j, t.len() as int))),
            None => Err("unterminated replacement variable"@),
        }
    } else {
        let j = name_run(t.subrange(1, t.len() as int)) as int;
        Ok((t.subrange(1, 1 + j), t.subrange(1 + j, t.len() as int)))
    }
}

/// A template rendered: `$$` is a `$`, `$name` and `${name}` are the value
/// of the variable, every other character is itself.
#[verifier::opaque]
pub open spec fn spec_render(
    t: Seq<char>,
    variables: Seq<(Seq<char>, Seq<char>)>,
    captures: Seq<(Seq<char>, Seq<char>)>,
) -> Result<Seq<char>, Seq<char>>
    decreases t.len(),
{
    if t.len() == 0 {
        Ok(seq![])
    } else if t[0] != '$' {
        prepend(seq![t[0]], spec_render(t.subrange(1, t.len() as int), variables, captures))
    } else if t.len() >= 2 && t[1] == '$' {
        prepend(seq!['$'], spec_render(t.subrange(2, t.len() as int), variables, captures))
    } else if t.len() == 1 {
        Err("replacement template ends with `$`"@)
    } else {
        match spec_reference(t) {
            Err(e) => Err(e),
            Ok((name, rest)) => if !spec_is_variable_name(name) {
                Err(invalid_variable_message(name))
            } else {
                match variable_value(name, variables, captures) {
                    None => Err(undefined_variable_message(name)),
                    Some(v) => if rest.len() < t.len() {
                        prepend(v, spec_render(rest, variables, captures))
                    } else {
                        Err(seq![])
                    },
                }
            },
        }
    }
}

proof fn lemma_render_unfold(
    t: Seq<char>,
    variables: Seq<(Seq<char>, Seq<char>)>,
    captures: Seq<(Seq<char>, Seq<char>)>,
)
    ensures
        spec_render(t, variables, captures) == (if t.len() == 0 {
            Ok(seq![])
        } else if t[0] != '$' {
            prepend(seq![t[0]], spec_render(t.subrange(1, t.len() as int), variables, captures))
        } else if t.len() >= 2 && t[1] == '$' {
            prepend(seq!['$'], spec_render(t.subrange(2, t.len() as int), variables, captures))
        } else if t.len() == 1 {
            Err("replacement template ends with `$`"@)
        } else {
            match spec_reference(t) {
                Err(e) => Err(e),
                Ok((name, rest)) => if !spec_is_variable_name(name) {
                    Err(invalid_variable_message(name))
                } else {
                    match variable_value(name, variables, captures) {
                        None => Err(undefined_variable_message(name)),
                        Some(v) => if rest.len() < t.len() {
                            prepend(v, spec_render(rest, variables, captures))
                        } else {
                            Err(seq![])
                        },
                    }
                },
            }
        }),
{
    reveal(spec_render);
}

/// A template without `$` renders as itself, whatever the variables and
/// captures.
pub proof fn plain_template_renders_unchanged(
    t: Seq<char>,
    variables: Seq<(Seq<char>, Seq<char>)>,
    captures: Seq<(Seq<char>, Seq<char>)>,
)
    requires
        forall|k: int| 0 <= k < t.len() ==> t[k] != '$',
    ensures
        spec_render(t, variables, captures) == Ok::<Seq<char>, Seq<char>>(t),
    decreases t.len(),
{
    lemma_render_unfold(t, variables, captures);
    if t.len() == 0 {
        assert(t =~= seq![]);
    } else {
        let rest = t.subrange(1, t.len() as int);
        assert(t[0] != '$');
        plain_template_renders_unchanged(rest, variables, captures);
        assert(seq![t[0]] + rest =~= t);
    }
}

/// A doubled `$` in front of a template renders as one `$` in front of what
/// the rest renders to, value or error alike.
pub proof fn doubled_dollar_renders_one(
    t: Seq<char>,
    variables: Seq<(Seq<char>, Seq<char>)>,
    captures: Seq<(Seq<char>, Seq<char>)>,
)
    ensures
        spec_render(seq!['$', '$'] + t, variables, captures) == prepend(
            seq!['$'],
            spec_render(t, variables, captures),
        ),
{
    let s = seq!['$', '$'] + t;
    lemma_render_unfold(s, variables, captures);
    assert(s.subrange(2, s.len() as int) =~= t);
}

/// Every `$` of `s` doubled: the template text that stands for `s` itself.
pub open spec fn escape_dollars(s: Seq<char>) -> Seq<char>
    decreases s.len(),
{
    if s.len() == 0 {
        seq![]
    } else if s[0] == '$' {
        seq!['$', '$'] + escape_dollars(s.subrange(1, s.len() as int))
    } else {
        seq![s[0]] + escape_dollars(s.subrange(1, s.len() as int))
    }
}

/// A text with every `$` written as `$$` renders back to the text itself,
/// whatever the variables and captures.
pub proof fn escaped_text_renders_back(
    s: Seq<char>,
    variables: Seq<(Seq<char>, Seq<char>)>,
    captures: Seq<(Seq<char>, Seq<char>)>,
)
    ensures
        spec_render(escape_dollars(s), variables, captures) == Ok::<Seq<char>, Seq<char>>(s),
    decreases s.len(),
{
    let rest = s.subrange(1, s.len() as int);
    if s.len() == 0 {
        lemma_render_unfold(escape_dollars(s), variables, captures);
        assert(s =~= seq![]);
    } else if s[0] == '$' {
        escaped_text_renders_back(rest, variables, captures);
        doubled_dollar_renders_one(escape_dollars(rest), variables, captures);
        assert(seq!['$'] + rest =~= s);
    } else {
        escaped_text_renders_back(rest, variables, captures);
        let t = escape_dollars(s);
        lemma_render_unfold(t, variables, captures);
        assert(t.subrange(1, t.len() as int) =~= escape_dollars(rest));
        assert(seq![s[0]] + rest =~= s);
    }
}

proof fn lemma_close_after_name(n: Seq<char>)
    requires
        forall|k: int| 0 <= k < n.len() ==> n[k] != '}',
    ensures
        close_brace(n + seq!['}']) == Some(n.len() as int),
    decreases n.len(),
{
    let t = n + seq!['}'];
    if n.len() > 0 {
        let r = n.subrange(1, n.len() as int);
        lemma_close_after_name(r);
        assert(t.subrange(1, t.len() as int) =~= r + seq!['}']);
    }
}

/// `${name}` renders as the capture of that name where there is one, else
/// as the variable of that name, else fails as undefined: captures take
/// precedence over variables.
pub proof fn captures_take_precedence(
    name: Seq<char>,
    variables: Seq<(Seq<char>, Seq<char>)>,
    captures: Seq<(Seq<char>, Seq<char>)>,
)
    requires
        spec_is_variable_name(name),
    ensures
        spec_render(seq!['$', '{'] + name + seq!['}'], variables, captures) == match lookup(captures, name) {
            Some(v) => Ok::<Seq<char>, Seq<char>>(v),
            None => match lookup(variables, name) {
                Some(v) => Ok::<Seq<char>, Seq<char>>(v),
                None => Err(undefined_variable_message(name)),
            },
        },
{
    let t = seq!['$', '{'] + name + seq!['}'];
    assert forall|k: int| 0 <= k < name.len() implies name[k] != '}' by {
        if k > 0 {
            assert(spec_is_name_char(name[k]));
        }
    }
    lemma_close_after_name(name);
    assert(t.subrange(2, t.len() as int) =~= name + seq!['}']);
    lemma_reference_braced_found(t, name.len() as int);
    assert(t.subrange(2, 2 + name.len() as int) =~= name);
    let rest = t.subrange(3 + name.len() as int, t.len() as int);
    assert(rest =~= Seq::<char>::empty());
    lemma_render_unfold(t, variables, captures);
    lemma_render_unfold(rest, variables, captures);
    match variable_value(name, variables, captures) {
        Some(v) => {
            assert(v + Seq::<char>::empty() =~= v);
        },
        None => {},
    }
}

pub proof fn lemma_name_run(s: Seq<char>)
    ensures
        name_run(s) <= s.len(),
        forall|k: int| 0 <= k < name_run(s) ==> spec_is_name_char(#[trigger] s[k]),
        name_run(s) < s.len() ==> !spec_is_name_char(s[name_run(s) as int]),
    decreases s.len(),
{
    if s.len() > 0 && spec_is_name_char(s[0]) {
        let r = s.subrange(1, s.len() as int);
        lemma_name_run(r);
        assert forall|k: int| 0 <= k < name_run(s) implies spec_is_name_char(#[trigger] s[k]) by {
            if k > 0 {
                assert(s[k] == r[k - 1]);
            }
        }
        if name_run(s) < s.len() {
            assert(s[name_run(s) as int] == r[name_run(r) as int]);
        }
    }
}

proof fn lemma_reference_braced_found(t: Seq<char>, j: int)
    requires
        t.len() >= 2,
        t[1] == '{',
        close_brace(t.subrange(2, t.len() as int)) == Some(j),
    ensures
        spec_reference(t) == Ok::<(Seq<char>, Seq<char>), Seq<char>>(
            (t.subrange(2, 2 + j), t.subrange(3 + j, t.len() as int)),
        ),
{
    reveal(spec_reference);
}

proof fn lemma_reference_braced_missing(t: Seq<char>)
    requires
        t.len() >= 2,
        t[1] == '{',
        close_brace(t.subrange(2, t.len() as int)) is None,
    ensures
        spec_reference(t) == Err::<(Seq<char>, Seq<char>), Seq<char>>("unterminated replacement variable"@),
{
    reveal(spec_reference);
}

proof fn lemma_reference_bare(t: Seq<char>)
    requires
        t.len() >= 2,
        t[1] != '{',
    ensures
        spec_reference(t) == Ok::<(Seq<char>, Seq<char>), Seq<char>>(
            (
                t.subrange(1, 1 + name_run(t.subrange(1, t.len() as int)) as int),
                t.subrange(1 + name_run(t.subrange(1, t.len() as int)) as int, t.len() as int),
            ),
        ),
{
    reveal(spec_reference);
}

fn read_braced(t: &Vec<char>, i: usize) -> (r: Result<(usize, usize, usize), String>)
    requires
        i + 1 < t@.len(),
        t@[i as int] == '$',
        t@[i + 1] == '{',
    ensures
        match r {
            Ok((a, b, c)) => a <= b <= t@.len() && i < c <= t@.len() && b <= c && spec_reference(
                t@.subrange(i as int, t@.len() as int),
            ) == Ok::<(Seq<char>, Seq<char>), Seq<char>>(
                (t@.subrange(a as int, b as int), t@.subrange(c as int, t@.len() as int)),
            ),
            Err(e) => spec_reference(t@.subrange(i as int, t@.len() as int)) == Err::<
                (Seq<char>, Seq<char>),
                Seq<char>,
            >(e@),
        },
{
    let n = t.len();
    let ghost rest = t@.subrange(i as int, n as int);
    let ghost inner = t@.subrange(i + 2, n as int);
    assert(rest[1] == t@[i + 1]);
    assert(rest.subrange(2, rest.len() as int) =~= inner);
    let mut j: usize = i + 2;
    while j < n && t[j] != '}'
        invariant
            i + 2 <= j <= n,
            n == t@.len(),
            inner == t@.subrange(i + 2, n as int),
            close_brace(inner) == match close_brace(t@.subrange(j as int, n as int)) {
                Some(k) => Some(k + (j - (i + 2))),
                None => None,
            },
        decreases n - j,
    {
        assert(t@.subrange(j as int, n as int).subrange(1, n - j) =~= t@.subrange(j + 1, n as int));
        j = j + 1;
    }
    if j >= n {
        proof {
            assert(t@.subrange(j as int, n as int).len() == 0);
            lemma_reference_braced_missing(rest);
            reveal_strlit("unterminated replacement variable");
        }
        return Err("unterminated replacement variable".to_owned());
    }
    proof {
        assert(t@.subrange(j as int, n as int)[0] == '}');
        let k = j - (i + 2);
        lemma_reference_braced_found(rest, k);
        assert(rest.subrange(2, 2 + k) =~= t@.subrange(i + 2, j as int));
        assert(rest.subrange(3 + k, rest.len() as int) =~= t@.subrange(j + 1, n as int));
    }
    Ok((i + 2, j, j + 1))
}

fn read_bare(t: &Vec<char>, i: usize) -> (r: (usize, usize, usize))
    requires
        i + 1 < t@.len(),
        t@[i as int] == '$',
        t@[i + 1] != '{',
    ensures
        ({
            let (a, b, c) = r;
            a <= b <= t@.len() && i < c <= t@.len() && b <= c && spec_reference(
                t@.subrange(i as int, t@.len() as int),
            ) == Ok::<(Seq<char>, Seq<char>), Seq<char>>(
                (t@.subrange(a as int, b as int), t@.subrange(c as int, t@.len() as int)),
            )
        }),
{
    let n = t.len();
    let ghost rest = t@.subrange(i as int, n as int);
    assert(rest[1] == t@[i + 1]);
    let mut j: usize = i + 1;
    while j < n && is_name_char(t[j])
        invariant
            i + 1 <= j <= n,
            n == t@.len(),
            forall|k: int| i + 1 <= k < j ==> spec_is_name_char(t@[k]),
        decreases n - j,
    {
        j = j + 1;
    }
    proof {
        lemma_reference_bare(rest);
        let after = rest.subrange(1, rest.len() as int);
        assert(after =~= t@.subrange(i + 1, n as int));
        lemma_name_run(after);
        let r = name_run(after) as int;
        if r < j - (i + 1) {
            assert(after[r] == t@[i + 1 + r]);
        }
        if r > j - (i + 1) {
            assert(after[j - (i + 1)] == t@[j as int]);
        }
        assert(r == j - (i + 1));
        assert(rest.subrange(1, 1 + r) =~= t@.subrange(i + 1, j as int));
        assert(rest.subrange(1 + r, rest.len() as int) =~= t@.subrange(j as int, n as int));
    }
    (i + 1, j, j)
}

/// Renders a replacement template with the captures of a match and the
/// defined variables; a capture wins over a variable of the same name.
pub fn render_template(template: &str, variables: &QueryVariables, captures: &MatchCaptures) -> (r: Result<
    String,
    String,
>)
    ensures
        match r {
            Ok(s) => spec_render(template@, variables@, captures@) == Ok::<Seq<char>, Seq<char>>(s@),
            Err(e) => spec_render(template@, variables@, captures@) == Err::<Seq<char>, Seq<char>>(e@),
        },
{
    let t = chars_of(template);
    let n = t.len();
    let mut out: Vec<char> = Vec::new();
    let mut i: usize = 0;
    assert(t@.subrange(0, t@.len() as int) =~= t@);
    assert(prepend(out@, spec_render(t@, variables@, captures@)) == spec_render(t@, variables@, captures@)) by {
        assert(out@ =~= Seq::<char>::empty());
        match spec_render(t@, variables@, captures@) {
            Ok(s) => {
                assert(out@ + s =~= s);
            },
            Err(e) => {},
        }
    }
    while i < n
        invariant
            n == t@.len(),
            t@ == template@,
            i <= n,
            prepend(out@, spec_render(t@.subrange(i as int, n as int), variables@, captures@))
                == spec_render(template@, variables@, captures@),
        decreases n - i,
    {
        let ghost rest = t@.subrange(i as int, n as int);
        let ghost before = out@;
        proof {
            lemma_render_unfold(rest, variables@, captures@);
        }
        let c = t[i];
        if c != '$' {
            out.push(c);
            proof {
                assert(rest[0] == c);
                assert(rest.subrange(1, rest.len() as int) =~= t@.subrange(i + 1, n as int));
                match spec_render(t@.subrange(i + 1, n as int), variables@, captures@) {
                    Ok(s) => {
                        assert(before + (seq![c] + s) =~= out@ + s);
                    },
                    Err(e) => {},
                }
            }
            i = i + 1;
        } else if i + 1 < n && t[i + 1] == '$' {
            out.push('$');
            proof {
                assert(rest[0] == '$' && rest[1] == '$');
                assert(rest.subrange(2, rest.len() as int) =~= t@.subrange(i + 2, n as int));
                match spec_render(t@.subrange(i + 2, n as int), variables@, captures@) {
                    Ok(s) => {
                        assert(before + (seq!['$'] + s) =~= out@ + s);
                    },
                    Err(e) => {},
                }
            }
            i = i + 2;
        } else if i + 1 >= n {
            proof {
                reveal_strlit("replacement template ends with `$`");
            }
            return Err("replacement template ends with `$`".to_owned());
        } else {
            let (name_start, name_end, resume) = if t[i + 1] == '{' {
                read_braced(&t, i)?
            } else {
                read_bare(&t, i)
            };
            proof {
                assert(t@.subrange(resume as int, n as int).len() < rest.len());
            }
            let name = slice_to_vec_range(&t, name_start, name_end);
            if !is_variable_name_chars(&name) {
                let mut message = chars_of("invalid replacement variable `$");
                append_chars(&mut message, &name);
                message.push('`');
                proof {
                    reveal_strlit("invalid replacement variable `$");
                    reveal_strlit("`");
                    assert(message@ =~= invalid_variable_message(name@));
                }
                return Err(string_of(&message));
            }
            let value = match captures.get(&name) {
                Some(v) => v,
                None => match variables.get(&name) {
                    Some(v) => v,
                    None => {
                        let mut message = chars_of("replacement variable `$");
                        append_chars(&mut message, &name);
                        append_chars(&mut message, &chars_of("` is not defined"));
                        proof {
                            reveal_strlit("replacement variable `$");
                            reveal_strlit("` is not defined");
                            assert(message@ =~= undefined_variable_message(name@));
                        }
                        return Err(string_of(&message));
                    },
                },
            };
            let v = chars_of(value.as_str());
            append_chars(&mut out, &v);
            proof {
                match spec_render(t@.subrange(resume as int, n as int), variables@, captures@) {
                    Ok(s) => {
                        assert(before + (v@ + s) =~= out@ + s);
                    },
                    Err(e) => {},
                }
            }
            i = resume;
        }
    }
    proof {
        assert(t@.subrange(n as int, n as int) =~= Seq::<char>::empty());
        lemma_render_unfold(t@.subrange(n as int, n as int), variables@, captures@);
        assert(out@ + Seq::<char>::empty() =~= out@);
    }
    Ok(string_of(&out))
}

pub open spec fn empty_label_message() -> Seq<char> {
    "change labels cannot be empty"@
}

/// A change needs a label that is not blank.
pub fn validate_change(change: &Change) -> (r: Result<(), String>)
    ensures
        r is Ok <==> spec_trim(change.label@).len() > 0,
        r matches Err(e) ==> e@ == empty_label_message(),
{
    let label = chars_of(change.label.as_str());
    if trim(&label).len() == 0 {
        proof {
            reveal_strlit("change labels cannot be empty");
        }
        return Err("change labels cannot be empty".to_owned());
    }
    Ok(())
}

/// A replacement of the bytes `start_byte..end_byte` of a file.
pub struct Edit {
    pub start_byte: usize,
    pub end_byte: usize,
    pub replacement: String,
}

pub struct EditView {
    pub start_byte: nat,
    pub end_byte: nat,
    pub replacement: Seq<char>,
}

impl View for Edit {
    type V = EditView;

    open spec fn view(&self) -> EditView {
        EditView {
            start_byte: self.start_byte as nat,
            end_byte: self.end_byte as nat,
            replacement: self.replacement@,
        }
    }
}

pub open spec fn edits_view(v: Seq<Edit>) -> Seq<EditView> {
    v.map_values(|e: Edit| e@)
}

/// The edits to make in one file.
pub struct FileEdits {
    pub path: String,
    pub edits: Vec<Edit>,
}

pub open spec fn file_edits_view(v: Seq<FileEdits>) -> Seq<(Seq<char>, Seq<EditView>)> {
    v.map_values(|f: FileEdits| (f.path@, edits_view(f.edits@)))
}

/// What a change spec holds, as plain values.
pub struct ChangeSpecView {
    pub label: Seq<char>,
    pub replace: Seq<char>,
    pub safety: ChangeSafety,
    pub variables: Seq<(Seq<char>, Seq<char>)>,
}

impl<'a> View for ChangeSpec<'a> {
    type V = ChangeSpecView;

    open spec fn view(&self) -> ChangeSpecView {
        ChangeSpecView {
            label: self.change.label@,
            replace: self.change.replace@,
            safety: self.change.safety,
            variables: self.variables@,
        }
    }
}

pub open spec fn spec_view_of(o: Option<ChangeSpec>) -> Option<ChangeSpecView> {
    match o {
        Some(c) => Some(c@),
        None => None,
    }
}

pub open spec fn specs_view(v: Seq<Option<ChangeSpec>>) -> Seq<Option<ChangeSpecView>> {
    v.map_values(|o: Option<ChangeSpec>| spec_view_of(o))
}

/// The plan from finding `i` on: how many unsafe changes are skipped, and the
/// edits to make, each with its file, in the order of the findings; or the
/// first error.
pub open spec fn spec_plan_from(
    findings: Seq<FindingView>,
    specs: Seq<Option<ChangeSpecView>>,
    allow_unsafe: bool,
    i: int,
) -> Result<(nat, Seq<(Seq<char>, EditView)>), Seq<char>>
    decreases findings.len() - i,
{
    if i < 0 || i >= findings.len() {
        Ok((0, seq![]))
    } else {
        let rest = spec_plan_from(findings, specs, allow_unsafe, i + 1);
        let spec = if i < specs.len() {
            specs[i]
        } else {
            None
        };
        match spec {
            None => rest,
            Some(c) => if spec_trim(c.label).len() == 0 {
                Err(empty_label_message())
            } else if c.safety == ChangeSafety::Unsafe && !allow_unsafe {
                match rest {
                    Ok((skipped, edits)) => Ok((skipped + 1, edits)),
                    Err(e) => Err(e),
                }
            } else {
                match spec_render(c.replace, c.variables, findings[i].captures) {
                    Err(e) => Err(e),
                    Ok(replacement) => match rest {
                        Ok((skipped, edits)) => Ok(
                            (
                                skipped,
                                seq![
                                    (
                                        findings[i].path,
                                        EditView {
                                            start_byte: findings[i].start_byte,
                                            end_byte: findings[i].end_byte,
                                            replacement,
                                        },
                                    ),
                                ] + edits,
                            ),
                        ),
                        Err(e) => Err(e),
                    },
                }
            },
        }
    }
}

/// The change spec for finding `j`, if it has one.
pub open spec fn spec_at(specs: Seq<Option<ChangeSpecView>>, j: int) -> Option<ChangeSpecView> {
    if 0 <= j < specs.len() {
        specs[j]
    } else {
        None
    }
}

/// Finding `j` has an unsafe change that is skipped.
pub open spec fn skips(specs: Seq<Option<ChangeSpecView>>, allow_unsafe: bool, j: int) -> bool {
    spec_at(specs, j) matches Some(c) && c.safety == ChangeSafety::Unsafe && !allow_unsafe
}

/// How many findings in `i..n` satisfy `p`.
pub open spec fn count_in(p: spec_fn(int) -> bool, i: int, n: int) -> nat
    decreases n - i,
{
    if i >= n {
        0
    } else {
        count_in(p, i + 1, n) + if p(i) {
            1nat
        } else {
            0nat
        }
    }
}

/// The error that finding `j`'s change meets on its own: an empty label
/// (checked before the unsafe skip), or its template failing to render.
pub open spec fn change_error(
    findings: Seq<FindingView>,
    specs: Seq<Option<ChangeSpecView>>,
    allow_unsafe: bool,
    j: int,
) -> Option<Seq<char>> {
    match spec_at(specs, j) {
        None => None,
        Some(c) => if spec_trim(c.label).len() == 0 {
            Some(empty_label_message())
        } else if skips(specs, allow_unsafe, j) {
            None
        } else {
            match spec_render(c.replace, c.variables, findings[j].captures) {
                Err(e) => Some(e),
                Ok(_) => None,
            }
        },
    }
}

/// The first error among the findings from `i` on, in finding order.
pub open spec fn first_change_error(
    findings: Seq<FindingView>,
    specs: Seq<Option<ChangeSpecView>>,
    allow_unsafe: bool,
    i: int,
) -> Option<Seq<char>>
    decreases findings.len() - i,
{
    if i < 0 || i >= findings.len() {
        None
    } else {
        match change_error(findings, specs, allow_unsafe, i) {
            Some(e) => Some(e),
            None => first_change_error(findings, specs, allow_unsafe, i + 1),
        }
    }
}

/// Planning the changes fails with the first error in finding order, and
/// only then; where it succeeds, it skips exactly the unsafe changes (when
/// they are not allowed) and makes one edit for every other finding with a
/// change.
pub proof fn plan_counts_and_first_error(
    findings: Seq<FindingView>,
    specs: Seq<Option<ChangeSpecView>>,
    allow_unsafe: bool,
    i: int,
)
    requires
        0 <= i <= findings.len(),
    ensures
        match spec_plan_from(findings, specs, allow_unsafe, i) {
            Err(e) => first_change_error(findings, specs, allow_unsafe, i) == Some(e),
            Ok((skipped, edits)) => {
                &&& first_change_error(findings, specs, allow_unsafe, i) is None
                &&& skipped == count_in(|j: int| skips(specs, allow_unsafe, j), i, findings.len() as int)
                &&& edits.len() == count_in(
                    |j: int| spec_at(specs, j) is Some && !skips(specs, allow_unsafe, j),
                    i,
                    findings.len() as int,
                )
            },
        },
    decreases findings.len() - i,
{
    if i < findings.len() {
        plan_counts_and_first_error(findings, specs, allow_unsafe, i + 1);
    }
}

/// The edits grouped by file, files in the order of their first edit.
pub open spec fn spec_group(flat: Seq<(Seq<char>, EditView)>) -> Seq<(Seq<char>, Seq<EditView>)>
    decreases flat.len(),
{
    if flat.len() == 0 {
        seq![]
    } else {
        let g = spec_group(flat.drop_last());
        let (path, edit) = flat.last();
        match crate::cache::lookup_key(g, path) {
            Some(edits) => crate::cache::insert_key(g, path, edits.push(edit)),
            None => g.push((path, seq![edit])),
        }
    }
}

/// The edits of `flat` for the file `path`, in order.
pub open spec fn edits_for(flat: Seq<(Seq<char>, EditView)>, path: Seq<char>) -> Seq<EditView>
    decreases flat.len(),
{
    if flat.len() == 0 {
        seq![]
    } else {
        let earlier = edits_for(flat.drop_last(), path);
        if flat.last().0 == path {
            earlier.push(flat.last().1)
        } else {
            earlier
        }
    }
}

proof fn lemma_lookup_push<V>(v: Seq<(Seq<char>, V)>, k: Seq<char>, x: V, q: Seq<char>)
    ensures
        crate::cache::lookup_key(v.push((k, x)), q) == match crate::cache::lookup_key(v, q) {
            Some(y) => Some(y),
            None => if q == k {
                Some(x)
            } else {
                None
            },
        },
    decreases v.len(),
{
    if v.len() > 0 {
        lemma_lookup_push(v.drop_first(), k, x, q);
        assert(v.push((k, x)).drop_first() =~= v.drop_first().push((k, x)));
        assert(v.push((k, x))[0] == v[0]);
    } else {
        let w = v.push((k, x));
        assert(w.drop_first() =~= Seq::<(Seq<char>, V)>::empty());
        assert(w[0] == (k, x));
        assert(crate::cache::lookup_key(w.drop_first(), q) is None);
        assert(crate::cache::lookup_key(v, q) is None);
    }
}

/// Grouping the edits by file loses none and invents none: each file's
/// group holds exactly that file's edits, in the order of the findings, and
/// a file without edits has no group.
pub proof fn groups_hold_each_files_edits(flat: Seq<(Seq<char>, EditView)>, path: Seq<char>)
    ensures
        crate::cache::lookup_key(spec_group(flat), path) == if edits_for(flat, path).len() == 0 {
            None
        } else {
            Some(edits_for(flat, path))
        },
    decreases flat.len(),
{
    if flat.len() > 0 {
        let front = flat.drop_last();
        groups_hold_each_files_edits(front, path);
        let g = spec_group(front);
        let (p, edit) = flat.last();
        groups_hold_each_files_edits(front, p);
        match crate::cache::lookup_key(g, p) {
            Some(edits) => {
                crate::cache::lemma_lookup_insert(g, p, edits.push(edit), path);
            },
            None => {
                lemma_lookup_push(g, p, seq![edit], path);
                if p == path {
                    assert(edits_for(front, path).len() == 0);
                    assert(edits_for(front, path).push(edit) =~= seq![edit]);
                }
            },
        }
    }
}

/// Adds `path`'s edit to the groups.
fn add_to_group(groups: &mut Vec<FileEdits>, path: String, edit: Edit)
    ensures
        file_edits_view(final(groups)@) == match crate::cache::lookup_key(file_edits_view(old(groups)@), path@) {
            Some(edits) => crate::cache::insert_key(file_edits_view(old(groups)@), path@, edits.push(edit@)),
            None => file_edits_view(old(groups)@).push((path@, seq![edit@])),
        },
{
    let ghost before = file_edits_view(groups@);
    let ghost ev = edit@;
    let key = chars_of(path.as_str());
    let mut i: usize = 0;
    while i < groups.len()
        invariant
            i <= groups@.len(),
            ev == edit@,
            before == file_edits_view(groups@),
            groups@ == old(groups)@,
            key@ == path@,
            forall|j: int| 0 <= j < i ==> groups@[j].path@ != path@,
        decreases groups@.len() - i,
    {
        if crate::text::chars_eq(&chars_of(groups[i].path.as_str()), &key) {
            proof {
                assert forall|j: int| 0 <= j < i implies before[j].0 != path@ by {
                    assert(before[j].0 == groups@[j].path@);
                }
                lemma_lookup_key_at(before, path@, i as int);
                lemma_insert_key_at(before, path@, before[i as int].1.push(edit@), i as int);
            }
            let ghost old_edits = groups@[i as int].edits@;
            assert(before[i as int].1 == edits_view(old_edits));
            assert(groups@[i as int].path@ == path@);
            let mut group = groups.remove(i);
            assert(group.path@ == path@);
            group.edits.push(edit);
            assert(edits_view(group.edits@) =~= edits_view(old_edits).push(edit@));
            groups.insert(i, group);
            assert(file_edits_view(groups@) =~= before.update(i as int, (path@, before[i as int].1.push(ev))));
            assert(file_edits_view(groups@) == crate::cache::insert_key(before, path@, before[i as int].1.push(ev)));
            assert(crate::cache::lookup_key(before, path@) == Some(before[i as int].1));
            assert(before == file_edits_view(old(groups)@));
            assert(ev == edit@);
            return;
        }
        i = i + 1;
    }
    proof {
        assert forall|j: int| 0 <= j < before.len() implies before[j].0 != path@ by {
            assert(before[j].0 == groups@[j].path@);
        }
        lemma_lookup_key_absent(before, path@);
    }
    let mut edits: Vec<Edit> = Vec::new();
    edits.push(edit);
    assert(edits_view(edits@) =~= seq![edit@]);
    groups.push(FileEdits { path, edits });
    assert(file_edits_view(groups@) =~= before.push((path@, seq![edit@])));
}

proof fn lemma_lookup_key_at<V>(v: Seq<(Seq<char>, V)>, k: Seq<char>, i: int)
    requires
        0 <= i < v.len(),
        v[i].0 == k,
        forall|j: int| 0 <= j < i ==> v[j].0 != k,
    ensures
        crate::cache::lookup_key(v, k) == Some(v[i].1),
    decreases i,
{
    if i > 0 {
        lemma_lookup_key_at(v.drop_first(), k, i - 1);
    }
}

proof fn lemma_lookup_key_absent<V>(v: Seq<(Seq<char>, V)>, k: Seq<char>)
    requires
        forall|j: int| 0 <= j < v.len() ==> v[j].0 != k,
    ensures
        crate::cache::lookup_key(v, k) is None,
    decreases v.len(),
{
    if v.len() > 0 {
        lemma_lookup_key_absent(v.drop_first(), k);
    }
}

proof fn lemma_insert_key_at<V>(v: Seq<(Seq<char>, V)>, k: Seq<char>, x: V, i: int)
    requires
        0 <= i < v.len(),
        v[i].0 == k,
        forall|j: int| 0 <= j < i ==> v[j].0 != k,
    ensures
        crate::cache::insert_key(v, k, x) == v.update(i, (k, x)),
    decreases i,
{
    if i > 0 {
        lemma_insert_key_at(v.drop_first(), k, x, i - 1);
        assert(crate::cache::insert_key(v, k, x) =~= v.update(i, (k, x)));
    }
}

pub open spec fn combine(
    skipped: nat,
    edits: Seq<(Seq<char>, EditView)>,
    rest: Result<(nat, Seq<(Seq<char>, EditView)>), Seq<char>>,
) -> Result<(nat, Seq<(Seq<char>, EditView)>), Seq<char>> {
    match rest {
        Ok((s, e)) => Ok((skipped + s, edits + e)),
        Err(e) => Err(e),
    }
}

/// Plans the changes that findings ask for: `specs[i]`, where present, is the
/// change for `findings[i]`. A change with a blank label is an error; an unsafe
/// change is skipped unless `allow_unsafe`; the others are rendered with the
/// finding's captures and become edits of its bytes, grouped by file. The
/// summary counts the edits and the skipped changes.
pub fn apply_changes(findings: &Vec<Finding>, allow_unsafe: bool, specs: &Vec<Option<ChangeSpec>>) -> (r: Result<
    (ChangeSummary, Vec<FileEdits>),
    String,
>)
    ensures
        match r {
            Ok((summary, groups)) => exists|flat: Seq<(Seq<char>, EditView)>|
                spec_plan_from(findings_view(findings@), specs_view(specs@), allow_unsafe, 0) == Ok::<
                    (nat, Seq<(Seq<char>, EditView)>),
                    Seq<char>,
                >((summary.skipped_unsafe as nat, flat)) && summary.applied == flat.len()
                    && file_edits_view(groups@) == spec_group(flat),
            Err(e) => spec_plan_from(findings_view(findings@), specs_view(specs@), allow_unsafe, 0)
                == Err::<(nat, Seq<(Seq<char>, EditView)>), Seq<char>>(e@),
        },
{
    let ghost fs = findings_view(findings@);
    let ghost ss = specs_view(specs@);
    let mut skipped: usize = 0;
    let mut applied: usize = 0;
    let mut groups: Vec<FileEdits> = Vec::new();
    let ghost mut flat: Seq<(Seq<char>, EditView)> = seq![];
    let mut i: usize = 0;
    proof {
        assert(file_edits_view(groups@) =~= Seq::<(Seq<char>, Seq<EditView>)>::empty());
        match spec_plan_from(fs, ss, allow_unsafe, 0) {
            Ok((s, e)) => {
                assert(flat + e =~= e);
            },
            Err(e) => {},
        }
    }
    while i < findings.len()
        invariant
            i <= findings@.len(),
            fs == findings_view(findings@),
            ss == specs_view(specs@),
            skipped <= i,
            applied == flat.len(),
            applied <= i,
            file_edits_view(groups@) == spec_group(flat),
            combine(skipped as nat, flat, spec_plan_from(fs, ss, allow_unsafe, i as int)) == spec_plan_from(
                fs,
                ss,
                allow_unsafe,
                0,
            ),
        decreases findings@.len() - i,
    {
        let finding = &findings[i];
        let ghost rest = spec_plan_from(fs, ss, allow_unsafe, i + 1);
        assert(fs[i as int] == finding@);
        let spec = if i < specs.len() {
            proof {
                assert(ss[i as int] == spec_view_of(specs@[i as int]));
            }
            &specs[i]
        } else {
            &None
        };
        match spec {
            None => {},
            Some(c) => {
                match validate_change(c.change) {
                    Err(e) => {
                        return Err(e);
                    },
                    Ok(()) => {},
                }
                if c.change.safety == ChangeSafety::Unsafe && !allow_unsafe {
                    skipped = skipped + 1;
                    proof {
                        match rest {
                            Ok((s, e)) => {
                                assert((skipped - 1) as nat + (s + 1) == skipped as nat + s);
                            },
                            Err(e) => {},
                        }
                    }
                } else {
                    let replacement = render_template(c.change.replace.as_str(), c.variables, &finding.captures)?;
                    let edit = Edit {
                        start_byte: finding.start_byte,
                        end_byte: finding.end_byte,
                        replacement,
                    };
                    let ghost entry = (finding.path@, edit@);
                    let ghost old_flat = flat;
                    proof {
                        flat = flat.push(entry);
                        assert(flat.drop_last() =~= old_flat);
                        assert(flat.last() == entry);
                        match rest {
                            Ok((s, e)) => {
                                assert(old_flat + (seq![entry] + e) =~= flat + e);
                            },
                            Err(e) => {},
                        }
                    }
                    add_to_group(&mut groups, finding.path.clone(), edit);
                    applied = applied + 1;
                }
            },
        }
        i = i + 1;
    }
    proof {
        match spec_plan_from(fs, ss, allow_unsafe, i as int) {
            Ok((s, e)) => {
                assert(e =~= Seq::<(Seq<char>, EditView)>::empty());
                assert(flat + e =~= flat);
            },
            Err(e) => {},
        }
    }
    Ok((ChangeSummary { applied, skipped_unsafe: skipped }, groups))
}

/// The index of the character of `s` at whose start byte `b` of its UTF-8
/// text lies, or the length at the end; nothing inside a character or past the end.
pub open spec fn char_of_byte(s: Seq<char>, b: int) -> Option<int>
    decreases s.len(),
{
    if b == 0 {
        Some(0)
    } else if b < 0 || s.len() == 0 {
        None
    } else {
        let w = spec_utf8_width(s[0]) as int;
        if b < w {
            None
        } else {
            match char_of_byte(s.subrange(1, s.len() as int), b - w) {
                Some(k) => Some(k + 1),
                None => None,
            }
        }
    }
}

pub proof fn lemma_char_of_byte_bounds(s: Seq<char>, b: int)
    ensures
        char_of_byte(s, b) matches Some(k) ==> 0 <= k <= s.len() && (k == 0 <==> b == 0),
    decreases s.len(),
{
    if b != 0 && b > 0 && s.len() > 0 {
        let w = spec_utf8_width(s[0]) as int;
        if b >= w {
            lemma_char_of_byte_bounds(s.subrange(1, s.len() as int), b - w);
        }
    }
}

/// Character positions follow byte positions in order.
pub proof fn lemma_char_of_byte_monotone(s: Seq<char>, x: int, y: int)
    requires
        x <= y,
        char_of_byte(s, x) is Some,
        char_of_byte(s, y) is Some,
    ensures
        char_of_byte(s, x)->0 <= char_of_byte(s, y)->0,
    decreases s.len(),
{
    lemma_char_of_byte_bounds(s, x);
    lemma_char_of_byte_bounds(s, y);
    if x != 0 {
        let w = spec_utf8_width(s[0]) as int;
        lemma_char_of_byte_monotone(s.subrange(1, s.len() as int), x - w, y - w);
    }
}

/// The character index at byte `b` of the UTF-8 text of `s`.
fn byte_to_char(s: &Vec<char>, b: usize) -> (r: Option<usize>)
    ensures
        match r {
            Some(k) => char_of_byte(s@, b as int) == Some(k as int),
            None => char_of_byte(s@, b as int) is None,
        },
{
    let mut k: usize = 0;
    let mut pos: usize = 0;
    assert(s@.subrange(0, s@.len() as int) =~= s@);
    while k < s.len()
        invariant
            k <= s@.len(),
            pos <= b,
            char_of_byte(s@, b as int) == match char_of_byte(s@.subrange(k as int, s@.len() as int), (b - pos) as int) {
                Some(j) => Some(j + k),
                None => None,
            },
        decreases s@.len() - k,
    {
        if pos == b {
            return Some(k);
        }
        let w = utf8_width(s[k]);
        let ghost rest = s@.subrange(k as int, s@.len() as int);
        assert(rest[0] == s@[k as int]);
        assert(rest.subrange(1, rest.len() as int) =~= s@.subrange(k + 1, s@.len() as int));
        if b - pos < w {
            return None;
        }
        pos = pos + w;
        k = k + 1;
    }
    if pos == b {
        Some(k)
    } else {
        None
    }
}

/// Where `e` goes among edits ordered by start: after every edit that does
/// not start later.
pub open spec fn insert_pos(v: Seq<EditView>, e: EditView) -> int
    decreases v.len(),
{
    if v.len() == 0 || v.last().start_byte <= e.start_byte {
        v.len() as int
    } else {
        insert_pos(v.drop_last(), e)
    }
}

/// Edits sorted by their start, stably (`slice::sort_by_key`).
pub open spec fn spec_sort_edits(v: Seq<EditView>) -> Seq<EditView>
    decreases v.len(),
{
    if v.len() == 0 {
        v
    } else {
        let sorted = spec_sort_edits(v.drop_last());
        sorted.insert(insert_pos(sorted, v.last()), v.last())
    }
}

proof fn lemma_insert_pos_bounds(v: Seq<EditView>, e: EditView)
    ensures
        0 <= insert_pos(v, e) <= v.len(),
    decreases v.len(),
{
    if v.len() > 0 && v.last().start_byte > e.start_byte {
        lemma_insert_pos_bounds(v.drop_last(), e);
    }
}

proof fn lemma_sort_len(v: Seq<EditView>)
    ensures
        spec_sort_edits(v).len() == v.len(),
    decreases v.len(),
{
    if v.len() > 0 {
        lemma_sort_len(v.drop_last());
        lemma_insert_pos_bounds(spec_sort_edits(v.drop_last()), v.last());
    }
}

fn sort_edits(edits: Vec<Edit>) -> (r: Vec<Edit>)
    ensures
        edits_view(r@) == spec_sort_edits(edits_view(edits@)),
{
    let ghost all = edits_view(edits@);
    let mut rest = edits;
    let mut out: Vec<Edit> = Vec::new();
    let mut taken: usize = 0;
    let total = rest.len();
    assert(all.subrange(0, 0) =~= Seq::<EditView>::empty());
    assert(edits_view(out@) =~= spec_sort_edits(all.subrange(0, 0)));
    assert(edits_view(rest@) =~= all.subrange(0, all.len() as int));
    while rest.len() > 0
        invariant
            taken <= all.len(),
            all.len() == total,
            edits_view(rest@) == all.subrange(taken as int, all.len() as int),
            edits_view(out@) == spec_sort_edits(all.subrange(0, taken as int)),
        decreases rest@.len(),
    {
        let ghost old_rest = rest@;
        let e = rest.remove(0);
        let ghost ev = e@;
        proof {
            let tail = all.subrange(taken as int, all.len() as int);
            assert(edits_view(old_rest) == tail);
            assert(edits_view(old_rest).len() == old_rest.len());
            assert(taken < all.len());
            assert(old_rest[0] == e);
            assert(tail[0] == ev);
            assert(rest@ =~= old_rest.subrange(1, old_rest.len() as int));
            assert forall|i: int| 0 <= i < rest@.len() implies #[trigger] edits_view(rest@)[i] == all[taken + 1 + i] by {
                assert(rest@[i] == old_rest[i + 1]);
                assert(edits_view(old_rest)[i + 1] == old_rest[i + 1]@);
                assert(tail[i + 1] == all[taken + 1 + i]);
            }
            assert(edits_view(rest@) =~= all.subrange(taken + 1, all.len() as int));
        }
        let ghost sorted = edits_view(out@);
        let mut p: usize = out.len();
        assert(sorted.subrange(0, p as int) =~= sorted);
        while p > 0 && out[p - 1].start_byte > e.start_byte
            invariant
                p <= out@.len(),
                sorted == edits_view(out@),
                ev == e@,
                insert_pos(sorted, ev) == insert_pos(sorted.subrange(0, p as int), ev),
            decreases p,
        {
            proof {
                let pre = sorted.subrange(0, p as int);
                assert(pre.last() == sorted[p - 1]);
                assert(pre.drop_last() =~= sorted.subrange(0, p - 1));
            }
            p = p - 1;
        }
        proof {
            let pre = sorted.subrange(0, p as int);
            if p > 0 {
                assert(pre.last() == sorted[p - 1]);
            }
            assert(insert_pos(pre, ev) == p);
        }
        out.insert(p, e);
        proof {
            let prefix = all.subrange(0, taken + 1);
            assert(prefix.drop_last() =~= all.subrange(0, taken as int));
            assert(prefix.last() == ev);
            assert(edits_view(out@) =~= sorted.insert(p as int, ev));
        }
        taken = taken + 1;
    }
    assert(all.subrange(0, all.len() as int) =~= all);
    out
}

/// The first `k` at which edit `k` ends after edit `k + 1` starts.
pub open spec fn first_overlap(v: Seq<EditView>, k: int) -> Option<int>
    decreases v.len() - k,
{
    if k < 0 || k + 1 >= v.len() {
        None
    } else if v[k].end_byte > v[k + 1].start_byte {
        Some(k)
    } else {
        first_overlap(v, k + 1)
    }
}

pub open spec fn overlap_message(path: Seq<char>, a: EditView, b: EditView) -> Seq<char> {
    path + " has overlapping changes at bytes "@ + spec_decimal(a.start_byte) + ".."@ + spec_decimal(
        a.end_byte,
    ) + " and "@ + spec_decimal(b.start_byte) + ".."@ + spec_decimal(b.end_byte)
}

/// Each edit's byte range lies within the text and starts and ends between
/// characters.
pub open spec fn edits_fit(source: Seq<char>, edits: Seq<EditView>) -> bool {
    forall|k: int|
        0 <= k < edits.len() ==> (#[trigger] edits[k]).start_byte <= edits[k].end_byte && char_of_byte(
            source,
            edits[k].start_byte as int,
        ) is Some && char_of_byte(source, edits[k].end_byte as int) is Some
}

/// The character range and the replacement of an edit.
pub open spec fn char_range(source: Seq<char>, e: EditView) -> (int, int, Seq<char>) {
    (
        char_of_byte(source, e.start_byte as int)->0,
        char_of_byte(source, e.end_byte as int)->0,
        e.replacement,
    )
}

/// `s` with the ranges replaced, the last one first (`String::replace_range`).
pub open spec fn spec_splice(s: Seq<char>, ranges: Seq<(int, int, Seq<char>)>) -> Seq<char>
    decreases ranges.len(),
{
    if ranges.len() == 0 {
        s
    } else {
        let (a, b, r) = ranges.last();
        spec_splice(s.subrange(0, a) + r + s.subrange(b, s.len() as int), ranges.drop_last())
    }
}

/// The text of a file after its edits, or the error for two that overlap.
pub open spec fn spec_apply_edits(path: Seq<char>, source: Seq<char>, edits: Seq<EditView>) -> Result<
    Seq<char>,
    Seq<char>,
> {
    let sorted = spec_sort_edits(edits);
    match first_overlap(sorted, 0) {
        Some(k) => Err(overlap_message(path, sorted[k], sorted[k + 1])),
        None => Ok(spec_splice(source, sorted.map_values(|e: EditView| char_range(source, e)))),
    }
}

/// Whether the edits fit the text, as `apply_file_edits` needs.
pub fn edits_fit_source(source: &str, edits: &Vec<Edit>) -> (r: bool)
    ensures
        r == edits_fit(source@, edits_view(edits@)),
{
    let chars = chars_of(source);
    let mut k: usize = 0;
    while k < edits.len()
        invariant
            k <= edits@.len(),
            chars@ == source@,
            forall|j: int|
                0 <= j < k ==> (#[trigger] edits_view(edits@)[j]).start_byte <= edits_view(edits@)[j].end_byte
                    && char_of_byte(source@, edits_view(edits@)[j].start_byte as int) is Some
                    && char_of_byte(source@, edits_view(edits@)[j].end_byte as int) is Some,
        decreases edits@.len() - k,
    {
        let e = &edits[k];
        assert(edits_view(edits@)[k as int] == e@);
        if e.start_byte > e.end_byte {
            return false;
        }
        if byte_to_char(&chars, e.start_byte).is_none() || byte_to_char(&chars, e.end_byte).is_none() {
            return false;
        }
        k = k + 1;
    }
    true
}

fn push_text(out: &mut Vec<char>, s: &str)
    ensures
        final(out)@ == old(out)@ + s@,
{
    append_chars(out, &chars_of(s));
}

/// Puts the edits in place in the text of the file at `path`: sorted by
/// start, refused where two overlap, applied from the last to the first.
pub fn apply_file_edits(path: &str, source: &str, edits: Vec<Edit>) -> (r: Result<String, String>)
    requires
        edits_fit(source@, edits_view(edits@)),
    ensures
        match r {
            Ok(s) => spec_apply_edits(path@, source@, edits_view(edits@)) == Ok::<Seq<char>, Seq<char>>(s@),
            Err(e) => spec_apply_edits(path@, source@, edits_view(edits@)) == Err::<Seq<char>, Seq<char>>(e@),
        },
{
    let ghost given = edits_view(edits@);
    let sorted = sort_edits(edits);
    let ghost sv = edits_view(sorted@);
    proof {
        lemma_sort_len(given);
        lemma_sort_permutes(given);
    }
    let n = sorted.len();
    let mut k: usize = 0;
    while k + 1 < n
        invariant
            n == sv.len(),
            sv == edits_view(sorted@),
            sv == spec_sort_edits(given),
            given == edits_view(edits@),
            k <= n,
            n > 0 ==> k < n,
            first_overlap(sv, 0) == first_overlap(sv, k as int),
        decreases n - k,
    {
        assert(sv[k as int] == sorted@[k as int]@);
        assert(sv[k + 1] == sorted@[k + 1]@);
        if sorted[k].end_byte > sorted[k + 1].start_byte {
            let mut message = chars_of(path);
            push_text(&mut message, " has overlapping changes at bytes ");
            push_decimal(&mut message, sorted[k].start_byte);
            push_text(&mut message, "..");
            push_decimal(&mut message, sorted[k].end_byte);
            push_text(&mut message, " and ");
            push_decimal(&mut message, sorted[k + 1].start_byte);
            push_text(&mut message, "..");
            push_decimal(&mut message, sorted[k + 1].end_byte);
            proof {
                assert(first_overlap(sv, k as int) == Some(k as int));
                assert(spec_sort_edits(given) == sv);
                reveal_strlit(" has overlapping changes at bytes ");
                reveal_strlit("..");
                reveal_strlit(" and ");
                assert(message@ =~= overlap_message(path@, sv[k as int], sv[k + 1]));
                assert(spec_apply_edits(path@, source@, given) == Err::<Seq<char>, Seq<char>>(message@));
            }
            return Err(string_of(&message));
        }
        k = k + 1;
    }
    let chars = chars_of(source);
    let ghost ranges = sv.map_values(|e: EditView| char_range(source@, e));
    // Every sorted edit fits, and the character ranges are ordered and disjoint.
    proof {
        assert(first_overlap(sv, k as int) is None);
        lemma_no_overlap(sv, 0);
        assert forall|j: int| 0 <= j < sv.len() implies #[trigger] sv[j].start_byte <= sv[j].end_byte
            && char_of_byte(source@, sv[j].start_byte as int) is Some && char_of_byte(
            source@,
            sv[j].end_byte as int,
        ) is Some by {
            let m = choose|m: int| 0 <= m < given.len() && given[m] == sv[j];
            assert(given[m] == given[m]);
        }
    }
    let mut starts: Vec<usize> = Vec::new();
    let mut ends: Vec<usize> = Vec::new();
    let mut j: usize = 0;
    while j < n
        invariant
            j <= n,
            n == sv.len(),
            sv == edits_view(sorted@),
            chars@ == source@,
            starts@.len() == j,
            ends@.len() == j,
            forall|m: int| 0 <= m < sv.len() ==> #[trigger] sv[m].start_byte <= sv[m].end_byte
                && char_of_byte(source@, sv[m].start_byte as int) is Some && char_of_byte(
                source@,
                sv[m].end_byte as int,
            ) is Some,
            forall|m: int|
                0 <= m < j ==> char_of_byte(source@, sv[m].start_byte as int) == Some(#[trigger] starts@[m] as int)
                    && char_of_byte(source@, sv[m].end_byte as int) == Some(ends@[m] as int),
        decreases n - j,
    {
        assert(sv[j as int] == sorted@[j as int]@);
        let a = match byte_to_char(&chars, sorted[j].start_byte) {
            Some(a) => a,
            None => 0,
        };
        let b = match byte_to_char(&chars, sorted[j].end_byte) {
            Some(b) => b,
            None => 0,
        };
        starts.push(a);
        ends.push(b);
        j = j + 1;
    }
    let mut cur = chars;
    let mut left: usize = n;
    proof {
        assert forall|m: int| 0 <= m < n implies #[trigger] ranges[m] == (starts@[m] as int, ends@[m] as int, sv[m].replacement) by {
            assert(char_of_byte(source@, sv[m].start_byte as int) == Some(starts@[m] as int));
            assert(char_of_byte(source@, sv[m].end_byte as int) == Some(ends@[m] as int));
        }
        assert(ranges.subrange(0, n as int) =~= ranges);
        assert forall|m: int| 0 <= m < n implies ends@[m] <= source@.len() && starts@[m] <= ends@[m] by {
            assert(sv[m].start_byte <= sv[m].end_byte);
            assert(char_of_byte(source@, sv[m].start_byte as int) == Some(starts@[m] as int));
            assert(char_of_byte(source@, sv[m].end_byte as int) == Some(ends@[m] as int));
            lemma_char_of_byte_bounds(source@, sv[m].end_byte as int);
            lemma_char_of_byte_monotone(source@, sv[m].start_byte as int, sv[m].end_byte as int);
        }
        assert forall|m: int| 0 <= m < n - 1 implies ends@[m] <= starts@[m + 1] by {
            assert(sv[m].end_byte <= sv[m + 1].start_byte);
            assert(char_of_byte(source@, sv[m + 1].start_byte as int) == Some(starts@[m + 1] as int));
            assert(char_of_byte(source@, sv[m].end_byte as int) == Some(ends@[m] as int));
            lemma_char_of_byte_monotone(source@, sv[m].end_byte as int, sv[m + 1].start_byte as int);
        }
        lemma_chain(starts@, ends@);
    }
    while left > 0
        invariant
            left <= n,
            n == sv.len(),
            starts@.len() == n,
            ends@.len() == n,
            ranges == sv.map_values(|e: EditView| char_range(source@, e)),
            forall|m: int| 0 <= m < n ==> #[trigger] ranges[m] == (starts@[m] as int, ends@[m] as int, sv[m].replacement),
            forall|m: int| 0 <= m < n ==> #[trigger] starts@[m] <= ends@[m],
            forall|m: int| 0 <= m < n - 1 ==> #[trigger] ends@[m] <= starts@[m + 1],
            forall|x: int, y: int| 0 <= x < y < n ==> #[trigger] ends@[x] <= #[trigger] starts@[y],
            forall|m: int| 0 <= m < left ==> #[trigger] ends@[m] <= cur@.len(),
            left < n ==> ends@[left as int] <= cur@.len() || true,
            spec_splice(cur@, ranges.subrange(0, left as int)) == spec_splice(source@, ranges),
            sv == edits_view(sorted@),
        decreases left,
    {
        let m = left - 1;
        let a = starts[m];
        let b = ends[m];
        assert(sv[m as int] == sorted@[m as int]@);
        let mut next = slice_to_vec_range(&cur, 0, a);
        let ghost before = cur@;
        append_chars(&mut next, &chars_of(sorted[m].replacement.as_str()));
        let tail = slice_to_vec_range(&cur, b, cur.len());
        append_chars(&mut next, &tail);
        proof {
            let rs = ranges.subrange(0, left as int);
            assert(rs.last() == ranges[m as int]);
            assert(rs.drop_last() =~= ranges.subrange(0, m as int));
            assert(next@ =~= before.subrange(0, a as int) + sv[m as int].replacement + before.subrange(
                b as int,
                before.len() as int,
            ));
            assert forall|x: int| 0 <= x < m implies #[trigger] ends@[x] <= next@.len() by {
                assert(ends@[x] <= starts@[m as int]);
            }
        }
        cur = next;
        left = m;
    }
    proof {
        assert(ranges.subrange(0, 0) =~= Seq::<(int, int, Seq<char>)>::empty());
    }
    Ok(string_of(&cur))
}

proof fn lemma_chain(starts: Seq<usize>, ends: Seq<usize>)
    requires
        starts.len() == ends.len(),
        forall|m: int| 0 <= m < starts.len() ==> #[trigger] starts[m] <= ends[m],
        forall|m: int| 0 <= m < starts.len() - 1 ==> #[trigger] ends[m] <= starts[m + 1],
    ensures
        forall|x: int, y: int| 0 <= x < y < starts.len() ==> #[trigger] ends[x] <= #[trigger] starts[y],
{
    assert forall|x: int, y: int| 0 <= x < y < starts.len() implies #[trigger] ends[x] <= #[trigger] starts[y] by {
        lemma_chain_from(starts, ends, x, y);
    }
}

proof fn lemma_chain_from(starts: Seq<usize>, ends: Seq<usize>, x: int, y: int)
    requires
        starts.len() == ends.len(),
        forall|m: int| 0 <= m < starts.len() ==> #[trigger] starts[m] <= ends[m],
        forall|m: int| 0 <= m < starts.len() - 1 ==> #[trigger] ends[m] <= starts[m + 1],
        0 <= x < y < starts.len(),
    ensures
        ends[x] <= starts[y],
    decreases y - x,
{
    if y > x + 1 {
        lemma_chain_from(starts, ends, x, y - 1);
        assert(starts[y - 1] <= ends[y - 1]);
        assert(ends[y - 1] <= starts[y]);
    } else {
        assert(ends[x] <= starts[x + 1]);
    }
}

/// Sorting keeps the edits: each sorted edit is one of the given ones.
proof fn lemma_sort_permutes(v: Seq<EditView>)
    ensures
        forall|j: int| 0 <= j < spec_sort_edits(v).len() ==> exists|m: int| 0 <= m < v.len() && v[m] == #[trigger] spec_sort_edits(v)[j],
    decreases v.len(),
{
    if v.len() > 0 {
        lemma_sort_permutes(v.drop_last());
        let sorted = spec_sort_edits(v.drop_last());
        let p = insert_pos(sorted, v.last());
        lemma_insert_pos_bounds(sorted, v.last());
        let w = spec_sort_edits(v);
        assert forall|j: int| 0 <= j < w.len() implies exists|m: int| 0 <= m < v.len() && v[m] == #[trigger] w[j] by {
            if j < p {
                assert(w[j] == sorted[j]);
                let m = choose|m: int| 0 <= m < v.drop_last().len() && v.drop_last()[m] == sorted[j];
                assert(v[m] == w[j]);
            } else if j == p {
                assert(v[v.len() - 1] == w[j]);
            } else {
                assert(w[j] == sorted[j - 1]);
                let m = choose|m: int| 0 <= m < v.drop_last().len() && v.drop_last()[m] == sorted[j - 1];
                assert(v[m] == w[j]);
            }
        }
    }
}

/// Without an overlap from `k` on, each edit from `k` on ends where the next starts, or before.
proof fn lemma_no_overlap(v: Seq<EditView>, k: int)
    requires
        0 <= k,
        first_overlap(v, k) is None,
    ensures
        forall|j: int| k <= j < v.len() - 1 ==> #[trigger] v[j].end_byte <= v[j + 1].start_byte,
    decreases v.len() - k,
{
    if k + 1 < v.len() {
        lemma_no_overlap(v, k + 1);
    }
}

} // verus!
