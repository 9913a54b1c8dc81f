//! Which files a search covers: path patterns (globs) turned into regular
//! expressions, the filter that applies them to relative paths, and the
//! Python files that Git reports as changed.
use vstd::prelude::*;
use crate::regex_support::{
    compile_regex, escape_char, regex_compiles, regex_error, regex_is_match, regex_matches,
    spec_is_regex_meta, RegexPattern,
};
use crate::cache::{spec_strip_path_prefix, strip_path_prefix};
use crate::rules::strings_view;
use crate::syntax::{spec_utf8_width, utf8_width};
use crate::text::{
    append_chars, chars_eq, chars_of, ends_with, find_newline_from, find_sub, slice_to_vec_range, spec_ends_with,
    spec_find, spec_find_sub, string_of, strip_cr,
};

verus! {

/// The regex text for one character outside a glob's wildcards (`regex::escape`).
pub open spec fn escaped(c: char) -> Seq<char> {
    if spec_is_regex_meta(c) {
        seq!['\\', c]
    } else {
        seq![c]
    }
}

/// A glob's body as regex text: `**/` is any run of whole directories, `**`
/// any text, `*` any text within one path segment, `?` one character other
/// than `/`, and every other character itself.
pub open spec fn glob_body(g: Seq<char>) -> Seq<char>
    decreases g.len(),
{
    if g.len() == 0 {
        seq![]
    } else if g[0] == '*' && g.len() >= 2 && g[1] == '*' {
        if g.len() >= 3 && g[2] == '/' {
            "(?:.*/)?"@ + glob_body(g.subrange(3, g.len() as int))
        } else {
            ".*"@ + glob_body(g.subrange(2, g.len() as int))
        }
    } else if g[0] == '*' {
        "[^/]*"@ + glob_body(g.subrange(1, g.len() as int))
    } else if g[0] == '?' {
        "[^/]"@ + glob_body(g.subrange(1, g.len() as int))
    } else {
        escaped(g[0]) + glob_body(g.subrange(1, g.len() as int))
    }
}

/// A glob as a regex that matches whole paths.
pub open spec fn spec_glob_regex(g: Seq<char>) -> Seq<char> {
    seq!['^'] + glob_body(g) + seq!['$']
}

/// `(?:.*/)?`: nothing, or any text without a line break up to a `/`.
pub open spec fn dirs_token() -> Seq<char> {
    seq!['(', '?', ':', '.', '*', '/', ')', '?']
}

pub open spec fn no_char(s: Seq<char>, c: char) -> bool {
    forall|k: int| 0 <= k < s.len() ==> s[k] != c
}

/// What the regex text `r`, in the syntax that globs become, matches in the
/// whole of `s`, as the `regex` crate reads that syntax: `(?:.*/)?` is
/// nothing or a run without a line break that ends in `/`, `.*` a run
/// without a line break, `[^/]*` a run without `/`, `[^/]` one character
/// other than `/`, `.` one character other than a line break, a backslash
/// makes the next character literal, any other metacharacter stands
/// outside this syntax and matches nothing, and any other character is
/// itself.
pub open spec fn rx_match(r: Seq<char>, s: Seq<char>) -> bool
    decreases r.len(),
{
    if r.len() == 0 {
        s.len() == 0
    } else if r.len() >= 8 && r.subrange(0, 8) == dirs_token() {
        exists|k: int|
            0 <= k <= s.len() && (k == 0 || (s[k - 1] == '/' && no_char(s.subrange(0, k), '\n'))) && rx_match(
                r.subrange(8, r.len() as int),
                #[trigger] s.subrange(k, s.len() as int),
            )
    } else if r.len() >= 5 && r.subrange(0, 5) == seq!['[', '^', '/', ']', '*'] {
        exists|k: int|
            0 <= k <= s.len() && no_char(s.subrange(0, k), '/') && rx_match(
                r.subrange(5, r.len() as int),
                #[trigger] s.subrange(k, s.len() as int),
            )
    } else if r.len() >= 4 && r.subrange(0, 4) == seq!['[', '^', '/', ']'] {
        s.len() > 0 && s[0] != '/' && rx_match(r.subrange(4, r.len() as int), s.subrange(1, s.len() as int))
    } else if r.len() >= 2 && r[0] == '.' && r[1] == '*' {
        exists|k: int|
            0 <= k <= s.len() && no_char(s.subrange(0, k), '\n') && rx_match(
                r.subrange(2, r.len() as int),
                #[trigger] s.subrange(k, s.len() as int),
            )
    } else if r.len() >= 2 && r[0] == '\\' {
        s.len() > 0 && s[0] == r[1] && rx_match(r.subrange(2, r.len() as int), s.subrange(1, s.len() as int))
    } else if r[0] == '.' {
        s.len() > 0 && s[0] != '\n' && rx_match(r.subrange(1, r.len() as int), s.subrange(1, s.len() as int))
    } else if spec_is_regex_meta(r[0]) {
        false
    } else {
        s.len() > 0 && s[0] == r[0] && rx_match(r.subrange(1, r.len() as int), s.subrange(1, s.len() as int))
    }
}

/// A whole path matches an anchored regex `^...$`.
pub open spec fn rx_whole(r: Seq<char>, s: Seq<char>) -> bool {
    r.len() >= 2 && r[0] == '^' && r[r.len() - 1] == '$' && rx_match(r.subrange(1, r.len() - 1), s)
}

proof fn lemma_literal_prefix(pre: Seq<char>, x: Seq<char>, y: Seq<char>)
    requires
        forall|k: int| 0 <= k < pre.len() ==> pre[k] != '*' && pre[k] != '?',
        rx_match(glob_body(x), y),
    ensures
        rx_match(glob_body(pre + x), pre + y),
    decreases pre.len(),
{
    if pre.len() > 0 {
        let c = pre[0];
        let tail = pre.subrange(1, pre.len() as int);
        lemma_literal_prefix(tail, x, y);
        let g = pre + x;
        assert(g.subrange(1, g.len() as int) =~= tail + x);
        assert(g[0] == c);
        let rest = glob_body(tail + x);
        assert(glob_body(g) == escaped(c) + rest);
        let r = escaped(c) + rest;
        let s = pre + y;
        assert(s.subrange(1, s.len() as int) =~= tail + y);
        assert(s[0] == c);
        if spec_is_regex_meta(c) {
            assert(r[0] == '\\' && r[1] == c);
            assert(r.subrange(2, r.len() as int) =~= rest);
        } else {
            assert(r[0] == c);
            assert(r.subrange(1, r.len() as int) =~= rest);
            if r.len() >= 8 {
                assert(r.subrange(0, 8)[0] == c);
            }
            if r.len() >= 5 {
                assert(r.subrange(0, 5)[0] == c);
            }
            if r.len() >= 4 {
                assert(r.subrange(0, 4)[0] == c);
            }
        }
    }
}

/// A `**/` in a glob stands for any number of whole directories: where a
/// path `s` matches the glob `rest`, the path `pre` + `dirs` + `s` matches
/// the glob `pre**/rest` for every run of directories `dirs` (empty, or any
/// text without a line break that ends in `/`), `pre` being written without
/// wildcards.
pub proof fn double_star_spans_any_directories(pre: Seq<char>, rest: Seq<char>, dirs: Seq<char>, s: Seq<char>)
    requires
        forall|k: int| 0 <= k < pre.len() ==> pre[k] != '*' && pre[k] != '?',
        dirs.len() == 0 || (dirs[dirs.len() - 1] == '/' && no_char(dirs, '\n')),
        rx_match(glob_body(rest), s),
    ensures
        rx_whole(spec_glob_regex(pre + seq!['*', '*', '/'] + rest), pre + dirs + s),
{
    let g = seq!['*', '*', '/'] + rest;
    lemma_dirs_text();
    assert(g.subrange(3, g.len() as int) =~= rest);
    assert(glob_body(g) == "(?:.*/)?"@ + glob_body(rest));
    assert("(?:.*/)?"@ =~= dirs_token());
    let r = dirs_token() + glob_body(rest);
    let t = dirs + s;
    let k = dirs.len() as int;
    assert(r.subrange(0, 8) =~= dirs_token());
    assert(r.subrange(8, r.len() as int) =~= glob_body(rest));
    assert(t.subrange(k, t.len() as int) =~= s);
    if k > 0 {
        assert(t.subrange(0, k) =~= dirs);
        assert(t[k - 1] == dirs[k - 1]);
    }
    assert(rx_match(r, t));
    lemma_literal_prefix(pre, g, t);
    assert(pre + g =~= pre + seq!['*', '*', '/'] + rest);
    assert(pre + t =~= pre + dirs + s);
    let full = spec_glob_regex(pre + seq!['*', '*', '/'] + rest);
    assert(full.subrange(1, full.len() - 1) =~= glob_body(pre + seq!['*', '*', '/'] + rest));
}

/// How many times `c` occurs in `s`.
pub open spec fn count_char(s: Seq<char>, c: char) -> nat
    decreases s.len(),
{
    if s.len() == 0 {
        0
    } else {
        (if s[0] == c {
            1nat
        } else {
            0nat
        }) + count_char(s.subrange(1, s.len() as int), c)
    }
}

proof fn lemma_count_split(s: Seq<char>, k: int, c: char)
    requires
        0 <= k <= s.len(),
    ensures
        count_char(s, c) == count_char(s.subrange(0, k), c) + count_char(s.subrange(k, s.len() as int), c),
    decreases k,
{
    if k > 0 {
        let t = s.subrange(1, s.len() as int);
        lemma_count_split(t, k - 1, c);
        assert(t.subrange(k - 1, t.len() as int) =~= s.subrange(k, s.len() as int));
        let h = s.subrange(0, k);
        assert(h.subrange(1, h.len() as int) =~= t.subrange(0, k - 1));
        assert(h[0] == s[0]);
    } else {
        assert(s.subrange(0, 0).len() == 0);
        assert(s.subrange(0, s.len() as int) =~= s);
    }
}

proof fn lemma_count_none(s: Seq<char>, c: char)
    requires
        no_char(s, c),
    ensures
        count_char(s, c) == 0,
    decreases s.len(),
{
    if s.len() > 0 {
        let t = s.subrange(1, s.len() as int);
        assert(no_char(t, c)) by {
            assert forall|k: int| 0 <= k < t.len() implies t[k] != c by {
                assert(t[k] == s[k + 1]);
            }
        }
        lemma_count_none(t, c);
    }
}

/// The regex text for `**/` spelled out.
proof fn lemma_dirs_text()
    ensures
        "(?:.*/)?"@ == dirs_token(),
{
    reveal_strlit("(?:.*/)?")
}

/// A glob's regex text never starts with a bare `*`.
proof fn lemma_body_start(g: Seq<char>)
    ensures
        glob_body(g).len() > 0 ==> glob_body(g)[0] != '*',
{
    if g.len() > 0 {
        lemma_dirs_text();
        reveal_strlit(".*");
        reveal_strlit("[^/]*");
        reveal_strlit("[^/]");
    }
}

/// No two `*` stand next to each other in `g`.
pub open spec fn no_double_star(g: Seq<char>) -> bool {
    forall|k: int| 0 <= k < g.len() - 1 ==> !(g[k] == '*' && #[trigger] g[k + 1] == '*')
}

/// A glob without `**` keeps to its path segments: every path that it
/// matches has exactly as many `/` as the glob itself (`*` and `?` never
/// reach across a `/`).
pub proof fn single_star_keeps_to_segments(g: Seq<char>, s: Seq<char>)
    requires
        no_double_star(g),
        rx_match(glob_body(g), s),
    ensures
        count_char(s, '/') == count_char(g, '/'),
    decreases g.len(),
{
    reveal_strlit("[^/]*");
    reveal_strlit("[^/]");
    if g.len() > 0 {
        let tail = g.subrange(1, g.len() as int);
        assert(no_double_star(tail)) by {
            assert forall|k: int| 0 <= k < tail.len() - 1 implies !(tail[k] == '*' && #[trigger] tail[k + 1] == '*') by {
                assert(tail[k] == g[k + 1] && tail[k + 1] == g[k + 2]);
            }
        }
        let bt = glob_body(tail);
        lemma_body_start(tail);
        let st = s.subrange(1, s.len() as int);
        if g[0] == '*' {
            if g.len() >= 2 {
                assert(g[1] != '*') by {
                    assert(!(g[0] == '*' && g[0int + 1] == '*'));
                }
            }
            let r = seq!['[', '^', '/', ']', '*'] + bt;
            assert(glob_body(g) == r);
            assert(r.subrange(0, 5) =~= seq!['[', '^', '/', ']', '*']);
            assert(r.subrange(5, r.len() as int) =~= bt);
            if r.len() >= 8 {
                assert(r.subrange(0, 8)[0] == '[');
            }
            let k = choose|k: int|
                0 <= k <= s.len() && no_char(s.subrange(0, k), '/') && rx_match(bt, #[trigger] s.subrange(k, s.len() as int));
            single_star_keeps_to_segments(tail, s.subrange(k, s.len() as int));
            lemma_count_split(s, k, '/');
            lemma_count_none(s.subrange(0, k), '/');
        } else if g[0] == '?' {
            let r = seq!['[', '^', '/', ']'] + bt;
            assert(glob_body(g) == r);
            assert(r.subrange(0, 4) =~= seq!['[', '^', '/', ']']);
            assert(r.subrange(4, r.len() as int) =~= bt);
            if r.len() >= 8 {
                assert(r.subrange(0, 8)[0] == '[');
            }
            if r.len() >= 5 {
                assert(r.subrange(0, 5)[4] == r[4]);
                assert(r[4] == bt[0]);
            }
            single_star_keeps_to_segments(tail, st);
        } else {
            let c = g[0];
            let r = escaped(c) + bt;
            assert(glob_body(g) == r);
            if spec_is_regex_meta(c) {
                assert(r[0] == '\\' && r[1] == c);
                assert(r.subrange(2, r.len() as int) =~= bt);
            } else {
                assert(r[0] == c);
                assert(r.subrange(1, r.len() as int) =~= bt);
                if r.len() >= 8 {
                    assert(r.subrange(0, 8)[0] == c);
                }
                if r.len() >= 5 {
                    assert(r.subrange(0, 5)[0] == c);
                }
                if r.len() >= 4 {
                    assert(r.subrange(0, 4)[0] == c);
                }
            }
            single_star_keeps_to_segments(tail, st);
        }
    }
}

/// A glob without wildcards matches exactly the path that it spells.
pub proof fn plain_glob_matches_itself(g: Seq<char>, s: Seq<char>)
    requires
        forall|k: int| 0 <= k < g.len() ==> g[k] != '*' && g[k] != '?',
    ensures
        rx_whole(spec_glob_regex(g), s) <==> s == g,
{
    if rx_match(glob_body(g), s) {
        lemma_plain_glob(g, s);
    }
    assert(glob_body(Seq::<char>::empty()) == Seq::<char>::empty());
    lemma_literal_prefix(g, seq![], seq![]);
    assert(g + Seq::<char>::empty() =~= g);
    let full = spec_glob_regex(g);
    assert(full.subrange(1, full.len() - 1) =~= glob_body(g));
}

proof fn lemma_plain_glob(g: Seq<char>, s: Seq<char>)
    requires
        forall|k: int| 0 <= k < g.len() ==> g[k] != '*' && g[k] != '?',
        rx_match(glob_body(g), s),
    ensures
        s == g,
    decreases g.len(),
{
    if g.len() == 0 {
        assert(s =~= g);
    } else {
        let c = g[0];
        let tail = g.subrange(1, g.len() as int);
        let bt = glob_body(tail);
        let r = escaped(c) + bt;
        assert(glob_body(g) == r);
        let st = s.subrange(1, s.len() as int);
        if spec_is_regex_meta(c) {
            assert(r[0] == '\\' && r[1] == c);
            assert(r.subrange(2, r.len() as int) =~= bt);
        } else {
            assert(r[0] == c);
            assert(r.subrange(1, r.len() as int) =~= bt);
            if r.len() >= 8 {
                assert(r.subrange(0, 8)[0] == c);
            }
            if r.len() >= 5 {
                assert(r.subrange(0, 5)[0] == c);
            }
            if r.len() >= 4 {
                assert(r.subrange(0, 4)[0] == c);
            }
        }
        lemma_plain_glob(tail, st);
        assert(s =~= seq![c] + st);
        assert(g =~= seq![c] + tail);
    }
}

/// A single `*` stands for any text within one path segment: where `y`
/// matches the glob `rest`, `pre` + `seg` + `y` matches `pre*rest` for every
/// `seg` without `/` (`pre` written without wildcards, `rest` not starting
/// with another `*`).
pub proof fn star_spans_any_segment_text(pre: Seq<char>, rest: Seq<char>, seg: Seq<char>, y: Seq<char>)
    requires
        forall|k: int| 0 <= k < pre.len() ==> pre[k] != '*' && pre[k] != '?',
        rest.len() == 0 || rest[0] != '*',
        no_char(seg, '/'),
        rx_match(glob_body(rest), y),
    ensures
        rx_whole(spec_glob_regex(pre + seq!['*'] + rest), pre + seg + y),
{
    reveal_strlit("[^/]*");
    let g = seq!['*'] + rest;
    assert(g.subrange(1, g.len() as int) =~= rest);
    let r = seq!['[', '^', '/', ']', '*'] + glob_body(rest);
    assert(glob_body(g) == r);
    assert(r.subrange(0, 5) =~= seq!['[', '^', '/', ']', '*']);
    assert(r.subrange(5, r.len() as int) =~= glob_body(rest));
    if r.len() >= 8 {
        assert(r.subrange(0, 8)[0] == '[');
    }
    let t = seg + y;
    let k = seg.len() as int;
    assert(t.subrange(0, k) =~= seg);
    assert(t.subrange(k, t.len() as int) =~= y);
    assert(rx_match(r, t));
    lemma_literal_prefix(pre, g, t);
    assert(pre + g =~= pre + seq!['*'] + rest);
    assert(pre + t =~= pre + seg + y);
    let full = spec_glob_regex(pre + seq!['*'] + rest);
    assert(full.subrange(1, full.len() - 1) =~= glob_body(pre + seq!['*'] + rest));
}

/// A glob without `*` matches only paths of its own length: `?` stands for
/// exactly one character.
pub proof fn starless_glob_keeps_length(g: Seq<char>, s: Seq<char>)
    requires
        forall|k: int| 0 <= k < g.len() ==> g[k] != '*',
        rx_match(glob_body(g), s),
    ensures
        s.len() == g.len(),
    decreases g.len(),
{
    reveal_strlit("[^/]");
    if g.len() > 0 {
        let tail = g.subrange(1, g.len() as int);
        let bt = glob_body(tail);
        lemma_body_start(tail);
        let st = s.subrange(1, s.len() as int);
        if g[0] == '?' {
            let r = seq!['[', '^', '/', ']'] + bt;
            assert(glob_body(g) == r);
            assert(r.subrange(0, 4) =~= seq!['[', '^', '/', ']']);
            assert(r.subrange(4, r.len() as int) =~= bt);
            if r.len() >= 8 {
                assert(r.subrange(0, 8)[0] == '[');
            }
            if r.len() >= 5 {
                assert(r.subrange(0, 5)[4] == r[4]);
                assert(r[4] == bt[0]);
            }
        } else {
            let c = g[0];
            let r = escaped(c) + bt;
            assert(glob_body(g) == r);
            if spec_is_regex_meta(c) {
                assert(r[0] == '\\' && r[1] == c);
                assert(r.subrange(2, r.len() as int) =~= bt);
            } else {
                assert(r[0] == c);
                assert(r.subrange(1, r.len() as int) =~= bt);
                if r.len() >= 8 {
                    assert(r.subrange(0, 8)[0] == c);
                }
                if r.len() >= 5 {
                    assert(r.subrange(0, 5)[0] == c);
                }
                if r.len() >= 4 {
                    assert(r.subrange(0, 4)[0] == c);
                }
            }
        }
        starless_glob_keeps_length(tail, st);
    }
}

/// A `?` stands for any one character other than `/`: where `y` matches
/// the glob `rest`, `pre` + `c` + `y` matches `pre?rest` (`pre` written
/// without wildcards).
pub proof fn question_mark_matches_one_character(pre: Seq<char>, rest: Seq<char>, c: char, y: Seq<char>)
    requires
        forall|k: int| 0 <= k < pre.len() ==> pre[k] != '*' && pre[k] != '?',
        c != '/',
        rx_match(glob_body(rest), y),
    ensures
        rx_whole(spec_glob_regex(pre + seq!['?'] + rest), pre + seq![c] + y),
{
    reveal_strlit("[^/]");
    let g = seq!['?'] + rest;
    assert(g.subrange(1, g.len() as int) =~= rest);
    let bt = glob_body(rest);
    lemma_body_start(rest);
    let r = seq!['[', '^', '/', ']'] + bt;
    assert(glob_body(g) == r);
    assert(r.subrange(0, 4) =~= seq!['[', '^', '/', ']']);
    assert(r.subrange(4, r.len() as int) =~= bt);
    if r.len() >= 8 {
        assert(r.subrange(0, 8)[0] == '[');
    }
    if r.len() >= 5 {
        assert(r.subrange(0, 5)[4] == r[4]);
        assert(r[4] == bt[0]);
    }
    let t = seq![c] + y;
    assert(t.subrange(1, t.len() as int) =~= y);
    assert(rx_match(r, t));
    lemma_literal_prefix(pre, g, t);
    assert(pre + g =~= pre + seq!['?'] + rest);
    assert(pre + t =~= pre + seq![c] + y);
    let full = spec_glob_regex(pre + seq!['?'] + rest);
    assert(full.subrange(1, full.len() - 1) =~= glob_body(pre + seq!['?'] + rest));
}

/// A `**` that no `/` follows stands for any text without a line break,
/// across directories: where `y` matches the glob `rest`, `pre` + `x` + `y`
/// matches `pre**rest` (`pre` written without wildcards).
pub proof fn double_star_spans_any_text(pre: Seq<char>, rest: Seq<char>, x: Seq<char>, y: Seq<char>)
    requires
        forall|k: int| 0 <= k < pre.len() ==> pre[k] != '*' && pre[k] != '?',
        rest.len() == 0 || rest[0] != '/',
        no_char(x, '\n'),
        rx_match(glob_body(rest), y),
    ensures
        rx_whole(spec_glob_regex(pre + seq!['*', '*'] + rest), pre + x + y),
{
    reveal_strlit(".*");
    let g = seq!['*', '*'] + rest;
    assert(g.subrange(2, g.len() as int) =~= rest);
    if g.len() >= 3 {
        assert(g[2] == rest[0]);
    }
    let r = seq!['.', '*'] + glob_body(rest);
    assert(glob_body(g) == r);
    assert(r.subrange(2, r.len() as int) =~= glob_body(rest));
    if r.len() >= 8 {
        assert(r.subrange(0, 8)[0] == '.');
    }
    if r.len() >= 5 {
        assert(r.subrange(0, 5)[0] == '.');
    }
    if r.len() >= 4 {
        assert(r.subrange(0, 4)[0] == '.');
    }
    let t = x + y;
    let k = x.len() as int;
    assert(t.subrange(0, k) =~= x);
    assert(t.subrange(k, t.len() as int) =~= y);
    assert(rx_match(r, t));
    lemma_literal_prefix(pre, g, t);
    assert(pre + g =~= pre + seq!['*', '*'] + rest);
    assert(pre + t =~= pre + x + y);
    let full = spec_glob_regex(pre + seq!['*', '*'] + rest);
    assert(full.subrange(1, full.len() - 1) =~= glob_body(pre + seq!['*', '*'] + rest));
}

fn push_str(out: &mut Vec<char>, s: &str)
    ensures
        final(out)@ == old(out)@ + s@,
{
    append_chars(out, &chars_of(s));
}

/// The regex for a glob.
pub fn glob_regex(glob: &str) -> (r: String)
    ensures
        r@ == spec_glob_regex(glob@),
{
    let g = chars_of(glob);
    let n = g.len();
    let mut out: Vec<char> = Vec::new();
    out.push('^');
    let mut i: usize = 0;
    assert(g@.subrange(0, n as int) =~= g@);
    assert(out@ + glob_body(g@.subrange(0, n as int)) =~= seq!['^'] + glob_body(g@));
    while i < n
        invariant
            n == g@.len(),
            g@ == glob@,
            i <= n,
            out@ + glob_body(g@.subrange(i as int, n as int)) == seq!['^'] + glob_body(glob@),
        decreases n - i,
    {
        let ghost rest = g@.subrange(i as int, n as int);
        let ghost before = out@;
        let c = g[i];
        proof {
            reveal_strlit("(?:.*/)?");
            reveal_strlit(".*");
            reveal_strlit("[^/]*");
            reveal_strlit("[^/]");
            assert(rest[0] == c);
        }
        if c == '*' && i + 1 < n && g[i + 1] == '*' {
            if i + 2 < n && g[i + 2] == '/' {
                push_str(&mut out, "(?:.*/)?");
                proof {
                    assert(rest[1] == '*' && rest[2] == '/');
                    assert(rest.subrange(3, rest.len() as int) =~= g@.subrange(i + 3, n as int));
                    assert(out@ + glob_body(g@.subrange(i + 3, n as int)) =~= before + glob_body(rest));
                }
                i = i + 3;
            } else {
                push_str(&mut out, ".*");
                proof {
                    assert(rest[1] == '*');
                    assert(rest.subrange(2, rest.len() as int) =~= g@.subrange(i + 2, n as int));
                    assert(out@ + glob_body(g@.subrange(i + 2, n as int)) =~= before + glob_body(rest));
                }
                i = i + 2;
            }
        } else {
            if c == '*' {
                push_str(&mut out, "[^/]*");
            } else if c == '?' {
                push_str(&mut out, "[^/]");
            } else {
                let e = escape_char(c);
                push_str(&mut out, e.as_str());
            }
            proof {
                if c == '*' {
                    assert(!(rest.len() >= 2 && rest[1] == '*'));
                }
                assert(rest.subrange(1, rest.len() as int) =~= g@.subrange(i + 1, n as int));
                assert(out@ + glob_body(g@.subrange(i + 1, n as int)) =~= before + glob_body(rest));
            }
            i = i + 1;
        }
    }
    out.push('$');
    assert(g@.subrange(n as int, n as int) =~= Seq::<char>::empty());
    assert(out@ =~= spec_glob_regex(glob@));
    string_of(&out)
}

pub open spec fn pattern_message(pattern: Seq<char>) -> Seq<char> {
    "invalid path pattern `"@ + pattern + "`: "@ + regex_error(spec_glob_regex(pattern))
}

/// The first pattern from `k` on whose regex does not compile.
pub open spec fn first_bad_glob(patterns: Seq<Seq<char>>, k: int) -> Option<int>
    decreases patterns.len() - k,
{
    if k < 0 || k >= patterns.len() {
        None
    } else if !regex_compiles(spec_glob_regex(patterns[k])) {
        Some(k)
    } else {
        first_bad_glob(patterns, k + 1)
    }
}

pub open spec fn patterns_view(v: Seq<RegexPattern>) -> Seq<Seq<char>> {
    v.map_values(|p: RegexPattern| p@)
}

/// Compiles each glob; the error names the first that does not compile.
fn compile_globs(patterns: &Vec<String>) -> (r: Result<Vec<RegexPattern>, String>)
    ensures
        match r {
            Ok(v) => first_bad_glob(strings_view(patterns@), 0) is None && patterns_view(v@)
                == strings_view(patterns@).map_values(|p: Seq<char>| spec_glob_regex(p)),
            Err(e) => first_bad_glob(strings_view(patterns@), 0) matches Some(k) && e@ == pattern_message(
                strings_view(patterns@)[k],
            ),
        },
{
    let ghost pv = strings_view(patterns@);
    let mut out: Vec<RegexPattern> = Vec::new();
    let mut k: usize = 0;
    while k < patterns.len()
        invariant
            k <= pv.len(),
            pv == strings_view(patterns@),
            first_bad_glob(pv, 0) == first_bad_glob(pv, k as int),
            patterns_view(out@) == pv.subrange(0, k as int).map_values(|p: Seq<char>| spec_glob_regex(p)),
        decreases pv.len() - k,
    {
        assert(pv[k as int] == patterns@[k as int]@);
        let regex = glob_regex(patterns[k].as_str());
        match compile_regex(regex.as_str()) {
            Ok(p) => {
                let ghost before = patterns_view(out@);
                let ghost pview = p@;
                assert(pview == spec_glob_regex(pv[k as int]));
                out.push(p);
                assert(patterns_view(out@) =~= before.push(pview));
                assert(pv.subrange(0, k + 1).map_values(|p: Seq<char>| spec_glob_regex(p)) =~= pv.subrange(
                    0,
                    k as int,
                ).map_values(|p: Seq<char>| spec_glob_regex(p)).push(spec_glob_regex(pv[k as int])));
                assert(patterns_view(out@) =~= pv.subrange(0, k + 1).map_values(|p: Seq<char>| spec_glob_regex(p)));
            },
            Err(error) => {
                let mut message = chars_of("invalid path pattern `");
                push_str(&mut message, patterns[k].as_str());
                push_str(&mut message, "`: ");
                push_str(&mut message, error.as_str());
                proof {
                    reveal_strlit("invalid path pattern `");
                    reveal_strlit("`: ");
                    assert(message@ =~= pattern_message(pv[k as int]));
                }
                return Err(string_of(&message));
            },
        }
        k = k + 1;
    }
    assert(pv.subrange(0, pv.len() as int) =~= pv);
    Ok(out)
}

/// The patterns excluded from every search: version control, build output,
/// virtual environments and bytecode caches.
pub open spec fn default_excludes() -> Seq<Seq<char>> {
    seq!["**/.git/**"@, "**/target/**"@, "**/.venv/**"@, "**/venv/**"@, "**/__pycache__/**"@]
}

pub open spec fn opt_strings(o: Option<Vec<String>>) -> Option<Seq<Seq<char>>> {
    match o {
        Some(c) => Some(strings_view(c@)),
        None => None,
    }
}

/// The regexes of some globs.
pub open spec fn glob_regexes(globs: Seq<Seq<char>>) -> Seq<Seq<char>> {
    globs.map_values(|p: Seq<char>| spec_glob_regex(p))
}

/// The filter of include groups, excludes (after the default ones) and
/// changed paths.
pub open spec fn spec_filter(
    groups: Seq<Seq<Seq<char>>>,
    excludes: Seq<Seq<char>>,
    changed: Option<Seq<Seq<char>>>,
) -> FileFilterView {
    FileFilterView {
        includes: groups.map_values(|g: Seq<Seq<char>>| glob_regexes(g)),
        excludes: glob_regexes(default_excludes() + excludes),
        changed,
    }
}

pub open spec fn groups_view(groups: Seq<Vec<String>>) -> Seq<Seq<Seq<char>>> {
    groups.map_values(|g: Vec<String>| strings_view(g@))
}

/// The message for the first glob, from group `g` on, whose regex does not
/// compile.
pub open spec fn groups_problem(groups: Seq<Seq<Seq<char>>>, g: int) -> Option<Seq<char>>
    decreases groups.len() - g,
{
    if g < 0 || g >= groups.len() {
        None
    } else {
        match first_bad_glob(groups[g], 0) {
            Some(k) => Some(pattern_message(groups[g][k])),
            None => groups_problem(groups, g + 1),
        }
    }
}

/// Why a filter cannot be built: the first glob, in the include groups in
/// order and then in the default and given excludes, whose regex does not
/// compile.
pub open spec fn filter_problem(groups: Seq<Seq<Seq<char>>>, excludes: Seq<Seq<char>>) -> Option<Seq<char>> {
    match groups_problem(groups, 0) {
        Some(e) => Some(e),
        None => {
            let all = default_excludes() + excludes;
            match first_bad_glob(all, 0) {
                Some(k) => Some(pattern_message(all[k])),
                None => None,
            }
        },
    }
}

/// Which relative paths a search covers.
pub struct FileFilter {
    includes: Vec<Vec<RegexPattern>>,
    excludes: Vec<RegexPattern>,
    changed: Option<Vec<String>>,
}

pub struct FileFilterView {
    pub includes: Seq<Seq<Seq<char>>>,
    pub excludes: Seq<Seq<char>>,
    pub changed: Option<Seq<Seq<char>>>,
}

impl View for FileFilter {
    type V = FileFilterView;

    closed spec fn view(&self) -> FileFilterView {
        FileFilterView {
            includes: self.includes@.map_values(|g: Vec<RegexPattern>| patterns_view(g@)),
            excludes: patterns_view(self.excludes@),
            changed: match &self.changed {
                Some(c) => Some(strings_view(c@)),
                None => None,
            },
        }
    }
}

/// `s` with `/` in place of each `\`.
pub open spec fn normalized(s: Seq<char>) -> Seq<char> {
    s.map_values(|c: char| if c == '\\' { '/' } else { c })
}

/// A path written with `/` in place of each `\`.
pub fn normalize(path: &str) -> (r: String)
    ensures
        r@ == normalized(path@),
{
    let chars = chars_of(path);
    let mut out: Vec<char> = Vec::new();
    let mut i: usize = 0;
    while i < chars.len()
        invariant
            i <= chars@.len(),
            out@ == normalized(chars@.subrange(0, i as int)),
        decreases chars@.len() - i,
    {
        let c = chars[i];
        out.push(if c == '\\' { '/' } else { c });
        i = i + 1;
        assert(out@ =~= normalized(chars@.subrange(0, i as int)));
    }
    assert(chars@.subrange(0, chars@.len() as int) =~= chars@);
    string_of(&out)
}

pub open spec fn any_matches(patterns: Seq<Seq<char>>, path: Seq<char>) -> bool {
    exists|j: int| 0 <= j < patterns.len() && regex_is_match(#[trigger] patterns[j], path)
}

/// Whether a filter covers a relative path, written with `/`: every group of
/// include patterns is empty or has a pattern that matches it, no exclude
/// pattern matches it, and where only changed files count, it is one.
pub open spec fn spec_accepts(f: FileFilterView, path: Seq<char>) -> bool {
    &&& forall|g: int| 0 <= g < f.includes.len() ==> (#[trigger] f.includes[g]).len() == 0 || any_matches(f.includes[g], path)
    &&& !any_matches(f.excludes, path)
    &&& match f.changed {
        None => true,
        Some(c) => exists|j: int| 0 <= j < c.len() && normalized(#[trigger] c[j]) == path,
    }
}

fn any_pattern_matches(patterns: &Vec<RegexPattern>, path: &str) -> (r: bool)
    ensures
        r == any_matches(patterns_view(patterns@), path@),
{
    let ghost pv = patterns_view(patterns@);
    let mut j: usize = 0;
    while j < patterns.len()
        invariant
            j <= patterns@.len(),
            pv == patterns_view(patterns@),
            forall|m: int| 0 <= m < j ==> !regex_is_match(#[trigger] pv[m], path@),
        decreases patterns@.len() - j,
    {
        assert(pv[j as int] == patterns@[j as int]@);
        if regex_matches(&patterns[j], path) {
            return true;
        }
        j = j + 1;
    }
    false
}

impl FileFilter {
    /// A filter from groups of include globs, exclude globs (after the
    /// default ones), and, where only changed files count, their paths.
    pub fn new(include_groups: &Vec<Vec<String>>, excludes: &Vec<String>, changed: Option<Vec<String>>) -> (r:
        Result<Self, String>)
        ensures
            r matches Ok(f) ==> f@ == spec_filter(
                groups_view(include_groups@),
                strings_view(excludes@),
                opt_strings(changed),
            ),
            r is Ok <==> filter_problem(groups_view(include_groups@), strings_view(excludes@)) is None,
            r matches Err(e) ==> filter_problem(groups_view(include_groups@), strings_view(excludes@))
                == Some(e@),
    {
        let ghost gv = groups_view(include_groups@);
        let mut includes: Vec<Vec<RegexPattern>> = Vec::new();
        let mut g: usize = 0;
        while g < include_groups.len()
            invariant
                g <= include_groups@.len(),
                includes@.len() == g,
                forall|m: int|
                    0 <= m < g ==> patterns_view(#[trigger] includes@[m]@) == strings_view(include_groups@[m]@).map_values(
                        |p: Seq<char>| spec_glob_regex(p),
                    ),
                gv == groups_view(include_groups@),
                groups_problem(gv, 0) == groups_problem(gv, g as int),
            decreases include_groups@.len() - g,
        {
            assert(gv[g as int] == strings_view(include_groups@[g as int]@));
            let group = match compile_globs(&include_groups[g]) {
                Ok(group) => group,
                Err(e) => {
                    return Err(e);
                },
            };
            includes.push(group);
            g = g + 1;
        }
        assert(groups_problem(gv, 0) is None);
        let mut all_excludes: Vec<String> = Vec::new();
        all_excludes.push("**/.git/**".to_owned());
        all_excludes.push("**/target/**".to_owned());
        all_excludes.push("**/.venv/**".to_owned());
        all_excludes.push("**/venv/**".to_owned());
        all_excludes.push("**/__pycache__/**".to_owned());
        let ghost defaults = strings_view(all_excludes@);
        proof {
            reveal_strlit("**/.git/**");
            reveal_strlit("**/target/**");
            reveal_strlit("**/.venv/**");
            reveal_strlit("**/venv/**");
            reveal_strlit("**/__pycache__/**");
            assert(defaults =~= default_excludes());
        }
        let mut k: usize = 0;
        while k < excludes.len()
            invariant
                k <= excludes@.len(),
                strings_view(all_excludes@) == default_excludes() + strings_view(excludes@).subrange(0, k as int),
            decreases excludes@.len() - k,
        {
            let ghost before = strings_view(all_excludes@);
            let x = excludes[k].clone();
            assert(x@ == excludes@[k as int]@);
            all_excludes.push(x);
            assert(strings_view(all_excludes@) =~= before.push(strings_view(excludes@)[k as int]));
            assert(strings_view(all_excludes@) =~= default_excludes() + strings_view(excludes@).subrange(0, k + 1));
            k = k + 1;
        }
        assert(strings_view(excludes@).subrange(0, excludes@.len() as int) =~= strings_view(excludes@));
        let compiled_excludes = match compile_globs(&all_excludes) {
            Ok(c) => c,
            Err(e) => {
                return Err(e);
            },
        };
        let f = FileFilter { includes, excludes: compiled_excludes, changed };
        proof {
            let want = spec_filter(gv, strings_view(excludes@), opt_strings(changed));
            assert forall|m: int| 0 <= m < include_groups@.len() implies #[trigger] f@.includes[m]
                == want.includes[m] by {
                assert(f@.includes[m] == patterns_view(f.includes@[m]@));
                assert(gv[m] == strings_view(include_groups@[m]@));
            }
            assert(f@.includes =~= want.includes);
            assert(f@.excludes =~= want.excludes);
        }
        Ok(f)
    }

    /// Whether the filter covers a relative path.
    pub fn accepts(&self, relative_path: &str) -> (r: bool)
        ensures
            r == spec_accepts(self@, normalized(relative_path@)),
    {
        let path = normalize(relative_path);
        let ghost pv = normalized(relative_path@);
        let ghost iv = self.includes@.map_values(|g: Vec<RegexPattern>| patterns_view(g@));
        let mut included = true;
        let mut g: usize = 0;
        while g < self.includes.len()
            invariant
                g <= self.includes@.len(),
                path@ == pv,
                iv == self.includes@.map_values(|g: Vec<RegexPattern>| patterns_view(g@)),
                included == forall|m: int| 0 <= m < g ==> (#[trigger] iv[m]).len() == 0 || any_matches(iv[m], pv),
            decreases self.includes@.len() - g,
        {
            assert(iv[g as int] == patterns_view(self.includes@[g as int]@));
            let group = &self.includes[g];
            let ok = group.len() == 0 || any_pattern_matches(group, path.as_str());
            proof {
                if !ok {
                    assert(!((iv[g as int]).len() == 0 || any_matches(iv[g as int], pv)));
                }
            }
            included = included && ok;
            g = g + 1;
        }
        let excluded = any_pattern_matches(&self.excludes, path.as_str());
        let in_changed = match &self.changed {
            None => true,
            Some(changed) => {
                let ghost cv = strings_view(changed@);
                let mut found = false;
                let mut j: usize = 0;
                let target = chars_of(path.as_str());
                while j < changed.len()
                    invariant
                        j <= changed@.len(),
                        cv == strings_view(changed@),
                        target@ == pv,
                        found == exists|m: int| 0 <= m < j && normalized(#[trigger] cv[m]) == pv,
                    decreases changed@.len() - j,
                {
                    assert(cv[j as int] == changed@[j as int]@);
                    let candidate = normalize(changed[j].as_str());
                    let hit = chars_eq(&chars_of(candidate.as_str()), &target);
                    proof {
                        if exists|m: int| 0 <= m < j + 1 && normalized(#[trigger] cv[m]) == pv {
                            let m = choose|m: int| 0 <= m < j + 1 && normalized(#[trigger] cv[m]) == pv;
                            if m == j {
                                assert(hit);
                            }
                        }
                    }
                    found = found || hit;
                    j = j + 1;
                }
                found
            },
        };
        proof {
            assert(self@.includes == iv);
            assert(self@.excludes == patterns_view(self.excludes@));
        }
        included && !excluded && in_changed
    }

    /// Whether an exclude pattern matches a directory's relative path, which
    /// is then not searched.
    pub fn excludes_directory(&self, relative_path: &str) -> (r: bool)
        ensures
            r == any_matches(self@.excludes, normalized(relative_path@) + seq!['/']),
    {
        let normal = normalize(relative_path);
        let mut path = chars_of(normal.as_str());
        path.push('/');
        let text = string_of(&path);
        assert(text@ == normalized(relative_path@) + seq!['/']);
        assert(self@.excludes == patterns_view(self.excludes@));
        any_pattern_matches(&self.excludes, text.as_str())
    }
}

/// The lines of `s` as `str::lines` yields them: each ends at `\n` (a `\r`
/// before it dropped); the text after the last `\n` is a line where it is
/// not empty.
#[verifier::opaque]
pub open spec fn spec_lines(s: Seq<char>) -> Seq<Seq<char>>
    decreases s.len(),
{
    if s.len() == 0 {
        seq![]
    } else {
        match spec_find(s, '\n') {
            Some(i) => if 0 <= i < s.len() {
                seq![strip_cr(s.subrange(0, i))] + spec_lines(s.subrange(i + 1, s.len() as int))
            } else {
                seq![]
            },
            None => seq![s],
        }
    }
}

/// `s` without its first `b` bytes of UTF-8, where they end at a character
/// (`str::get(b..)`).
pub open spec fn skip_bytes(s: Seq<char>, b: int) -> Option<Seq<char>>
    decreases s.len(),
{
    if b == 0 {
        Some(s)
    } else if s.len() == 0 || b < spec_utf8_width(s[0]) {
        None
    } else {
        skip_bytes(s.drop_first(), b - spec_utf8_width(s[0]))
    }
}

pub open spec fn arrow() -> Seq<char> {
    seq![' ', '-', '>', ' ']
}

/// The last piece of `s` split at ` -> `, the pieces found from the left.
#[verifier::opaque]
pub open spec fn after_arrows(s: Seq<char>) -> Seq<char>
    decreases s.len(),
{
    match spec_find_sub(s, arrow()) {
        Some(i) => if 0 <= i && i + 4 <= s.len() {
            after_arrows(s.subrange(i + 4, s.len() as int))
        } else {
            s
        },
        None => s,
    }
}

/// The Python file that one line of `git status --porcelain` names: the
/// path after the two status letters and a space, for a rename the new one.
pub open spec fn porcelain_path(line: Seq<char>) -> Option<Seq<char>> {
    match skip_bytes(line, 3) {
        Some(p) => {
            let path = after_arrows(p);
            if spec_ends_with(path, seq!['.', 'p', 'y']) {
                Some(path)
            } else {
                None
            }
        },
        None => None,
    }
}

/// The Python files that lines of `git status --porcelain` name, in order.
pub open spec fn porcelain_paths(lines: Seq<Seq<char>>) -> Seq<Seq<char>>
    decreases lines.len(),
{
    if lines.len() == 0 {
        seq![]
    } else {
        porcelain_paths(lines.drop_last()) + match porcelain_path(lines.last()) {
            Some(p) => seq![p],
            None => seq![],
        }
    }
}

fn skip_three_bytes(line: &[char]) -> (r: Option<Vec<char>>)
    ensures
        match r {
            Some(v) => skip_bytes(line@, 3) == Some(v@),
            None => skip_bytes(line@, 3) is None,
        },
{
    let mut i: usize = 0;
    let mut left: usize = 3;
    assert(line@.subrange(0, line@.len() as int) =~= line@);
    while left > 0
        invariant
            i <= line@.len(),
            left <= 3,
            skip_bytes(line@, 3) == skip_bytes(line@.subrange(i as int, line@.len() as int), left as int),
        decreases left,
    {
        let ghost rest = line@.subrange(i as int, line@.len() as int);
        if i >= line.len() {
            return None;
        }
        let w = utf8_width(line[i]);
        assert(rest[0] == line@[i as int]);
        if left < w {
            return None;
        }
        assert(rest.drop_first() =~= line@.subrange(i + 1, line@.len() as int));
        i = i + 1;
        left = left - w;
    }
    Some(slice_to_vec_range(line, i, line.len()))
}

proof fn lemma_after_arrows_step(s: Seq<char>, i: int)
    requires
        spec_find_sub(s, arrow()) == Some(i),
        0 <= i,
        i + 4 <= s.len(),
    ensures
        after_arrows(s) == after_arrows(s.subrange(i + 4, s.len() as int)),
{
    reveal(after_arrows);
}

proof fn lemma_after_arrows_done(s: Seq<char>)
    requires
        spec_find_sub(s, arrow()) is None,
    ensures
        after_arrows(s) == s,
{
    reveal(after_arrows);
}

proof fn lemma_lines_step(s: Seq<char>, j: int)
    requires
        spec_find(s, '\n') == Some(j),
        0 <= j < s.len(),
    ensures
        spec_lines(s) == seq![strip_cr(s.subrange(0, j))] + spec_lines(s.subrange(j + 1, s.len() as int)),
{
    reveal(spec_lines);
}

proof fn lemma_lines_empty()
    ensures
        spec_lines(Seq::<char>::empty()) == Seq::<Seq<char>>::empty(),
{
    reveal(spec_lines);
}

proof fn lemma_lines_last(s: Seq<char>)
    requires
        spec_find(s, '\n') is None,
        s.len() > 0,
    ensures
        spec_lines(s) == seq![s],
{
    reveal(spec_lines);
}

proof fn lemma_porcelain_push(lines: Seq<Seq<char>>, line: Seq<char>)
    ensures
        porcelain_paths(lines.push(line)) == porcelain_paths(lines) + match porcelain_path(line) {
            Some(p) => seq![p],
            None => seq![],
        },
{
    assert(lines.push(line).drop_last() =~= lines);
}

#[verifier::spinoff_prover]
#[verifier::rlimit(60)]
fn after_arrows_exec(s: &[char]) -> (r: Vec<char>)
    ensures
        r@ == after_arrows(s@),
{
    let pattern: Vec<char> = vec![' ', '-', '>', ' '];
    assert(pattern@ =~= arrow());
    let mut rest = slice_to_vec_range(s, 0, s.len());
    assert(rest@ =~= s@);
    loop
        invariant
            pattern@ == arrow(),
            after_arrows(rest@) == after_arrows(s@),
        decreases rest@.len(),
    {
        assert(pattern@.len() == 4);
        match find_sub(&rest, &pattern) {
            Some(i) => {
                let n = rest.len();
                assert(i + 4 <= n);
                proof {
                    lemma_after_arrows_step(rest@, i as int);
                }
                let next = slice_to_vec_range(&rest, i + 4, n);
                rest = next;
            },
            None => {
                proof {
                    lemma_after_arrows_done(rest@);
                }
                return rest;
            },
        }
    }
}

/// The Python files that the output of `git status --porcelain` names, in
/// order, relative to the top of the repository.
#[verifier::spinoff_prover]
#[verifier::rlimit(60)]
pub fn changed_python_paths(output: &str) -> (r: Vec<String>)
    ensures
        strings_view(r@) == porcelain_paths(spec_lines(output@)),
{
    let s = chars_of(output);
    let mut out: Vec<String> = Vec::new();
    let mut start: usize = 0;
    let ghost mut done: Seq<Seq<char>> = seq![];
    assert(s@.subrange(0, s@.len() as int) =~= s@);
    while start < s.len()
        invariant
            start <= s@.len(),
            spec_lines(s@) == done + spec_lines(s@.subrange(start as int, s@.len() as int)),
            strings_view(out@) == porcelain_paths(done),
        decreases s@.len() - start,
    {
        let ghost rest = s@.subrange(start as int, s@.len() as int);
        let (line, next) = match find_newline_from(&s, start) {
            Some(j) => {
                let raw = slice_to_vec_range(&s, start, j);
                let line = if raw.len() > 0 && raw[raw.len() - 1] == '\r' {
                    slice_to_vec_range(&raw, 0, raw.len() - 1)
                } else {
                    raw
                };
                proof {
                    assert(raw@ =~= rest.subrange(0, j - start));
                    assert(line@ =~= strip_cr(raw@));
                    assert(rest.subrange(j - start + 1, rest.len() as int) =~= s@.subrange(j + 1, s@.len() as int));
                    lemma_lines_step(rest, j - start);
                }
                (line, j + 1)
            },
            None => {
                let line = slice_to_vec_range(&s, start, s.len());
                proof {
                    lemma_lines_last(rest);
                    lemma_lines_empty();
                    assert(line@ =~= rest);
                    assert(s@.subrange(s@.len() as int, s@.len() as int) =~= Seq::<char>::empty());
                }
                (line, s.len())
            },
        };
        let ghost old_done = done;
        proof {
            done = done.push(line@);
            lemma_porcelain_push(old_done, line@);
            assert(old_done + spec_lines(rest) =~= done + spec_lines(s@.subrange(next as int, s@.len() as int)));
        }
        let ghost before = strings_view(out@);
        match porcelain_line(&line) {
            Some(p) => {
                out.push(p);
                assert(strings_view(out@) =~= before + seq![p@]);
            },
            None => {},
        }
        start = next;
    }
    proof {
        assert(s@.subrange(start as int, s@.len() as int) =~= Seq::<char>::empty());
        lemma_lines_empty();
        assert(done + Seq::<Seq<char>>::empty() =~= done);
    }
    out
}

fn porcelain_line(line: &Vec<char>) -> (r: Option<String>)
    ensures
        match r {
            Some(p) => porcelain_path(line@) == Some(p@),
            None => porcelain_path(line@) is None,
        },
{
    match skip_three_bytes(line) {
        Some(p) => {
            let path = after_arrows_exec(&p);
            let suffix: Vec<char> = vec!['.', 'p', 'y'];
            assert(suffix@ =~= seq!['.', 'p', 'y']);
            if ends_with(&path, &suffix) {
                Some(string_of(&path))
            } else {
                None
            }
        },
        None => None,
    }
}


/// `Path::join` of `path` onto `base`, as text.
pub uninterp spec fn spec_join_path(base: Seq<char>, path: Seq<char>) -> Seq<char>;

/// `std::path::Path::join`: `path` added to `base` as the platform's path
/// syntax has it, written back as text.
#[verifier::external_body]
fn join_path(base: &str, path: &str) -> (r: String)
    ensures
        r@ == spec_join_path(base@, path@),
{
    std::path::Path::new(base).join(path).to_string_lossy().into_owned()
}

/// The paths of `paths`, each joined onto `repository` and written relative
/// to `root`, in order; those outside `root` are left out.
pub open spec fn paths_under(paths: Seq<Seq<char>>, repository: Seq<char>, root: Seq<char>) -> Seq<Seq<char>>
    decreases paths.len(),
{
    if paths.len() == 0 {
        seq![]
    } else {
        let earlier = paths_under(paths.drop_last(), repository, root);
        match spec_strip_path_prefix(spec_join_path(repository, paths.last()), root) {
            Some(relative) => earlier.push(relative),
            None => earlier,
        }
    }
}

/// The changed Python files that the output of `git status --porcelain`, run
/// at the top of the repository `repository`, names, written relative to
/// `root`; files outside `root` are left out.
pub fn changed_paths_under(output: &str, repository: &str, root: &str) -> (r: Vec<String>)
    ensures
        strings_view(r@) == paths_under(porcelain_paths(spec_lines(output@)), repository@, root@),
{
    let paths = changed_python_paths(output);
    let ghost listed = strings_view(paths@);
    let mut out: Vec<String> = Vec::new();
    let mut i: usize = 0;
    while i < paths.len()
        invariant
            i <= paths@.len(),
            listed == strings_view(paths@),
            strings_view(out@) == paths_under(listed.subrange(0, i as int), repository@, root@),
        decreases paths@.len() - i,
    {
        assert(listed.subrange(0, i + 1).drop_last() =~= listed.subrange(0, i as int));
        let joined = join_path(repository, paths[i].as_str());
        match strip_path_prefix(joined.as_str(), root) {
            Some(relative) => {
                let ghost before = strings_view(out@);
                out.push(relative);
                assert(strings_view(out@) =~= before.push(relative@));
            },
            None => {},
        }
        i = i + 1;
    }
    assert(listed.subrange(0, listed.len() as int) =~= listed);
    out
}

} // verus!
