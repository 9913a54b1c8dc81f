//! Findings: where a query or a rule matched, and how they are ordered and
//! written as text.
use vstd::prelude::*;
use vstd::multiset::Multiset;
use crate::query::matcher::CapturesView;
use crate::query::variables::MatchCaptures;
use crate::text::{append_chars, chars_of, push_decimal, spec_decimal, string_of};

verus! {

/// The formats in which findings are written.
#[derive(Clone, Copy, Debug, PartialEq, Eq, Structural)]
pub enum OutputFormat {
    Text,
    Json,
    Jsonl,
}

/// One match: the file, the one-based line and column where the matched
/// node starts, the first line of its text, the rule that matched (if any),
/// the node's byte range, and the values its capture variables took.
pub struct Finding {
    pub path: String,
    pub line: usize,
    pub column: usize,
    pub text: String,
    pub rule_id: Option<String>,
    pub message: Option<String>,
    pub severity: Option<String>,
    pub start_byte: usize,
    pub end_byte: usize,
    pub captures: MatchCaptures,
}

pub struct FindingView {
    pub path: Seq<char>,
    pub line: nat,
    pub column: nat,
    pub text: Seq<char>,
    pub rule_id: Option<Seq<char>>,
    pub message: Option<Seq<char>>,
    pub severity: Option<Seq<char>>,
    pub start_byte: nat,
    pub end_byte: nat,
    pub captures: CapturesView,
}

pub open spec fn opt_chars(o: Option<String>) -> Option<Seq<char>> {
    match o {
        Some(s) => Some(s@),
        None => None,
    }
}

impl View for Finding {
    type V = FindingView;

    open spec fn view(&self) -> FindingView {
        FindingView {
            path: self.path@,
            line: self.line as nat,
            column: self.column as nat,
            text: self.text@,
            rule_id: opt_chars(self.rule_id),
            message: opt_chars(self.message),
            severity: opt_chars(self.severity),
            start_byte: self.start_byte as nat,
            end_byte: self.end_byte as nat,
            captures: self.captures@,
        }
    }
}

pub open spec fn findings_view(v: Seq<Finding>) -> Seq<FindingView> {
    v.map_values(|f: Finding| f@)
}

fn copy_opt(o: &Option<String>) -> (r: Option<String>)
    ensures
        opt_chars(r) == opt_chars(*o),
{
    match o {
        Some(s) => Some(s.clone()),
        None => None,
    }
}

impl Finding {
    /// A copy of the finding.
    pub fn duplicate(&self) -> (r: Finding)
        ensures
            r@ == self@,
    {
        Finding {
            path: self.path.clone(),
            line: self.line,
            column: self.column,
            text: self.text.clone(),
            rule_id: copy_opt(&self.rule_id),
            message: copy_opt(&self.message),
            severity: copy_opt(&self.severity),
            start_byte: self.start_byte,
            end_byte: self.end_byte,
            captures: self.captures.duplicate(),
        }
    }
}

/// Copies of the findings.
pub fn duplicate_findings(v: &Vec<Finding>) -> (r: Vec<Finding>)
    ensures
        findings_view(r@) == findings_view(v@),
{
    let mut r: Vec<Finding> = Vec::new();
    let mut i: usize = 0;
    while i < v.len()
        invariant
            i <= v@.len(),
            findings_view(r@) == findings_view(v@).subrange(0, i as int),
        decreases v@.len() - i,
    {
        let d = v[i].duplicate();
        assert(d@ == findings_view(v@)[i as int]);
        let ghost before = r@;
        r.push(d);
        assert(findings_view(r@) =~= findings_view(before).push(d@));
        i = i + 1;
        assert(findings_view(r@) =~= findings_view(v@).subrange(0, i as int));
    }
    assert(findings_view(v@).subrange(0, v@.len() as int) =~= findings_view(v@));
    r
}

/// `a` before `b` in the order of `str`'s `Ord`: by code points, a prefix first.
pub open spec fn chars_less(a: Seq<char>, b: Seq<char>) -> bool
    decreases a.len(),
{
    if a.len() == 0 {
        b.len() > 0
    } else if b.len() == 0 {
        false
    } else if a[0] != b[0] {
        (a[0] as int) < (b[0] as int)
    } else {
        chars_less(a.drop_first(), b.drop_first())
    }
}

/// `a` comes before `b` exactly where they agree up to some position `k`
/// and then `a` ends while `b` goes on, or `a`'s character at `k` has the
/// smaller code point.
pub proof fn chars_less_is_lexicographic(a: Seq<char>, b: Seq<char>)
    ensures
        chars_less(a, b) <==> exists|k: int|
            0 <= k <= a.len() && k <= b.len() && #[trigger] a.subrange(0, k) == b.subrange(0, k) && ((k == a.len()
                && k < b.len()) || (k < a.len() && k < b.len() && (a[k] as int) < (b[k] as int))),
    decreases a.len(),
{
    if a.len() == 0 {
        if b.len() > 0 {
            assert(a.subrange(0, 0) =~= b.subrange(0, 0));
        }
    } else if b.len() == 0 {
    } else if a[0] != b[0] {
        if (a[0] as int) < (b[0] as int) {
            assert(a.subrange(0, 0) =~= b.subrange(0, 0));
        }
        assert forall|k: int|
            0 <= k <= a.len() && k <= b.len() && #[trigger] a.subrange(0, k) == b.subrange(0, k) && ((k == a.len()
                && k < b.len()) || (k < a.len() && k < b.len() && (a[k] as int) < (b[k] as int))) implies k == 0 by {
            if k > 0 {
                assert(a.subrange(0, k)[0] == b.subrange(0, k)[0]);
            }
        }
    } else {
        let a1 = a.drop_first();
        let b1 = b.drop_first();
        chars_less_is_lexicographic(a1, b1);
        if chars_less(a1, b1) {
            let k = choose|k: int|
                0 <= k <= a1.len() && k <= b1.len() && #[trigger] a1.subrange(0, k) == b1.subrange(0, k) && ((k
                    == a1.len() && k < b1.len()) || (k < a1.len() && k < b1.len() && (a1[k] as int) < (b1[k] as int)));
            assert(a.subrange(0, k + 1) =~= seq![a[0]] + a1.subrange(0, k));
            assert(b.subrange(0, k + 1) =~= seq![b[0]] + b1.subrange(0, k));
            assert(a.subrange(0, k + 1) == b.subrange(0, k + 1));
        }
        assert forall|k: int|
            0 <= k <= a.len() && k <= b.len() && #[trigger] a.subrange(0, k) == b.subrange(0, k) && ((k == a.len()
                && k < b.len()) || (k < a.len() && k < b.len() && (a[k] as int) < (b[k] as int))) implies chars_less(
            a1,
            b1,
        ) by {
            if k == 0 {
                assert(a[0] == b[0]);
            } else {
                assert(a1.subrange(0, k - 1) =~= a.subrange(0, k).drop_first());
                assert(b1.subrange(0, k - 1) =~= b.subrange(0, k).drop_first());
                assert(a1.subrange(0, k - 1) == b1.subrange(0, k - 1));
                if k < a.len() {
                    assert(a1[k - 1] == a[k]);
                }
                if k < b.len() {
                    assert(b1[k - 1] == b[k]);
                }
            }
        }
    }
}

/// Findings are ordered by file, then line, then column.
pub open spec fn finding_less(a: FindingView, b: FindingView) -> bool {
    ||| chars_less(a.path, b.path)
    ||| (a.path == b.path && a.line < b.line)
    ||| (a.path == b.path && a.line == b.line && a.column < b.column)
}

pub open spec fn finding_le(a: FindingView, b: FindingView) -> bool {
    !finding_less(b, a)
}

pub open spec fn sorted_findings(v: Seq<FindingView>) -> bool {
    forall|i: int, j: int| 0 <= i < j < v.len() ==> finding_le(#[trigger] v[i], #[trigger] v[j])
}

pub proof fn lemma_chars_less_irreflexive(a: Seq<char>)
    ensures
        !chars_less(a, a),
    decreases a.len(),
{
    if a.len() > 0 {
        lemma_chars_less_irreflexive(a.drop_first());
    }
}

pub proof fn lemma_chars_less_total(a: Seq<char>, b: Seq<char>)
    ensures
        a != b ==> chars_less(a, b) || chars_less(b, a),
        !(chars_less(a, b) && chars_less(b, a)),
    decreases a.len(),
{
    if a.len() > 0 && b.len() > 0 {
        lemma_chars_less_total(a.drop_first(), b.drop_first());
        if a[0] != b[0] {
            assert((a[0] as int) != (b[0] as int));
        }
        if a[0] == b[0] && a.drop_first() == b.drop_first() {
            assert forall|i: int| 0 <= i < a.len() implies a[i] == b[i] by {
                if i > 0 {
                    assert(a[i] == a.drop_first()[i - 1]);
                    assert(b[i] == b.drop_first()[i - 1]);
                }
            }
            assert(a =~= b);
        }
    } else if a.len() == 0 && b.len() == 0 {
        assert(a =~= b);
    }
}

pub proof fn lemma_chars_less_transitive(a: Seq<char>, b: Seq<char>, c: Seq<char>)
    requires
        chars_less(a, b),
        chars_less(b, c),
    ensures
        chars_less(a, c),
    decreases a.len(),
{
    if a.len() > 0 && b.len() > 0 && c.len() > 0 && a[0] == b[0] && b[0] == c[0] {
        lemma_chars_less_transitive(a.drop_first(), b.drop_first(), c.drop_first());
    }
}

/// `finding_le` is a total preorder.
pub proof fn lemma_finding_order(a: FindingView, b: FindingView, c: FindingView)
    ensures
        finding_le(a, a),
        finding_le(a, b) || finding_le(b, a),
        finding_le(a, b) && finding_le(b, c) ==> finding_le(a, c),
{
    lemma_chars_less_irreflexive(a.path);
    lemma_chars_less_total(a.path, b.path);
    lemma_chars_less_total(b.path, c.path);
    lemma_chars_less_total(a.path, c.path);
    if chars_less(c.path, b.path) && chars_less(b.path, a.path) {
        lemma_chars_less_transitive(c.path, b.path, a.path);
    }
    if chars_less(c.path, a.path) && !chars_less(c.path, b.path) && !chars_less(b.path, a.path) {
        if b.path != a.path && b.path != c.path {
            lemma_chars_less_transitive(c.path, a.path, b.path);
        }
    }
}

pub(crate) fn chars_less_exec(a: &[char], b: &[char]) -> (r: bool)
    ensures
        r == chars_less(a@, b@),
{
    let mut i: usize = 0;
    assert(a@.subrange(0, a@.len() as int) =~= a@);
    assert(b@.subrange(0, b@.len() as int) =~= b@);
    while i < a.len() && i < b.len()
        invariant
            i <= a@.len(),
            i <= b@.len(),
            forall|k: int| 0 <= k < i ==> a@[k] == b@[k],
            chars_less(a@, b@) == chars_less(
                a@.subrange(i as int, a@.len() as int),
                b@.subrange(i as int, b@.len() as int),
            ),
        decreases a@.len() - i,
    {
        if a[i] != b[i] {
            return a[i] < b[i];
        }
        proof {
            let sa = a@.subrange(i as int, a@.len() as int);
            let sb = b@.subrange(i as int, b@.len() as int);
            assert(sa.drop_first() =~= a@.subrange(i + 1, a@.len() as int));
            assert(sb.drop_first() =~= b@.subrange(i + 1, b@.len() as int));
        }
        i = i + 1;
    }
    i == a.len() && i < b.len()
}

fn finding_less_exec(a: &Finding, b: &Finding) -> (r: bool)
    ensures
        r == finding_less(a@, b@),
{
    let pa = chars_of(a.path.as_str());
    let pb = chars_of(b.path.as_str());
    if chars_less_exec(&pa, &pb) {
        return true;
    }
    if chars_less_exec(&pb, &pa) {
        return false;
    }
    proof {
        lemma_chars_less_total(a.path@, b.path@);
    }
    a.line < b.line || (a.line == b.line && a.column < b.column)
}

/// Where `f` goes into `v`: after every finding that `f` does not come
/// before, looking from the end.
pub open spec fn finding_insert_pos(v: Seq<FindingView>, f: FindingView) -> int
    decreases v.len(),
{
    if v.len() == 0 || !finding_less(f, v.last()) {
        v.len() as int
    } else {
        finding_insert_pos(v.drop_last(), f)
    }
}

/// Findings sorted by file, line and column, equal ones in the order they
/// came (a stable sort).
pub open spec fn spec_sort_findings(v: Seq<FindingView>) -> Seq<FindingView>
    decreases v.len(),
{
    if v.len() == 0 {
        v
    } else {
        let sorted = spec_sort_findings(v.drop_last());
        sorted.insert(finding_insert_pos(sorted, v.last()), v.last())
    }
}

proof fn lemma_less_is_le(a: FindingView, b: FindingView)
    requires
        finding_less(a, b),
    ensures
        finding_le(a, b),
{
    lemma_chars_less_total(a.path, b.path);
    lemma_chars_less_irreflexive(a.path);
}

proof fn lemma_insert_pos(v: Seq<FindingView>, f: FindingView)
    ensures
        0 <= finding_insert_pos(v, f) <= v.len(),
        forall|i: int| finding_insert_pos(v, f) <= i < v.len() ==> finding_less(f, #[trigger] v[i]),
        finding_insert_pos(v, f) > 0 ==> !finding_less(f, v[finding_insert_pos(v, f) - 1]),
    decreases v.len(),
{
    if v.len() > 0 && finding_less(f, v.last()) {
        lemma_insert_pos(v.drop_last(), f);
        assert forall|i: int| finding_insert_pos(v, f) <= i < v.len() implies finding_less(f, #[trigger] v[i]) by {
            if i < v.len() - 1 {
                assert(v[i] == v.drop_last()[i]);
            }
        }
        if finding_insert_pos(v, f) > 0 {
            assert(v[finding_insert_pos(v, f) - 1] == v.drop_last()[finding_insert_pos(v, f) - 1]);
        }
    }
}

/// The stable sort keeps the findings and puts them in order.
pub proof fn lemma_sort_findings(v: Seq<FindingView>)
    ensures
        sorted_findings(spec_sort_findings(v)),
        spec_sort_findings(v).to_multiset() == v.to_multiset(),
        spec_sort_findings(v).len() == v.len(),
    decreases v.len(),
{
    broadcast use vstd::seq_lib::group_to_multiset_ensures;
    if v.len() > 0 {
        let rest = v.drop_last();
        let f = v.last();
        lemma_sort_findings(rest);
        let s = spec_sort_findings(rest);
        let p = finding_insert_pos(s, f);
        lemma_insert_pos(s, f);
        let t = s.insert(p, f);
        assert(t.to_multiset() == s.to_multiset().insert(f));
        assert(v =~= rest.push(f));
        assert forall|i: int, j: int| 0 <= i < j < t.len() implies finding_le(#[trigger] t[i], #[trigger] t[j]) by {
            if j < p {
                assert(t[i] == s[i] && t[j] == s[j]);
            } else if j == p {
                assert(t[j] == f && t[i] == s[i]);
                lemma_finding_order(s[i], s[p - 1], f);
                if i == p - 1 {
                    lemma_finding_order(s[i], s[i], f);
                }
            } else if i == p {
                assert(t[i] == f && t[j] == s[j - 1]);
                lemma_less_is_le(f, s[j - 1]);
            } else if i < p {
                assert(t[i] == s[i] && t[j] == s[j - 1]);
            } else {
                assert(t[i] == s[i - 1] && t[j] == s[j - 1]);
            }
        }
    }
}

/// Sorts findings by file, line and column, keeping the order of equal ones.
/// Sorted findings go by file path (in the order of `str`), then, within a
/// file, by line, then, within a line, by column.
pub proof fn sorted_findings_go_by_path_line_column(v: Seq<FindingView>, i: int, j: int)
    requires
        sorted_findings(v),
        0 <= i < j < v.len(),
    ensures
        !chars_less(v[j].path, v[i].path),
        v[i].path == v[j].path ==> v[i].line <= v[j].line,
        v[i].path == v[j].path && v[i].line == v[j].line ==> v[i].column <= v[j].column,
{
    assert(finding_le(v[i], v[j]));
    lemma_chars_less_irreflexive(v[i].path);
}

pub fn sort_findings(findings: &mut Vec<Finding>)
    ensures
        findings_view(final(findings)@) == spec_sort_findings(findings_view(old(findings)@)),
        sorted_findings(findings_view(final(findings)@)),
        findings_view(final(findings)@).to_multiset() == findings_view(old(findings)@).to_multiset(),
{
    let mut rest: Vec<Finding> = Vec::new();
    std::mem::swap(&mut rest, findings);
    let ghost all = findings_view(rest@);
    let mut out: Vec<Finding> = Vec::new();
    let mut taken: usize = 0;
    let total = rest.len();
    assert(all.subrange(0, 0) =~= Seq::<FindingView>::empty());
    assert(findings_view(out@) =~= spec_sort_findings(all.subrange(0, 0)));
    assert(findings_view(rest@) =~= all.subrange(0, all.len() as int));
    while rest.len() > 0
        invariant
            taken <= all.len(),
            all.len() == total,
            findings_view(rest@) == all.subrange(taken as int, all.len() as int),
            findings_view(out@) == spec_sort_findings(all.subrange(0, taken as int)),
        decreases rest@.len(),
    {
        let ghost old_rest = rest@;
        let f = rest.remove(0);
        let ghost fv = f@;
        proof {
            let tail = all.subrange(taken as int, all.len() as int);
            assert(findings_view(old_rest) == tail);
            assert(findings_view(old_rest).len() == old_rest.len());
            assert(old_rest[0] == f);
            assert(tail[0] == fv);
            assert(rest@ =~= old_rest.subrange(1, old_rest.len() as int));
            assert forall|i: int| 0 <= i < rest@.len() implies #[trigger] findings_view(rest@)[i] == all[taken + 1
                + i] by {
                assert(rest@[i] == old_rest[i + 1]);
                assert(findings_view(old_rest)[i + 1] == old_rest[i + 1]@);
                assert(tail[i + 1] == all[taken + 1 + i]);
            }
            assert(findings_view(rest@) =~= all.subrange(taken + 1, all.len() as int));
        }
        let ghost sorted = findings_view(out@);
        let mut p: usize = out.len();
        assert(sorted.subrange(0, p as int) =~= sorted);
        while p > 0 && finding_less_exec(&f, &out[p - 1])
            invariant
                p <= out@.len(),
                sorted == findings_view(out@),
                fv == f@,
                finding_insert_pos(sorted, fv) == finding_insert_pos(sorted.subrange(0, p as int), fv),
            decreases p,
        {
            proof {
                let pre = sorted.subrange(0, p as int);
                assert(pre.last() == sorted[p - 1]);
                assert(pre.drop_last() =~= sorted.subrange(0, p - 1));
            }
            p = p - 1;
        }
        proof {
            let pre = sorted.subrange(0, p as int);
            if p > 0 {
                assert(pre.last() == sorted[p - 1]);
            }
            assert(finding_insert_pos(pre, fv) == p);
        }
        out.insert(p, f);
        proof {
            let prefix = all.subrange(0, taken + 1);
            assert(prefix.drop_last() =~= all.subrange(0, taken as int));
            assert(prefix.last() == fv);
            assert(findings_view(out@) =~= sorted.insert(p as int, fv));
        }
        taken = taken + 1;
    }
    assert(all.subrange(0, all.len() as int) =~= all);
    proof {
        lemma_sort_findings(all);
    }
    *findings = out;
}

/// Appends `s` to `out`.
fn push_str(out: &mut Vec<char>, s: &str)
    ensures
        final(out)@ == old(out)@ + s@,
{
    let c = chars_of(s);
    append_chars(out, &c);
}

/// The text line written for a finding: `path:line:column: text`, with
/// `[severity/rule] message: ` before the text where a rule matched
/// (severity `warning` and message `rule matched` where they are missing).
pub open spec fn spec_finding_line(f: FindingView) -> Seq<char> {
    let location = f.path + seq![':'] + spec_decimal(f.line) + seq![':'] + spec_decimal(f.column);
    match f.rule_id {
        Some(id) => location + ": ["@ + match f.severity {
            Some(s) => s,
            None => "warning"@,
        } + seq!['/'] + id + "] "@ + match f.message {
            Some(m) => m,
            None => "rule matched"@,
        } + ": "@ + f.text,
        None => location + ": "@ + f.text,
    }
}

/// The text line of a finding starts with its path and a `:`, and ends with
/// its text after `: `. Where a rule matched, the rule's own message stands
/// just before that, after `] `; only a finding without a message shows
/// `rule matched` there.
pub proof fn finding_line_shows_message(f: FindingView)
    ensures
        spec_finding_line(f).subrange(0, f.path.len() as int + 1) == f.path + seq![':'],
        ({
            let location = f.path + seq![':'] + spec_decimal(f.line) + seq![':'] + spec_decimal(f.column) + ": "@;
            spec_finding_line(f).subrange(0, location.len() as int) == location
        }),
        f.rule_id matches Some(id) ==> ({
            let location = f.path + seq![':'] + spec_decimal(f.line) + seq![':'] + spec_decimal(f.column) + ": "@;
            let tag = seq!['['] + match f.severity {
                Some(sev) => sev,
                None => "warning"@,
            } + seq!['/'] + id + seq![']'];
            spec_finding_line(f).subrange(location.len() as int, (location.len() + tag.len()) as int) == tag
        }),
        f.rule_id is Some ==> match f.message {
            Some(m) => exists|q: Seq<char>| spec_finding_line(f) == q + "] "@ + m + ": "@ + f.text,
            None => exists|q: Seq<char>| spec_finding_line(f) == q + "] "@ + "rule matched"@ + ": "@ + f.text,
        },
        f.rule_id is None ==> spec_finding_line(f) == f.path + seq![':'] + spec_decimal(f.line) + seq![':']
            + spec_decimal(f.column) + ": "@ + f.text,
{
    let location = f.path + seq![':'] + spec_decimal(f.line) + seq![':'] + spec_decimal(f.column);
    let line = spec_finding_line(f);
    match f.rule_id {
        Some(id) => {
            let sev = match f.severity {
                Some(s) => s,
                None => "warning"@,
            };
            let q = location + ": ["@ + sev + seq!['/'] + id;
            let msg = match f.message {
                Some(m) => m,
                None => "rule matched"@,
            };
            assert(line =~= q + "] "@ + msg + ": "@ + f.text);
            assert(line.subrange(0, f.path.len() as int + 1) =~= f.path + seq![':']);
            reveal_strlit(": ");
            reveal_strlit(": [");
            reveal_strlit("] ");
            let loc2 = location + ": "@;
            let tag = seq!['['] + sev + seq!['/'] + id + seq![']'];
            assert(line =~= loc2 + tag + seq![' '] + msg + ": "@ + f.text);
            assert(line.subrange(0, loc2.len() as int) =~= loc2);
            assert(line.subrange(loc2.len() as int, (loc2.len() + tag.len()) as int) =~= tag);
        },
        None => {
            assert(line =~= location + ": "@ + f.text);
            assert(line.subrange(0, f.path.len() as int + 1) =~= f.path + seq![':']);
            assert(line.subrange(0, (location + ": "@).len() as int) =~= location + ": "@);
        },
    }
}

pub fn finding_line(f: &Finding) -> (r: String)
    ensures
        r@ == spec_finding_line(f@),
{
    let mut out: Vec<char> = Vec::new();
    push_str(&mut out, f.path.as_str());
    out.push(':');
    push_decimal(&mut out, f.line);
    out.push(':');
    push_decimal(&mut out, f.column);
    let ghost location = out@;
    assert(location =~= f.path@ + seq![':'] + spec_decimal(f.line as nat) + seq![':'] + spec_decimal(
        f.column as nat,
    ));
    match &f.rule_id {
        Some(id) => {
            push_str(&mut out, ": [");
            match &f.severity {
                Some(s) => push_str(&mut out, s.as_str()),
                None => push_str(&mut out, "warning"),
            }
            out.push('/');
            push_str(&mut out, id.as_str());
            push_str(&mut out, "] ");
            match &f.message {
                Some(m) => push_str(&mut out, m.as_str()),
                None => push_str(&mut out, "rule matched"),
            }
            push_str(&mut out, ": ");
            push_str(&mut out, f.text.as_str());
            proof {
                let sev = match opt_chars(f.severity) {
                    Some(s) => s,
                    None => "warning"@,
                };
                let msg = match opt_chars(f.message) {
                    Some(m) => m,
                    None => "rule matched"@,
                };
                assert(out@ =~= location + ": ["@ + sev + seq!['/'] + id@ + "] "@ + msg + ": "@ + f.text@);
            }
        },
        None => {
            push_str(&mut out, ": ");
            push_str(&mut out, f.text.as_str());
            assert(out@ =~= location + ": "@ + f.text@);
        },
    }
    string_of(&out)
}

} // verus!
