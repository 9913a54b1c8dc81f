//! Numbers for numeric value predicates such as `>30`: numbers in the syntax
//! of `f64::from_str`, read exactly, then rounded to doubles to compare.
use vstd::prelude::*;
use crate::double::{round_to_double, spec_round, INFINITE_BITS};
use crate::text::{find, spec_find, spec_is_ascii_digit};

verus! {

pub enum NumberValue {
    Finite { negative: bool, digits: Vec<u8>, exponent: i128 },
    Infinite { negative: bool },
    NotANumber,
}

/// A number: a signed decimal `digits * 10^exponent`, an infinity, or NaN.
pub struct Number {
    value: NumberValue,
}

pub enum NumberView {
    Finite { negative: bool, digits: Seq<u8>, exponent: int },
    Infinite { negative: bool },
    NotANumber,
}

/// The largest exponent a finite number holds, in either direction.
pub const EXPONENT_BOUND: i128 = 1_208_925_819_614_629_174_706_176;

impl View for Number {
    type V = NumberView;

    closed spec fn view(&self) -> NumberView {
        match self.value {
            NumberValue::Finite { negative, digits, exponent } => NumberView::Finite {
                negative,
                digits: digits@,
                exponent: exponent as int,
            },
            NumberValue::Infinite { negative } => NumberView::Infinite { negative },
            NumberValue::NotANumber => NumberView::NotANumber,
        }
    }
}

pub open spec fn small_digits(d: Seq<u8>) -> bool {
    forall|i: int| 0 <= i < d.len() ==> #[trigger] d[i] < 10
}

impl Number {
    /// Digits are decimal digits, and the exponent is within `EXPONENT_BOUND`.
    #[verifier::type_invariant]
    pub closed spec fn well_formed(self) -> bool {
        match self.value {
            NumberValue::Finite { digits, exponent, .. } => small_digits(digits@) && -EXPONENT_BOUND
                <= exponent <= EXPONENT_BOUND,
            _ => true,
        }
    }
}

pub open spec fn pow10(n: nat) -> nat
    decreases n,
{
    if n == 0 {
        1
    } else {
        10 * pow10((n - 1) as nat)
    }
}

/// The value of a sequence of decimal digits, most significant first.
pub open spec fn digits_value(d: Seq<u8>) -> nat
    decreases d.len(),
{
    if d.len() == 0 {
        0
    } else {
        digits_value(d.drop_last()) * 10 + d.last() as nat
    }
}

/// The value of a finite number in units of `10^unit` (`unit` at most its exponent).
pub open spec fn scaled(negative: bool, digits: Seq<u8>, exponent: int, unit: int) -> int {
    let magnitude = digits_value(digits) * pow10((exponent - unit) as nat);
    if negative {
        -magnitude
    } else {
        magnitude as int
    }
}

pub open spec fn min_int(a: int, b: int) -> int {
    if a <= b {
        a
    } else {
        b
    }
}

/// The double that `f64::from_str` reads a number as, by the signed
/// pattern of its bits (see `crate::double`): `-0` and `0` are both 0, an
/// infinity is `INFINITE_BITS` with its sign, and NaN has none.
pub open spec fn spec_double(n: NumberView) -> Option<int> {
    match n {
        NumberView::NotANumber => None,
        NumberView::Infinite { negative } => Some(
            if negative {
                -(INFINITE_BITS as int)
            } else {
                INFINITE_BITS as int
            },
        ),
        NumberView::Finite { negative, digits, exponent } => {
            let k = spec_round(digits_value(digits), exponent) as int;
            Some(
                if negative {
                    -k
                } else {
                    k
                },
            )
        },
    }
}

/// The code of `c` in lower case, where it is an upper-case ASCII letter.
pub open spec fn lower_code(c: char) -> u32 {
    if 'A' <= c <= 'Z' {
        ((c as u32) + 32) as u32
    } else {
        c as u32
    }
}

pub open spec fn lower_is(s: Seq<char>, word: Seq<char>) -> bool {
    s.len() == word.len() && forall|i: int| 0 <= i < s.len() ==> lower_code(#[trigger] s[i]) == word[i] as u32
}

pub open spec fn all_digits(s: Seq<char>) -> bool {
    forall|i: int| 0 <= i < s.len() ==> spec_is_ascii_digit(#[trigger] s[i])
}

pub open spec fn digit_of(c: char) -> u8 {
    ((c as u32) - ('0' as u32)) as u8
}

pub open spec fn digit_values(s: Seq<char>) -> Seq<u8> {
    s.map_values(|c: char| digit_of(c))
}

pub open spec fn is_exponent_letter(c: char) -> bool {
    c == 'e' || c == 'E'
}

pub open spec fn is_first_mark(s: Seq<char>, i: int) -> bool {
    0 <= i < s.len() && is_exponent_letter(s[i]) && forall|j: int| 0 <= j < i ==> !is_exponent_letter(s[j])
}

/// The position of the first `e` or `E`, if any.
pub open spec fn exponent_mark(s: Seq<char>) -> Option<int> {
    if exists|i: int| 0 <= i < s.len() && is_exponent_letter(s[i]) {
        Some(choose|i: int| is_first_mark(s, i))
    } else {
        None
    }
}

/// The largest exponent that an exponent text counts for, in either direction.
pub const MAX_EXPONENT_TEXT: u64 = 1_000_000_000_000_000_000;

/// The exponent after an `e`: an optional sign and at least one digit. A
/// larger exponent counts as `MAX_EXPONENT_TEXT`, which already puts any
/// nonzero number far beyond the range of a double in either direction.
pub open spec fn spec_parse_exponent(s: Seq<char>) -> Option<int> {
    let negative = s.len() > 0 && s[0] == '-';
    let body = if s.len() > 0 && (s[0] == '+' || s[0] == '-') {
        s.subrange(1, s.len() as int)
    } else {
        s
    };
    if body.len() > 0 && all_digits(body) {
        let raw = digits_value(digit_values(body)) as int;
        let v = if raw <= MAX_EXPONENT_TEXT {
            raw
        } else {
            MAX_EXPONENT_TEXT as int
        };
        Some(
            if negative {
                -v
            } else {
                v
            },
        )
    } else {
        None
    }
}

pub open spec fn split_mantissa(s: Seq<char>) -> (Seq<char>, Option<int>) {
    match exponent_mark(s) {
        Some(i) => (s.subrange(0, i), spec_parse_exponent(s.subrange(i + 1, s.len() as int))),
        None => (s, Some(0int)),
    }
}

pub open spec fn split_point(m: Seq<char>) -> (Seq<char>, Seq<char>) {
    match spec_find(m, '.') {
        Some(i) => (m.subrange(0, i), m.subrange(i + 1, m.len() as int)),
        None => (m, Seq::<char>::empty()),
    }
}

/// The digits and exponent of `ddd.ddd` followed by an optional exponent part.
pub open spec fn spec_parse_decimal(s: Seq<char>) -> Option<(Seq<u8>, int)> {
    let (mantissa, exponent) = split_mantissa(s);
    let (whole, fraction) = split_point(mantissa);
    match exponent {
        Some(e) => if whole.len() + fraction.len() > 0 && all_digits(whole) && all_digits(fraction) {
            Some((digit_values(whole + fraction), e - fraction.len()))
        } else {
            None
        },
        None => None,
    }
}

/// `text` without its `_` characters.
pub open spec fn without_underscores(text: Seq<char>) -> Seq<char>
    decreases text.len(),
{
    if text.len() == 0 {
        text
    } else if text.last() == '_' {
        without_underscores(text.drop_last())
    } else {
        without_underscores(text.drop_last()).push(text.last())
    }
}

/// `text` without its `_` characters, then read as `spec_parse_float` says.
pub open spec fn spec_parse_number(text: Seq<char>) -> Option<NumberView> {
    spec_parse_float(without_underscores(text))
}

pub open spec fn sign_body(text: Seq<char>) -> Seq<char> {
    if text.len() > 0 && (text[0] == '+' || text[0] == '-') {
        text.subrange(1, text.len() as int)
    } else {
        text
    }
}

/// `f64::from_str` read exactly: an optional sign, then `inf`, `infinity` or
/// `nan` in any case, or decimal digits with an optional `.` and an optional
/// exponent part `e`/`E`, an optional sign and digits.
pub open spec fn spec_parse_float(text: Seq<char>) -> Option<NumberView> {
    let negative = text.len() > 0 && text[0] == '-';
    let body = sign_body(text);
    if lower_is(body, seq!['i', 'n', 'f']) || lower_is(
        body,
        seq!['i', 'n', 'f', 'i', 'n', 'i', 't', 'y'],
    ) {
        Some(NumberView::Infinite { negative })
    } else if lower_is(body, seq!['n', 'a', 'n']) {
        Some(NumberView::NotANumber)
    } else {
        match spec_parse_decimal(body) {
            Some((digits, exponent)) => Some(NumberView::Finite { negative, digits, exponent }),
            None => None,
        }
    }
}

// ---- Facts about powers of ten and digit values ----
pub proof fn lemma_pow10_positive(n: nat)
    ensures
        pow10(n) >= 1,
    decreases n,
{
    if n > 0 {
        lemma_pow10_positive((n - 1) as nat);
    }
}

pub proof fn lemma_pow10_adds(a: nat, b: nat)
    ensures
        pow10(a + b) == pow10(a) * pow10(b),
    decreases a,
{
    if a > 0 {
        lemma_pow10_adds((a - 1) as nat, b);
        assert(((a + b) - 1) as nat == ((a - 1) + b) as nat);
        assert(pow10(a + b) == 10 * pow10((a - 1 + b) as nat));
        let x = pow10((a - 1) as nat);
        let y = pow10(b);
        assert(pow10(a) == 10 * x);
        assert(pow10((a - 1 + b) as nat) == x * y);
        assert(10 * (x * y) == (10 * x) * y) by (nonlinear_arith);
    } else {
        assert(pow10(a) == 1);
        assert(a + b == b);
        assert(1 * pow10(b) == pow10(b));
    }
}

pub proof fn lemma_pow10_increases(a: nat, b: nat)
    requires
        a <= b,
    ensures
        pow10(a) <= pow10(b),
    decreases b,
{
    if a < b {
        lemma_pow10_increases(a, (b - 1) as nat);
        lemma_pow10_positive((b - 1) as nat);
    }
}

pub proof fn lemma_value_bound(d: Seq<u8>)
    requires
        small_digits(d),
    ensures
        digits_value(d) < pow10(d.len()),
    decreases d.len(),
{
    if d.len() > 0 {
        let p = d.drop_last();
        assert(small_digits(p)) by {
            assert forall|i: int| 0 <= i < p.len() implies #[trigger] p[i] < 10 by {
                assert(p[i] == d[i]);
            }
        }
        lemma_value_bound(p);
        let v = digits_value(p);
        let q = pow10(p.len());
        let last = d.last() as nat;
        assert(d.last() == d[d.len() - 1]);
        assert(v * 10 + last < 10 * q) by (nonlinear_arith)
            requires
                v < q,
                last < 10,
        ;
    }
}

pub proof fn lemma_value_split(a: Seq<u8>, b: Seq<u8>)
    ensures
        digits_value(a + b) == digits_value(a) * pow10(b.len()) + digits_value(b),
    decreases b.len(),
{
    if b.len() == 0 {
        assert(a + b =~= a);
        assert(pow10(0) == 1);
        assert(digits_value(b) == 0);
        assert(digits_value(a) * 1 == digits_value(a));
    } else {
        lemma_value_split(a, b.drop_last());
        assert((a + b).drop_last() =~= a + b.drop_last());
        assert((a + b).last() == b.last());
        let va = digits_value(a);
        let p = pow10(b.drop_last().len());
        let vb = digits_value(b.drop_last());
        let last = b.last() as nat;
        assert(digits_value(a + b) == digits_value(a + b.drop_last()) * 10 + last);
        assert(digits_value(a + b.drop_last()) == va * p + vb);
        assert(pow10(b.len()) == 10 * p);
        assert(digits_value(b) == vb * 10 + last);
        assert((va * p + vb) * 10 + last == va * (10 * p) + (vb * 10 + last)) by (nonlinear_arith);
    }
}

pub open spec fn zeros(k: nat) -> Seq<u8> {
    Seq::new(k, |i: int| 0u8)
}

pub proof fn lemma_value_zeros(k: nat)
    ensures
        digits_value(zeros(k)) == 0,
    decreases k,
{
    if k > 0 {
        assert(zeros(k).drop_last() =~= zeros((k - 1) as nat));
        lemma_value_zeros((k - 1) as nat);
    }
}

pub proof fn lemma_value_leading(d: Seq<u8>)
    requires
        small_digits(d),
        d.len() > 0,
        d[0] != 0,
    ensures
        digits_value(d) >= pow10((d.len() - 1) as nat),
{
    let head = d.subrange(0, 1);
    let rest = d.subrange(1, d.len() as int);
    assert(d =~= head + rest);
    lemma_value_split(head, rest);
    assert(head.drop_last() =~= Seq::<u8>::empty());
    assert(digits_value(Seq::<u8>::empty()) == 0);
    assert(head.last() == d[0]);
    assert(digits_value(head) == digits_value(head.drop_last()) * 10 + head.last() as nat);
    assert(digits_value(head) == d[0] as nat);
    let p = pow10(rest.len());
    let h = d[0] as nat;
    assert(h * p >= p) by (nonlinear_arith)
        requires
            h >= 1,
    ;
}

/// Two digit sequences of one length compare as their first differing digits do.
pub proof fn lemma_value_lex(s: Seq<u8>, t: Seq<u8>, j: int)
    requires
        small_digits(s),
        small_digits(t),
        s.len() == t.len(),
        0 <= j < s.len(),
        s.subrange(0, j) == t.subrange(0, j),
        s[j] < t[j],
    ensures
        digits_value(s) < digits_value(t),
{
    let n = s.len() as int;
    let sa = s.subrange(0, j + 1);
    let sb = s.subrange(j + 1, n);
    let ta = t.subrange(0, j + 1);
    let tb = t.subrange(j + 1, n);
    assert(s =~= sa + sb);
    assert(t =~= ta + tb);
    lemma_value_split(sa, sb);
    lemma_value_split(ta, tb);
    assert(small_digits(sb)) by {
        assert forall|i: int| 0 <= i < sb.len() implies #[trigger] sb[i] < 10 by {
            assert(sb[i] == s[j + 1 + i]);
        }
    }
    lemma_value_bound(sb);
    assert(sa.drop_last() =~= s.subrange(0, j));
    assert(ta.drop_last() =~= t.subrange(0, j));
    let p = pow10(sb.len());
    let vsa = digits_value(sa);
    let vta = digits_value(ta);
    let vsb = digits_value(sb);
    let vtb = digits_value(tb);
    assert(vsa + 1 <= vta);
    assert(vsa * p + vsb < vta * p + vtb) by (nonlinear_arith)
        requires
            vsa + 1 <= vta,
            vsb < p,
    ;
}

// ---- Parsing ----
fn remove_underscores(text: &[char]) -> (r: Vec<char>)
    ensures
        r@ == without_underscores(text@),
{
    let mut out: Vec<char> = Vec::new();
    let mut i: usize = 0;
    assert(text@.subrange(0, 0) =~= Seq::<char>::empty());
    while i < text.len()
        invariant
            i <= text@.len(),
            out@ == without_underscores(text@.subrange(0, i as int)),
        decreases text@.len() - i,
    {
        assert(text@.subrange(0, i + 1).drop_last() =~= text@.subrange(0, i as int));
        if text[i] != '_' {
            out.push(text[i]);
        }
        i = i + 1;
    }
    assert(text@.subrange(0, text@.len() as int) =~= text@);
    out
}

fn lower_equals(s: &[char], word: &[char]) -> (r: bool)
    ensures
        r == lower_is(s@, word@),
{
    if s.len() != word.len() {
        return false;
    }
    let mut i: usize = 0;
    while i < s.len()
        invariant
            s@.len() == word@.len(),
            i <= s@.len(),
            forall|j: int| 0 <= j < i ==> lower_code(#[trigger] s@[j]) == word@[j] as u32,
        decreases s@.len() - i,
    {
        let c = s[i];
        let code: u32 = if 'A' <= c && c <= 'Z' {
            (c as u32) + 32
        } else {
            c as u32
        };
        if code != word[i] as u32 {
            return false;
        }
        i = i + 1;
    }
    true
}

fn all_digits_exec(s: &[char]) -> (r: bool)
    ensures
        r == all_digits(s@),
{
    let mut i: usize = 0;
    while i < s.len()
        invariant
            i <= s@.len(),
            forall|j: int| 0 <= j < i ==> spec_is_ascii_digit(#[trigger] s@[j]),
        decreases s@.len() - i,
    {
        if !('0' <= s[i] && s[i] <= '9') {
            return false;
        }
        i = i + 1;
    }
    true
}

fn digits_of(s: &[char]) -> (r: Vec<u8>)
    requires
        all_digits(s@),
    ensures
        r@ == digit_values(s@),
        small_digits(r@),
{
    let mut out: Vec<u8> = Vec::new();
    let mut i: usize = 0;
    while i < s.len()
        invariant
            all_digits(s@),
            i <= s@.len(),
            out@ == digit_values(s@.subrange(0, i as int)),
            small_digits(out@),
        decreases s@.len() - i,
    {
        assert(spec_is_ascii_digit(s@[i as int]));
        let d = ((s[i] as u32) - ('0' as u32)) as u8;
        out.push(d);
        i = i + 1;
        assert(out@ =~= digit_values(s@.subrange(0, i as int)));
    }
    assert(s@.subrange(0, s@.len() as int) =~= s@);
    out
}

proof fn lemma_prefix_value_increases(d: Seq<u8>, j: int, k: int)
    requires
        0 <= j <= k <= d.len(),
    ensures
        digits_value(d.subrange(0, j)) <= digits_value(d.subrange(0, k)),
    decreases k - j,
{
    if j < k {
        lemma_prefix_value_increases(d, j, k - 1);
        assert(d.subrange(0, k).drop_last() =~= d.subrange(0, k - 1));
    }
}

/// The exponent after an `e`.
fn parse_exponent(s: &[char]) -> (r: Option<i128>)
    ensures
        r matches Some(e) ==> spec_parse_exponent(s@) == Some(e as int) && -(MAX_EXPONENT_TEXT as int)
            <= e <= MAX_EXPONENT_TEXT,
        r is None ==> spec_parse_exponent(s@) is None,
{
    let negative = s.len() > 0 && s[0] == '-';
    let start: usize = if s.len() > 0 && (s[0] == '+' || s[0] == '-') {
        1
    } else {
        0
    };
    let body = crate::text::slice_to_vec_range(s, start, s.len());
    assert(body@ == sign_body(s@));
    if body.len() == 0 || !all_digits_exec(&body) {
        return None;
    }
    let ghost values = digit_values(body@);
    let mut value: u64 = 0;
    let mut i: usize = 0;
    assert(values.subrange(0, 0) =~= Seq::<u8>::empty());
    while i < body.len()
        invariant
            all_digits(body@),
            body@ == sign_body(s@),
            values == digit_values(body@),
            i <= body@.len(),
            value == digits_value(values.subrange(0, i as int)),
            value <= MAX_EXPONENT_TEXT,
            negative == (s@.len() > 0 && s@[0] == '-'),
        decreases body@.len() - i,
    {
        assert(spec_is_ascii_digit(body@[i as int]));
        let d = ((body[i] as u32) - ('0' as u32)) as u64;
        assert(values.subrange(0, i + 1).drop_last() =~= values.subrange(0, i as int));
        assert(values[i as int] == d);
        value = value * 10 + d;
        i = i + 1;
        if value > MAX_EXPONENT_TEXT {
            proof {
                lemma_prefix_value_increases(values, i as int, values.len() as int);
                assert(values.subrange(0, values.len() as int) =~= values);
            }
            return Some(
                if negative {
                    -(MAX_EXPONENT_TEXT as i128)
                } else {
                    MAX_EXPONENT_TEXT as i128
                },
            );
        }
    }
    assert(values.subrange(0, values.len() as int) =~= values);
    let v = value as i128;
    Some(
        if negative {
            -v
        } else {
            v
        },
    )
}

proof fn lemma_first_mark_is(s: Seq<char>, i: int)
    requires
        is_first_mark(s, i),
    ensures
        exponent_mark(s) == Some(i),
{
    let k = choose|k: int| is_first_mark(s, k);
    assert(is_first_mark(s, k));
    if k < i {
        assert(!is_exponent_letter(s[k]));
    }
    if k > i {
        assert(!is_exponent_letter(s[i]));
    }
}

/// The position of the first `e` or `E`.
fn find_exponent_mark(s: &[char]) -> (r: Option<usize>)
    ensures
        r matches Some(i) ==> exponent_mark(s@) == Some(i as int) && i < s@.len(),
        r is None ==> exponent_mark(s@) is None,
{
    let mut i: usize = 0;
    while i < s.len()
        invariant
            i <= s@.len(),
            forall|j: int| 0 <= j < i ==> !is_exponent_letter(#[trigger] s@[j]),
        decreases s@.len() - i,
    {
        if s[i] == 'e' || s[i] == 'E' {
            proof {
                lemma_first_mark_is(s@, i as int);
            }
            return Some(i);
        }
        i = i + 1;
    }
    None
}

/// The digits and exponent of a decimal number's text.
fn parse_decimal(s: &[char]) -> (r: Option<(Vec<u8>, i128)>)
    ensures
        r matches Some((d, e)) ==> spec_parse_decimal(s@) == Some((d@, e as int)) && small_digits(d@)
            && -EXPONENT_BOUND <= e <= EXPONENT_BOUND,
        r is None ==> spec_parse_decimal(s@) is None,
{
    let (mantissa, exponent) = match find_exponent_mark(s) {
        Some(i) => {
            assert(s@.len() == s.len());
            let rest = crate::text::slice_to_vec_range(s, i + 1, s.len());
            (crate::text::slice_to_vec_range(s, 0, i), parse_exponent(&rest))
        },
        None => (crate::text::slice_to_vec_range(s, 0, s.len()), Some(0i128)),
    };
    assert(s@.subrange(0, s@.len() as int) =~= s@);
    assert(mantissa@ == split_mantissa(s@).0);
    let e = match exponent {
        Some(e) => e,
        None => {
            return None;
        },
    };
    let (whole, fraction) = match find(&mantissa, '.') {
        Some(i) => (
            crate::text::slice_to_vec_range(&mantissa, 0, i),
            crate::text::slice_to_vec_range(&mantissa, i + 1, mantissa.len()),
        ),
        None => (crate::text::slice_to_vec_range(&mantissa, 0, mantissa.len()), Vec::new()),
    };
    assert(mantissa@.subrange(0, mantissa@.len() as int) =~= mantissa@);
    assert(whole@ == split_point(mantissa@).0);
    assert(fraction@ =~= split_point(mantissa@).1);
    if whole.len() == 0 && fraction.len() == 0 {
        return None;
    }
    if !all_digits_exec(&whole) || !all_digits_exec(&fraction) {
        return None;
    }
    let mut all = whole;
    let ghost w = all@;
    crate::text::append_chars(&mut all, &fraction);
    assert(all_digits(all@)) by {
        assert forall|i: int| 0 <= i < all@.len() implies spec_is_ascii_digit(#[trigger] all@[i]) by {
            if i < w.len() {
                assert(all@[i] == w[i]);
            } else {
                assert(all@[i] == fraction@[i - w.len()]);
            }
        }
    }
    let digits = digits_of(&all);
    let exponent = e - fraction.len() as i128;
    Some((digits, exponent))
}

/// Reads `text`, without its `_` characters, as `f64::from_str` reads a number.
pub fn parse_number(text: &[char]) -> (r: Option<Number>)
    ensures
        r matches Some(n) ==> spec_parse_number(text@) == Some(n@),
        r is None ==> spec_parse_number(text@) is None,
{
    let t = remove_underscores(text);
    let negative = t.len() > 0 && t[0] == '-';
    let start: usize = if t.len() > 0 && (t[0] == '+' || t[0] == '-') {
        1
    } else {
        0
    };
    let body = crate::text::slice_to_vec_range(&t, start, t.len());
    assert(body@ == sign_body(t@));
    let inf = ['i', 'n', 'f'];
    let infinity = ['i', 'n', 'f', 'i', 'n', 'i', 't', 'y'];
    let nan = ['n', 'a', 'n'];
    assert(inf@ =~= seq!['i', 'n', 'f']);
    assert(infinity@ =~= seq!['i', 'n', 'f', 'i', 'n', 'i', 't', 'y']);
    assert(nan@ =~= seq!['n', 'a', 'n']);
    if lower_equals(&body, &inf) || lower_equals(&body, &infinity) {
        return Some(Number { value: NumberValue::Infinite { negative } });
    }
    if lower_equals(&body, &nan) {
        return Some(Number { value: NumberValue::NotANumber });
    }
    match parse_decimal(&body) {
        Some((digits, exponent)) => Some(
            Number { value: NumberValue::Finite { negative, digits, exponent } },
        ),
        None => None,
    }
}

// ---- Comparison ----
/// The index of the first nonzero digit, or the length where there is none.
fn first_nonzero(d: &Vec<u8>) -> (r: usize)
    ensures
        r <= d@.len(),
        forall|j: int| 0 <= j < r ==> d@[j] == 0,
        r < d@.len() ==> d@[r as int] != 0,
{
    let mut i: usize = 0;
    while i < d.len() && d[i] == 0
        invariant
            i <= d@.len(),
            forall|j: int| 0 <= j < i ==> d@[j] == 0,
        decreases d@.len() - i,
    {
        i = i + 1;
    }
    i
}

proof fn lemma_strip_zeros(d: Seq<u8>, f: int)
    requires
        0 <= f <= d.len(),
        forall|j: int| 0 <= j < f ==> d[j] == 0,
    ensures
        digits_value(d) == digits_value(d.subrange(f, d.len() as int)),
{
    let z = d.subrange(0, f);
    let rest = d.subrange(f, d.len() as int);
    assert(z =~= zeros(f as nat));
    assert(d =~= z + rest);
    lemma_value_split(z, rest);
    lemma_value_zeros(f as nat);
}

/// The digit at position `k` of `d` read from `f` on, and 0 past its end.
pub open spec fn padded_digit(d: Seq<u8>, f: int, k: int) -> u8 {
    if f + k < d.len() {
        d[f + k]
    } else {
        0
    }
}

pub open spec fn padded(d: Seq<u8>, f: int, n: nat) -> Seq<u8> {
    d.subrange(f, d.len() as int) + zeros((n - (d.len() - f)) as nat)
}

proof fn lemma_padded(d: Seq<u8>, f: int, n: nat)
    requires
        0 <= f <= d.len(),
        d.len() - f <= n,
        small_digits(d),
    ensures
        padded(d, f, n).len() == n,
        small_digits(padded(d, f, n)),
        forall|k: int| 0 <= k < n ==> #[trigger] padded(d, f, n)[k] == padded_digit(d, f, k),
        digits_value(padded(d, f, n)) == digits_value(d.subrange(f, d.len() as int)) * pow10(
            (n - (d.len() - f)) as nat,
        ),
{
    let rest = d.subrange(f, d.len() as int);
    let z = zeros((n - (d.len() - f)) as nat);
    lemma_value_split(rest, z);
    lemma_value_zeros((n - (d.len() - f)) as nat);
    let p = padded(d, f, n);
    assert forall|k: int| 0 <= k < n implies #[trigger] p[k] == padded_digit(d, f, k) by {
        if k < rest.len() {
            assert(p[k] == rest[k]);
        } else {
            assert(p[k] == z[k - rest.len()]);
        }
    }
    assert forall|k: int| 0 <= k < p.len() implies #[trigger] p[k] < 10 by {
        assert(p[k] == padded_digit(d, f, k));
    }
}

/// Where the leading digits of two nonzero numbers stand at different powers
/// of ten, the one whose leading digit stands higher is larger.
proof fn lemma_magnitude_by_position(da: Seq<u8>, fa: int, ea: int, db: Seq<u8>, fb: int, eb: int)
    requires
        small_digits(da),
        small_digits(db),
        0 <= fa < da.len(),
        0 <= fb < db.len(),
        da[fa] != 0,
        db[fb] != 0,
        forall|j: int| 0 <= j < fa ==> da[j] == 0,
        forall|j: int| 0 <= j < fb ==> db[j] == 0,
        (da.len() - fa) + ea < (db.len() - fb) + eb,
    ensures
        digits_value(da) * pow10((ea - min_int(ea, eb)) as nat) < digits_value(db) * pow10(
            (eb - min_int(ea, eb)) as nat,
        ),
{
    let u = min_int(ea, eb);
    let sa = da.subrange(fa, da.len() as int);
    let sb = db.subrange(fb, db.len() as int);
    lemma_strip_zeros(da, fa);
    lemma_strip_zeros(db, fb);
    assert(small_digits(sa)) by {
        assert forall|i: int| 0 <= i < sa.len() implies #[trigger] sa[i] < 10 by {
            assert(sa[i] == da[fa + i]);
        }
    }
    assert(small_digits(sb)) by {
        assert forall|i: int| 0 <= i < sb.len() implies #[trigger] sb[i] < 10 by {
            assert(sb[i] == db[fb + i]);
        }
    }
    lemma_value_bound(sa);
    assert(sb[0] == db[fb]);
    lemma_value_leading(sb);
    let la = sa.len() as nat;
    let lb = sb.len() as nat;
    let xa = (ea - u) as nat;
    let xb = (eb - u) as nat;
    let va = digits_value(sa);
    let vb = digits_value(sb);
    // va * 10^xa < 10^la * 10^xa = 10^(la + xa) <= 10^(lb - 1 + xb) = 10^(lb-1) * 10^xb <= vb * 10^xb
    lemma_pow10_adds(la, xa);
    lemma_pow10_adds((lb - 1) as nat, xb);
    lemma_pow10_increases(la + xa, (lb - 1 + xb) as nat);
    lemma_pow10_positive(xa);
    let pa = pow10(xa);
    let pb = pow10(xb);
    let pla = pow10(la);
    let plb = pow10((lb - 1) as nat);
    assert(va * pa < pla * pa) by (nonlinear_arith)
        requires
            va < pla,
            pa >= 1,
    ;
    assert(plb * pb <= vb * pb) by (nonlinear_arith)
        requires
            plb <= vb,
    ;
}

/// Where the leading digits of two nonzero numbers stand at the same power of
/// ten, the values in units of the smaller exponent are those of the digit
/// sequences padded with zeros to one length.
proof fn lemma_magnitude_aligned(da: Seq<u8>, fa: int, ea: int, db: Seq<u8>, fb: int, eb: int, n: nat)
    requires
        small_digits(da),
        small_digits(db),
        0 <= fa <= da.len(),
        0 <= fb <= db.len(),
        forall|j: int| 0 <= j < fa ==> da[j] == 0,
        forall|j: int| 0 <= j < fb ==> db[j] == 0,
        (da.len() - fa) + ea == (db.len() - fb) + eb,
        n == if da.len() - fa >= db.len() - fb {
            da.len() - fa
        } else {
            db.len() - fb
        },
    ensures
        digits_value(da) * pow10((ea - min_int(ea, eb)) as nat) == digits_value(padded(da, fa, n)),
        digits_value(db) * pow10((eb - min_int(ea, eb)) as nat) == digits_value(padded(db, fb, n)),
{
    lemma_strip_zeros(da, fa);
    lemma_strip_zeros(db, fb);
    lemma_padded(da, fa, n);
    lemma_padded(db, fb, n);
}

/// How `|a|` compares with `|b|`, in units of the smaller exponent: -1, 0 or 1.
fn magnitude_order(da: &Vec<u8>, ea: i128, db: &Vec<u8>, eb: i128) -> (r: i8)
    requires
        small_digits(da@),
        small_digits(db@),
        -EXPONENT_BOUND <= ea <= EXPONENT_BOUND,
        -EXPONENT_BOUND <= eb <= EXPONENT_BOUND,
    ensures
        ({
            let u = min_int(ea as int, eb as int);
            let x = digits_value(da@) * pow10((ea - u) as nat);
            let y = digits_value(db@) * pow10((eb - u) as nat);
            (r == -1 && x < y) || (r == 0 && x == y) || (r == 1 && x > y)
        }),
{
    let ghost u = min_int(ea as int, eb as int);
    let fa = first_nonzero(da);
    let fb = first_nonzero(db);
    proof {
        lemma_strip_zeros(da@, fa as int);
        lemma_strip_zeros(db@, fb as int);
        lemma_pow10_positive((ea - u) as nat);
        lemma_pow10_positive((eb - u) as nat);
        if fa == da@.len() {
            assert(da@.subrange(fa as int, da@.len() as int) =~= Seq::<u8>::empty());
        } else {
            let s = da@.subrange(fa as int, da@.len() as int);
            assert(s[0] == da@[fa as int]);
            assert(small_digits(s)) by {
                assert forall|i: int| 0 <= i < s.len() implies #[trigger] s[i] < 10 by {
                    assert(s[i] == da@[fa + i]);
                }
            }
            lemma_value_leading(s);
            lemma_pow10_positive((s.len() - 1) as nat);
        }
        if fb == db@.len() {
            assert(db@.subrange(fb as int, db@.len() as int) =~= Seq::<u8>::empty());
        } else {
            let s = db@.subrange(fb as int, db@.len() as int);
            assert(s[0] == db@[fb as int]);
            assert(small_digits(s)) by {
                assert forall|i: int| 0 <= i < s.len() implies #[trigger] s[i] < 10 by {
                    assert(s[i] == db@[fb + i]);
                }
            }
            lemma_value_leading(s);
            lemma_pow10_positive((s.len() - 1) as nat);
        }
        let x = digits_value(da@);
        let y = digits_value(db@);
        let pa = pow10((ea - u) as nat);
        let pb = pow10((eb - u) as nat);
        assert(x == 0 ==> x * pa == 0) by (nonlinear_arith);
        assert(y == 0 ==> y * pb == 0) by (nonlinear_arith);
        assert(x > 0 ==> x * pa > 0) by (nonlinear_arith)
            requires
                pa >= 1,
        ;
        assert(y > 0 ==> y * pb > 0) by (nonlinear_arith)
            requires
                pb >= 1,
        ;
    }
    let a_zero = fa == da.len();
    let b_zero = fb == db.len();
    if a_zero && b_zero {
        return 0;
    }
    if a_zero {
        return -1;
    }
    if b_zero {
        return 1;
    }
    let la = (da.len() - fa) as i128;
    let lb = (db.len() - fb) as i128;
    let position_a = la + ea;
    let position_b = lb + eb;
    if position_a < position_b {
        proof {
            lemma_magnitude_by_position(da@, fa as int, ea as int, db@, fb as int, eb as int);
        }
        return -1;
    }
    if position_a > position_b {
        proof {
            lemma_magnitude_by_position(db@, fb as int, eb as int, da@, fa as int, ea as int);
        }
        return 1;
    }
    let n: usize = if la >= lb {
        da.len() - fa
    } else {
        db.len() - fb
    };
    proof {
        lemma_magnitude_aligned(da@, fa as int, ea as int, db@, fb as int, eb as int, n as nat);
        lemma_padded(da@, fa as int, n as nat);
        lemma_padded(db@, fb as int, n as nat);
    }
    let ghost pa = padded(da@, fa as int, n as nat);
    let ghost pb = padded(db@, fb as int, n as nat);
    let ghost x = digits_value(da@) * pow10((ea - u) as nat);
    let ghost y = digits_value(db@) * pow10((eb - u) as nat);
    assert(x == digits_value(pa));
    assert(y == digits_value(pb));
    let mut k: usize = 0;
    while k < n
        invariant
            k <= n,
            small_digits(pa),
            small_digits(pb),
            x == digits_value(pa),
            y == digits_value(pb),
            u == min_int(ea as int, eb as int),
            x == digits_value(da@) * pow10((ea - u) as nat),
            y == digits_value(db@) * pow10((eb - u) as nat),
            pa.len() == n,
            pb.len() == n,
            fa <= da@.len(),
            fb <= db@.len(),
            forall|j: int| 0 <= j < n ==> #[trigger] pa[j] == padded_digit(da@, fa as int, j),
            forall|j: int| 0 <= j < n ==> #[trigger] pb[j] == padded_digit(db@, fb as int, j),
            pa.subrange(0, k as int) == pb.subrange(0, k as int),
        decreases n - k,
    {
        let x: u8 = if k < da.len() - fa {
            da[fa + k]
        } else {
            0
        };
        let y: u8 = if k < db.len() - fb {
            db[fb + k]
        } else {
            0
        };
        assert(x == pa[k as int]);
        assert(y == pb[k as int]);
        if x < y {
            proof {
                lemma_value_lex(pa, pb, k as int);
            }
            return -1;
        }
        if x > y {
            proof {
                lemma_value_lex(pb, pa, k as int);
            }
            return 1;
        }
        assert(pa.subrange(0, k + 1) =~= pb.subrange(0, k + 1)) by {
            assert(pa.subrange(0, k + 1) =~= pa.subrange(0, k as int).push(pa[k as int]));
            assert(pb.subrange(0, k + 1) =~= pb.subrange(0, k as int).push(pb[k as int]));
        }
        k = k + 1;
    }
    assert(pa =~= pb) by {
        assert(pa.subrange(0, n as int) =~= pa);
        assert(pb.subrange(0, n as int) =~= pb);
    }
    0
}

/// How `a` compares with `b` for two finite numbers: -1, 0 or 1.
pub(crate) fn finite_order(na: bool, da: &Vec<u8>, ea: i128, nb: bool, db: &Vec<u8>, eb: i128) -> (r: i8)
    requires
        small_digits(da@),
        small_digits(db@),
        -EXPONENT_BOUND <= ea <= EXPONENT_BOUND,
        -EXPONENT_BOUND <= eb <= EXPONENT_BOUND,
    ensures
        ({
            let u = min_int(ea as int, eb as int);
            let x = scaled(na, da@, ea as int, u);
            let y = scaled(nb, db@, eb as int, u);
            (r == -1 && x < y) || (r == 0 && x == y) || (r == 1 && x > y)
        }),
{
    let m = magnitude_order(da, ea, db, eb);
    let zero: Vec<u8> = Vec::new();
    let a_zero = magnitude_order(da, 0, &zero, 0) == 0;
    let b_zero = magnitude_order(db, 0, &zero, 0) == 0;
    proof {
        let u = min_int(ea as int, eb as int);
        assert(digits_value(Seq::<u8>::empty()) == 0);
        assert(pow10(0) == 1);
        let pa = pow10((ea - u) as nat);
        let pb = pow10((eb - u) as nat);
        lemma_pow10_positive((ea - u) as nat);
        lemma_pow10_positive((eb - u) as nat);
        let va = digits_value(da@);
        let vb = digits_value(db@);
        assert(va * 1 == va);
        assert(vb * 1 == vb);
        assert(va == 0 ==> va * pa == 0) by (nonlinear_arith);
        assert(vb == 0 ==> vb * pb == 0) by (nonlinear_arith);
        assert(va > 0 ==> va * pa > 0) by (nonlinear_arith)
            requires
                pa >= 1,
        ;
        assert(vb > 0 ==> vb * pb > 0) by (nonlinear_arith)
            requires
                pb >= 1,
        ;
    }
    if na == nb {
        if na {
            -m
        } else {
            m
        }
    } else if a_zero && b_zero {
        0
    } else if na {
        -1
    } else {
        1
    }
}

/// The double that `n` reads as, by the signed pattern of its bits; none
/// for NaN. Two doubles compare as these integers do.
pub fn double_of(n: &Number) -> (r: Option<i64>)
    ensures
        match r {
            Some(x) => spec_double(n@) == Some(x as int),
            None => spec_double(n@) is None,
        },
{
    proof {
        use_type_invariant(n);
    }
    match &n.value {
        NumberValue::NotANumber => None,
        NumberValue::Infinite { negative } => {
            let k = INFINITE_BITS as i64;
            Some(
                if *negative {
                    -k
                } else {
                    k
                },
            )
        },
        NumberValue::Finite { negative, digits, exponent } => {
            let k = round_to_double(digits, *exponent) as i64;
            Some(
                if *negative {
                    -k
                } else {
                    k
                },
            )
        },
    }
}

} // verus!
