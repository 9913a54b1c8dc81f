//! Rounding a decimal to the nearest double, in integers. The doubles that
//! are not negative are numbered by their bit patterns `0 ..= INFINITE_BITS`:
//! pattern `k` below `INFINITE_BITS` has the significand `significand(k)`
//! and the value `significand(k) * 2^(scale(k) - 1074)`, and `INFINITE_BITS`
//! is infinity. A value rounds to the nearest of them, a tie to the even
//! pattern, as `f64::from_str` reads a decimal. Both sides of each
//! comparison are scaled by `2^1075`, which keeps them integers.
use vstd::prelude::*;
use vstd::arithmetic::power2::{lemma2_to64, lemma_pow2_adds, lemma_pow2_pos, pow2};
use crate::number::{digits_value, finite_order, lemma_value_split, min_int, pow10, scaled, small_digits, EXPONENT_BOUND};

verus! {

/// The bit pattern of infinity, one past the largest finite double.
pub const INFINITE_BITS: u64 = 0x7FF0_0000_0000_0000;

/// `2^52`: the patterns of one binade, and the hidden bit of a normal double.
pub const BINADE: u64 = 0x10_0000_0000_0000;

/// The significand of the double with bit pattern `k`.
pub open spec fn significand(k: nat) -> nat {
    if k / (BINADE as nat) == 0 {
        k % (BINADE as nat)
    } else {
        BINADE as nat + k % (BINADE as nat)
    }
}

/// The power of two of the last bit of pattern `k`'s significand, plus 1074.
pub open spec fn scale(k: nat) -> nat {
    if k / (BINADE as nat) == 0 {
        0
    } else {
        (k / (BINADE as nat) - 1) as nat
    }
}

/// `2^1075` times the midpoint between the doubles `k` and `k + 1`: it is
/// `(2 * significand(k) + 1) * 2^(scale(k) - 1075)` before scaling, as the
/// next double is always `(significand(k) + 1) * 2^(scale(k) - 1074)`.
pub open spec fn boundary(k: nat) -> nat {
    (2 * significand(k) + 1) * pow2(scale(k))
}

/// Whether `x / 2^1075`, where `x * 10^e` is the scaled value, rounds to
/// pattern `k` or below: it lies below the midpoint above `k`, or on it with
/// `k` even. Infinity bounds every value.
pub open spec fn under_boundary(x: nat, e: int, k: nat) -> bool {
    k >= INFINITE_BITS || {
        let u = min_int(e, 0);
        let a = x * pow10((e - u) as nat);
        let b = boundary(k) * pow10((0 - u) as nat);
        a < b || (a == b && k % 2 == 0)
    }
}

/// Whether `v * 10^e` rounds to the double with pattern `k`.
pub open spec fn rounds_to(v: nat, e: int, k: nat) -> bool {
    let x = v * pow2(1075);
    &&& k <= INFINITE_BITS
    &&& under_boundary(x, e, k)
    &&& (k == 0 || !under_boundary(x, e, (k - 1) as nat))
}

/// The pattern of the double nearest to `v * 10^e`.
pub open spec fn spec_round(v: nat, e: int) -> nat {
    choose|k: nat| rounds_to(v, e, k)
}

proof fn lemma_div_mod(k: nat)
    ensures
        k == (k / (BINADE as nat)) * (BINADE as nat) + k % (BINADE as nat),
        k % (BINADE as nat) < BINADE as nat,
{
    vstd::arithmetic::div_mod::lemma_fundamental_div_mod(k as int, BINADE as int);
}

/// The midpoints climb with the pattern.
proof fn lemma_boundary_increases(k: nat)
    requires
        k + 1 < INFINITE_BITS,
    ensures
        boundary(k) < boundary(k + 1),
{
    let n = BINADE as nat;
    let q = k / n;
    let f = k % n;
    lemma_div_mod(k);
    lemma_pow2_pos(scale(k));
    if f + 1 < n {
        vstd::arithmetic::div_mod::lemma_fundamental_div_mod_converse((k + 1) as int, n as int, q as int, (f + 1) as int);
        assert(scale(k + 1) == scale(k));
        assert(significand(k + 1) == significand(k) + 1);
        let p = pow2(scale(k));
        let s = significand(k);
        assert((2 * s + 1) * p < (2 * (s + 1) + 1) * p) by (nonlinear_arith)
            requires
                p > 0,
        ;
    } else {
        vstd::arithmetic::div_mod::lemma_fundamental_div_mod_converse((k + 1) as int, n as int, (q + 1) as int, 0);
        assert(significand(k + 1) == n);
        if q == 0 {
            assert(scale(k) == 0 && scale(k + 1) == 0);
            assert(significand(k) == n - 1);
            assert(pow2(0) == 1) by {
                lemma2_to64();
            }
            assert((2 * (n - 1) + 1) * 1 < (2 * n + 1) * 1);
        } else {
            assert(scale(k + 1) == scale(k) + 1);
            assert(significand(k) == 2 * n - 1);
            let p = pow2(scale(k));
            lemma_pow2_adds(scale(k), 1);
            assert(pow2(1) == 2) by {
                lemma2_to64();
            }
            assert(pow2(scale(k + 1)) == p * 2);
            assert((2 * (2 * n - 1) + 1) * p < (2 * n + 1) * (p * 2)) by (nonlinear_arith)
                requires
                    p > 0,
            ;
        }
    }
}

/// Rounding to a pattern or below carries over to every higher pattern.
proof fn lemma_under_climbs(x: nat, e: int, k: nat, j: nat)
    requires
        under_boundary(x, e, k),
        k <= j,
    ensures
        under_boundary(x, e, j),
    decreases j - k,
{
    if k < j && j < INFINITE_BITS {
        lemma_under_climbs(x, e, k, (j - 1) as nat);
        lemma_boundary_increases((j - 1) as nat);
        let u = min_int(e, 0);
        let t = pow10((0 - u) as nat);
        crate::number::lemma_pow10_positive((0 - u) as nat);
        let b1 = boundary((j - 1) as nat);
        let b2 = boundary(j);
        assert(b1 * t < b2 * t) by (nonlinear_arith)
            requires
                b1 < b2,
                t > 0,
        ;
    }
}

/// A value rounds to one pattern only.
pub proof fn lemma_round_unique(v: nat, e: int, k: nat)
    requires
        rounds_to(v, e, k),
    ensures
        spec_round(v, e) == k,
{
    let c = spec_round(v, e);
    assert(rounds_to(v, e, c));
    let x = v * pow2(1075);
    if c < k {
        lemma_under_climbs(x, e, c, (k - 1) as nat);
    } else if k < c {
        lemma_under_climbs(x, e, k, (c - 1) as nat);
    }
}

/// The decimal digits of `c`.
fn digits_of_u64(c: u64) -> (r: Vec<u8>)
    ensures
        small_digits(r@),
        digits_value(r@) == c,
    decreases c,
{
    if c < 10 {
        let mut r: Vec<u8> = Vec::new();
        r.push(c as u8);
        assert(r@.drop_last() =~= Seq::<u8>::empty());
        assert(digits_value(Seq::<u8>::empty()) == 0);
        assert(r@.last() == c as u8);
        r
    } else {
        let mut r = digits_of_u64(c / 10);
        let ghost before = r@;
        r.push((c % 10) as u8);
        assert(r@.drop_last() =~= before);
        assert(r@.last() == (c % 10) as u8);
        assert(digits_value(r@) == digits_value(before) * 10 + (c % 10));
        r
    }
}

/// `d` times `k`.
fn mul_small(d: &Vec<u8>, k: u64) -> (r: Vec<u8>)
    requires
        small_digits(d@),
        1 <= k <= 0x1_0000_0000,
    ensures
        small_digits(r@),
        digits_value(r@) == digits_value(d@) * k,
{
    let n = d.len();
    let mut out: Vec<u8> = Vec::new();
    let mut j: usize = 0;
    while j < n
        invariant
            j <= n,
            n == d@.len(),
            out@.len() == j,
            forall|i: int| 0 <= i < j ==> #[trigger] out@[i] == 0,
        decreases n - j,
    {
        out.push(0);
        j = j + 1;
    }
    let mut carry: u64 = 0;
    let mut i: usize = n;
    assert(d@.subrange(n as int, n as int) =~= Seq::<u8>::empty());
    assert(out@.subrange(n as int, n as int) =~= Seq::<u8>::empty());
    assert(pow10(0) == 1);
    assert(digits_value(Seq::<u8>::empty()) == 0);
    while i > 0
        invariant
            i <= n,
            n == d@.len(),
            out@.len() == n,
            small_digits(d@),
            small_digits(out@),
            1 <= k <= 0x1_0000_0000,
            carry < k,
            digits_value(d@.subrange(i as int, n as int)) * k == carry * pow10((n - i) as nat) + digits_value(
                out@.subrange(i as int, n as int),
            ),
        decreases i,
    {
        let ghost rest = d@.subrange(i as int, n as int);
        let ghost acc = out@.subrange(i as int, n as int);
        let ghost p = pow10((n - i) as nat);
        let digit = d[i - 1] as u64;
        assert(digit < 10);
        assert(digit * k <= 9 * 0x1_0000_0000) by (nonlinear_arith)
            requires
                digit < 10,
                k <= 0x1_0000_0000,
        ;
        let t = digit * k + carry;
        let low = (t % 10) as u8;
        let ghost old_carry = carry;
        carry = t / 10;
        assert(carry < k) by (nonlinear_arith)
            requires
                carry == t / 10,
                t == digit * k + old_carry,
                digit < 10,
                old_carry < k,
        ;
        out.set(i - 1, low);
        proof {
            let head = seq![d@[i - 1]];
            assert(d@.subrange(i - 1, n as int) =~= head + rest);
            lemma_value_split(head, rest);
            assert(head.drop_last() =~= Seq::<u8>::empty());
            assert(digits_value(Seq::<u8>::empty()) == 0);
            assert(head.last() == d@[i - 1]);
            assert(digits_value(head) == digit);
            let lh = seq![low];
            assert(out@.subrange(i - 1, n as int) =~= lh + acc);
            lemma_value_split(lh, acc);
            assert(lh.drop_last() =~= Seq::<u8>::empty());
            assert(lh.last() == low);
            assert(digits_value(lh) == low as nat);
            assert(rest.len() == n - i);
            assert(acc.len() == n - i);
            assert(pow10((n - (i - 1)) as nat) == 10 * p);
            let vr = digits_value(rest);
            let va = digits_value(acc);
            assert(vr * k == old_carry * p + va);
            assert(t == carry * 10 + low as nat);
            assert((digit * p + vr) * k == carry * (10 * p) + (low as nat * p + va)) by (nonlinear_arith)
                requires
                    vr * k == old_carry * p + va,
                    t == digit * k + old_carry,
                    t == carry * 10 + low as nat,
            ;
            assert forall|m: int| 0 <= m < out@.len() implies #[trigger] out@[m] < 10 by {}
        }
        i = i - 1;
    }
    assert(d@.subrange(0, n as int) =~= d@);
    assert(out@.subrange(0, n as int) =~= out@);
    let mut r = digits_of_u64(carry);
    let ghost high = r@;
    let mut rest = out;
    r.append(&mut rest);
    proof {
        assert(r@ =~= high + out@);
        lemma_value_split(high, out@);
        assert forall|m: int| 0 <= m < r@.len() implies #[trigger] r@[m] < 10 by {
            if m >= high.len() {
                assert(r@[m] == out@[m - high.len()]);
            }
        }
    }
    r
}

/// `d` times `2^p`.
fn mul_pow2(d: &Vec<u8>, p: u64) -> (r: Vec<u8>)
    requires
        small_digits(d@),
    ensures
        small_digits(r@),
        digits_value(r@) == digits_value(d@) * pow2(p as nat),
{
    proof {
        lemma2_to64();
    }
    let mut cur = mul_small(d, 1);
    let mut done: u64 = 0;
    while done < p
        invariant
            done <= p,
            small_digits(cur@),
            digits_value(cur@) == digits_value(d@) * pow2(done as nat),
            pow2(30) == 0x40000000,
            pow2(1) == 2,
        decreases p - done,
    {
        let step: u64 = if p - done >= 30 {
            30
        } else {
            1
        };
        let factor: u64 = if step == 30 {
            0x40000000
        } else {
            2
        };
        let ghost before = digits_value(cur@);
        cur = mul_small(&cur, factor);
        proof {
            lemma_pow2_adds(done as nat, step as nat);
            let a = digits_value(d@);
            let b = pow2(done as nat);
            assert(before * factor == a * (b * factor)) by (nonlinear_arith)
                requires
                    before == a * b,
            ;
        }
        done = done + step;
    }
    cur
}

/// Whether the scaled value `x * 10^e` rounds to pattern `k` or below.
fn under(x: &Vec<u8>, e: i128, k: u64) -> (r: bool)
    requires
        small_digits(x@),
        -EXPONENT_BOUND <= e <= EXPONENT_BOUND,
        k < INFINITE_BITS,
    ensures
        r == under_boundary(digits_value(x@), e as int, k as nat),
{
    let q = k / BINADE;
    let f = k % BINADE;
    let sig: u64 = if q == 0 {
        f
    } else {
        BINADE + f
    };
    let sc: u64 = if q == 0 {
        0
    } else {
        q - 1
    };
    let c = 2 * sig + 1;
    let b = mul_pow2(&digits_of_u64(c), sc);
    assert(digits_value(b@) == boundary(k as nat));
    let o = finite_order(false, x, e, false, &b, 0);
    proof {
        let u = min_int(e as int, 0);
        assert(scaled(false, x@, e as int, u) == digits_value(x@) * pow10((e - u) as nat));
        assert(scaled(false, b@, 0, u) == boundary(k as nat) * pow10((0 - u) as nat));
    }
    o == -1 || (o == 0 && k % 2 == 0)
}

/// The pattern of the double nearest to `d * 10^e`, a tie going to the even
/// pattern, and values past the largest double to infinity.
pub fn round_to_double(d: &Vec<u8>, e: i128) -> (r: u64)
    requires
        small_digits(d@),
        -EXPONENT_BOUND <= e <= EXPONENT_BOUND,
    ensures
        r <= INFINITE_BITS,
        r == spec_round(digits_value(d@), e as int),
{
    let x = mul_pow2(d, 1075);
    let ghost v = digits_value(d@);
    let mut lo: u64 = 0;
    let mut hi: u64 = INFINITE_BITS;
    while lo < hi
        invariant
            lo <= hi <= INFINITE_BITS,
            small_digits(x@),
            -EXPONENT_BOUND <= e <= EXPONENT_BOUND,
            digits_value(x@) == v * pow2(1075),
            under_boundary(v * pow2(1075), e as int, hi as nat),
            lo == 0 || !under_boundary(v * pow2(1075), e as int, (lo - 1) as nat),
        decreases hi - lo,
    {
        let mid = lo + (hi - lo) / 2;
        if under(&x, e, mid) {
            hi = mid;
        } else {
            lo = mid + 1;
        }
    }
    proof {
        assert(rounds_to(v, e as int, hi as nat));
        lemma_round_unique(v, e as int, hi as nat);
    }
    hi
}

} // verus!
