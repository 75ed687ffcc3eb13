//! Binary32 (single-precision) rounding, done exactly with integers: the
//! sprite generators compute positions as `f32` quotients, and the pixel
//! rules follow the rounded values, not the exact fractions.
//!
//! A positive binary32 value below 2^24 and in the normal range is written
//! `m / 2^k`; rounding to nearest picks `k` so that the exact value has 24
//! significant bits before the binary point of `value * 2^k`, and `m` the
//! nearest integer to `value * 2^k`, the even one on a tie. From 2^23 on,
//! binary32 values are integers: in the binade `[2^(23 + s), 2^(24 + s))`
//! they are the multiples of `2^s` (`rounds_large`, `int_to_f32`).
use vstd::arithmetic::power2::{lemma_pow2_adds, lemma_pow2_pos, lemma_pow2_strictly_increases, lemma_pow2_unfold, pow2};
use vstd::prelude::*;

verus! {

/// `m / 2^k` is `p / q` rounded to the nearest binary32 value, ties to even
/// (for `p / q` positive, below 2^24 and in the normal range).
pub open spec fn rounds_to(p: int, q: int, m: int, k: nat) -> bool {
    let n = p * pow2(k);
    &&& 0 < p
    &&& 0 < q
    &&& pow2(23) * q <= n
    &&& n < pow2(24) * q
    &&& 2 * n <= (2 * m + 1) * q
    &&& (2 * m - 1) * q <= 2 * n
    &&& (2 * n == (2 * m + 1) * q || 2 * n == (2 * m - 1) * q) ==> m % 2 == 0
}

/// `p / q` rounded to binary32, as `(m, k)` with value `m / 2^k`; zero is
/// `(0, 0)`.
pub open spec fn rounded(p: int, q: int) -> (int, nat) {
    if p <= 0 || q <= 0 {
        (0, 0)
    } else {
        choose|r: (int, nat)| rounds_to(p, q, r.0, r.1)
    }
}

/// The canonical form of a rounding result: a significand that rounded up
/// to 2^24 is written 2^23 one binade higher.
pub open spec fn canon(r: (int, nat)) -> (int, nat) {
    if r.0 == pow2(24) && r.1 > 0 {
        (pow2(23) as int, (r.1 - 1) as nat)
    } else {
        r
    }
}

/// `p / q` rounded to binary32, in canonical form `(m, k)` with value
/// `m / 2^k` and `2^23 <= m < 2^24`; zero is `(0, 0)`.
pub open spec fn to_f32(p: int, q: int) -> (int, nat) {
    canon(rounded(p, q))
}

/// `a` is zero or has a significand of exactly 24 bits.
pub open spec fn is_canonical(a: (int, nat)) -> bool {
    a == (0int, 0nat) || (pow2(23) <= a.0 < pow2(24))
}

/// `a < b` for values `m / 2^k`.
pub open spec fn fl_lt(a: (int, nat), b: (int, nat)) -> bool {
    a.0 * pow2(b.1) < b.0 * pow2(a.1)
}

/// `a <= b` for values `m / 2^k`.
pub open spec fn fl_le(a: (int, nat), b: (int, nat)) -> bool {
    a.0 * pow2(b.1) <= b.0 * pow2(a.1)
}

/// `a` is at most `2^c`.
pub open spec fn at_most(a: (int, nat), c: nat) -> bool {
    a.0 <= pow2(a.1 + c)
}

/// `|a - b|` in binary32.
pub open spec fn f32_diff(a: (int, nat), b: (int, nat)) -> (int, nat) {
    let x = a.0 * pow2(b.1);
    let y = b.0 * pow2(a.1);
    to_f32(if x >= y { x - y } else { y - x }, pow2(a.1 + b.1) as int)
}

/// `a + b` in binary32.
pub open spec fn f32_sum(a: (int, nat), b: (int, nat)) -> (int, nat) {
    to_f32(a.0 * pow2(b.1) + b.0 * pow2(a.1), pow2(a.1 + b.1) as int)
}

/// `a * b` in binary32.
pub open spec fn f32_product(a: (int, nat), b: (int, nat)) -> (int, nat) {
    to_f32(a.0 * b.0, pow2(a.1 + b.1) as int)
}

/// `a / b` in binary32.
pub open spec fn f32_quotient(a: (int, nat), b: (int, nat)) -> (int, nat) {
    to_f32(a.0 * pow2(b.1), b.0 * pow2(a.1))
}

/// `a` converted to an integer, rounding toward zero.
pub open spec fn f32_trunc(a: (int, nat)) -> int {
    a.0 / (pow2(a.1) as int)
}

proof fn lemma_pow2_double(a: nat, b: nat)
    requires
        a < b,
    ensures
        2 * pow2(a) <= pow2(b),
    decreases b,
{
    lemma_pow2_unfold(b);
    if a + 1 < b {
        lemma_pow2_double(a, (b - 1) as nat);
        lemma_pow2_pos((b - 1) as nat);
        let ghost pb = pow2((b - 1) as nat);
        assert(2 * pow2(a) <= pb);
        assert(pow2(b) == 2 * pb);
    }
}

/// The powers of two the rounding code works with.
proof fn lemma_pow2_values()
    ensures
        pow2(0) == 1,
        pow2(1) == 2,
        pow2(23) == 0x80_0000,
        pow2(24) == 0x100_0000,
        pow2(100) == 0x10_0000_0000_0000_0000_0000_0000,
        pow2(124) == 0x1000_0000_0000_0000_0000_0000_0000_0000,
        pow2(126) == 0x4000_0000_0000_0000_0000_0000_0000_0000,
        pow2(60) == 0x1000_0000_0000_0000,
        pow2(84) == 0x10_0000_0000_0000_0000_0000,
        pow2(20) == 0x10_0000,
        pow2(22) == 0x40_0000,
        pow2(25) == 0x200_0000,
        pow2(120) == 0x100_0000_0000_0000_0000_0000_0000_0000,
{
    vstd::arithmetic::power2::lemma2_to64();
    lemma_pow2_adds(32, 28);
    lemma_pow2_adds(60, 24);
    lemma_pow2_adds(100, 20);
    lemma_pow2_adds(64, 32);
    lemma_pow2_adds(96, 4);
    lemma_pow2_adds(100, 24);
    lemma_pow2_adds(124, 2);
}

/// An exponent whose power of two lies below `2^e` is below `e`.
pub proof fn lemma_exponent_below(k: nat, e: nat)
    requires
        pow2(k) < pow2(e),
    ensures
        k < e,
{
    if k > e {
        lemma_pow2_strictly_increases(e, k);
    }
}

/// Rounding has one result: the exponent is fixed by the value's binade and
/// the significand by the nearest-even rule.
pub proof fn lemma_rounding_unique(p: int, q: int, m1: int, k1: nat, m2: int, k2: nat)
    requires
        rounds_to(p, q, m1, k1),
        rounds_to(p, q, m2, k2),
    ensures
        m1 == m2,
        k1 == k2,
{
    lemma_pow2_unfold(24);
    if k1 != k2 {
        let (lo, hi) = if k1 < k2 { (k1, k2) } else { (k2, k1) };
        lemma_pow2_double(lo, hi);
        let a = pow2(lo);
        let b = pow2(hi);
        let c = pow2(23);
        assert(false) by (nonlinear_arith)
            requires
                2 * a <= b,
                0 < p,
                0 < q,
                c * q <= p * a,
                p * b < (2 * c) * q,
        ;
    }
    let n = p * pow2(k1);
    assert(m1 <= m2 + 1 && m2 <= m1 + 1) by (nonlinear_arith)
        requires
            2 * n <= (2 * m1 + 1) * q,
            (2 * m1 - 1) * q <= 2 * n,
            2 * n <= (2 * m2 + 1) * q,
            (2 * m2 - 1) * q <= 2 * n,
            0 < q,
    ;
    if m2 == m1 + 1 {
        assert(2 * n == (2 * m1 + 1) * q && 2 * n == (2 * m2 - 1) * q) by (nonlinear_arith)
            requires
                2 * n <= (2 * m1 + 1) * q,
                (2 * m2 - 1) * q <= 2 * n,
                m2 == m1 + 1,
        ;
    }
    if m1 == m2 + 1 {
        assert(2 * n == (2 * m2 + 1) * q && 2 * n == (2 * m1 - 1) * q) by (nonlinear_arith)
            requires
                2 * n <= (2 * m2 + 1) * q,
                (2 * m1 - 1) * q <= 2 * n,
                m1 == m2 + 1,
        ;
    }
}

/// A rounding result is what [`to_f32`] gives.
pub proof fn lemma_to_f32(p: int, q: int, m: int, k: nat)
    requires
        rounds_to(p, q, m, k),
    ensures
        rounded(p, q) == (m, k),
        to_f32(p, q) == canon((m, k)),
{
    let w: (int, nat) = (m, k);
    assert(rounds_to(p, q, w.0, w.1));
    let c = choose|r: (int, nat)| rounds_to(p, q, r.0, r.1);
    lemma_rounding_unique(p, q, m, k, c.0, c.1);
}

/// Rounding depends on the value `p / q` only.
pub proof fn lemma_rounds_homogeneous(p: int, q: int, m: int, k: nat, c: int)
    requires
        rounds_to(p, q, m, k),
        0 < c,
    ensures
        rounds_to(c * p, c * q, m, k),
{
    let n = p * pow2(k);
    let b = pow2(k);
    assert((c * p) * b == c * n) by (nonlinear_arith)
        requires
            n == p * b,
    ;
    let a23 = pow2(23);
    let a24 = pow2(24);
    assert(a23 * (c * q) <= c * n && c * n < a24 * (c * q)) by (nonlinear_arith)
        requires
            a23 * q <= n,
            n < a24 * q,
            0 < c,
    ;
    assert(2 * (c * n) <= (2 * m + 1) * (c * q) && (2 * m - 1) * (c * q) <= 2 * (c * n)) by (nonlinear_arith)
        requires
            2 * n <= (2 * m + 1) * q,
            (2 * m - 1) * q <= 2 * n,
            0 < c,
    ;
    assert((2 * (c * n) == (2 * m + 1) * (c * q) ==> 2 * n == (2 * m + 1) * q) && (2 * (c * n) == (2 * m - 1) * (c * q) ==> 2 * n == (2 * m - 1) * q)) by (nonlinear_arith)
        requires
            0 < c,
    ;
    assert(0 < c * p && 0 < c * q) by (nonlinear_arith)
        requires
            0 < c,
            0 < p,
            0 < q,
    ;
}

/// Scaling the value by `2^-t` moves the exponent by `t`.
pub proof fn lemma_rounds_scaled(p: int, q: int, m: int, k: nat, t: nat)
    requires
        rounds_to(p, q, m, k),
    ensures
        rounds_to(p, q * pow2(t), m, k + t),
{
    lemma_pow2_adds(k, t);
    lemma_pow2_pos(t);
    let c = pow2(t) as int;
    lemma_rounds_homogeneous(p, q, m, k, c);
    assert(p * pow2(k + t) == (c * p) * pow2(k)) by (nonlinear_arith)
        requires
            pow2(k + t) == pow2(k) * c,
    ;
    assert(q * pow2(t) == c * q) by (nonlinear_arith)
        requires
            c == pow2(t),
    ;
}

/// A canonical nonzero value rounds to itself.
pub proof fn lemma_canonical_fixed(a: (int, nat))
    requires
        is_canonical(a),
        a.0 > 0,
    ensures
        rounds_to(a.0, pow2(a.1) as int, a.0, a.1),
        to_f32(a.0, pow2(a.1) as int) == a,
{
    lemma_pow2_pos(a.1);
    let b = pow2(a.1) as int;
    assert(a.0 * b >= pow2(23) * b && a.0 * b < pow2(24) * b) by (nonlinear_arith)
        requires
            pow2(23) <= a.0 < pow2(24),
            0 < b,
    ;
    assert(pow2(23) * b == b * pow2(23)) by (nonlinear_arith);
    assert(pow2(24) * b == b * pow2(24)) by (nonlinear_arith);
    assert(a.0 * b == b * a.0) by (nonlinear_arith);
    assert(2 * (a.0 * b) <= (2 * a.0 + 1) * b && (2 * a.0 - 1) * b <= 2 * (a.0 * b)) by (nonlinear_arith)
        requires
            0 < b,
    ;
    assert(2 * (a.0 * b) != (2 * a.0 + 1) * b && 2 * (a.0 * b) != (2 * a.0 - 1) * b) by (nonlinear_arith)
        requires
            0 < b,
    ;
    lemma_to_f32(a.0, b, a.0, a.1);
}

/// `p / q` has a binary32 rounding, and [`rounded`] is it.
pub open spec fn has_rounding(p: int, q: int) -> bool {
    rounds_to(p, q, rounded(p, q).0, rounded(p, q).1)
}

/// Scaling numerator and denominator alike changes no rounding.
pub proof fn lemma_to_f32_homogeneous(p: int, q: int, c: int)
    requires
        has_rounding(p, q),
        0 < c,
    ensures
        has_rounding(c * p, c * q),
        to_f32(c * p, c * q) == to_f32(p, q),
{
    let r = rounded(p, q);
    lemma_rounds_homogeneous(p, q, r.0, r.1, c);
    lemma_to_f32(c * p, c * q, r.0, r.1);
}

/// Dividing by `2^t` moves the rounding's exponent by `t`.
pub proof fn lemma_to_f32_scaled(p: int, q: int, t: nat)
    requires
        has_rounding(p, q),
    ensures
        has_rounding(p, q * pow2(t)),
        rounded(p, q * pow2(t)) == (rounded(p, q).0, rounded(p, q).1 + t),
{
    let r = rounded(p, q);
    lemma_rounds_scaled(p, q, r.0, r.1, t);
    lemma_to_f32(p, q * pow2(t), r.0, r.1 + t);
}

/// A value at most `2^c` rounds to at most `2^c`.
pub proof fn lemma_rounds_at_most(p: int, q: int, m: int, k: nat, c: nat)
    requires
        rounds_to(p, q, m, k),
        p <= pow2(c) * q,
    ensures
        m <= pow2(k + c),
{
    lemma_pow2_adds(k, c);
    lemma_pow2_pos(k);
    let n = p * pow2(k);
    assert(n <= pow2(k + c) * q) by (nonlinear_arith)
        requires
            p <= pow2(c) * q,
            n == p * pow2(k),
            pow2(k + c) == pow2(k) * pow2(c),
            0 < pow2(k),
    ;
    assert(m <= pow2(k + c)) by (nonlinear_arith)
        requires
            (2 * m - 1) * q <= 2 * n,
            n <= pow2(k + c) * q,
            0 < q,
    ;
}

/// A bound `2^c` on a value is also a bound `2^d` for any `d >= c`.
pub proof fn lemma_at_most_mono(a: (int, nat), c: nat, d: nat)
    requires
        at_most(a, c),
        c <= d,
    ensures
        at_most(a, d),
{
    if c < d {
        lemma_pow2_strictly_increases(a.1 + c, a.1 + d);
    }
}

/// A value below 1 is at most 1.
pub proof fn lemma_below_one(a: (int, nat))
    requires
        fl_lt(a, (pow2(23) as int, 23nat)),
    ensures
        at_most(a, 0),
{
    lemma_pow2_pos(23);
    assert(a.0 < pow2(a.1)) by (nonlinear_arith)
        requires
            a.0 * pow2(23) < pow2(23) * pow2(a.1),
            0 < pow2(23),
    ;
}

/// `2^e` for `e` below 127.
pub(crate) fn pow2_u128(e: u32) -> (r: u128)
    requires
        e < 127,
    ensures
        r == pow2(e as nat),
{
    let mut r: u128 = 1;
    let mut i: u32 = 0;
    proof {
        lemma_pow2_values();
    }
    while i < e
        invariant
            i <= e < 127,
            r == pow2(i as nat),
            r <= pow2(126),
        decreases e - i,
    {
        proof {
            lemma_pow2_unfold((i + 1) as nat);
            lemma_pow2_values();
            if i + 1 < 126 {
                lemma_pow2_strictly_increases((i + 1) as nat, 126);
            }
        }
        r = r * 2;
        i = i + 1;
    }
    r
}

/// Rounds `p / q` to binary32 (ties to even), for values below 2^23: the
/// canonical `(m, k)` with value `m / 2^k`; `(0, 0)` when `p` is 0.
pub(crate) fn round_ratio(p: u128, q: u128) -> (r: (u64, u32))
    requires
        0 < q < pow2(100),
        p < pow2(23) * q,
    ensures
        (r.0 as int, r.1 as nat) == to_f32(p as int, q as int),
        is_canonical((r.0 as int, r.1 as nat)),
        r.1 < 124,
        p > 0 ==> pow2(r.1 as nat) < pow2(24) * q,
        p > 0 ==> pow2(23) * q <= (p as int) * pow2((r.1 + 1) as nat),
        p > 0 ==> has_rounding(p as int, q as int),
        p > 0 ==> pow2(23) <= r.0,
        p <= q ==> r.0 <= pow2(r.1 as nat),
{
    if p == 0 {
        return (0, 0);
    }
    proof {
        lemma_pow2_values();
    }
    let lo: u128 = 0x80_0000 * q;
    let hi: u128 = 0x100_0000 * q;
    let mut n: u128 = p;
    let mut k: u32 = 0;
    while n < lo
        invariant
            0 < p,
            0 < q < 0x10_0000_0000_0000_0000_0000_0000,
            lo == 0x80_0000 * q,
            hi == 0x100_0000 * q,
            n == p * pow2(k as nat),
            0 < n < hi,
            pow2(k as nat) <= n,
            k < 124,
        decreases hi - n,
    {
        proof {
            lemma_pow2_unfold((k + 1) as nat);
            assert(p * pow2((k + 1) as nat) == 2 * (p * pow2(k as nat))) by (nonlinear_arith)
                requires
                    pow2((k + 1) as nat) == 2 * pow2(k as nat),
            ;
            if k + 1 >= 124 {
                if k + 1 > 124 {
                    lemma_pow2_strictly_increases(124, (k + 1) as nat);
                }
                lemma_pow2_values();
                assert(2 * lo < 0x1000_0000_0000_0000_0000_0000_0000_0000);
            }
        }
        n = n * 2;
        k = k + 1;
    }
    let quo = n / q;
    let rem = n % q;
    proof {
        vstd::arithmetic::div_mod::lemma_fundamental_div_mod(n as int, q as int);
    }
    assert(n == quo * q + rem && rem < q) by (nonlinear_arith)
        requires
            n as int == (q as int) * ((n as int) / (q as int)) + (n as int) % (q as int),
            quo == n / q,
            rem == n % q,
            0 < q,
    ;
    assert(0x80_0000 <= quo < 0x100_0000) by (nonlinear_arith)
        requires
            n == quo * q + rem,
            0 <= rem < q,
            0x80_0000 * q <= n < 0x100_0000 * q,
    ;
    let up = 2 * rem > q || (2 * rem == q && quo % 2 == 1);
    let m: u128 = if up { quo + 1 } else { quo };
    proof {
        let ni = n as int;
        let qi = q as int;
        let mi = m as int;
        if up {
            assert(2 * ni <= (2 * mi + 1) * qi && (2 * mi - 1) * qi <= 2 * ni) by (nonlinear_arith)
                requires
                    ni == quo * qi + rem,
                    mi == quo + 1,
                    0 <= rem < qi,
                    2 * rem >= qi,
            ;
            assert((2 * ni == (2 * mi + 1) * qi || 2 * ni == (2 * mi - 1) * qi) ==> mi % 2 == 0) by (nonlinear_arith)
                requires
                    ni == quo * qi + rem,
                    mi == quo + 1,
                    0 <= rem < qi,
                    2 * rem > qi || (2 * rem == qi && quo % 2 == 1),
            ;
        } else {
            assert(2 * ni <= (2 * mi + 1) * qi && (2 * mi - 1) * qi <= 2 * ni) by (nonlinear_arith)
                requires
                    ni == quo * qi + rem,
                    mi == quo,
                    0 <= rem < qi,
                    2 * rem <= qi,
            ;
            assert((2 * ni == (2 * mi + 1) * qi || 2 * ni == (2 * mi - 1) * qi) ==> mi % 2 == 0) by (nonlinear_arith)
                requires
                    ni == quo * qi + rem,
                    mi == quo,
                    0 <= rem < qi,
                    !(2 * rem > qi || (2 * rem == qi && quo % 2 == 1)),
                    0 < qi,
            ;
        }
        assert(rounds_to(p as int, q as int, mi, k as nat));
        lemma_to_f32(p as int, q as int, mi, k as nat);
        if p <= q {
            assert(pow2(0) == 1) by {
                lemma_pow2_values();
            }
            assert((p as int) <= pow2(0) * (q as int));
            lemma_rounds_at_most(p as int, q as int, mi, k as nat, 0);
            if mi == 0x100_0000 {
                lemma_pow2_unfold(k as nat);
            }
        }
        assert(pow2(k as nat) <= (p as int) * pow2(k as nat)) by (nonlinear_arith)
            requires
                1 <= p,
                0 < pow2(k as nat),
        ;
        lemma_pow2_unfold((k + 1) as nat);
        assert(k >= 1) by {
            if k == 0 {
                assert(pow2(0) == 1);
                assert(false) by (nonlinear_arith)
                    requires
                        0x80_0000 * q <= p * 1,
                        p < 0x80_0000 * q,
                ;
            }
        }
        if mi == 0x100_0000 {
            lemma_pow2_unfold(k as nat);
            assert((p as int) * pow2(k as nat) <= (p as int) * pow2((k - 1 + 1) as nat));
        } else {
            assert((p as int) * pow2(k as nat) <= (p as int) * pow2((k + 1) as nat)) by (nonlinear_arith)
                requires
                    pow2((k + 1) as nat) == 2 * pow2(k as nat),
                    0 < p,
                    0 < pow2(k as nat),
            ;
        }
    }
    if m == 0x100_0000 {
        (0x80_0000, k - 1)
    } else {
        (m as u64, k)
    }
}


/// A value at most `2^c` rounds to a canonical value at most `2^c`.
pub proof fn lemma_to_f32_at_most(p: int, q: int, c: nat)
    requires
        has_rounding(p, q),
        p <= pow2(c) * q,
        is_canonical(to_f32(p, q)),
    ensures
        at_most(to_f32(p, q), c),
{
    let r = rounded(p, q);
    lemma_rounds_at_most(p, q, r.0, r.1, c);
    if r.0 == pow2(24) && r.1 > 0 {
        lemma_pow2_unfold((r.1 + c) as nat);
        lemma_pow2_unfold(24);
        assert((r.1 - 1 + c) as nat == (r.1 + c - 1) as nat);
    }
}

/// Adding a value more than 2^40 times smaller leaves a binary32 value as
/// it is.
pub proof fn lemma_tiny_addend(m: int, k: nat, e: int, j: nat)
    requires
        pow2(23) <= m < pow2(24),
        0 <= e < pow2(24),
        k + 40 < j,
    ensures
        rounds_to(m * pow2((j - k) as nat) + e, pow2(j) as int, m, k),
{
    let d = (j - k) as nat;
    lemma_pow2_adds(d, k);
    assert(j == d + k);
    lemma_pow2_pos(j);
    lemma_pow2_pos(k);
    lemma_pow2_pos(d);
    lemma_pow2_values();
    lemma_pow2_strictly_increases(25, d);
    let pk = pow2(k);
    let pd = pow2(d);
    let pj = pow2(j);
    let p = m * pd + e;
    assert(p * pk == m * pj + e * pk) by (nonlinear_arith)
        requires
            pj == pd * pk,
            p == m * pd + e,
    ;
    assert(2 * e * pk < pj) by (nonlinear_arith)
        requires
            pj == pd * pk,
            0 <= e < 0x100_0000,
            0x200_0000 < pd,
            0 < pk,
    ;
    assert(0x80_0000 * pj <= m * pj && m * pj + pj <= 0x100_0000 * pj) by (nonlinear_arith)
        requires
            0x80_0000 <= m < 0x100_0000,
            0 < pj,
    ;
    assert(0 < p) by (nonlinear_arith)
        requires
            p == m * pd + e,
            0 < m,
            0 < pd,
            0 <= e,
    ;
    assert(e * pk >= 0) by (nonlinear_arith)
        requires
            0 <= e,
            0 < pk,
    ;
    assert(p * pk < pow2(24) * pj) by (nonlinear_arith)
        requires
            p * pk == m * pj + e * pk,
            2 * e * pk < pj,
            m * pj + pj <= 0x100_0000 * pj,
            pow2(24) == 0x100_0000,
    ;
    assert(pow2(23) * pj <= p * pk) by (nonlinear_arith)
        requires
            p * pk == m * pj + e * pk,
            e * pk >= 0,
            0x80_0000 * pj <= m * pj,
            pow2(23) == 0x80_0000,
    ;
    assert(2 * (m * pj + e * pk) <= (2 * m + 1) * pj) by (nonlinear_arith)
        requires
            2 * e * pk < pj,
    ;
    assert((2 * m - 1) * pj <= 2 * (m * pj + e * pk)) by (nonlinear_arith)
        requires
            e * pk >= 0,
            0 < pj,
    ;
    assert(2 * (m * pj + e * pk) != (2 * m + 1) * pj && 2 * (m * pj + e * pk) != (2 * m - 1) * pj) by (nonlinear_arith)
        requires
            2 * e * pk < pj,
            e * pk >= 0,
            0 < pj,
    ;
}

/// The view of a binary32 value held as `(m, k)`.
pub open spec fn fv(a: (u64, u32)) -> (int, nat) {
    (a.0 as int, a.1 as nat)
}

/// `p / 2^e` rounded to binary32, for values below 2^23.
pub(crate) fn round_dyadic(p: u128, e: u32) -> (r: (u64, u32))
    requires
        p < pow2(120),
        (p as int) < pow2(23) * pow2(e as nat),
        e < 4000,
    ensures
        fv(r) == to_f32(p as int, pow2(e as nat) as int),
        is_canonical(fv(r)),
        p > 0 ==> r.1 < e + 24,
        p == 0 ==> r == (0u64, 0u32),
        p > 0 ==> has_rounding(p as int, pow2(e as nat) as int),
        p <= pow2(e as nat) ==> r.0 <= pow2(r.1 as nat),
{
    proof {
        lemma_pow2_values();
        lemma_pow2_pos(e as nat);
    }
    if e <= 99 {
        proof {
            lemma_pow2_strictly_increases(e as nat, 100);
        }
        let q = pow2_u128(e);
        let r = round_ratio(p, q);
        proof {
            if p > 0 {
                lemma_pow2_adds(24, e as nat);
                lemma_exponent_below(r.1 as nat, (24 + e) as nat);
            }
        }
        r
    } else {
        proof {
            lemma_pow2_strictly_increases(99, 100);
            lemma_pow2_adds(99, 23);
            lemma_pow2_adds(120, 2);
            lemma_pow2_strictly_increases(120, 122);
        }
        let q = pow2_u128(99);
        let r = round_ratio(p, q);
        if r.0 == 0 {
            proof {
                if p > 0 {
                    assert(r.0 >= pow2(23));
                }
                assert(pow2(0) == 1);
            }
            r
        } else {
            let t = e - 99;
            proof {
                lemma_pow2_adds(24, 99);
                lemma_exponent_below(r.1 as nat, 123);
                let rr = rounded(p as int, q as int);
                lemma_to_f32_scaled(p as int, q as int, t as nat);
                lemma_pow2_adds(99, t as nat);
                assert(q * pow2(t as nat) == pow2(e as nat));
                if p <= pow2(e as nat) {
                    lemma_rounds_at_most(p as int, pow2(e as nat) as int, rr.0, rr.1 + t as nat, 0);
                    if rr.0 == pow2(24) {
                        lemma_pow2_unfold((rr.1 + t) as nat);
                        lemma_pow2_unfold(24);
                    }
                }
            }
            (r.0, r.1 + t)
        }
    }
}

/// `a < b` for canonical binary32 values.
pub(crate) fn lt_at(a: (u64, u32), b: (u64, u32)) -> (r: bool)
    requires
        is_canonical(fv(a)),
        is_canonical(fv(b)),
        a.1 < 4000,
        b.1 < 4000,
    ensures
        r == fl_lt(fv(a), fv(b)),
{
    proof {
        lemma_pow2_values();
        lemma_pow2_pos(a.1 as nat);
        lemma_pow2_pos(b.1 as nat);
    }
    if a.0 == 0 {
        proof {
            assert(a.1 == 0);
            assert(fl_lt(fv(a), fv(b)) == (0 < (b.0 as int) * pow2(0)));
        }
        return b.0 != 0;
    }
    if b.0 == 0 {
        proof {
            assert(b.1 == 0);
            assert(fl_lt(fv(a), fv(b)) == ((a.0 as int) * pow2(0) < 0));
        }
        return false;
    }
    if a.1 >= b.1 + 2 {
        proof {
            lemma_pow2_adds(b.1 as nat, (a.1 - b.1) as nat);
            lemma_pow2_double((b.1 + 1) as nat, a.1 as nat);
            lemma_pow2_unfold((b.1 + 1) as nat);
            let pa = pow2(a.1 as nat);
            let pb = pow2(b.1 as nat);
            assert((a.0 as int) * pb < (b.0 as int) * pa) by (nonlinear_arith)
                requires
                    a.0 < 0x100_0000,
                    0x80_0000 <= b.0,
                    4 * pb <= pa,
                    0 < pb,
            ;
        }
        return true;
    }
    if b.1 >= a.1 + 2 {
        proof {
            lemma_pow2_double((a.1 + 1) as nat, b.1 as nat);
            lemma_pow2_unfold((a.1 + 1) as nat);
            let pa = pow2(a.1 as nat);
            let pb = pow2(b.1 as nat);
            assert((b.0 as int) * pa < (a.0 as int) * pb) by (nonlinear_arith)
                requires
                    b.0 < 0x100_0000,
                    0x80_0000 <= a.0,
                    4 * pa <= pb,
                    0 < pa,
            ;
        }
        return false;
    }
    if a.1 >= b.1 {
        let d = a.1 - b.1;
        let f = pow2_u128(d);
        proof {
            lemma_pow2_adds(b.1 as nat, d as nat);
            let pb = pow2(b.1 as nat);
            assert(((a.0 as int) * pb < (b.0 as int) * (pb * f)) == ((a.0 as int) < (b.0 as int) * f)) by (nonlinear_arith)
                requires
                    0 < pb,
            ;
            assert(d <= 1);
            assert(f <= 2) by {
                if d == 1 {
                    lemma_pow2_unfold(1);
                }
            }
        }
        assert((b.0 as u128) * f <= 0x200_0000) by (nonlinear_arith)
            requires
                b.0 < 0x100_0000,
                f <= 2,
        ;
        (a.0 as u128) < (b.0 as u128) * f
    } else {
        let d = b.1 - a.1;
        let f = pow2_u128(d);
        proof {
            lemma_pow2_adds(a.1 as nat, d as nat);
            let pa = pow2(a.1 as nat);
            assert(((a.0 as int) * (pa * f) < (b.0 as int) * pa) == ((a.0 as int) * f < (b.0 as int))) by (nonlinear_arith)
                requires
                    0 < pa,
            ;
            assert(f <= 2) by {
                lemma_pow2_unfold(1);
            }
        }
        assert((a.0 as u128) * f <= 0x200_0000) by (nonlinear_arith)
            requires
                a.0 < 0x100_0000,
                f <= 2,
        ;
        (a.0 as u128) * f < (b.0 as u128)
    }
}


/// The larger of two exponents.
pub open spec fn hi_exp(a: nat, b: nat) -> nat {
    if a >= b { a } else { b }
}

/// The smaller of two exponents.
pub open spec fn lo_exp(a: nat, b: nat) -> nat {
    if a >= b { b } else { a }
}

/// Cross terms over the common denominator `2^(ka + kb)` are the terms over
/// `2^max` scaled by `2^min`.
proof fn lemma_aligned(ma: int, ka: nat, mb: int, kb: nat)
    ensures
        ma * pow2(kb) == (ma * pow2((hi_exp(ka, kb) - ka) as nat)) * pow2(lo_exp(ka, kb)),
        mb * pow2(ka) == (mb * pow2((hi_exp(ka, kb) - kb) as nat)) * pow2(lo_exp(ka, kb)),
        pow2(ka + kb) == pow2(hi_exp(ka, kb)) * pow2(lo_exp(ka, kb)),
{
    let hi = hi_exp(ka, kb);
    let lo = lo_exp(ka, kb);
    lemma_pow2_adds((hi - ka) as nat, lo);
    lemma_pow2_adds((hi - kb) as nat, lo);
    lemma_pow2_adds(hi, lo);
    assert(((hi - ka) as nat + lo) as nat == kb);
    assert(((hi - kb) as nat + lo) as nat == ka);
    assert(ma * pow2(kb) == (ma * pow2((hi - ka) as nat)) * pow2(lo)) by (nonlinear_arith)
        requires
            pow2(kb) == pow2((hi - ka) as nat) * pow2(lo),
    ;
    assert(mb * pow2(ka) == (mb * pow2((hi - kb) as nat)) * pow2(lo)) by (nonlinear_arith)
        requires
            pow2(ka) == pow2((hi - kb) as nat) * pow2(lo),
    ;
}

/// A term aligned to the larger exponent keeps a bound `2^c` on its value.
proof fn lemma_aligned_at_most(m: int, k: nat, f: int, hi: nat, c: nat)
    requires
        0 <= m <= pow2(k + c),
        f * pow2(k) == pow2(hi),
        0 <= f,
    ensures
        m * f <= pow2(hi + c),
{
    lemma_pow2_adds(k, c);
    lemma_pow2_adds(hi, c);
    assert(m * f <= pow2(hi + c)) by (nonlinear_arith)
        requires
            0 <= m <= pow2(k + c),
            pow2(k + c) == pow2(k) * pow2(c),
            pow2(hi + c) == pow2(hi) * pow2(c),
            f * pow2(k) == pow2(hi),
            0 <= f,
    ;
}

/// Taking a value more than 2^40 times smaller from a binary32 value leaves
/// it as it is (for a significand of exactly 2^23 the difference falls just
/// below the binade and rounds back up).
proof fn lemma_diff_of_tiny(big: (int, nat), tiny: (int, nat))
    requires
        is_canonical(big),
        is_canonical(tiny),
        big.0 > 0,
        tiny.0 > 0,
        big.1 + 40 < tiny.1,
    ensures
        f32_diff(big, tiny) == big,
        f32_diff(tiny, big) == big,
{
    let k = big.1;
    let j = tiny.1;
    let d = (j - k) as nat;
    lemma_pow2_values();
    lemma_pow2_adds(d, k);
    lemma_pow2_adds(k, j);
    lemma_pow2_pos(k);
    lemma_pow2_pos(d);
    lemma_pow2_strictly_increases(26, d);
    vstd::arithmetic::power2::lemma2_to64();
    lemma_pow2_unfold(k + 1);
    let kk = pow2(k) as int;
    let dd = pow2(d) as int;
    let jj = pow2(j) as int;
    let m = big.0;
    let e = tiny.0;
    let p = m * dd - e;
    assert(jj == dd * kk);
    assert(p > 0 && 4 * e < dd) by (nonlinear_arith)
        requires
            p == m * dd - e,
            0x80_0000 <= m,
            0 < e < 0x100_0000,
            0x400_0000 < dd,
    ;
    if m > 0x80_0000 {
        assert(rounds_to(p, jj, m, k)) by {
            assert(pow2(23) * jj <= p * kk && p * kk < pow2(24) * jj) by (nonlinear_arith)
                requires
                    p == m * dd - e,
                    0x80_0000 < m < 0x100_0000,
                    0 < e,
                    2 * e < dd,
                    jj == dd * kk,
                    0 < kk,
                    pow2(23) == 0x80_0000,
                    pow2(24) == 0x100_0000,
            ;
            assert(2 * (p * kk) < (2 * m + 1) * jj && (2 * m - 1) * jj < 2 * (p * kk)) by (nonlinear_arith)
                requires
                    p == m * dd - e,
                    0 < e,
                    2 * e < dd,
                    jj == dd * kk,
                    0 < kk,
            ;
        }
        lemma_rounds_homogeneous(p, jj, m, k, kk);
        lemma_to_f32(kk * p, kk * jj, m, k);
    } else {
        let k1 = (k + 1) as nat;
        let m1 = 0x100_0000int;
        assert(rounds_to(p, jj, m1, k1)) by {
            assert(pow2(k1) == 2 * kk);
            assert(pow2(23) * jj <= p * pow2(k1) && p * pow2(k1) < pow2(24) * jj) by (nonlinear_arith)
                requires
                    p == m * dd - e,
                    m == 0x80_0000,
                    0 < e,
                    2 * e < dd,
                    jj == dd * kk,
                    pow2(k1) == 2 * kk,
                    0 < kk,
                    pow2(23) == 0x80_0000,
                    pow2(24) == 0x100_0000,
            ;
            assert(2 * (p * pow2(k1)) < (2 * m1 + 1) * jj && (2 * m1 - 1) * jj < 2 * (p * pow2(k1))) by (nonlinear_arith)
                requires
                    p == m * dd - e,
                    m == 0x80_0000,
                    m1 == 0x100_0000,
                    0 < e,
                    4 * e < dd,
                    jj == dd * kk,
                    pow2(k1) == 2 * kk,
                    0 < kk,
            ;
        }
        lemma_rounds_homogeneous(p, jj, m1, k1, kk);
        lemma_to_f32(kk * p, kk * jj, m1, k1);
    }
    assert(kk * p == m * pow2(j) - e * pow2(k)) by (nonlinear_arith)
        requires
            p == m * dd - e,
            jj == dd * kk,
            jj == pow2(j),
            kk == pow2(k),
    ;
    assert(kk * jj == pow2(k + j)) by (nonlinear_arith)
        requires
            pow2(k + j) == pow2(k) * pow2(j),
            kk == pow2(k),
            jj == pow2(j),
    ;
    assert(j + k == k + j);
}

/// A value at least `2^(t - s)` rounds with an exponent below `s - t + 24`.
proof fn lemma_exponent_from_value(p: int, q: int, t: nat, s: nat)
    requires
        has_rounding(p, q),
        pow2(t) * q <= p * pow2(s),
    ensures
        to_f32(p, q).1 + t < s + 24,
{
    let rr = rounded(p, q);
    let k = rr.1;
    lemma_pow2_pos(k);
    lemma_pow2_pos(s);
    lemma_pow2_adds(t, k);
    lemma_pow2_adds(24, s);
    assert(pow2(t + k) * q < pow2(24 + s) * q) by (nonlinear_arith)
        requires
            pow2(t) * q <= p * pow2(s),
            p * pow2(k) < pow2(24) * q,
            pow2(t + k) == pow2(t) * pow2(k),
            pow2(24 + s) == pow2(24) * pow2(s),
            0 < pow2(k),
            0 < pow2(s),
            0 < q,
    ;
    assert(pow2(t + k) < pow2(24 + s)) by (nonlinear_arith)
        requires
            pow2(t + k) * q < pow2(24 + s) * q,
            0 < q,
    ;
    lemma_exponent_below(t + k, 24 + s);
}

/// `|a - b|` in binary32, for values at most 2^20. When both are nonzero,
/// the result's exponent exceeds the smaller one by less than 26: the
/// difference is at least 2^-25 times the larger value, or exact.
pub(crate) fn diff_at(a: (u64, u32), b: (u64, u32)) -> (r: (u64, u32))
    requires
        is_canonical(fv(a)),
        is_canonical(fv(b)),
        a.1 < 2000,
        b.1 < 2000,
        at_most(fv(a), 20),
        at_most(fv(b), 20),
    ensures
        fv(r) == f32_diff(fv(a), fv(b)),
        is_canonical(fv(r)),
        r.1 < hi_exp(a.1 as nat, b.1 as nat) + 24,
        a.0 > 0 && b.0 > 0 ==> r.1 < lo_exp(a.1 as nat, b.1 as nat) + 26,
        at_most(fv(a), 0) && at_most(fv(b), 0) ==> at_most(fv(r), 0),
        at_most(fv(a), 1) && at_most(fv(b), 1) ==> at_most(fv(r), 1),
{
    proof {
        lemma_pow2_values();
    }
    if a.0 == 0 {
        proof {
            assert(a.1 == 0);
            assert((a.0 as int) * pow2(b.1 as nat) == 0) by (nonlinear_arith)
                requires
                    a.0 == 0,
            ;
            if b.0 > 0 {
                lemma_canonical_fixed(fv(b));
            }
            assert(f32_diff(fv(a), fv(b)) == to_f32(b.0 as int, pow2(b.1 as nat) as int));
        }
        return b;
    }
    if b.0 == 0 {
        proof {
            assert(b.1 == 0);
            assert((b.0 as int) * pow2(a.1 as nat) == 0) by (nonlinear_arith)
                requires
                    b.0 == 0,
            ;
            lemma_canonical_fixed(fv(a));
            assert(f32_diff(fv(a), fv(b)) == to_f32(a.0 as int, pow2(a.1 as nat) as int));
        }
        return a;
    }
    if a.1 > b.1 + 60 {
        proof {
            lemma_diff_of_tiny(fv(b), fv(a));
        }
        return b;
    }
    if b.1 > a.1 + 60 {
        proof {
            lemma_diff_of_tiny(fv(a), fv(b));
        }
        return a;
    }
    let big_k = if a.1 >= b.1 { a.1 } else { b.1 };
    proof {
        if big_k - a.1 < 60 {
            lemma_pow2_strictly_increases((big_k - a.1) as nat, 60);
        }
        if big_k - b.1 < 60 {
            lemma_pow2_strictly_increases((big_k - b.1) as nat, 60);
        }
    }
    let fa = pow2_u128(big_k - a.1);
    let fb = pow2_u128(big_k - b.1);
    assert((a.0 as u128) * fa < 0x10_0000_0000_0000_0000_0000 && (b.0 as u128) * fb < 0x10_0000_0000_0000_0000_0000) by (nonlinear_arith)
        requires
            a.0 < 0x100_0000,
            b.0 < 0x100_0000,
            fa <= 0x1000_0000_0000_0000,
            fb <= 0x1000_0000_0000_0000,
    ;
    let x = (a.0 as u128) * fa;
    let y = (b.0 as u128) * fb;
    let p = if x >= y { x - y } else { y - x };
    let ghost hi = big_k as nat;
    let ghost lo = lo_exp(a.1 as nat, b.1 as nat);
    proof {
        lemma_aligned(a.0 as int, a.1 as nat, b.0 as int, b.1 as nat);
        lemma_pow2_adds((big_k - a.1) as nat, a.1 as nat);
        lemma_pow2_adds((big_k - b.1) as nat, b.1 as nat);
        lemma_aligned_at_most(a.0 as int, a.1 as nat, fa as int, hi, 20);
        lemma_aligned_at_most(b.0 as int, b.1 as nat, fb as int, hi, 20);
        lemma_pow2_adds(hi, 20);
        lemma_pow2_adds(hi, 23);
        lemma_pow2_pos(hi);
        assert(pow2(20) < pow2(23));
        assert((p as int) < pow2(23) * pow2(hi)) by (nonlinear_arith)
            requires
                (p as int) <= pow2(hi + 20),
                pow2(hi + 20) == pow2(hi) * pow2(20),
                pow2(20) < pow2(23),
                0 < pow2(hi),
        ;
        assert(p < pow2(120));
    }
    let r = round_dyadic(p, big_k);
    proof {
        let pl = pow2(lo) as int;
        lemma_pow2_pos(lo);
        let xi = x as int;
        let yi = y as int;
        assert((if xi * pl >= yi * pl { xi * pl - yi * pl } else { yi * pl - xi * pl }) == pl * (p as int)) by (nonlinear_arith)
            requires
                0 < pl,
                (p as int) == if xi >= yi { xi - yi } else { yi - xi },
        ;
        assert(pow2((a.1 + b.1) as nat) == pl * pow2(hi)) by (nonlinear_arith)
            requires
                pow2((a.1 + b.1) as nat) == pow2(hi) * pow2(lo),
                pl == pow2(lo),
        ;
        if p > 0 {
            lemma_to_f32_homogeneous(p as int, pow2(hi) as int, pl);
        } else {
            assert(pl * (p as int) == 0);
        }
        assert(f32_diff(fv(a), fv(b)) == to_f32(pl * (p as int), pl * pow2(hi)));
        if at_most(fv(a), 0) && at_most(fv(b), 0) {
            lemma_aligned_at_most(a.0 as int, a.1 as nat, fa as int, hi, 0);
            lemma_aligned_at_most(b.0 as int, b.1 as nat, fb as int, hi, 0);
        }
        if at_most(fv(a), 1) && at_most(fv(b), 1) && p > 0 {
            lemma_aligned_at_most(a.0 as int, a.1 as nat, fa as int, hi, 1);
            lemma_aligned_at_most(b.0 as int, b.1 as nat, fb as int, hi, 1);
            lemma_pow2_adds(hi, 1);
            assert((p as int) <= pow2(1) * pow2(hi)) by (nonlinear_arith)
                requires
                    (p as int) <= pow2(hi + 1),
                    pow2(hi + 1) == pow2(hi) * pow2(1),
            ;
            lemma_to_f32_at_most(p as int, pow2(hi) as int, 1);
        }
        if hi >= lo + 2 {
            let ghost f = pow2((hi - lo) as nat) as int;
            lemma_pow2_adds((hi - lo) as nat, lo);
            vstd::arithmetic::power2::lemma2_to64();
            if hi - lo > 2 {
                lemma_pow2_strictly_increases(2, (hi - lo) as nat);
            }
            assert(4 <= f);
            lemma_pow2_adds(22, hi);
            assert((hi - lo) as nat + lo == hi);
            if a.1 < b.1 {
                assert(fb == 1);
                assert(x >= y) by (nonlinear_arith)
                    requires
                        x == a.0 * fa,
                        fa == f,
                        0x80_0000 <= a.0,
                        y < 0x100_0000,
                        4 <= f,
                ;
                assert((p as int) * pl >= pow2(22) * pow2(hi)) by (nonlinear_arith)
                    requires
                        x == a.0 * fa,
                        fa == f,
                        pow2(23) <= a.0,
                        y < 0x100_0000,
                        4 <= f,
                        (p as int) == (x as int) - (y as int),
                        pow2(hi) == f * pl,
                        0 < pl,
                        pow2(22) == 0x40_0000,
                        pow2(23) == 0x80_0000,
                ;
            } else {
                assert(fa == 1);
                assert(y > x) by (nonlinear_arith)
                    requires
                        y == b.0 * fb,
                        fb == f,
                        0x80_0000 <= b.0,
                        x < 0x100_0000,
                        4 <= f,
                ;
                assert((p as int) * pl >= pow2(22) * pow2(hi)) by (nonlinear_arith)
                    requires
                        y == b.0 * fb,
                        fb == f,
                        pow2(23) <= b.0,
                        x < 0x100_0000,
                        4 <= f,
                        (p as int) == (y as int) - (x as int),
                        pow2(hi) == f * pl,
                        0 < pl,
                        pow2(22) == 0x40_0000,
                        pow2(23) == 0x80_0000,
                ;
            }
            lemma_exponent_from_value(p as int, pow2(hi) as int, 22, lo);
        }
    }
    r
}


/// A nonzero sum whose smaller term lies more than 2^40 below the larger
/// rounds to the larger term.
proof fn lemma_sum_of_tiny(big: (int, nat), tiny: (int, nat))
    requires
        is_canonical(big),
        is_canonical(tiny),
        big.0 > 0,
        big.1 + 40 < tiny.1,
    ensures
        f32_sum(big, tiny) == big,
        f32_sum(tiny, big) == big,
{
    let d = (tiny.1 - big.1) as nat;
    lemma_pow2_values();
    lemma_tiny_addend(big.0, big.1, tiny.0, tiny.1);
    lemma_pow2_pos(big.1);
    let c = pow2(big.1) as int;
    lemma_rounds_homogeneous(big.0 * pow2(d) + tiny.0, pow2(tiny.1) as int, big.0, big.1, c);
    lemma_pow2_adds(d, big.1);
    lemma_pow2_adds(big.1, tiny.1);
    assert(c * (big.0 * pow2(d) + tiny.0) == big.0 * pow2(tiny.1) + tiny.0 * pow2(big.1)) by (nonlinear_arith)
        requires
            c == pow2(big.1),
            pow2(tiny.1) == pow2(d) * pow2(big.1),
    ;
    assert(c * pow2(tiny.1) == pow2(big.1 + tiny.1)) by (nonlinear_arith)
        requires
            c == pow2(big.1),
            pow2(big.1 + tiny.1) == pow2(big.1) * pow2(tiny.1),
    ;
    lemma_to_f32(big.0 * pow2(tiny.1) + tiny.0 * pow2(big.1), pow2(big.1 + tiny.1) as int, big.0, big.1);
    assert(tiny.1 + big.1 == big.1 + tiny.1);
}

/// `a + b` in binary32, for values at most 2^20.
pub(crate) fn sum_at(a: (u64, u32), b: (u64, u32)) -> (r: (u64, u32))
    requires
        is_canonical(fv(a)),
        is_canonical(fv(b)),
        a.1 < 2000,
        b.1 < 2000,
        at_most(fv(a), 20),
        at_most(fv(b), 20),
    ensures
        fv(r) == f32_sum(fv(a), fv(b)),
        is_canonical(fv(r)),
        r.1 < hi_exp(a.1 as nat, b.1 as nat) + 24,
        at_most(fv(a), 0) && at_most(fv(b), 0) ==> at_most(fv(r), 1),
{
    proof {
        lemma_pow2_values();
        lemma_pow2_unfold((a.1 + 1) as nat);
        lemma_pow2_unfold((b.1 + 1) as nat);
    }
    if a.0 == 0 {
        proof {
            assert(a.1 == 0);
            assert((a.0 as int) * pow2(b.1 as nat) == 0) by (nonlinear_arith)
                requires
                    a.0 == 0,
            ;
            if b.0 > 0 {
                lemma_canonical_fixed(fv(b));
            }
            assert(f32_sum(fv(a), fv(b)) == to_f32(b.0 as int, pow2(b.1 as nat) as int));
        }
        return b;
    }
    if b.0 == 0 {
        proof {
            assert(b.1 == 0);
            assert((b.0 as int) * pow2(a.1 as nat) == 0) by (nonlinear_arith)
                requires
                    b.0 == 0,
            ;
            lemma_canonical_fixed(fv(a));
            assert(f32_sum(fv(a), fv(b)) == to_f32(a.0 as int, pow2(a.1 as nat) as int));
        }
        return a;
    }
    if a.1 > b.1 + 60 {
        proof {
            lemma_sum_of_tiny(fv(b), fv(a));
        }
        return b;
    }
    if b.1 > a.1 + 60 {
        proof {
            lemma_sum_of_tiny(fv(a), fv(b));
        }
        return a;
    }
    let big_k = if a.1 >= b.1 { a.1 } else { b.1 };
    proof {
        if big_k - a.1 < 60 {
            lemma_pow2_strictly_increases((big_k - a.1) as nat, 60);
        }
        if big_k - b.1 < 60 {
            lemma_pow2_strictly_increases((big_k - b.1) as nat, 60);
        }
    }
    let fa = pow2_u128(big_k - a.1);
    let fb = pow2_u128(big_k - b.1);
    assert((a.0 as u128) * fa < 0x10_0000_0000_0000_0000_0000 && (b.0 as u128) * fb < 0x10_0000_0000_0000_0000_0000) by (nonlinear_arith)
        requires
            a.0 < 0x100_0000,
            b.0 < 0x100_0000,
            fa <= 0x1000_0000_0000_0000,
            fb <= 0x1000_0000_0000_0000,
    ;
    let x = (a.0 as u128) * fa;
    let y = (b.0 as u128) * fb;
    let p = x + y;
    let ghost hi = big_k as nat;
    let ghost lo = lo_exp(a.1 as nat, b.1 as nat);
    proof {
        lemma_aligned(a.0 as int, a.1 as nat, b.0 as int, b.1 as nat);
        lemma_pow2_adds((big_k - a.1) as nat, a.1 as nat);
        lemma_pow2_adds((big_k - b.1) as nat, b.1 as nat);
        lemma_aligned_at_most(a.0 as int, a.1 as nat, fa as int, hi, 20);
        lemma_aligned_at_most(b.0 as int, b.1 as nat, fb as int, hi, 20);
        lemma_pow2_adds(hi, 20);
        lemma_pow2_pos(hi);
        assert((p as int) < pow2(23) * pow2(hi)) by (nonlinear_arith)
            requires
                (x as int) <= pow2(hi + 20),
                (y as int) <= pow2(hi + 20),
                p == x + y,
                pow2(hi + 20) == pow2(hi) * 0x10_0000,
                pow2(23) == 0x80_0000,
                0 < pow2(hi),
        ;
        assert(p < pow2(120));
    }
    let r = round_dyadic(p, big_k);
    proof {
        let pl = pow2(lo) as int;
        lemma_pow2_pos(lo);
        let xi = x as int;
        let yi = y as int;
        assert(xi * pl + yi * pl == pl * (p as int)) by (nonlinear_arith)
            requires
                (p as int) == xi + yi,
        ;
        assert(pow2((a.1 + b.1) as nat) == pl * pow2(hi)) by (nonlinear_arith)
            requires
                pow2((a.1 + b.1) as nat) == pow2(hi) * pow2(lo),
                pl == pow2(lo),
        ;
        lemma_pow2_pos((big_k - a.1) as nat);
        assert(p > 0) by (nonlinear_arith)
            requires
                a.0 > 0,
                fa > 0,
                x == a.0 * fa,
                p == x + y,
        ;
        lemma_to_f32_homogeneous(p as int, pow2(hi) as int, pl);
        assert(f32_sum(fv(a), fv(b)) == to_f32(pl * (p as int), pl * pow2(hi)));
        if at_most(fv(a), 0) && at_most(fv(b), 0) {
            lemma_aligned_at_most(a.0 as int, a.1 as nat, fa as int, hi, 0);
            lemma_aligned_at_most(b.0 as int, b.1 as nat, fb as int, hi, 0);
            lemma_pow2_adds(hi, 0);
            lemma_pow2_adds(hi, 1);
            assert((p as int) <= pow2(1) * pow2(hi)) by (nonlinear_arith)
                requires
                    (x as int) <= pow2(hi + 0),
                    (y as int) <= pow2(hi + 0),
                    p == x + y,
                    pow2(hi + 0) == pow2(hi) * pow2(0),
                    pow2(0) == 1,
                    pow2(1) == 2,
            ;
            lemma_to_f32_at_most(p as int, pow2(hi) as int, 1);
        }
    }
    r
}

/// `a <= b` for canonical binary32 values.
pub(crate) fn le_at(a: (u64, u32), b: (u64, u32)) -> (r: bool)
    requires
        is_canonical(fv(a)),
        is_canonical(fv(b)),
        a.1 < 4000,
        b.1 < 4000,
    ensures
        r == fl_le(fv(a), fv(b)),
{
    !lt_at(b, a)
}

/// `a * b` in binary32, for values at most 2^10.
pub(crate) fn product_at(a: (u64, u32), b: (u64, u32)) -> (r: (u64, u32))
    requires
        is_canonical(fv(a)),
        is_canonical(fv(b)),
        a.1 < 2000,
        b.1 < 2000,
        at_most(fv(a), 10),
        at_most(fv(b), 10),
    ensures
        fv(r) == f32_product(fv(a), fv(b)),
        is_canonical(fv(r)),
        r.1 < a.1 + b.1 + 24,
        at_most(fv(r), 20),
        at_most(fv(a), 6) && at_most(fv(b), 0) ==> at_most(fv(r), 6),
{
    proof {
        lemma_pow2_values();
    }
    assert((a.0 as u128) * (b.0 as u128) < 0x1_0000_0000_0000) by (nonlinear_arith)
        requires
            a.0 < 0x100_0000,
            b.0 < 0x100_0000,
    ;
    let p = (a.0 as u128) * (b.0 as u128);
    let e = a.1 + b.1;
    proof {
        let ea = (a.1 + 10) as nat;
        let eb = (b.1 + 10) as nat;
        lemma_pow2_adds(ea, eb);
        lemma_pow2_adds(e as nat, 20);
        assert(((a.1 + 10) + (b.1 + 10)) as nat == (e + 20) as nat);
        assert((p as int) <= pow2(20) * pow2(e as nat)) by (nonlinear_arith)
            requires
                p == a.0 * b.0,
                0 <= a.0 <= pow2(ea),
                0 <= b.0 <= pow2(eb),
                pow2(ea + eb) == pow2(ea) * pow2(eb),
                pow2((e + 20) as nat) == pow2(e as nat) * pow2(20),
                (ea + eb) as nat == (e + 20) as nat,
        ;
        lemma_pow2_pos(e as nat);
        assert((p as int) < pow2(23) * pow2(e as nat)) by (nonlinear_arith)
            requires
                (p as int) <= pow2(20) * pow2(e as nat),
                pow2(20) == 0x10_0000,
                pow2(23) == 0x80_0000,
                0 < pow2(e as nat),
        ;
        assert(p < 0x1_0000_0000_0000) by (nonlinear_arith)
            requires
                p == a.0 * b.0,
                a.0 < 0x100_0000,
                b.0 < 0x100_0000,
        ;
    }
    let r = round_dyadic(p, e);
    proof {
        if p > 0 {
            lemma_to_f32_at_most(p as int, pow2(e as nat) as int, 20);
            if at_most(fv(a), 6) && at_most(fv(b), 0) {
                lemma_pow2_adds((a.1 + 6) as nat, b.1 as nat);
                lemma_pow2_adds(e as nat, 6);
                assert(((a.1 + 6) + b.1) as nat == (e + 6) as nat);
                assert((p as int) <= pow2(6) * pow2(e as nat)) by (nonlinear_arith)
                    requires
                        p == a.0 * b.0,
                        0 <= a.0 <= pow2((a.1 + 6) as nat),
                        0 <= b.0 <= pow2(b.1 as nat),
                        pow2(((a.1 + 6) + b.1) as nat) == pow2((a.1 + 6) as nat) * pow2(b.1 as nat),
                        pow2((e + 6) as nat) == pow2(e as nat) * pow2(6),
                        ((a.1 + 6) + b.1) as nat == (e + 6) as nat,
                ;
                lemma_to_f32_at_most(p as int, pow2(e as nat) as int, 6);
            }
        } else {
            lemma_pow2_pos(20);
            lemma_pow2_pos(6);
        }
    }
    r
}

/// `a / b` in binary32, for `a` at most 2 and `b` nonzero with an exponent
/// below 45, the exponents within 60 of each other.
pub(crate) fn quotient_at(a: (u64, u32), b: (u64, u32)) -> (r: (u64, u32))
    requires
        is_canonical(fv(a)),
        is_canonical(fv(b)),
        b.0 > 0,
        b.1 < 45,
        a.1 <= b.1 + 60,
        at_most(fv(a), 1),
    ensures
        fv(r) == f32_quotient(fv(a), fv(b)),
        is_canonical(fv(r)),
        a.0 > 0 ==> r.1 + b.1 < a.1 + 25,
        a.0 == 0 ==> r == (0u64, 0u32),
{
    proof {
        lemma_pow2_values();
    }
    if a.0 == 0 {
        proof {
            assert((a.0 as int) * pow2(b.1 as nat) == 0) by (nonlinear_arith)
                requires
                    a.0 == 0,
            ;
        }
        return (0, 0);
    }
    let lo = if a.1 <= b.1 { a.1 } else { b.1 };
    let s = b.1 - lo;
    let t = a.1 - lo;
    proof {
        if s < 60 {
            lemma_pow2_strictly_increases(s as nat, 60);
        }
        if t < 60 {
            lemma_pow2_strictly_increases(t as nat, 60);
        }
    }
    let fs = pow2_u128(s);
    let ft = pow2_u128(t);
    assert((a.0 as u128) * fs < 0x10_0000_0000_0000_0000_0000 && (b.0 as u128) * ft < 0x10_0000_0000_0000_0000_0000) by (nonlinear_arith)
        requires
            a.0 < 0x100_0000,
            b.0 < 0x100_0000,
            fs <= 0x1000_0000_0000_0000,
            ft <= 0x1000_0000_0000_0000,
    ;
    let p = (a.0 as u128) * fs;
    let q = (b.0 as u128) * ft;
    proof {
        lemma_pow2_pos(s as nat);
        lemma_pow2_pos(t as nat);
        lemma_pow2_adds((a.1 + 1) as nat, s as nat);
        lemma_pow2_adds(46, t as nat);
        lemma_pow2_adds(23, t as nat);
        lemma_pow2_adds(23, (23 + t) as nat);
        lemma_pow2_strictly_increases((a.1 + 1 + s) as nat, (46 + t) as nat);
        assert((p as int) <= pow2((a.1 + 1 + s) as nat)) by (nonlinear_arith)
            requires
                p == a.0 * fs,
                0 <= a.0 <= pow2((a.1 + 1) as nat),
                fs == pow2(s as nat),
                pow2((a.1 + 1 + s) as nat) == pow2((a.1 + 1) as nat) * pow2(s as nat),
        ;
        assert(pow2(23) * pow2((23 + t) as nat) <= pow2(23) * (q as int)) by (nonlinear_arith)
            requires
                q == b.0 * ft,
                pow2(23) <= b.0,
                ft == pow2(t as nat),
                pow2((23 + t) as nat) == pow2(23) * pow2(t as nat),
                0 < pow2(23),
        ;
        assert(q > 0) by (nonlinear_arith)
            requires
                q == b.0 * ft,
                b.0 > 0,
                ft > 0,
        ;
    }
    let r = round_ratio(p, q);
    proof {
        let c = pow2(lo as nat) as int;
        lemma_pow2_pos(lo as nat);
        lemma_pow2_adds(s as nat, lo as nat);
        lemma_pow2_adds(t as nat, lo as nat);
        assert((s + lo) as nat == b.1 as nat);
        assert((t + lo) as nat == a.1 as nat);
        assert((a.0 as int) * pow2(b.1 as nat) == c * (p as int)) by (nonlinear_arith)
            requires
                p == a.0 * fs,
                fs == pow2(s as nat),
                pow2(b.1 as nat) == pow2(s as nat) * c,
        ;
        assert((b.0 as int) * pow2(a.1 as nat) == c * (q as int)) by (nonlinear_arith)
            requires
                q == b.0 * ft,
                ft == pow2(t as nat),
                pow2(a.1 as nat) == pow2(t as nat) * c,
        ;
        assert(p > 0) by (nonlinear_arith)
            requires
                p == a.0 * fs,
                a.0 > 0,
                fs > 0,
        ;
        lemma_to_f32_homogeneous(p as int, q as int, c);
        let rr = rounded(p as int, q as int);
        let k = rr.1;
        lemma_pow2_pos(k);
        lemma_pow2_adds(s as nat, k);
        lemma_pow2_adds(23, (s + k) as nat);
        lemma_pow2_adds(48, t as nat);
        lemma_pow2_adds(24, t as nat);
        lemma_pow2_adds(24, (24 + t) as nat);
        assert(pow2(23) * pow2((s + k) as nat) <= (p as int) * pow2(k)) by (nonlinear_arith)
            requires
                p == a.0 * fs,
                pow2(23) <= a.0,
                fs == pow2(s as nat),
                pow2((s + k) as nat) == pow2(s as nat) * pow2(k),
                0 < pow2(k),
        ;
        assert(pow2(24) * (q as int) < pow2(24) * pow2((24 + t) as nat)) by (nonlinear_arith)
            requires
                q == b.0 * ft,
                b.0 < pow2(24),
                ft == pow2(t as nat),
                pow2((24 + t) as nat) == pow2(24) * pow2(t as nat),
                0 < ft,
                0 < pow2(24),
        ;
        assert(pow2((23 + (s + k)) as nat) < pow2((48 + t) as nat));
        lemma_exponent_below((23 + (s + k)) as nat, (48 + t) as nat);
    }
    r
}

/// `a` converted to an integer, rounding toward zero.
pub(crate) fn trunc_at(a: (u64, u32)) -> (r: u64)
    requires
        is_canonical(fv(a)),
    ensures
        r == f32_trunc(fv(a)),
{
    proof {
        lemma_pow2_values();
    }
    if a.1 >= 100 {
        proof {
            lemma_pow2_strictly_increases(24, a.1 as nat);
            vstd::arithmetic::div_mod::lemma_basic_div((a.0 as int), pow2(a.1 as nat) as int);
        }
        0
    } else {
        let d = pow2_u128(a.1);
        proof {
            lemma_pow2_pos(a.1 as nat);
        }
        let r = (a.0 as u128) / d;
        assert(r <= a.0) by (nonlinear_arith)
            requires
                r == (a.0 as u128) / d,
                d > 0,
        ;
        r as u64
    }
}

/// `p / q` lies in the binade `[2^(23 + s), 2^(24 + s))`.
pub open spec fn in_binade(p: int, q: int, s: nat) -> bool {
    pow2(23) * pow2(s) * q <= p && p < pow2(24) * pow2(s) * q
}

/// `r` is `p / q` (at least 2^23) rounded to binary32: in its binade
/// `s`, binary32 values are the multiples of `2^s`, and `r` is the nearest
/// one, ties to an even multiple.
pub open spec fn rounds_large(p: int, q: int, r: int) -> bool {
    exists|s: nat, m: int| in_binade(p, q, s) && #[trigger] rounds_to(p, q * pow2(s), m, 0) && r == m * pow2(s)
}

/// `p / q` (at least 2^23) rounded to binary32; its value is an integer.
pub open spec fn rounded_large(p: int, q: int) -> int {
    choose|r: int| rounds_large(p, q, r)
}

/// The integer `n` (at least 0) converted to binary32, as the integer it
/// is: `n` itself below 2^24, the nearest multiple of `2^s` (ties to an
/// even multiple) in the binade `[2^(23 + s), 2^(24 + s))` above.
pub open spec fn int_to_f32(n: int) -> int {
    if n < pow2(24) {
        n
    } else {
        rounded_large(n, 1)
    }
}

/// A large rounding has one result.
proof fn lemma_rounds_large_unique(p: int, q: int, r1: int, r2: int)
    requires
        0 < q,
        rounds_large(p, q, r1),
        rounds_large(p, q, r2),
    ensures
        r1 == r2,
{
    let (s1, m1) = choose|s: nat, m: int| in_binade(p, q, s) && #[trigger] rounds_to(p, q * pow2(s), m, 0) && r1 == m * pow2(s);
    let (s2, m2) = choose|s: nat, m: int| in_binade(p, q, s) && #[trigger] rounds_to(p, q * pow2(s), m, 0) && r2 == m * pow2(s);
    lemma_pow2_pos(s1);
    lemma_pow2_pos(s2);
    lemma_pow2_values();
    if s1 != s2 {
        let (lo, hi) = if s1 < s2 { (s1, s2) } else { (s2, s1) };
        lemma_pow2_double(lo, hi);
        assert(false) by (nonlinear_arith)
            requires
                pow2(23) * pow2(hi) * q <= p,
                p < pow2(24) * pow2(lo) * q,
                2 * pow2(lo) <= pow2(hi),
                pow2(24) == 2 * pow2(23),
                0 < q,
                0 < pow2(23),
        ;
    }
    lemma_pow2_unfold(24);
    lemma_rounding_unique(p, q * pow2(s1), m1, 0, m2, 0);
}

/// What a large rounding result is, with its binade and significand.
proof fn lemma_rounds_large_bounds(p: int, q: int, r: int)
    requires
        rounds_large(p, q, r),
        0 < q,
    ensures
        rounded_large(p, q) == r,
        exists|s: nat, m: int|
            #![trigger in_binade(p, q, s), rounds_to(p, q * pow2(s), m, 0)]
            in_binade(p, q, s) && rounds_to(p, q * pow2(s), m, 0) && r == m * pow2(s) && pow2(23) <= m <= pow2(24),
        r <= 2 * p,
{
    lemma_rounds_large_unique(p, q, r, rounded_large(p, q));
    let (s, m) = choose|s: nat, m: int| in_binade(p, q, s) && #[trigger] rounds_to(p, q * pow2(s), m, 0) && r == m * pow2(s);
    lemma_pow2_pos(s);
    lemma_pow2_values();
    let qs = q * pow2(s);
    assert(pow2(0) == 1);
    assert(pow2(23) <= m <= pow2(24)) by (nonlinear_arith)
        requires
            pow2(23) * qs <= p * 1,
            p * 1 < pow2(24) * qs,
            2 * (p * 1) <= (2 * m + 1) * qs,
            (2 * m - 1) * qs <= 2 * (p * 1),
            0 < qs,
            pow2(23) == 0x80_0000,
            pow2(24) == 0x100_0000,
    ;
    assert(r <= 2 * p) by (nonlinear_arith)
        requires
            r == m * pow2(s),
            m <= 0x100_0000,
            pow2(23) * pow2(s) * q <= p,
            pow2(23) == 0x80_0000,
            1 <= q,
            0 < pow2(s),
    ;
}

/// Rounds `p / q` (at least 2^23) to binary32; the result is an integer.
pub(crate) fn round_large(p: u128, q: u128) -> (r: u128)
    requires
        0 < q,
        pow2(23) * q <= p,
        p < pow2(100),
    ensures
        rounds_large(p as int, q as int, r as int),
        r == rounded_large(p as int, q as int),
        r <= 2 * p,
        r > 0,
{
    proof {
        lemma_pow2_values();
    }
    let mut s: u32 = 0;
    let mut qs: u128 = q;
    while p >= 0x100_0000 * qs
        invariant
            0 < q,
            qs == q * pow2(s as nat),
            0x80_0000 * qs <= p,
            p < 0x10_0000_0000_0000_0000_0000_0000,
            s < 100,
            0 < qs,
            pow2(s as nat) <= qs,
        decreases p - qs,
    {
        assert(2 * qs < 0x10_0000_0000_0000_0000_0000_0000) by (nonlinear_arith)
            requires
                p >= 0x100_0000 * qs,
                p < 0x10_0000_0000_0000_0000_0000_0000,
        ;
        proof {
            lemma_pow2_unfold((s + 1) as nat);
            assert(q * pow2((s + 1) as nat) == 2 * (q * pow2(s as nat))) by (nonlinear_arith)
                requires
                    pow2((s + 1) as nat) == 2 * pow2(s as nat),
            ;
            lemma_pow2_values();
            assert(pow2((s + 1) as nat) < pow2(100));
            lemma_exponent_below((s + 1) as nat, 100);
        }
        qs = qs * 2;
        s = s + 1;
    }
    let quo = p / qs;
    let rem = p % qs;
    proof {
        vstd::arithmetic::div_mod::lemma_fundamental_div_mod(p as int, qs as int);
    }
    assert(p == quo * qs + rem && rem < qs) by (nonlinear_arith)
        requires
            p as int == (qs as int) * ((p as int) / (qs as int)) + (p as int) % (qs as int),
            quo == p / qs,
            rem == p % qs,
            0 < qs,
    ;
    assert(0x80_0000 <= quo < 0x100_0000) by (nonlinear_arith)
        requires
            p == quo * qs + rem,
            0 <= rem < qs,
            0x80_0000 * qs <= p < 0x100_0000 * qs,
    ;
    let up = 2 * rem > qs || (2 * rem == qs && quo % 2 == 1);
    let m: u128 = if up { quo + 1 } else { quo };
    proof {
        let ni = p as int;
        let qi = qs as int;
        let mi = m as int;
        if up {
            assert(2 * ni <= (2 * mi + 1) * qi && (2 * mi - 1) * qi <= 2 * ni) by (nonlinear_arith)
                requires
                    ni == quo * qi + rem,
                    mi == quo + 1,
                    0 <= rem < qi,
                    2 * rem >= qi,
            ;
            assert((2 * ni == (2 * mi + 1) * qi || 2 * ni == (2 * mi - 1) * qi) ==> mi % 2 == 0) by (nonlinear_arith)
                requires
                    ni == quo * qi + rem,
                    mi == quo + 1,
                    0 <= rem < qi,
                    2 * rem > qi || (2 * rem == qi && quo % 2 == 1),
            ;
        } else {
            assert(2 * ni <= (2 * mi + 1) * qi && (2 * mi - 1) * qi <= 2 * ni) by (nonlinear_arith)
                requires
                    ni == quo * qi + rem,
                    mi == quo,
                    0 <= rem < qi,
                    2 * rem <= qi,
            ;
            assert((2 * ni == (2 * mi + 1) * qi || 2 * ni == (2 * mi - 1) * qi) ==> mi % 2 == 0) by (nonlinear_arith)
                requires
                    ni == quo * qi + rem,
                    mi == quo,
                    0 <= rem < qi,
                    !(2 * rem > qi || (2 * rem == qi && quo % 2 == 1)),
                    0 < qi,
            ;
        }
        assert(pow2(0) == 1);
        assert(ni * pow2(0) == ni);
        assert(rounds_to(ni, qi, mi, 0));
        assert(in_binade(p as int, q as int, s as nat)) by (nonlinear_arith)
            requires
                qs == q * pow2(s as nat),
                0x80_0000 * qs <= p,
                p < 0x100_0000 * qs,
                pow2(23) == 0x80_0000,
                pow2(24) == 0x100_0000,
        ;
    }
    proof {
        lemma_pow2_strictly_increases(s as nat, 100);
    }
    let f = pow2_u128(s);
    assert(m * f <= 0x100_0000 * qs) by (nonlinear_arith)
        requires
            m <= 0x100_0000,
            f == pow2(s as nat),
            qs == q * pow2(s as nat),
            1 <= q,
    ;
    let r = m * f;
    proof {
        lemma_pow2_pos(s as nat);
        assert(r > 0) by (nonlinear_arith)
            requires
                r == m * f,
                m >= 0x80_0000,
                f > 0,
        ;
        assert(rounds_to(p as int, (q as int) * pow2(s as nat), m as int, 0));
        assert(rounds_large(p as int, q as int, r as int));
        lemma_rounds_large_bounds(p as int, q as int, r as int);
    }
    r
}

/// Converts a pixel coordinate or side to binary32, as the integer it is.
pub(crate) fn int_at(n: u64) -> (r: u128)
    ensures
        r == int_to_f32(n as int),
        r <= 2 * n,
        n > 0 ==> r > 0,
        n >= pow2(24) ==> rounds_large(n as int, 1, r as int),
{
    proof {
        lemma_pow2_values();
        vstd::arithmetic::power2::lemma2_to64();
    }
    if n < 0x100_0000 {
        n as u128
    } else {
        let r = round_large(n as u128, 1);
        proof {
            lemma_rounds_large_bounds(n as int, 1, r as int);
        }
        r
    }
}

/// Converting integers to binary32 keeps their order.
pub proof fn lemma_int_to_f32_monotone(a: int, b: int, ra: int, rb: int)
    requires
        0 <= a <= b,
        ra == int_to_f32(a),
        rb == int_to_f32(b),
        a >= pow2(24) ==> rounds_large(a, 1, ra),
        b >= pow2(24) ==> rounds_large(b, 1, rb),
    ensures
        ra <= rb,
{
    lemma_pow2_values();
    if b >= pow2(24) {
        lemma_rounds_large_bounds(b, 1, rb);
        let (sb, mb) = choose|s: nat, m: int|
            #![trigger in_binade(b, 1, s), rounds_to(b, 1int * pow2(s), m, 0)]
            in_binade(b, 1, s) && rounds_to(b, 1int * pow2(s), m, 0) && rb == m * pow2(s) && pow2(23) <= m <= pow2(24);
        lemma_pow2_pos(sb);
        if a < pow2(24) {
            if sb == 0 {
                assert(false) by (nonlinear_arith)
                    requires
                        b < pow2(24) * pow2(sb) * 1,
                        pow2(sb) == 1,
                        b >= pow2(24),
                ;
            }
            lemma_pow2_strictly_increases(0, sb);
            assert(pow2(0) == 1);
            assert(ra <= rb) by (nonlinear_arith)
                requires
                    ra == a,
                    a < 0x100_0000,
                    rb == mb * pow2(sb),
                    0x80_0000 <= mb,
                    2 <= pow2(sb),
            ;
        } else {
            lemma_rounds_large_bounds(a, 1, ra);
            let (sa, ma) = choose|s: nat, m: int|
                #![trigger in_binade(a, 1, s), rounds_to(a, 1int * pow2(s), m, 0)]
                in_binade(a, 1, s) && rounds_to(a, 1int * pow2(s), m, 0) && ra == m * pow2(s) && pow2(23) <= m <= pow2(24);
            lemma_pow2_pos(sa);
            if sa == sb {
                let qq = pow2(sa);
                assert(pow2(0) == 1);
                assert(ma <= mb + 1) by (nonlinear_arith)
                    requires
                        (2 * ma - 1) * qq <= 2 * (a * 1),
                        2 * (b * 1) <= (2 * mb + 1) * qq,
                        a <= b,
                        0 < qq,
                ;
                if ma == mb + 1 {
                    assert(2 * (a * 1) == (2 * ma - 1) * qq && 2 * (b * 1) == (2 * mb + 1) * qq) by (nonlinear_arith)
                        requires
                            (2 * ma - 1) * qq <= 2 * (a * 1),
                            2 * (b * 1) <= (2 * mb + 1) * qq,
                            a <= b,
                            ma == mb + 1,
                    ;
                    assert(a * pow2(0) == a * 1);
                    assert(b * pow2(0) == b * 1);
                    assert(ma % 2 == 0);
                    assert(mb % 2 == 0);
                }
                assert(ra <= rb) by (nonlinear_arith)
                    requires
                        ma <= mb,
                        ra == ma * qq,
                        rb == mb * qq,
                        0 < qq,
                ;
            } else if sa < sb {
                lemma_pow2_double(sa, sb);
                assert(ra <= rb) by (nonlinear_arith)
                    requires
                        ra == ma * pow2(sa),
                        rb == mb * pow2(sb),
                        ma <= 0x100_0000,
                        0x80_0000 <= mb,
                        2 * pow2(sa) <= pow2(sb),
                        0 < pow2(sa),
                ;
            } else {
                lemma_pow2_double(sb, sa);
                assert(false) by (nonlinear_arith)
                    requires
                        0x80_0000 * pow2(sa) * 1 <= a,
                        b < 0x100_0000 * pow2(sb) * 1,
                        2 * pow2(sb) <= pow2(sa),
                        a <= b,
                ;
            }
        }
    } else {
        assert(a < pow2(24));
    }
}

/// The nearest integer to `n / q`, ties to even.
proof fn lemma_nearest(n: int, q: int) -> (m: int)
    requires
        0 < q,
        0 <= n,
    ensures
        2 * n <= (2 * m + 1) * q,
        (2 * m - 1) * q <= 2 * n,
        (2 * n == (2 * m + 1) * q || 2 * n == (2 * m - 1) * q) ==> m % 2 == 0,
{
    let quo = n / q;
    let rem = n % q;
    vstd::arithmetic::div_mod::lemma_fundamental_div_mod(n, q);
    assert(n == quo * q + rem) by (nonlinear_arith)
        requires
            n == q * (n / q) + n % q,
            quo == n / q,
            rem == n % q,
    ;
    let up = 2 * rem > q || (2 * rem == q && quo % 2 == 1);
    let m = if up { quo + 1 } else { quo };
    if up {
        assert(2 * n <= (2 * m + 1) * q && (2 * m - 1) * q <= 2 * n) by (nonlinear_arith)
            requires
                n == quo * q + rem,
                m == quo + 1,
                0 <= rem < q,
                2 * rem >= q,
        ;
        assert((2 * n == (2 * m + 1) * q || 2 * n == (2 * m - 1) * q) ==> m % 2 == 0) by (nonlinear_arith)
            requires
                n == quo * q + rem,
                m == quo + 1,
                0 <= rem < q,
                2 * rem > q || (2 * rem == q && quo % 2 == 1),
        ;
    } else {
        assert(2 * n <= (2 * m + 1) * q && (2 * m - 1) * q <= 2 * n) by (nonlinear_arith)
            requires
                n == quo * q + rem,
                m == quo,
                0 <= rem < q,
                2 * rem <= q,
        ;
        assert((2 * n == (2 * m + 1) * q || 2 * n == (2 * m - 1) * q) ==> m % 2 == 0) by (nonlinear_arith)
            requires
                n == quo * q + rem,
                m == quo,
                0 <= rem < q,
                !(2 * rem > q || (2 * rem == q && quo % 2 == 1)),
                0 < q,
        ;
    }
    m
}

/// Doubling a positive value below `2^24 q` reaches `[2^23 q, 2^24 q)`.
proof fn lemma_binade_below(p: int, q: int, k: nat) -> (j: nat)
    requires
        0 < p,
        0 < q,
        p * pow2(k) < pow2(24) * q,
    ensures
        pow2(23) * q <= p * pow2(j) < pow2(24) * q,
    decreases pow2(24) * q - p * pow2(k),
{
    lemma_pow2_values();
    lemma_pow2_pos(k);
    if pow2(23) * q <= p * pow2(k) {
        k
    } else {
        lemma_pow2_unfold(k + 1);
        assert(p * pow2(k + 1) == 2 * (p * pow2(k))) by (nonlinear_arith)
            requires
                pow2(k + 1) == 2 * pow2(k),
        ;
        assert(p * pow2(k) > 0) by (nonlinear_arith)
            requires
                0 < p,
                0 < pow2(k),
        ;
        lemma_binade_below(p, q, k + 1)
    }
}

/// Every positive value below 2^24 has a binary32 rounding, with a
/// significand of at least 2^23.
pub proof fn lemma_rounding_exists(p: int, q: int)
    requires
        0 < p,
        0 < q,
        p < pow2(24) * q,
    ensures
        has_rounding(p, q),
        rounded(p, q).0 >= pow2(23),
{
    lemma_pow2_values();
    let k = lemma_binade_below(p, q, 0);
    let n = p * pow2(k);
    let m = lemma_nearest(n, q);
    assert(rounds_to(p, q, m, k));
    lemma_to_f32(p, q, m, k);
    assert(m >= pow2(23)) by (nonlinear_arith)
        requires
            pow2(23) * q <= n,
            2 * n <= (2 * m + 1) * q,
            0 < q,
    ;
}

/// A value between 0 and `c` (an integer below 2^23) rounds to a canonical
/// binary32 value between 0 and `c`.
pub proof fn lemma_to_f32_bounded(p: int, q: int, c: int)
    requires
        0 <= p <= c * q,
        0 < q,
        1 <= c < pow2(23),
    ensures
        is_canonical(to_f32(p, q)),
        0 <= to_f32(p, q).0 <= c * pow2(to_f32(p, q).1),
{
    lemma_pow2_values();
    if p > 0 {
        assert(p < pow2(24) * q) by (nonlinear_arith)
            requires
                p <= c * q,
                c < pow2(23),
                pow2(24) == 2 * pow2(23),
                0 < q,
        ;
        lemma_rounding_exists(p, q);
        let r = rounded(p, q);
        let k = r.1;
        lemma_pow2_pos(k);
        assert(r.0 <= c * pow2(k)) by (nonlinear_arith)
            requires
                (2 * r.0 - 1) * q <= 2 * (p * pow2(k)),
                p <= c * q,
                0 < q,
                0 < pow2(k),
        ;
        assert(r.0 <= pow2(24)) by (nonlinear_arith)
            requires
                2 * (p * pow2(k)) <= (2 * r.0 + 1) * q,
                (2 * r.0 - 1) * q <= 2 * (p * pow2(k)),
                p * pow2(k) < pow2(24) * q,
                0 < q,
        ;
        if r.0 == pow2(24) {
            assert(k > 0) by (nonlinear_arith)
                requires
                    r.0 == pow2(24),
                    r.0 <= c * pow2(k),
                    c < pow2(23),
                    pow2(24) == 2 * pow2(23),
                    k == 0 ==> pow2(k) == 1,
            ;
            lemma_pow2_unfold(k);
            assert(pow2(23) <= c * pow2((k - 1) as nat)) by (nonlinear_arith)
                requires
                    pow2(24) <= c * pow2(k),
                    pow2(k) == 2 * pow2((k - 1) as nat),
                    pow2(24) == 2 * pow2(23),
            ;
        }
    } else {
        lemma_pow2_pos(0);
    }
}

/// Every integer from 2^24 on has a binary32 rounding.
pub proof fn lemma_rounds_large_exists(n: int)
    requires
        n >= pow2(24),
    ensures
        rounds_large(n, 1, rounded_large(n, 1)),
{
    lemma_pow2_values();
    let s = lemma_binade_above(n, 0);
    lemma_pow2_pos(s);
    let qs: int = 1int * pow2(s);
    let m = lemma_nearest(n, qs);
    assert(n * pow2(0) == n);
    assert(rounds_to(n, qs, m, 0));
    assert(rounds_large(n, 1, m * pow2(s)));
}

/// Halving from a value at least `2^23` reaches the binade `[2^23, 2^24)`.
proof fn lemma_binade_above(n: int, s: nat) -> (t: nat)
    requires
        pow2(23) * pow2(s) <= n,
    ensures
        in_binade(n, 1, t),
    decreases n - pow2(s),
{
    lemma_pow2_values();
    lemma_pow2_pos(s);
    lemma_pow2_unfold(s + 1);
    if n < pow2(24) * pow2(s) * 1 {
        s
    } else {
        assert(pow2(23) * pow2(s + 1) <= n);
        assert(pow2(s) < pow2(s + 1));
        lemma_binade_above(n, s + 1)
    }
}

} // verus!
