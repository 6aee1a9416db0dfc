//! IEEE-754 binary64 arithmetic on bit patterns.
//!
//! A sample's value is kept as the 64 bits of its binary64 encoding. Every finite value is a whole
//! number of units of `2^-1074`, the smallest subnormal, so the exact result of an operation is
//! a ratio of whole numbers and rounding to nearest, ties to even, is a statement about them.
use vstd::prelude::*;

verus! {

/// The bit pattern of positive infinity.
pub const INFINITY: u64 = 0x7ff0_0000_0000_0000;

/// The quiet NaN that operations without a numeric result return.
pub const QUIET_NAN: u64 = 0x7ff8_0000_0000_0000;

/// The sign bit, which is also the bit pattern of negative zero.
pub const SIGN: u64 = 0x8000_0000_0000_0000;

/// `2^52`: the distance between the encodings of neighbouring binades.
pub const TWO_52: u64 = 0x10_0000_0000_0000;

/// `2^53`: one more than the largest significand.
pub const TWO_53: u64 = 0x20_0000_0000_0000;

/// Whether the sign bit of `bits` is set.
pub open spec fn negative(bits: u64) -> bool {
    bits >= SIGN
}

/// `bits` without its sign bit.
pub open spec fn magnitude(bits: u64) -> nat {
    if bits >= SIGN {
        (bits - SIGN) as nat
    } else {
        bits as nat
    }
}

/// Whether `bits` encodes a NaN.
pub open spec fn nan(bits: u64) -> bool {
    magnitude(bits) > INFINITY
}

/// Whether `bits` encodes an infinity.
pub open spec fn infinite(bits: u64) -> bool {
    magnitude(bits) == INFINITY
}

/// The binade of an encoding without its sign: the exponent of its unit in the last place, in
/// units of `2^-1074`.
pub open spec fn exponent(m: nat) -> nat {
    if m < TWO_52 {
        0
    } else {
        (m / TWO_52 as nat - 1) as nat
    }
}

/// The whole significand of an encoding without its sign.
pub open spec fn significand(m: nat) -> nat {
    (m - exponent(m) * TWO_52) as nat
}

/// The value of a finite encoding in units of `2^-1074`, without its sign.
pub open spec fn magnitude_units(m: nat) -> nat {
    significand(m) * vstd::arithmetic::power2::pow2(exponent(m))
}

/// The value of a finite bit pattern in units of `2^-1074`.
pub open spec fn units(bits: u64) -> int {
    if negative(bits) {
        -(magnitude_units(magnitude(bits)) as int)
    } else {
        magnitude_units(magnitude(bits)) as int
    }
}

/// `n / d` rounded to the nearest whole number, ties to the even one.
pub open spec fn half_even(n: nat, d: nat) -> nat {
    let q = n / d;
    let r = n % d;
    if 2 * r < d || (2 * r == d && q % 2 == 0) {
        q
    } else {
        q + 1
    }
}

/// The least `k` for which `n / d < 2^(53 + k)`.
pub open spec fn binade(n: nat, d: nat) -> nat
    decreases n - d,
{
    if d == 0 || n < d * TWO_53 {
        0
    } else {
        1 + binade(n, 2 * d)
    }
}

/// The encoding, without a sign, of the binary64 value nearest to `n / d` units of `2^-1074`.
pub open spec fn nearest(n: nat, d: nat) -> nat {
    let k = binade(n, d);
    let m = k * TWO_52 + half_even(n, d * vstd::arithmetic::power2::pow2(k));
    if m > INFINITY {
        INFINITY as nat
    } else {
        m as nat
    }
}

/// The encoding of the binary64 value nearest to `s / d` units of `2^-1074`, for `s` not zero.
pub open spec fn nearest_signed(s: int, d: nat) -> u64 {
    if s < 0 {
        (SIGN + nearest((-s) as nat, d)) as u64
    } else {
        nearest(s as nat, d) as u64
    }
}

proof fn lemma_half_even_scale(n: nat, d: nat, c: nat)
    requires
        d > 0,
        c > 0,
    ensures
        half_even(n * c, d * c) == half_even(n, d),
{
    let q = (n / d) as int;
    let r = (n % d) as int;
    let (ni, di, ci) = (n as int, d as int, c as int);
    vstd::arithmetic::div_mod::lemma_fundamental_div_mod(ni, di);
    assert(ni * ci == q * (di * ci) + r * ci) by (nonlinear_arith)
        requires
            ni == di * q + r,
    ;
    assert(0 <= r * ci < di * ci) by (nonlinear_arith)
        requires
            0 <= r < di,
            ci > 0,
    ;
    vstd::arithmetic::div_mod::lemma_fundamental_div_mod_converse(ni * ci, di * ci, q, r * ci);
    assert((2 * (r * ci) < di * ci) == (2 * r < di)) by (nonlinear_arith)
        requires
            ci > 0,
    ;
    assert((2 * (r * ci) == di * ci) == (2 * r == di)) by (nonlinear_arith)
        requires
            ci > 0,
    ;
}

proof fn lemma_binade_is(n: nat, d: nat, k: nat)
    requires
        d > 0,
        n < d * vstd::arithmetic::power2::pow2(k) * TWO_53,
        k == 0 || n >= d * vstd::arithmetic::power2::pow2(k) * TWO_52,
    ensures
        binade(n, d) == k,
    decreases k,
{
    vstd::arithmetic::power2::lemma2_to64();
    if k > 0 {
        let p = vstd::arithmetic::power2::pow2(k) as int;
        let h = vstd::arithmetic::power2::pow2((k - 1) as nat) as int;
        vstd::arithmetic::power2::lemma_pow2_unfold(k);
        vstd::arithmetic::power2::lemma_pow2_pos((k - 1) as nat);
        assert(d * p == 2 * d * h) by (nonlinear_arith)
            requires
                p == 2 * h,
        ;
        assert(d * h >= d) by (nonlinear_arith)
            requires
                h >= 1,
                d > 0,
        ;
        assert(n >= d * TWO_53) by (nonlinear_arith)
            requires
                n >= d * p * TWO_52,
                d * p == 2 * d * h,
                d * h >= d,
                TWO_53 == 2 * TWO_52,
        ;
        assert((2 * d) * h == d * p) by (nonlinear_arith)
            requires
                p == 2 * h,
        ;
        lemma_binade_is(n, 2 * d, (k - 1) as nat);
    } else {
        assert(d * 1 == d);
    }
}

/// The encoding, without a sign, of the value nearest to `q * 2^k / n` units.
fn round_ratio(q: u128, k: u32, n: u128) -> (m: u64)
    requires
        0 < q < 0x40_0000_0000_0000_0000_0000_0000_0000,
        k <= 2100,
        0 < n <= u64::MAX,
    ensures
        m == nearest((q * vstd::arithmetic::power2::pow2(k as nat)) as nat, n as nat),
{
    let mut num: u128 = q;
    let mut den: u128 = n;
    let mut e: u32 = k;
    let two_53: u128 = 0x20_0000_0000_0000;
    let ghost total: int = q * vstd::arithmetic::power2::pow2(k as nat);
    let ghost mut c: int = vstd::arithmetic::power2::pow2(k as nat) as int;
    proof {
        vstd::arithmetic::power2::lemma_pow2_pos(k as nat);
    }
    while e > 0 && num * 2 < den * two_53
        invariant
            0 < num < 0x40_0000_0000_0000_0000_0000_0000_0000,
            0 < den <= u64::MAX,
            den == n,
            e <= k,
            two_53 == TWO_53,
            c == vstd::arithmetic::power2::pow2(e as nat),
            total == num * c,
        decreases e,
    {
        proof {
            vstd::arithmetic::power2::lemma_pow2_unfold(e as nat);
            let h = vstd::arithmetic::power2::pow2((e - 1) as nat) as int;
            assert(num * c == (2 * num) * h) by (nonlinear_arith)
                requires
                    c == 2 * h,
            ;
            c = h;
        }
        num = num * 2;
        e = e - 1;
    }
    proof {
        vstd::arithmetic::power2::lemma_pow2_pos(e as nat);
    }
    let ghost e0: int = e as int;
    proof {
        vstd::arithmetic::power2::lemma2_to64();
    }
    while num >= den * two_53
        invariant
            0 < num < 0x40_0000_0000_0000_0000_0000_0000_0000,
            0 < den < 0x40_0000_0000_0000_0000,
            e0 <= e < e0 + 70,
            e0 <= 2100,
            den >= vstd::arithmetic::power2::pow2((e - e0) as nat),
            two_53 == TWO_53,
            c > 0,
            total == num * c,
            n * vstd::arithmetic::power2::pow2(e as nat) == den * c,
            e == 0 || num * 2 >= den * two_53,
        decreases num - den,
    {
        proof {
            vstd::arithmetic::power2::lemma_pow2_unfold((e + 1) as nat);
            let p = vstd::arithmetic::power2::pow2(e as nat) as int;
            assert(n * (2 * p) == (2 * den) * c) by (nonlinear_arith)
                requires
                    n * p == den * c,
            ;
        }
        proof {
            vstd::arithmetic::power2::lemma_pow2_unfold((e + 1 - e0) as nat);
            vstd::arithmetic::power2::lemma2_to64();
            vstd::arithmetic::power2::lemma2_to64_rest();
            assert(den * TWO_53 <= num);
            assert(den < 0x2_0000_0000_0000_0000);
            if e + 1 - e0 >= 66 {
                vstd::arithmetic::power2::lemma_pow2_adds(64, 2);
                if e + 1 - e0 > 66 {
                    vstd::arithmetic::power2::lemma_pow2_strictly_increases(66, (e + 1 - e0) as nat);
                }
            }
        }
        den = den * 2;
        e = e + 1;
    }
    proof {
        let p = vstd::arithmetic::power2::pow2(e as nat) as int;
        assert(num * c < den * c * TWO_53) by (nonlinear_arith)
            requires
                num < den * TWO_53,
                c > 0,
        ;
        if e > 0 {
            assert(num * c >= den * c * TWO_52) by (nonlinear_arith)
                requires
                    num * 2 >= den * TWO_53,
                    TWO_53 == 2 * TWO_52,
                    c > 0,
            ;
        }
        lemma_binade_is(total as nat, n as nat, e as nat);
        lemma_half_even_scale(num as nat, den as nat, c as nat);
    }
    let quotient: u128 = num / den;
    let remainder: u128 = num % den;
    let rounded: u128 = if 2 * remainder < den || (2 * remainder == den && quotient % 2 == 0) {
        quotient
    } else {
        quotient + 1
    };
    let m: u128 = (e as u128) * 0x10_0000_0000_0000 + rounded;
    if m > INFINITY as u128 {
        INFINITY
    } else {
        m as u64
    }
}


/// A number that orders like the values: both zeros give 0, a larger value a larger number.
pub open spec fn order(bits: u64) -> int {
    if negative(bits) {
        -(magnitude(bits) as int)
    } else {
        magnitude(bits) as int
    }
}

/// The IEEE-754 comparison `a < b`, which is false where either is a NaN.
pub open spec fn less(a: u64, b: u64) -> bool {
    !nan(a) && !nan(b) && order(a) < order(b)
}

/// Whether `a < b`.
pub fn float_less(a: u64, b: u64) -> (r: bool)
    ensures
        r == less(a, b),
{
    let ma: u64 = if a >= SIGN { a - SIGN } else { a };
    let mb: u64 = if b >= SIGN { b - SIGN } else { b };
    if ma > INFINITY || mb > INFINITY {
        false
    } else if a >= SIGN {
        if b >= SIGN {
            mb < ma
        } else {
            ma > 0 || mb > 0
        }
    } else {
        b < SIGN && ma < mb
    }
}

/// Whether `bits` encodes a NaN.
pub fn float_is_nan(bits: u64) -> (r: bool)
    ensures
        r == nan(bits),
{
    let m: u64 = if bits >= SIGN { bits - SIGN } else { bits };
    m > INFINITY
}

/// The smaller of two values: the first where they are equal, the other where one is a NaN.
pub open spec fn min_of(a: u64, b: u64) -> u64 {
    if nan(a) || less(b, a) {
        b
    } else {
        a
    }
}

/// The larger of two values: the first where they are equal, the other where one is a NaN.
pub open spec fn max_of(a: u64, b: u64) -> u64 {
    if nan(a) || less(a, b) {
        b
    } else {
        a
    }
}

/// The smaller of `a` and `b`.
pub fn float_min(a: u64, b: u64) -> (r: u64)
    ensures
        r == min_of(a, b),
{
    if float_is_nan(a) || float_less(b, a) {
        b
    } else {
        a
    }
}

/// The larger of `a` and `b`.
pub fn float_max(a: u64, b: u64) -> (r: u64)
    ensures
        r == max_of(a, b),
{
    if float_is_nan(a) || float_less(a, b) {
        b
    } else {
        a
    }
}

/// The IEEE-754 sum of two values, rounded to nearest, ties to even.
pub open spec fn sum_of(a: u64, b: u64) -> u64 {
    if nan(a) || nan(b) {
        QUIET_NAN
    } else if infinite(a) {
        if infinite(b) && negative(a) != negative(b) {
            QUIET_NAN
        } else {
            a
        }
    } else if infinite(b) {
        b
    } else if units(a) + units(b) == 0 {
        if negative(a) && negative(b) {
            SIGN
        } else {
            0
        }
    } else {
        nearest_signed(units(a) + units(b), 1)
    }
}

/// The binary64 value nearest to the whole number `n`.
pub open spec fn of_int(n: int) -> u64 {
    if n == 0 {
        0
    } else {
        nearest_signed(n * vstd::arithmetic::power2::pow2(1074), 1)
    }
}

/// The value `total` divided by the whole number `count`, rounded to nearest, ties to even.
pub open spec fn quotient_of(total: u64, count: nat) -> u64 {
    if nan(total) || count == 0 {
        QUIET_NAN
    } else if infinite(total) || units(total) == 0 {
        total
    } else {
        nearest_signed(units(total), count)
    }
}

/// The exponent and the significand of a finite encoding without its sign.
fn split(m: u64) -> (parts: (u32, u64))
    requires
        m < INFINITY,
    ensures
        parts.0 == exponent(m as nat),
        parts.1 == significand(m as nat),
        parts.0 <= 2045,
        parts.1 < TWO_53,
        parts.0 > 0 ==> parts.1 >= TWO_52,
{
    if m < TWO_52 {
        (0, m)
    } else {
        let e: u64 = m / 0x10_0000_0000_0000 - 1;
        (e as u32, m - e * 0x10_0000_0000_0000)
    }
}

/// The value nearest to `q * 2^k / n` units, with the given sign.
fn round_signed(below_zero: bool, q: u128, k: u32, n: u128) -> (r: u64)
    requires
        0 < q < 0x40_0000_0000_0000_0000_0000_0000_0000,
        k <= 2100,
        0 < n <= u64::MAX,
    ensures
        below_zero ==> r == nearest_signed(-(q * vstd::arithmetic::power2::pow2(k as nat)), n as nat),
        !below_zero ==> r == nearest_signed(q * vstd::arithmetic::power2::pow2(k as nat), n as nat),
{
    proof {
        let p = vstd::arithmetic::power2::pow2(k as nat) as int;
        vstd::arithmetic::power2::lemma_pow2_pos(k as nat);
        assert(q * p > 0) by (nonlinear_arith)
            requires
                q > 0,
                p > 0,
        ;
    }
    let m: u64 = round_ratio(q, k, n);
    if below_zero {
        m + SIGN
    } else {
        m
    }
}

/// The binary64 value nearest to `n`.
pub fn float_of_count(n: u64) -> (r: u64)
    ensures
        r == of_int(n as int),
{
    if n == 0 {
        0
    } else {
        round_signed(false, n as u128, 1074, 1)
    }
}

/// `total` divided by `count`.
pub fn float_quotient(total: u64, count: u64) -> (r: u64)
    ensures
        r == quotient_of(total, count as nat),
{
    let below_zero: bool = total >= SIGN;
    let m: u64 = if below_zero { total - SIGN } else { total };
    if m > INFINITY || count == 0 {
        return QUIET_NAN;
    }
    if m == INFINITY {
        return total;
    }
    let (k, q) = split(m);
    proof {
        let p = vstd::arithmetic::power2::pow2(k as nat) as int;
        vstd::arithmetic::power2::lemma_pow2_pos(k as nat);
        assert((q * p == 0) == (q == 0)) by (nonlinear_arith)
            requires
                q >= 0,
                p > 0,
        ;
    }
    if q == 0 {
        return total;
    }
    round_signed(below_zero, q as u128, k, count as u128)
}


/// A value many binades below another does not move it: the sum or difference rounds back.
proof fn lemma_dominant(q: nat, k: nat, y: nat, n: nat)
    requires
        TWO_52 <= q < TWO_53,
        65 <= k <= 2045,
        4 * y < vstd::arithmetic::power2::pow2(k),
        n == q * vstd::arithmetic::power2::pow2(k) + y || n == q * vstd::arithmetic::power2::pow2(k) - y,
    ensures
        nearest(n, 1) == k * TWO_52 + q,
{
    let p = vstd::arithmetic::power2::pow2(k) as int;
    let h = vstd::arithmetic::power2::pow2((k - 1) as nat) as int;
    vstd::arithmetic::power2::lemma_pow2_unfold(k);
    vstd::arithmetic::power2::lemma_pow2_pos((k - 1) as nat);
    assert(1 * vstd::arithmetic::power2::pow2(k) == p);
    assert(1 * vstd::arithmetic::power2::pow2((k - 1) as nat) == h);
    assert(q * p <= (TWO_53 - 1) * p) by (nonlinear_arith)
        requires
            q <= TWO_53 - 1,
            p > 0,
    ;
    assert(q * p >= TWO_52 * p) by (nonlinear_arith)
        requires
            q >= TWO_52,
            p > 0,
    ;
    assert(k * TWO_52 + q <= INFINITY);
    if n == q * p + y {
        lemma_binade_is(n, 1, k);
        vstd::arithmetic::div_mod::lemma_fundamental_div_mod_converse(n as int, p, q as int, y as int);
    } else if q > TWO_52 {
        assert(q * p >= TWO_52 * p + p) by (nonlinear_arith)
            requires
                q >= TWO_52 + 1,
                p > 0,
        ;
        lemma_binade_is(n, 1, k);
        assert(n == (q - 1) * p + (p - y)) by (nonlinear_arith)
            requires
                n == q * p - y,
        ;
        vstd::arithmetic::div_mod::lemma_fundamental_div_mod_converse(n as int, p, q - 1, p - y);
    } else {
        lemma_binade_is(n, 1, (k - 1) as nat);
        assert(n == (TWO_53 - 1) * h + (h - y));
        vstd::arithmetic::div_mod::lemma_fundamental_div_mod_converse(n as int, h, TWO_53 - 1, h - y);
    }
}

/// Whether `k` and `q` are the exponent and the significand of a finite value.
spec fn parts_of(bits: u64, k: u32, q: u64) -> bool {
    &&& magnitude(bits) < INFINITY
    &&& k == exponent(magnitude(bits))
    &&& q == significand(magnitude(bits))
    &&& k <= 2045
    &&& q < TWO_53
    &&& k > 0 ==> q >= TWO_52
}

/// A value in a binade far above that of another is their sum.
proof fn lemma_far_apart(hi: u64, kh: u32, qh: u64, lo: u64, kl: u32, ql: u64)
    requires
        parts_of(hi, kh, qh),
        parts_of(lo, kl, ql),
        kh > kl + 64,
    ensures
        sum_of(hi, lo) == hi,
{
    let pl = vstd::arithmetic::power2::pow2(kl as nat) as int;
    let ph = vstd::arithmetic::power2::pow2(kh as nat) as int;
    let d0 = (kh - kl) as nat;
    let pd = vstd::arithmetic::power2::pow2(d0) as int;
    let y = ql * pl;
    let rest = vstd::arithmetic::power2::pow2((d0 - 65) as nat) as int;
    let p65 = vstd::arithmetic::power2::pow2(65) as int;
    assert(ph == pl * pd) by {
        vstd::arithmetic::power2::lemma_pow2_adds(kl as nat, d0);
    }
    assert(pd == p65 * rest) by {
        vstd::arithmetic::power2::lemma_pow2_adds(65, (d0 - 65) as nat);
    }
    assert(p65 >= 4 * TWO_53) by {
        vstd::arithmetic::power2::lemma2_to64();
        vstd::arithmetic::power2::lemma_pow2_adds(1, 64);
    }
    vstd::arithmetic::power2::lemma_pow2_pos(kl as nat);
    vstd::arithmetic::power2::lemma_pow2_pos(kh as nat);
    vstd::arithmetic::power2::lemma_pow2_pos((d0 - 65) as nat);
    assert(pd >= 4 * TWO_53) by (nonlinear_arith)
        requires
            pd == p65 * rest,
            rest >= 1,
            p65 >= 4 * TWO_53,
    ;
    assert(4 * y < ph) by (nonlinear_arith)
        requires
            y == ql * pl,
            ph == pl * pd,
            ql < TWO_53,
            pd >= 4 * TWO_53,
            pl > 0,
            ql >= 0,
    ;
    assert(qh * ph >= TWO_52 * ph) by (nonlinear_arith)
        requires
            qh >= TWO_52,
            ph > 0,
    ;
    assert(y >= 0) by (nonlinear_arith)
        requires
            y == ql * pl,
            ql >= 0,
            pl > 0,
    ;
    let m = magnitude(hi);
    assert(m == kh * TWO_52 + qh);
    if (hi >= SIGN) == (lo >= SIGN) {
        lemma_dominant(qh as nat, kh as nat, y as nat, (qh * ph + y) as nat);
    } else {
        lemma_dominant(qh as nat, kh as nat, y as nat, (qh * ph - y) as nat);
    }
}

/// `q` times `2^d`.
fn shifted(q: u64, d: u32) -> (x: u128)
    requires
        q < TWO_53,
        d <= 64,
    ensures
        x == q * vstd::arithmetic::power2::pow2(d as nat),
        x <= TWO_53 * 0x1_0000_0000_0000_0000,
{
    let mut x: u128 = q as u128;
    let mut done: u32 = 0;
    proof {
        vstd::arithmetic::power2::lemma2_to64();
        assert(q * 1 == q);
    }
    while done < d
        invariant
            done <= d <= 64,
            q < TWO_53,
            x == q * vstd::arithmetic::power2::pow2(done as nat),
            x <= TWO_53 * 0x1_0000_0000_0000_0000,
            vstd::arithmetic::power2::pow2(64) == 0x1_0000_0000_0000_0000,
        decreases d - done,
    {
        proof {
            let p = vstd::arithmetic::power2::pow2(done as nat) as int;
            let next = vstd::arithmetic::power2::pow2((done + 1) as nat) as int;
            vstd::arithmetic::power2::lemma_pow2_unfold((done + 1) as nat);
            if done + 1 < 64 {
                vstd::arithmetic::power2::lemma_pow2_strictly_increases((done + 1) as nat, 64);
            }
            assert(q * next == 2 * (q * p)) by (nonlinear_arith)
                requires
                    next == 2 * p,
            ;
            assert(q * next <= TWO_53 * 0x1_0000_0000_0000_0000) by (nonlinear_arith)
                requires
                    q <= TWO_53,
                    0 <= next <= 0x1_0000_0000_0000_0000,
            ;
        }
        x = x * 2;
        done = done + 1;
    }
    x
}

/// The units of two values, counted in those of the lower binade.
proof fn lemma_aligned(hi: u64, kh: u32, qh: u64, lo: u64, kl: u32, ql: u64, x: int)
    requires
        parts_of(hi, kh, qh),
        parts_of(lo, kl, ql),
        kl <= kh,
        x == qh * vstd::arithmetic::power2::pow2((kh - kl) as nat),
    ensures
        vstd::arithmetic::power2::pow2(kl as nat) > 0,
        magnitude_units(magnitude(hi)) == x * vstd::arithmetic::power2::pow2(kl as nat),
        magnitude_units(magnitude(lo)) == ql * vstd::arithmetic::power2::pow2(kl as nat),
{
    let pl = vstd::arithmetic::power2::pow2(kl as nat) as int;
    let ph = vstd::arithmetic::power2::pow2(kh as nat) as int;
    let pd = vstd::arithmetic::power2::pow2((kh - kl) as nat) as int;
    vstd::arithmetic::power2::lemma_pow2_pos(kl as nat);
    vstd::arithmetic::power2::lemma_pow2_adds(kl as nat, (kh - kl) as nat);
    assert(qh * ph == x * pl) by (nonlinear_arith)
        requires
            x == qh * pd,
            ph == pl * pd,
    ;
}

/// The sum of two finite values, the first in the same binade as the second or a higher one.
fn sum_aligned(hi: u64, kh: u32, qh: u64, lo: u64, kl: u32, ql: u64) -> (r: u64)
    requires
        parts_of(hi, kh, qh),
        parts_of(lo, kl, ql),
        kl <= kh,
    ensures
        r == sum_of(hi, lo),
{
    if kh - kl > 64 {
        proof {
            lemma_far_apart(hi, kh, qh, lo, kl, ql);
        }
        return hi;
    }
    let x: u128 = shifted(qh, kh - kl);
    let y: u128 = ql as u128;
    let high_below: bool = hi >= SIGN;
    let low_below: bool = lo >= SIGN;
    let ghost pl = vstd::arithmetic::power2::pow2(kl as nat) as int;
    proof {
        lemma_aligned(hi, kh, qh, lo, kl, ql, x as int);
        assert((x + y) * pl == x * pl + y * pl) by (nonlinear_arith);
        assert((x - y) * pl == x * pl - y * pl) by (nonlinear_arith);
        assert((y - x) * pl == y * pl - x * pl) by (nonlinear_arith);
        assert(((x + y) * pl == 0) == (x + y == 0)) by (nonlinear_arith)
            requires
                pl > 0,
                x + y >= 0,
        ;
        assert(((x - y) * pl == 0) == (x - y == 0)) by (nonlinear_arith)
            requires
                pl > 0,
        ;
    }
    if high_below == low_below {
        if x + y == 0 {
            if high_below {
                SIGN
            } else {
                0
            }
        } else {
            round_signed(high_below, x + y, kl, 1)
        }
    } else if x == y {
        0
    } else if x > y {
        round_signed(high_below, x - y, kl, 1)
    } else {
        round_signed(low_below, y - x, kl, 1)
    }
}

/// The sum of `a` and `b`.
pub fn float_sum(a: u64, b: u64) -> (r: u64)
    ensures
        r == sum_of(a, b),
{
    let ma: u64 = if a >= SIGN { a - SIGN } else { a };
    let mb: u64 = if b >= SIGN { b - SIGN } else { b };
    if ma > INFINITY || mb > INFINITY {
        QUIET_NAN
    } else if ma == INFINITY {
        if mb == INFINITY && (a >= SIGN) != (b >= SIGN) {
            QUIET_NAN
        } else {
            a
        }
    } else if mb == INFINITY {
        b
    } else {
        let (ka, qa) = split(ma);
        let (kb, qb) = split(mb);
        if ka >= kb {
            sum_aligned(a, ka, qa, b, kb, qb)
        } else {
            sum_aligned(b, kb, qb, a, ka, qa)
        }
    }
}


/// `n` rounded to 53 significant bits, ties to even: what the binary64 arithmetic makes of a whole
/// number too small to overflow.
pub open spec fn round_53(n: nat) -> nat {
    let p = vstd::arithmetic::power2::pow2(binade(n, 1));
    half_even(n, p) * p
}

/// A number of at most 53 bits is left as it is.
proof fn lemma_round_small(n: nat)
    requires
        n < TWO_53,
    ensures
        round_53(n) == n,
{
    vstd::arithmetic::power2::lemma2_to64();
    let p = vstd::arithmetic::power2::pow2(0) as int;
    assert(p == 1);
    assert(1 * vstd::arithmetic::power2::pow2(0) == 1);
    lemma_binade_is(n, 1, 0);
    vstd::arithmetic::div_mod::lemma_fundamental_div_mod_converse(n as int, 1, n as int, 0);
    assert(half_even(n, 1) == n);
    assert(n * 1 == n);
}

/// `n` rounded to 53 significant bits.
pub fn round_to_53_bits(n: u128) -> (r: u128)
    requires
        n < 0x40_0000_0000_0000_0000_0000_0000_0000,
    ensures
        r == round_53(n as nat),
        r <= 2 * n,
        n < TWO_53 ==> r == n,
{
    let two_53: u128 = 0x20_0000_0000_0000;
    if n < two_53 {
        proof {
            lemma_round_small(n as nat);
        }
        return n;
    }
    let mut den: u128 = 1;
    let ghost mut k: nat = 0;
    proof {
        vstd::arithmetic::power2::lemma2_to64();
    }
    while n >= den * two_53
        invariant
            n < 0x40_0000_0000_0000_0000_0000_0000_0000,
            two_53 == TWO_53,
            0 < den < 0x40_0000_0000_0000_0000,
            den == vstd::arithmetic::power2::pow2(k),
            k > 0 ==> n * 2 >= den * two_53,
            k == 0 ==> den == 1,
        decreases n - den,
    {
        proof {
            vstd::arithmetic::power2::lemma_pow2_unfold(k + 1);
            k = k + 1;
        }
        den = den * 2;
    }
    proof {
        assert(1 * den == den);
        lemma_binade_is(n as nat, 1, k);
        assert(1 * vstd::arithmetic::power2::pow2(k) == den);
    }
    let quotient: u128 = n / den;
    let remainder: u128 = n % den;
    let rounded: u128 = if 2 * remainder < den || (2 * remainder == den && quotient % 2 == 0) {
        quotient
    } else {
        quotient + 1
    };
    proof {
        vstd::arithmetic::div_mod::lemma_fundamental_div_mod(n as int, den as int);
        let (q, d, r) = (quotient as int, den as int, remainder as int);
        assert(rounded * d <= 2 * n) by (nonlinear_arith)
            requires
                n == d * q + r,
                0 <= r < d,
                rounded == q || (rounded == q + 1 && 2 * r >= d),
                q >= 0,
                d > 0,
        ;
    }
    rounded * den
}

/// The sum does not depend on the order of its parts.
pub proof fn law_sum_commutes(a: u64, b: u64)
    ensures
        sum_of(a, b) == sum_of(b, a),
{
}

/// The smaller and the larger of two numbers are among them, and bound both where neither is a NaN.
pub proof fn law_min_max(a: u64, b: u64)
    requires
        !nan(a),
        !nan(b),
    ensures
        min_of(a, b) == a || min_of(a, b) == b,
        max_of(a, b) == a || max_of(a, b) == b,
        !less(a, min_of(a, b)) && !less(b, min_of(a, b)),
        !less(max_of(a, b), a) && !less(max_of(a, b), b),
{
}

} // verus!
