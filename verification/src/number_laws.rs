//! What holds of the arithmetic on bits, in terms of the numbers that they stand for.
use vstd::prelude::*;

use crate::binary64;

verus! {

/// Whether `bits` encodes a number.
pub open spec fn finite(bits: u64) -> bool {
    binary64::magnitude(bits) < binary64::INFINITY
}

/// How far two whole numbers lie apart.
pub open spec fn apart(a: int, b: int) -> nat {
    if a < b {
        (b - a) as nat
    } else {
        (a - b) as nat
    }
}

/// The number of units that an encoding without a sign stands for lies in its binade.
proof fn lemma_binade_of(m: nat)
    ensures
        binary64::significand(m) < binary64::TWO_53,
        binary64::exponent(m) > 0 ==> binary64::significand(m) >= binary64::TWO_52,
        m == binary64::exponent(m) * binary64::TWO_52 + binary64::significand(m),
        vstd::arithmetic::power2::pow2(binary64::exponent(m)) > 0,
{
    vstd::arithmetic::power2::lemma_pow2_pos(binary64::exponent(m));
}

/// Of encodings without a sign, the larger one stands for the larger number.
proof fn lemma_magnitudes_in_order(a: nat, b: nat)
    requires
        a < b,
    ensures
        binary64::magnitude_units(a) < binary64::magnitude_units(b),
{
    let (ea, qa) = (binary64::exponent(a), binary64::significand(a) as int);
    let (eb, qb) = (binary64::exponent(b), binary64::significand(b) as int);
    lemma_binade_of(a);
    lemma_binade_of(b);
    let pa = vstd::arithmetic::power2::pow2(ea) as int;
    let pb = vstd::arithmetic::power2::pow2(eb) as int;
    if ea == eb {
        assert(qa * pa < qb * pa) by (nonlinear_arith)
            requires
                qa < qb,
                pa > 0,
        ;
    } else {
        assert(ea < eb);
        let p = vstd::arithmetic::power2::pow2(ea + 1) as int;
        vstd::arithmetic::power2::lemma_pow2_unfold(ea + 1);
        if ea + 1 < eb {
            vstd::arithmetic::power2::lemma_pow2_strictly_increases(ea + 1, eb);
        }
        assert(qa * pa < qb * pb) by (nonlinear_arith)
            requires
                0 <= qa < 2 * binary64::TWO_52,
                qb >= binary64::TWO_52,
                p == 2 * pa,
                p <= pb,
                pa > 0,
        ;
    }
}

/// The comparison of bits is the comparison of the numbers that they stand for.
pub proof fn law_less_is_numeric(a: u64, b: u64)
    requires
        finite(a),
        finite(b),
    ensures
        binary64::less(a, b) <==> binary64::units(a) < binary64::units(b),
{
    let (ma, mb) = (binary64::magnitude(a), binary64::magnitude(b));
    lemma_binade_of(0);
    assert(binary64::magnitude_units(0) == 0) by (nonlinear_arith)
        requires
            binary64::magnitude_units(0) == 0 * vstd::arithmetic::power2::pow2(0),
    ;
    if 0 < ma {
        lemma_magnitudes_in_order(0, ma);
    }
    if 0 < mb {
        lemma_magnitudes_in_order(0, mb);
    }
    if ma < mb {
        lemma_magnitudes_in_order(ma, mb);
    }
    if mb < ma {
        lemma_magnitudes_in_order(mb, ma);
    }
}

/// An infinity lies beyond every number.
pub proof fn law_infinity_is_beyond(a: u64, b: u64)
    requires
        finite(a),
        binary64::infinite(b),
    ensures
        binary64::negative(b) ==> binary64::less(b, a),
        !binary64::negative(b) ==> binary64::less(a, b),
{
}

proof fn lemma_binade(n: nat, d: nat)
    requires
        d > 0,
    ensures
        n < d * vstd::arithmetic::power2::pow2(binary64::binade(n, d)) * binary64::TWO_53,
        binary64::binade(n, d) == 0 || n >= d * vstd::arithmetic::power2::pow2(
            binary64::binade(n, d),
        ) * binary64::TWO_52,
    decreases n - d,
{
    vstd::arithmetic::power2::lemma2_to64();
    let k = binary64::binade(n, d);
    if n < d * binary64::TWO_53 {
        assert(d * 1 == d);
    } else {
        assert(n > d) by (nonlinear_arith)
            requires
                n >= d * binary64::TWO_53,
                d > 0,
                binary64::TWO_53 > 1,
        ;
        lemma_binade(n, 2 * d);
        let h = vstd::arithmetic::power2::pow2((k - 1) as nat) as int;
        let p = vstd::arithmetic::power2::pow2(k) as int;
        vstd::arithmetic::power2::lemma_pow2_unfold(k);
        assert((2 * d) * h == d * p) by (nonlinear_arith)
            requires
                p == 2 * h,
        ;
        if k == 1 {
            assert(d * p * binary64::TWO_52 == d * binary64::TWO_53) by (nonlinear_arith)
                requires
                    p == 2,
                    binary64::TWO_53 == 2 * binary64::TWO_52,
            ;
        }
    }
}

/// The encoding in the binade `k` with the significand `h` stands for `h * 2^k` units; so does the
/// one at the start of the binade above.
proof fn lemma_encoded(k: nat, h: nat)
    requires
        h <= binary64::TWO_53,
        k > 0 ==> h >= binary64::TWO_52,
    ensures
        binary64::magnitude_units((k * binary64::TWO_52 + h) as nat) == h
            * vstd::arithmetic::power2::pow2(k),
{
    let m = (k * binary64::TWO_52 + h) as nat;
    let p = vstd::arithmetic::power2::pow2(k) as int;
    if h == binary64::TWO_53 {
        vstd::arithmetic::power2::lemma_pow2_unfold(k + 1);
        let next = vstd::arithmetic::power2::pow2(k + 1) as int;
        assert(m == (k + 2) * binary64::TWO_52);
        assert(binary64::exponent(m) == k + 1);
        assert(binary64::significand(m) == binary64::TWO_52);
        assert(binary64::TWO_52 * next == h * p) by (nonlinear_arith)
            requires
                next == 2 * p,
                h == 2 * binary64::TWO_52,
        ;
    } else if h >= binary64::TWO_52 {
        assert(binary64::exponent(m) == k);
        assert(binary64::significand(m) == h);
    } else {
        assert(k == 0);
        assert(binary64::exponent(m) == 0);
    }
}

proof fn lemma_half_even(n: nat, d: nat)
    requires
        d > 0,
    ensures
        2 * apart((binary64::half_even(n, d) * d) as int, n as int) <= d,
        binary64::half_even(n, d) == n / d || binary64::half_even(n, d) == n / d + 1,
{
    let q = (n / d) as int;
    let r = (n % d) as int;
    let di = d as int;
    vstd::arithmetic::div_mod::lemma_fundamental_div_mod(n as int, di);
    assert(q * di == di * q) by (nonlinear_arith);
    assert((q + 1) * di == di * q + di) by (nonlinear_arith);
}

/// A multiple of the step at which rounding works is no nearer than the rounded number.
proof fn lemma_no_multiple_nearer(n: nat, d: nat, c: int)
    requires
        d > 0,
    ensures
        apart((binary64::half_even(n, d) * d) as int, n as int) <= apart(c * d, n as int),
{
    let h = binary64::half_even(n, d) as int;
    lemma_half_even(n, d);
    let di = d as int;
    if c > h {
        assert(c * di >= h * di + di) by (nonlinear_arith)
            requires
                c >= h + 1,
                di > 0,
        ;
    } else if c < h {
        assert(c * di <= h * di - di) by (nonlinear_arith)
            requires
                c <= h - 1,
                di > 0,
        ;
    }
}

/// What rounding gives before it is held against the infinity.
spec fn rounded(n: nat, d: nat) -> nat {
    let k = binary64::binade(n, d);
    (k * binary64::TWO_52 + binary64::half_even(n, d * vstd::arithmetic::power2::pow2(k))) as nat
}

proof fn lemma_rounded(n: nat, d: nat)
    requires
        d > 0,
    ensures
        ({
            let k = binary64::binade(n, d);
            let p = vstd::arithmetic::power2::pow2(k);
            let h = binary64::half_even(n, d * p);
            &&& p > 0
            &&& d * p > 0
            &&& h <= binary64::TWO_53
            &&& k > 0 ==> h >= binary64::TWO_52
            &&& binary64::magnitude_units(rounded(n, d)) == h * p
        }),
{
    let k = binary64::binade(n, d);
    let p = vstd::arithmetic::power2::pow2(k);
    vstd::arithmetic::power2::lemma_pow2_pos(k);
    let step = d * p;
    assert(step > 0) by (nonlinear_arith)
        requires
            step == d * p,
            d > 0,
            p > 0,
    ;
    let h = binary64::half_even(n, step);
    lemma_binade(n, d);
    lemma_half_even(n, step);
    let q = n / step;
    vstd::arithmetic::div_mod::lemma_fundamental_div_mod(n as int, step as int);
    assert(q < binary64::TWO_53) by (nonlinear_arith)
        requires
            n == step * q + n % step,
            n < step * binary64::TWO_53,
            n % step >= 0,
            step > 0,
    ;
    if k > 0 {
        assert(q >= binary64::TWO_52) by (nonlinear_arith)
            requires
                n == step * q + n % step,
                n >= step * binary64::TWO_52,
                n % step < step,
                step > 0,
        ;
    }
    lemma_encoded(k, h);
}

/// No number is nearer to `n / d` units than what rounding gives, before it is held against the
/// infinity.
proof fn lemma_rounded_is_nearest(n: nat, d: nat, m: nat)
    requires
        d > 0,
    ensures
        apart((binary64::magnitude_units(rounded(n, d)) * d) as int, n as int) <= apart(
            (binary64::magnitude_units(m) * d) as int,
            n as int,
        ),
{
    let k = binary64::binade(n, d);
    let p = vstd::arithmetic::power2::pow2(k) as int;
    let di = d as int;
    let step = (d * vstd::arithmetic::power2::pow2(k)) as int;
    let h = binary64::half_even(n, step as nat) as int;
    lemma_rounded(n, d);
    lemma_binade(n, d);
    let (e, q) = (binary64::exponent(m), binary64::significand(m) as int);
    let u = binary64::magnitude_units(m) as int;
    let pe = vstd::arithmetic::power2::pow2(e) as int;
    lemma_binade_of(m);
    assert((h * p) * di == h * step) by (nonlinear_arith)
        requires
            step == di * p,
    ;
    if e >= k {
        let f = vstd::arithmetic::power2::pow2((e - k) as nat) as int;
        vstd::arithmetic::power2::lemma_pow2_adds(k, (e - k) as nat);
        let c = q * f;
        assert(u * di == c * step) by (nonlinear_arith)
            requires
                u == q * pe,
                pe == p * f,
                c == q * f,
                step == di * p,
        ;
        lemma_no_multiple_nearer(n, step as nat, c);
    } else {
        let c = binary64::TWO_52 as int;
        lemma_no_multiple_nearer(n, step as nat, c);
        let next = vstd::arithmetic::power2::pow2(e + 1) as int;
        vstd::arithmetic::power2::lemma_pow2_unfold(e + 1);
        if e + 1 < k {
            vstd::arithmetic::power2::lemma_pow2_strictly_increases(e + 1, k);
        }
        assert(u <= c * p) by (nonlinear_arith)
            requires
                u == q * pe,
                q <= 2 * c,
                next == 2 * pe,
                next <= p,
                pe > 0,
                c >= 0,
        ;
        assert(u * di <= c * step) by (nonlinear_arith)
            requires
                u <= c * p,
                step == di * p,
                di > 0,
        ;
        assert(c * step == step * c) by (nonlinear_arith);
        assert(c * step <= n);
    }
}

/// What rounding gives is no farther from `n / d` units than any number, and an infinity only where
/// all numbers lie below it.
pub proof fn law_nearest(n: nat, d: nat, m: nat)
    requires
        d > 0,
        m < binary64::INFINITY,
    ensures
        binary64::nearest(n, d) <= binary64::INFINITY,
        binary64::nearest(n, d) < binary64::INFINITY ==> apart(
            (binary64::magnitude_units(binary64::nearest(n, d)) * d) as int,
            n as int,
        ) <= apart((binary64::magnitude_units(m) * d) as int, n as int),
        binary64::nearest(n, d) == binary64::INFINITY ==> binary64::magnitude_units(m) * d < n,
{
    let r = rounded(n, d);
    lemma_rounded(n, d);
    lemma_rounded_is_nearest(n, d, m);
    if r >= binary64::INFINITY {
        let top: nat = (binary64::INFINITY - 1) as nat;
        let (u, t, x) = (
            binary64::magnitude_units(m) as int,
            binary64::magnitude_units(top) as int,
            binary64::magnitude_units(r) as int,
        );
        lemma_rounded_is_nearest(n, d, top);
        lemma_magnitudes_in_order(top, r);
        if m < top {
            lemma_magnitudes_in_order(m, top);
        }
        let di = d as int;
        assert(u * di <= t * di) by (nonlinear_arith)
            requires
                u <= t,
                di > 0,
        ;
        assert(t * di < x * di) by (nonlinear_arith)
            requires
                t < x,
                di > 0,
        ;
    }
}

/// Rounding never goes past a number: what is no less than it rounds to no less, and what is no more
/// rounds to no more.
pub proof fn law_rounding_keeps_bounds(n: nat, d: nat, m: nat)
    requires
        d > 0,
        m < binary64::INFINITY,
    ensures
        binary64::magnitude_units(m) * d <= n ==> m <= binary64::nearest(n, d),
        n <= binary64::magnitude_units(m) * d ==> binary64::nearest(n, d) <= m,
{
    let r = binary64::nearest(n, d);
    law_nearest(n, d, m);
    let (u, x) = (binary64::magnitude_units(m) as int, binary64::magnitude_units(r) as int);
    let di = d as int;
    if r < m {
        lemma_magnitudes_in_order(r, m);
        assert(x * di < u * di) by (nonlinear_arith)
            requires
                x < u,
                di > 0,
        ;
    } else if r > m {
        lemma_magnitudes_in_order(m, r);
        assert(u * di < x * di) by (nonlinear_arith)
            requires
                u < x,
                di > 0,
        ;
    }
}

/// Whether `bits` encodes a number that no other is nearer than to `s / d` units; an infinity of the
/// same sign where `s / d` lies beyond all numbers.
pub open spec fn nearest_to(bits: u64, s: int, d: nat) -> bool {
    &&& !binary64::nan(bits)
    &&& finite(bits) ==> forall|c: u64|
        finite(c) ==> apart(binary64::units(bits) * d, s) <= apart(
            #[trigger] binary64::units(c) * d,
            s,
        )
    &&& binary64::infinite(bits) ==> forall|c: u64|
        finite(c) ==> if binary64::negative(bits) {
            s < #[trigger] binary64::units(c) * d
        } else {
            binary64::units(c) * d < s
        }
}

proof fn lemma_nearest_to(s: int, d: nat)
    requires
        d > 0,
        s != 0,
    ensures
        nearest_to(binary64::nearest_signed(s, d), s, d),
        finite(binary64::nearest_signed(s, d)) ==> (s < 0 ==> binary64::units(
            binary64::nearest_signed(s, d),
        ) <= 0) && (s > 0 ==> binary64::units(binary64::nearest_signed(s, d)) >= 0),
{
    let r = binary64::nearest_signed(s, d);
    let n: nat = if s < 0 {
        (-s) as nat
    } else {
        s as nat
    };
    law_nearest(n, d, 0);
    let m = binary64::nearest(n, d);
    assert(binary64::magnitude(r) == m);
    assert(binary64::negative(r) == (s < 0));
    let di = d as int;
    let um = binary64::magnitude_units(m) as int;
    assert((-um) * di == -(um * di)) by (nonlinear_arith);
    assert(binary64::magnitude_units(0) == 0) by (nonlinear_arith)
        requires
            binary64::magnitude_units(0) == 0 * vstd::arithmetic::power2::pow2(0),
    ;
    assert forall|c: u64| finite(c) && finite(r) implies apart(
        binary64::units(r) * d,
        s,
    ) <= apart(#[trigger] binary64::units(c) * d, s) by {
        let uc = binary64::magnitude_units(binary64::magnitude(c)) as int;
        assert((-uc) * di == -(uc * di)) by (nonlinear_arith);
        assert(uc * di >= 0) by (nonlinear_arith)
            requires
                uc >= 0,
                di > 0,
        ;
        law_nearest(n, d, binary64::magnitude(c));
    }
    assert forall|c: u64| finite(c) && binary64::infinite(r) implies if binary64::negative(r) {
        s < #[trigger] binary64::units(c) * d
    } else {
        binary64::units(c) * d < s
    } by {
        let uc = binary64::magnitude_units(binary64::magnitude(c)) as int;
        assert((-uc) * di == -(uc * di)) by (nonlinear_arith);
        assert(uc * di >= 0) by (nonlinear_arith)
            requires
                uc >= 0,
                di > 0,
        ;
        law_nearest(n, d, binary64::magnitude(c));
    }
}

proof fn lemma_zero_units(bits: u64)
    requires
        binary64::magnitude(bits) == 0,
    ensures
        binary64::units(bits) == 0,
{
    assert(binary64::magnitude_units(0) == 0) by (nonlinear_arith)
        requires
            binary64::magnitude_units(0) == 0 * vstd::arithmetic::power2::pow2(0),
    ;
}

proof fn lemma_exact_is_nearest(bits: u64, s: int, d: nat)
    requires
        finite(bits),
        binary64::units(bits) * d == s,
    ensures
        nearest_to(bits, s, d),
{
}

/// The sum of two numbers is the number nearest to what they come to.
pub proof fn law_sum_is_nearest(a: u64, b: u64)
    requires
        finite(a),
        finite(b),
    ensures
        nearest_to(binary64::sum_of(a, b), binary64::units(a) + binary64::units(b), 1),
{
    let s = binary64::units(a) + binary64::units(b);
    if s == 0 {
        let r = binary64::sum_of(a, b);
        lemma_zero_units(r);
        lemma_exact_is_nearest(r, s, 1);
    } else {
        lemma_nearest_to(s, 1);
    }
}

/// The sum of two numbers is exact where a number stands for what they come to.
pub proof fn law_sum_exact(a: u64, b: u64, c: u64)
    requires
        finite(a),
        finite(b),
        finite(c),
        binary64::units(c) == binary64::units(a) + binary64::units(b),
    ensures
        finite(binary64::sum_of(a, b)),
        binary64::units(binary64::sum_of(a, b)) == binary64::units(a) + binary64::units(b),
{
    let r = binary64::sum_of(a, b);
    law_sum_is_nearest(a, b);
    assert(binary64::units(c) * 1nat == binary64::units(c));
    assert(binary64::units(r) * 1nat == binary64::units(r));
    assert(apart(binary64::units(c) * 1nat, binary64::units(c)) == 0);
}

/// A number divided by a whole one is the number nearest to the quotient.
pub proof fn law_quotient_is_nearest(total: u64, count: nat)
    requires
        finite(total),
        count > 0,
    ensures
        nearest_to(binary64::quotient_of(total, count), binary64::units(total), count),
{
    if binary64::units(total) == 0 {
        assert(binary64::units(total) * count == 0) by (nonlinear_arith)
            requires
                binary64::units(total) == 0,
        ;
        lemma_exact_is_nearest(total, 0, count);
    } else {
        lemma_nearest_to(binary64::units(total), count);
    }
}

/// A whole number becomes the number nearest to it.
pub proof fn law_of_int_is_nearest(n: int)
    ensures
        nearest_to(binary64::of_int(n), n * vstd::arithmetic::power2::pow2(1074), 1),
{
    let p = vstd::arithmetic::power2::pow2(1074) as int;
    vstd::arithmetic::power2::lemma_pow2_pos(1074);
    if n == 0 {
        lemma_zero_units(0);
        assert(n * p == 0) by (nonlinear_arith)
            requires
                n == 0,
        ;
        lemma_exact_is_nearest(0, 0, 1);
    } else {
        assert(n * p != 0) by (nonlinear_arith)
            requires
                n != 0,
                p > 0,
        ;
        lemma_nearest_to(n * p, 1);
    }
}

/// A multiple of `2^k` units, up to `2^53` of them, is a number.
pub proof fn law_multiples_are_numbers(c: nat, k: nat)
    requires
        c <= binary64::TWO_53,
        k <= 2044,
    ensures
        ({
            let n = (c * vstd::arithmetic::power2::pow2(k)) as nat;
            &&& binary64::nearest(n, 1) < binary64::INFINITY
            &&& binary64::magnitude_units(binary64::nearest(n, 1)) == n
        }),
{
    let p = vstd::arithmetic::power2::pow2(k) as int;
    vstd::arithmetic::power2::lemma_pow2_pos(k);
    let n = (c * vstd::arithmetic::power2::pow2(k)) as nat;
    let j = binary64::binade(n, 1);
    let pj = vstd::arithmetic::power2::pow2(j) as int;
    lemma_binade(n, 1);
    lemma_rounded(n, 1);
    assert(1 * vstd::arithmetic::power2::pow2(j) == pj);
    let h = binary64::half_even(n, pj as nat);
    if j > k + 1 {
        vstd::arithmetic::power2::lemma_pow2_strictly_increases(k + 1, j);
        vstd::arithmetic::power2::lemma_pow2_unfold(k + 1);
        assert(n < pj * binary64::TWO_52) by (nonlinear_arith)
            requires
                n == c * p,
                c <= 2 * binary64::TWO_52,
                pj > 2 * p,
                p > 0,
                binary64::TWO_52 > 0,
        ;
        assert(false);
    }
    // `n` is a whole number of steps, so that nothing is lost
    let q: int = if j <= k {
        let f = vstd::arithmetic::power2::pow2((k - j) as nat) as int;
        vstd::arithmetic::power2::lemma_pow2_adds(j, (k - j) as nat);
        assert(n == (c * f) * pj) by (nonlinear_arith)
            requires
                n == c * p,
                p == pj * f,
        ;
        c * f
    } else {
        vstd::arithmetic::power2::lemma_pow2_unfold(k + 1);
        assert(c == binary64::TWO_53) by (nonlinear_arith)
            requires
                n == c * p,
                n >= pj * binary64::TWO_52,
                pj == 2 * p,
                c <= binary64::TWO_53,
                binary64::TWO_53 == 2 * binary64::TWO_52,
                p > 0,
        ;
        assert(n == binary64::TWO_52 * pj) by (nonlinear_arith)
            requires
                n == c * p,
                c == 2 * binary64::TWO_52,
                pj == 2 * p,
        ;
        binary64::TWO_52 as int
    };
    vstd::arithmetic::div_mod::lemma_fundamental_div_mod_converse(n as int, pj, q, 0);
    assert(h == q);
    assert(j <= 2045);
    assert(j * binary64::TWO_52 <= 2045 * binary64::TWO_52);
    if j == 2045 {
        assert(h == binary64::TWO_52);
    } else {
        assert(h <= binary64::TWO_53);
    }
    assert(rounded(n, 1) < binary64::INFINITY);
}

/// The smaller of two values is one of them and greater than neither; where one is a NaN it is the
/// other.
pub proof fn law_smaller(a: u64, b: u64)
    ensures
        !binary64::nan(a) && !binary64::nan(b) ==> {
            &&& binary64::min_of(a, b) == a || binary64::min_of(a, b) == b
            &&& !binary64::less(a, binary64::min_of(a, b))
            &&& !binary64::less(b, binary64::min_of(a, b))
        },
        binary64::nan(a) ==> binary64::min_of(a, b) == b,
        binary64::nan(b) && !binary64::nan(a) ==> binary64::min_of(a, b) == a,
{
}

/// The larger of two values is one of them and less than neither; where one is a NaN it is the other.
pub proof fn law_larger(a: u64, b: u64)
    ensures
        !binary64::nan(a) && !binary64::nan(b) ==> {
            &&& binary64::max_of(a, b) == a || binary64::max_of(a, b) == b
            &&& !binary64::less(binary64::max_of(a, b), a)
            &&& !binary64::less(binary64::max_of(a, b), b)
        },
        binary64::nan(a) ==> binary64::max_of(a, b) == b,
        binary64::nan(b) && !binary64::nan(a) ==> binary64::max_of(a, b) == a,
{
}

/// A sum with a NaN is one, and so is that of two infinities of different signs; every other sum with
/// an infinity is that infinity.
pub proof fn law_sum_beyond_numbers(a: u64, b: u64)
    ensures
        binary64::nan(a) || binary64::nan(b) ==> binary64::nan(binary64::sum_of(a, b)),
        binary64::infinite(a) && finite(b) ==> binary64::sum_of(a, b) == a
            && binary64::sum_of(b, a) == a,
        binary64::infinite(a) && binary64::infinite(b) && binary64::negative(a)
            == binary64::negative(b) ==> binary64::sum_of(a, b) == a,
        binary64::infinite(a) && binary64::infinite(b) && binary64::negative(a)
            != binary64::negative(b) ==> binary64::nan(binary64::sum_of(a, b)),
{
}

/// A NaN divided by a whole number is one, an infinity stays, and nothing is divided by 0.
pub proof fn law_quotient_beyond_numbers(total: u64, count: nat)
    ensures
        binary64::nan(total) || count == 0 ==> binary64::nan(binary64::quotient_of(total, count)),
        binary64::infinite(total) && count > 0 ==> binary64::quotient_of(total, count) == total,
{
}

/// The comparison of values is an order: nothing is less than itself, and what is less than something
/// that is less than a third is less than that.
pub proof fn law_less_is_an_order(a: u64, b: u64, c: u64)
    ensures
        !binary64::less(a, a),
        binary64::less(a, b) ==> !binary64::less(b, a),
        binary64::less(a, b) && binary64::less(b, c) ==> binary64::less(a, c),
        binary64::nan(a) ==> !binary64::less(a, b) && !binary64::less(b, a),
{
}

/// Rounding a whole number to 53 bits moves it by no more than a part in `2^53`, and leaves one of at
/// most 53 bits as it is.
pub proof fn law_53_bits_are_close(n: nat)
    ensures
        apart(binary64::round_53(n) as int, n as int) * binary64::TWO_53 <= n,
        n < binary64::TWO_53 ==> binary64::round_53(n) == n,
{
    let k = binary64::binade(n, 1);
    let p = vstd::arithmetic::power2::pow2(k);
    vstd::arithmetic::power2::lemma_pow2_pos(k);
    lemma_binade(n, 1);
    assert(1 * p == p);
    let h = binary64::half_even(n, p);
    lemma_half_even(n, p);
    let (hi, pi, ni) = (h as int, p as int, n as int);
    let gap = apart(hi * pi, ni);
    if k == 0 {
        vstd::arithmetic::power2::lemma2_to64();
        vstd::arithmetic::div_mod::lemma_fundamental_div_mod_converse(ni, 1, ni, 0);
        assert(h == n);
        assert(hi * pi == ni) by (nonlinear_arith)
            requires
                hi == ni,
                pi == 1,
        ;
    } else {
        assert(gap * binary64::TWO_53 <= ni) by (nonlinear_arith)
            requires
                2 * gap <= pi,
                ni >= pi * binary64::TWO_52,
                binary64::TWO_53 == 2 * binary64::TWO_52,
        ;
    }
    if n < binary64::TWO_53 {
        assert(gap == 0) by (nonlinear_arith)
            requires
                gap * binary64::TWO_53 <= ni,
                ni < binary64::TWO_53,
                gap >= 0,
        ;
    }
}

} // verus!
