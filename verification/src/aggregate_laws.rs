//! What the aggregate of a run of samples is, kind by kind.
use vstd::prelude::*;

use crate::aggregators::AggregationType;
use crate::binary64;
use crate::common::Sample;
use crate::number_laws;

verus! {

/// The aggregate of a run of samples.
pub open spec fn aggregate(kind: AggregationType, samples: Seq<Sample>) -> u64 {
    crate::aggregators::fresh(kind).fed(samples).result()
}

/// The values of the samples, added up from the first to the last, each sum rounded.
pub open spec fn rounded_total(samples: Seq<Sample>) -> u64
    decreases samples.len(),
{
    if samples.len() == 0 {
        0
    } else {
        binary64::sum_of(rounded_total(samples.drop_last()), samples.last().value)
    }
}

/// What the values of the samples come to, in units, nothing being rounded.
pub open spec fn exact_total(samples: Seq<Sample>) -> int
    decreases samples.len(),
{
    if samples.len() == 0 {
        0
    } else {
        exact_total(samples.drop_last()) + binary64::units(samples.last().value)
    }
}

/// What the values of the samples come to, in units, their signs aside.
pub open spec fn exact_size(samples: Seq<Sample>) -> nat
    decreases samples.len(),
{
    if samples.len() == 0 {
        0
    } else {
        exact_size(samples.drop_last()) + number_laws::apart(
            binary64::units(samples.last().value),
            0,
        )
    }
}

/// Whether the values are numbers that can be added up without rounding: they are multiples of `2^k`
/// units, and there are no more than `2^53` of these in all.
pub open spec fn adds_up(samples: Seq<Sample>, k: nat) -> bool {
    &&& k <= 2044
    &&& forall|i: int|
        0 <= i < samples.len() ==> number_laws::finite((#[trigger] samples[i]).value)
            && binary64::units(samples[i].value) % (vstd::arithmetic::power2::pow2(k) as int) == 0
    &&& exact_size(samples) <= binary64::TWO_53 * vstd::arithmetic::power2::pow2(k)
}

/// What an aggregation holds behind a run of samples.
proof fn lemma_held(kind: AggregationType, samples: Seq<Sample>)
    requires
        samples.len() <= u64::MAX,
    ensures
        ({
            let a = crate::aggregators::fresh(kind).fed(samples);
            &&& a.kind == kind
            &&& a.count == samples.len()
            &&& kind is Avg || kind is Sum ==> a.value == rounded_total(samples)
            &&& kind is First && samples.len() > 0 ==> a.value == samples[0].value
            &&& kind is Last && samples.len() > 0 ==> a.value == samples.last().value
        }),
    decreases samples.len(),
{
    if samples.len() > 0 {
        lemma_held(kind, samples.drop_last());
    }
}

/// The sum of a run of samples is what their values come to when they are added up from the first to
/// the last.
pub proof fn law_sum_adds_up(samples: Seq<Sample>)
    requires
        samples.len() <= u64::MAX,
    ensures
        aggregate(AggregationType::Sum, samples) == rounded_total(samples),
{
    lemma_held(AggregationType::Sum, samples);
}

/// The average of a run of samples is their sum divided by their number; that of no sample is a NaN.
pub proof fn law_average_is_sum_over_number(samples: Seq<Sample>)
    requires
        samples.len() <= u64::MAX,
    ensures
        samples.len() > 0 ==> aggregate(AggregationType::Avg, samples) == binary64::quotient_of(
            rounded_total(samples),
            samples.len(),
        ),
        samples.len() == 0 ==> binary64::nan(aggregate(AggregationType::Avg, samples)),
{
    lemma_held(AggregationType::Avg, samples);
}

/// Every multiple of `2^k` units, up to `2^53` of them, is encoded by some bits.
pub(crate) proof fn lemma_encoding(t: int, k: nat) -> (bits: u64)
    requires
        k <= 2044,
        t % (vstd::arithmetic::power2::pow2(k) as int) == 0,
        number_laws::apart(t, 0) <= binary64::TWO_53 * vstd::arithmetic::power2::pow2(k),
    ensures
        number_laws::finite(bits),
        binary64::units(bits) == t,
{
    let p = vstd::arithmetic::power2::pow2(k) as int;
    vstd::arithmetic::power2::lemma_pow2_pos(k);
    let q = t / p;
    vstd::arithmetic::div_mod::lemma_fundamental_div_mod(t, p);
    let c: int = if t < 0 {
        -q
    } else {
        q
    };
    let n = number_laws::apart(t, 0);
    assert(n == c * p) by (nonlinear_arith)
        requires
            t == p * q,
            n == (if t < 0 {
                -t
            } else {
                t
            }),
            c == (if t < 0 {
                -q
            } else {
                q
            }),
    ;
    assert(0 <= c <= binary64::TWO_53) by (nonlinear_arith)
        requires
            n == c * p,
            0 <= n <= binary64::TWO_53 * p,
            p > 0,
    ;
    number_laws::law_multiples_are_numbers(c as nat, k);
    let m = binary64::nearest(n, 1);
    assert(((c as nat) * vstd::arithmetic::power2::pow2(k)) as nat == n);
    if t < 0 {
        let bits = (binary64::SIGN + m) as u64;
        assert(binary64::magnitude(bits) == m);
        bits
    } else {
        let bits = m as u64;
        assert(binary64::magnitude(bits) == m);
        bits
    }
}

pub(crate) proof fn lemma_multiple_sum(a: int, b: int, p: int)
    requires
        p > 0,
        a % p == 0,
        b % p == 0,
    ensures
        (a + b) % p == 0,
{
    vstd::arithmetic::div_mod::lemma_fundamental_div_mod(a, p);
    vstd::arithmetic::div_mod::lemma_fundamental_div_mod(b, p);
    let q = a / p + b / p;
    assert(a + b == q * p + 0) by (nonlinear_arith)
        requires
            a == p * (a / p),
            b == p * (b / p),
            q == a / p + b / p,
    ;
    vstd::arithmetic::div_mod::lemma_fundamental_div_mod_converse(a + b, p, q, 0);
}

pub(crate) proof fn lemma_total_exact(samples: Seq<Sample>, k: nat)
    requires
        adds_up(samples, k),
    ensures
        number_laws::finite(rounded_total(samples)),
        binary64::units(rounded_total(samples)) == exact_total(samples),
        exact_total(samples) % (vstd::arithmetic::power2::pow2(k) as int) == 0,
        number_laws::apart(exact_total(samples), 0) <= exact_size(samples),
    decreases samples.len(),
{
    let p = vstd::arithmetic::power2::pow2(k) as int;
    vstd::arithmetic::power2::lemma_pow2_pos(k);
    if samples.len() == 0 {
        assert(binary64::magnitude_units(0) == 0) by (nonlinear_arith)
            requires
                binary64::magnitude_units(0) == 0 * vstd::arithmetic::power2::pow2(0),
        ;
        vstd::arithmetic::div_mod::lemma_fundamental_div_mod_converse(0, p, 0, 0);
    } else {
        let d = samples.drop_last();
        let x = samples[samples.len() - 1].value;
        assert forall|i: int| 0 <= i < d.len() implies number_laws::finite(
            (#[trigger] d[i]).value,
        ) && binary64::units(d[i].value) % p == 0 by {
            assert(d[i] == samples[i]);
        }
        lemma_total_exact(d, k);
        let t = exact_total(samples);
        lemma_multiple_sum(exact_total(d), binary64::units(x), p);
        let c = lemma_encoding(t, k);
        number_laws::law_sum_exact(rounded_total(d), x, c);
    }
}

/// Where nothing has to be rounded, the sum of a run of samples is what their values come to.
pub proof fn law_sum_is_exact(samples: Seq<Sample>, k: nat)
    requires
        samples.len() <= u64::MAX,
        adds_up(samples, k),
    ensures
        number_laws::finite(aggregate(AggregationType::Sum, samples)),
        binary64::units(aggregate(AggregationType::Sum, samples)) == exact_total(samples),
{
    lemma_held(AggregationType::Sum, samples);
    lemma_total_exact(samples, k);
}

/// Where nothing has to be rounded on the way, the average of a run of samples is the number nearest
/// to what their values come to, divided by their number.
pub proof fn law_average_is_mean(samples: Seq<Sample>, k: nat)
    requires
        0 < samples.len() <= u64::MAX,
        adds_up(samples, k),
    ensures
        number_laws::nearest_to(
            aggregate(AggregationType::Avg, samples),
            exact_total(samples),
            samples.len(),
        ),
{
    lemma_held(AggregationType::Avg, samples);
    lemma_total_exact(samples, k);
    number_laws::law_quotient_is_nearest(rounded_total(samples), samples.len());
}

/// Whether one of the values is not a NaN.
pub open spec fn has_number(samples: Seq<Sample>) -> bool {
    exists|i: int| 0 <= i < samples.len() && !binary64::nan((#[trigger] samples[i]).value)
}

/// Whether one of the samples has the value.
pub open spec fn has_value(samples: Seq<Sample>, value: u64) -> bool {
    exists|i: int| 0 <= i < samples.len() && (#[trigger] samples[i]).value == value
}

pub(crate) proof fn lemma_earlier(samples: Seq<Sample>)
    requires
        samples.len() > 0,
    ensures
        has_number(samples) == (has_number(samples.drop_last()) || !binary64::nan(
            samples.last().value,
        )),
        forall|v: u64|
            has_value(samples.drop_last(), v) || v == samples.last().value ==> #[trigger] has_value(
                samples,
                v,
            ),
{
    let d = samples.drop_last();
    let n = samples.len() - 1;
    if has_number(d) {
        let i = choose|i: int| 0 <= i < d.len() && !binary64::nan((#[trigger] d[i]).value);
        assert(samples[i] == d[i]);
    }
    if has_number(samples) {
        let i = choose|i: int|
            0 <= i < samples.len() && !binary64::nan((#[trigger] samples[i]).value);
        if i < n {
            assert(d[i] == samples[i]);
        }
    }
    assert(samples[n] == samples.last());
    assert forall|v: u64| has_value(d, v) || v == samples.last().value implies #[trigger] has_value(
        samples,
        v,
    ) by {
        if has_value(d, v) {
            let i = choose|i: int| 0 <= i < d.len() && (#[trigger] d[i]).value == v;
            assert(samples[i].value == v);
        } else {
            assert(samples[n].value == v);
        }
    }
}

/// The smallest value of a run of samples is one of theirs, and no value is less; NaNs are passed
/// over, and where there is nothing else the smallest is a NaN.
pub proof fn law_min_bounds_all(samples: Seq<Sample>)
    requires
        samples.len() <= u64::MAX,
    ensures
        ({
            let r = aggregate(AggregationType::Min, samples);
            &&& binary64::nan(r) == !has_number(samples)
            &&& samples.len() > 0 ==> has_value(samples, r)
            &&& forall|i: int|
                0 <= i < samples.len() ==> !binary64::less((#[trigger] samples[i]).value, r)
        }),
    decreases samples.len(),
{
    let kind = AggregationType::Min;
    lemma_held(kind, samples);
    if samples.len() > 0 {
        let d = samples.drop_last();
        lemma_held(kind, d);
        law_min_bounds_all(d);
        lemma_earlier(samples);
        let (old_min, x) = (aggregate(kind, d), samples.last().value);
        let r = aggregate(kind, samples);
        if d.len() > 0 {
            number_laws::law_smaller(old_min, x);
        }
        assert forall|i: int| 0 <= i < samples.len() implies !binary64::less(
            (#[trigger] samples[i]).value,
            r,
        ) by {
            if i < d.len() {
                assert(d[i] == samples[i]);
            }
        }
    }
}

/// The largest value of a run of samples is one of theirs, and no value is greater; NaNs are passed
/// over, and where there is nothing else the largest is a NaN.
pub proof fn law_max_bounds_all(samples: Seq<Sample>)
    requires
        samples.len() <= u64::MAX,
    ensures
        ({
            let r = aggregate(AggregationType::Max, samples);
            &&& binary64::nan(r) == !has_number(samples)
            &&& samples.len() > 0 ==> has_value(samples, r)
            &&& forall|i: int|
                0 <= i < samples.len() ==> !binary64::less(r, (#[trigger] samples[i]).value)
        }),
    decreases samples.len(),
{
    let kind = AggregationType::Max;
    lemma_held(kind, samples);
    if samples.len() > 0 {
        let d = samples.drop_last();
        lemma_held(kind, d);
        law_max_bounds_all(d);
        lemma_earlier(samples);
        let (old_max, x) = (aggregate(kind, d), samples.last().value);
        let r = aggregate(kind, samples);
        if d.len() > 0 {
            number_laws::law_larger(old_max, x);
        }
        assert forall|i: int| 0 <= i < samples.len() implies !binary64::less(
            r,
            (#[trigger] samples[i]).value,
        ) by {
            if i < d.len() {
                assert(d[i] == samples[i]);
            }
        }
    }
}

/// The count of a run of samples is their number, or the nearest that there is.
pub proof fn law_count_is_number(samples: Seq<Sample>)
    requires
        samples.len() <= u64::MAX,
    ensures
        number_laws::nearest_to(
            aggregate(AggregationType::Count, samples),
            (samples.len() * vstd::arithmetic::power2::pow2(1074)) as int,
            1,
        ),
        samples.len() <= binary64::TWO_53 ==> number_laws::finite(
            aggregate(AggregationType::Count, samples),
        ) && binary64::units(aggregate(AggregationType::Count, samples)) == samples.len()
            * vstd::arithmetic::power2::pow2(1074),
{
    let n = samples.len();
    let t = n * vstd::arithmetic::power2::pow2(1074);
    let r = aggregate(AggregationType::Count, samples);
    lemma_held(AggregationType::Count, samples);
    number_laws::law_of_int_is_nearest(n as int);
    if n <= binary64::TWO_53 {
        number_laws::law_multiples_are_numbers(n, 1074);
        let m = binary64::nearest(t as nat, 1);
        let c = m as u64;
        assert(binary64::magnitude(c) == m);
        assert(binary64::units(c) == t);
        assert(binary64::units(c) * 1nat == t);
        assert(number_laws::apart(binary64::units(c) * 1nat, t as int) == 0);
        if binary64::infinite(r) {
            assert(number_laws::finite(c));
        }
        assert(binary64::units(r) * 1nat == binary64::units(r));
    }
}

/// The first of a run of samples is the value of the first one, the last that of the last one; of no
/// sample both are a NaN.
pub proof fn law_first_and_last(samples: Seq<Sample>)
    requires
        samples.len() <= u64::MAX,
    ensures
        samples.len() > 0 ==> aggregate(AggregationType::First, samples) == samples[0].value
            && aggregate(AggregationType::Last, samples) == samples.last().value,
        samples.len() == 0 ==> binary64::nan(aggregate(AggregationType::First, samples))
            && binary64::nan(aggregate(AggregationType::Last, samples)),
{
    lemma_held(AggregationType::First, samples);
    lemma_held(AggregationType::Last, samples);
}

/// An aggregation that is reset forgets what it has taken in.
pub proof fn law_nothing_is_left(kind: AggregationType, before: Seq<Sample>, samples: Seq<Sample>)
    ensures
        ({
            let used = crate::aggregators::fresh(kind).fed(before);
            crate::aggregators::fresh(used.kind).fed(samples).result() == aggregate(kind, samples)
        }),
    decreases before.len(),
{
    if before.len() > 0 {
        law_nothing_is_left(kind, before.drop_last(), samples);
    }
}

} // verus!
