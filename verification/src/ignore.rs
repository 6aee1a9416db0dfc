//! Dropping of samples that lie too far from the one before.
use vstd::prelude::*;

use crate::binary64;
use crate::common::Sample;

verus! {

/// How far a sample may lie from the one before.
#[derive(Debug, Clone, Copy, PartialEq, Eq, Structural)]
pub struct IgnoreLimits {
    /// The largest distance in time, in milliseconds.
    pub max_time_diff: u64,
    /// The bits of the largest distance between the values.
    pub max_value_diff: u64,
}

/// The bits of `-x`.
pub open spec fn negated(bits: u64) -> u64 {
    if bits >= binary64::SIGN {
        (bits - binary64::SIGN) as u64
    } else {
        (bits + binary64::SIGN) as u64
    }
}

/// The bits of `|a - b|`.
pub open spec fn value_distance(a: u64, b: u64) -> u64 {
    binary64::magnitude(binary64::sum_of(a, negated(b))) as u64
}

impl IgnoreLimits {
    /// Whether `x` lies within both limits of `before`.
    pub open spec fn near(self, before: Sample, x: Sample) -> bool {
        &&& -self.max_time_diff <= x.timestamp - before.timestamp <= self.max_time_diff
        &&& !binary64::less(self.max_value_diff, value_distance(x.value, before.value))
    }

    /// The samples that lie within both limits of the one kept before; the first one is kept
    /// where nothing came before it.
    pub open spec fn kept(self, last: Option<Sample>, samples: Seq<Sample>) -> Seq<Sample>
        decreases samples.len(),
    {
        if samples.len() == 0 {
            Seq::empty()
        } else {
            let rest = self.kept(last, samples.drop_last());
            let before = if rest.len() == 0 {
                last
            } else {
                Some(rest.last())
            };
            let x = samples.last();
            match before {
                Some(b) => if self.near(b, x) {
                    rest.push(x)
                } else {
                    rest
                },
                None => rest.push(x),
            }
        }
    }

    /// Whether `x` lies within both limits of `before`.
    pub fn is_near(&self, before: Sample, x: Sample) -> (r: bool)
        ensures
            r == self.near(before, x),
    {
        let apart: i128 = (x.timestamp as i128) - (before.timestamp as i128);
        let limit: i128 = self.max_time_diff as i128;
        if apart > limit || apart < 0 - limit {
            return false;
        }
        let opposite: u64 = if before.value >= binary64::SIGN {
            before.value - binary64::SIGN
        } else {
            before.value + binary64::SIGN
        };
        let difference: u64 = binary64::float_sum(x.value, opposite);
        let distance: u64 = if difference >= binary64::SIGN {
            difference - binary64::SIGN
        } else {
            difference
        };
        !binary64::float_less(self.max_value_diff, distance)
    }

    /// The samples that lie within both limits of the one kept before.
    pub fn keep(&self, last: Option<Sample>, samples: &Vec<Sample>) -> (r: Vec<Sample>)
        ensures
            r@ == self.kept(last, samples@),
    {
        let mut r: Vec<Sample> = Vec::new();
        let mut before: Option<Sample> = last;
        let mut i: usize = 0;
        while i < samples.len()
            invariant
                i <= samples@.len(),
                r@ == self.kept(last, samples@.take(i as int)),
                before == if r@.len() == 0 {
                    last
                } else {
                    Some(r@.last())
                },
            decreases samples@.len() - i,
        {
            let x: Sample = samples[i];
            proof {
                assert(samples@.take(i + 1).drop_last() =~= samples@.take(i as int));
                assert(samples@.take(i + 1).last() == x);
            }
            let keep: bool = match before {
                Some(b) => self.is_near(b, x),
                None => true,
            };
            if keep {
                r.push(x);
                before = Some(x);
            }
            i = i + 1;
        }
        assert(samples@.take(i as int) =~= samples@);
        r
    }
}

/// Every sample kept lies within both limits of the one kept before it, and none is kept that was
/// not given.
pub proof fn law_kept_are_near(limits: IgnoreLimits, last: Option<Sample>, samples: Seq<Sample>)
    ensures
        limits.kept(last, samples).len() <= samples.len(),
        forall|i: int|
            0 <= i < limits.kept(last, samples).len() ==> samples.contains(
                #[trigger] limits.kept(last, samples)[i],
            ),
        forall|i: int|
            0 < i < limits.kept(last, samples).len() ==> limits.near(
                limits.kept(last, samples)[i - 1],
                #[trigger] limits.kept(last, samples)[i],
            ),
        last is Some && limits.kept(last, samples).len() > 0 ==> limits.near(
            last->0,
            limits.kept(last, samples)[0],
        ),
    decreases samples.len(),
{
    if samples.len() > 0 {
        let d = samples.drop_last();
        law_kept_are_near(limits, last, d);
        let rest = limits.kept(last, d);
        let r = limits.kept(last, samples);
        assert forall|i: int| 0 <= i < r.len() implies samples.contains(#[trigger] r[i]) by {
            if i < rest.len() {
                assert(r[i] == rest[i]);
                let k = choose|k: int| 0 <= k < d.len() && d[k] == rest[i];
                assert(samples[k] == r[i]);
            } else {
                assert(samples[samples.len() - 1] == r[i]);
            }
        }
        assert forall|i: int| 0 < i < r.len() implies limits.near(r[i - 1], #[trigger] r[i]) by {
            assert(r[i - 1] == rest[i - 1]);
            if i < rest.len() {
                assert(r[i] == rest[i]);
            }
        }
    }
}

/// The difference between two values, its sign aside, is the number nearest to how far they lie apart.
proof fn lemma_distance(a: u64, b: u64)
    requires
        crate::number_laws::finite(a),
        crate::number_laws::finite(b),
    ensures
        value_distance(a, b) == binary64::nearest(
            crate::number_laws::apart(binary64::units(a), binary64::units(b)),
            1,
        ),
        value_distance(a, b) <= binary64::INFINITY,
{
    let n = crate::number_laws::apart(binary64::units(a), binary64::units(b));
    let opposite = negated(b);
    assert(binary64::magnitude(opposite) == binary64::magnitude(b));
    assert(binary64::units(opposite) == -binary64::units(b)) by {
        if binary64::magnitude(b) == 0 {
            assert(binary64::magnitude_units(0) == 0) by (nonlinear_arith)
                requires
                    binary64::magnitude_units(0) == 0 * vstd::arithmetic::power2::pow2(0),
            ;
        }
    }
    let s = binary64::units(a) + binary64::units(opposite);
    crate::number_laws::law_nearest(n, 1, 0);
    if s == 0 {
        assert(binary64::magnitude_units(0) == 0) by (nonlinear_arith)
            requires
                binary64::magnitude_units(0) == 0 * vstd::arithmetic::power2::pow2(0),
        ;
        crate::number_laws::law_rounding_keeps_bounds(0, 1, 0);
        assert(binary64::magnitude_units(0) * 1 == 0);
    } else {
        let m = binary64::nearest(n, 1);
        let r = binary64::sum_of(a, opposite);
        assert(r == binary64::nearest_signed(s, 1));
        assert(binary64::magnitude(r) == m);
    }
}

/// It does not matter which of two samples comes first: the one lies within the limits of the other,
/// or neither does.
pub proof fn law_near_either_way(limits: IgnoreLimits, a: Sample, b: Sample)
    ensures
        limits.near(a, b) == limits.near(b, a),
{
    let (x, y) = (a.value, b.value);
    if crate::number_laws::finite(x) && crate::number_laws::finite(y) {
        lemma_distance(x, y);
        lemma_distance(y, x);
        assert(crate::number_laws::apart(binary64::units(x), binary64::units(y))
            == crate::number_laws::apart(binary64::units(y), binary64::units(x)));
    } else {
        assert(value_distance(x, y) == value_distance(y, x));
    }
}

/// Where two samples lie farther apart in time than the limit allows, in either direction, the one
/// does not lie within the limits of the other, whatever their values.
pub proof fn law_far_in_time(limits: IgnoreLimits, before: Sample, x: Sample)
    requires
        crate::number_laws::apart(before.timestamp as int, x.timestamp as int)
            > limits.max_time_diff,
    ensures
        !limits.near(before, x),
{
}

/// Where two values differ, as numbers and in either direction, by as much as some number `c` above
/// the limit, the one sample does not lie within the limits of the other. A difference between the
/// limit and the next number above it may be rounded to the limit.
pub proof fn law_far_in_value(limits: IgnoreLimits, before: Sample, x: Sample, c: u64)
    requires
        crate::number_laws::finite(before.value),
        crate::number_laws::finite(x.value),
        crate::number_laws::finite(limits.max_value_diff),
        crate::number_laws::finite(c),
        binary64::units(limits.max_value_diff) < binary64::units(c),
        binary64::units(c) <= crate::number_laws::apart(
            binary64::units(before.value),
            binary64::units(x.value),
        ),
    ensures
        !limits.near(before, x),
{
    let limit = limits.max_value_diff;
    let n = crate::number_laws::apart(binary64::units(x.value), binary64::units(before.value));
    lemma_distance(x.value, before.value);
    let distance = value_distance(x.value, before.value);
    assert(binary64::magnitude(distance) == distance);
    if distance == binary64::INFINITY {
        crate::number_laws::law_infinity_is_beyond(limit, distance);
    } else {
        crate::number_laws::law_less_is_numeric(limit, distance);
        if !binary64::negative(c) {
            let m = binary64::magnitude(c);
            assert(binary64::magnitude_units(m) * 1 == binary64::units(c));
            crate::number_laws::law_rounding_keeps_bounds(n, 1, m);
            assert(m <= distance);
            if m < distance {
                crate::number_laws::law_less_is_numeric(c, distance);
            }
        }
    }
}

/// Where two samples lie no farther apart than the limits allow, in time and, as numbers, in value,
/// the one lies within the limits of the other.
pub proof fn law_close_is_near(limits: IgnoreLimits, before: Sample, x: Sample)
    requires
        crate::number_laws::apart(before.timestamp as int, x.timestamp as int)
            <= limits.max_time_diff,
        crate::number_laws::finite(before.value),
        crate::number_laws::finite(x.value),
        crate::number_laws::finite(limits.max_value_diff),
        crate::number_laws::apart(binary64::units(before.value), binary64::units(x.value))
            <= binary64::units(limits.max_value_diff),
    ensures
        limits.near(before, x),
{
    let limit = limits.max_value_diff;
    let n = crate::number_laws::apart(binary64::units(x.value), binary64::units(before.value));
    lemma_distance(x.value, before.value);
    let distance = value_distance(x.value, before.value);
    assert(binary64::magnitude(distance) == distance);
    let m = binary64::magnitude(limit);
    if binary64::negative(limit) {
        assert(n == 0);
        assert(binary64::magnitude_units(0) == 0) by (nonlinear_arith)
            requires
                binary64::magnitude_units(0) == 0 * vstd::arithmetic::power2::pow2(0),
        ;
        crate::number_laws::law_rounding_keeps_bounds(0, 1, 0);
        assert(binary64::magnitude_units(0) * 1 == 0);
        assert(distance == 0);
        crate::number_laws::law_less_is_numeric(limit, distance);
    } else {
        assert(binary64::magnitude_units(m) * 1 == binary64::units(limit));
        crate::number_laws::law_rounding_keeps_bounds(n, 1, m);
    }
}

/// Samples of which each lies within the limits of the one before, the first one within those of the
/// last sample that came before them, where there is one, are kept all of them.
pub proof fn law_all_near_are_kept(limits: IgnoreLimits, last: Option<Sample>, samples: Seq<Sample>)
    requires
        last is Some && samples.len() > 0 ==> limits.near(last->0, samples[0]),
        forall|i: int| 0 < i < samples.len() ==> limits.near(samples[i - 1], #[trigger] samples[i]),
    ensures
        limits.kept(last, samples) == samples,
    decreases samples.len(),
{
    if samples.len() > 0 {
        let d = samples.drop_last();
        let n = samples.len() - 1;
        assert forall|i: int| 0 < i < d.len() implies limits.near(d[i - 1], #[trigger] d[i]) by {
            assert(limits.near(samples[i - 1], samples[i]));
        }
        law_all_near_are_kept(limits, last, d);
        if n > 0 {
            assert(limits.near(samples[n - 1], samples[n]));
        }
        assert(d.push(samples[n]) =~= samples);
    }
}

/// A sample is kept where it lies within the limits of the last one kept before it, or where there is
/// none, and only there; what was kept before stays, in order.
pub proof fn law_only_far_are_dropped(
    limits: IgnoreLimits,
    last: Option<Sample>,
    samples: Seq<Sample>,
    x: Sample,
)
    ensures
        ({
            let front = limits.kept(last, samples);
            let more = limits.kept(last, samples.push(x));
            let kept = if front.len() > 0 {
                limits.near(front.last(), x)
            } else {
                last is Some ==> limits.near(last->0, x)
            };
            if kept {
                more == front.push(x)
            } else {
                more == front
            }
        }),
{
    assert(samples.push(x).drop_last() =~= samples);
}

/// An infinity lies too far from every number, whatever number the limit is.
pub proof fn law_infinity_is_far(limits: IgnoreLimits, before: Sample, x: Sample)
    requires
        crate::number_laws::finite(limits.max_value_diff),
        crate::number_laws::finite(before.value),
        binary64::infinite(x.value),
    ensures
        !limits.near(before, x),
        !limits.near(x, before),
{
    law_near_either_way(limits, before, x);
}

/// Where there is no telling how far two values lie apart, a NaN being one of them or the limit, or both
/// being the same infinity, they are not too far apart; nor are they where the limit is infinite.
pub proof fn law_untold_is_not_far(limits: IgnoreLimits, before: Sample, x: Sample)
    requires
        ({
            let limit = limits.max_value_diff;
            ||| binary64::nan(before.value) || binary64::nan(x.value) || binary64::nan(limit)
            ||| binary64::infinite(x.value) && x.value == before.value
            ||| limit == binary64::INFINITY
        }),
    ensures
        limits.near(before, x) <==> crate::number_laws::apart(
            before.timestamp as int,
            x.timestamp as int,
        ) <= limits.max_time_diff,
{
    let distance = value_distance(x.value, before.value);
    assert(binary64::magnitude(distance) == distance);
}

} // verus!
