//! What is read back where several values were written at the same time, policy by policy, and what
//! is reported of each write.
use vstd::prelude::*;

use crate::aggregate_laws;
use crate::binary64;
use crate::common::{DuplicatePolicy, Sample, SampleAddResult, Timestamp};
use crate::context::ContextView;
use crate::number_laws;
use crate::series::SeriesView;

verus! {

/// The samples at the time `t`, in the order in which they came.
pub open spec fn arrivals(samples: Seq<Sample>, t: Timestamp) -> Seq<Sample> {
    samples.filter(|x: Sample| x.timestamp == t)
}

/// The values of the samples, each added to what the ones before it come to, rounded; the first one is
/// as it is.
pub open spec fn summed(all: Seq<Sample>) -> u64
    decreases all.len(),
{
    if all.len() <= 1 {
        all[0].value
    } else {
        binary64::sum_of(summed(all.drop_last()), all.last().value)
    }
}

/// Whether `value` is what the policy keeps of the samples `all`, which came one after the other at
/// the same time: the first one under `BLOCK` and `FIRST`, the last one under `LAST`, the smallest
/// and the largest under `MIN` and `MAX`, NaNs being passed over, and what they come to under `SUM`.
pub open spec fn decided(policy: DuplicatePolicy, all: Seq<Sample>, value: u64) -> bool {
    match policy {
        DuplicatePolicy::Block => value == all[0].value,
        DuplicatePolicy::KeepFirst => value == all[0].value,
        DuplicatePolicy::KeepLast => value == all.last().value,
        DuplicatePolicy::Min => {
            &&& binary64::nan(value) == !aggregate_laws::has_number(all)
            &&& aggregate_laws::has_value(all, value)
            &&& forall|i: int| 0 <= i < all.len() ==> !binary64::less((#[trigger] all[i]).value, value)
        },
        DuplicatePolicy::Max => {
            &&& binary64::nan(value) == !aggregate_laws::has_number(all)
            &&& aggregate_laws::has_value(all, value)
            &&& forall|i: int| 0 <= i < all.len() ==> !binary64::less(value, (#[trigger] all[i]).value)
        },
        DuplicatePolicy::Sum => {
            &&& value == summed(all)
            &&& all.len() == 2 && number_laws::finite(all[0].value) && number_laws::finite(
                all[1].value,
            ) ==> number_laws::nearest_to(
                value,
                binary64::units(all[0].value) + binary64::units(all[1].value),
                1,
            )
            &&& forall|k: nat|
                #[trigger] aggregate_laws::adds_up(all, k) ==> number_laws::finite(value)
                    && binary64::units(value) == aggregate_laws::exact_total(all)
        },
    }
}

proof fn lemma_arrivals_push(samples: Seq<Sample>, x: Sample, t: Timestamp)
    ensures
        arrivals(samples.push(x), t) == if x.timestamp == t {
            arrivals(samples, t).push(x)
        } else {
            arrivals(samples, t)
        },
{
    reveal(Seq::filter);
    assert(samples.push(x).drop_last() =~= samples);
}

proof fn lemma_no_arrivals(samples: Seq<Sample>, t: Timestamp)
    requires
        !crate::chunk::has_time(samples, t),
    ensures
        arrivals(samples, t) == Seq::<Sample>::empty(),
    decreases samples.len(),
{
    reveal(Seq::filter);
    if samples.len() > 0 {
        let d = samples.drop_last();
        let x = samples.last();
        assert(d.push(x) =~= samples);
        assert(samples[samples.len() - 1].timestamp != t);
        if crate::chunk::has_time(d, t) {
            let i = choose|i: int| 0 <= i < d.len() && (#[trigger] d[i]).timestamp == t;
            assert(samples[i].timestamp == t);
        }
        lemma_no_arrivals(d, t);
        lemma_arrivals_push(d, x, t);
    }
}

/// Of ascending samples, at most one came at a time.
proof fn lemma_stored_arrival(s: Seq<Sample>, t: Timestamp)
    requires
        crate::chunk::ascending(s),
    ensures
        match crate::values::value_at(s, t) {
            Some(value) => arrivals(s, t) == seq![Sample { timestamp: t, value }],
            None => arrivals(s, t) == Seq::<Sample>::empty(),
        },
    decreases s.len(),
{
    crate::chunk::law_taken(s, t);
    if !crate::chunk::taken(s, t) {
        assert(!crate::chunk::has_time(s, t));
        lemma_no_arrivals(s, t);
    } else {
        let n = s.len() - 1;
        let d = s.drop_last();
        let x = s.last();
        assert(d.push(x) =~= s);
        lemma_arrivals_push(d, x, t);
        assert(crate::chunk::ascending(d)) by {
            assert forall|i: int, j: int| 0 <= i < j < d.len() implies (
            #[trigger] d[i]).timestamp < (#[trigger] d[j]).timestamp by {
                assert(s[i].timestamp < s[j].timestamp);
            }
        }
        if x.timestamp == t {
            crate::values::lemma_value_of(s, n);
            if crate::chunk::has_time(d, t) {
                let i = choose|i: int| 0 <= i < d.len() && (#[trigger] d[i]).timestamp == t;
                assert(s[i].timestamp < s[n].timestamp);
            }
            lemma_no_arrivals(d, t);
            assert(arrivals(s, t) =~= seq![Sample { timestamp: t, value: x.value }]);
        } else {
            let i = choose|i: int| 0 <= i < s.len() && (#[trigger] s[i]).timestamp == t;
            crate::values::lemma_value_of(s, i);
            assert(d[i] == s[i]);
            crate::values::lemma_value_of(d, i);
            lemma_stored_arrival(d, t);
        }
    }
}

/// One sample alone is decided by its value.
proof fn lemma_decided_alone(policy: DuplicatePolicy, x: Sample)
    ensures
        decided(policy, seq![x], x.value),
{
    let all = seq![x];
    assert(all[0] == x);
    assert(all.last() == x);
    assert(aggregate_laws::has_value(all, x.value));
    assert(aggregate_laws::has_number(all) == !binary64::nan(x.value));
    assert forall|k: nat| #[trigger] aggregate_laws::adds_up(all, k) implies number_laws::finite(
        x.value,
    ) && binary64::units(x.value) == aggregate_laws::exact_total(all) by {
        assert(number_laws::finite(all[0].value));
        assert(all.drop_last() =~= Seq::<Sample>::empty());
        reveal_with_fuel(aggregate_laws::exact_total, 2);
    }
}

proof fn lemma_adds_up_before(all: Seq<Sample>, x: Sample, k: nat)
    requires
        aggregate_laws::adds_up(all.push(x), k),
    ensures
        aggregate_laws::adds_up(all, k),
        number_laws::finite(x.value),
        aggregate_laws::exact_total(all.push(x)) == aggregate_laws::exact_total(all)
            + binary64::units(x.value),
        exists|c: u64|
            number_laws::finite(c) && #[trigger] binary64::units(c)
                == aggregate_laws::exact_total(all.push(x)),
{
    let more = all.push(x);
    assert(more.drop_last() =~= all);
    assert(more[all.len() as int] == x);
    assert forall|i: int| 0 <= i < all.len() implies number_laws::finite((#[trigger] all[i]).value)
        && binary64::units(all[i].value) % (vstd::arithmetic::power2::pow2(k) as int) == 0 by {
        assert(more[i] == all[i]);
    }
    aggregate_laws::lemma_total_exact(more, k);
    let c = aggregate_laws::lemma_encoding(aggregate_laws::exact_total(more), k);
    assert(number_laws::finite(c) && binary64::units(c) == aggregate_laws::exact_total(more));
}

/// One more sample at the same time is decided by what the policy keeps.
proof fn lemma_decided_next(policy: DuplicatePolicy, all: Seq<Sample>, value: u64, x: Sample)
    requires
        all.len() > 0,
        decided(policy, all, value),
    ensures
        ({
            let next = match policy.kept(value, x.value) {
                Some(kept) => kept,
                None => value,
            };
            decided(policy, all.push(x), next)
        }),
{
    let more = all.push(x);
    let next = match policy.kept(value, x.value) {
        Some(kept) => kept,
        None => value,
    };
    assert(more.drop_last() =~= all);
    assert(more[0] == all[0]);
    assert(more.last() == x);
    aggregate_laws::lemma_earlier(more);
    match policy {
        DuplicatePolicy::Min => {
            number_laws::law_smaller(value, x.value);
            assert forall|i: int| 0 <= i < more.len() implies !binary64::less(
                (#[trigger] more[i]).value,
                next,
            ) by {
                if i < all.len() {
                    assert(more[i] == all[i]);
                }
            }
        },
        DuplicatePolicy::Max => {
            number_laws::law_larger(value, x.value);
            assert forall|i: int| 0 <= i < more.len() implies !binary64::less(
                next,
                (#[trigger] more[i]).value,
            ) by {
                if i < all.len() {
                    assert(more[i] == all[i]);
                }
            }
        },
        DuplicatePolicy::Sum => {
            if more.len() == 2 {
                assert(more[1] == x);
                assert(summed(all) == all[0].value);
                if number_laws::finite(all[0].value) && number_laws::finite(x.value) {
                    number_laws::law_sum_is_nearest(all[0].value, x.value);
                }
            }
            assert forall|k: nat| #[trigger]
                aggregate_laws::adds_up(more, k) implies number_laws::finite(next)
                && binary64::units(next) == aggregate_laws::exact_total(more) by {
                lemma_adds_up_before(all, x, k);
                let c = choose|c: u64|
                    number_laws::finite(c) && #[trigger] binary64::units(c)
                        == aggregate_laws::exact_total(more);
                number_laws::law_sum_exact(value, x.value, c);
            }
        },
        _ => {},
    }
}

/// What is stored at a time behind a batch is decided by all that came there.
proof fn lemma_settled_decided(
    s: Seq<Sample>,
    batch: Seq<Sample>,
    t: Timestamp,
    policy: DuplicatePolicy,
)
    requires
        crate::chunk::ascending(s),
    ensures
        ({
            let all = arrivals(s + batch, t);
            match crate::values::settled(crate::values::value_at(s, t), batch, t, policy) {
                Some(value) => all.len() > 0 && decided(policy, all, value),
                None => all.len() == 0,
            }
        }),
    decreases batch.len(),
{
    if batch.len() == 0 {
        assert(s + batch =~= s);
        lemma_stored_arrival(s, t);
        if let Some(value) = crate::values::value_at(s, t) {
            lemma_decided_alone(policy, Sample { timestamp: t, value });
        }
    } else {
        let d = batch.drop_last();
        let x = batch.last();
        lemma_settled_decided(s, d, t, policy);
        assert((s + d).push(x) =~= s + batch);
        lemma_arrivals_push(s + d, x, t);
        let all = arrivals(s + d, t);
        if x.timestamp == t {
            match crate::values::settled(crate::values::value_at(s, t), d, t, policy) {
                Some(value) => {
                    lemma_decided_next(policy, all, value, x);
                },
                None => {
                    assert(all.push(x) =~= seq![x]);
                    lemma_decided_alone(policy, x);
                },
            }
        }
    }
}

/// Samples in order of time are let in, in order of time.
pub(crate) proof fn lemma_admitted_in_time(series: SeriesView, samples: Seq<Sample>)
    requires
        crate::sorting::in_order(samples, crate::sorting::sample_time()),
    ensures
        crate::placement::in_time(crate::grouping::admitted(series, samples)),
        exists|n: int|
            0 <= n <= samples.len() && crate::grouping::admitted(series, samples)
                == #[trigger] samples.skip(n) && forall|i: int|
                0 <= i < n ==> (#[trigger] samples[i]).timestamp < series.min_timestamp(),
{
    let key = crate::sorting::sample_time();
    let too_old = crate::grouping::older_than(series.min_timestamp());
    let n = crate::grouping::leading(samples, too_old) as int;
    crate::grouping::lemma_leading(samples, too_old);
    let kept = crate::grouping::admitted(series, samples);
    assert forall|i: int, j: int| 0 <= i <= j < kept.len() implies (#[trigger] kept[i]).timestamp
        <= (#[trigger] kept[j]).timestamp by {
        assert(key(samples[n + i]) <= key(samples[n + j]));
    }
    assert forall|i: int| 0 <= i < n implies (#[trigger] samples[i]).timestamp
        < series.min_timestamp() by {
        assert(too_old(samples[i]));
    }
    assert(kept == samples.skip(n));
}

/// Samples in order of time being written into a series, a read gives back at every time that the
/// retention keeps what the policy makes of the sample that was stored there and of all those written
/// there, in order: the first of them, the last, the smallest, the largest, or their sum.
pub proof fn law_policy_decides(
    ctx: ContextView,
    series: SeriesView,
    samples: Seq<Sample>,
    policy: DuplicatePolicy,
    depth: nat,
    x: Sample,
)
    requires
        series.wf(),
        series.chunks.len() <= usize::MAX,
        crate::sorting::in_order(samples, crate::sorting::sample_time()),
        x.timestamp >= series.min_timestamp(),
        crate::bulk_add::bulk_inserted(ctx, series, samples, policy, depth).1.samples().contains(x),
    ensures
        arrivals(series.samples() + samples, x.timestamp).len() > 0,
        decided(policy, arrivals(series.samples() + samples, x.timestamp), x.value),
{
    let s = series.samples();
    let t = x.timestamp;
    let kept = crate::grouping::admitted(series, samples);
    let v = crate::values::value_at(s, t);
    lemma_admitted_in_time(series, samples);
    let n = choose|n: int|
        0 <= n <= samples.len() && kept == #[trigger] samples.skip(n) && forall|i: int|
            0 <= i < n ==> (#[trigger] samples[i]).timestamp < series.min_timestamp();
    crate::bulk_add::law_compacting_leaves_samples(ctx, series, samples, policy, depth);
    crate::read_back::law_chunks_are_one_run(series, samples, policy);
    crate::chunk::law_merge(s, kept, policy);
    crate::values::law_settled(s, kept, t, policy);
    crate::values::lemma_stored(crate::chunk::merged(s, kept, policy), x);
    let old_ones = samples.take(n);
    if crate::chunk::has_time(old_ones, t) {
        let i = choose|i: int| 0 <= i < old_ones.len() && (#[trigger] old_ones[i]).timestamp == t;
        assert(samples[i].timestamp == t);
    }
    crate::values::lemma_unsettled(v, old_ones, t, policy);
    crate::values::lemma_settled_add(v, old_ones, kept, t, policy);
    assert(old_ones + kept =~= samples);
    lemma_settled_decided(s, samples, t, policy);
}

/// What is reported of each sample that is let in: under `BLOCK` it is a duplicate where its time was
/// taken, by the series or by an earlier one of the batch; under every other policy it is folded into
/// an earlier one of the batch at the same time, where there is one. Everything else is stored, and
/// no sample is refused. What is reported is read back, where no later one of the batch has the time.
pub proof fn law_reports(
    ctx: ContextView,
    series: SeriesView,
    samples: Seq<Sample>,
    policy: DuplicatePolicy,
    depth: nat,
    i: int,
)
    requires
        series.wf(),
        series.chunks.len() <= usize::MAX,
        crate::sorting::in_order(samples, crate::sorting::sample_time()),
        0 <= i < crate::grouping::admitted(series, samples).len(),
    ensures
        ({
            let kept = crate::grouping::admitted(series, samples);
            let results = crate::bulk_add::insert_results(series, samples, policy);
            let after = crate::bulk_add::bulk_inserted(ctx, series, samples, policy, depth).1;
            let t = kept[i].timestamp;
            let again = crate::chunk::has_time(kept.take(i), t);
            let taken = again || crate::chunk::has_time(series.samples(), t);
            &&& results.len() == kept.len()
            &&& results[i] is Duplicate <==> policy is Block && taken
            &&& results[i] is Merged <==> !(policy is Block) && again
            &&& !(results[i] is Error)
            &&& match results[i] {
                SampleAddResult::Stored(y) => {
                    &&& y.timestamp == t
                    &&& !taken ==> y == kept[i]
                    &&& (forall|j: int| i < j < kept.len() ==> (#[trigger] kept[j]).timestamp != t)
                        ==> after.samples().contains(y)
                },
                SampleAddResult::Merged(y) => {
                    &&& y.timestamp == t
                    &&& (forall|j: int| i < j < kept.len() ==> (#[trigger] kept[j]).timestamp != t)
                        ==> after.samples().contains(y)
                },
                _ => true,
            }
        }),
{
    let s = series.samples();
    let kept = crate::grouping::admitted(series, samples);
    let t = kept[i].timestamp;
    let x = kept[i];
    let v = crate::values::value_at(s, t);
    let front = kept.take(i);
    lemma_admitted_in_time(series, samples);
    crate::bulk_add::law_compacting_leaves_samples(ctx, series, samples, policy, depth);
    crate::read_back::law_chunks_are_one_run(series, samples, policy);
    crate::read_back::law_results_are_of_one_run(series, samples, policy);
    crate::chunk::law_merge(s, front, policy);
    crate::chunk::law_merge(s, kept, policy);
    let m = crate::chunk::merged(s, front, policy);
    crate::chunk::law_taken(s, t);
    crate::chunk::law_taken(m, t);
    crate::values::law_settled(s, front, t, policy);
    crate::values::law_settled(s, kept, t, policy);
    let upto = kept.take(i + 1);
    let behind = kept.skip(i + 1);
    assert(upto.drop_last() =~= front);
    assert(upto + behind =~= kept);
    crate::values::lemma_settled_add(v, upto, behind, t, policy);
    let whole = crate::chunk::merged(s, kept, policy);
    if forall|j: int| i < j < kept.len() ==> (#[trigger] kept[j]).timestamp != t {
        if crate::chunk::has_time(behind, t) {
            let j = choose|j: int|
                0 <= j < behind.len() && (#[trigger] behind[j]).timestamp == t;
            assert(kept[i + 1 + j].timestamp == t);
        }
        let now = crate::values::settled(v, upto, t, policy);
        crate::values::lemma_unsettled(now, behind, t, policy);
        match crate::bulk_add::insert_results(series, samples, policy)[i] {
            SampleAddResult::Stored(y) => {
                crate::values::lemma_stored(whole, y);
            },
            SampleAddResult::Merged(y) => {
                crate::values::lemma_stored(whole, y);
            },
            _ => {},
        }
    }
}

} // verus!
