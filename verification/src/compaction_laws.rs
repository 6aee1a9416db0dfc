//! What holds of compactions: which times are aggregated anew, and what the aggregates are.
use vstd::prelude::*;

use crate::aggregators::{AggregationType, Aggregator};
use crate::common::{Sample, Timestamp};
use crate::compaction::Walk;
use crate::ranges::TimeRange;
use crate::series::{CompactionRule, SeriesView};

verus! {

/// A later time never lies in an earlier bucket.
pub proof fn law_buckets_in_order(rule: CompactionRule, a: Timestamp, b: Timestamp)
    requires
        rule.wf(),
        a <= b,
    ensures
        rule.bucket_of(a) <= rule.bucket_of(b),
        rule.bucket_end(a) <= rule.bucket_end(b),
{
    let d = rule.bucket_duration as int;
    let x = a - rule.align_timestamp;
    let y = b - rule.align_timestamp;
    vstd::arithmetic::div_mod::lemma_fundamental_div_mod(x, d);
    vstd::arithmetic::div_mod::lemma_fundamental_div_mod(y, d);
    vstd::arithmetic::div_mod::lemma_div_is_ordered(x, y, d);
    assert(d * (x / d) <= d * (y / d)) by (nonlinear_arith)
        requires
            d > 0,
            x / d <= y / d,
    ;
}

/// Whether the bucket of a time starts at a time that can be told.
pub open spec fn unclipped(rule: CompactionRule, t: Timestamp) -> bool {
    t - (t - rule.align_timestamp) % (rule.bucket_duration as int) >= i64::MIN
}

/// The start of such a bucket lies in the bucket, and so does its end.
pub(crate) proof fn lemma_bucket_bounds(rule: CompactionRule, t: Timestamp)
    requires
        rule.wf(),
        unclipped(rule, t),
    ensures
        rule.bucket_of(rule.bucket_of(t) as Timestamp) == rule.bucket_of(t),
        rule.bucket_of(rule.bucket_end(t) as Timestamp) == rule.bucket_of(t),
{
    let d = rule.bucket_duration as int;
    let x = t - rule.align_timestamp;
    vstd::arithmetic::div_mod::lemma_mod_bound(x, d);
    let s = t - x % d;
    let q = x / d;
    vstd::arithmetic::div_mod::lemma_fundamental_div_mod(x, d);
    assert(s - rule.align_timestamp == q * d + 0) by (nonlinear_arith)
        requires
            s - rule.align_timestamp == x - x % d,
            x == d * q + x % d,
    ;
    assert(rule.bucket_of(t) == s);
    vstd::arithmetic::div_mod::lemma_fundamental_div_mod_converse(
        s - rule.align_timestamp,
        d,
        q,
        0,
    );
    let e = rule.bucket_end(t);
    let over = e - s;
    assert(0 <= over < d);
    assert(e - rule.align_timestamp == q * d + over);
    vstd::arithmetic::div_mod::lemma_fundamental_div_mod_converse(
        e - rule.align_timestamp,
        d,
        q,
        over,
    );
}

/// The last run of samples in order of time reaches from no later than the bucket of the last
/// sample to its end, and every bucket of a sample is covered.
proof fn lemma_runs_cover(rule: CompactionRule, samples: Seq<Sample>, i: int, t: int)
    requires
        rule.wf(),
        crate::sorting::in_order(samples, crate::sorting::sample_time()),
        0 <= i < samples.len(),
        rule.bucket_of(samples[i].timestamp) <= t <= rule.bucket_end(samples[i].timestamp),
    ensures
        ({
            let runs = crate::compaction::input_runs(rule, samples);
            &&& runs.len() > 0
            &&& runs.last().0 <= rule.bucket_of(samples.last().timestamp)
            &&& runs.last().1 == rule.bucket_end(samples.last().timestamp)
            &&& crate::ranges::covered(runs, t)
        }),
    decreases samples.len(),
{
    let runs = crate::compaction::input_runs(rule, samples);
    let d = samples.drop_last();
    let x = samples.last();
    let n = samples.len() - 1;
    let next = crate::compaction::bucket_range(rule, x.timestamp);
    let before = crate::compaction::input_runs(rule, d);
    crate::series::law_time_in_bucket(rule, x.timestamp);
    assert(crate::sorting::in_order(d, crate::sorting::sample_time())) by {
        assert forall|a: int, b: int| 0 <= a <= b < d.len() implies crate::sorting::sample_time()(
            #[trigger] d[a],
        ) <= crate::sorting::sample_time()(#[trigger] d[b]) by {
            assert(crate::sorting::sample_time()(samples[a]) <= crate::sorting::sample_time()(
                samples[b],
            ));
        }
    }
    if d.len() > 0 {
        let y = d.last();
        assert(y == samples[n - 1]);
        assert(crate::sorting::sample_time()(samples[n - 1]) <= crate::sorting::sample_time()(
            samples[n],
        ));
        law_buckets_in_order(rule, y.timestamp, x.timestamp);
        crate::series::law_time_in_bucket(rule, y.timestamp);
        let j = if i < n {
            i
        } else {
            n - 1
        };
        let u = if i < n {
            t
        } else {
            y.timestamp as int
        };
        assert(d[j] == samples[j]);
        lemma_runs_cover(rule, d, j, u);
        let merges = crate::common::saturate(next.0 - before.last().1) <= rule.bucket_duration;
        let last = before.len() - 1;
        if i < n {
            let k = choose|k: int| 0 <= k < before.len() && (#[trigger] before[k]).0 <= t
                <= before[k].1;
            assert(runs[k].0 <= t <= runs[k].1);
        } else if merges {
            assert(runs[last].0 <= t <= runs[last].1);
        } else {
            assert(runs[before.len() as int].0 <= t <= runs[before.len() as int].1);
        }
    } else {
        assert(before =~= Seq::<TimeRange>::empty());
        assert(runs[0].0 <= t <= runs[0].1);
    }
}

/// Where samples in order of time were written, the whole bucket of each of them is aggregated anew.
pub proof fn law_buckets_of_samples_are_covered(
    rule: CompactionRule,
    samples: Seq<Sample>,
    i: int,
    t: int,
)
    requires
        rule.wf(),
        crate::sorting::in_order(samples, crate::sorting::sample_time()),
        0 <= i < samples.len(),
        rule.bucket_of(samples[i].timestamp) <= t <= rule.bucket_end(samples[i].timestamp),
    ensures
        crate::compaction::input_times(rule, samples).contains(t),
{
    lemma_runs_cover(rule, samples, i, t);
}

/// Every run starts where the bucket of a sample does, and ends where the bucket of one does.
proof fn lemma_runs_of_buckets(rule: CompactionRule, samples: Seq<Sample>, k: int)
    requires
        0 <= k < crate::compaction::input_runs(rule, samples).len(),
    ensures
        exists|i: int|
            0 <= i < samples.len() && crate::compaction::input_runs(rule, samples)[k].0
                == rule.bucket_of((#[trigger] samples[i]).timestamp),
        exists|i: int|
            0 <= i < samples.len() && crate::compaction::input_runs(rule, samples)[k].1
                == rule.bucket_end((#[trigger] samples[i]).timestamp),
    decreases samples.len(),
{
    let runs = crate::compaction::input_runs(rule, samples);
    let d = samples.drop_last();
    let before = crate::compaction::input_runs(rule, d);
    let n = samples.len() - 1;
    let next = crate::compaction::bucket_range(rule, samples[n].timestamp);
    if k < before.len() {
        lemma_runs_of_buckets(rule, d, k);
        let i = choose|i: int|
            0 <= i < d.len() && before[k].0 == rule.bucket_of((#[trigger] d[i]).timestamp);
        let j = choose|j: int|
            0 <= j < d.len() && before[k].1 == rule.bucket_end((#[trigger] d[j]).timestamp);
        assert(samples[i] == d[i] && samples[j] == d[j]);
        assert(runs[k].0 == before[k].0);
        if runs[k].1 == next.1 {
            assert(runs[k].1 == rule.bucket_end(samples[n].timestamp));
        } else {
            assert(runs[k].1 == before[k].1);
        }
        assert(runs[k].0 == rule.bucket_of(samples[i].timestamp));
    } else {
        assert(runs[k] == next);
        assert(runs[k].0 == rule.bucket_of(samples[n].timestamp));
    }
}

/// The times that are aggregated anew are whole buckets, where the buckets of the samples that were
/// written are unclipped.
pub proof fn law_whole_buckets(
    rule: CompactionRule,
    samples: Seq<Sample>,
    t: Timestamp,
    u: Timestamp,
)
    requires
        rule.wf(),
        forall|i: int|
            0 <= i < samples.len() ==> unclipped(rule, (#[trigger] samples[i]).timestamp),
        crate::compaction::input_times(rule, samples).contains(t as int),
        rule.bucket_of(t) == rule.bucket_of(u),
    ensures
        crate::compaction::input_times(rule, samples).contains(u as int),
{
    let runs = crate::compaction::input_runs(rule, samples);
    let k = choose|k: int| 0 <= k < runs.len() && (#[trigger] runs[k]).0 <= t <= runs[k].1;
    lemma_runs_of_buckets(rule, samples, k);
    let i = choose|i: int|
        0 <= i < samples.len() && runs[k].0 == rule.bucket_of((#[trigger] samples[i]).timestamp);
    let j = choose|j: int|
        0 <= j < samples.len() && runs[k].1 == rule.bucket_end((#[trigger] samples[j]).timestamp);
    let a = runs[k].0;
    let b = runs[k].1;
    lemma_bucket_bounds(rule, samples[i].timestamp);
    lemma_bucket_bounds(rule, samples[j].timestamp);
    law_buckets_in_order(rule, a, t);
    law_buckets_in_order(rule, t, b);
    crate::series::law_time_in_bucket(rule, u);
    assert(a <= u);
    if u > b {
        law_buckets_in_order(rule, b, u);
        assert(rule.bucket_of(u) == rule.bucket_of(samples[j].timestamp));
        assert(rule.bucket_end(u) == rule.bucket_end(samples[j].timestamp));
    }
    assert(runs[k].0 <= u <= runs[k].1);
}

/// Of the ranges that are aggregated anew where samples in order of time were written, at most one
/// ends in the bucket that still takes in samples, so the running aggregation that is kept is that
/// of the only one.
pub proof fn law_one_range_ends_open(
    source: SeriesView,
    rule: CompactionRule,
    samples: Seq<Sample>,
    i: int,
    j: int,
)
    requires
        rule.wf(),
        crate::sorting::in_order(samples, crate::sorting::sample_time()),
        0 <= i < j < crate::ranges::ranges_of(
            crate::compaction::input_times(rule, samples),
        ).len(),
    ensures
        ({
            let ranges = crate::ranges::ranges_of(crate::compaction::input_times(rule, samples));
            crate::compaction::range_outcome(source, rule, ranges[i]).1 is None
                || crate::compaction::range_outcome(source, rule, ranges[j]).1 is None
        }),
{
    let ranges = crate::ranges::ranges_of(crate::compaction::input_times(rule, samples));
    lemma_ranges_apart(rule, samples);
    if crate::compaction::range_outcome(source, rule, ranges[i]).1 is Some
        && crate::compaction::range_outcome(source, rule, ranges[j]).1 is Some {
        let x = lemma_open_end(source, rule, ranges[i]);
        let y = lemma_open_end(source, rule, ranges[j]);
        assert(ranges[i].1 + rule.bucket_duration < ranges[j].0);
        lemma_buckets_apart(rule, x.timestamp, y.timestamp);
    }
}

/// A walk ends in the bucket of its last sample.
proof fn lemma_walk_bucket(start: Walk, rule: CompactionRule, samples: Seq<Sample>)
    ensures
        start.over(rule, samples).bucket == if samples.len() == 0 {
            start.bucket
        } else {
            Some(rule.bucket_of(samples.last().timestamp) as Timestamp)
        },
{
}

/// A range that ends open has a sample in the bucket that still takes in samples.
proof fn lemma_open_end(source: SeriesView, rule: CompactionRule, range: TimeRange) -> (x: Sample)
    requires
        crate::compaction::range_outcome(source, rule, range).1 is Some,
    ensures
        range.0 <= x.timestamp <= range.1,
        rule.bucket_start == Some(rule.bucket_of(x.timestamp) as Timestamp),
{
    let all = source.samples();
    let s = crate::series::within(all, range.0, range.1);
    let start = crate::compaction::walk_start(rule, range);
    lemma_walk_bucket(start, rule, s);
    let x = s.last();
    lemma_within(all, range.0, range.1, s.len() - 1);
    x
}

proof fn lemma_within(s: Seq<Sample>, start: Timestamp, end: Timestamp, i: int)
    requires
        0 <= i < crate::series::within(s, start, end).len(),
    ensures
        start <= crate::series::within(s, start, end)[i].timestamp <= end,
    decreases s.len(),
{
    reveal(Seq::filter);
    let f = |x: Sample| start <= x.timestamp <= end;
    if s.len() > 0 {
        let d = s.drop_last();
        if i < d.filter(f).len() {
            lemma_within(d, start, end, i);
        }
    }
}

/// The samples that lie in the bucket that starts at `b`.
pub open spec fn in_bucket(rule: CompactionRule, samples: Seq<Sample>, b: Timestamp) -> Seq<Sample> {
    samples.filter(|x: Sample| rule.bucket_of(x.timestamp) == b)
}

/// The aggregate of the samples that lie in the bucket that starts at `b`.
pub open spec fn bucket_aggregate(
    rule: CompactionRule,
    kind: AggregationType,
    samples: Seq<Sample>,
    b: Timestamp,
) -> Sample {
    Sample {
        timestamp: b,
        value: crate::aggregators::fresh(kind).fed(in_bucket(rule, samples, b)).result(),
    }
}

/// The running aggregation at the start of the bucket `b`, on a walk over samples in order of time
/// that starts with `start`: it goes on into the first bucket, and starts anew at every other.
pub open spec fn begun(
    rule: CompactionRule,
    start: Aggregator,
    samples: Seq<Sample>,
    b: Timestamp,
) -> Aggregator {
    if samples.len() > 0 && rule.bucket_of(samples[0].timestamp) == b {
        start
    } else {
        crate::aggregators::fresh(start.kind)
    }
}

/// The running aggregation behind the samples that lie in the bucket `b`.
pub open spec fn walked(
    rule: CompactionRule,
    start: Aggregator,
    samples: Seq<Sample>,
    b: Timestamp,
) -> Aggregator {
    begun(rule, start, samples, b).fed(in_bucket(rule, samples, b))
}

/// Whether `out` holds one aggregate for each bucket of the samples that comes before `end` and does
/// not still take in samples, in order of time.
spec fn finished_before(
    rule: CompactionRule,
    start: Aggregator,
    samples: Seq<Sample>,
    out: Seq<Sample>,
    end: int,
) -> bool {
    &&& forall|i: int, j: int|
        0 <= i < j < out.len() ==> (#[trigger] out[i]).timestamp < (#[trigger] out[j]).timestamp
    &&& forall|i: int|
        0 <= i < out.len() ==> (#[trigger] out[i]).timestamp < end && out[i].value == walked(
            rule,
            start,
            samples,
            out[i].timestamp,
        ).result() && in_bucket(rule, samples, out[i].timestamp).len() > 0 && rule.bucket_start
            != Some(out[i].timestamp)
    &&& forall|k: int|
        0 <= k < samples.len() && rule.bucket_of((#[trigger] samples[k]).timestamp) < end
            && rule.bucket_start != Some(rule.bucket_of(samples[k].timestamp) as Timestamp)
            ==> exists|i: int|
            0 <= i < out.len() && (#[trigger] out[i]).timestamp == rule.bucket_of(
                samples[k].timestamp,
            )
}

proof fn lemma_in_bucket_push(rule: CompactionRule, samples: Seq<Sample>, x: Sample, b: Timestamp)
    ensures
        in_bucket(rule, samples.push(x), b) == if rule.bucket_of(x.timestamp) == b {
            in_bucket(rule, samples, b).push(x)
        } else {
            in_bucket(rule, samples, b)
        },
{
    reveal(Seq::filter);
    assert(samples.push(x).drop_last() =~= samples);
}

proof fn lemma_in_bucket_none(rule: CompactionRule, samples: Seq<Sample>, b: Timestamp)
    requires
        forall|k: int|
            0 <= k < samples.len() ==> rule.bucket_of((#[trigger] samples[k]).timestamp) != b,
    ensures
        in_bucket(rule, samples, b) == Seq::<Sample>::empty(),
    decreases samples.len(),
{
    reveal(Seq::filter);
    if samples.len() > 0 {
        let d = samples.drop_last();
        assert forall|k: int| 0 <= k < d.len() implies rule.bucket_of(
            (#[trigger] d[k]).timestamp,
        ) != b by {
            assert(d[k] == samples[k]);
        }
        lemma_in_bucket_none(rule, d, b);
        assert(samples.last() == samples[samples.len() - 1]);
    }
}

/// A walk over samples in order of time.
proof fn lemma_walk(rule: CompactionRule, start: Aggregator, samples: Seq<Sample>)
    requires
        rule.wf(),
        crate::sorting::in_order(samples, crate::sorting::sample_time()),
        samples.len() > 0,
    ensures
        ({
            let w = crate::compaction::walk_with(start).over(rule, samples);
            let b = rule.bucket_of(samples.last().timestamp) as Timestamp;
            &&& w.bucket == Some(b)
            &&& w.aggregator == walked(rule, start, samples, b)
            &&& finished_before(rule, start, samples, w.finished, b as int)
            &&& forall|k: int|
                0 <= k < samples.len() ==> rule.bucket_of((#[trigger] samples[k]).timestamp) <= b
        }),
    decreases samples.len(),
{
    let begin = crate::compaction::walk_with(start);
    let d = samples.drop_last();
    let x = samples.last();
    let n = samples.len() - 1;
    let b = rule.bucket_of(x.timestamp) as Timestamp;
    let w = begin.over(rule, samples);
    assert(d.push(x) =~= samples);
    assert(samples[n] == x);
    lemma_in_bucket_push(rule, d, x, b);
    assert forall|k: int| 0 <= k < samples.len() implies rule.bucket_of(
        (#[trigger] samples[k]).timestamp,
    ) <= b by {
        assert(crate::sorting::sample_time()(samples[k]) <= crate::sorting::sample_time()(
            samples[n],
        ));
        law_buckets_in_order(rule, samples[k].timestamp, x.timestamp);
    }
    if d.len() == 0 {
        reveal(Seq::filter);
        assert(in_bucket(rule, d, b) =~= Seq::<Sample>::empty());
        assert(begin.over(rule, d) == begin);
        assert(Seq::<Sample>::empty().push(x).drop_last() =~= Seq::<Sample>::empty());
        assert(start.fed(Seq::<Sample>::empty()) == start);
        assert(start.fed(Seq::<Sample>::empty().push(x)) == start.updated(x.value));
        assert(finished_before(rule, start, samples, w.finished, b as int));
    } else {
        assert(crate::sorting::in_order(d, crate::sorting::sample_time())) by {
            assert forall|i: int, j: int| 0 <= i <= j < d.len() implies
                crate::sorting::sample_time()(#[trigger] d[i]) <= crate::sorting::sample_time()(
                #[trigger] d[j],
            ) by {
                assert(crate::sorting::sample_time()(samples[i])
                    <= crate::sorting::sample_time()(samples[j]));
            }
        }
        lemma_walk(rule, start, d);
        let before = begin.over(rule, d);
        assert(d.last() == samples[n - 1]);
        lemma_walk_step(rule, start, d, x, before);
    }
}

/// One more sample on such a walk.
proof fn lemma_walk_step(
    rule: CompactionRule,
    start: Aggregator,
    d: Seq<Sample>,
    x: Sample,
    before: Walk,
)
    requires
        rule.wf(),
        d.len() > 0,
        before.bucket == Some(rule.bucket_of(d.last().timestamp) as Timestamp),
        before.aggregator == walked(rule, start, d, before.bucket->0),
        finished_before(rule, start, d, before.finished, before.bucket->0 as int),
        forall|k: int|
            0 <= k < d.len() ==> rule.bucket_of((#[trigger] d[k]).timestamp) <= before.bucket->0,
        before.bucket->0 <= rule.bucket_of(x.timestamp),
    ensures
        ({
            let w = before.step(rule, x);
            let b = rule.bucket_of(x.timestamp) as Timestamp;
            &&& w.bucket == Some(b)
            &&& w.aggregator == walked(rule, start, d.push(x), b)
            &&& finished_before(rule, start, d.push(x), w.finished, b as int)
        }),
{
    let all = d.push(x);
    let a = before.bucket->0;
    let b = rule.bucket_of(x.timestamp) as Timestamp;
    let w = before.step(rule, x);
    let begin = begun(rule, start, d, b);
    assert(all[0] == d[0]);
    assert(begun(rule, start, all, b) == begin);
    lemma_in_bucket_push(rule, d, x, b);
    let mine = in_bucket(rule, d, b);
    assert(mine.push(x).drop_last() =~= mine);
    assert(begin.fed(mine.push(x)) == begin.fed(mine).updated(x.value));
    lemma_fed_kind(begun(rule, start, d, a), in_bucket(rule, d, a));
    if a != b {
        assert forall|k: int| 0 <= k < d.len() implies rule.bucket_of(
            (#[trigger] d[k]).timestamp,
        ) != b by {}
        lemma_in_bucket_none(rule, d, b);
        assert(begin.fed(mine) == begin);
    }
    let out = w.finished;
    lemma_last_in_bucket(rule, d);
    assert forall|i: int| 0 <= i < out.len() implies (#[trigger] out[i]).timestamp < b
        && out[i].value == walked(rule, start, all, out[i].timestamp).result() && in_bucket(
        rule,
        all,
        out[i].timestamp,
    ).len() > 0 && rule.bucket_start != Some(out[i].timestamp) by {
        lemma_in_bucket_push(rule, d, x, out[i].timestamp);
        assert(begun(rule, start, all, out[i].timestamp) == begun(
            rule,
            start,
            d,
            out[i].timestamp,
        ));
        if i < before.finished.len() {
            assert(out[i] == before.finished[i]);
        }
    }
    assert forall|i: int, j: int| 0 <= i < j < out.len() implies (#[trigger] out[i]).timestamp < (
    #[trigger] out[j]).timestamp by {
        assert(out[i] == before.finished[i]);
        if j < before.finished.len() {
            assert(out[j] == before.finished[j]);
        }
    }
    assert forall|k: int|
        0 <= k < all.len() && rule.bucket_of((#[trigger] all[k]).timestamp) < b
            && rule.bucket_start != Some(
            rule.bucket_of(all[k].timestamp) as Timestamp,
        ) implies exists|i: int|
        0 <= i < out.len() && (#[trigger] out[i]).timestamp == rule.bucket_of(
            all[k].timestamp,
        ) by {
        assert(all[k] == d[k]);
        if rule.bucket_of(d[k].timestamp) < a {
            let i = choose|i: int|
                0 <= i < before.finished.len() && (#[trigger] before.finished[i]).timestamp
                    == rule.bucket_of(d[k].timestamp);
            assert(out[i] == before.finished[i]);
        } else {
            assert(out[out.len() - 1].timestamp == a);
        }
    }
}

proof fn lemma_last_in_bucket(rule: CompactionRule, samples: Seq<Sample>)
    requires
        samples.len() > 0,
    ensures
        in_bucket(rule, samples, rule.bucket_of(samples.last().timestamp) as Timestamp).len() > 0,
{
    let d = samples.drop_last();
    assert(d.push(samples.last()) =~= samples);
    lemma_in_bucket_push(
        rule,
        d,
        samples.last(),
        rule.bucket_of(samples.last().timestamp) as Timestamp,
    );
}

proof fn lemma_fed_kind(aggregator: Aggregator, samples: Seq<Sample>)
    ensures
        aggregator.fed(samples).kind == aggregator.kind,
    decreases samples.len(),
{
    if samples.len() > 0 {
        lemma_fed_kind(aggregator, samples.drop_last());
    }
}

/// A walk over samples in order of time keeps the buckets apart: what it gives is in order of time,
/// and each aggregate stands at the start of a bucket with samples, and is that of exactly these,
/// the aggregation at the start of the walk going on into the first of them. Where the walk ends in
/// the bucket that still takes in samples, that bucket is not among them, all of them lie before it,
/// and the running aggregation is given instead.
pub proof fn law_walk_keeps_buckets_apart(
    rule: CompactionRule,
    start: Aggregator,
    samples: Seq<Sample>,
    end: Timestamp,
)
    requires
        rule.wf(),
        crate::sorting::in_order(samples, crate::sorting::sample_time()),
    ensures
        ({
            let (out, running) = crate::compaction::walk_with(start).over(rule, samples).outcome(
                rule,
                end,
            );
            &&& crate::chunk::ascending(out)
            &&& forall|i: int|
                0 <= i < out.len() ==> (#[trigger] out[i]).value == walked(
                    rule,
                    start,
                    samples,
                    out[i].timestamp,
                ).result() && in_bucket(rule, samples, out[i].timestamp).len() > 0
            &&& forall|k: int|
                0 <= k < samples.len() && rule.bucket_start != Some(
                    rule.bucket_of((#[trigger] samples[k]).timestamp) as Timestamp,
                ) ==> exists|i: int|
                    0 <= i < out.len() && (#[trigger] out[i]).timestamp == rule.bucket_of(
                        samples[k].timestamp,
                    )
            &&& running is Some ==> rule.bucket_start is Some && running == Some(
                walked(rule, start, samples, rule.bucket_start->0),
            ) && forall|i: int|
                0 <= i < out.len() ==> (#[trigger] out[i]).timestamp < rule.bucket_start->0
        }),
{
    let w = crate::compaction::walk_with(start).over(rule, samples);
    let out = w.outcome(rule, end).0;
    if samples.len() > 0 {
        lemma_walk(rule, start, samples);
        let b = w.bucket->0;
        lemma_last_in_bucket(rule, samples);
        assert forall|i: int, j: int| 0 <= i < j < out.len() implies (#[trigger] out[i]).timestamp
            < (#[trigger] out[j]).timestamp by {
            assert(out[i] == w.finished[i]);
            if j < w.finished.len() {
                assert(out[j] == w.finished[j]);
            }
        }
        assert forall|i: int| 0 <= i < out.len() implies (#[trigger] out[i]).value == walked(
            rule,
            start,
            samples,
            out[i].timestamp,
        ).result() && in_bucket(rule, samples, out[i].timestamp).len() > 0 by {
            if i < w.finished.len() {
                assert(out[i] == w.finished[i]);
            }
        }
        assert forall|k: int|
            0 <= k < samples.len() && rule.bucket_start != Some(
                rule.bucket_of((#[trigger] samples[k]).timestamp) as Timestamp,
            ) implies exists|i: int|
            0 <= i < out.len() && (#[trigger] out[i]).timestamp == rule.bucket_of(
                samples[k].timestamp,
            ) by {
            if rule.bucket_of(samples[k].timestamp) < b {
                let i = choose|i: int|
                    0 <= i < w.finished.len() && (#[trigger] w.finished[i]).timestamp
                        == rule.bucket_of(samples[k].timestamp);
                assert(out[i] == w.finished[i]);
            } else {
                assert(out[out.len() - 1].timestamp == rule.bucket_of(samples[k].timestamp));
            }
        }
    }
}

/// Where no bucket stays open, samples in order of time come to one aggregate for each bucket that
/// has any: it stands at the start of the bucket, it is the aggregate of exactly the samples in the
/// bucket, and the aggregates are in order of time.
pub proof fn law_one_aggregate_per_bucket(
    rule: CompactionRule,
    kind: AggregationType,
    samples: Seq<Sample>,
    end: Timestamp,
)
    requires
        rule.wf(),
        rule.bucket_start is None,
        crate::sorting::in_order(samples, crate::sorting::sample_time()),
    ensures
        ({
            let out = crate::compaction::walk_with(crate::aggregators::fresh(kind)).over(
                rule,
                samples,
            ).outcome(rule, end).0;
            &&& forall|i: int, j: int|
                0 <= i < j < out.len() ==> (#[trigger] out[i]).timestamp < (
                #[trigger] out[j]).timestamp
            &&& forall|i: int|
                0 <= i < out.len() ==> #[trigger] out[i] == bucket_aggregate(
                    rule,
                    kind,
                    samples,
                    out[i].timestamp,
                ) && in_bucket(rule, samples, out[i].timestamp).len() > 0
            &&& forall|k: int|
                0 <= k < samples.len() ==> exists|i: int|
                    0 <= i < out.len() && (#[trigger] out[i]).timestamp == rule.bucket_of(
                        (#[trigger] samples[k]).timestamp,
                    )
        }),
{
    law_walk_keeps_buckets_apart(rule, crate::aggregators::fresh(kind), samples, end);
}

/// Where no bucket stays open, the samples of a series in any range come to one aggregate for each
/// bucket that has any of them: it stands at the start of the bucket, it is the aggregate of exactly
/// those, and the aggregates are in order of time. No running aggregation is left.
pub proof fn law_range_comes_to_buckets(
    source: SeriesView,
    rule: CompactionRule,
    range: TimeRange,
)
    requires
        source.wf(),
        rule.wf(),
        rule.bucket_start is None,
    ensures
        ({
            let samples = crate::series::within(source.samples(), range.0, range.1);
            let (out, running) = crate::compaction::range_outcome(source, rule, range);
            &&& running is None
            &&& crate::chunk::ascending(out)
            &&& forall|i: int|
                0 <= i < out.len() ==> #[trigger] out[i] == bucket_aggregate(
                    rule,
                    rule.aggregator.kind,
                    samples,
                    out[i].timestamp,
                ) && in_bucket(rule, samples, out[i].timestamp).len() > 0
            &&& forall|k: int|
                0 <= k < samples.len() ==> exists|i: int|
                    0 <= i < out.len() && (#[trigger] out[i]).timestamp == rule.bucket_of(
                        (#[trigger] samples[k]).timestamp,
                    )
            &&& samples.len() == 0 ==> out.len() == 0
        }),
{
    let all = source.samples();
    let samples = crate::series::within(all, range.0, range.1);
    lemma_ascending_in_order(all);
    lemma_within_order(all, range.0, range.1);
    law_one_aggregate_per_bucket(rule, rule.aggregator.kind, samples, range.1);
}

pub(crate) proof fn lemma_ascending_in_order(s: Seq<Sample>)
    requires
        crate::chunk::ascending(s),
    ensures
        crate::sorting::in_order(s, crate::sorting::sample_time()),
{
    let key = crate::sorting::sample_time();
    assert forall|i: int, j: int| 0 <= i <= j < s.len() implies key(#[trigger] s[i]) <= key(
        #[trigger] s[j],
    ) by {
        if i < j {
            assert(s[i].timestamp < s[j].timestamp);
        }
    }
}

/// The runs that samples in order of time fall into lie more than a bucket length apart.
proof fn lemma_runs_apart(rule: CompactionRule, samples: Seq<Sample>)
    requires
        rule.wf(),
        crate::sorting::in_order(samples, crate::sorting::sample_time()),
    ensures
        ({
            let runs = crate::compaction::input_runs(rule, samples);
            &&& forall|k: int| 0 <= k < runs.len() ==> (#[trigger] runs[k]).0 <= runs[k].1
            &&& forall|i: int, j: int|
                0 <= i < j < runs.len() ==> (#[trigger] runs[i]).1 + rule.bucket_duration < (
                #[trigger] runs[j]).0
        }),
    decreases samples.len(),
{
    let runs = crate::compaction::input_runs(rule, samples);
    if samples.len() > 0 {
        let d = samples.drop_last();
        let x = samples.last();
        let n = samples.len() - 1;
        let next = crate::compaction::bucket_range(rule, x.timestamp);
        let before = crate::compaction::input_runs(rule, d);
        crate::series::law_time_in_bucket(rule, x.timestamp);
        assert(crate::sorting::in_order(d, crate::sorting::sample_time())) by {
            assert forall|a: int, b: int| 0 <= a <= b < d.len() implies
                crate::sorting::sample_time()(#[trigger] d[a]) <= crate::sorting::sample_time()(
                #[trigger] d[b],
            ) by {
                assert(crate::sorting::sample_time()(samples[a])
                    <= crate::sorting::sample_time()(samples[b]));
            }
        }
        lemma_runs_apart(rule, d);
        if d.len() > 0 {
            let y = d.last();
            assert(y == samples[n - 1]);
            assert(crate::sorting::sample_time()(samples[n - 1]) <= crate::sorting::sample_time()(
                samples[n],
            ));
            law_buckets_in_order(rule, y.timestamp, x.timestamp);
            crate::series::law_time_in_bucket(rule, y.timestamp);
            assert(d[n - 1] == y);
            lemma_runs_cover(rule, d, n - 1, y.timestamp as int);
            let last = before.len() - 1;
            assert(before[last] == before.last());
            assert forall|i: int, j: int| 0 <= i < j < runs.len() implies (#[trigger] runs[i]).1
                + rule.bucket_duration < (#[trigger] runs[j]).0 by {
                assert(runs[i] == before[i]);
                if j <= last {
                    assert(before[i].1 + rule.bucket_duration < before[j].0);
                } else if i < last {
                    assert(before[i].1 + rule.bucket_duration < before[last].0);
                }
            }
            assert forall|k: int| 0 <= k < runs.len() implies (#[trigger] runs[k]).0
                <= runs[k].1 by {
                if k <= last {
                    assert(before[k].0 <= before[k].1);
                }
            }
        }
    }
}

/// The ranges that are aggregated anew are these runs.
proof fn lemma_ranges_apart(rule: CompactionRule, samples: Seq<Sample>)
    requires
        rule.wf(),
        crate::sorting::in_order(samples, crate::sorting::sample_time()),
    ensures
        ({
            let ranges = crate::ranges::ranges_of(crate::compaction::input_times(rule, samples));
            forall|i: int, j: int|
                0 <= i < j < ranges.len() ==> (#[trigger] ranges[i]).1 + rule.bucket_duration < (
                #[trigger] ranges[j]).0
        }),
{
    let runs = crate::compaction::input_runs(rule, samples);
    let times = crate::compaction::input_times(rule, samples);
    lemma_runs_apart(rule, samples);
    crate::ranges::law_ranges_exist(runs);
    assert(crate::ranges::is_ranges_of(runs, times));
    crate::ranges::law_ranges_unique(runs, crate::ranges::ranges_of(times), times);
}

/// Times more than a bucket length apart lie in different buckets.
proof fn lemma_buckets_apart(rule: CompactionRule, t: Timestamp, u: Timestamp)
    requires
        rule.wf(),
        t + rule.bucket_duration < u,
    ensures
        rule.bucket_of(t) < rule.bucket_of(u),
{
    let d = rule.bucket_duration as int;
    vstd::arithmetic::div_mod::lemma_mod_bound(u - rule.align_timestamp, d);
    crate::series::law_time_in_bucket(rule, t);
}

/// The aggregates of one range stand at the starts of buckets with samples in the range.
proof fn lemma_range_starts(source: SeriesView, rule: CompactionRule, range: TimeRange)
    requires
        source.wf(),
        rule.wf(),
    ensures
        ({
            let (out, running) = crate::compaction::range_outcome(source, rule, range);
            &&& crate::chunk::ascending(out)
            &&& forall|i: int|
                0 <= i < out.len() ==> sourced(rule, source.samples(), range, #[trigger] out[i])
            &&& running is Some ==> rule.bucket_start is Some && forall|i: int|
                0 <= i < out.len() ==> (#[trigger] out[i]).timestamp < rule.bucket_start->0
        }),
{
    let all = source.samples();
    let s = crate::series::within(all, range.0, range.1);
    let start = crate::compaction::walk_start(rule, range).aggregator;
    let out = crate::compaction::range_outcome(source, rule, range).0;
    lemma_ascending_in_order(all);
    lemma_within_order(all, range.0, range.1);
    law_walk_keeps_buckets_apart(rule, start, s, range.1);
    assert(crate::compaction::walk_start(rule, range) == crate::compaction::walk_with(start));
    assert forall|i: int| 0 <= i < out.len() implies sourced(
        rule,
        all,
        range,
        #[trigger] out[i],
    ) by {
        let b = out[i].timestamp;
        assert(in_bucket(rule, s, b).len() > 0);
        let y = in_bucket(rule, s, b)[0];
        lemma_in_bucket_at(rule, s, b, 0);
        let m = choose|m: int| 0 <= m < s.len() && s[m] == y;
        lemma_within(all, range.0, range.1, m);
        assert(stands_for(rule, all, range, out[i], y));
    }
}

/// The aggregates of the first `n` of ranges that lie apart.
proof fn lemma_apart_parts(
    source: SeriesView,
    rule: CompactionRule,
    ranges: Seq<TimeRange>,
    n: int,
)
    requires
        source.wf(),
        rule.wf(),
        0 <= n <= ranges.len(),
        forall|i: int, j: int|
            0 <= i < j < ranges.len() ==> (#[trigger] ranges[i]).1 + rule.bucket_duration < (
            #[trigger] ranges[j]).0,
    ensures
        ({
            let out = crate::compaction::aggregates(source, rule, ranges.take(n));
            &&& crate::chunk::ascending(out)
            &&& forall|i: int|
                0 <= i < out.len() ==> sourced_in(
                    rule,
                    source.samples(),
                    ranges,
                    n,
                    #[trigger] out[i],
                )
            &&& forall|i: int, k: int|
                0 <= i < out.len() && 0 <= k < n && crate::compaction::range_outcome(
                    source,
                    rule,
                    #[trigger] ranges[k],
                ).1 is Some ==> Some((#[trigger] out[i]).timestamp) != rule.bucket_start
        }),
    decreases n,
{
    let all = source.samples();
    let out = crate::compaction::aggregates(source, rule, ranges.take(n));
    if n > 0 {
        lemma_apart_parts(source, rule, ranges, n - 1);
        lemma_range_starts(source, rule, ranges[n - 1]);
        assert(ranges.take(n).drop_last() =~= ranges.take(n - 1));
        assert(ranges.take(n).last() == ranges[n - 1]);
        let front = crate::compaction::aggregates(source, rule, ranges.take(n - 1));
        let part = crate::compaction::range_outcome(source, rule, ranges[n - 1]).0;
        assert(out == front + part);
        assert forall|i: int| 0 <= i < out.len() implies sourced_in(
            rule,
            all,
            ranges,
            n,
            #[trigger] out[i],
        ) by {
            if i < front.len() {
                assert(out[i] == front[i]);
                let k = choose|k: int|
                    0 <= k < n - 1 && sourced(rule, all, #[trigger] ranges[k], front[i]);
                assert(sourced(rule, all, ranges[k], out[i]));
            } else {
                assert(out[i] == part[i - front.len()]);
                assert(sourced(rule, all, ranges[n - 1], out[i]));
            }
        }
        assert forall|i: int, j: int| 0 <= i < j < out.len() implies (#[trigger] out[i]).timestamp
            < (#[trigger] out[j]).timestamp by {
            if j < front.len() {
                assert(out[i] == front[i] && out[j] == front[j]);
            } else if i >= front.len() {
                assert(out[i] == part[i - front.len()] && out[j] == part[j - front.len()]);
            } else {
                let m = j - front.len();
                assert(out[i] == front[i] && out[j] == part[m]);
                assert(sourced_in(rule, all, ranges, n - 1, front[i]));
                let k = choose|k: int|
                    0 <= k < n - 1 && sourced(rule, all, #[trigger] ranges[k], front[i]);
                assert(sourced(rule, all, ranges[n - 1], part[m]));
                lemma_sourced_apart(rule, all, ranges[k], ranges[n - 1], front[i], part[m]);
            }
        }
        assert forall|i: int, k: int|
            0 <= i < out.len() && 0 <= k < n && crate::compaction::range_outcome(
                source,
                rule,
                #[trigger] ranges[k],
            ).1 is Some implies Some((#[trigger] out[i]).timestamp) != rule.bucket_start by {
            let open = lemma_open_end(source, rule, ranges[k]);
            if i < front.len() {
                assert(out[i] == front[i]);
                if k == n - 1 {
                    assert(sourced_in(rule, all, ranges, n - 1, front[i]));
                    let m = choose|m: int|
                        0 <= m < n - 1 && sourced(rule, all, #[trigger] ranges[m], front[i]);
                    let y = choose|y: Sample| #[trigger]
                        stands_for(rule, all, ranges[m], front[i], y);
                    assert(ranges[m].1 + rule.bucket_duration < ranges[k].0);
                    lemma_buckets_apart(rule, y.timestamp, open.timestamp);
                }
            } else {
                let m = i - front.len();
                assert(out[i] == part[m]);
                if k < n - 1 {
                    assert(sourced(rule, all, ranges[n - 1], part[m]));
                    let y = choose|y: Sample| #[trigger]
                        stands_for(rule, all, ranges[n - 1], part[m], y);
                    assert(ranges[k].1 + rule.bucket_duration < ranges[n - 1].0);
                    lemma_buckets_apart(rule, open.timestamp, y.timestamp);
                }
            }
        }
    } else {
        assert(ranges.take(0) =~= Seq::<TimeRange>::empty());
    }
}

proof fn lemma_sourced_apart(
    rule: CompactionRule,
    all: Seq<Sample>,
    a: TimeRange,
    b: TimeRange,
    e: Sample,
    f: Sample,
)
    requires
        rule.wf(),
        a.1 + rule.bucket_duration < b.0,
        sourced(rule, all, a, e),
        sourced(rule, all, b, f),
    ensures
        e.timestamp < f.timestamp,
{
    let y = choose|y: Sample| #[trigger] stands_for(rule, all, a, e, y);
    let z = choose|z: Sample| #[trigger] stands_for(rule, all, b, f, z);
    lemma_buckets_apart(rule, y.timestamp, z.timestamp);
}

/// Whether `t` is the start of the bucket that one of the samples lies in.
pub open spec fn bucket_with_samples(
    rule: CompactionRule,
    samples: Seq<Sample>,
    t: Timestamp,
) -> bool {
    exists|y: Sample| #[trigger] samples.contains(y) && rule.bucket_of(y.timestamp) == t
}

/// Under every rule, what a compaction makes where samples in order of time were written is in order
/// of time, no two at the same time, and each stands at the start of a bucket that the source has
/// samples in. Where one of the ranges ends in the bucket that still takes in samples, that bucket
/// is not among them.
pub proof fn law_compacted_in_order(
    source: SeriesView,
    rule: CompactionRule,
    samples: Seq<Sample>,
)
    requires
        source.wf(),
        rule.wf(),
        crate::sorting::in_order(samples, crate::sorting::sample_time()),
    ensures
        ({
            let ranges = crate::ranges::ranges_of(crate::compaction::input_times(rule, samples));
            let out = crate::compaction::compacted_samples(source, rule, samples);
            &&& crate::chunk::ascending(out)
            &&& forall|i: int|
                0 <= i < out.len() ==> bucket_with_samples(
                    rule,
                    source.samples(),
                    (#[trigger] out[i]).timestamp,
                )
            &&& forall|i: int, k: int|
                0 <= i < out.len() && 0 <= k < ranges.len() && crate::compaction::range_outcome(
                    source,
                    rule,
                    #[trigger] ranges[k],
                ).1 is Some ==> Some((#[trigger] out[i]).timestamp) != rule.bucket_start
        }),
{
    let all = source.samples();
    let ranges = crate::ranges::ranges_of(crate::compaction::input_times(rule, samples));
    let out = crate::compaction::compacted_samples(source, rule, samples);
    lemma_ranges_apart(rule, samples);
    lemma_apart_parts(source, rule, ranges, ranges.len() as int);
    assert(ranges.take(ranges.len() as int) =~= ranges);
    assert forall|i: int| 0 <= i < out.len() implies bucket_with_samples(
        rule,
        all,
        (#[trigger] out[i]).timestamp,
    ) by {
        let n = ranges.len() as int;
        assert(sourced_in(rule, all, ranges, n, out[i]));
        let k = choose|k: int| 0 <= k < n && sourced(rule, all, #[trigger] ranges[k], out[i]);
        let y = choose|y: Sample| #[trigger] stands_for(rule, all, ranges[k], out[i], y);
        assert(all.contains(y));
    }
}

/// Times of the same bucket lie in the same range.
proof fn lemma_same_range(
    rule: CompactionRule,
    samples: Seq<Sample>,
    ranges: Seq<TimeRange>,
    k: int,
    t: Timestamp,
    u: Timestamp,
)
    requires
        rule.wf(),
        forall|i: int|
            0 <= i < samples.len() ==> unclipped(rule, (#[trigger] samples[i]).timestamp),
        crate::ranges::is_ranges_of(ranges, crate::compaction::input_times(rule, samples)),
        0 <= k < ranges.len(),
        ranges[k].0 <= t <= ranges[k].1,
        rule.bucket_of(t) == rule.bucket_of(u),
    ensures
        ranges[k].0 <= u <= ranges[k].1,
{
    let times = crate::compaction::input_times(rule, samples);
    assert(crate::ranges::covered(ranges, t as int));
    assert(times.contains(t as int));
    if u > ranges[k].1 {
        let gap = (ranges[k].1 + 1) as Timestamp;
        law_buckets_in_order(rule, t, gap);
        law_buckets_in_order(rule, gap, u);
        law_whole_buckets(rule, samples, t, gap);
        lemma_gap(ranges, times, k, gap);
    }
    if u < ranges[k].0 {
        let gap = (ranges[k].0 - 1) as Timestamp;
        law_buckets_in_order(rule, u, gap);
        law_buckets_in_order(rule, gap, t);
        law_whole_buckets(rule, samples, t, gap);
        lemma_gap(ranges, times, k, gap);
    }
}

/// The times next to a range are not in the set.
proof fn lemma_gap(ranges: Seq<TimeRange>, times: Set<int>, k: int, gap: Timestamp)
    requires
        crate::ranges::is_ranges_of(ranges, times),
        0 <= k < ranges.len(),
        gap == ranges[k].0 - 1 || gap == ranges[k].1 + 1,
    ensures
        !times.contains(gap as int),
{
    if times.contains(gap as int) {
        assert(ranges[k].0 <= ranges[k].1);
        assert(crate::ranges::covered(ranges, gap as int));
        let m = choose|m: int| 0 <= m < ranges.len() && (#[trigger] ranges[m]).0 <= gap
            <= ranges[m].1;
        if m < k {
            assert(ranges[m].1 + 1 < ranges[k].0);
        } else if m > k {
            assert(ranges[k].1 + 1 < ranges[m].0);
        }
    }
}

/// The samples of a bucket that lies in a range as a whole are found in the range.
proof fn lemma_bucket_within(
    rule: CompactionRule,
    all: Seq<Sample>,
    range: TimeRange,
    b: Timestamp,
)
    requires
        forall|i: int|
            0 <= i < all.len() && rule.bucket_of((#[trigger] all[i]).timestamp) == b ==> range.0
                <= all[i].timestamp <= range.1,
    ensures
        in_bucket(rule, crate::series::within(all, range.0, range.1), b) == in_bucket(
            rule,
            all,
            b,
        ),
    decreases all.len(),
{
    reveal(Seq::filter);
    let s = crate::series::within(all, range.0, range.1);
    if all.len() > 0 {
        let d = all.drop_last();
        let x = all.last();
        assert(all[all.len() - 1] == x);
        assert forall|i: int|
            0 <= i < d.len() && rule.bucket_of((#[trigger] d[i]).timestamp) == b implies range.0
            <= d[i].timestamp <= range.1 by {
            assert(d[i] == all[i]);
        }
        lemma_bucket_within(rule, d, range, b);
        let sd = crate::series::within(d, range.0, range.1);
        assert(d.push(x) =~= all);
        lemma_in_bucket_push(rule, d, x, b);
        if range.0 <= x.timestamp <= range.1 {
            assert(s == sd.push(x));
            lemma_in_bucket_push(rule, sd, x, b);
        } else {
            assert(s == sd);
        }
    }
}

/// What lies within bounds keeps its order of time.
proof fn lemma_within_order(all: Seq<Sample>, start: Timestamp, end: Timestamp)
    requires
        crate::sorting::in_order(all, crate::sorting::sample_time()),
    ensures
        crate::sorting::in_order(
            crate::series::within(all, start, end),
            crate::sorting::sample_time(),
        ),
        forall|i: int|
            0 <= i < crate::series::within(all, start, end).len() ==> all.contains(
                #[trigger] crate::series::within(all, start, end)[i],
            ),
        forall|i: int|
            0 <= i < all.len() && start <= (#[trigger] all[i]).timestamp <= end
                ==> crate::series::within(all, start, end).contains(all[i]),
    decreases all.len(),
{
    reveal(Seq::filter);
    let key = crate::sorting::sample_time();
    let s = crate::series::within(all, start, end);
    if all.len() > 0 {
        let d = all.drop_last();
        let x = all.last();
        let n = all.len() - 1;
        let sd = crate::series::within(d, start, end);
        assert(all[n] == x);
        assert(crate::sorting::in_order(d, key)) by {
            assert forall|i: int, j: int| 0 <= i <= j < d.len() implies key(#[trigger] d[i]) <= key(
                #[trigger] d[j],
            ) by {
                assert(key(all[i]) <= key(all[j]));
            }
        }
        lemma_within_order(d, start, end);
        assert forall|i: int| 0 <= i < s.len() implies all.contains(#[trigger] s[i]) by {
            if i < sd.len() {
                assert(s[i] == sd[i]);
                let k = choose|k: int| 0 <= k < d.len() && d[k] == sd[i];
                assert(all[k] == s[i]);
            } else {
                assert(s[i] == x);
            }
        }
        assert forall|i: int, j: int| 0 <= i <= j < s.len() implies key(#[trigger] s[i]) <= key(
            #[trigger] s[j],
        ) by {
            if j < sd.len() {
                assert(s[i] == sd[i] && s[j] == sd[j]);
            } else if i < sd.len() {
                assert(s[i] == sd[i]);
                let k = choose|k: int| 0 <= k < d.len() && d[k] == sd[i];
                assert(key(all[k]) <= key(all[n]));
            }
        }
        assert forall|i: int|
            0 <= i < all.len() && start <= (#[trigger] all[i]).timestamp <= end implies s.contains(
            all[i],
        ) by {
            if i < n {
                assert(d[i] == all[i]);
                let k = choose|k: int| 0 <= k < sd.len() && sd[k] == d[i];
                assert(s[k] == all[i]);
            } else {
                assert(s[sd.len() as int] == x);
            }
        }
    }
}

/// Whether `y` is a sample of `all` in the range whose bucket `e` stands for.
spec fn stands_for(
    rule: CompactionRule,
    all: Seq<Sample>,
    range: TimeRange,
    e: Sample,
    y: Sample,
) -> bool {
    all.contains(y) && range.0 <= y.timestamp <= range.1 && rule.bucket_of(y.timestamp)
        == e.timestamp
}

/// Whether `e` stands for the bucket of a sample of `all` in the range.
spec fn sourced(rule: CompactionRule, all: Seq<Sample>, range: TimeRange, e: Sample) -> bool {
    exists|y: Sample| #[trigger] stands_for(rule, all, range, e, y)
}

/// Whether `e` stands for the bucket of a sample of `all` in one of the first `n` ranges.
spec fn sourced_in(
    rule: CompactionRule,
    all: Seq<Sample>,
    ranges: Seq<TimeRange>,
    n: int,
    e: Sample,
) -> bool {
    exists|k: int| 0 <= k < n && sourced(rule, all, #[trigger] ranges[k], e)
}

/// The aggregate of all samples of a source that lie in the bucket that starts at `b`, on a walk over
/// the range: the running aggregation of the rule goes on into the first bucket of a range that
/// starts in the bucket that still takes in samples, and starts anew at every other.
pub open spec fn rebuilt(
    source: SeriesView,
    rule: CompactionRule,
    range: TimeRange,
    b: Timestamp,
) -> Sample {
    let start = crate::compaction::walk_start(rule, range).aggregator;
    let found = crate::series::within(source.samples(), range.0, range.1);
    Sample {
        timestamp: b,
        value: begun(rule, start, found, b).fed(in_bucket(rule, source.samples(), b)).result(),
    }
}

/// Whether `e` is the aggregate of its bucket on a walk over one of the ranges.
pub open spec fn rebuilt_in(
    source: SeriesView,
    rule: CompactionRule,
    ranges: Seq<TimeRange>,
    e: Sample,
) -> bool {
    exists|k: int|
        0 <= k < ranges.len() && e == rebuilt(source, rule, #[trigger] ranges[k], e.timestamp)
}

/// The aggregates of one range.
proof fn lemma_range_part(
    source: SeriesView,
    rule: CompactionRule,
    samples: Seq<Sample>,
    ranges: Seq<TimeRange>,
    k: int,
)
    requires
        rule.wf(),
        crate::sorting::in_order(source.samples(), crate::sorting::sample_time()),
        forall|i: int|
            0 <= i < samples.len() ==> unclipped(rule, (#[trigger] samples[i]).timestamp),
        crate::ranges::is_ranges_of(ranges, crate::compaction::input_times(rule, samples)),
        0 <= k < ranges.len(),
    ensures
        ({
            let all = source.samples();
            let part = crate::compaction::range_outcome(source, rule, ranges[k]).0;
            &&& crate::chunk::ascending(part)
            &&& forall|i: int|
                0 <= i < part.len() ==> #[trigger] part[i] == rebuilt(
                    source,
                    rule,
                    ranges[k],
                    part[i].timestamp,
                )
            &&& forall|i: int|
                0 <= i < part.len() ==> sourced(rule, all, ranges[k], #[trigger] part[i])
            &&& forall|j: int|
                0 <= j < all.len() && ranges[k].0 <= (#[trigger] all[j]).timestamp <= ranges[k].1
                    && rule.bucket_start != Some(rule.bucket_of(all[j].timestamp) as Timestamp)
                    ==> exists|i: int|
                    0 <= i < part.len() && (#[trigger] part[i]).timestamp == rule.bucket_of(
                        all[j].timestamp,
                    )
        }),
{
    let all = source.samples();
    let range = ranges[k];
    let start = crate::compaction::walk_start(rule, range).aggregator;
    let s = crate::series::within(all, range.0, range.1);
    let part = crate::compaction::range_outcome(source, rule, range).0;
    lemma_within_order(all, range.0, range.1);
    law_walk_keeps_buckets_apart(rule, start, s, range.1);
    assert(crate::compaction::walk_start(rule, range) == crate::compaction::walk_with(start));
    assert forall|i: int| 0 <= i < part.len() implies #[trigger] part[i] == rebuilt(
        source,
        rule,
        range,
        part[i].timestamp,
    ) && sourced(rule, all, range, part[i]) by {
        let b = part[i].timestamp;
        let mine = in_bucket(rule, s, b);
        assert(mine.len() > 0);
        let y = mine[0];
        lemma_in_bucket_at(rule, s, b, 0);
        let m = choose|m: int| 0 <= m < s.len() && s[m] == y;
        lemma_within(all, range.0, range.1, m);
        assert(stands_for(rule, all, range, part[i], y));
        assert forall|j: int|
            0 <= j < all.len() && rule.bucket_of((#[trigger] all[j]).timestamp) == b implies range.0
            <= all[j].timestamp <= range.1 by {
            lemma_same_range(rule, samples, ranges, k, y.timestamp, all[j].timestamp);
        }
        lemma_bucket_within(rule, all, range, b);
    }
    assert forall|j: int|
        0 <= j < all.len() && range.0 <= (#[trigger] all[j]).timestamp <= range.1
            && rule.bucket_start != Some(
            rule.bucket_of(all[j].timestamp) as Timestamp,
        ) implies exists|i: int|
        0 <= i < part.len() && (#[trigger] part[i]).timestamp == rule.bucket_of(
            all[j].timestamp,
        ) by {
        assert(s.contains(all[j]));
        let m = choose|m: int| 0 <= m < s.len() && s[m] == all[j];
        assert(rule.bucket_of(s[m].timestamp) == rule.bucket_of(all[j].timestamp));
    }
}

proof fn lemma_in_bucket_at(rule: CompactionRule, samples: Seq<Sample>, b: Timestamp, i: int)
    requires
        0 <= i < in_bucket(rule, samples, b).len(),
    ensures
        samples.contains(in_bucket(rule, samples, b)[i]),
        rule.bucket_of(in_bucket(rule, samples, b)[i].timestamp) == b,
    decreases samples.len(),
{
    reveal(Seq::filter);
    if samples.len() > 0 {
        let d = samples.drop_last();
        let x = samples.last();
        assert(d.push(x) =~= samples);
        lemma_in_bucket_push(rule, d, x, b);
        if i < in_bucket(rule, d, b).len() {
            lemma_in_bucket_at(rule, d, b, i);
            let y = in_bucket(rule, d, b)[i];
            let k = choose|k: int| 0 <= k < d.len() && d[k] == y;
            assert(samples[k] == y);
        } else {
            assert(samples[samples.len() - 1] == x);
        }
    }
}

/// The aggregates of the first `n` ranges.
proof fn lemma_parts(
    source: SeriesView,
    rule: CompactionRule,
    samples: Seq<Sample>,
    ranges: Seq<TimeRange>,
    n: int,
)
    requires
        rule.wf(),
        crate::sorting::in_order(source.samples(), crate::sorting::sample_time()),
        forall|i: int|
            0 <= i < samples.len() ==> unclipped(rule, (#[trigger] samples[i]).timestamp),
        crate::ranges::is_ranges_of(ranges, crate::compaction::input_times(rule, samples)),
        0 <= n <= ranges.len(),
    ensures
        ({
            let all = source.samples();
            let out = crate::compaction::aggregates(source, rule, ranges.take(n));
            &&& forall|i: int|
                0 <= i < out.len() ==> rebuilt_in(source, rule, ranges, #[trigger] out[i])
            &&& forall|j: int, k: int|
                #![trigger all[j], ranges[k]]
                0 <= j < all.len() && 0 <= k < n && ranges[k].0 <= all[j].timestamp <= ranges[k].1
                    && rule.bucket_start != Some(rule.bucket_of(all[j].timestamp) as Timestamp)
                    ==> exists|i: int|
                    0 <= i < out.len() && (#[trigger] out[i]).timestamp == rule.bucket_of(
                        all[j].timestamp,
                    )
        }),
    decreases n,
{
    let all = source.samples();
    let out = crate::compaction::aggregates(source, rule, ranges.take(n));
    if n > 0 {
        lemma_parts(source, rule, samples, ranges, n - 1);
        lemma_range_part(source, rule, samples, ranges, n - 1);
        assert(ranges.take(n).drop_last() =~= ranges.take(n - 1));
        assert(ranges.take(n).last() == ranges[n - 1]);
        let front = crate::compaction::aggregates(source, rule, ranges.take(n - 1));
        let part = crate::compaction::range_outcome(source, rule, ranges[n - 1]).0;
        assert(out == front + part);
        assert forall|i: int| 0 <= i < out.len() implies rebuilt_in(
            source,
            rule,
            ranges,
            #[trigger] out[i],
        ) by {
            if i < front.len() {
                assert(out[i] == front[i]);
            } else {
                let m = i - front.len();
                assert(out[i] == part[m]);
                assert(part[m] == rebuilt(source, rule, ranges[n - 1], part[m].timestamp));
            }
        }
        assert forall|j: int, k: int|
            #![trigger all[j], ranges[k]]
            0 <= j < all.len() && 0 <= k < n && ranges[k].0 <= all[j].timestamp <= ranges[k].1
                && rule.bucket_start != Some(
                rule.bucket_of(all[j].timestamp) as Timestamp,
            ) implies exists|i: int|
            0 <= i < out.len() && (#[trigger] out[i]).timestamp == rule.bucket_of(
                all[j].timestamp,
            ) by {
            if k < n - 1 {
                let i = choose|i: int|
                    0 <= i < front.len() && (#[trigger] front[i]).timestamp == rule.bucket_of(
                        all[j].timestamp,
                    );
                assert(out[i] == front[i]);
            } else {
                let i = choose|i: int|
                    0 <= i < part.len() && (#[trigger] part[i]).timestamp == rule.bucket_of(
                        all[j].timestamp,
                    );
                assert(out[front.len() + i] == part[i]);
            }
        }
    } else {
        assert(ranges.take(0) =~= Seq::<TimeRange>::empty());
    }
}

/// A compaction rebuilds the buckets of the samples that were written, which are in order of time,
/// their buckets unclipped, under every rule: what it makes is in order of time, and each aggregate
/// is that of all samples of the source in its bucket. Each sample of the source that shares a
/// bucket with one of those written has an aggregate at the start of that bucket, unless the bucket
/// still takes in samples.
pub proof fn law_compaction_rebuilds_buckets(
    source: SeriesView,
    rule: CompactionRule,
    samples: Seq<Sample>,
)
    requires
        rule.wf(),
        source.wf(),
        crate::sorting::in_order(samples, crate::sorting::sample_time()),
        forall|i: int|
            0 <= i < samples.len() ==> unclipped(rule, (#[trigger] samples[i]).timestamp),
    ensures
        ({
            let all = source.samples();
            let ranges = crate::ranges::ranges_of(crate::compaction::input_times(rule, samples));
            let out = crate::compaction::compacted_samples(source, rule, samples);
            &&& crate::chunk::ascending(out)
            &&& forall|i: int|
                0 <= i < out.len() ==> rebuilt_in(source, rule, ranges, #[trigger] out[i])
            &&& forall|j: int, k: int|
                #![trigger all[j], samples[k]]
                0 <= j < all.len() && 0 <= k < samples.len() && rule.bucket_of(all[j].timestamp)
                    == rule.bucket_of(samples[k].timestamp) && rule.bucket_start != Some(
                    rule.bucket_of(samples[k].timestamp) as Timestamp,
                ) ==> exists|i: int|
                    0 <= i < out.len() && (#[trigger] out[i]).timestamp == rule.bucket_of(
                        samples[k].timestamp,
                    )
        }),
{
    let all = source.samples();
    let runs = crate::compaction::input_runs(rule, samples);
    let times = crate::compaction::input_times(rule, samples);
    let ranges = crate::ranges::ranges_of(times);
    let out = crate::compaction::compacted_samples(source, rule, samples);
    crate::ranges::law_ranges_exist(runs);
    lemma_ascending_in_order(all);
    law_compacted_in_order(source, rule, samples);
    lemma_parts(source, rule, samples, ranges, ranges.len() as int);
    assert(ranges.take(ranges.len() as int) =~= ranges);
    assert forall|j: int, k: int|
        #![trigger all[j], samples[k]]
        0 <= j < all.len() && 0 <= k < samples.len() && rule.bucket_of(all[j].timestamp)
            == rule.bucket_of(samples[k].timestamp) && rule.bucket_start != Some(
            rule.bucket_of(samples[k].timestamp) as Timestamp,
        ) implies exists|i: int|
        0 <= i < out.len() && (#[trigger] out[i]).timestamp == rule.bucket_of(
            samples[k].timestamp,
        ) by {
        let t = samples[k].timestamp;
        crate::series::law_time_in_bucket(rule, t);
        law_buckets_of_samples_are_covered(rule, samples, k, t as int);
        law_whole_buckets(rule, samples, t, all[j].timestamp);
        assert(crate::ranges::covered(ranges, all[j].timestamp as int));
        let m = choose|m: int| 0 <= m < ranges.len() && (#[trigger] ranges[m]).0
            <= all[j].timestamp <= ranges[m].1;
        assert(ranges[m].0 <= all[j].timestamp <= ranges[m].1);
    }
}

/// Where no range starts in the bucket that still takes in samples, as where no bucket does, an
/// aggregate is that of the samples in its bucket alone.
pub proof fn law_rebuilt_afresh(
    source: SeriesView,
    rule: CompactionRule,
    ranges: Seq<TimeRange>,
    e: Sample,
)
    requires
        rebuilt_in(source, rule, ranges, e),
        forall|k: int|
            0 <= k < ranges.len() ==> !crate::compaction::starts_open(rule, #[trigger] ranges[k]),
    ensures
        e == bucket_aggregate(rule, rule.aggregator.kind, source.samples(), e.timestamp),
{
    let k = choose|k: int|
        0 <= k < ranges.len() && e == rebuilt(source, rule, #[trigger] ranges[k], e.timestamp);
    assert(!crate::compaction::starts_open(rule, ranges[k]));
}

/// A range that lies in the bucket that still takes in samples gives no aggregate: the running
/// aggregation of the rule takes the samples in, and goes on.
pub proof fn law_open_bucket_goes_on(source: SeriesView, rule: CompactionRule, range: TimeRange)
    requires
        rule.wf(),
        rule.bucket_start is Some,
        rule.bucket_start->0 <= range.0 <= range.1,
        range.1 < crate::compaction::behind_bucket(rule, rule.bucket_start->0),
        crate::series::within(source.samples(), range.0, range.1).len() > 0,
        forall|i: int|
            0 <= i < source.samples().len() && range.0 <= (
            #[trigger] source.samples()[i]).timestamp <= range.1 ==> rule.bucket_of(
                source.samples()[i].timestamp,
            ) == rule.bucket_start->0,
    ensures
        crate::compaction::range_outcome(source, rule, range) == (
            Seq::<Sample>::empty(),
            Some(
                rule.aggregator.fed(
                    crate::series::within(source.samples(), range.0, range.1),
                ),
            ),
        ),
{
    let all = source.samples();
    let s = crate::series::within(all, range.0, range.1);
    let b = rule.bucket_start->0;
    assert forall|i: int| 0 <= i < s.len() implies rule.bucket_of((#[trigger] s[i]).timestamp)
        == b by {
        lemma_within(all, range.0, range.1, i);
        lemma_within_contains(all, range.0, range.1, i);
        let k = choose|k: int| 0 <= k < all.len() && all[k] == s[i];
        assert(rule.bucket_of(all[k].timestamp) == b);
    }
    lemma_open_walk(rule, rule.aggregator, s);
}

proof fn lemma_within_contains(s: Seq<Sample>, start: Timestamp, end: Timestamp, i: int)
    requires
        0 <= i < crate::series::within(s, start, end).len(),
    ensures
        s.contains(crate::series::within(s, start, end)[i]),
    decreases s.len(),
{
    reveal(Seq::filter);
    let f = |x: Sample| start <= x.timestamp <= end;
    if s.len() > 0 {
        let d = s.drop_last();
        if i < d.filter(f).len() {
            lemma_within_contains(d, start, end, i);
            let k = choose|k: int| 0 <= k < d.len() && d[k] == d.filter(f)[i];
            assert(s[k] == s.filter(f)[i]);
        } else {
            assert(s[s.len() - 1] == s.filter(f)[i]);
        }
    }
}

proof fn lemma_open_walk(
    rule: CompactionRule,
    aggregator: crate::aggregators::Aggregator,
    samples: Seq<Sample>,
)
    requires
        rule.bucket_start is Some,
        forall|i: int|
            0 <= i < samples.len() ==> rule.bucket_of((#[trigger] samples[i]).timestamp)
                == rule.bucket_start->0,
    ensures
        ({
            let w = crate::compaction::walk_with(aggregator).over(rule, samples);
            &&& w.aggregator == aggregator.fed(samples)
            &&& w.finished == Seq::<Sample>::empty()
            &&& samples.len() > 0 ==> w.bucket == rule.bucket_start
            &&& samples.len() == 0 ==> w.bucket is None
        }),
    decreases samples.len(),
{
    if samples.len() > 0 {
        let d = samples.drop_last();
        assert forall|i: int| 0 <= i < d.len() implies rule.bucket_of(
            (#[trigger] d[i]).timestamp,
        ) == rule.bucket_start->0 by {
            assert(d[i] == samples[i]);
        }
        lemma_open_walk(rule, aggregator, d);
        assert(samples.last() == samples[samples.len() - 1]);
    }
}

/// Whether the bucket that starts at `b` takes in no more samples.
pub open spec fn closed_at(rule: CompactionRule, b: int) -> bool {
    match rule.bucket_start {
        Some(open_start) => !(open_start <= b < open_start + rule.bucket_duration),
        None => true,
    }
}

/// Where the source holds a sample at the time of each that was written, the aggregate of a bucket
/// that takes in no more samples is that of the samples in the bucket alone.
proof fn lemma_closed_afresh(
    source: SeriesView,
    rule: CompactionRule,
    samples: Seq<Sample>,
    e: Sample,
)
    requires
        rule.wf(),
        source.wf(),
        crate::sorting::in_order(samples, crate::sorting::sample_time()),
        forall|i: int|
            0 <= i < samples.len() ==> unclipped(rule, (#[trigger] samples[i]).timestamp),
        forall|i: int|
            0 <= i < samples.len() ==> crate::chunk::has_time(
                source.samples(),
                (#[trigger] samples[i]).timestamp,
            ),
        rebuilt_in(
            source,
            rule,
            crate::ranges::ranges_of(crate::compaction::input_times(rule, samples)),
            e,
        ),
        closed_at(rule, e.timestamp as int),
    ensures
        e == bucket_aggregate(rule, rule.aggregator.kind, source.samples(), e.timestamp),
{
    let all = source.samples();
    let runs = crate::compaction::input_runs(rule, samples);
    let times = crate::compaction::input_times(rule, samples);
    let ranges = crate::ranges::ranges_of(times);
    lemma_runs_apart(rule, samples);
    crate::ranges::law_ranges_exist(runs);
    assert(crate::ranges::is_ranges_of(runs, times));
    crate::ranges::law_ranges_unique(runs, ranges, times);
    let k = choose|k: int|
        0 <= k < ranges.len() && e == rebuilt(source, rule, #[trigger] ranges[k], e.timestamp);
    let range = ranges[k];
    let found = crate::series::within(all, range.0, range.1);
    if crate::compaction::starts_open(rule, range) && found.len() > 0 && rule.bucket_of(
        found[0].timestamp,
    ) == e.timestamp {
        lemma_runs_of_buckets(rule, samples, k);
        let i = choose|i: int|
            0 <= i < samples.len() && runs[k].0 == rule.bucket_of((#[trigger] samples[i]).timestamp);
        let t = samples[i].timestamp;
        lemma_bucket_bounds(rule, t);
        lemma_same_range(rule, samples, ranges, k, range.0, t);
        let j = choose|j: int| 0 <= j < all.len() && (#[trigger] all[j]).timestamp == t;
        lemma_ascending_in_order(all);
        lemma_within_order(all, range.0, range.1);
        assert(found.contains(all[j]));
        let m = choose|m: int| 0 <= m < found.len() && found[m] == all[j];
        let key = crate::sorting::sample_time();
        assert(key(found[0]) <= key(found[m]));
        lemma_within(all, range.0, range.1, 0);
        law_buckets_in_order(rule, range.0, found[0].timestamp);
        law_buckets_in_order(rule, found[0].timestamp, t);
        assert(e.timestamp == range.0);
    }
}

/// Where samples in order of time were written, each of which the source holds one at the time of, a
/// compaction gives, for every one of them whose bucket takes in no more samples, the aggregate of all
/// samples of the source in that bucket. It does not matter whether the sample is new or was written
/// over another. Whatever else it gives for such a bucket is its aggregate, too.
pub proof fn law_closed_bucket_is_rebuilt(
    source: SeriesView,
    rule: CompactionRule,
    samples: Seq<Sample>,
    k: int,
)
    requires
        rule.wf(),
        source.wf(),
        crate::sorting::in_order(samples, crate::sorting::sample_time()),
        forall|i: int|
            0 <= i < samples.len() ==> unclipped(rule, (#[trigger] samples[i]).timestamp),
        forall|i: int|
            0 <= i < samples.len() ==> crate::chunk::has_time(
                source.samples(),
                (#[trigger] samples[i]).timestamp,
            ),
        0 <= k < samples.len(),
        closed_at(rule, rule.bucket_of(samples[k].timestamp)),
    ensures
        ({
            let out = crate::compaction::compacted_samples(source, rule, samples);
            let kind = rule.aggregator.kind;
            &&& crate::chunk::ascending(out)
            &&& out.contains(
                bucket_aggregate(
                    rule,
                    kind,
                    source.samples(),
                    rule.bucket_of(samples[k].timestamp) as Timestamp,
                ),
            )
            &&& forall|i: int|
                0 <= i < out.len() && closed_at(rule, (#[trigger] out[i]).timestamp as int)
                    ==> out[i] == bucket_aggregate(rule, kind, source.samples(), out[i].timestamp)
        }),
{
    let all = source.samples();
    let out = crate::compaction::compacted_samples(source, rule, samples);
    law_compaction_rebuilds_buckets(source, rule, samples);
    assert forall|i: int|
        0 <= i < out.len() && closed_at(
            rule,
            (#[trigger] out[i]).timestamp as int,
        ) implies out[i] == bucket_aggregate(
        rule,
        rule.aggregator.kind,
        all,
        out[i].timestamp,
    ) by {
        lemma_closed_afresh(source, rule, samples, out[i]);
    }
    let t = samples[k].timestamp;
    let j = choose|j: int| 0 <= j < all.len() && (#[trigger] all[j]).timestamp == t;
    assert(rule.bucket_of(all[j].timestamp) == rule.bucket_of(samples[k].timestamp));
    let i = choose|i: int| 0 <= i < out.len() && (#[trigger] out[i]).timestamp == rule.bucket_of(t);
    assert(out.contains(out[i]));
}

/// Samples that all fall into one bucket fall into one run, the bucket.
proof fn lemma_one_run(rule: CompactionRule, samples: Seq<Sample>, b: Timestamp)
    requires
        rule.wf(),
        samples.len() > 0,
        forall|i: int|
            0 <= i < samples.len() ==> rule.bucket_of((#[trigger] samples[i]).timestamp) == b,
    ensures
        crate::compaction::input_runs(rule, samples) == seq![
            (b, crate::common::saturate(b + rule.bucket_duration - 1) as Timestamp),
        ],
    decreases samples.len(),
{
    let d = samples.drop_last();
    let end = crate::common::saturate(b + rule.bucket_duration - 1) as Timestamp;
    assert(rule.bucket_of(samples[samples.len() - 1].timestamp) == b);
    let next = crate::compaction::bucket_range(rule, samples.last().timestamp);
    assert(next == (b, end));
    if d.len() > 0 {
        assert forall|i: int| 0 <= i < d.len() implies rule.bucket_of((#[trigger] d[i]).timestamp)
            == b by {
            assert(d[i] == samples[i]);
        }
        lemma_one_run(rule, d, b);
    }
    assert(crate::compaction::input_runs(rule, samples) =~= seq![(b, end)]);
}

/// Where all samples that were written fall into the bucket that still takes in samples, the rule gives
/// no aggregate: its running aggregation takes in the samples that the source holds in the bucket, and
/// goes on.
pub proof fn law_open_bucket_is_carried_on(
    source: SeriesView,
    rule: CompactionRule,
    samples: Seq<Sample>,
    b: Timestamp,
)
    requires
        rule.wf(),
        source.wf(),
        rule.bucket_start == Some(b),
        rule.bucket_of(b) == b,
        unclipped(rule, b),
        b + rule.bucket_duration <= i64::MAX,
        samples.len() > 0,
        crate::sorting::in_order(samples, crate::sorting::sample_time()),
        forall|i: int|
            0 <= i < samples.len() ==> rule.bucket_of((#[trigger] samples[i]).timestamp) == b,
        in_bucket(rule, source.samples(), b).len() > 0,
    ensures
        crate::compaction::compacted_samples(source, rule, samples) == Seq::<Sample>::empty(),
        crate::compaction::rule_after(source, rule, samples).aggregator == rule.aggregator.fed(
            in_bucket(rule, source.samples(), b),
        ),
{
    let all = source.samples();
    let runs = crate::compaction::input_runs(rule, samples);
    let times = crate::compaction::input_times(rule, samples);
    let ranges = crate::ranges::ranges_of(times);
    let end = (b + rule.bucket_duration - 1) as Timestamp;
    lemma_one_run(rule, samples, b);
    lemma_runs_apart(rule, samples);
    crate::ranges::law_ranges_exist(runs);
    assert(crate::ranges::is_ranges_of(runs, times));
    crate::ranges::law_ranges_unique(runs, ranges, times);
    let range: TimeRange = (b, end);
    assert(ranges == seq![range]);
    lemma_bucket_bounds(rule, b);
    let f = |x: Sample| b <= x.timestamp <= end;
    let g = |x: Sample| rule.bucket_of(x.timestamp) == b;
    assert forall|x: Sample| #[trigger] f(x) == g(x) by {
        crate::series::law_buckets_are_aligned(rule, x.timestamp);
        if f(x) {
            law_buckets_in_order(rule, b, x.timestamp);
            law_buckets_in_order(rule, x.timestamp, end);
        }
    }
    assert(f =~= g);
    assert(crate::series::within(all, b, end) == in_bucket(rule, all, b));
    assert forall|i: int|
        0 <= i < all.len() && b <= (#[trigger] all[i]).timestamp <= end implies rule.bucket_of(
        all[i].timestamp,
    ) == b by {
        assert(f(all[i]));
    }
    law_open_bucket_goes_on(source, rule, range);
    assert(ranges.drop_last() =~= Seq::<TimeRange>::empty());
    assert(ranges.last() == range);
    assert(crate::compaction::aggregates(source, rule, ranges.drop_last()) =~= Seq::<
        Sample,
    >::empty());
    assert(crate::compaction::compacted_samples(source, rule, samples) =~= Seq::<Sample>::empty());
}

proof fn lemma_walk_kind(walk: Walk, rule: CompactionRule, samples: Seq<Sample>)
    ensures
        walk.over(rule, samples).aggregator.kind == walk.aggregator.kind,
    decreases samples.len(),
{
    if samples.len() > 0 {
        lemma_walk_kind(walk, rule, samples.drop_last());
    }
}

/// A rule that is applied stays as it is but for its running aggregation, and that stays of its kind.
pub proof fn law_rule_stays(source: SeriesView, rule: CompactionRule, samples: Seq<Sample>)
    ensures
        ({
            let after = crate::compaction::rule_after(source, rule, samples);
            &&& after.dest_id == rule.dest_id
            &&& after.bucket_duration == rule.bucket_duration
            &&& after.align_timestamp == rule.align_timestamp
            &&& after.bucket_start == rule.bucket_start
            &&& after.aggregator.kind == rule.aggregator.kind
        }),
{
    lemma_running_kind(
        source,
        rule,
        crate::ranges::ranges_of(crate::compaction::input_times(rule, samples)),
    );
}

proof fn lemma_running_kind(source: SeriesView, rule: CompactionRule, ranges: Seq<TimeRange>)
    ensures
        crate::compaction::running(source, rule, ranges).kind == rule.aggregator.kind,
    decreases ranges.len(),
{
    if ranges.len() > 0 {
        lemma_running_kind(source, rule, ranges.drop_last());
        let range = ranges.last();
        lemma_walk_kind(
            crate::compaction::walk_start(rule, range),
            rule,
            crate::series::within(source.samples(), range.0, range.1),
        );
    }
}

} // verus!
