//! Compaction: what the samples of a series come to, bucket by bucket, under a rule.
use vstd::prelude::*;

use crate::aggregators::Aggregator;
use crate::common::{saturate_i128, Sample, Timestamp};
use crate::parallel::par_map;
use crate::ranges::{TimeRange, TimestampRanges};
use crate::series::{CompactionRule, SeriesView, TimeSeries};

verus! {

/// The bucket that a time lies in, as a range.
pub open spec fn bucket_range(rule: CompactionRule, t: Timestamp) -> TimeRange {
    (rule.bucket_of(t) as Timestamp, rule.bucket_end(t) as Timestamp)
}

/// The runs of buckets that `samples`, which are in order of time, fall into. A run goes on as long
/// as the next bucket starts no more than one bucket length behind its end.
pub open spec fn input_runs(rule: CompactionRule, samples: Seq<Sample>) -> Seq<TimeRange>
    decreases samples.len(),
{
    if samples.len() == 0 {
        Seq::empty()
    } else {
        let runs = input_runs(rule, samples.drop_last());
        let next = bucket_range(rule, samples.last().timestamp);
        if runs.len() > 0 && crate::common::saturate(next.0 - runs.last().1)
            <= rule.bucket_duration {
            runs.update(runs.len() - 1, (runs.last().0, next.1))
        } else {
            runs.push(next)
        }
    }
}

/// The times that have to be aggregated anew where `samples` were written.
pub open spec fn input_times(rule: CompactionRule, samples: Seq<Sample>) -> Set<int> {
    crate::ranges::covered_times(input_runs(rule, samples))
}

/// Where the bucket that starts at `start` ends: the first time behind it.
pub open spec fn behind_bucket(rule: CompactionRule, start: Timestamp) -> int {
    crate::common::saturate(start + rule.bucket_duration)
}

/// Whether a range starts in the bucket that still takes in samples.
pub open spec fn starts_open(rule: CompactionRule, range: TimeRange) -> bool {
    match rule.bucket_start {
        Some(open_start) => open_start <= range.0 < behind_bucket(rule, open_start),
        None => false,
    }
}

/// A walk over samples: the running aggregation, the bucket of the last sample, and the aggregates
/// of the buckets left behind.
pub struct Walk {
    pub aggregator: Aggregator,
    pub bucket: Option<Timestamp>,
    pub finished: Seq<Sample>,
}

impl Walk {
    /// The walk after the bucket `to` is entered: another bucket is left behind, and the aggregation
    /// starts anew. A bucket left behind is finished, unless it still takes in samples.
    pub open spec fn entered(self, rule: CompactionRule, to: Timestamp) -> Walk {
        match self.bucket {
            Some(from) => if from != to {
                Walk {
                    aggregator: crate::aggregators::fresh(self.aggregator.kind),
                    bucket: Some(to),
                    finished: if rule.bucket_start == Some(from) {
                        self.finished
                    } else {
                        self.finished.push(
                            Sample { timestamp: from, value: self.aggregator.result() },
                        )
                    },
                }
            } else {
                self
            },
            None => Walk { bucket: Some(to), ..self },
        }
    }

    /// The walk after one more sample.
    pub open spec fn step(self, rule: CompactionRule, x: Sample) -> Walk {
        let w = self.entered(rule, rule.bucket_of(x.timestamp) as Timestamp);
        Walk { aggregator: w.aggregator.updated(x.value), ..w }
    }

    /// The walk after `samples`.
    pub open spec fn over(self, rule: CompactionRule, samples: Seq<Sample>) -> Walk
        decreases samples.len(),
    {
        if samples.len() == 0 {
            self
        } else {
            self.over(rule, samples.drop_last()).step(rule, samples.last())
        }
    }

    /// Whether the walk ends in the bucket that still takes in samples, and before its end.
    pub open spec fn ends_open(self, rule: CompactionRule, end: Timestamp) -> bool {
        self.bucket is Some && rule.bucket_start == self.bucket && end < behind_bucket(
            rule,
            self.bucket->0,
        )
    }

    /// The aggregates where the walk ends at `end`, and the running aggregation where its last
    /// bucket still takes in samples.
    pub open spec fn outcome(self, rule: CompactionRule, end: Timestamp) -> (
        Seq<Sample>,
        Option<Aggregator>,
    ) {
        match self.bucket {
            Some(bucket) => if self.ends_open(rule, end) {
                (self.finished, Some(self.aggregator))
            } else {
                (
                    self.finished.push(Sample { timestamp: bucket, value: self.aggregator.result() }),
                    None,
                )
            },
            None => (self.finished, None),
        }
    }
}

/// A walk at its start, with a running aggregation.
pub open spec fn walk_with(aggregator: Aggregator) -> Walk {
    Walk { aggregator, bucket: None, finished: Seq::empty() }
}

/// A walk at its start: the aggregation of the rule goes on where the range starts in the bucket
/// that still takes in samples, and starts anew elsewhere.
pub open spec fn walk_start(rule: CompactionRule, range: TimeRange) -> Walk {
    walk_with(
        if starts_open(rule, range) {
            rule.aggregator
        } else {
            crate::aggregators::fresh(rule.aggregator.kind)
        },
    )
}

/// The aggregates of the samples of `source` in `range`, and the running aggregation where the last
/// bucket still takes in samples.
pub open spec fn range_outcome(source: SeriesView, rule: CompactionRule, range: TimeRange) -> (
    Seq<Sample>,
    Option<Aggregator>,
) {
    walk_start(rule, range).over(
        rule,
        crate::series::within(source.samples(), range.0, range.1),
    ).outcome(rule, range.1)
}

/// The aggregates of all ranges, range after range.
pub open spec fn aggregates(
    source: SeriesView,
    rule: CompactionRule,
    ranges: Seq<TimeRange>,
) -> Seq<Sample>
    decreases ranges.len(),
{
    if ranges.len() == 0 {
        Seq::empty()
    } else {
        aggregates(source, rule, ranges.drop_last()) + range_outcome(source, rule, ranges.last()).0
    }
}

/// The running aggregation that the ranges leave behind: that of the last range with one, else
/// that of the rule.
pub open spec fn running(
    source: SeriesView,
    rule: CompactionRule,
    ranges: Seq<TimeRange>,
) -> Aggregator
    decreases ranges.len(),
{
    if ranges.len() == 0 {
        rule.aggregator
    } else {
        match range_outcome(source, rule, ranges.last()).1 {
            Some(aggregator) => aggregator,
            None => running(source, rule, ranges.drop_last()),
        }
    }
}

/// What the rule makes of `source`, into which `samples` were written.
pub open spec fn compacted_samples(
    source: SeriesView,
    rule: CompactionRule,
    samples: Seq<Sample>,
) -> Seq<Sample> {
    aggregates(source, rule, crate::ranges::ranges_of(input_times(rule, samples)))
}

/// The rule after it was applied to `source`, into which `samples` were written.
pub open spec fn rule_after(
    source: SeriesView,
    rule: CompactionRule,
    samples: Seq<Sample>,
) -> CompactionRule {
    CompactionRule {
        aggregator: running(source, rule, crate::ranges::ranges_of(input_times(rule, samples))),
        ..rule
    }
}

/// The times that have to be aggregated anew where `samples`, which are in order of time, were
/// written.
pub fn collect_input_ranges(rule: &CompactionRule, samples: &[Sample]) -> (r: TimestampRanges)
    requires
        rule.wf(),
    ensures
        crate::ranges::range_contents(r) == input_times(*rule, samples@),
{
    let mut ranges: TimestampRanges = TimestampRanges::new();
    let n: usize = samples.len();
    if n == 0 {
        assert(input_times(*rule, samples@) =~= Set::<int>::empty());
        return ranges;
    }
    let gap: i128 = rule.bucket_duration as i128;
    let mut cur: TimeRange = rule.get_bucket_range(samples[0].timestamp);
    let mut i: usize = 1;
    proof {
        reveal_with_fuel(input_runs, 2);
        assert(samples@.take(1).drop_last() =~= Seq::<Sample>::empty());
        assert(samples@.take(1).last() == samples@[0]);
        assert(input_runs(*rule, samples@.take(1)) =~= seq![cur]);
        assert(input_runs(*rule, samples@.take(1)).drop_last() =~= Seq::<TimeRange>::empty());
        assert(crate::ranges::covered_times(
            Seq::<TimeRange>::empty(),
        ) =~= Set::<int>::empty());
    }
    while i < n
        invariant
            1 <= i <= n,
            n == samples@.len(),
            rule.wf(),
            gap == rule.bucket_duration,
            input_runs(*rule, samples@.take(i as int)).len() > 0,
            input_runs(*rule, samples@.take(i as int)).last() == cur,
            crate::ranges::range_contents(ranges) == crate::ranges::covered_times(
                input_runs(*rule, samples@.take(i as int)).drop_last(),
            ),
        decreases n - i,
    {
        let next: TimeRange = rule.get_bucket_range(samples[i].timestamp);
        let ghost runs = input_runs(*rule, samples@.take(i as int));
        let ghost later = input_runs(*rule, samples@.take(i + 1));
        proof {
            assert(samples@.take(i + 1).drop_last() =~= samples@.take(i as int));
            assert(samples@.take(i + 1).last() == samples@[i as int]);
        }
        let between: Timestamp = saturate_i128((next.0 as i128) - (cur.1 as i128));
        if (between as i128) <= gap {
            cur = (cur.0, next.1);
            assert(later.drop_last() =~= runs.drop_last());
        } else {
            ranges.ranges_insert(cur.0, cur.1);
            proof {
                assert(later.drop_last() =~= runs);
                crate::ranges::lemma_covered_push(runs.drop_last(), cur);
                assert(runs.drop_last().push(cur) =~= runs);
            }
            cur = next;
        }
        i = i + 1;
    }
    ranges.ranges_insert(cur.0, cur.1);
    proof {
        let runs = input_runs(*rule, samples@);
        assert(samples@.take(n as int) =~= samples@);
        crate::ranges::lemma_covered_push(runs.drop_last(), cur);
        assert(runs.drop_last().push(cur) =~= runs);
    }
    ranges
}

/// Whether a range starts in the bucket that still takes in samples.
pub fn range_affects_open_bucket(rule: &CompactionRule, range: TimeRange) -> (r: bool)
    ensures
        r == starts_open(*rule, range),
{
    match rule.bucket_start {
        Some(open_start) => {
            let behind: Timestamp = saturate_i128(
                (open_start as i128) + (rule.bucket_duration as i128),
            );
            open_start <= range.0 && range.0 < behind
        },
        None => false,
    }
}

/// Aggregates `samples`, bucket by bucket, with `start` as the running aggregation; the last bucket
/// is looked at as of the time `end`.
pub fn aggregate_samples(
    rule: &CompactionRule,
    start: Aggregator,
    samples: &Vec<Sample>,
    end: Timestamp,
) -> (r: (Vec<Sample>, Option<Aggregator>))
    requires
        rule.wf(),
    ensures
        (r.0@, r.1) == walk_with(start).over(*rule, samples@).outcome(*rule, end),
{
    let mut aggregator: Aggregator = start;
    let mut finished: Vec<Sample> = Vec::new();
    let mut current: Option<Timestamp> = None;
    let mut i: usize = 0;
    while i < samples.len()
        invariant
            i <= samples@.len(),
            rule.wf(),
            walk_with(start).over(*rule, samples@.take(i as int)) == (Walk {
                aggregator,
                bucket: current,
                finished: finished@,
            }),
        decreases samples@.len() - i,
    {
        let x: Sample = samples[i];
        proof {
            assert(samples@.take(i + 1).drop_last() =~= samples@.take(i as int));
            assert(samples@.take(i + 1).last() == x);
        }
        let bucket: Timestamp = rule.calc_bucket_start(x.timestamp);
        if let Some(left) = current {
            if bucket != left {
                let is_open: bool = match rule.bucket_start {
                    Some(open_start) => open_start == left,
                    None => false,
                };
                if !is_open {
                    finished.push(Sample::new(left, aggregator.finalize()));
                }
                aggregator.reset();
            }
        }
        current = Some(bucket);
        aggregator.update(x.timestamp, x.value);
        i = i + 1;
    }
    assert(samples@.take(i as int) =~= samples@);
    if let Some(bucket) = current {
        let is_still_open: bool = match rule.bucket_start {
            Some(open_start) => bucket == open_start && end < saturate_i128(
                (open_start as i128) + (rule.bucket_duration as i128),
            ),
            None => false,
        };
        if is_still_open {
            return (finished, Some(aggregator));
        }
        finished.push(Sample::new(bucket, aggregator.finalize()));
    }
    (finished, None)
}

/// Aggregates the samples of `source` in `range`.
pub fn aggregate_compaction_range(source: &TimeSeries, rule: &CompactionRule, range: TimeRange) -> (r: (
    Vec<Sample>,
    Option<Aggregator>,
))
    requires
        rule.wf(),
    ensures
        (r.0@, r.1) == range_outcome(source@, *rule, range),
{
    let mut aggregator: Aggregator = rule.aggregator;
    if !range_affects_open_bucket(rule, range) {
        aggregator.reset();
    }
    let samples: Vec<Sample> = source.range_iter(range.0, range.1);
    aggregate_samples(rule, aggregator, &samples, range.1)
}

/// Applies a rule to `source`, into which `src_samples`, which are in order of time, were written:
/// gives the aggregates, and keeps the running aggregation of the bucket that still takes in
/// samples.
pub fn get_compacted_samples(
    source: &TimeSeries,
    rule: &mut CompactionRule,
    src_samples: &[Sample],
) -> (r: Vec<Sample>)
    requires
        old(rule).wf(),
    ensures
        r@ == compacted_samples(source@, *old(rule), src_samples@),
        *final(rule) == rule_after(source@, *old(rule), src_samples@),
{
    let applied: CompactionRule = *rule;
    let ranges: Vec<TimeRange> = collect_input_ranges(&applied, src_samples).ranges();
    let ghost all = ranges@;
    let n: usize = ranges.len();
    proof {
        let times = input_times(applied, src_samples@);
        crate::ranges::law_ranges_unique(all, crate::ranges::ranges_of(times), times);
    }
    let aggregate = |range: TimeRange| -> (r: (Vec<Sample>, Option<Aggregator>))
        ensures
            (r.0@, r.1) == range_outcome(source@, applied, range),
        { aggregate_compaction_range(source, &applied, range) };
    let outcomes: Vec<(Vec<Sample>, Option<Aggregator>)> = par_map(ranges, aggregate);
    let ghost results = outcomes@;
    let mut added: Vec<Sample> = Vec::new();
    let mut updated: Option<Aggregator> = None;
    let mut at: usize = 0;
    for result in it: outcomes
        invariant
            it.seq() == results,
            results.len() == n,
            all.len() == n,
            at == it.index(),
            at <= n,
            forall|i: int|
                0 <= i < n ==> ((#[trigger] results[i]).0@, results[i].1) == range_outcome(
                    source@,
                    applied,
                    all[i],
                ),
            added@ == aggregates(source@, applied, all.take(at as int)),
            running(source@, applied, all.take(at as int)) == match updated {
                Some(aggregator) => aggregator,
                None => applied.aggregator,
            },
    {
        assert(at < n);
        assert(result == results[at as int]);
        proof {
            assert(all.take(at + 1).drop_last() =~= all.take(at as int));
            assert(all.take(at + 1).last() == all[at as int]);
        }
        let (mut samples, aggregator) = result;
        if let Some(state) = aggregator {
            updated = Some(state);
        }
        added.append(&mut samples);
        at = at + 1;
    }
    assert(all.take(n as int) =~= all);
    if let Some(aggregator) = updated {
        rule.aggregator = aggregator;
    }
    added
}

} // verus!
