//! Range queries: the samples of a series that a query asks for, one after the other.
use vstd::prelude::*;

use crate::aggregators::{AggregationType, Aggregator};
use crate::binary64;
use crate::common::{Sample, Timestamp};
use crate::compaction::aggregate_samples;
use crate::context::{Context, ContextView};
use crate::series::{CompactionRule, SeriesView, TimeSeries};

verus! {

/// Why a range of times is refused.
#[derive(Debug, Clone, Copy, PartialEq, Eq, Structural)]
pub enum RangeError {
    /// It starts behind its end.
    StartBehindEnd,
}

/// A range of times.
#[derive(Debug, Clone, Copy, PartialEq, Eq, Structural)]
pub struct TimestampRange {
    pub start: Timestamp,
    pub end: Timestamp,
}

impl TimestampRange {
    /// The range from `start` to `end`.
    pub fn from_timestamps(start: Timestamp, end: Timestamp) -> (r: Result<Self, RangeError>)
        ensures
            match r {
                Ok(range) => start <= end && range == (TimestampRange { start, end }),
                Err(e) => start > end && e == RangeError::StartBehindEnd,
            },
    {
        if start > end {
            Err(RangeError::StartBehindEnd)
        } else {
            Ok(TimestampRange { start, end })
        }
    }

    /// The first and the last time.
    pub fn get_timestamps(&self) -> (r: (Timestamp, Timestamp))
        ensures
            r == (self.start, self.end),
    {
        (self.start, self.end)
    }
}

/// The values that a query asks for, as bits of binary64 numbers.
#[derive(Debug, Clone, Copy, PartialEq, Eq, Structural)]
pub struct ValueFilter {
    pub min: u64,
    pub max: u64,
}

impl ValueFilter {
    /// Whether a value lies between the bounds; a NaN does not.
    pub open spec fn admits(self, value: u64) -> bool {
        !binary64::nan(value) && !binary64::nan(self.min) && !binary64::nan(self.max)
            && !binary64::less(value, self.min) && !binary64::less(self.max, value)
    }

    /// Whether a value lies between the bounds; a NaN does not.
    pub fn is_match(&self, value: u64) -> (r: bool)
        ensures
            r == self.admits(value),
    {
        !binary64::float_is_nan(value) && !binary64::float_is_nan(self.min)
            && !binary64::float_is_nan(self.max) && !binary64::float_less(value, self.min)
            && !binary64::float_less(self.max, value)
    }
}

/// How the samples of a query are aggregated.
#[derive(Debug, Clone, Copy, PartialEq, Eq, Structural)]
pub struct AggregationOptions {
    pub aggregation: AggregationType,
    /// The length of a bucket in milliseconds.
    pub bucket_duration: u64,
}

impl AggregationOptions {
    /// The rule by which samples fall into buckets: they start at multiples of their length, and
    /// none of them stays open.
    pub open spec fn rule(self) -> CompactionRule {
        CompactionRule {
            dest_id: 0,
            aggregator: crate::aggregators::fresh(self.aggregation),
            bucket_duration: self.bucket_duration,
            align_timestamp: 0,
            bucket_start: None,
        }
    }

    /// The aggregates of `samples`, bucket by bucket.
    pub open spec fn aggregated(self, samples: Seq<Sample>) -> Seq<Sample> {
        crate::compaction::walk_with(crate::aggregators::fresh(self.aggregation)).over(
            self.rule(),
            samples,
        ).outcome(self.rule(), 0).0
    }
}

/// What a query asks for.
#[derive(Debug)]
pub struct RangeOptions {
    pub date_range: TimestampRange,
    /// The most samples to give.
    pub count: Option<usize>,
    pub aggregation: Option<AggregationOptions>,
    /// The times to give.
    pub timestamp_filter: Option<Vec<Timestamp>>,
    pub value_filter: Option<ValueFilter>,
    /// Whether the bucket that still takes in samples is asked for, where the series is compacted
    /// from another one.
    pub latest: bool,
}

impl RangeOptions {
    /// Whether an aggregation has buckets of a length that a timestamp can hold.
    pub open spec fn wf(self) -> bool {
        self.aggregation is Some ==> self.aggregation->0.rule().wf()
    }

    /// Whether the time filter lets a time through.
    pub open spec fn wants_time(self, t: Timestamp) -> bool {
        match self.timestamp_filter {
            Some(times) => times@.contains(t),
            None => true,
        }
    }

    /// Whether the value filter lets a value through.
    pub open spec fn wants_value(self, value: u64) -> bool {
        match self.value_filter {
            Some(filter) => filter.admits(value),
            None => true,
        }
    }

    /// Whether both filters let a sample through, as a function.
    pub open spec fn wants(self) -> spec_fn(Sample) -> bool {
        |x: Sample| self.wants_time(x.timestamp) && self.wants_value(x.value)
    }

    /// The first and the last time of the answer: the retention moves the first one up, and the
    /// last one with it where it would come before.
    pub open spec fn bounds(self, series: SeriesView) -> (Timestamp, Timestamp) {
        let range = (self.date_range.start, self.date_range.end);
        if series.retention == 0 {
            range
        } else {
            let start = if range.0 < series.min_timestamp() {
                series.min_timestamp()
            } else {
                range.0
            };
            (
                start,
                if start < range.1 {
                    range.1
                } else {
                    start
                },
            )
        }
    }

    /// Whether the bucket that still takes in samples is asked for.
    pub open spec fn needs_latest(self, series: SeriesView) -> bool {
        self.latest && series.src_series is Some
    }

    /// The sample of the bucket that still takes in samples, out of the one found: it has to be
    /// asked for, and it lies behind the last sample, between the bounds, at a time that the time
    /// filter lets through.
    pub open spec fn latest_of(self, series: SeriesView, found: Option<Sample>) -> Option<Sample> {
        let bounds = self.bounds(series);
        match found {
            Some(x) => if self.needs_latest(series) && bounds.1 > series.last_timestamp && bounds.0
                <= x.timestamp <= bounds.1 && self.wants_time(x.timestamp) {
                found
            } else {
                None
            },
            None => None,
        }
    }

    /// The samples that both filters let through between the bounds, and behind them the one of the
    /// bucket that still takes in samples.
    pub open spec fn selected(self, series: SeriesView, latest: Option<Sample>) -> Seq<Sample> {
        let bounds = self.bounds(series);
        let stored = crate::series::within(series.samples(), bounds.0, bounds.1).filter(
            self.wants(),
        );
        match latest {
            Some(x) => if self.wants_value(x.value) {
                stored.push(x)
            } else {
                stored
            },
            None => stored,
        }
    }

    /// The answer to the query: the selected samples, aggregated where that is asked for, in the
    /// order that is asked for, and no more than are asked for.
    pub open spec fn answer(
        self,
        series: SeriesView,
        latest: Option<Sample>,
        is_reverse: bool,
    ) -> Seq<Sample> {
        let rows = self.selected(series, latest);
        let reduced = match self.aggregation {
            Some(options) => options.aggregated(rows),
            None => rows,
        };
        let turned = if is_reverse {
            reduced.reverse()
        } else {
            reduced
        };
        match self.count {
            Some(count) => if count < turned.len() {
                turned.take(count as int)
            } else {
                turned
            },
            None => turned,
        }
    }

    /// The least and the most samples that are announced: the most is the count asked for, or the
    /// number of times in the filter, one more where there is a latest sample, whichever is less.
    pub open spec fn announced(self, latest: Option<Sample>) -> (usize, Option<usize>) {
        match self.timestamp_filter {
            Some(times) => {
                let wanted = crate::series::clamp_count(
                    times@.len() + if latest is Some {
                        1nat
                    } else {
                        0
                    },
                );
                match self.count {
                    Some(count) => (
                        0,
                        Some(
                            if count < wanted {
                                count
                            } else {
                                wanted
                            },
                        ),
                    ),
                    None => (0, Some(wanted)),
                }
            },
            None => (0, self.count),
        }
    }

    /// The first and the last time of the answer.
    fn get_bounds(&self, series: &TimeSeries) -> (r: (Timestamp, Timestamp))
        ensures
            r == self.bounds(series@),
    {
        let (start, end) = self.date_range.get_timestamps();
        if series.retention == 0 {
            (start, end)
        } else {
            let min: Timestamp = series.get_min_timestamp();
            let first: Timestamp = if start < min {
                min
            } else {
                start
            };
            if first < end {
                (first, end)
            } else {
                (first, first)
            }
        }
    }

    /// Whether the time filter lets a time through.
    fn allows_time(&self, t: Timestamp) -> (r: bool)
        ensures
            r == self.wants_time(t),
    {
        match &self.timestamp_filter {
            Some(times) => {
                let mut i: usize = 0;
                while i < times.len()
                    invariant
                        i <= times@.len(),
                        self.wants_time(t) == times@.contains(t),
                        forall|k: int| 0 <= k < i ==> times@[k] != t,
                    decreases times@.len() - i,
                {
                    if times[i] == t {
                        return true;
                    }
                    i = i + 1;
                }
                false
            },
            None => true,
        }
    }

    /// Whether the value filter lets a value through.
    fn allows_value(&self, value: u64) -> (r: bool)
        ensures
            r == self.wants_value(value),
    {
        match &self.value_filter {
            Some(filter) => filter.is_match(value),
            None => true,
        }
    }
}

/// The sample of the bucket that still takes in samples that belongs to the answer, out of the one
/// found.
pub fn latest_in_range(found: Option<Sample>, series: &TimeSeries, options: &RangeOptions) -> (r:
    Option<Sample>)
    ensures
        r == options.latest_of(series@, found),
{
    if !(options.latest && series.is_compaction()) {
        return None;
    }
    let (start, end) = options.get_bounds(series);
    if end <= series.last_timestamp() {
        return None;
    }
    match found {
        Some(x) => if x.timestamp >= start && x.timestamp <= end && options.allows_time(
            x.timestamp,
        ) {
            Some(x)
        } else {
            None
        },
        None => None,
    }
}

/// The samples between the bounds that both filters let through, and the latest one.
fn select_samples(series: &TimeSeries, options: &RangeOptions, latest: Option<Sample>) -> (r: Vec<
    Sample,
>)
    ensures
        r@ == options.selected(series@, latest),
{
    let (start, end) = options.get_bounds(series);
    let stored: Vec<Sample> = series.range_iter(start, end);
    let mut r: Vec<Sample> = Vec::new();
    let ghost wants = options.wants();
    let mut i: usize = 0;
    proof {
        reveal(Seq::filter);
        assert(stored@.take(0).filter(wants) =~= Seq::<Sample>::empty());
    }
    while i < stored.len()
        invariant
            i <= stored@.len(),
            wants == options.wants(),
            r@ == stored@.take(i as int).filter(wants),
        decreases stored@.len() - i,
    {
        proof {
            reveal(Seq::filter);
            assert(stored@.take(i + 1).drop_last() =~= stored@.take(i as int));
        }
        let x: Sample = stored[i];
        if options.allows_time(x.timestamp) && options.allows_value(x.value) {
            r.push(x);
        }
        i = i + 1;
    }
    assert(stored@.take(i as int) =~= stored@);
    if let Some(x) = latest {
        if options.allows_value(x.value) {
            r.push(x);
        }
    }
    r
}

/// `samples` from the last to the first.
fn reverse_samples(samples: Vec<Sample>) -> (r: Vec<Sample>)
    ensures
        r@ == samples@.reverse(),
{
    let mut r: Vec<Sample> = Vec::with_capacity(samples.len());
    let mut i: usize = samples.len();
    while i > 0
        invariant
            i <= samples@.len(),
            r@ == samples@.reverse().take(samples@.len() - i),
        decreases i,
    {
        i = i - 1;
        r.push(samples[i]);
        assert(r@ =~= samples@.reverse().take(samples@.len() - i));
    }
    assert(r@ =~= samples@.reverse());
    r
}

/// The answer to a query, with the latest sample given.
pub fn create_range_iterator(
    series: &TimeSeries,
    options: &RangeOptions,
    latest: Option<Sample>,
    is_reverse: bool,
) -> (r: Vec<Sample>)
    requires
        options.wf(),
    ensures
        r@ == options.answer(series@, latest, is_reverse),
{
    let mut rows: Vec<Sample> = select_samples(series, options, latest);
    if let Some(aggregation) = &options.aggregation {
        let aggregator: Aggregator = Aggregator::new(aggregation.aggregation);
        let rule: CompactionRule = CompactionRule {
            dest_id: 0,
            aggregator,
            bucket_duration: aggregation.bucket_duration,
            align_timestamp: 0,
            bucket_start: None,
        };
        let (reduced, _) = aggregate_samples(&rule, aggregator, &rows, 0);
        rows = reduced;
    }
    if is_reverse {
        rows = reverse_samples(rows);
    }
    if let Some(count) = options.count {
        if count < rows.len() {
            rows.truncate(count);
            assert(rows@.len() == count);
        }
    }
    rows
}

/// The samples that a query asks for, one after the other.
#[derive(Debug)]
pub struct TimeSeriesRangeIterator {
    rows: Vec<Sample>,
    position: usize,
    size_hint: (usize, Option<usize>),
}

impl TimeSeriesRangeIterator {
    /// Whether the position lies among the rows.
    pub closed spec fn wf(self) -> bool {
        self.position <= self.rows@.len()
    }

    /// The samples still to come.
    pub closed spec fn remaining(self) -> Seq<Sample> {
        self.rows@.skip(self.position as int)
    }

    /// The least and the most samples that were announced.
    pub closed spec fn hint(self) -> (usize, Option<usize>) {
        self.size_hint
    }

    /// The answer to a query on `series`.
    ///
    /// The context is needed where the bucket that still takes in samples is asked for.
    pub fn new(
        ctx: Option<&Context>,
        series: &TimeSeries,
        options: &RangeOptions,
        is_reverse: bool,
    ) -> (r: Self)
        requires
            options.wf(),
            options.needs_latest(series@) ==> ctx is Some,
        ensures
            r.wf(),
            ({
                let found = match ctx {
                    Some(context) => context@.latest_sample(series@),
                    None => None,
                };
                let latest = options.latest_of(series@, found);
                &&& r.remaining() == options.answer(series@, latest, is_reverse)
                &&& r.hint() == options.announced(latest)
            }),
    {
        let found: Option<Sample> = match ctx {
            Some(context) => context.get_latest_compaction_sample(series),
            None => None,
        };
        let latest: Option<Sample> = latest_in_range(found, series, options);
        let mut size_hint: (usize, Option<usize>) = (0, options.count);
        if let Some(times) = &options.timestamp_filter {
            let extra: usize = if latest.is_some() {
                1
            } else {
                0
            };
            let wanted: usize = times.len().saturating_add(extra);
            size_hint = match options.count {
                Some(count) => (
                    0,
                    Some(
                        if count < wanted {
                            count
                        } else {
                            wanted
                        },
                    ),
                ),
                None => (0, Some(wanted)),
            };
        }
        let rows: Vec<Sample> = create_range_iterator(series, options, latest, is_reverse);
        assert(rows@.skip(0) =~= rows@);
        TimeSeriesRangeIterator { rows, position: 0, size_hint }
    }

    /// The least and the most samples that were announced.
    pub fn len_hint(&self) -> (r: (usize, Option<usize>))
        ensures
            r == self.hint(),
    {
        self.size_hint
    }

    /// The next sample; none at the end.
    pub fn next(&mut self) -> (r: Option<Sample>)
        requires
            old(self).wf(),
        ensures
            final(self).wf(),
            final(self).hint() == old(self).hint(),
            match r {
                Some(x) => old(self).remaining().len() > 0 && x == old(self).remaining()[0]
                    && final(self).remaining() == old(self).remaining().drop_first(),
                None => old(self).remaining().len() == 0
                    && final(self).remaining() == old(self).remaining(),
            },
    {
        if self.position < self.rows.len() {
            let x: Sample = self.rows[self.position];
            self.position = self.position + 1;
            assert(self.remaining() =~= old(self).remaining().drop_first());
            Some(x)
        } else {
            None
        }
    }

    /// The samples still to come.
    pub fn collect(self) -> (r: Vec<Sample>)
        requires
            self.wf(),
        ensures
            r@ == self.remaining(),
    {
        let mut r: Vec<Sample> = Vec::new();
        let mut i: usize = self.position;
        while i < self.rows.len()
            invariant
                self.position <= i <= self.rows@.len(),
                r@ == self.rows@.subrange(self.position as int, i as int),
            decreases self.rows@.len() - i,
        {
            r.push(self.rows[i]);
            i = i + 1;
        }
        r
    }
}

/// Gives the sample of the bucket that still takes in samples, once.
#[derive(Debug)]
pub struct CompactionLatestSampleIterator<'a> {
    context: &'a Context,
    series: &'a TimeSeries,
    done: bool,
}

impl<'a> CompactionLatestSampleIterator<'a> {
    /// What the sample is looked up in.
    pub closed spec fn context(self) -> ContextView {
        self.context@
    }

    /// The series that the sample belongs to.
    pub closed spec fn series(self) -> SeriesView {
        self.series@
    }

    /// Whether the sample was given.
    pub closed spec fn done(self) -> bool {
        self.done
    }

    /// Starts before the sample of `series`.
    pub fn new(context: &'a Context, series: &'a TimeSeries) -> (r: Self)
        ensures
            r.context() == context@,
            r.series() == series@,
            !r.done(),
    {
        CompactionLatestSampleIterator { context, series, done: false }
    }

    /// The sample of the bucket that still takes in samples, where it was not given yet.
    pub fn next(&mut self) -> (r: Option<Sample>)
        ensures
            final(self).context() == old(self).context(),
            final(self).series() == old(self).series(),
            final(self).done(),
            r == if old(self).done() {
                None
            } else {
                old(self).context().latest_sample(old(self).series())
            },
    {
        if !self.done {
            self.done = true;
            return self.context.get_latest_compaction_sample(self.series);
        }
        None
    }
}

/// Without an aggregation, every sample of an answer lies between the bounds, at a time and with a
/// value that the filters let through.
pub proof fn law_answer_is_selected(
    series: SeriesView,
    options: RangeOptions,
    found: Option<Sample>,
    is_reverse: bool,
    i: int,
)
    requires
        options.aggregation is None,
        0 <= i < options.answer(
            series,
            options.latest_of(series, found),
            is_reverse,
        ).len(),
    ensures
        ({
            let x = options.answer(series, options.latest_of(series, found), is_reverse)[i];
            &&& options.bounds(series).0 <= x.timestamp <= options.bounds(series).1
            &&& options.wants_time(x.timestamp)
            &&& options.wants_value(x.value)
        }),
{
    let latest = options.latest_of(series, found);
    let bounds = options.bounds(series);
    let rows = options.selected(series, latest);
    let x = options.answer(series, latest, is_reverse)[i];
    let k = if is_reverse {
        rows.len() - 1 - i
    } else {
        i
    };
    assert(x == rows[k]);
    let base = crate::series::within(series.samples(), bounds.0, bounds.1);
    let stored = base.filter(options.wants());
    if k < stored.len() {
        lemma_filtered(base, options.wants(), k);
        let j = choose|j: int| 0 <= j < base.len() && base[j] == stored[k];
        lemma_filtered(
            series.samples(),
            |y: Sample| bounds.0 <= y.timestamp <= bounds.1,
            j,
        );
    }
}

proof fn lemma_filtered(s: Seq<Sample>, f: spec_fn(Sample) -> bool, i: int)
    requires
        0 <= i < s.filter(f).len(),
    ensures
        s.contains(s.filter(f)[i]),
        f(s.filter(f)[i]),
    decreases s.len(),
{
    reveal(Seq::filter);
    if s.len() > 0 {
        let d = s.drop_last();
        if i < d.filter(f).len() {
            lemma_filtered(d, f, i);
            let k = choose|k: int| 0 <= k < d.len() && d[k] == d.filter(f)[i];
            assert(s[k] == s.filter(f)[i]);
        } else {
            assert(s[s.len() - 1] == s.filter(f)[i]);
        }
    }
}

proof fn lemma_filter_keeps(s: Seq<Sample>, f: spec_fn(Sample) -> bool, x: Sample)
    requires
        s.contains(x),
        f(x),
    ensures
        s.filter(f).contains(x),
    decreases s.len(),
{
    reveal(Seq::filter);
    let i = choose|i: int| 0 <= i < s.len() && s[i] == x;
    let d = s.drop_last();
    let r = s.filter(f);
    if i < s.len() - 1 {
        assert(d[i] == x);
        lemma_filter_keeps(d, f, x);
        let k = choose|k: int| 0 <= k < d.filter(f).len() && d.filter(f)[k] == x;
        assert(r[k] == x);
    } else {
        assert(r[r.len() - 1] == x);
    }
}

/// Where all samples are asked for as they are, an answer leaves none out that lies between the
/// bounds and that both filters let through.
pub proof fn law_answer_leaves_nothing_out(
    series: SeriesView,
    options: RangeOptions,
    latest: Option<Sample>,
    is_reverse: bool,
    x: Sample,
)
    requires
        options.aggregation is None,
        options.count is None,
        series.samples().contains(x),
        options.bounds(series).0 <= x.timestamp <= options.bounds(series).1,
        options.wants_time(x.timestamp),
        options.wants_value(x.value),
    ensures
        options.answer(series, latest, is_reverse).contains(x),
{
    let bounds = options.bounds(series);
    let base = crate::series::within(series.samples(), bounds.0, bounds.1);
    let stored = base.filter(options.wants());
    lemma_filter_keeps(
        series.samples(),
        |y: Sample| bounds.0 <= y.timestamp <= bounds.1,
        x,
    );
    lemma_filter_keeps(base, options.wants(), x);
    let rows = options.selected(series, latest);
    let answer = options.answer(series, latest, is_reverse);
    let k = choose|k: int| 0 <= k < stored.len() && stored[k] == x;
    assert(rows[k] == x);
    if is_reverse {
        assert(answer[rows.len() - 1 - k] == x);
    } else {
        assert(answer[k] == x);
    }
}

/// A filter keeps the order of time.
proof fn lemma_filter_ascending(s: Seq<Sample>, f: spec_fn(Sample) -> bool)
    requires
        crate::chunk::ascending(s),
    ensures
        crate::chunk::ascending(s.filter(f)),
    decreases s.len(),
{
    reveal(Seq::filter);
    if s.len() > 0 {
        let d = s.drop_last();
        let n = s.len() - 1;
        assert(crate::chunk::ascending(d)) by {
            assert forall|i: int, j: int| 0 <= i < j < d.len() implies (
            #[trigger] d[i]).timestamp < (#[trigger] d[j]).timestamp by {
                assert(s[i].timestamp < s[j].timestamp);
            }
        }
        lemma_filter_ascending(d, f);
        let r = s.filter(f);
        assert forall|i: int, j: int| 0 <= i < j < r.len() implies (#[trigger] r[i]).timestamp < (
        #[trigger] r[j]).timestamp by {
            if j < d.filter(f).len() {
                assert(r[i] == d.filter(f)[i] && r[j] == d.filter(f)[j]);
            } else {
                assert(r[j] == s[n]);
                assert(r[i] == d.filter(f)[i]);
                lemma_filtered(d, f, i);
                let k = choose|k: int| 0 <= k < d.len() && d[k] == d.filter(f)[i];
                assert(s[k].timestamp < s[n].timestamp);
            }
        }
    }
}

/// The selected samples are in order of time, where the one of the bucket that still takes in
/// samples lies behind those of the series.
proof fn lemma_selected_ascending(
    series: SeriesView,
    options: RangeOptions,
    latest: Option<Sample>,
)
    requires
        series.wf(),
        latest is Some && series.chunks.len() > 0 ==> latest->0.timestamp > series.last_timestamp,
    ensures
        crate::chunk::ascending(options.selected(series, latest)),
{
    let bounds = options.bounds(series);
    let all = series.samples();
    let between = |y: Sample| bounds.0 <= y.timestamp <= bounds.1;
    let base = crate::series::within(all, bounds.0, bounds.1);
    let stored = base.filter(options.wants());
    lemma_filter_ascending(all, between);
    lemma_filter_ascending(base, options.wants());
    crate::joining::lemma_ascending_ordered(series.chunks);
    let rows = options.selected(series, latest);
    if latest is Some && options.wants_value(latest->0.value) {
        assert forall|i: int, j: int| 0 <= i < j < rows.len() implies (#[trigger] rows[i]).timestamp
            < (#[trigger] rows[j]).timestamp by {
            assert(rows[i] == stored[i]);
            if j < stored.len() {
                assert(rows[j] == stored[j]);
            } else {
                lemma_filtered(base, options.wants(), i);
                let k = choose|k: int| 0 <= k < base.len() && base[k] == stored[i];
                lemma_filtered(all, between, k);
                let m = choose|m: int| 0 <= m < all.len() && all[m] == base[k];
                if m < all.len() - 1 {
                    assert(all[m].timestamp < all[all.len() - 1].timestamp);
                }
            }
        }
    }
}

/// An answer is in order of time, no two samples at the same time: from the oldest to the newest, or
/// in reverse from the newest to the oldest. The sample of the bucket that still takes in samples,
/// where there is one, has to lie behind those of the series.
pub proof fn law_answer_in_order(
    series: SeriesView,
    options: RangeOptions,
    latest: Option<Sample>,
    is_reverse: bool,
    i: int,
    j: int,
)
    requires
        series.wf(),
        options.wf(),
        latest is Some && series.chunks.len() > 0 ==> latest->0.timestamp > series.last_timestamp,
        0 <= i < j < options.answer(series, latest, is_reverse).len(),
    ensures
        ({
            let answer = options.answer(series, latest, is_reverse);
            if is_reverse {
                answer[i].timestamp > answer[j].timestamp
            } else {
                answer[i].timestamp < answer[j].timestamp
            }
        }),
{
    let rows = options.selected(series, latest);
    lemma_selected_ascending(series, options, latest);
    let reduced = match options.aggregation {
        Some(aggregation) => {
            crate::compaction_laws::lemma_ascending_in_order(rows);
            crate::compaction_laws::law_one_aggregate_per_bucket(
                aggregation.rule(),
                aggregation.aggregation,
                rows,
                0,
            );
            aggregation.aggregated(rows)
        },
        None => rows,
    };
    let n = reduced.len();
    if is_reverse {
        assert(reduced[n - 1 - j].timestamp < reduced[n - 1 - i].timestamp);
    } else {
        assert(reduced[i].timestamp < reduced[j].timestamp);
    }
}

/// An answer never holds more samples than are asked for.
pub proof fn law_count_is_kept(
    series: SeriesView,
    options: RangeOptions,
    latest: Option<Sample>,
    is_reverse: bool,
)
    requires
        options.count is Some,
    ensures
        options.answer(series, latest, is_reverse).len() <= options.count->0,
{
}

/// The answer in reverse is the answer from the last sample to the first, where all are asked for.
pub proof fn law_reverse_turns_round(
    series: SeriesView,
    options: RangeOptions,
    latest: Option<Sample>,
)
    requires
        options.count is None,
    ensures
        options.answer(series, latest, true) == options.answer(series, latest, false).reverse(),
{
}

/// The bounds of an answer hold every time that lies in the range asked for and that the retention
/// keeps, and none that lies before the range or that the retention does not keep. A time behind the
/// range is held only where the retention has moved the start there.
pub proof fn law_bounds_are_range_and_retention(
    series: SeriesView,
    options: RangeOptions,
    t: Timestamp,
)
    ensures
        ({
            let (start, end) = options.bounds(series);
            let range = options.date_range;
            let retained = series.retention > 0 ==> t >= series.min_timestamp();
            &&& range.start <= t <= range.end && retained ==> start <= t <= end
            &&& start <= t <= end ==> range.start <= t && retained
            &&& start <= t <= end && t > range.end ==> t == start
        }),
{
}

/// A value filter lets a number through just where it lies between the bounds, as numbers.
pub proof fn law_value_filter_is_numeric(filter: ValueFilter, value: u64)
    requires
        crate::number_laws::finite(filter.min),
        crate::number_laws::finite(filter.max),
    ensures
        crate::number_laws::finite(value) ==> (filter.admits(value) <==> binary64::units(filter.min)
            <= binary64::units(value) <= binary64::units(filter.max)),
        !crate::number_laws::finite(value) ==> !filter.admits(value),
{
    if crate::number_laws::finite(value) {
        crate::number_laws::law_less_is_numeric(value, filter.min);
        crate::number_laws::law_less_is_numeric(filter.max, value);
    } else if binary64::infinite(value) {
        crate::number_laws::law_infinity_is_beyond(filter.min, value);
        crate::number_laws::law_infinity_is_beyond(filter.max, value);
    }
}

/// The sample of the bucket that still takes in samples is that of the first rule that compacts into
/// the series: it stands at the start of the bucket, and its value is the running aggregate.
pub proof fn law_open_bucket_is_found(ctx: ContextView, series: SeriesView, i: int)
    requires
        series.src_series is Some,
        ctx.series.contains_key(series.src_series->0),
        0 <= i < ctx.series[series.src_series->0].rules.len(),
        ctx.series[series.src_series->0].rules[i].dest_id == series.id,
        forall|j: int|
            0 <= j < i ==> (#[trigger] ctx.series[series.src_series->0].rules[j]).dest_id
                != series.id,
    ensures
        ({
            let rule = ctx.series[series.src_series->0].rules[i];
            match rule.bucket_start {
                Some(start) => ctx.latest_sample(series) == Some(
                    Sample { timestamp: start, value: rule.aggregator.result() },
                ),
                None => ctx.latest_sample(series) is None,
            }
        }),
{
    lemma_first_rule(ctx.series[series.src_series->0].rules, series.id, i);
}

proof fn lemma_first_rule(rules: Seq<CompactionRule>, dest: crate::series::SeriesRef, i: int)
    requires
        0 <= i < rules.len(),
        rules[i].dest_id == dest,
        forall|j: int| 0 <= j < i ==> (#[trigger] rules[j]).dest_id != dest,
    ensures
        crate::context::open_sample(rules, dest) == crate::context::open_sample(
            seq![rules[i]],
            dest,
        ),
    decreases rules.len(),
{
    if i > 0 {
        let d = rules.drop_first();
        assert forall|j: int| 0 <= j < i - 1 implies (#[trigger] d[j]).dest_id != dest by {
            assert(rules[j + 1].dest_id != dest);
        }
        assert(rules[0].dest_id != dest);
        lemma_first_rule(d, dest, i - 1);
    }
}

/// Where all samples of a series that is compacted from another one are asked for as they are, with
/// the latest one, the answer holds the sample of the bucket that still takes in samples, where it
/// lies in the range, the range ends behind the last sample stored, the retention keeps its time, and
/// both filters let it through. It does not matter where the range starts otherwise.
pub proof fn law_open_bucket_is_answered(
    ctx: ContextView,
    series: SeriesView,
    options: RangeOptions,
    is_reverse: bool,
    x: Sample,
)
    requires
        options.aggregation is None,
        options.count is None,
        options.latest,
        series.src_series is Some,
        ctx.latest_sample(series) == Some(x),
        options.date_range.start <= x.timestamp <= options.date_range.end,
        options.date_range.end > series.last_timestamp,
        series.retention > 0 ==> x.timestamp >= series.min_timestamp(),
        options.timestamp_filter is Some ==> options.timestamp_filter->0@.contains(x.timestamp),
        options.value_filter is Some ==> options.value_filter->0.admits(x.value),
    ensures
        ({
            let latest = options.latest_of(series, ctx.latest_sample(series));
            let answer = options.answer(series, latest, is_reverse);
            &&& answer.contains(x)
            &&& answer.len() > 0
            &&& if is_reverse {
                answer[0] == x
            } else {
                answer.last() == x
            }
        }),
{
    let latest = options.latest_of(series, ctx.latest_sample(series));
    let rows = options.selected(series, latest);
    let answer = options.answer(series, latest, is_reverse);
    assert(rows.last() == x);
    if is_reverse {
        assert(answer[0] == x);
    } else {
        assert(answer[answer.len() - 1] == x);
    }
}

/// Without an aggregation, every sample of an answer is stored in the series, or is the sample of the
/// bucket that still takes in samples.
pub proof fn law_answer_is_stored(
    series: SeriesView,
    options: RangeOptions,
    latest: Option<Sample>,
    is_reverse: bool,
    i: int,
)
    requires
        options.aggregation is None,
        0 <= i < options.answer(series, latest, is_reverse).len(),
    ensures
        ({
            let x = options.answer(series, latest, is_reverse)[i];
            series.samples().contains(x) || latest == Some(x)
        }),
{
    let bounds = options.bounds(series);
    let rows = options.selected(series, latest);
    let k = if is_reverse {
        rows.len() - 1 - i
    } else {
        i
    };
    let base = crate::series::within(series.samples(), bounds.0, bounds.1);
    let stored = base.filter(options.wants());
    if k < stored.len() {
        lemma_filtered(base, options.wants(), k);
        let j = choose|j: int| 0 <= j < base.len() && base[j] == stored[k];
        lemma_filtered(
            series.samples(),
            |y: Sample| bounds.0 <= y.timestamp <= bounds.1,
            j,
        );
    }
}

/// A count cuts an answer off behind as many samples, and changes nothing else.
pub proof fn law_count_cuts_off(
    series: SeriesView,
    all: RangeOptions,
    some: RangeOptions,
    latest: Option<Sample>,
    is_reverse: bool,
)
    requires
        all.count is None,
        some.count is Some,
        all == (RangeOptions { count: None, ..some }),
    ensures
        ({
            let whole = all.answer(series, latest, is_reverse);
            let part = some.answer(series, latest, is_reverse);
            &&& part.len() == if some.count->0 < whole.len() {
                some.count->0 as nat
            } else {
                whole.len()
            }
            &&& part == whole.take(part.len() as int)
        }),
{
    assert(all.wants() =~= some.wants());
    let whole = all.answer(series, latest, is_reverse);
    assert(whole.take(whole.len() as int) =~= whole);
}

/// Where an aggregation is asked for, the answer holds one aggregate for each bucket that has any of
/// the samples asked for: it stands at the start of the bucket, and is the aggregate of exactly the
/// samples in the bucket. Buckets start at multiples of their length.
pub proof fn law_answer_is_one_per_bucket(
    series: SeriesView,
    options: RangeOptions,
    latest: Option<Sample>,
    is_reverse: bool,
)
    requires
        series.wf(),
        options.wf(),
        options.aggregation is Some,
        options.count is None,
        latest is Some && series.chunks.len() > 0 ==> latest->0.timestamp > series.last_timestamp,
    ensures
        ({
            let rule = options.aggregation->0.rule();
            let kind = options.aggregation->0.aggregation;
            let rows = options.selected(series, latest);
            let answer = options.answer(series, latest, is_reverse);
            &&& forall|i: int|
                0 <= i < answer.len() ==> {
                    let part = crate::compaction_laws::in_bucket(
                        rule,
                        rows,
                        (#[trigger] answer[i]).timestamp,
                    );
                    part.len() > 0 && answer[i].value == crate::aggregate_laws::aggregate(kind, part)
                }
            &&& forall|i: int|
                0 <= i < answer.len() ==> (#[trigger] answer[i]).timestamp == i64::MIN
                    || (answer[i].timestamp as int) % (rule.bucket_duration as int) == 0
            &&& rule.bucket_duration == options.aggregation->0.bucket_duration
            &&& forall|k: int|
                0 <= k < rows.len() ==> exists|i: int|
                    0 <= i < answer.len() && (#[trigger] answer[i]).timestamp == rule.bucket_of(
                        (#[trigger] rows[k]).timestamp,
                    )
        }),
{
    let options_of = options.aggregation->0;
    let rule = options_of.rule();
    let rows = options.selected(series, latest);
    let answer = options.answer(series, latest, is_reverse);
    let reduced = options_of.aggregated(rows);
    lemma_selected_ascending(series, options, latest);
    crate::compaction_laws::lemma_ascending_in_order(rows);
    crate::compaction_laws::law_one_aggregate_per_bucket(rule, options_of.aggregation, rows, 0);
    let n = reduced.len();
    assert forall|i: int| 0 <= i < answer.len() implies {
        let part = crate::compaction_laws::in_bucket(
            rule,
            rows,
            (#[trigger] answer[i]).timestamp,
        );
        part.len() > 0 && answer[i].value == crate::aggregate_laws::aggregate(
            options_of.aggregation,
            part,
        )
    } by {
        if is_reverse {
            assert(answer[i] == reduced[n - 1 - i]);
        } else {
            assert(answer[i] == reduced[i]);
        }
    }
    assert forall|i: int| 0 <= i < answer.len() implies (#[trigger] answer[i]).timestamp == i64::MIN
        || (answer[i].timestamp as int) % (rule.bucket_duration as int) == 0 by {
        let part = crate::compaction_laws::in_bucket(rule, rows, answer[i].timestamp);
        assert(part.len() > 0);
        lemma_filtered(rows, |x: Sample| rule.bucket_of(x.timestamp) == answer[i].timestamp, 0);
        crate::series::law_buckets_are_aligned(rule, part[0].timestamp);
    }
    assert forall|k: int| 0 <= k < rows.len() implies exists|i: int|
        0 <= i < answer.len() && (#[trigger] answer[i]).timestamp == rule.bucket_of(
            (#[trigger] rows[k]).timestamp,
        ) by {
        let i = choose|i: int|
            0 <= i < reduced.len() && (#[trigger] reduced[i]).timestamp == rule.bucket_of(
                rows[k].timestamp,
            );
        if is_reverse {
            assert(answer[n - 1 - i] == reduced[i]);
        } else {
            assert(answer[i] == reduced[i]);
        }
    }
}

/// The samples that an answer is made of are exactly those stored between the bounds that both filters
/// let through, and the latest one where the value filter lets it through.
pub proof fn law_selected_are_asked_for(
    series: SeriesView,
    options: RangeOptions,
    latest: Option<Sample>,
    x: Sample,
)
    ensures
        options.selected(series, latest).contains(x) <==> {
            let value_asked_for = options.value_filter is Some
                ==> options.value_filter->0.admits(x.value);
            ||| series.samples().contains(x) && options.bounds(series).0 <= x.timestamp
                <= options.bounds(series).1 && value_asked_for && (
            options.timestamp_filter is Some
                ==> options.timestamp_filter->0@.contains(x.timestamp))
            ||| latest == Some(x) && value_asked_for
        },
{
    let bounds = options.bounds(series);
    let between = |y: Sample| bounds.0 <= y.timestamp <= bounds.1;
    let base = crate::series::within(series.samples(), bounds.0, bounds.1);
    let stored = base.filter(options.wants());
    let rows = options.selected(series, latest);
    if rows.contains(x) {
        let k = choose|k: int| 0 <= k < rows.len() && rows[k] == x;
        if k < stored.len() {
            lemma_filtered(base, options.wants(), k);
            let j = choose|j: int| 0 <= j < base.len() && base[j] == stored[k];
            lemma_filtered(series.samples(), between, j);
        }
    }
    if series.samples().contains(x) && between(x) && options.wants()(x) {
        lemma_filter_keeps(series.samples(), between, x);
        lemma_filter_keeps(base, options.wants(), x);
        let k = choose|k: int| 0 <= k < stored.len() && stored[k] == x;
        assert(rows[k] == x);
    }
    if latest == Some(x) && options.wants_value(x.value) {
        assert(rows[rows.len() - 1] == x);
    }
}

/// A walk makes no more aggregates than it is given samples.
proof fn lemma_no_more_buckets(
    walk: crate::compaction::Walk,
    rule: CompactionRule,
    samples: Seq<Sample>,
)
    requires
        walk.bucket is None,
        walk.finished.len() == 0,
    ensures
        ({
            let w = walk.over(rule, samples);
            &&& w.finished.len() + if w.bucket is Some {
                1nat
            } else {
                0
            } <= samples.len()
        }),
    decreases samples.len(),
{
    if samples.len() > 0 {
        lemma_no_more_buckets(walk, rule, samples.drop_last());
    }
}

/// Samples at different times, each of which stands in a list, are no more than the list has items.
proof fn lemma_no_more_times(samples: Seq<Sample>, times: Seq<Timestamp>)
    requires
        crate::chunk::ascending(samples),
        forall|i: int|
            0 <= i < samples.len() ==> times.contains((#[trigger] samples[i]).timestamp),
    ensures
        samples.len() <= times.len(),
{
    let f = |x: Sample| x.timestamp;
    let taken = samples.map_values(f);
    assert(taken.no_duplicates()) by {
        assert forall|i: int, j: int| 0 <= i < taken.len() && 0 <= j < taken.len() && i
            != j implies taken[i] != taken[j] by {
            if i < j {
                assert(samples[i].timestamp < samples[j].timestamp);
            } else {
                assert(samples[j].timestamp < samples[i].timestamp);
            }
        }
    }
    taken.unique_seq_to_set();
    times.lemma_cardinality_of_set();
    assert(taken.to_set().subset_of(times.to_set())) by {
        assert forall|t: Timestamp| #[trigger] taken.to_set().contains(
            t,
        ) implies times.to_set().contains(t) by {
            let i = choose|i: int| 0 <= i < taken.len() && taken[i] == t;
            assert(times.contains(samples[i].timestamp));
        }
    }
    vstd::set_lib::lemma_len_subset(taken.to_set(), times.to_set());
}

/// No answer holds more samples than are announced, nor fewer; and no more are announced than are asked
/// for, or than there are times in the filter and a latest sample.
pub proof fn law_announcement_is_kept(
    series: SeriesView,
    options: RangeOptions,
    latest: Option<Sample>,
    is_reverse: bool,
)
    requires
        series.wf(),
        options.timestamp_filter is Some ==> options.timestamp_filter->0@.len() < usize::MAX,
    ensures
        ({
            let answer = options.answer(series, latest, is_reverse);
            let (least, most) = options.announced(latest);
            &&& least <= answer.len()
            &&& most is Some ==> answer.len() <= most->0
            &&& options.count is Some ==> most is Some && most->0 <= options.count->0
            &&& options.timestamp_filter is Some ==> most is Some && most->0
                <= options.timestamp_filter->0@.len() + 1
        }),
{
    let bounds = options.bounds(series);
    let all = series.samples();
    let between = |y: Sample| bounds.0 <= y.timestamp <= bounds.1;
    let base = crate::series::within(all, bounds.0, bounds.1);
    let stored = base.filter(options.wants());
    let rows = options.selected(series, latest);
    if let Some(aggregation) = options.aggregation {
        lemma_no_more_buckets(
            crate::compaction::walk_with(crate::aggregators::fresh(aggregation.aggregation)),
            aggregation.rule(),
            rows,
        );
    }
    if let Some(times) = options.timestamp_filter {
        lemma_filter_ascending(all, between);
        lemma_filter_ascending(base, options.wants());
        assert forall|i: int| 0 <= i < stored.len() implies times@.contains(
            (#[trigger] stored[i]).timestamp,
        ) by {
            lemma_filtered(base, options.wants(), i);
        }
        lemma_no_more_times(stored, times@);
    }
}

} // verus!
