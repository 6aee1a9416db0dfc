use valkey_timeseries::aggregators::{AggregationType, Aggregator};
use valkey_timeseries::bulk_add::bulk_insert_samples;
use valkey_timeseries::common::{Sample, Timestamp};
use valkey_timeseries::context::Context;
use valkey_timeseries::range_iterator::{
    latest_in_range, AggregationOptions, CompactionLatestSampleIterator, RangeError, RangeOptions,
    TimeSeriesRangeIterator, TimestampRange, ValueFilter,
};
use valkey_timeseries::series::{CompactionRule, TimeSeries};

fn sample(ts: i64, v: f64) -> Sample {
    Sample { timestamp: ts, value: v.to_bits() }
}

fn filled(samples: &[Sample]) -> TimeSeries {
    let mut series = TimeSeries::default();
    bulk_insert_samples(&mut Context::dummy(), &mut series, samples, None);
    series
}

fn create_test_series() -> TimeSeries {
    let samples: Vec<Sample> = (0..10).map(|i| sample(i * 1000, i as f64)).collect();
    filled(&samples)
}

fn date_range(start: Timestamp, end: Timestamp) -> TimestampRange {
    TimestampRange::from_timestamps(start, end).unwrap()
}

fn options(start: Timestamp, end: Timestamp) -> RangeOptions {
    RangeOptions {
        date_range: date_range(start, end),
        count: None,
        aggregation: None,
        timestamp_filter: None,
        value_filter: None,
        latest: false,
    }
}

fn filter(min: f64, max: f64) -> ValueFilter {
    ValueFilter { min: min.to_bits(), max: max.to_bits() }
}

#[test]
fn test_basic_iteration() {
    let series = create_test_series();
    let options = options(0, 10000);

    let iter = TimeSeriesRangeIterator::new(None, &series, &options, false);
    let samples: Vec<Sample> = iter.collect();

    assert_eq!(samples.len(), 10);
    assert_eq!(samples[0].timestamp, 0);
    assert_eq!(samples[9].timestamp, 9000);
}

#[test]
fn test_reverse_iteration() {
    let series = create_test_series();
    let options = options(0, 10000);

    let iter = TimeSeriesRangeIterator::new(None, &series, &options, true);
    let samples: Vec<Sample> = iter.collect();

    assert_eq!(samples.len(), 10);
    assert_eq!(samples[0].timestamp, 9000);
    assert_eq!(samples[9].timestamp, 0);
}

#[test]
fn test_iteration_with_count_limit() {
    let series = create_test_series();
    let mut options = options(0, 10000);
    options.count = Some(5);

    let iter = TimeSeriesRangeIterator::new(None, &series, &options, false);
    let samples: Vec<Sample> = iter.collect();

    assert!(samples.len() <= 5);
    assert_eq!(samples.len(), 5);
}

#[test]
fn test_iteration_with_timestamp_range() {
    let series = create_test_series();
    let options = options(2000, 6000);

    let iter = TimeSeriesRangeIterator::new(None, &series, &options, false);
    let samples: Vec<Sample> = iter.collect();

    assert_eq!(samples.len(), 5);
    for sample in &samples {
        assert!(sample.timestamp >= 2000 && sample.timestamp <= 6000);
    }
}

#[test]
fn test_iteration_with_value_filter() {
    let series = create_test_series();
    let mut options = options(0, 10000);
    options.value_filter = Some(filter(3.0, 7.0));

    let iter = TimeSeriesRangeIterator::new(None, &series, &options, false);
    let samples: Vec<Sample> = iter.collect();

    assert_eq!(samples.len(), 5);
    for sample in &samples {
        let value = f64::from_bits(sample.value);
        assert!(value >= 3.0 && value <= 7.0);
    }
}

#[test]
fn test_iteration_with_timestamp_filter() {
    let series = filled(&[
        sample(1000, 10.1),
        sample(2000, 20.2),
        sample(3000, 30.3),
        sample(4000, 40.4),
        sample(5000, 50.5),
    ]);

    let mut options_three = options(0, 10000);
    options_three.timestamp_filter = Some(vec![1000, 3000, 5000]);

    let iter = TimeSeriesRangeIterator::new(None, &series, &options_three, false);
    let samples: Vec<Sample> = iter.collect();

    assert_eq!(samples.len(), 3);
    assert_eq!(samples[0].timestamp, 1000);
    assert_eq!(samples[1].timestamp, 3000);
    assert_eq!(samples[2].timestamp, 5000);

    let mut options_single = options(0, 10000);
    options_single.timestamp_filter = Some(vec![2000]);

    let iter_single = TimeSeriesRangeIterator::new(None, &series, &options_single, false);
    let samples_single: Vec<Sample> = iter_single.collect();
    assert_eq!(samples_single.len(), 1);
    assert_eq!(samples_single[0].timestamp, 2000);

    let rev_iter = TimeSeriesRangeIterator::new(None, &series, &options_three, true);
    let rev_samples: Vec<Sample> = rev_iter.collect();

    assert_eq!(rev_samples.len(), 3);
    assert_eq!(rev_samples[0].timestamp, 5000);
    assert_eq!(rev_samples[1].timestamp, 3000);
    assert_eq!(rev_samples[2].timestamp, 1000);
}

#[test]
fn test_iteration_with_aggregation() {
    let series = create_test_series();
    let mut options = options(0, 10000);
    options.aggregation = Some(AggregationOptions {
        aggregation: AggregationType::Avg,
        bucket_duration: 2000,
    });

    let iter = TimeSeriesRangeIterator::new(None, &series, &options, false);
    let samples: Vec<Sample> = iter.collect();

    assert!(samples.len() < 10);
    assert_eq!(
        samples,
        vec![
            sample(0, 0.5),
            sample(2000, 2.5),
            sample(4000, 4.5),
            sample(6000, 6.5),
            sample(8000, 8.5),
        ]
    );
}

#[test]
fn test_empty_series() {
    let series = TimeSeries::default();
    let options = options(0, 10000);

    let iter = TimeSeriesRangeIterator::new(None, &series, &options, false);
    let samples: Vec<Sample> = iter.collect();

    assert_eq!(samples.len(), 0);
}

#[test]
fn test_iteration_with_retention() {
    let mut series = create_test_series();

    let options = options(0, 10000);

    let iter = TimeSeriesRangeIterator::new(None, &series, &options, false);
    let samples: Vec<Sample> = iter.collect();

    if !samples.is_empty() {
        assert!(samples[0].timestamp >= series.get_min_timestamp());
    }

    series.retention = 2500;
    assert_eq!(series.get_min_timestamp(), 6500);
    let samples = TimeSeriesRangeIterator::new(None, &series, &options, false).collect();
    assert_eq!(samples, vec![sample(7000, 7.0), sample(8000, 8.0), sample(9000, 9.0)]);
}

#[test]
fn test_size_hint() {
    let series = create_test_series();
    let mut options = options(0, 10000);
    options.count = Some(5);

    let iter = TimeSeriesRangeIterator::new(None, &series, &options, false);
    let hint = iter.len_hint();

    assert_eq!(hint.0, 0);
    assert_eq!(hint.1, Some(5));
}

#[test]
fn test_size_hint_without_count() {
    let series = create_test_series();
    let options = options(0, 10000);

    let iter = TimeSeriesRangeIterator::new(None, &series, &options, false);
    let hint = iter.len_hint();

    assert_eq!(hint.0, 0);
    assert_eq!(hint.1, None);
}

#[test]
fn test_multiple_filters_combined() {
    let series = create_test_series();
    let mut options = options(2000, 8000);
    options.count = Some(3);
    options.value_filter = Some(filter(2.0, 8.0));

    let iter = TimeSeriesRangeIterator::new(None, &series, &options, false);
    let samples: Vec<Sample> = iter.collect();

    assert!(samples.len() <= 3);
    for sample in &samples {
        let value = f64::from_bits(sample.value);
        assert!(sample.timestamp >= 2000 && sample.timestamp <= 8000);
        assert!(value >= 2.0 && value <= 8.0);
    }
}

#[test]
fn test_iterator_is_lazy() {
    let series = create_test_series();
    let options = options(0, 10000);

    let mut iter = TimeSeriesRangeIterator::new(None, &series, &options, false);

    let first = iter.next();
    assert!(first.is_some());
    assert_eq!(first.unwrap().timestamp, 0);

    let second = iter.next();
    assert!(second.is_some());
    assert_eq!(second.unwrap().timestamp, 1000);
}

#[test]
fn test_boundary_timestamps() {
    let series = create_test_series();

    let options = options(3000, 3000);

    let iter = TimeSeriesRangeIterator::new(None, &series, &options, false);
    let samples: Vec<Sample> = iter.collect();

    assert!(!samples.is_empty());
    assert!(samples.iter().any(|s| s.timestamp == 3000));
}

#[test]
fn a_range_does_not_start_behind_its_end() {
    assert_eq!(TimestampRange::from_timestamps(2, 1), Err(RangeError::StartBehindEnd));
    assert_eq!(date_range(1, 2).get_timestamps(), (1, 2));
}

#[test]
fn a_hint_counts_the_times_of_the_filter() {
    let series = create_test_series();
    let mut options = options(0, 10000);
    options.timestamp_filter = Some(vec![1000, 2000]);
    let iter = TimeSeriesRangeIterator::new(None, &series, &options, false);
    assert_eq!(iter.len_hint(), (0, Some(2)));
    options.count = Some(1);
    let mut iter = TimeSeriesRangeIterator::new(None, &series, &options, true);
    assert_eq!(iter.len_hint(), (0, Some(1)));
    assert_eq!(iter.next(), Some(sample(2000, 2.0)));
    assert_eq!(iter.next(), None);
    assert_eq!(iter.next(), None);
}

#[test]
fn a_nan_passes_no_value_filter() {
    assert!(filter(1.0, 2.0).is_match(1.0f64.to_bits()));
    assert!(filter(1.0, 2.0).is_match(2.0f64.to_bits()));
    assert!(!filter(1.0, 2.0).is_match(2.5f64.to_bits()));
    assert!(!filter(1.0, 2.0).is_match(f64::NAN.to_bits()));
    assert!(filter(-0.0, 0.0).is_match(0.0f64.to_bits()));
}

fn compaction_pair() -> (Context, TimeSeries) {
    let mut aggregator = Aggregator::new(AggregationType::Sum);
    aggregator.update(20_500, 4.0f64.to_bits());
    aggregator.update(20_700, 5.0f64.to_bits());
    let mut source = TimeSeries::default();
    source.id = 1;
    source.rules.push(CompactionRule {
        dest_id: 3,
        aggregator: Aggregator::new(AggregationType::Max),
        bucket_duration: 1000,
        align_timestamp: 0,
        bucket_start: Some(7),
    });
    source.rules.push(CompactionRule {
        dest_id: 2,
        aggregator,
        bucket_duration: 1000,
        align_timestamp: 0,
        bucket_start: Some(20_000),
    });
    let mut dest = filled(&[sample(18_000, 1.0), sample(19_000, 2.0)]);
    dest.id = 2;
    dest.src_series = Some(1);
    let mut ctx = Context::dummy();
    ctx.series.insert(1, source);
    (ctx, dest)
}

#[test]
fn the_latest_bucket_is_given_where_it_is_asked_for() {
    let (ctx, dest) = compaction_pair();
    let mut options = options(0, 30_000);
    let plain = TimeSeriesRangeIterator::new(Some(&ctx), &dest, &options, false).collect();
    assert_eq!(plain, vec![sample(18_000, 1.0), sample(19_000, 2.0)]);

    options.latest = true;
    let all = TimeSeriesRangeIterator::new(Some(&ctx), &dest, &options, false).collect();
    assert_eq!(all, vec![sample(18_000, 1.0), sample(19_000, 2.0), sample(20_000, 9.0)]);
    let reverse = TimeSeriesRangeIterator::new(Some(&ctx), &dest, &options, true).collect();
    assert_eq!(reverse[0], sample(20_000, 9.0));

    options.timestamp_filter = Some(vec![20_000]);
    let iter = TimeSeriesRangeIterator::new(Some(&ctx), &dest, &options, false);
    assert_eq!(iter.len_hint(), (0, Some(2)));
    assert_eq!(iter.collect(), vec![sample(20_000, 9.0)]);
}

#[test]
fn the_latest_bucket_has_to_lie_in_the_range() {
    let (ctx, dest) = compaction_pair();
    let found = ctx.get_latest_compaction_sample(&dest);
    assert_eq!(found, Some(sample(20_000, 9.0)));
    let mut query = options(0, 30_000);
    assert_eq!(latest_in_range(found, &dest, &query), None);
    query.latest = true;
    assert_eq!(latest_in_range(found, &dest, &query), found);
    assert_eq!(latest_in_range(None, &dest, &query), None);
    query.date_range = date_range(0, 19_500);
    assert_eq!(latest_in_range(found, &dest, &query), None);
    query.date_range = date_range(0, 19_000);
    assert_eq!(latest_in_range(found, &dest, &query), None);
    query.date_range = date_range(20_001, 30_000);
    assert_eq!(latest_in_range(found, &dest, &query), None);
    query.date_range = date_range(0, 30_000);
    query.timestamp_filter = Some(vec![19_000]);
    assert_eq!(latest_in_range(found, &dest, &query), None);

    let other = TimeSeries::default();
    assert_eq!(ctx.get_latest_compaction_sample(&other), None);
}

#[test]
fn the_latest_sample_is_given_once() {
    let (ctx, dest) = compaction_pair();
    let mut iter = CompactionLatestSampleIterator::new(&ctx, &dest);
    assert_eq!(iter.next(), Some(sample(20_000, 9.0)));
    assert_eq!(iter.next(), None);
    assert_eq!(iter.next(), None);
}

#[test]
fn an_answer_is_in_order_whatever_the_order_of_writes() {
    let mut series = TimeSeries::default();
    let mut ctx = Context::dummy();
    for start in [500, 0, 250, 100] {
        let samples: Vec<Sample> = (0..20).map(|i| sample(start + i * 17, 1.0)).collect();
        bulk_insert_samples(&mut ctx, &mut series, &samples, None);
    }
    let rows = TimeSeriesRangeIterator::new(None, &series, &options(0, 1000), false).collect();
    assert!(rows.windows(2).all(|w| w[0].timestamp < w[1].timestamp));
    let mut back = TimeSeriesRangeIterator::new(None, &series, &options(0, 1000), true).collect();
    back.reverse();
    assert_eq!(rows, back);
    let mut asked = options(0, 1000);
    asked.aggregation =
        Some(AggregationOptions { aggregation: AggregationType::Count, bucket_duration: 100 });
    let buckets = TimeSeriesRangeIterator::new(None, &series, &asked, false).collect();
    assert!(buckets.windows(2).all(|w| w[0].timestamp < w[1].timestamp));
    let total: f64 = buckets.iter().map(|b| f64::from_bits(b.value)).sum();
    assert_eq!(total as usize, rows.len());
}
