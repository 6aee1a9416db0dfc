use valkey_timeseries::aggregators::{AggregationType, Aggregator};
use valkey_timeseries::bulk_add::{bulk_insert_samples, run_compactions};
use valkey_timeseries::common::Sample;
use valkey_timeseries::compaction::{
    aggregate_compaction_range, aggregate_samples, collect_input_ranges, get_compacted_samples,
    range_affects_open_bucket,
};
use valkey_timeseries::context::{Context, Effect};
use valkey_timeseries::series::{CompactionRule, TimeSeries};

fn at(ts: i64, v: f64) -> Sample {
    Sample { timestamp: ts, value: v.to_bits() }
}

fn rule(kind: AggregationType, dest_id: u64) -> CompactionRule {
    CompactionRule {
        dest_id,
        aggregator: Aggregator::new(kind),
        bucket_duration: 100,
        align_timestamp: 0,
        bucket_start: None,
    }
}

fn filled(samples: &[Sample]) -> TimeSeries {
    let mut series = TimeSeries::default();
    bulk_insert_samples(&mut Context::dummy(), &mut series, samples, None);
    series
}

#[test]
fn buckets_are_aligned() {
    let mut r = rule(AggregationType::Sum, 1);
    assert_eq!(r.calc_bucket_start(250), 200);
    assert_eq!(r.calc_bucket_start(200), 200);
    assert_eq!(r.calc_bucket_start(-1), -100);
    assert_eq!(r.get_bucket_range(250), (200, 299));
    r.align_timestamp = 30;
    assert_eq!(r.calc_bucket_start(250), 230);
    assert_eq!(r.calc_bucket_start(229), 130);
    assert_eq!(r.get_bucket_range(0), (-70, 29));
    assert_eq!(r.get_bucket_range(i64::MAX).1, i64::MAX);
    assert_eq!(r.get_bucket_range(i64::MIN).0, i64::MIN);
}

#[test]
fn near_buckets_are_gathered_into_one_range() {
    let r = rule(AggregationType::Sum, 1);
    let samples = vec![at(10, 1.0), at(150, 1.0), at(399, 1.0), at(800, 1.0)];
    // 0..=99, 100..=199, then 300 is 101 behind 199
    let shown = format!("{:?}", collect_input_ranges(&r, &samples));
    assert!(shown.contains("0..=199"), "{shown}");
    assert!(shown.contains("300..=399"), "{shown}");
    assert!(shown.contains("800..=899"), "{shown}");
    assert!(!format!("{:?}", collect_input_ranges(&r, &[])).contains("..="));
}

#[test]
fn every_bucket_is_aggregated() {
    let source = filled(&[at(0, 1.0), at(50, 2.0), at(100, 3.0), at(199, 4.0), at(250, 5.0)]);
    let cases = [
        (AggregationType::Sum, vec![at(0, 3.0), at(100, 7.0), at(200, 5.0)]),
        (AggregationType::Avg, vec![at(0, 1.5), at(100, 3.5), at(200, 5.0)]),
        (AggregationType::Min, vec![at(0, 1.0), at(100, 3.0), at(200, 5.0)]),
        (AggregationType::Max, vec![at(0, 2.0), at(100, 4.0), at(200, 5.0)]),
        (AggregationType::Count, vec![at(0, 2.0), at(100, 2.0), at(200, 1.0)]),
        (AggregationType::First, vec![at(0, 1.0), at(100, 3.0), at(200, 5.0)]),
        (AggregationType::Last, vec![at(0, 2.0), at(100, 4.0), at(200, 5.0)]),
    ];
    for (kind, expected) in cases {
        let r = rule(kind, 1);
        let (out, open) = aggregate_compaction_range(&source, &r, (0, 299));
        assert_eq!(out, expected);
        assert_eq!(open, None);
    }
    let (out, open) =
        aggregate_compaction_range(&source, &rule(AggregationType::Sum, 1), (300, 399));
    assert!(out.is_empty());
    assert_eq!(open, None);
}

#[test]
fn a_compaction_takes_in_the_whole_bucket() {
    let source = filled(&[at(0, 1.0), at(50, 2.0), at(100, 3.0), at(450, 4.0), at(500, 5.0)]);
    let mut r = rule(AggregationType::Sum, 1);
    let before = r;
    let out = get_compacted_samples(&source, &mut r, &[at(50, 2.0), at(450, 4.0)]);
    assert_eq!(out, vec![at(0, 3.0), at(400, 4.0)]);
    assert_eq!(r, before);
}

#[test]
fn an_open_bucket_goes_on() {
    let source = filled(&[at(110, 3.0), at(120, 4.0)]);
    let mut r = rule(AggregationType::Sum, 1);
    r.bucket_start = Some(100);
    r.aggregator.update(105, 10.0f64.to_bits());
    assert!(range_affects_open_bucket(&r, (100, 199)));
    assert!(range_affects_open_bucket(&r, (199, 500)));
    assert!(!range_affects_open_bucket(&r, (200, 299)));
    assert!(!range_affects_open_bucket(&r, (99, 150)));
    assert!(!range_affects_open_bucket(&rule(AggregationType::Sum, 1), (0, 9)));

    let (out, open) = aggregate_compaction_range(&source, &r, (100, 199));
    assert!(out.is_empty());
    assert_eq!(open.unwrap().finalize(), 17.0f64.to_bits());
    assert_eq!(open.unwrap().count, 3);

    let out = get_compacted_samples(&source, &mut r, &[at(110, 3.0)]);
    assert!(out.is_empty());
    assert_eq!(r.aggregator.finalize(), 17.0f64.to_bits());
    assert_eq!(r.bucket_start, Some(100));
}

#[test]
fn a_range_that_goes_beyond_the_open_bucket_closes_its_last_bucket() {
    let source = filled(&[at(110, 3.0), at(210, 4.0)]);
    let mut r = rule(AggregationType::Sum, 1);
    r.bucket_start = Some(100);
    // the bucket behind the open one holds its own samples alone
    let (out, open) = aggregate_compaction_range(&source, &r, (100, 299));
    assert_eq!(out, vec![at(200, 4.0)]);
    assert_eq!(open, None);
}

#[test]
fn compactions_are_written_into_their_destinations() {
    let mut ctx = Context::dummy();
    let mut dest = TimeSeries::default();
    dest.id = 20;
    dest.src_series = Some(10);
    ctx.series.insert(20, dest);
    ctx.keys.insert(10, "raw".to_string());
    ctx.keys.insert(20, "sums".to_string());

    let mut source = TimeSeries::default();
    source.id = 10;
    source.rules.push(rule(AggregationType::Sum, 20));
    source.rules.push(rule(AggregationType::Max, 99));

    let results = bulk_insert_samples(
        &mut ctx,
        &mut source,
        &[at(0, 1.0), at(50, 2.0), at(100, 4.0)],
        None,
    );
    assert_eq!(results.len(), 3);
    assert_eq!(ctx.series[&20].iter(), vec![at(0, 3.0), at(100, 4.0)]);
    assert_eq!(ctx.series.len(), 1);
    assert_eq!(ctx.effects.len(), 2);
    let told: Vec<(String, String)> = ctx
        .effects
        .iter()
        .map(|e| match e {
            Effect::Notify { event, key } => (event.name().to_string(), key.clone()),
            Effect::Warn(w) => panic!("{}", w.message()),
        })
        .collect();
    assert_eq!(told[0], ("ts.add".to_string(), "raw".to_string()));
    assert_eq!(told[1], ("ts.add:dest".to_string(), "sums".to_string()));

    // the bucket is rebuilt, and the last value kept
    bulk_insert_samples(&mut ctx, &mut source, &[at(60, 8.0)], None);
    assert_eq!(ctx.series[&20].iter(), vec![at(0, 11.0), at(100, 4.0)]);
}

#[test]
fn compactions_go_on_through_their_destinations() {
    let mut ctx = Context::dummy();
    let mut middle = TimeSeries::default();
    middle.id = 2;
    middle.src_series = Some(1);
    let mut longer = rule(AggregationType::Max, 3);
    longer.bucket_duration = 1000;
    middle.rules.push(longer);
    let mut last = TimeSeries::default();
    last.id = 3;
    last.src_series = Some(2);
    ctx.series.insert(2, middle);
    ctx.series.insert(3, last);

    let mut source = TimeSeries::default();
    source.id = 1;
    source.rules.push(rule(AggregationType::Sum, 2));
    bulk_insert_samples(
        &mut ctx,
        &mut source,
        &[at(0, 1.0), at(10, 2.0), at(200, 7.0), at(1500, 4.0)],
        None,
    );
    assert_eq!(ctx.series[&2].iter(), vec![at(0, 3.0), at(200, 7.0), at(1500, 4.0)]);
    assert_eq!(ctx.series[&3].iter(), vec![at(0, 7.0), at(1000, 4.0)]);
}

#[test]
fn without_rules_or_samples_nothing_is_compacted() {
    let mut ctx = Context::dummy();
    let mut series = filled(&[at(1, 1.0)]);
    assert!(run_compactions(&mut ctx, &mut series, &[at(1, 1.0)]).is_ok());
    series.rules.push(rule(AggregationType::Sum, 2));
    let before = series.rules[0];
    assert!(run_compactions(&mut ctx, &mut series, &[]).is_ok());
    assert_eq!(series.rules[0], before);
    assert!(ctx.effects.is_empty());
}

#[test]
fn aggregates_of_no_sample() {
    for (kind, expected) in [
        (AggregationType::Sum, 0.0f64.to_bits()),
        (AggregationType::Count, 0.0f64.to_bits()),
    ] {
        assert_eq!(Aggregator::new(kind).finalize(), expected);
    }
    for kind in [
        AggregationType::Avg,
        AggregationType::Min,
        AggregationType::Max,
        AggregationType::First,
        AggregationType::Last,
    ] {
        assert!(f64::from_bits(Aggregator::new(kind).finalize()).is_nan());
    }
    let (out, open) = aggregate_samples(
        &rule(AggregationType::Sum, 1),
        Aggregator::new(AggregationType::Sum),
        &vec![],
        0,
    );
    assert!(out.is_empty() && open.is_none());
}

#[test]
fn a_reset_forgets_everything() {
    let mut a = Aggregator::new(AggregationType::Max);
    a.update(1, 3.0f64.to_bits());
    assert_eq!(a.finalize(), 3.0f64.to_bits());
    a.reset();
    a.update(1, (-3.0f64).to_bits());
    assert_eq!(a.finalize(), (-3.0f64).to_bits());
}
