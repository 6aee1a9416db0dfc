use valkey_timeseries::bulk_add::{
    bulk_insert_samples, disjoint_get_many_mut_with_pos, exec_merge, results_or_errors,
};
use valkey_timeseries::chunk::{ChunkEncoding, ChunkError, TimeSeriesChunk};
use valkey_timeseries::common::{
    collect_stored, count_ok, AddError, DuplicatePolicy, Sample, SampleAddResult,
};
use valkey_timeseries::context::{AddEvent, Context, Effect, Warning};
use valkey_timeseries::grouping::{
    calculate_capacity, get_min_allowed_timestamp, group_samples_by_chunk, ChunkHolder,
    ChunkSampleGroup,
};
use valkey_timeseries::series::TimeSeries;

fn s(ts: i64, v: f64) -> Sample {
    Sample { timestamp: ts, value: v.to_bits() }
}

fn generate_random_samples(count: usize) -> Vec<Sample> {
    let mut state: u64 = 0x2545_f491_4f6c_dd1d;
    (0..count)
        .map(|i| {
            state = state.wrapping_mul(6364136223846793005).wrapping_add(1442695040888963407);
            let value = ((state >> 33) % 1_000_000) as f64 / 10_000.0;
            s(1000 + i as i64 * 1000, value)
        })
        .collect()
}

fn collect_grouped_timestamps(groups: &[ChunkSampleGroup<'_>]) -> Vec<i64> {
    groups.iter().flat_map(|g| g.samples.iter().map(|x| x.timestamp)).collect()
}

#[test]
fn group_empty_samples_returns_empty() {
    let series = TimeSeries::default();
    let groups = group_samples_by_chunk(&series, &[]);
    assert!(groups.is_empty());
}

#[test]
fn group_skips_samples_older_than_retention_min_timestamp() {
    let mut series = TimeSeries::default();
    bulk_insert_samples(&mut Context::dummy(), &mut series, &[s(1_000, 1.0)], None);

    let min_allowed = get_min_allowed_timestamp(&series);

    let samples = vec![s(min_allowed - 1, 1.0), s(min_allowed, 2.0)];
    let groups = group_samples_by_chunk(&series, &samples);

    let grouped: Vec<i64> =
        groups.iter().flat_map(|g| g.samples.iter().map(|x| x.timestamp)).collect();
    assert!(grouped.iter().all(|&ts| ts >= min_allowed));
    assert!(grouped.contains(&min_allowed));
    assert!(!grouped.contains(&(min_allowed - 1)));
}

#[test]
fn group_splits_samples_across_chunks_when_ranges_differ() {
    let mut ctx = Context::dummy();
    let mut series = TimeSeries::default();

    let seed: Vec<Sample> = (0..10_000).map(|i| s(i, i as f64)).collect();
    bulk_insert_samples(&mut ctx, &mut series, &seed, None);

    assert!(series.chunks.len() >= 2);

    series.retention = 0;

    let mut chosen: Option<(i64, i64)> = None;

    for pair_start in (0..series.chunks.len() - 1).rev() {
        let c0 = &series.chunks[pair_start];
        let c1 = &series.chunks[pair_start + 1];

        let c0_first = c0.first_timestamp();
        let c0_last = c0.last_timestamp();
        let c1_first = c1.first_timestamp();
        let c1_last = c1.last_timestamp();

        let c0_mid = c0_first.saturating_add((c0_last.saturating_sub(c0_first)) / 2);
        let c1_mid = c1_first.saturating_add((c1_last.saturating_sub(c1_first)) / 2);

        let c0_candidates = [c0_first, c0_mid, c0_last];
        let c1_candidates = [c1_first, c1_mid, c1_last];

        let ts0_opt = c0_candidates
            .into_iter()
            .find(|&ts| c0.is_timestamp_in_range(ts) && !c1.is_timestamp_in_range(ts));

        let ts1_opt = c1_candidates
            .into_iter()
            .find(|&ts| c1.is_timestamp_in_range(ts) && !c0.is_timestamp_in_range(ts));

        if let (Some(ts0), Some(ts1)) = (ts0_opt, ts1_opt) {
            let (a, b) = if ts0 <= ts1 { (ts0, ts1) } else { (ts1, ts0) };
            chosen = Some((a, b));
            break;
        }
    }

    let (ts0, ts1) = chosen.expect("no adjacent chunks with exclusive timestamps");

    let samples = vec![s(ts0, 123.0), s(ts1, 456.0)];
    let groups = group_samples_by_chunk(&series, &samples);

    assert_eq!(groups.len(), 2);

    let total_grouped: usize = groups.iter().map(|g| g.samples.len()).sum();
    assert_eq!(total_grouped, samples.len());
    assert_eq!(groups[0].samples, &samples[0..1]);
    assert_eq!(groups[1].samples, &samples[1..2]);
}

#[test]
fn group_pins_samples_newer_than_last_chunk_to_last_chunk() {
    let mut ctx = Context::dummy();
    let mut series = TimeSeries::default();

    let seed: Vec<Sample> = (0..1_000).map(|i| s(i * 10, i as f64)).collect();
    bulk_insert_samples(&mut ctx, &mut series, &seed, None);

    let last_max = series.chunks.last().unwrap().last_timestamp();
    let samples = vec![s(last_max + 1, 1.0), s(last_max + 2, 2.0)];
    let groups = group_samples_by_chunk(&series, &samples);

    assert_eq!(groups.len(), 1);

    assert_eq!(groups[0].samples.len(), 2);
    assert_eq!(groups[0].samples[0].timestamp, last_max + 1);
    assert_eq!(groups[0].samples[1].timestamp, last_max + 2);
}

#[test]
fn group_requires_sorted_input_preserves_contiguity_and_order() {
    let mut ctx = Context::dummy();
    let mut series = TimeSeries::default();

    let seed: Vec<Sample> = (0..2_000).map(|i| s(i * 10, i as f64)).collect();
    bulk_insert_samples(&mut ctx, &mut series, &seed, None);

    let samples = vec![s(5, 1.0), s(15, 2.0), s(25, 3.0), s(35, 4.0)];
    let groups = group_samples_by_chunk(&series, &samples);

    let grouped = collect_grouped_timestamps(&groups);
    assert_eq!(grouped, vec![5, 15, 25, 35]);

    let mut cursor = 0usize;
    for g in groups.iter() {
        assert!(!g.samples.is_empty());
        let len = g.samples.len();
        assert_eq!(&samples[cursor..cursor + len], g.samples);
        cursor += len;
    }
    assert_eq!(cursor, samples.len());
}

#[test]
fn group_filters_all_samples_when_all_are_older_than_retention() {
    let mut ctx = Context::dummy();
    let mut series = TimeSeries::default();

    bulk_insert_samples(&mut ctx, &mut series, &[s(1_000, 1.0)], None);
    let min_allowed = get_min_allowed_timestamp(&series);

    let samples = vec![s(min_allowed - 100, 1.0), s(min_allowed - 1, 2.0)];
    let groups = group_samples_by_chunk(&series, &samples);

    assert!(groups.is_empty());
}

#[test]
fn bulk_insert_stores_samples_correctly_in_series() {
    let mut ctx = Context::dummy();
    let mut series = TimeSeries::default();

    let samples = generate_random_samples(120);

    let results = bulk_insert_samples(&mut ctx, &mut series, &samples, None);

    assert_eq!(results.len(), samples.len());
    assert!(results.iter().all(|r| matches!(r, SampleAddResult::Stored(_))));

    assert_eq!(series.total_samples, samples.len());
    assert_eq!(series.first_timestamp, samples[0].timestamp);
    assert_eq!(series.last_timestamp(), samples[samples.len() - 1].timestamp);

    let stored: Vec<Sample> = series.iter();
    assert_eq!(stored.len(), samples.len());
    assert_eq!(stored, samples);
}

#[test]
fn bulk_insert_large_batch_creates_multiple_chunks() {
    let mut ctx = Context::dummy();
    let mut series = TimeSeries::default();

    let samples: Vec<_> = generate_random_samples(10_000);
    let results = bulk_insert_samples(&mut ctx, &mut series, &samples, None);

    assert_eq!(results.len(), 10_000);
    let errors: Vec<&SampleAddResult> = results.iter().filter(|r| !r.is_ok()).collect();

    assert!(errors.is_empty(), "Some samples failed to insert: {:?}", errors);
    assert!(results.iter().all(|r| matches!(r, SampleAddResult::Stored(_))));

    assert_eq!(series.total_samples, samples.len());
    assert!(series.chunks.len() > 1);

    results.iter().zip(samples.iter()).for_each(|(r, s)| {
        if let SampleAddResult::Stored(sample) = r {
            assert_eq!(sample.timestamp, s.timestamp);
            assert_eq!(sample.value, s.value);
        } else {
            panic!("Expected all samples to be inserted successfully");
        }
    });

    for (sample, sample2) in series.iter().iter().zip(samples.iter()) {
        assert_eq!(sample.timestamp, sample2.timestamp);
        assert_eq!(sample.value, sample2.value);
    }
}

#[test]
fn bulk_insert_inserts_into_existing_chunks_and_creates_new_chunks_in_one_call() {
    let mut ctx = Context::dummy();
    let mut series = TimeSeries::default();

    let seed: Vec<Sample> = (0..5_000).map(|i| s(i * 10, i as f64)).collect();
    bulk_insert_samples(&mut ctx, &mut series, &seed, None);

    series.retention = 0;

    let chunks_before = series.chunks.len();
    assert!(chunks_before >= 1);

    let c0 = &series.chunks[0];
    let existing_ts = c0
        .first_timestamp()
        .saturating_add((c0.last_timestamp().saturating_sub(c0.first_timestamp())) / 2);
    assert!(c0.is_timestamp_in_range(existing_ts));

    let last_max = series.chunks.last().unwrap().last_timestamp();
    let new_ts_1 = last_max + 10;
    let new_ts_2 = last_max + 20;

    let samples = vec![s(existing_ts, 123.0), s(new_ts_1, 456.0), s(new_ts_2, 789.0)];

    let results = bulk_insert_samples(&mut ctx, &mut series, &samples, None);

    assert_eq!(results.len(), samples.len());
    assert!(results.iter().all(|r| matches!(r, SampleAddResult::Stored(_))));

    assert!(series.chunks.len() > chunks_before);

    let stored_ts: Vec<i64> = series.iter().iter().map(|smpl| smpl.timestamp).collect();
    assert!(stored_ts.contains(&existing_ts));
    assert!(stored_ts.contains(&new_ts_1));
    assert!(stored_ts.contains(&new_ts_2));

    assert_eq!(series.last_timestamp(), new_ts_2);
}

#[test]
fn bulk_insert_updates_first_last_timestamps() {
    let mut ctx = Context::dummy();
    let mut series = TimeSeries::default();

    let samples = vec![s(1000, 1.0), s(2000, 2.0), s(3000, 3.0)];
    bulk_insert_samples(&mut ctx, &mut series, &samples, None);

    assert_eq!(series.first_timestamp, 1000);
    assert_eq!(series.last_timestamp(), 3000);
}

#[test]
fn retention_drops_leading_samples() {
    let mut ctx = Context::dummy();
    let mut series = TimeSeries::default();
    series.retention = 500;
    bulk_insert_samples(&mut ctx, &mut series, &[s(1000, 1.0)], None);
    assert_eq!(get_min_allowed_timestamp(&series), 500);

    let results =
        bulk_insert_samples(&mut ctx, &mut series, &[s(499, 1.0), s(500, 2.0), s(1001, 3.0)], None);
    assert_eq!(results.len(), 2);
    assert_eq!(series.iter(), vec![s(500, 2.0), s(1000, 1.0), s(1001, 3.0)]);
}

#[test]
fn all_dropped_changes_nothing() {
    let mut ctx = Context::dummy();
    let mut series = TimeSeries::default();
    let results = bulk_insert_samples(&mut ctx, &mut series, &[s(-5, 1.0)], None);
    assert!(results.is_empty());
    assert_eq!(series.total_samples, 0);
    assert!(series.chunks.is_empty());
    assert!(ctx.effects.is_empty());
}

fn two_chunks() -> TimeSeries {
    let mut ctx = Context::dummy();
    let mut series = TimeSeries::default();
    bulk_insert_samples(&mut ctx, &mut series, &[s(0, 0.0), s(100, 1.0)], None);
    bulk_insert_samples(&mut ctx, &mut series, &[s(200, 2.0), s(300, 3.0)], None);
    assert_eq!(series.chunks.len(), 2);
    series
}

#[test]
fn a_sample_between_two_chunks_goes_to_a_new_chunk_alone() {
    let series = two_chunks();
    let samples = vec![s(50, 0.5), s(150, 1.5), s(250, 2.5), s(400, 4.0)];
    let groups = group_samples_by_chunk(&series, &samples);
    assert_eq!(groups.len(), 4);
    assert_eq!(groups[0].chunk, ChunkHolder::ExistingIdx(0));
    assert_eq!(groups[1].chunk, ChunkHolder::New);
    assert_eq!(groups[2].chunk, ChunkHolder::ExistingIdx(1));
    assert_eq!(groups[3].chunk, ChunkHolder::New);
    for (i, group) in groups.iter().enumerate() {
        assert_eq!(group.samples, &samples[i..i + 1]);
    }

    let samples = vec![s(150, 1.5), s(250, 2.5)];
    let groups = group_samples_by_chunk(&series, &samples);
    assert_eq!(groups[1].chunk, ChunkHolder::ExistingIdx(1));
}

#[test]
fn a_taken_time_behind_a_gap_is_blocked() {
    let mut ctx = Context::dummy();
    let mut series = two_chunks();
    let results =
        bulk_insert_samples(&mut ctx, &mut series, &[s(150, 1.5), s(200, -1.0)], None);
    assert_eq!(results, vec![SampleAddResult::Stored(s(150, 1.5)), SampleAddResult::Duplicate]);
    assert_eq!(
        series.iter(),
        vec![s(0, 0.0), s(100, 1.0), s(150, 1.5), s(200, 2.0), s(300, 3.0)]
    );
}

#[test]
fn the_last_timestamp_is_that_of_the_newest_sample() {
    let mut ctx = Context::dummy();
    let mut series = two_chunks();
    bulk_insert_samples(&mut ctx, &mut series, &[s(150, 1.5), s(400, 4.0)], None);
    assert_eq!(series.last_timestamp(), 400);
    assert_eq!(series.chunks.len(), 4);
    assert_eq!(series.total_samples, 6);
}

#[test]
fn what_a_chunk_has_no_room_for_goes_to_new_chunks() {
    let mut ctx = Context::dummy();
    let mut series = TimeSeries::default();
    series.chunk_compression = ChunkEncoding::Uncompressed;
    series.chunk_size_bytes = 64;
    bulk_insert_samples(&mut ctx, &mut series, &[s(0, 0.0), s(10, 1.0), s(20, 2.0)], None);
    assert_eq!(calculate_capacity(&series.chunks[0]), 1);

    let samples = vec![s(2, 9.0), s(3, 9.0), s(4, 9.0), s(10, 9.0), s(11, 9.0), s(20, 9.0)];
    let groups = group_samples_by_chunk(&series, &samples);
    let found: Vec<(ChunkHolder, usize)> =
        groups.iter().map(|g| (g.chunk, g.samples.len())).collect();
    assert_eq!(
        found,
        vec![
            (ChunkHolder::ExistingIdx(0), 1),
            (ChunkHolder::New, 2),
            (ChunkHolder::ExistingIdx(0), 1),
            (ChunkHolder::New, 1),
            (ChunkHolder::ExistingIdx(0), 1),
        ]
    );

    let policy = Some(DuplicatePolicy::Sum);
    let results = bulk_insert_samples(&mut ctx, &mut series, &samples, policy);
    let values: Vec<f64> = results
        .iter()
        .map(|r| match r {
            SampleAddResult::Stored(x) => f64::from_bits(x.value),
            other => panic!("{other:?}"),
        })
        .collect();
    assert_eq!(values, vec![9.0, 9.0, 9.0, 10.0, 9.0, 11.0]);
    let lengths: Vec<usize> = series.chunks.iter().map(|c| c.len()).collect();
    assert_eq!(lengths, vec![4, 3]);
    assert_eq!(
        series.iter(),
        vec![
            s(0, 0.0),
            s(2, 9.0),
            s(3, 9.0),
            s(4, 9.0),
            s(10, 10.0),
            s(11, 9.0),
            s(20, 11.0),
        ]
    );
}

#[test]
fn samples_at_the_same_time_stay_together() {
    let mut ctx = Context::dummy();
    let mut series = TimeSeries::default();
    series.chunk_compression = ChunkEncoding::Uncompressed;
    series.chunk_size_bytes = 32;
    let samples = vec![s(1, 1.0), s(2, 2.0), s(2, 3.0), s(2, 4.0), s(3, 5.0)];
    let groups = group_samples_by_chunk(&series, &samples);
    let lengths: Vec<usize> = groups.iter().map(|g| g.samples.len()).collect();
    assert_eq!(lengths, vec![4, 1]);
    let policy = Some(DuplicatePolicy::Sum);
    let results = bulk_insert_samples(&mut ctx, &mut series, &samples, policy);
    assert_eq!(count_ok(&results), 3);
    assert_eq!(results[3], SampleAddResult::Merged(s(2, 9.0)));
    assert_eq!(series.iter(), vec![s(1, 1.0), s(2, 9.0), s(3, 5.0)]);
}

#[test]
fn batches_out_of_order_leave_one_sample_per_time() {
    let mut ctx = Context::dummy();
    let mut series = TimeSeries::default();
    series.chunk_compression = ChunkEncoding::Uncompressed;
    series.chunk_size_bytes = 32;
    let samples = vec![s(5, 1.0), s(3, 2.0), s(5, 3.0), s(4, 4.0)];
    bulk_insert_samples(&mut ctx, &mut series, &samples, None);
    assert!(series.is_sound());
    let times: Vec<i64> = series.iter().iter().map(|x| x.timestamp).collect();
    assert_eq!(times, vec![3, 4, 5]);
}

#[test]
fn samples_older_than_the_first_chunk_go_to_new_chunks() {
    let mut ctx = Context::dummy();
    let mut series = TimeSeries::default();
    bulk_insert_samples(&mut ctx, &mut series, &[s(100, 1.0), s(200, 2.0)], None);
    bulk_insert_samples(&mut ctx, &mut series, &[s(10, 0.1), s(150, 1.5)], None);
    assert_eq!(series.chunks.len(), 2);
    assert_eq!(series.first_timestamp, 10);
    assert_eq!(series.iter(), vec![s(10, 0.1), s(100, 1.0), s(150, 1.5), s(200, 2.0)]);
}

#[test]
fn new_groups_hold_at_most_the_capacity_of_a_chunk() {
    let mut series = TimeSeries::default();
    series.chunk_compression = ChunkEncoding::Uncompressed;
    series.chunk_size_bytes = 64;
    let samples: Vec<Sample> = (0..10).map(|i| s(i, 0.0)).collect();
    let groups = group_samples_by_chunk(&series, &samples);
    let lengths: Vec<usize> = groups.iter().map(|g| g.samples.len()).collect();
    assert_eq!(lengths, vec![4, 4, 2]);

    series.chunk_compression = ChunkEncoding::Compressed;
    let groups = group_samples_by_chunk(&series, &samples);
    let lengths: Vec<usize> = groups.iter().map(|g| g.samples.len()).collect();
    assert_eq!(lengths, vec![8, 2]);
}

#[test]
fn a_full_chunk_is_split() {
    let mut ctx = Context::dummy();
    let mut series = TimeSeries::default();
    series.chunk_compression = ChunkEncoding::Uncompressed;
    series.chunk_size_bytes = 64;
    bulk_insert_samples(
        &mut ctx,
        &mut series,
        &[s(0, 0.0), s(10, 1.0), s(20, 2.0), s(30, 3.0)],
        None,
    );
    assert_eq!(series.chunks.len(), 1);
    bulk_insert_samples(&mut ctx, &mut series, &[s(5, 0.5)], None);
    assert_eq!(series.chunks.len(), 2);
    assert_eq!(series.chunks[0].len(), 4);
    assert_eq!(series.chunks[1].len(), 1);
    assert_eq!(series.total_samples, 5);
    assert_eq!(series.iter(), vec![s(0, 0.0), s(5, 0.5), s(10, 1.0), s(20, 2.0), s(30, 3.0)]);
}

#[test]
fn duplicate_policies_decide_what_is_kept() {
    let cases = [
        (None, 2.0, false),
        (Some(DuplicatePolicy::Block), 2.0, false),
        (Some(DuplicatePolicy::KeepFirst), 2.0, true),
        (Some(DuplicatePolicy::KeepLast), 5.0, true),
        (Some(DuplicatePolicy::Min), 2.0, true),
        (Some(DuplicatePolicy::Max), 5.0, true),
        (Some(DuplicatePolicy::Sum), 7.0, true),
    ];
    for (policy, value, ok) in cases {
        let mut ctx = Context::dummy();
        let mut series = TimeSeries::default();
        bulk_insert_samples(&mut ctx, &mut series, &[s(1, 1.0), s(2, 2.0), s(3, 3.0)], None);
        let results = bulk_insert_samples(&mut ctx, &mut series, &[s(2, 5.0)], policy);
        assert_eq!(results.len(), 1);
        assert_eq!(results[0].is_ok(), ok);
        if ok {
            assert_eq!(results[0], SampleAddResult::Stored(s(2, value)));
        } else {
            assert_eq!(results[0], SampleAddResult::Duplicate);
        }
        assert_eq!(series.iter(), vec![s(1, 1.0), s(2, value), s(3, 3.0)]);
    }
}

#[test]
fn duplicates_within_a_batch_are_merged() {
    let mut ctx = Context::dummy();
    let mut series = TimeSeries::default();
    let results = bulk_insert_samples(
        &mut ctx,
        &mut series,
        &[s(1, 4.0), s(1, 9.0)],
        Some(DuplicatePolicy::Max),
    );
    assert_eq!(
        results,
        vec![SampleAddResult::Stored(s(1, 4.0)), SampleAddResult::Merged(s(1, 9.0))]
    );
    assert_eq!(count_ok(&results), 1);
    assert_eq!(collect_stored(&results), vec![s(1, 4.0)]);
    assert_eq!(series.iter(), vec![s(1, 9.0)]);

    let results = bulk_insert_samples(
        &mut ctx,
        &mut series,
        &[s(1, 4.0), s(1, 11.0)],
        Some(DuplicatePolicy::Max),
    );
    assert_eq!(
        results,
        vec![SampleAddResult::Stored(s(1, 9.0)), SampleAddResult::Merged(s(1, 11.0))]
    );
    assert_eq!(series.iter(), vec![s(1, 11.0)]);
}

#[test]
fn disjoint_borrows_reach_exactly_the_indices() {
    let mut items = vec![10, 11, 12, 13, 14];
    let refs = disjoint_get_many_mut_with_pos(&mut items, &[0, 3, 4]);
    assert_eq!(refs.len(), 3);
    for r in refs {
        *r += 100;
    }
    assert_eq!(items, vec![110, 11, 12, 113, 114]);
    let none = disjoint_get_many_mut_with_pos(&mut items, &[]);
    assert!(none.is_empty());
}

#[test]
fn a_refused_batch_gives_an_error_for_each_sample() {
    let error = SampleAddResult::Error(AddError::CannotAddSample);
    assert_eq!(results_or_errors(Err(ChunkError::Encoding), 3), vec![error, error, error]);
    assert_eq!(results_or_errors(Ok(vec![SampleAddResult::Duplicate]), 3).len(), 1);

    let mut chunk = TimeSeriesChunk::new(ChunkEncoding::Compressed, 4096);
    let results = exec_merge(&mut chunk, &[s(3, 3.0), s(1, 1.0)], None);
    assert_eq!(
        results,
        vec![SampleAddResult::Stored(s(3, 3.0)), SampleAddResult::Stored(s(1, 1.0))]
    );
    assert_eq!(chunk.samples, vec![s(1, 1.0), s(3, 3.0)]);
}

#[test]
fn young_compressed_chunks_are_trusted_with_less() {
    for max_size in [0usize, 8, 16, 80, 1000, 4096, 8 * 1001, 123_456_789, usize::MAX] {
        for len in [0usize, 1, 9, 10, 11] {
            for encoding in [ChunkEncoding::Compressed, ChunkEncoding::Uncompressed] {
                let mut chunk = TimeSeriesChunk::new(encoding, max_size);
                let batch: Vec<Sample> = (0..len).map(|i| s(i as i64, 0.0)).collect();
                exec_merge(&mut chunk, &batch, None);
                let per_sample = if encoding == ChunkEncoding::Compressed { 8 } else { 16 };
                let mut expected = (max_size / per_sample).saturating_sub(len);
                if expected > 0 && len < 10 && encoding == ChunkEncoding::Compressed {
                    expected = ((expected as f64 * 0.7).floor() as usize).max(1);
                }
                assert_eq!(calculate_capacity(&chunk), expected, "{max_size} {len} {encoding:?}");
            }
        }
    }
}

#[test]
fn a_gain_is_told_to_the_server() {
    let mut ctx = Context::dummy();
    ctx.keys.insert(7, "sensor".to_string());
    let mut series = TimeSeries::default();
    series.id = 7;
    bulk_insert_samples(&mut ctx, &mut series, &[s(1, 1.0)], None);
    assert_eq!(ctx.effects.len(), 1);
    match &ctx.effects[0] {
        Effect::Notify { event, key } => {
            assert_eq!(event.name(), "ts.add");
            assert_eq!(key, "sensor");
        }
        Effect::Warn(_) => panic!("expected a notification"),
    }

    // nothing gained, nothing told
    bulk_insert_samples(&mut ctx, &mut series, &[s(1, 2.0)], Some(DuplicatePolicy::KeepLast));
    assert_eq!(ctx.effects.len(), 1);

    // no key, a warning; a compaction has an event of its own
    series.id = 8;
    series.src_series = Some(7);
    bulk_insert_samples(&mut ctx, &mut series, &[s(2, 2.0)], None);
    assert_eq!(ctx.effects.len(), 2);
    assert!(matches!(ctx.effects[1], Effect::Warn(Warning::SeriesKeyNotFound)));
    assert_eq!(
        Warning::SeriesKeyNotFound.message(),
        "Compaction notification failed: series key not found"
    );
    assert_eq!(AddEvent::AddDest.name(), "ts.add:dest");
}

#[test]
fn writes_leave_other_times_as_they_were() {
    let mut ctx = Context::dummy();
    let mut series = TimeSeries::default();
    let seed: Vec<Sample> = (0..100).map(|i| s(i * 10, i as f64)).collect();
    bulk_insert_samples(&mut ctx, &mut series, &seed, None);
    let batch: Vec<Sample> = (0..50).map(|i| s(i * 20, -1.0)).collect();
    bulk_insert_samples(&mut ctx, &mut series, &batch, Some(DuplicatePolicy::KeepLast));
    let read = series.iter();
    assert_eq!(read.len(), 100);
    for (i, x) in read.iter().enumerate() {
        if i % 2 == 0 {
            assert_eq!(*x, s(i as i64 * 10, -1.0));
        } else {
            assert_eq!(*x, seed[i]);
        }
    }
}

#[test]
fn newer_samples_are_read_behind_the_older_ones() {
    let mut ctx = Context::dummy();
    let mut series = TimeSeries::default();
    series.chunk_size_bytes = 64;
    let mut expected: Vec<Sample> = Vec::new();
    for batch in 0..20i64 {
        let samples: Vec<Sample> =
            (0..13).map(|i| s(batch * 100 + i, (batch * i) as f64)).collect();
        let results = bulk_insert_samples(&mut ctx, &mut series, &samples, None);
        let stored: Vec<SampleAddResult> =
            samples.iter().map(|x| SampleAddResult::Stored(*x)).collect();
        assert_eq!(results, stored);
        expected.extend(samples);
        assert_eq!(series.iter(), expected);
        assert_eq!(series.total_samples, expected.len());
        assert_eq!(series.last_timestamp(), batch * 100 + 12);
        assert_eq!(series.first_timestamp, 0);
    }
    assert!(series.chunks.iter().all(|c| c.len() <= 8));
}

#[test]
fn blocked_writes_lose_nothing() {
    let mut ctx = Context::dummy();
    let mut series = TimeSeries::default();
    let seed: Vec<Sample> = (0..1000).map(|i| s(i * 7, i as f64)).collect();
    bulk_insert_samples(&mut ctx, &mut series, &seed, None);
    let batch: Vec<Sample> = (0..7000).map(|i| s(i, -1.0)).collect();
    let results = bulk_insert_samples(&mut ctx, &mut series, &batch, None);
    assert_eq!(count_ok(&results), 6000);
    let read = series.iter();
    assert_eq!(read.len(), 7000);
    for (i, x) in read.iter().enumerate() {
        if i % 7 == 0 {
            assert_eq!(*x, seed[i / 7]);
        } else {
            assert_eq!(*x, batch[i]);
        }
    }
}

#[test]
fn damage_to_a_series_is_seen() {
    let mut series = two_chunks();
    assert!(series.is_sound());
    assert!(TimeSeries::default().is_sound());
    series.total_samples = 3;
    assert!(!series.is_sound());
    let mut series = two_chunks();
    series.last_timestamp = 299;
    assert!(!series.is_sound());
    let mut series = two_chunks();
    series.chunks[1].samples[0].timestamp = 100;
    assert!(!series.is_sound());
    let mut series = two_chunks();
    series.chunks[0].samples.clear();
    assert!(!series.is_sound());
    let mut series = two_chunks();
    series.chunk_size_bytes = 7;
    assert!(!series.is_sound());
    series.chunk_size_bytes = 8;
    assert!(series.is_sound());
}
