use valkey_timeseries::chunk::ChunkEncoding;
use valkey_timeseries::commands::{
    handle_ingest, ingest, ingest_samples, CommandError, IngestCounts, IngestEvent, IngestStep,
};
use valkey_timeseries::common::{DuplicatePolicy, Sample};
use valkey_timeseries::context::{AddEvent, Context};
use valkey_timeseries::ignore::IgnoreLimits;
use valkey_timeseries::ingest::{IngestError, IngestedSamples};
use valkey_timeseries::madd_bulk::{
    handle_replication, handle_update, madd_bulk, parse_args, process_one_series, BulkUpdate,
    CommandArg, UpdateStep,
};
use valkey_timeseries::options::{
    create_series, parse_number, parse_series_options, OptionError,
};
use valkey_timeseries::series::{Rounding, TimeSeries};

fn point(ts: i64, v: f64) -> Sample {
    Sample { timestamp: ts, value: v.to_bits() }
}

fn words(text: &str) -> Vec<String> {
    text.split(' ').map(|w| w.to_string()).collect()
}

fn counts(ingested: usize, total: usize) -> IngestCounts {
    IngestCounts { ingested, total }
}

fn ingest_text(
    series: &mut TimeSeries,
    text: &str,
    on_duplicate: Option<DuplicatePolicy>,
) -> Result<IngestCounts, CommandError> {
    handle_ingest(&mut Context::dummy(), series, text.as_bytes().to_vec(), on_duplicate)
}

#[test]
fn two_samples_are_ingested() {
    let mut series = TimeSeries::default();
    let result = ingest_text(
        &mut series,
        r#"{"values":[22.5,23.1],"timestamps":[1620000000000,1620000060000]}"#,
        None,
    );
    assert_eq!(result.unwrap(), counts(2, 2));
    assert_eq!(series.iter(), vec![point(1620000000000, 22.5), point(1620000060000, 23.1)]);
}

#[test]
fn a_policy_can_be_overridden() {
    let mut series = TimeSeries::default();
    let result = ingest_text(
        &mut series,
        r#"{"values":[22.5,22.8],"timestamps":[1620000000000,1620000000000]}"#,
        Some(DuplicatePolicy::Max),
    );
    assert_eq!(result.unwrap(), counts(1, 2));
    assert_eq!(series.iter(), vec![point(1620000000000, 22.8)]);
    assert_eq!(series.sample_duplicates.policy, None);

    let mut series = TimeSeries::default();
    ingest_text(
        &mut series,
        r#"{"values":[22.5,23.1],"timestamps":[1620000000000,1620000060000]}"#,
        None,
    )
    .unwrap();
    let result = ingest_text(
        &mut series,
        r#"{"values":[22.5,22.8],"timestamps":[1620000000000,1620000000000]}"#,
        Some(DuplicatePolicy::Max),
    );
    assert_eq!(result.unwrap(), counts(1, 2));
    assert_eq!(series.iter(), vec![point(1620000000000, 22.8), point(1620000060000, 23.1)]);
}

#[test]
fn without_a_policy_duplicates_are_blocked() {
    let mut series = TimeSeries::default();
    let text = r#"{"values":[1,2],"timestamps":[10,20]}"#;
    assert_eq!(ingest_text(&mut series, text, None).unwrap(), counts(2, 2));
    assert_eq!(ingest_text(&mut series, text, None).unwrap(), counts(0, 2));
    series.sample_duplicates.policy = Some(DuplicatePolicy::Sum);
    assert_eq!(ingest_text(&mut series, text, None).unwrap(), counts(2, 2));
    assert_eq!(series.iter(), vec![point(10, 2.0), point(20, 4.0)]);
}

#[test]
fn a_refused_payload_changes_nothing() {
    let mut series = TimeSeries::default();
    let error = ingest_text(&mut series, r#"{"values":[1]}"#, None).unwrap_err();
    assert!(matches!(error, CommandError::Payload(IngestError::MissingTimestamps)));
    assert_eq!(series.total_samples, 0);
}

#[test]
fn samples_that_lie_apart_are_dropped() {
    let mut series = TimeSeries::default();
    series.sample_duplicates.ignore =
        Some(IgnoreLimits { max_time_diff: 5000, max_value_diff: 2.0f64.to_bits() });
    let result = ingest_text(
        &mut series,
        r#"{"values":[22.5,22.6,25.0],"timestamps":[1620000000000,1620000001000,1620000002000]}"#,
        None,
    );
    assert_eq!(result.unwrap(), counts(2, 3));
    assert_eq!(series.last_sample(), Some(point(1620000001000, 22.6)));

    // too far in time from the last one
    let result = ingest_text(
        &mut series,
        r#"{"values":[22.6,22.6],"timestamps":[1620000006001,1620000006000]}"#,
        None,
    );
    assert_eq!(result.unwrap(), counts(2, 2));
    let result =
        ingest_text(&mut series, r#"{"values":[22.6],"timestamps":[1620000020000]}"#, None);
    assert_eq!(result.unwrap(), counts(0, 1));
}

#[test]
fn samples_can_be_ingested_without_a_payload() {
    let mut series = TimeSeries::default();
    series.retention = 100;
    let mut ctx = Context::dummy();
    assert_eq!(
        ingest_samples(&mut ctx, &mut series, &vec![point(1000, 1.0)], None),
        counts(1, 1)
    );
    assert_eq!(
        ingest_samples(&mut ctx, &mut series, &vec![point(1, 1.0), point(950, 2.0)], None),
        counts(1, 2)
    );
}

#[test]
fn an_ingestion_takes_its_course() {
    let short = words("TS.INGEST key");
    assert!(matches!(
        ingest(&short, IngestEvent::Called),
        IngestStep::Refuse(CommandError::WrongArity)
    ));
    let args = words("TS.INGEST key {} CHUNK_SIZE 8192 on_duplicate max");
    assert!(matches!(ingest(&args, IngestEvent::Called), IngestStep::LookUp));
    assert!(matches!(
        ingest(&args, IngestEvent::Found),
        IngestStep::Ingest { on_duplicate: Some(DuplicatePolicy::Max), replicate: false }
    ));
    match ingest(&args, IngestEvent::Missing) {
        IngestStep::Create(options) => assert_eq!(options.chunk_size, Some(8192)),
        other => panic!("{other:?}"),
    }
    assert!(matches!(
        ingest(&args, IngestEvent::Created),
        IngestStep::Ingest { on_duplicate: Some(DuplicatePolicy::Max), replicate: true }
    ));
    let bad = words("TS.INGEST key {} NONSENSE");
    assert!(matches!(
        ingest(&bad, IngestEvent::Missing),
        IngestStep::Refuse(CommandError::Options(OptionError::UnknownOption(3)))
    ));
    assert!(matches!(
        ingest(&bad, IngestEvent::Found),
        IngestStep::Ingest { on_duplicate: None, replicate: false }
    ));
    match ingest(&args, IngestEvent::LookUpFailed("WRONGTYPE".to_string())) {
        IngestStep::Refuse(CommandError::Server(why)) => assert_eq!(why, "WRONGTYPE"),
        other => panic!("{other:?}"),
    }
    assert!(matches!(
        ingest(&args, IngestEvent::CreateFailed("no".to_string())),
        IngestStep::Refuse(CommandError::Server(_))
    ));
}

#[test]
fn options_are_taken_in() {
    let args = words(
        "TS.INGEST key {} RETENTION 86400000 CHUNK_SIZE 8192 DUPLICATE_POLICY LAST \
         LABELS sensor_type pressure location tank2 IGNORE 5000 2.0 encoding uncompressed \
         DECIMAL_DIGITS 3",
    );
    let o = parse_series_options(&args, 3).unwrap();
    assert_eq!(o.retention, Some(86_400_000));
    assert_eq!(o.chunk_size, Some(8192));
    assert_eq!(o.duplicate_policy, Some(DuplicatePolicy::KeepLast));
    assert_eq!(o.on_duplicate, None);
    assert_eq!(o.encoding, Some(ChunkEncoding::Uncompressed));
    let (from, to) = o.labels.unwrap();
    assert_eq!(&args[from..to], &["sensor_type", "pressure", "location", "tank2"]);
    let (max_time, place) = o.ignore.unwrap();
    assert_eq!(max_time, 5000);
    assert_eq!(args[place], "2.0");
    assert_eq!(o.rounding, Some(Rounding::DecimalDigits(3)));

    let series = create_series(5, &o, &args, None);
    assert_eq!(series.id, 5);
    assert_eq!(series.retention, 86_400_000);
    assert_eq!(series.chunk_size_bytes, 8192);
    assert!(!series.is_compressed());
    assert_eq!(series.sample_duplicates.policy, Some(DuplicatePolicy::KeepLast));
    assert_eq!(series.rounding, Some(Rounding::DecimalDigits(3)));
    let labels: Vec<(&str, &str)> =
        series.labels.iter().map(|l| (l.name.as_str(), l.value.as_str())).collect();
    assert_eq!(labels, vec![("sensor_type", "pressure"), ("location", "tank2")]);
    assert_eq!(series.metric, None);
    assert!(series.is_empty());

    let args = words("METRIC cpu SIGNIFICANT_DIGITS 4");
    let o = parse_series_options(&args, 0).unwrap();
    let series = create_series(6, &o, &args, None);
    assert_eq!(series.metric.as_deref(), Some("cpu"));
    assert!(series.labels.is_empty());
    assert_eq!(series.rounding, Some(Rounding::SignificantDigits(4)));
}

#[test]
fn options_are_refused() {
    let refuse = |text: &str| parse_series_options(&words(text), 0).unwrap_err();
    assert_eq!(refuse("RETENTION"), OptionError::MissingValue(0));
    assert_eq!(refuse("RETENTION -1"), OptionError::InvalidNumber(1));
    assert_eq!(refuse("RETENTION 99999999999999999999"), OptionError::InvalidNumber(1));
    assert_eq!(refuse("CHUNK_SIZE 15"), OptionError::InvalidNumber(1));
    assert_eq!(refuse("ENCODING zip"), OptionError::InvalidWord(1));
    assert_eq!(refuse("DUPLICATE_POLICY avg"), OptionError::InvalidWord(1));
    assert_eq!(refuse("ON_DUPLICATE avg"), OptionError::InvalidWord(1));
    assert_eq!(refuse("SIGNIFICANT_DIGITS 19"), OptionError::InvalidNumber(1));
    assert_eq!(
        refuse("DECIMAL_DIGITS 2 SIGNIFICANT_DIGITS 3"),
        OptionError::Exclusive(2)
    );
    assert_eq!(refuse("METRIC m LABELS a b"), OptionError::Exclusive(2));
    assert_eq!(refuse("LABELS a b METRIC m"), OptionError::Exclusive(3));
    assert_eq!(refuse("LABELS a"), OptionError::MissingValue(0));
    assert_eq!(refuse("IGNORE 1"), OptionError::MissingValue(0));
    assert_eq!(refuse("RETENTION 1 WHAT"), OptionError::UnknownOption(2));
    let none = parse_series_options(&words("a b"), 2).unwrap();
    assert_eq!(none.retention, None);
    assert_eq!(none.labels, None);
}

#[test]
fn numbers_are_read() {
    assert_eq!(parse_number("0"), Some(0));
    assert_eq!(parse_number("0042"), Some(42));
    assert_eq!(parse_number("18446744073709551615"), Some(u64::MAX));
    assert_eq!(parse_number("18446744073709551616"), None);
    assert_eq!(parse_number(""), None);
    assert_eq!(parse_number("1x"), None);
    assert_eq!(parse_number("99999999999999999999x"), None);
}

fn arg(text: &str, writable: bool) -> CommandArg {
    CommandArg { text: text.to_string(), bytes: text.as_bytes().to_vec(), writable }
}

const GOOD: &str = r#"{"values":[1,2],"timestamps":[20,10]}"#;

#[test]
fn pairs_are_taken_in() {
    let args = vec![
        arg("TS.MADDBULK", false),
        arg("a", true),
        arg(GOOD, false),
        arg("b", true),
        arg(r#"{"values":[3],"timestamps":[1]}"#, false),
    ];
    let items = madd_bulk(&args).unwrap();
    assert_eq!(items.len(), 2);
    assert_eq!(items[0].key, "a");
    assert_eq!(items[0].samples, vec![point(10, 2.0), point(20, 1.0)]);
    assert_eq!(items[1].key, "b");
    assert_eq!(items[1].samples, vec![point(1, 3.0)]);
    assert_eq!(parse_args(&args[..1].iter().map(|a| arg(&a.text, true)).collect()).unwrap().len(), 0);
}

#[test]
fn the_first_refused_pair_decides() {
    assert!(matches!(madd_bulk(&vec![arg("c", true)]).unwrap_err(), CommandError::WrongArity));
    assert!(matches!(
        madd_bulk(&vec![arg("c", true), arg("k", true)]).unwrap_err(),
        CommandError::WrongArity
    ));
    assert!(matches!(
        madd_bulk(&vec![arg("c", true), arg("k", true), arg(GOOD, true), arg("l", true)])
            .unwrap_err(),
        CommandError::WrongArity
    ));
    let bad = r#"{"values":[1],"timestamps":[]}"#;
    assert!(matches!(
        madd_bulk(&vec![arg("c", true), arg("k", false), arg(bad, true)]).unwrap_err(),
        CommandError::PermissionDenied
    ));
    assert!(matches!(
        madd_bulk(&vec![
            arg("c", true),
            arg("k", true),
            arg(bad, true),
            arg("l", false),
            arg(GOOD, true),
        ])
        .unwrap_err(),
        CommandError::Payload(IngestError::NoSamples)
    ));
}

#[test]
fn one_series_is_written_under_its_policy() {
    let mut ctx = Context::dummy();
    let mut series = TimeSeries::default();
    series.sample_duplicates.policy = Some(DuplicatePolicy::KeepLast);
    let payload = IngestedSamples {
        metric_name: String::new(),
        key: "k".to_string(),
        samples: vec![point(-1, 0.0), point(1, 1.0), point(1, 2.0)],
    };
    assert_eq!(process_one_series(&mut ctx, &mut series, &payload), counts(1, 2));
    assert_eq!(series.iter(), vec![point(1, 2.0)]);
    assert_eq!(process_one_series(&mut ctx, &mut series, &payload), counts(1, 2));
}

#[test]
fn a_call_answers_with_all_counts_or_the_first_error() {
    let mut update = BulkUpdate { counts: Vec::new(), left: 2 };
    assert!(matches!(handle_update(&mut update, Ok(counts(1, 1))), UpdateStep::Next));
    assert!(matches!(handle_update(&mut update, Ok(counts(2, 3))), UpdateStep::ReplyCounts));
    assert_eq!(update.counts, vec![counts(1, 1), counts(2, 3)]);

    let mut update = BulkUpdate { counts: Vec::new(), left: 2 };
    assert!(matches!(
        handle_update(&mut update, Err(CommandError::WrongArity)),
        UpdateStep::ReplyError(CommandError::WrongArity)
    ));
    assert_eq!(update.left, 0);

    let mut update = BulkUpdate { counts: Vec::new(), left: 3 };
    assert!(matches!(handle_update(&mut update, Ok(counts(1, 2))), UpdateStep::Next));
    assert!(matches!(
        handle_update(&mut update, Err(CommandError::PermissionDenied)),
        UpdateStep::ReplyError(CommandError::PermissionDenied)
    ));
    assert_eq!(update.counts, vec![counts(1, 2)]);
    assert_eq!(update.left, 0);
}

#[test]
fn replicas_are_told_of_the_samples() {
    let payload = IngestedSamples {
        metric_name: String::new(),
        key: "k".to_string(),
        samples: vec![point(i64::MIN, 0.5), point(0, 1.0), point(1620000000000, 2.0)],
    };
    let values: Vec<String> =
        payload.samples.iter().map(|s| f64::from_bits(s.value).to_string()).collect();
    let r = handle_replication(&payload, &values);
    assert_eq!(r.command, "TS.MADDBULK");
    assert_eq!(r.key, "k");
    assert_eq!(
        r.payload,
        "{timestamps:[-9223372036854775808,0,1620000000000], values:[0.5,1,2]}"
    );
    assert_eq!(r.event, AddEvent::Add);

    let empty =
        IngestedSamples { metric_name: String::new(), key: String::new(), samples: vec![] };
    assert_eq!(handle_replication(&empty, &vec![]).payload, "{timestamps:[], values:[]}");
}
