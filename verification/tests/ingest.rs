use valkey_timeseries::common::Sample;
use valkey_timeseries::ingest::{
    collect_samples, IngestError, IngestedSamples, MAX_SAMPLES_PER_INSERT,
};

fn parse(text: &str) -> Result<IngestedSamples, IngestError> {
    let mut data = text.as_bytes().to_vec();
    IngestedSamples::from_json_lines(&mut data)
}

fn error(text: &str) -> String {
    parse(text).unwrap_err().message()
}

fn bits(v: f64) -> Option<u64> {
    Some(v.to_bits())
}

#[test]
fn test_parse_json_line() {
    let mut data = br#"{
            "values": [1, 1, 1],
            "timestamps": [1549891472010, 1549891487724, 1549891503438]
        }"#
    .to_vec();

    let parsed = IngestedSamples::from_json_lines(&mut data).unwrap();
    assert_eq!(parsed.samples.len(), 3);
    assert_eq!(f64::from_bits(parsed.samples[0].value), 1.0);
    assert_eq!(parsed.samples[0].timestamp, 1549891472010);
    assert_eq!(parsed.samples[2].timestamp, 1549891503438);
}

#[test]
fn test_parse_mismatched_lengths() {
    let mut data = br#"{
            "metric": {"__name__": "test"},
            "values": [1, 2],
            "timestamps": [1000]
        }"#
    .to_vec();

    assert!(IngestedSamples::from_json_lines(&mut data).is_err());
    assert_eq!(
        error(r#"{"values": [1, 2], "timestamps": [1000]}"#),
        "TSDB: values and timestamps length mismatch"
    );
}

#[test]
fn samples_are_sorted_and_ties_keep_their_order() {
    let parsed =
        parse(r#"{"values":[3.5,-1,2,7],"timestamps":[30,10,30,20]}"#).unwrap();
    let expected: Vec<Sample> = vec![(10, -1.0), (20, 7.0), (30, 3.5), (30, 2.0)]
        .into_iter()
        .map(|(timestamp, v): (i64, f64)| Sample { timestamp, value: v.to_bits() })
        .collect();
    assert_eq!(parsed.samples, expected);
    assert_eq!(parsed.key, "");
    assert_eq!(parsed.metric_name, "");
}

#[test]
fn numbers_become_the_nearest_floats() {
    let parsed = parse(
        r#"{"values":[9007199254740993,-9007199254740993,18446744073709551615,0.1,-0.0,1e300],
            "timestamps":[1,2,3,4,5,6]}"#,
    )
    .unwrap();
    let values: Vec<u64> = parsed.samples.iter().map(|s| s.value).collect();
    let expected: Vec<u64> = vec![
        9007199254740993u64 as f64,
        -9007199254740993i64 as f64,
        18446744073709551615u64 as f64,
        0.1,
        -0.0,
        1e300,
    ]
    .into_iter()
    .map(|v: f64| v.to_bits())
    .collect();
    assert_eq!(values, expected);
}

#[test]
fn every_error_has_its_text() {
    assert_eq!(error(r#"{"timestamps":[1]}"#), "TSDB: missing values");
    assert_eq!(error(r#"{"values":1,"timestamps":[1]}"#), "TSDB: missing values");
    assert_eq!(error(r#"[1,2]"#), "TSDB: missing values");
    assert_eq!(error(r#"{"values":[1]}"#), "TSDB: missing timestamps");
    assert_eq!(error(r#"{"values":[1],"timestamps":{}}"#), "TSDB: missing timestamps");
    assert_eq!(error(r#"{"values":[],"timestamps":[]}"#), "TSDB: no timestamps or values");
    assert_eq!(error(r#"{"values":[1],"timestamps":[]}"#), "TSDB: no timestamps or values");
    assert_eq!(
        error(r#"{"values":["1"],"timestamps":[1]}"#),
        "TSDB: invalid value (expected number)"
    );
    assert_eq!(
        error(r#"{"values":[1],"timestamps":[-1]}"#),
        "TSDB: invalid timestamp (expected u64)"
    );
    assert_eq!(
        error(r#"{"values":[1],"timestamps":[1.0]}"#),
        "TSDB: invalid timestamp (expected u64)"
    );
    // the value comes before the timestamp, and the first bad item decides
    assert_eq!(
        error(r#"{"values":[null],"timestamps":[-1]}"#),
        "TSDB: invalid value (expected number)"
    );
    assert_eq!(
        error(r#"{"values":[1,null],"timestamps":[-1,1]}"#),
        "TSDB: invalid timestamp (expected u64)"
    );
    let broken = parse("{").unwrap_err();
    assert!(matches!(broken, IngestError::InvalidJson(_)));
    assert!(broken.message().starts_with("ERR "));
    assert!(broken.message().len() > 4);
    assert!(matches!(parse("").unwrap_err(), IngestError::InvalidJson(_)));
}

#[test]
fn a_metric_needs_a_key_or_a_name() {
    let metric = r#""metric":{"__name__":"test"}"#;
    let lists = r#""values":[1],"timestamps":[1000]"#;
    assert_eq!(error(&format!("{{{metric},{lists}}}")), "missing key or metric_name");
    assert_eq!(error(&format!("{{{metric}}}")), "missing key or metric_name");
    assert_eq!(parse(&format!("{{{metric},\"key\":\"k\",{lists}}}")).unwrap().samples.len(), 1);
    assert!(parse(&format!("{{{metric},\"metric_name\":\"m\",{lists}}}")).is_ok());
    assert!(parse(&format!("{{{lists}}}")).is_ok());
}

#[test]
fn the_depth_of_a_payload_does_not_matter() {
    let nested = |n: usize| format!("{}{}", "[".repeat(n), "]".repeat(n));
    let expected = vec![Sample { timestamp: 1000, value: 1.5f64.to_bits() }];
    for depth in [1, 128, 129, 1_000_000] {
        let unused = nested(depth);
        let payload = format!(r#"{{"labels":{unused},"values":[1.5],"timestamps":[1000]}}"#);
        assert_eq!(parse(&payload).unwrap().samples, expected);
        let payload = format!(r#"{{"values":[1.5],"timestamps":[1000],"labels":{unused}}}"#);
        assert_eq!(parse(&payload).unwrap().samples, expected);
        let payload = format!(r#"{{"values":[{unused}],"timestamps":[1000]}}"#);
        assert_eq!(error(&payload), "TSDB: invalid value (expected number)");
        assert_eq!(error(&unused), "TSDB: missing values");
        assert!(matches!(parse(&unused[1..]).unwrap_err(), IngestError::InvalidJson(_)));
    }
}

#[test]
fn other_fields_do_not_matter() {
    let plain = parse(r#"{"values":[1,2],"timestamps":[10,20]}"#).unwrap().samples;
    let payload = r#"{"a":{"values":[9]},"values":[1,2],"b":"timestamps","timestamps":[10,20],"c":null}"#;
    assert_eq!(parse(payload).unwrap().samples, plain);
    // a key that is written with an escape is the same key
    assert_eq!(parse(r#"{"v\u0061lues":[1,2],"timestamps":[10,20]}"#).unwrap().samples, plain);
}

#[test]
fn the_first_of_two_fields_is_read() {
    let samples =
        parse(r#"{"values":[1],"timestamps":[10],"values":[2],"timestamps":[20]}"#).unwrap().samples;
    assert_eq!(samples, vec![Sample { timestamp: 10, value: 1.0f64.to_bits() }]);
    assert_eq!(
        error(r#"{"values":7,"values":[2],"timestamps":[20]}"#),
        "TSDB: missing values"
    );
    assert_eq!(
        error(r#"{"values":[1],"timestamps":[],"timestamps":[20]}"#),
        "TSDB: no timestamps or values"
    );
    let padding: String = (0..40).map(|i| format!(r#""f{i}":{i},"#)).collect();
    let payload = format!(r#"{{{padding}"values":[1],"values":[2],"timestamps":[10]}}"#);
    assert_eq!(parse(&payload).unwrap().samples[0].value, 1.0f64.to_bits());
}

#[test]
fn a_text_that_is_no_json_is_refused_in_words_of_the_parser() {
    assert_eq!(error(""), "ERR Eof at character 0");
    assert_eq!(error("[1 2]"), "ERR ExpectedArrayContent at character 3 ('2')");
    assert_eq!(error(r#"{"values" 1}"#), "ERR ExpectedObjectColon at character 10 ('1')");
    assert!(error(r#"["\q"]"#).starts_with("ERR InvalidEscape at character "));
    assert_eq!(
        error(r#"{"values":[tru],"timestamps":[1]}"#),
        "ERR ExpectedTrue at character 11 ('t')"
    );
}

#[test]
fn payloads_have_a_limit() {
    let n = MAX_SAMPLES_PER_INSERT;
    let values: Vec<Option<u64>> = vec![bits(1.0); n];
    let timestamps: Vec<Option<u64>> = (0..n as u64).map(Some).collect();
    let samples = collect_samples(Some(values), Some(timestamps)).unwrap();
    assert_eq!(samples.len(), 1000);

    let values: Vec<Option<u64>> = vec![bits(1.0); n + 1];
    let timestamps: Vec<Option<u64>> = (0..=n as u64).map(Some).collect();
    let error = collect_samples(Some(values), Some(timestamps)).unwrap_err();
    assert!(matches!(error, IngestError::TooManySamples));
    assert_eq!(error.message(), "TSDB: too many samples");
}

#[test]
fn large_timestamps_wrap_round() {
    let samples =
        collect_samples(Some(vec![bits(1.0), bits(2.0)]), Some(vec![Some(5), Some(u64::MAX)]))
            .unwrap();
    assert_eq!(samples[0].timestamp, -1);
    assert_eq!(samples[0].value, 2.0f64.to_bits());
    assert_eq!(samples[1].timestamp, 5);
}

#[test]
fn missing_lists_are_told_apart() {
    assert!(matches!(collect_samples(None, None).unwrap_err(), IngestError::MissingValues));
    assert!(matches!(
        collect_samples(Some(vec![]), None).unwrap_err(),
        IngestError::MissingTimestamps
    ));
    assert!(matches!(
        collect_samples(Some(vec![]), Some(vec![Some(1)])).unwrap_err(),
        IngestError::NoSamples
    ));
    assert!(matches!(
        collect_samples(Some(vec![None, None]), Some(vec![Some(1)])).unwrap_err(),
        IngestError::LengthMismatch
    ));
    assert!(matches!(
        collect_samples(Some(vec![None]), Some(vec![None])).unwrap_err(),
        IngestError::InvalidValue
    ));
    assert!(matches!(
        collect_samples(Some(vec![bits(0.0)]), Some(vec![None])).unwrap_err(),
        IngestError::InvalidTimestamp
    ));
}
