//! The samples of a JSON payload.
use vstd::prelude::*;
use vstd::string::StringExecFns;

use crate::common::{Sample, Timestamp};
use crate::json::{
    array_items, as_array, as_whole, cast_bits, error_text, object_get, parse_tape, root, Json,
};
use crate::sorting::sort_by_time;

verus! {

/// The most samples that one payload may hold.
pub const MAX_SAMPLES_PER_INSERT: usize = 1000;

/// Why a payload is refused.
#[derive(Debug)]
pub enum IngestError {
    /// The payload is no JSON; holds the words of the parser.
    InvalidJson(String),
    /// A metric is given, and neither a key nor a metric name.
    MissingKey,
    MissingValues,
    MissingTimestamps,
    /// There is no timestamp or no value.
    NoSamples,
    LengthMismatch,
    TooManySamples,
    /// A value is no number.
    InvalidValue,
    /// A timestamp is no whole number from 0 on.
    InvalidTimestamp,
}

impl IngestError {
    /// The text of the error.
    pub open spec fn text(self) -> Seq<char> {
        match self {
            IngestError::InvalidJson(words) => "ERR "@ + words@,
            IngestError::MissingKey => "missing key or metric_name"@,
            IngestError::MissingValues => "TSDB: missing values"@,
            IngestError::MissingTimestamps => "TSDB: missing timestamps"@,
            IngestError::NoSamples => "TSDB: no timestamps or values"@,
            IngestError::LengthMismatch => "TSDB: values and timestamps length mismatch"@,
            IngestError::TooManySamples => "TSDB: too many samples"@,
            IngestError::InvalidValue => "TSDB: invalid value (expected number)"@,
            IngestError::InvalidTimestamp => "TSDB: invalid timestamp (expected u64)"@,
        }
    }

    /// The text of the error.
    pub fn message(&self) -> (r: String)
        ensures
            r@ == self.text(),
    {
        match self {
            IngestError::InvalidJson(words) => "ERR ".to_owned().concat(words.as_str()),
            IngestError::MissingKey => "missing key or metric_name".to_owned(),
            IngestError::MissingValues => "TSDB: missing values".to_owned(),
            IngestError::MissingTimestamps => "TSDB: missing timestamps".to_owned(),
            IngestError::NoSamples => "TSDB: no timestamps or values".to_owned(),
            IngestError::LengthMismatch => "TSDB: values and timestamps length mismatch".to_owned(),
            IngestError::TooManySamples => "TSDB: too many samples".to_owned(),
            IngestError::InvalidValue => "TSDB: invalid value (expected number)".to_owned(),
            IngestError::InvalidTimestamp => "TSDB: invalid timestamp (expected u64)".to_owned(),
        }
    }
}

/// The samples of a payload, in order of time.
#[derive(Debug)]
pub struct IngestedSamples {
    pub metric_name: String,
    pub key: String,
    pub samples: Vec<Sample>,
}

/// A whole number as a timestamp: one too large wraps round.
pub open spec fn wrapped(n: u64) -> Timestamp {
    if n <= i64::MAX {
        n as i64
    } else {
        (n - 0x1_0000_0000_0000_0000) as i64
    }
}

/// Why the first bad item of two lists of the same length is refused, among the first `n`.
pub open spec fn item_error(values: Seq<Option<u64>>, timestamps: Seq<Option<u64>>, n: nat) -> Option<
    IngestError,
>
    decreases n,
{
    if n == 0 {
        None
    } else {
        match item_error(values, timestamps, (n - 1) as nat) {
            Some(e) => Some(e),
            None => if values[n - 1] is None {
                Some(IngestError::InvalidValue)
            } else if timestamps[n - 1] is None {
                Some(IngestError::InvalidTimestamp)
            } else {
                None
            },
        }
    }
}

/// Why a payload with these values and timestamps is refused; none where it is accepted.
pub open spec fn payload_error(
    values: Option<Seq<Option<u64>>>,
    timestamps: Option<Seq<Option<u64>>>,
) -> Option<IngestError> {
    match (values, timestamps) {
        (None, _) => Some(IngestError::MissingValues),
        (Some(_), None) => Some(IngestError::MissingTimestamps),
        (Some(v), Some(t)) => if v.len() == 0 || t.len() == 0 {
            Some(IngestError::NoSamples)
        } else if v.len() != t.len() {
            Some(IngestError::LengthMismatch)
        } else if v.len() > MAX_SAMPLES_PER_INSERT {
            Some(IngestError::TooManySamples)
        } else {
            item_error(v, t, v.len())
        },
    }
}

/// The samples of a payload, in the order of its lists.
pub open spec fn payload_samples(values: Seq<Option<u64>>, timestamps: Seq<Option<u64>>) -> Seq<
    Sample,
> {
    Seq::new(
        values.len(),
        |i: int| Sample { timestamp: wrapped(timestamps[i]->0), value: values[i]->0 },
    )
}

/// A list that may be missing.
pub open spec fn list_view(list: Option<Vec<Option<u64>>>) -> Option<Seq<Option<u64>>> {
    match list {
        Some(items) => Some(items@),
        None => None,
    }
}

/// The samples of a payload with these values and timestamps, in order of time.
///
/// An item is none where it is not of the kind that is asked for.
pub fn collect_samples(values: Option<Vec<Option<u64>>>, timestamps: Option<Vec<Option<u64>>>) -> (r:
    Result<Vec<Sample>, IngestError>)
    ensures
        match r {
            Ok(samples) => payload_error(list_view(values), list_view(timestamps)) is None
                && samples@ == crate::sorting::stable_sort(
                payload_samples(values->0@, timestamps->0@),
                crate::sorting::time_of::<Sample>(),
            ),
            Err(e) => payload_error(list_view(values), list_view(timestamps)) == Some(e),
        },
{
    let ghost error = payload_error(list_view(values), list_view(timestamps));
    let value_items: Vec<Option<u64>> = match values {
        Some(items) => items,
        None => return Err(IngestError::MissingValues),
    };
    let time_items: Vec<Option<u64>> = match timestamps {
        Some(items) => items,
        None => return Err(IngestError::MissingTimestamps),
    };
    let n: usize = value_items.len();
    if time_items.len() == 0 || n == 0 {
        return Err(IngestError::NoSamples);
    }
    if time_items.len() != n {
        return Err(IngestError::LengthMismatch);
    }
    if n > MAX_SAMPLES_PER_INSERT {
        return Err(IngestError::TooManySamples);
    }
    let mut samples: Vec<Sample> = Vec::with_capacity(n);
    let mut i: usize = 0;
    while i < n
        invariant
            i <= n,
            error == item_error(value_items@, time_items@, n as nat),
            error == payload_error(list_view(values), list_view(timestamps)),
            n == value_items@.len(),
            n == time_items@.len(),
            item_error(value_items@, time_items@, i as nat) is None,
            samples@ == payload_samples(value_items@, time_items@).take(i as int),
        decreases n - i,
    {
        let value: u64 = match value_items[i] {
            Some(value) => value,
            None => {
                proof {
                    lemma_item_error_stays(value_items@, time_items@, (i + 1) as nat, n as nat);
                }
                return Err(IngestError::InvalidValue);
            },
        };
        let whole: u64 = match time_items[i] {
            Some(whole) => whole,
            None => {
                proof {
                    lemma_item_error_stays(value_items@, time_items@, (i + 1) as nat, n as nat);
                }
                return Err(IngestError::InvalidTimestamp);
            },
        };
        assert(whole > 0x7fff_ffff_ffff_ffffu64 ==> (whole as i64) == whole
            - 0x1_0000_0000_0000_0000) by (bit_vector);
        samples.push(Sample::new(whole as i64, value));
        assert(samples@ =~= payload_samples(value_items@, time_items@).take(i + 1));
        i = i + 1;
    }
    assert(samples@ =~= payload_samples(value_items@, time_items@));
    sort_by_time(&mut samples);
    Ok(samples)
}

proof fn lemma_item_error_stays(
    values: Seq<Option<u64>>,
    timestamps: Seq<Option<u64>>,
    n: nat,
    m: nat,
)
    requires
        n <= m,
        item_error(values, timestamps, n) is Some,
    ensures
        item_error(values, timestamps, m) == item_error(values, timestamps, n),
    decreases m,
{
    if n < m {
        lemma_item_error_stays(values, timestamps, n, (m - 1) as nat);
    }
}

/// The bits of a number, as a function.
pub open spec fn float_item() -> spec_fn(Json) -> Option<u64> {
    |item: Json| item.float()
}

/// A whole number from 0 on, as a function.
pub open spec fn whole_item() -> spec_fn(Json) -> Option<u64> {
    |item: Json| item.whole()
}

/// What the array under `key` comes to, item by item; none where there is no array under it.
pub open spec fn list_of(doc: Json, key: Seq<char>, item: spec_fn(Json) -> Option<u64>) -> Option<
    Seq<Option<u64>>,
> {
    match doc.field(key) {
        Some(Json::Array(elements)) => Some(elements.map_values(item)),
        _ => None,
    }
}

/// The numbers under `key`.
fn float_list(doc: &simd_json::tape::Value, key: &str) -> (r: Option<Vec<Option<u64>>>)
    ensures
        list_view(r) == list_of(crate::json::json_of(*doc), key@, float_item()),
{
    let array: simd_json::tape::Array = match object_get(doc, key) {
        None => return None,
        Some(field) => match as_array(&field) {
            None => return None,
            Some(array) => array,
        },
    };
    let items: Vec<simd_json::tape::Value> = array_items(&array);
    let ghost elements = crate::json::array_json(array);
    let mut r: Vec<Option<u64>> = Vec::with_capacity(items.len());
    let mut i: usize = 0;
    while i < items.len()
        invariant
            i <= items@.len(),
            elements == items@.map_values(crate::json::json_view()),
            r@ == elements.map_values(float_item()).take(i as int),
        decreases items@.len() - i,
    {
        r.push(cast_bits(&items[i]));
        assert(r@ =~= elements.map_values(float_item()).take(i + 1));
        i = i + 1;
    }
    assert(r@ =~= elements.map_values(float_item()));
    Some(r)
}

/// The whole numbers under `key`.
fn whole_list(doc: &simd_json::tape::Value, key: &str) -> (r: Option<Vec<Option<u64>>>)
    ensures
        list_view(r) == list_of(crate::json::json_of(*doc), key@, whole_item()),
{
    let array: simd_json::tape::Array = match object_get(doc, key) {
        None => return None,
        Some(field) => match as_array(&field) {
            None => return None,
            Some(array) => array,
        },
    };
    let items: Vec<simd_json::tape::Value> = array_items(&array);
    let ghost elements = crate::json::array_json(array);
    let mut r: Vec<Option<u64>> = Vec::with_capacity(items.len());
    let mut i: usize = 0;
    while i < items.len()
        invariant
            i <= items@.len(),
            elements == items@.map_values(crate::json::json_view()),
            r@ == elements.map_values(whole_item()).take(i as int),
        decreases items@.len() - i,
    {
        r.push(as_whole(&items[i]));
        assert(r@ =~= elements.map_values(whole_item()).take(i + 1));
        i = i + 1;
    }
    assert(r@ =~= elements.map_values(whole_item()));
    Some(r)
}

/// Whether `r` is the outcome of a payload with these values and timestamps.
pub open spec fn is_outcome(
    r: Result<IngestedSamples, IngestError>,
    values: Option<Seq<Option<u64>>>,
    timestamps: Option<Seq<Option<u64>>>,
) -> bool {
    match r {
        Ok(ingested) => payload_error(values, timestamps) is None && ingested.samples@
            == crate::sorting::stable_sort(
            payload_samples(values->0, timestamps->0),
            crate::sorting::time_of::<Sample>(),
        ) && ingested.metric_name@.len() == 0 && ingested.key@.len() == 0,
        Err(e) => payload_error(values, timestamps) == Some(e),
    }
}

/// Whether a payload gives a metric, and neither a key nor a metric name.
pub open spec fn lacks_key(doc: Json) -> bool {
    doc.field("metric"@) is Some && doc.field("key"@) is None && doc.field("metric_name"@) is None
}

/// Whether `r` is the outcome of a payload that says `doc`. A metric needs a key or a metric name;
/// else it is the outcome of the numbers under `values` and the whole numbers under `timestamps`.
pub open spec fn reads_as(doc: Json, r: Result<IngestedSamples, IngestError>) -> bool {
    if lacks_key(doc) {
        r is Err && r->Err_0 is MissingKey
    } else {
        is_outcome(
            r,
            list_of(doc, "values"@, float_item()),
            list_of(doc, "timestamps"@, whole_item()),
        )
    }
}

/// Whether `r` is the outcome of a payload. One that is no JSON is refused in words of the parser.
pub open spec fn parses_to(text: Seq<u8>, r: Result<IngestedSamples, IngestError>) -> bool {
    match crate::json::json_text(text) {
        Ok(doc) => reads_as(doc, r),
        Err(refusals) => match r {
            Err(IngestError::InvalidJson(words)) => refusals.contains(words@),
            _ => false,
        },
    }
}

/// Reads the samples of a parsed payload.
fn read_document(doc: &simd_json::tape::Value) -> (r: Result<IngestedSamples, IngestError>)
    ensures
        reads_as(crate::json::json_of(*doc), r),
{
    if object_get(doc, "metric").is_some() && object_get(doc, "key").is_none() && object_get(
        doc,
        "metric_name",
    ).is_none() {
        return Err(IngestError::MissingKey);
    }
    let values: Option<Vec<Option<u64>>> = float_list(doc, "values");
    let timestamps: Option<Vec<Option<u64>>> = whole_list(doc, "timestamps");
    match collect_samples(values, timestamps) {
        Ok(samples) => Ok(
            IngestedSamples { metric_name: String::new(), key: String::new(), samples },
        ),
        Err(e) => Err(e),
    }
}

impl IngestedSamples {
    /// The samples of a JSON payload: an object with the arrays `values` and `timestamps`.
    pub fn from_json_lines(input: &mut [u8]) -> (r: Result<Self, IngestError>)
        ensures
            parses_to(old(input)@, r),
    {
        match parse_tape(input) {
            Ok(tape) => read_document(&root(&tape)),
            Err(e) => Err(IngestError::InvalidJson(error_text(&e))),
        }
    }
}

/// The samples of an accepted payload are in order of time, items at the same time in the order of
/// the payload; there is at least one of them, one for each value, and no more than are allowed.
pub proof fn law_payload_in_order(values: Seq<Option<u64>>, timestamps: Seq<Option<u64>>)
    requires
        payload_error(Some(values), Some(timestamps)) is None,
    ensures
        ({
            let given = payload_samples(values, timestamps);
            let sorted = crate::sorting::stable_sort(
                given,
                crate::sorting::time_of::<Sample>(),
            );
            &&& crate::sorting::in_order(sorted, crate::sorting::time_of::<Sample>())
            &&& sorted.to_multiset() == given.to_multiset()
            &&& sorted.len() == values.len() == timestamps.len()
            &&& 1 <= sorted.len() <= MAX_SAMPLES_PER_INSERT
            &&& forall|k: i64|
                #[trigger] crate::sorting::with_key(
                    sorted,
                    crate::sorting::time_of::<Sample>(),
                    k,
                ) == crate::sorting::with_key(given, crate::sorting::time_of::<Sample>(), k)
        }),
{
    crate::sorting::law_stable_sort(
        payload_samples(values, timestamps),
        crate::sorting::time_of::<Sample>(),
    );
}

/// The outcome of a payload is settled by its text: the same samples, or the same error, but for the
/// words in which a text that is no JSON is refused.
pub proof fn law_payload_settled(
    text: Seq<u8>,
    a: Result<IngestedSamples, IngestError>,
    b: Result<IngestedSamples, IngestError>,
)
    requires
        parses_to(text, a),
        parses_to(text, b),
    ensures
        match (a, b) {
            (Ok(x), Ok(y)) => x.samples@ == y.samples@ && x.metric_name@ == y.metric_name@
                && x.key@ == y.key@,
            (Err(x), Err(y)) => x == y || x is InvalidJson && y is InvalidJson,
            _ => false,
        },
{
}

/// Whether a field of this name is read from a payload.
pub open spec fn is_read(key: Seq<char>) -> bool {
    key == "metric"@ || key == "key"@ || key == "metric_name"@ || key == "values"@ || key
        == "timestamps"@
}

proof fn lemma_field_elsewhere(
    fields: Seq<(Seq<char>, Json)>,
    at: int,
    extra: (Seq<char>, Json),
    key: Seq<char>,
)
    requires
        0 <= at <= fields.len(),
        extra.0 != key,
    ensures
        crate::json::first_field(fields.insert(at, extra), key) == crate::json::first_field(
            fields,
            key,
        ),
    decreases fields.len(),
{
    let more = fields.insert(at, extra);
    if at == 0 {
        assert(more.drop_first() =~= fields);
    } else {
        assert(more[0] == fields[0]);
        assert(more.drop_first() =~= fields.drop_first().insert(at - 1, extra));
        lemma_field_elsewhere(fields.drop_first(), at - 1, extra, key);
    }
}

/// A field that is not read does not matter to a payload, whatever it holds and wherever it stands.
pub proof fn law_other_fields_do_not_matter(
    fields: Seq<(Seq<char>, Json)>,
    at: int,
    key: Seq<char>,
    value: Json,
    r: Result<IngestedSamples, IngestError>,
)
    requires
        0 <= at <= fields.len(),
        !is_read(key),
    ensures
        reads_as(Json::Object(fields.insert(at, (key, value))), r) == reads_as(
            Json::Object(fields),
            r,
        ),
{
    lemma_field_elsewhere(fields, at, (key, value), "metric"@);
    lemma_field_elsewhere(fields, at, (key, value), "key"@);
    lemma_field_elsewhere(fields, at, (key, value), "metric_name"@);
    lemma_field_elsewhere(fields, at, (key, value), "values"@);
    lemma_field_elsewhere(fields, at, (key, value), "timestamps"@);
}

/// Of several fields of the same name the first one is read.
pub proof fn law_first_field_counts(
    fields: Seq<(Seq<char>, Json)>,
    at: int,
    key: Seq<char>,
    value: Json,
    r: Result<IngestedSamples, IngestError>,
)
    requires
        0 <= at <= fields.len(),
        exists|i: int| 0 <= i < at && (#[trigger] fields[i]).0 == key,
    ensures
        reads_as(Json::Object(fields.insert(at, (key, value))), r) == reads_as(
            Json::Object(fields),
            r,
        ),
{
    lemma_field_again(fields, at, (key, value), "metric"@);
    lemma_field_again(fields, at, (key, value), "key"@);
    lemma_field_again(fields, at, (key, value), "metric_name"@);
    lemma_field_again(fields, at, (key, value), "values"@);
    lemma_field_again(fields, at, (key, value), "timestamps"@);
}

proof fn lemma_field_again(
    fields: Seq<(Seq<char>, Json)>,
    at: int,
    extra: (Seq<char>, Json),
    key: Seq<char>,
)
    requires
        0 <= at <= fields.len(),
        exists|i: int| 0 <= i < at && (#[trigger] fields[i]).0 == extra.0,
    ensures
        crate::json::first_field(fields.insert(at, extra), key) == crate::json::first_field(
            fields,
            key,
        ),
    decreases fields.len(),
{
    let more = fields.insert(at, extra);
    let i = choose|i: int| 0 <= i < at && (#[trigger] fields[i]).0 == extra.0;
    assert(more[0] == fields[0]);
    assert(more.drop_first() =~= fields.drop_first().insert(at - 1, extra));
    if fields[0].0 != key {
        if i > 0 {
            assert(fields.drop_first()[i - 1].0 == extra.0);
            lemma_field_again(fields.drop_first(), at - 1, extra, key);
        } else {
            lemma_field_elsewhere(fields.drop_first(), at - 1, extra, key);
        }
    }
}

/// A payload is accepted just where it has as many values as timestamps, at least one of them and no
/// more than are allowed, every value a number and every timestamp a whole number from 0 on.
pub proof fn law_payload_accepted(
    values: Option<Seq<Option<u64>>>,
    timestamps: Option<Seq<Option<u64>>>,
)
    ensures
        payload_error(values, timestamps) is None <==> {
            &&& values is Some
            &&& timestamps is Some
            &&& values->0.len() == timestamps->0.len()
            &&& 0 < values->0.len() <= MAX_SAMPLES_PER_INSERT
            &&& forall|i: int|
                0 <= i < values->0.len() ==> (#[trigger] values->0[i]) is Some
                    && timestamps->0[i] is Some
        },
{
    if values is Some && timestamps is Some && values->0.len() == timestamps->0.len() {
        lemma_first_bad_item(values->0, timestamps->0, values->0.len());
    }
}

/// The first bad item decides: its value before its timestamp.
proof fn lemma_first_bad_item(values: Seq<Option<u64>>, timestamps: Seq<Option<u64>>, n: nat)
    requires
        n <= values.len(),
        n <= timestamps.len(),
    ensures
        match item_error(values, timestamps, n) {
            None => forall|i: int|
                0 <= i < n ==> (#[trigger] values[i]) is Some && timestamps[i] is Some,
            Some(e) => exists|k: int|
                0 <= k < n && #[trigger] bad_item(values, timestamps, k) && (e is InvalidValue
                    <==> values[k] is None) && (e is InvalidTimestamp <==> values[k] is Some),
        },
    decreases n,
{
    if n > 0 {
        let m = (n - 1) as nat;
        lemma_first_bad_item(values, timestamps, m);
        if item_error(values, timestamps, m) is None && item_error(values, timestamps, n) is Some {
            assert(bad_item(values, timestamps, n - 1));
        }
    }
}

/// Whether the item at `k` is the first bad one.
pub open spec fn bad_item(
    values: Seq<Option<u64>>,
    timestamps: Seq<Option<u64>>,
    k: int,
) -> bool {
    &&& values[k] is None || timestamps[k] is None
    &&& forall|i: int| 0 <= i < k ==> (#[trigger] values[i]) is Some && timestamps[i] is Some
}

/// What a payload is refused for: lists that are missing, then lists without items, then lists of
/// different lengths, then too many items, then the first bad item, its value before its timestamp.
pub proof fn law_payload_refused(
    values: Option<Seq<Option<u64>>>,
    timestamps: Option<Seq<Option<u64>>>,
    k: int,
)
    ensures
        ({
            let error = payload_error(values, timestamps);
            let (v, t) = (values->0, timestamps->0);
            let both = values is Some && timestamps is Some;
            let some = both && v.len() > 0 && t.len() > 0;
            let even = some && v.len() == t.len();
            let few = even && v.len() <= MAX_SAMPLES_PER_INSERT;
            &&& values is None ==> error is Some && error->0 is MissingValues
            &&& values is Some && timestamps is None ==> error is Some
                && error->0 is MissingTimestamps
            &&& both && !some ==> error is Some && error->0 is NoSamples
            &&& some && !even ==> error is Some && error->0 is LengthMismatch
            &&& even && !few ==> error is Some && error->0 is TooManySamples
            &&& few && 0 <= k < v.len() && bad_item(v, t, k) ==> error is Some && if v[k] is None {
                error->0 is InvalidValue
            } else {
                error->0 is InvalidTimestamp
            }
        }),
{
    if values is Some && timestamps is Some && values->0.len() == timestamps->0.len() && 0 <= k
        < values->0.len() && bad_item(values->0, timestamps->0, k) {
        let (v, t) = (values->0, timestamps->0);
        lemma_first_bad_item(v, t, k as nat);
        if item_error(v, t, k as nat) is Some {
            let j = choose|j: int| 0 <= j < k && #[trigger] bad_item(v, t, j);
            assert(v[j] is Some && t[j] is Some);
        }
        assert(item_error(v, t, (k + 1) as nat) is Some);
        lemma_item_error_stays(v, t, (k + 1) as nat, v.len());
    }
}

/// Each value of an accepted payload stands in the outcome at the timestamp of the same place, and what
/// stands in the outcome comes from such a place. A timestamp that fits is as it is given, and one that
/// does not wraps round.
pub proof fn law_payload_keeps_pairs(values: Seq<Option<u64>>, timestamps: Seq<Option<u64>>, x: Sample)
    requires
        payload_error(Some(values), Some(timestamps)) is None,
    ensures
        crate::sorting::stable_sort(
            payload_samples(values, timestamps),
            crate::sorting::time_of::<Sample>(),
        ).contains(x) <==> exists|i: int|
            0 <= i < values.len() && #[trigger] values[i] == Some(x.value) && timestamps[i] is Some
                && (x.timestamp - timestamps[i]->0) % 0x1_0000_0000_0000_0000 == 0,
{
    broadcast use vstd::seq_lib::group_to_multiset_ensures;

    let given = payload_samples(values, timestamps);
    let key = crate::sorting::time_of::<Sample>();
    let sorted = crate::sorting::stable_sort(given, key);
    crate::sorting::law_stable_sort(given, key);
    law_payload_accepted(Some(values), Some(timestamps));
    assert(sorted.contains(x) <==> sorted.to_multiset().count(x) > 0);
    assert(given.contains(x) <==> given.to_multiset().count(x) > 0);
    if given.contains(x) {
        let i = choose|i: int| 0 <= i < given.len() && given[i] == x;
        assert(values[i] is Some && timestamps[i] is Some);
        assert(values[i] == Some(x.value));
    }
    if exists|i: int|
        0 <= i < values.len() && #[trigger] values[i] == Some(x.value) && timestamps[i] is Some && (
        x.timestamp - timestamps[i]->0) % 0x1_0000_0000_0000_0000 == 0 {
        let i = choose|i: int|
            0 <= i < values.len() && #[trigger] values[i] == Some(x.value) && timestamps[i] is Some
                && (x.timestamp - timestamps[i]->0) % 0x1_0000_0000_0000_0000 == 0;
        assert(given[i] == x);
    }
}

/// A payload that gives a metric, and neither a key nor a metric name, is refused for that, whatever
/// else it gives; no other payload is.
pub proof fn law_metric_needs_key(doc: Json, r: Result<IngestedSamples, IngestError>)
    requires
        reads_as(doc, r),
    ensures
        r is Err && r->Err_0 is MissingKey <==> doc.field("metric"@) is Some && doc.field(
            "key"@,
        ) is None && doc.field("metric_name"@) is None,
{
    let values = list_of(doc, "values"@, float_item());
    let timestamps = list_of(doc, "timestamps"@, whole_item());
    if values is Some && timestamps is Some && values->0.len() == timestamps->0.len() {
        lemma_first_bad_item(values->0, timestamps->0, values->0.len());
    }
}

} // verus!
