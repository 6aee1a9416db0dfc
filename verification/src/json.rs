//! JSON texts, as the payload of an ingestion is given.
use simd_json::prelude::ValueAsScalar;
use vstd::prelude::*;

use crate::binary64;

verus! {

/// A parsed JSON text.
#[verifier::external_type_specification]
#[verifier::external_body]
pub struct ExTape<'input>(simd_json::Tape<'input>);

/// A value of a parsed JSON text.
#[verifier::external_type_specification]
#[verifier::external_body]
pub struct ExTapeValue<'tape, 'input>(simd_json::tape::Value<'tape, 'input>) where 'input: 'tape;

/// An array of a parsed JSON text.
#[verifier::external_type_specification]
#[verifier::external_body]
pub struct ExTapeArray<'tape, 'input>(simd_json::tape::Array<'tape, 'input>);

/// Why a text is no JSON.
#[verifier::external_type_specification]
#[verifier::external_body]
pub struct ExError(simd_json::Error);

/// What a JSON text says. A number is an integer where it is written as one and fits, and else
/// the bits of a binary64 number; an object is its fields, in the order of the text.
pub enum Json {
    Null,
    Bool(bool),
    Signed(i64),
    Unsigned(u64),
    Float(u64),
    Text(Seq<char>),
    Array(Seq<Json>),
    Object(Seq<(Seq<char>, Json)>),
}

/// The value of the first field with a key.
pub open spec fn first_field(fields: Seq<(Seq<char>, Json)>, key: Seq<char>) -> Option<Json>
    decreases fields.len(),
{
    if fields.len() == 0 {
        None
    } else {
        let (name, value) = fields[0];
        if name == key {
            Some(value)
        } else {
            first_field(fields.drop_first(), key)
        }
    }
}

impl Json {
    /// The bits of the binary64 number nearest to a number.
    pub open spec fn float(self) -> Option<u64> {
        match self {
            Json::Signed(n) => Some(binary64::of_int(n as int)),
            Json::Unsigned(n) => Some(binary64::of_int(n as int)),
            Json::Float(bits) => Some(bits),
            _ => None,
        }
    }

    /// A whole number from 0 on.
    pub open spec fn whole(self) -> Option<u64> {
        match self {
            Json::Signed(n) => if n >= 0 {
                Some(n as u64)
            } else {
                None
            },
            Json::Unsigned(n) => Some(n),
            _ => None,
        }
    }

    /// The value of the first field `key` of an object; none where there is no such field, or no
    /// object.
    pub open spec fn field(self, key: Seq<char>) -> Option<Json> {
        match self {
            Json::Object(fields) => first_field(fields, key),
            _ => None,
        }
    }
}

/// What a text says, or the words in which the parser refuses it. What it says, and whether it is
/// refused, goes by the text alone; the words go by the machine too, so that all those are held that
/// one machine or another gives.
pub uninterp spec fn json_text(text: Seq<u8>) -> Result<Json, Set<Seq<char>>>;

/// What a parsed text says.
pub uninterp spec fn tape_json(tape: simd_json::Tape) -> Json;

/// What a value of a parsed text says.
pub uninterp spec fn json_of(value: simd_json::tape::Value) -> Json;

/// What the items of an array of a parsed text say.
pub uninterp spec fn array_json(array: simd_json::tape::Array) -> Seq<Json>;

/// The words of an error.
pub uninterp spec fn error_words(error: simd_json::Error) -> Seq<char>;

/// What a value of a parsed text says, as a function.
pub open spec fn json_view<'t, 'i>() -> spec_fn(simd_json::tape::Value<'t, 'i>) -> Json {
    |value: simd_json::tape::Value<'t, 'i>| json_of(value)
}

/// Parses a text, however deeply it is nested.
///
/// Calls `simd_json::to_tape`. What a text says, and which texts are refused, is named and not stated;
/// claimed is that both go by the text alone. In which words a text is refused is left open: where an
/// escape in a string is wrong, the place that the error tells is counted from the start of the text
/// or of the string, by the instructions that the machine has.
#[verifier::external_body]
pub(crate) fn parse_tape<'a>(text: &'a mut [u8]) -> (r: Result<
    simd_json::Tape<'a>,
    simd_json::Error,
>)
    ensures
        match r {
            Ok(tape) => json_text(old(text)@) == Ok::<Json, Set<Seq<char>>>(tape_json(tape)),
            Err(error) => json_text(old(text)@) is Err && json_text(
                old(text)@,
            )->Err_0.contains(error_words(error)),
        },
{
    simd_json::to_tape(text)
}

/// The words of an error.
///
/// Calls the `Display` of `simd_json::Error`, of which it is claimed that it goes by the error alone.
#[verifier::external_body]
pub(crate) fn error_text(error: &simd_json::Error) -> (r: String)
    ensures
        r@ == error_words(*error),
{
    format!("{error}")
}

/// The value that a parsed text is.
///
/// Calls `Tape::as_value`, of which it is claimed that it gives the outermost value.
#[verifier::external_body]
pub(crate) fn root<'t, 'i>(tape: &'t simd_json::Tape<'i>) -> (r: simd_json::tape::Value<'t, 'i>)
    ensures
        json_of(r) == tape_json(*tape),
{
    tape.as_value()
}

/// The field of an object.
///
/// Calls `tape::Value::get`, of which it is claimed that it gives the value of the first field with
/// that key, and none just where there is no such field or no object.
#[verifier::external_body]
pub(crate) fn object_get<'t, 'i>(value: &simd_json::tape::Value<'t, 'i>, key: &str) -> (r: Option<
    simd_json::tape::Value<'t, 'i>,
>)
    ensures
        match r {
            Some(found) => json_of(*value).field(key@) == Some(json_of(found)),
            None => json_of(*value).field(key@) is None,
        },
{
    value.get(key)
}

/// The array that a value is.
///
/// Calls `tape::Value::as_array`, of which it is claimed that it gives an array with its items, and
/// none for any other value.
#[verifier::external_body]
pub(crate) fn as_array<'t, 'i>(value: &simd_json::tape::Value<'t, 'i>) -> (r: Option<
    simd_json::tape::Array<'t, 'i>,
>)
    ensures
        match r {
            Some(array) => json_of(*value) == Json::Array(array_json(array)),
            None => !(json_of(*value) is Array),
        },
{
    value.as_array()
}

/// The items of an array.
///
/// Calls `tape::Array::iter`, of which it is claimed that it goes through the items in order.
#[verifier::external_body]
pub(crate) fn array_items<'t, 'i>(array: &simd_json::tape::Array<'t, 'i>) -> (r: Vec<
    simd_json::tape::Value<'t, 'i>,
>)
    ensures
        r@.map_values(json_view()) == array_json(*array),
{
    array.iter().collect()
}

/// The bits of a number.
///
/// Calls `ValueAsScalar::cast_f64`, of which it is claimed that it gives a binary64 number as it is,
/// an integer as the nearest one, and none for any other value.
#[verifier::external_body]
pub(crate) fn cast_bits(value: &simd_json::tape::Value) -> (r: Option<u64>)
    ensures
        r == json_of(*value).float(),
{
    match value.cast_f64() {
        Some(number) => Some(number.to_bits()),
        None => None,
    }
}

/// A whole number from 0 on.
///
/// Calls `ValueAsScalar::as_u64`, of which it is claimed that it gives an integer that is not
/// negative, and none for any other value.
#[verifier::external_body]
pub(crate) fn as_whole(value: &simd_json::tape::Value) -> (r: Option<u64>)
    ensures
        r == json_of(*value).whole(),
{
    value.as_u64()
}

} // verus!
