//! The options that a series is made with, as the arguments of a command give them.
use vstd::prelude::*;
use vstd::string::StrSliceExecFns;

use crate::chunk::{ChunkEncoding, SAMPLE_SIZE};
use crate::common::DuplicatePolicy;
use crate::ignore::IgnoreLimits;
use crate::series::{
    Label, Rounding, SampleDuplicatePolicy, SeriesRef, SeriesView, TimeSeries, DEFAULT_CHUNK_SIZE,
};

verus! {

/// The most significant digits that a value can be rounded to.
pub const MAX_SIGNIFICANT_DIGITS: u64 = 18;

/// Why options are refused; holds the place of the argument that is at fault.
#[derive(Debug, Clone, Copy, PartialEq, Eq, Structural)]
pub enum OptionError {
    /// No option has this name.
    UnknownOption(usize),
    /// The option is not followed by all of its values.
    MissingValue(usize),
    /// The value is no whole number that is allowed here.
    InvalidNumber(usize),
    /// The value is none of the words that are allowed here.
    InvalidWord(usize),
    /// The option excludes one that is given before.
    Exclusive(usize),
}

/// The options of a series. A text stands as the place of its argument.
#[derive(Debug, Clone, Copy, PartialEq, Eq)]
pub struct SeriesOptions {
    pub retention: Option<u64>,
    pub duplicate_policy: Option<DuplicatePolicy>,
    /// The policy for this command alone.
    pub on_duplicate: Option<DuplicatePolicy>,
    pub encoding: Option<ChunkEncoding>,
    pub chunk_size: Option<u64>,
    /// The place of the metric.
    pub metric: Option<usize>,
    /// The place of the first label name, and the place behind the last label value.
    pub labels: Option<(usize, usize)>,
    /// The largest distance in time, and the place of the largest distance between values.
    pub ignore: Option<(u64, usize)>,
    pub rounding: Option<Rounding>,
}

/// No option.
pub open spec fn no_options() -> SeriesOptions {
    SeriesOptions {
        retention: None,
        duplicate_policy: None,
        on_duplicate: None,
        encoding: None,
        chunk_size: None,
        metric: None,
        labels: None,
        ignore: None,
        rounding: None,
    }
}

/// The names of the options.
#[derive(Debug, Clone, Copy, PartialEq, Eq, Structural)]
pub enum Keyword {
    Retention,
    DuplicatePolicy,
    OnDuplicate,
    Encoding,
    ChunkSize,
    Metric,
    Labels,
    Ignore,
    SignificantDigits,
    DecimalDigits,
}

/// A character, a letter from a to z as a capital.
pub open spec fn capital(c: char) -> char {
    if 'a' <= c <= 'z' {
        ((c as u32 - 32) as u32) as char
    } else {
        c
    }
}

/// Whether two texts are the same but for the case of their letters.
pub open spec fn same_word(a: Seq<char>, b: Seq<char>) -> bool {
    a.len() == b.len() && forall|i: int|
        0 <= i < a.len() ==> capital(#[trigger] a[i]) == capital(b[i])
}

/// The option that a text names.
pub open spec fn keyword_of(text: Seq<char>) -> Option<Keyword> {
    if same_word(text, "RETENTION"@) {
        Some(Keyword::Retention)
    } else if same_word(text, "DUPLICATE_POLICY"@) {
        Some(Keyword::DuplicatePolicy)
    } else if same_word(text, "ON_DUPLICATE"@) {
        Some(Keyword::OnDuplicate)
    } else if same_word(text, "ENCODING"@) {
        Some(Keyword::Encoding)
    } else if same_word(text, "CHUNK_SIZE"@) {
        Some(Keyword::ChunkSize)
    } else if same_word(text, "METRIC"@) {
        Some(Keyword::Metric)
    } else if same_word(text, "LABELS"@) {
        Some(Keyword::Labels)
    } else if same_word(text, "IGNORE"@) {
        Some(Keyword::Ignore)
    } else if same_word(text, "SIGNIFICANT_DIGITS"@) {
        Some(Keyword::SignificantDigits)
    } else if same_word(text, "DECIMAL_DIGITS"@) {
        Some(Keyword::DecimalDigits)
    } else {
        None
    }
}

/// The policy that a text names.
pub open spec fn policy_of(text: Seq<char>) -> Option<DuplicatePolicy> {
    if same_word(text, "BLOCK"@) {
        Some(DuplicatePolicy::Block)
    } else if same_word(text, "FIRST"@) {
        Some(DuplicatePolicy::KeepFirst)
    } else if same_word(text, "LAST"@) {
        Some(DuplicatePolicy::KeepLast)
    } else if same_word(text, "MIN"@) {
        Some(DuplicatePolicy::Min)
    } else if same_word(text, "MAX"@) {
        Some(DuplicatePolicy::Max)
    } else if same_word(text, "SUM"@) {
        Some(DuplicatePolicy::Sum)
    } else {
        None
    }
}

/// The encoding that a text names.
pub open spec fn encoding_of(text: Seq<char>) -> Option<ChunkEncoding> {
    if same_word(text, "COMPRESSED"@) {
        Some(ChunkEncoding::Compressed)
    } else if same_word(text, "UNCOMPRESSED"@) {
        Some(ChunkEncoding::Uncompressed)
    } else {
        None
    }
}

/// The value of a run of decimal digits.
pub open spec fn decimal_value(text: Seq<char>) -> nat
    decreases text.len(),
{
    if text.len() == 0 {
        0
    } else {
        10 * decimal_value(text.drop_last()) + (text.last() as u32 - '0' as u32) as nat
    }
}

/// Whether every character is a decimal digit.
pub open spec fn all_digits(text: Seq<char>) -> bool {
    forall|i: int| 0 <= i < text.len() ==> '0' <= #[trigger] text[i] <= '9'
}

/// The whole number that a text writes down; none where it is none or does not fit.
pub open spec fn number_of(text: Seq<char>) -> Option<u64> {
    if text.len() > 0 && all_digits(text) && decimal_value(text) <= u64::MAX {
        Some(decimal_value(text) as u64)
    } else {
        None
    }
}

fn capital_of(c: char) -> (r: char)
    ensures
        r == capital(c),
{
    if 'a' <= c && c <= 'z' {
        (((c as u32) - 32) as u8) as char
    } else {
        c
    }
}

/// Whether two texts are the same but for the case of their letters.
fn is_word(text: &str, word: &str) -> (r: bool)
    ensures
        r == same_word(text@, word@),
{
    let n: usize = text.unicode_len();
    if n != word.unicode_len() {
        return false;
    }
    let mut i: usize = 0;
    while i < n
        invariant
            i <= n,
            n == text@.len(),
            n == word@.len(),
            forall|k: int| 0 <= k < i ==> capital(#[trigger] text@[k]) == capital(word@[k]),
        decreases n - i,
    {
        if capital_of(text.get_char(i)) != capital_of(word.get_char(i)) {
            return false;
        }
        i = i + 1;
    }
    true
}

proof fn lemma_value_grows(text: Seq<char>, n: int)
    requires
        0 <= n <= text.len(),
        all_digits(text),
    ensures
        decimal_value(text.take(n)) <= decimal_value(text),
    decreases text.len(),
{
    if n < text.len() {
        assert(all_digits(text.drop_last())) by {
            assert forall|i: int| 0 <= i < text.drop_last().len() implies '0'
                <= #[trigger] text.drop_last()[i] <= '9' by {
                assert(text.drop_last()[i] == text[i]);
            }
        }
        lemma_value_grows(text.drop_last(), n);
        assert(text.drop_last().take(n) =~= text.take(n));
    } else {
        assert(text.take(n) =~= text);
    }
}

/// The whole number that a text writes down.
pub fn parse_number(text: &str) -> (r: Option<u64>)
    ensures
        r == number_of(text@),
{
    let n: usize = text.unicode_len();
    if n == 0 {
        return None;
    }
    let mut value: u64 = 0;
    let mut i: usize = 0;
    while i < n
        invariant
            i <= n,
            n == text@.len(),
            value == decimal_value(text@.take(i as int)),
            forall|k: int| 0 <= k < i ==> '0' <= #[trigger] text@[k] <= '9',
        decreases n - i,
    {
        let c: char = text.get_char(i);
        if c < '0' || c > '9' {
            assert(!('0' <= text@[i as int] <= '9'));
            return None;
        }
        let digit: u64 = ((c as u32) - ('0' as u32)) as u64;
        proof {
            assert(text@.take(i + 1).drop_last() =~= text@.take(i as int));
            assert(text@.take(i + 1).last() == c);
            if all_digits(text@) {
                lemma_value_grows(text@, i + 1);
            }
        }
        match value.checked_mul(10) {
            Some(tens) => match tens.checked_add(digit) {
                Some(sum) => {
                    value = sum;
                },
                None => return None,
            },
            None => return None,
        }
        i = i + 1;
    }
    assert(text@.take(i as int) =~= text@);
    Some(value)
}

/// Where the labels that start at `j` end: at an option or behind the last argument. None where a
/// name has no value.
pub open spec fn labels_end(args: Seq<Seq<char>>, j: int) -> Option<int>
    decreases args.len() - j,
{
    if j >= args.len() || keyword_of(args[j]) is Some {
        Some(j)
    } else if j + 1 >= args.len() {
        None
    } else {
        labels_end(args, j + 2)
    }
}

/// The whole number at `i`, from `min` to `max`.
pub open spec fn bounded_number(args: Seq<Seq<char>>, i: int, min: u64, max: u64) -> Result<
    u64,
    OptionError,
> {
    match number_of(args[i]) {
        Some(n) => if min <= n <= max {
            Ok(n)
        } else {
            Err(OptionError::InvalidNumber(i as usize))
        },
        None => Err(OptionError::InvalidNumber(i as usize)),
    }
}

/// The largest size of a chunk.
pub open spec fn max_chunk_size() -> u64 {
    if usize::MAX < u64::MAX {
        usize::MAX as u64
    } else {
        u64::MAX
    }
}

/// The option `k` at `i` taken in: where the next one starts, and the options with it.
pub open spec fn option_at(args: Seq<Seq<char>>, i: int, k: Keyword, o: SeriesOptions) -> Result<
    (int, SeriesOptions),
    OptionError,
> {
    if k is Labels {
        if o.metric is Some {
            Err(OptionError::Exclusive(i as usize))
        } else {
            match labels_end(args, i + 1) {
                Some(end) => Ok(
                    (
                        end,
                        SeriesOptions { labels: Some(((i + 1) as usize, end as usize)), ..o },
                    ),
                ),
                None => Err(OptionError::MissingValue(i as usize)),
            }
        }
    } else if i + 1 >= args.len() || (k is Ignore && i + 2 >= args.len()) {
        Err(OptionError::MissingValue(i as usize))
    } else {
        match k {
            Keyword::Retention => match bounded_number(args, i + 1, 0, u64::MAX) {
                Ok(n) => Ok((i + 2, SeriesOptions { retention: Some(n), ..o })),
                Err(e) => Err(e),
            },
            Keyword::DuplicatePolicy => match policy_of(args[i + 1]) {
                Some(p) => Ok((i + 2, SeriesOptions { duplicate_policy: Some(p), ..o })),
                None => Err(OptionError::InvalidWord((i + 1) as usize)),
            },
            Keyword::OnDuplicate => match policy_of(args[i + 1]) {
                Some(p) => Ok((i + 2, SeriesOptions { on_duplicate: Some(p), ..o })),
                None => Err(OptionError::InvalidWord((i + 1) as usize)),
            },
            Keyword::Encoding => match encoding_of(args[i + 1]) {
                Some(e) => Ok((i + 2, SeriesOptions { encoding: Some(e), ..o })),
                None => Err(OptionError::InvalidWord((i + 1) as usize)),
            },
            Keyword::ChunkSize => match bounded_number(
                args,
                i + 1,
                SAMPLE_SIZE as u64,
                max_chunk_size(),
            ) {
                Ok(n) => Ok((i + 2, SeriesOptions { chunk_size: Some(n), ..o })),
                Err(e) => Err(e),
            },
            Keyword::Metric => if o.labels is Some {
                Err(OptionError::Exclusive(i as usize))
            } else {
                Ok((i + 2, SeriesOptions { metric: Some((i + 1) as usize), ..o }))
            },
            Keyword::Ignore => match bounded_number(args, i + 1, 0, u64::MAX) {
                Ok(n) => Ok((i + 3, SeriesOptions { ignore: Some((n, (i + 2) as usize)), ..o })),
                Err(e) => Err(e),
            },
            Keyword::SignificantDigits => if o.rounding is Some && o.rounding->0 is DecimalDigits {
                Err(OptionError::Exclusive(i as usize))
            } else {
                match bounded_number(args, i + 1, 0, MAX_SIGNIFICANT_DIGITS) {
                    Ok(n) => Ok(
                        (
                            i + 2,
                            SeriesOptions { rounding: Some(Rounding::SignificantDigits(n)), ..o },
                        ),
                    ),
                    Err(e) => Err(e),
                }
            },
            _ => if o.rounding is Some && o.rounding->0 is SignificantDigits {
                Err(OptionError::Exclusive(i as usize))
            } else {
                match bounded_number(args, i + 1, 0, u64::MAX) {
                    Ok(n) => Ok(
                        (
                            i + 2,
                            SeriesOptions { rounding: Some(Rounding::DecimalDigits(n)), ..o },
                        ),
                    ),
                    Err(e) => Err(e),
                }
            },
        }
    }
}

/// The options from `i` on, taken in one after the other; a later one stands over an earlier one of
/// the same name.
pub open spec fn options_from(args: Seq<Seq<char>>, i: int, o: SeriesOptions) -> Result<
    SeriesOptions,
    OptionError,
>
    decreases args.len() - i,
{
    if i >= args.len() {
        Ok(o)
    } else {
        match keyword_of(args[i]) {
            Some(k) => match option_at(args, i, k, o) {
                Ok((next, with)) => if i < next <= args.len() {
                    options_from(args, next, with)
                } else {
                    Ok(with)
                },
                Err(e) => Err(e),
            },
            None => Err(OptionError::UnknownOption(i as usize)),
        }
    }
}

pub(crate) proof fn lemma_labels_end(args: Seq<Seq<char>>, j: int)
    requires
        j <= args.len(),
    ensures
        labels_end(args, j) is Some ==> j <= labels_end(args, j)->0 <= args.len() && (labels_end(
            args,
            j,
        )->0 - j) % 2 == 0,
    decreases args.len() - j,
{
    if j + 1 < args.len() && !(keyword_of(args[j]) is Some) {
        lemma_labels_end(args, j + 2);
    }
}

/// The option that a text names.
fn find_keyword(text: &str) -> (r: Option<Keyword>)
    ensures
        r == keyword_of(text@),
{
    if is_word(text, "RETENTION") {
        Some(Keyword::Retention)
    } else if is_word(text, "DUPLICATE_POLICY") {
        Some(Keyword::DuplicatePolicy)
    } else if is_word(text, "ON_DUPLICATE") {
        Some(Keyword::OnDuplicate)
    } else if is_word(text, "ENCODING") {
        Some(Keyword::Encoding)
    } else if is_word(text, "CHUNK_SIZE") {
        Some(Keyword::ChunkSize)
    } else if is_word(text, "METRIC") {
        Some(Keyword::Metric)
    } else if is_word(text, "LABELS") {
        Some(Keyword::Labels)
    } else if is_word(text, "IGNORE") {
        Some(Keyword::Ignore)
    } else if is_word(text, "SIGNIFICANT_DIGITS") {
        Some(Keyword::SignificantDigits)
    } else if is_word(text, "DECIMAL_DIGITS") {
        Some(Keyword::DecimalDigits)
    } else {
        None
    }
}

/// The policy that a text names.
fn find_policy(text: &str) -> (r: Option<DuplicatePolicy>)
    ensures
        r == policy_of(text@),
{
    if is_word(text, "BLOCK") {
        Some(DuplicatePolicy::Block)
    } else if is_word(text, "FIRST") {
        Some(DuplicatePolicy::KeepFirst)
    } else if is_word(text, "LAST") {
        Some(DuplicatePolicy::KeepLast)
    } else if is_word(text, "MIN") {
        Some(DuplicatePolicy::Min)
    } else if is_word(text, "MAX") {
        Some(DuplicatePolicy::Max)
    } else if is_word(text, "SUM") {
        Some(DuplicatePolicy::Sum)
    } else {
        None
    }
}

/// The encoding that a text names.
fn find_encoding(text: &str) -> (r: Option<ChunkEncoding>)
    ensures
        r == encoding_of(text@),
{
    if is_word(text, "COMPRESSED") {
        Some(ChunkEncoding::Compressed)
    } else if is_word(text, "UNCOMPRESSED") {
        Some(ChunkEncoding::Uncompressed)
    } else {
        None
    }
}

/// The texts of the arguments.
pub open spec fn texts(args: Seq<String>) -> Seq<Seq<char>> {
    args.map_values(crate::context::text_view())
}

/// The whole number at `i`, from `min` to `max`.
fn find_number(args: &Vec<String>, i: usize, min: u64, max: u64) -> (r: Result<u64, OptionError>)
    requires
        i < args@.len(),
    ensures
        r == bounded_number(texts(args@), i as int, min, max),
{
    match parse_number(args[i].as_str()) {
        Some(n) => if min <= n && n <= max {
            Ok(n)
        } else {
            Err(OptionError::InvalidNumber(i))
        },
        None => Err(OptionError::InvalidNumber(i)),
    }
}

/// Where the labels that start at `from` end.
fn find_labels_end(args: &Vec<String>, from: usize) -> (r: Option<usize>)
    requires
        from <= args@.len(),
    ensures
        match r {
            Some(end) => labels_end(texts(args@), from as int) == Some(end as int),
            None => labels_end(texts(args@), from as int) is None,
        },
{
    let n: usize = args.len();
    let mut j: usize = from;
    while j < n
        invariant
            from <= j <= n,
            n == args@.len(),
            labels_end(texts(args@), j as int) == labels_end(texts(args@), from as int),
        decreases n - j,
    {
        if find_keyword(args[j].as_str()).is_some() {
            return Some(j);
        }
        if n - j < 2 {
            return None;
        }
        j = j + 2;
    }
    Some(j)
}

/// The option `k` at `i` taken in.
fn take_option(args: &Vec<String>, i: usize, k: Keyword, o: SeriesOptions) -> (r: Result<
    (usize, SeriesOptions),
    OptionError,
>)
    requires
        i < args@.len(),
    ensures
        match r {
            Ok((next, with)) => option_at(texts(args@), i as int, k, o) == Ok::<
                (int, SeriesOptions),
                OptionError,
            >((next as int, with)) && i < next <= args@.len() && (valid_options(
                o,
                args@.len(),
            ) ==> valid_options(with, args@.len())),
            Err(e) => option_at(texts(args@), i as int, k, o) == Err::<
                (int, SeriesOptions),
                OptionError,
            >(e),
        },
{
    let n: usize = args.len();
    if let Keyword::Labels = k {
        if o.metric.is_some() {
            return Err(OptionError::Exclusive(i));
        }
        proof {
            lemma_labels_end(texts(args@), i + 1);
        }
        return match find_labels_end(args, i + 1) {
            Some(end) => Ok((end, SeriesOptions { labels: Some((i + 1, end)), ..o })),
            None => Err(OptionError::MissingValue(i)),
        };
    }
    let values: usize = match k {
        Keyword::Ignore => 2,
        _ => 1,
    };
    if n - i <= values {
        return Err(OptionError::MissingValue(i));
    }
    match k {
        Keyword::Retention => match find_number(args, i + 1, 0, u64::MAX) {
            Ok(number) => Ok((i + 2, SeriesOptions { retention: Some(number), ..o })),
            Err(e) => Err(e),
        },
        Keyword::DuplicatePolicy => match find_policy(args[i + 1].as_str()) {
            Some(p) => Ok((i + 2, SeriesOptions { duplicate_policy: Some(p), ..o })),
            None => Err(OptionError::InvalidWord(i + 1)),
        },
        Keyword::OnDuplicate => match find_policy(args[i + 1].as_str()) {
            Some(p) => Ok((i + 2, SeriesOptions { on_duplicate: Some(p), ..o })),
            None => Err(OptionError::InvalidWord(i + 1)),
        },
        Keyword::Encoding => match find_encoding(args[i + 1].as_str()) {
            Some(e) => Ok((i + 2, SeriesOptions { encoding: Some(e), ..o })),
            None => Err(OptionError::InvalidWord(i + 1)),
        },
        Keyword::ChunkSize => match find_number(
            args,
            i + 1,
            SAMPLE_SIZE as u64,
            usize::MAX as u64,
        ) {
            Ok(number) => Ok((i + 2, SeriesOptions { chunk_size: Some(number), ..o })),
            Err(e) => Err(e),
        },
        Keyword::Metric => if o.labels.is_some() {
            Err(OptionError::Exclusive(i))
        } else {
            Ok((i + 2, SeriesOptions { metric: Some(i + 1), ..o }))
        },
        Keyword::Ignore => match find_number(args, i + 1, 0, u64::MAX) {
            Ok(number) => Ok((i + 3, SeriesOptions { ignore: Some((number, i + 2)), ..o })),
            Err(e) => Err(e),
        },
        Keyword::SignificantDigits => {
            if let Some(Rounding::DecimalDigits(_)) = o.rounding {
                return Err(OptionError::Exclusive(i));
            }
            match find_number(args, i + 1, 0, MAX_SIGNIFICANT_DIGITS) {
                Ok(number) => Ok(
                    (
                        i + 2,
                        SeriesOptions { rounding: Some(Rounding::SignificantDigits(number)), ..o },
                    ),
                ),
                Err(e) => Err(e),
            }
        },
        _ => {
            if let Some(Rounding::SignificantDigits(_)) = o.rounding {
                return Err(OptionError::Exclusive(i));
            }
            match find_number(args, i + 1, 0, u64::MAX) {
                Ok(number) => Ok(
                    (
                        i + 2,
                        SeriesOptions { rounding: Some(Rounding::DecimalDigits(number)), ..o },
                    ),
                ),
                Err(e) => Err(e),
            }
        },
    }
}

/// The options among the arguments, from `start` on.
pub fn parse_series_options(args: &Vec<String>, start: usize) -> (r: Result<
    SeriesOptions,
    OptionError,
>)
    ensures
        r == options_from(texts(args@), start as int, no_options()),
        r is Ok ==> valid_options(r->Ok_0, args@.len()),
{
    let mut o: SeriesOptions = SeriesOptions {
        retention: None,
        duplicate_policy: None,
        on_duplicate: None,
        encoding: None,
        chunk_size: None,
        metric: None,
        labels: None,
        ignore: None,
        rounding: None,
    };
    let n: usize = args.len();
    let mut i: usize = start;
    while i < n
        invariant
            n == args@.len(),
            valid_options(o, args@.len()),
            options_from(texts(args@), i as int, o) == options_from(
                texts(args@),
                start as int,
                no_options(),
            ),
        decreases n - i,
    {
        assert(texts(args@)[i as int] == args@[i as int]@);
        match find_keyword(args[i].as_str()) {
            Some(k) => match take_option(args, i, k, o) {
                Ok((next, with)) => {
                    i = next;
                    o = with;
                },
                Err(e) => return Err(e),
            },
            None => return Err(OptionError::UnknownOption(i)),
        }
    }
    Ok(o)
}

/// Whether a chunk of the size that the options ask for holds a sample, and the places of texts are
/// those of some of `n` arguments.
pub open spec fn valid_options(o: SeriesOptions, n: nat) -> bool {
    &&& o.chunk_size is Some ==> SAMPLE_SIZE <= o.chunk_size->0 <= usize::MAX
    &&& o.metric is Some ==> o.metric->0 < n
    &&& match o.labels {
        Some((from, to)) => from <= to <= n && (to - from) % 2 == 0,
        None => true,
    }
}

/// The labels among the arguments from `from` up to `to`: names and values in turn.
pub open spec fn label_pairs(args: Seq<Seq<char>>, from: int, to: int) -> Seq<
    (Seq<char>, Seq<char>),
>
    decreases to - from,
{
    if from + 2 > to {
        Seq::empty()
    } else {
        label_pairs(args, from, to - 2).push((args[to - 2], args[to - 1]))
    }
}

/// An empty series made with options out of `args`; what they leave open is as in a default series.
pub open spec fn series_with(
    id: SeriesRef,
    o: SeriesOptions,
    args: Seq<Seq<char>>,
    ignore: Option<IgnoreLimits>,
) -> SeriesView {
    SeriesView {
        id,
        retention: match o.retention {
            Some(n) => n,
            None => 0,
        },
        chunk_compression: match o.encoding {
            Some(e) => e,
            None => ChunkEncoding::Compressed,
        },
        chunk_size_bytes: match o.chunk_size {
            Some(n) => n as usize,
            None => DEFAULT_CHUNK_SIZE,
        },
        sample_duplicates: SampleDuplicatePolicy { policy: o.duplicate_policy, ignore },
        rounding: o.rounding,
        labels: match o.labels {
            Some(places) => label_pairs(args, places.0 as int, places.1 as int),
            None => Seq::empty(),
        },
        metric: match o.metric {
            Some(place) => Some(args[place as int]),
            None => None,
        },
        src_series: None,
        rules: Seq::empty(),
        chunks: Seq::empty(),
        total_samples: 0,
        first_timestamp: 0,
        last_timestamp: 0,
    }
}

/// The labels among the arguments from `from` up to `to`.
fn collect_labels(args: &Vec<String>, from: usize, to: usize) -> (r: Vec<Label>)
    requires
        from <= to <= args@.len(),
        (to - from) % 2 == 0,
    ensures
        r@.map_values(crate::series::label_view()) == label_pairs(
            texts(args@),
            from as int,
            to as int,
        ),
{
    let mut labels: Vec<Label> = Vec::new();
    let ghost f = crate::series::label_view();
    let mut i: usize = from;
    assert(labels@.map_values(f) =~= label_pairs(texts(args@), from as int, from as int));
    while i < to
        invariant
            from <= i <= to <= args@.len(),
            (to - i) % 2 == 0,
            f == crate::series::label_view(),
            labels@.map_values(f) == label_pairs(texts(args@), from as int, i as int),
        decreases to - i,
    {
        let ghost before = labels@.map_values(f);
        let label: Label = Label { name: args[i].clone(), value: args[i + 1].clone() };
        proof {
            assert(texts(args@)[i as int] == args@[i as int]@);
            assert(texts(args@)[i + 1] == args@[i + 1]@);
        }
        let ghost view = label@;
        labels.push(label);
        assert(labels@.map_values(f) =~= before.push(view));
        i = i + 2;
    }
    labels
}

/// An empty series made with options, which were parsed out of `args`; `ignore` holds the limits that
/// they give.
pub fn create_series(
    id: SeriesRef,
    o: &SeriesOptions,
    args: &Vec<String>,
    ignore: Option<IgnoreLimits>,
) -> (r: TimeSeries)
    requires
        valid_options(*o, args@.len()),
    ensures
        r@ == series_with(id, *o, texts(args@), ignore),
        r@.wf(),
{
    let mut series: TimeSeries = TimeSeries::default();
    series.id = id;
    if let Some(n) = o.retention {
        series.retention = n;
    }
    if let Some(e) = o.encoding {
        series.chunk_compression = e;
    }
    if let Some(n) = o.chunk_size {
        series.chunk_size_bytes = n as usize;
    }
    series.sample_duplicates = SampleDuplicatePolicy { policy: o.duplicate_policy, ignore };
    series.rounding = o.rounding;
    if let Some((from, to)) = o.labels {
        series.labels = collect_labels(args, from, to);
    }
    if let Some(place) = o.metric {
        assert(texts(args@)[place as int] == args@[place as int]@);
        series.metric = Some(args[place].clone());
    }
    assert(series@ =~= series_with(id, *o, texts(args@), ignore));
    series
}

} // verus!
