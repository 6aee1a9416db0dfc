//! What holds of the options of a command: how they are written, and how they add up.
use vstd::prelude::*;

use crate::common::DuplicatePolicy;
use crate::options::{Keyword, OptionError, SeriesOptions};
use crate::series::Rounding;

verus! {

proof fn lemma_word_of_word(a: Seq<char>, b: Seq<char>, word: Seq<char>)
    requires
        crate::options::same_word(a, b),
    ensures
        crate::options::same_word(a, word) == crate::options::same_word(b, word),
{
    if crate::options::same_word(a, word) {
        assert forall|i: int| 0 <= i < b.len() implies crate::options::capital(#[trigger] b[i])
            == crate::options::capital(word[i]) by {
            assert(crate::options::capital(a[i]) == crate::options::capital(b[i]));
        }
    }
    if crate::options::same_word(b, word) {
        assert forall|i: int| 0 <= i < a.len() implies crate::options::capital(#[trigger] a[i])
            == crate::options::capital(word[i]) by {
            assert(crate::options::capital(b[i]) == crate::options::capital(word[i]));
        }
    }
}

/// The case of letters does not matter to the name of an option, of a policy or of an encoding.
pub proof fn law_case_does_not_matter(a: Seq<char>, b: Seq<char>)
    requires
        crate::options::same_word(a, b),
    ensures
        crate::options::keyword_of(a) == crate::options::keyword_of(b),
        crate::options::policy_of(a) == crate::options::policy_of(b),
        crate::options::encoding_of(a) == crate::options::encoding_of(b),
{
    lemma_word_of_word(a, b, "RETENTION"@);
    lemma_word_of_word(a, b, "DUPLICATE_POLICY"@);
    lemma_word_of_word(a, b, "ON_DUPLICATE"@);
    lemma_word_of_word(a, b, "ENCODING"@);
    lemma_word_of_word(a, b, "CHUNK_SIZE"@);
    lemma_word_of_word(a, b, "METRIC"@);
    lemma_word_of_word(a, b, "LABELS"@);
    lemma_word_of_word(a, b, "IGNORE"@);
    lemma_word_of_word(a, b, "SIGNIFICANT_DIGITS"@);
    lemma_word_of_word(a, b, "DECIMAL_DIGITS"@);
    lemma_word_of_word(a, b, "BLOCK"@);
    lemma_word_of_word(a, b, "FIRST"@);
    lemma_word_of_word(a, b, "LAST"@);
    lemma_word_of_word(a, b, "MIN"@);
    lemma_word_of_word(a, b, "MAX"@);
    lemma_word_of_word(a, b, "SUM"@);
    lemma_word_of_word(a, b, "COMPRESSED"@);
    lemma_word_of_word(a, b, "UNCOMPRESSED"@);
}

proof fn lemma_labels_end_stays(args: Seq<Seq<char>>, more: Seq<Seq<char>>, j: int)
    requires
        0 <= j <= args.len(),
        more.len() > 0,
        crate::options::keyword_of(more[0]) is Some,
        crate::options::labels_end(args, j) is Some,
    ensures
        crate::options::labels_end(args + more, j) == crate::options::labels_end(args, j),
    decreases args.len() - j,
{
    let all = args + more;
    if j == args.len() {
        assert(all[j] == more[0]);
    } else {
        assert(all[j] == args[j]);
        if !(crate::options::keyword_of(args[j]) is Some) {
            lemma_labels_end_stays(args, more, j + 2);
        }
    }
}

proof fn lemma_option_stays(
    args: Seq<Seq<char>>,
    more: Seq<Seq<char>>,
    i: int,
    k: Keyword,
    o: SeriesOptions,
)
    requires
        0 <= i < args.len(),
        more.len() > 0,
        crate::options::keyword_of(more[0]) is Some,
        crate::options::option_at(args, i, k, o) is Ok,
    ensures
        crate::options::option_at(args + more, i, k, o) == crate::options::option_at(
            args,
            i,
            k,
            o,
        ),
{
    let all = args + more;
    if k is Labels {
        if i + 1 <= args.len() {
            lemma_labels_end_stays(args, more, i + 1);
        }
    } else {
        assert(all[i + 1] == args[i + 1]);
    }
}

proof fn lemma_end_of_option(args: Seq<Seq<char>>, i: int, k: Keyword, o: SeriesOptions)
    requires
        0 <= i < args.len(),
        crate::options::option_at(args, i, k, o) is Ok,
    ensures
        ({
            let (next, _) = crate::options::option_at(args, i, k, o)->Ok_0;
            i < next <= args.len()
        }),
{
    if k is Labels {
        crate::options::lemma_labels_end(args, i + 1);
    }
}

/// Options that are accepted stay as they are where more of them follow: those that follow are taken in
/// on top.
pub proof fn law_options_add_up(
    args: Seq<Seq<char>>,
    more: Seq<Seq<char>>,
    i: int,
    o: SeriesOptions,
)
    requires
        0 <= i <= args.len(),
        more.len() > 0,
        crate::options::keyword_of(more[0]) is Some,
        crate::options::options_from(args, i, o) is Ok,
    ensures
        crate::options::options_from(args + more, i, o) == crate::options::options_from(
            args + more,
            args.len() as int,
            crate::options::options_from(args, i, o)->Ok_0,
        ),
    decreases args.len() - i,
{
    let all = args + more;
    if i < args.len() {
        assert(all[i] == args[i]);
        let k = crate::options::keyword_of(args[i])->0;
        lemma_option_stays(args, more, i, k, o);
        lemma_end_of_option(args, i, k, o);
        let (next, with) = crate::options::option_at(args, i, k, o)->Ok_0;
        law_options_add_up(args, more, next, with);
    }
}

/// What one more option with one value makes of options that are accepted: it sets what it names, over
/// what was given for it before, and leaves everything else. It is refused where its value is not one
/// that it takes.
pub proof fn law_one_more_option(
    args: Seq<Seq<char>>,
    i: int,
    o: SeriesOptions,
    word: Seq<char>,
    value: Seq<char>,
)
    requires
        0 <= i <= args.len(),
        args.len() + 2 <= usize::MAX,
        crate::options::options_from(args, i, o) is Ok,
        crate::options::keyword_of(word) is Some,
    ensures
        ({
            let before = crate::options::options_from(args, i, o)->Ok_0;
            let after = crate::options::options_from(args + seq![word, value], i, o);
            let number = crate::options::number_of(value);
            let policy = crate::options::policy_of(value);
            let n = args.len() as usize;
            let bad_number = Err::<SeriesOptions, OptionError>(
                OptionError::InvalidNumber((n + 1) as usize),
            );
            match crate::options::keyword_of(word)->0 {
                Keyword::Retention => if number is Some {
                    after == Ok::<SeriesOptions, OptionError>(
                        SeriesOptions { retention: number, ..before },
                    )
                } else {
                    after == bad_number
                },
                Keyword::DuplicatePolicy => if policy is Some {
                    after == Ok::<SeriesOptions, OptionError>(
                        SeriesOptions { duplicate_policy: policy, ..before },
                    )
                } else {
                    after is Err && after->Err_0 is InvalidWord
                },
                Keyword::OnDuplicate => if policy is Some {
                    after == Ok::<SeriesOptions, OptionError>(
                        SeriesOptions { on_duplicate: policy, ..before },
                    )
                } else {
                    after is Err && after->Err_0 is InvalidWord
                },
                Keyword::Encoding => if crate::options::encoding_of(value) is Some {
                    after == Ok::<SeriesOptions, OptionError>(
                        SeriesOptions { encoding: crate::options::encoding_of(value), ..before },
                    )
                } else {
                    after is Err && after->Err_0 is InvalidWord
                },
                Keyword::ChunkSize => if number is Some && crate::chunk::SAMPLE_SIZE <= number->0
                    <= usize::MAX {
                    after == Ok::<SeriesOptions, OptionError>(
                        SeriesOptions { chunk_size: number, ..before },
                    )
                } else {
                    after == bad_number
                },
                Keyword::Metric => if before.labels is Some {
                    after is Err && after->Err_0 is Exclusive
                } else {
                    after == Ok::<SeriesOptions, OptionError>(
                        SeriesOptions { metric: Some((n + 1) as usize), ..before },
                    )
                },
                Keyword::SignificantDigits => if before.rounding is Some
                    && before.rounding->0 is DecimalDigits {
                    after is Err && after->Err_0 is Exclusive
                } else if number is Some && number->0 <= 18 {
                    after == Ok::<SeriesOptions, OptionError>(
                        SeriesOptions {
                            rounding: Some(Rounding::SignificantDigits(number->0)),
                            ..before
                        },
                    )
                } else {
                    after == bad_number
                },
                Keyword::DecimalDigits => if before.rounding is Some
                    && before.rounding->0 is SignificantDigits {
                    after is Err && after->Err_0 is Exclusive
                } else if number is Some {
                    after == Ok::<SeriesOptions, OptionError>(
                        SeriesOptions {
                            rounding: Some(Rounding::DecimalDigits(number->0)),
                            ..before
                        },
                    )
                } else {
                    after == bad_number
                },
                Keyword::Ignore => after is Err && after->Err_0 is MissingValue,
                Keyword::Labels => true,
            }
        }),
{
    let more = seq![word, value];
    let all = args + more;
    let n = args.len() as int;
    law_options_add_up(args, more, i, o);
    assert(all[n] == word);
    assert(all[n + 1] == value);
    reveal_with_fuel(crate::options::options_from, 2);
}

/// The limits of samples that lie apart are two values, both of which have to follow; the first one is
/// a whole number.
pub proof fn law_limits_are_two_values(
    args: Seq<Seq<char>>,
    i: int,
    o: SeriesOptions,
    word: Seq<char>,
    time: Seq<char>,
    value: Seq<char>,
)
    requires
        0 <= i <= args.len(),
        args.len() + 3 <= usize::MAX,
        crate::options::options_from(args, i, o) is Ok,
        crate::options::keyword_of(word) == Some(Keyword::Ignore),
    ensures
        ({
            let before = crate::options::options_from(args, i, o)->Ok_0;
            let after = crate::options::options_from(args + seq![word, time, value], i, o);
            match crate::options::number_of(time) {
                Some(limit) => after == Ok::<SeriesOptions, OptionError>(
                    SeriesOptions { ignore: Some((limit, (args.len() + 2) as usize)), ..before },
                ),
                None => after is Err && after->Err_0 is InvalidNumber,
            }
        }),
{
    let more = seq![word, time, value];
    let all = args + more;
    let n = args.len() as int;
    law_options_add_up(args, more, i, o);
    assert(all[n] == word);
    assert(all[n + 1] == time);
    assert(all[n + 2] == value);
    reveal_with_fuel(crate::options::options_from, 2);
}

/// An option that nothing follows is refused.
pub proof fn law_bare_words_are_refused(
    args: Seq<Seq<char>>,
    i: int,
    o: SeriesOptions,
    word: Seq<char>,
)
    requires
        0 <= i <= args.len(),
        args.len() + 1 <= usize::MAX,
        crate::options::options_from(args, i, o) is Ok,
        crate::options::keyword_of(word) is Some,
        !(crate::options::keyword_of(word)->0 is Labels),
    ensures
        ({
            let after = crate::options::options_from(args.push(word), i, o);
            after is Err && after->Err_0 is MissingValue
        }),
{
    let more = seq![word];
    let all = args + more;
    let n = args.len() as int;
    law_options_add_up(args, more, i, o);
    assert(all =~= args.push(word));
    assert(all[n] == word);
    reveal_with_fuel(crate::options::options_from, 2);
}

/// Where the first word from `i` on names no option, all of them are refused for it.
pub proof fn law_unknown_words_are_refused(args: Seq<Seq<char>>, i: int, o: SeriesOptions)
    requires
        0 <= i < args.len() <= usize::MAX,
        crate::options::keyword_of(args[i]) is None,
    ensures
        crate::options::options_from(args, i, o) == Err::<SeriesOptions, OptionError>(
            OptionError::UnknownOption(i as usize),
        ),
{
}

/// The labels of a series are the names and values between their places, in order and in pairs.
pub proof fn law_labels_are_pairs(args: Seq<Seq<char>>, from: int, to: int, k: int)
    requires
        from <= to,
        (to - from) % 2 == 0,
    ensures
        crate::options::label_pairs(args, from, to).len() == (to - from) / 2,
        0 <= k < (to - from) / 2 ==> crate::options::label_pairs(args, from, to)[k] == (
            args[from + 2 * k],
            args[from + 2 * k + 1],
        ),
    decreases to - from,
{
    if from + 2 <= to {
        law_labels_are_pairs(args, from, to - 2, k);
    }
}

/// A series is made empty and sound, with what the options give; without them samples are kept for ever
/// and compressed, and duplicates are left to the command.
pub proof fn law_made_series_is_empty(
    id: crate::series::SeriesRef,
    o: SeriesOptions,
    args: Seq<Seq<char>>,
    ignore: Option<crate::ignore::IgnoreLimits>,
)
    ensures
        ({
            let made = crate::options::series_with(id, o, args, ignore);
            &&& made.samples().len() == 0
            &&& made.rules.len() == 0
            &&& made.src_series is None
            &&& made.retention == if o.retention is Some {
                o.retention->0
            } else {
                0
            }
            &&& made.sample_duplicates.policy == o.duplicate_policy
            &&& made.sample_duplicates.ignore == ignore
            &&& o.chunk_size is Some && o.chunk_size->0 <= usize::MAX ==> made.chunk_size_bytes
                == o.chunk_size->0
        }),
{
    let made = crate::options::series_with(id, o, args, ignore);
    assert(made.samples() =~= Seq::<crate::common::Sample>::empty());
}

/// The policy for the command alone is that of the last such option, whatever options for the series
/// come with it.
pub proof fn law_override_is_apart(
    args: Seq<Seq<char>>,
    i: int,
    o: SeriesOptions,
    word: Seq<char>,
    value: Seq<char>,
    policy: DuplicatePolicy,
)
    requires
        0 <= i <= args.len(),
        args.len() + 2 <= usize::MAX,
        crate::options::options_from(args, i, o) is Ok,
        crate::options::keyword_of(word) == Some(Keyword::OnDuplicate),
        crate::options::policy_of(value) == Some(policy),
    ensures
        ({
            let before = crate::options::options_from(args, i, o)->Ok_0;
            let after = crate::options::options_from(args + seq![word, value], i, o);
            &&& after is Ok
            &&& after->Ok_0.on_duplicate == Some(policy)
            &&& after->Ok_0.duplicate_policy == before.duplicate_policy
        }),
{
    law_one_more_option(args, i, o, word, value);
}

} // verus!
