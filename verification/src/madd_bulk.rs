//! The command that writes payloads into many series.
use vstd::prelude::*;
use vstd::string::StringExecFns;

use crate::bulk_add::bulk_insert_samples;
use crate::commands::{CommandError, IngestCounts};
use crate::common::{count_ok, DuplicatePolicy, Sample, SampleAddResult};
use crate::context::{AddEvent, Context};
use crate::ingest::{IngestError, IngestedSamples};
use crate::series::TimeSeries;

verus! {

/// An argument of a command.
#[derive(Debug)]
pub struct CommandArg {
    /// The argument as text.
    pub text: String,
    pub bytes: Vec<u8>,
    /// Whether the caller may write to the key of this name.
    pub writable: bool,
}

/// Whether `item` is what the pair `i` of a key and a payload gives.
pub open spec fn good_pair(args: Seq<CommandArg>, i: int, item: IngestedSamples) -> bool {
    args[1 + 2 * i].writable && exists|payload: IngestedSamples|
        {
            &&& #[trigger] crate::ingest::parses_to(
                args[2 + 2 * i].bytes@,
                Ok::<IngestedSamples, IngestError>(payload),
            )
            &&& item.samples@ == payload.samples@
            &&& item.metric_name@ == payload.metric_name@
            &&& item.key@ == args[1 + 2 * i].text@
        }
}

/// Whether the pair `i` of a key and a payload is refused with `e`: the permission comes before the
/// payload.
pub open spec fn bad_pair(args: Seq<CommandArg>, i: int, e: CommandError) -> bool {
    if !args[1 + 2 * i].writable {
        e == CommandError::PermissionDenied
    } else {
        e is Payload && crate::ingest::parses_to(
            args[2 + 2 * i].bytes@,
            Err::<IngestedSamples, IngestError>(e->Payload_0),
        )
    }
}

/// Whether the pair `i` can be taken in.
pub open spec fn takes(args: Seq<CommandArg>, i: int) -> bool {
    exists|item: IngestedSamples| #[trigger] good_pair(args, i, item)
}

/// Whether `r` is what the first `n` pairs of keys and payloads give: each of them taken in, or the
/// error of the first one that is refused.
pub open spec fn parsed_pairs(
    args: Seq<CommandArg>,
    n: int,
    r: Result<Vec<IngestedSamples>, CommandError>,
) -> bool {
    match r {
        Ok(items) => items@.len() == n && forall|i: int|
            0 <= i < n ==> good_pair(args, i, #[trigger] items@[i]),
        Err(e) => exists|i: int|
            0 <= i < n && #[trigger] bad_pair(args, i, e) && forall|k: int|
                0 <= k < i ==> #[trigger] takes(args, k),
    }
}

/// Takes in the pairs of keys and payloads behind the name of the command.
pub fn parse_args(args: &Vec<CommandArg>) -> (r: Result<Vec<IngestedSamples>, CommandError>)
    requires
        args@.len() % 2 == 1,
    ensures
        parsed_pairs(args@, (args@.len() - 1) / 2, r),
{
    let n: usize = args.len();
    let mut results: Vec<IngestedSamples> = Vec::with_capacity(n / 2);
    let mut index: usize = 1;
    while index < n
        invariant
            n == args@.len(),
            n % 2 == 1,
            index % 2 == 1,
            1 <= index <= n,
            results@.len() == (index - 1) / 2,
            forall|i: int|
                0 <= i < results@.len() ==> good_pair(args@, i, #[trigger] results@[i]),
        decreases n - index,
    {
        let ghost at: int = (index - 1) / 2;
        assert(index == 1 + 2 * at);
        proof {
            assert forall|k: int| 0 <= k < at implies #[trigger] takes(args@, k) by {
                assert(good_pair(args@, k, results@[k]));
            }
        }
        if !args[index].writable {
            assert(bad_pair(args@, at, CommandError::PermissionDenied));
            return Err(CommandError::PermissionDenied);
        }
        let mut buf: Vec<u8> = args[index + 1].bytes.clone();
        assert(buf@ =~= args@[index + 1].bytes@);
        let parsed: Result<IngestedSamples, IngestError> = IngestedSamples::from_json_lines(
            buf.as_mut_slice(),
        );
        match parsed {
            Ok(payload) => {
                let mut item: IngestedSamples = payload;
                let ghost whole = item;
                item.key = args[index].text.clone();
                assert(good_pair(args@, at, item)) by {
                    assert(crate::ingest::parses_to(
                        args@[2 + 2 * at].bytes@,
                        Ok::<IngestedSamples, IngestError>(whole),
                    ));
                }
                results.push(item);
            },
            Err(e) => {
                assert(bad_pair(args@, at, CommandError::Payload(e)));
                return Err(CommandError::Payload(e));
            },
        }
        index = index + 2;
    }
    Ok(results)
}

/// Takes in a call of the command: pairs of keys and payloads, at least one of them.
pub fn madd_bulk(args: &Vec<CommandArg>) -> (r: Result<Vec<IngestedSamples>, CommandError>)
    requires
        args@.len() >= 1,
    ensures
        args@.len() < 3 || args@.len() % 2 == 0 ==> r is Err && r->Err_0 is WrongArity,
        args@.len() >= 3 && args@.len() % 2 == 1 ==> parsed_pairs(
            args@,
            (args@.len() - 1) / 2,
            r,
        ),
{
    let count: usize = args.len() - 1;
    if count < 2 || count % 2 != 0 {
        return Err(CommandError::WrongArity);
    }
    parse_args(args)
}

/// Writes a payload into its series, under the policy of the series; gives how many samples were
/// stored, and how many were let in.
pub fn process_one_series(ctx: &mut Context, series: &mut TimeSeries, ingested: &IngestedSamples) -> (r:
    IngestCounts)
    requires
        old(ctx)@.wf(),
        old(series)@.wf(),
    ensures
        ({
            let policy = crate::common::policy_or_block(old(series)@.sample_duplicates.policy);
            let results = crate::bulk_add::insert_results(
                old(series)@,
                ingested.samples@,
                policy,
            );
            &&& r.ingested == crate::common::ok_count(results)
            &&& r.total == results.len()
            &&& (final(ctx)@, final(series)@) == crate::bulk_add::bulk_inserted(
                old(ctx)@,
                old(series)@,
                ingested.samples@,
                policy,
                old(ctx)@.series.dom().len(),
            )
        }),
        final(ctx)@.wf(),
        final(ctx)@.series.dom() == old(ctx)@.series.dom(),
        final(series)@.wf(),
{
    let policy: Option<DuplicatePolicy> = series.sample_duplicates.policy;
    let items: Vec<SampleAddResult> = bulk_insert_samples(ctx, series, &ingested.samples, policy);
    IngestCounts { ingested: count_ok(&items), total: items.len() }
}

/// The course of a call: the counts of the series that were written, and how many are left.
#[derive(Debug)]
pub struct BulkUpdate {
    pub counts: Vec<IngestCounts>,
    pub left: usize,
}

/// What is to be done next in the course of a call.
#[derive(Debug)]
pub enum UpdateStep {
    /// Write the next series.
    Next,
    /// Answer with the counts, and pass the command on to the replicas.
    ReplyCounts,
    /// Answer with an error, and write no more.
    ReplyError(CommandError),
}

/// What comes of the counts so far, and of the number of series left, and what is to be done next,
/// one more series having been written or not.
pub open spec fn updated(
    counts: Seq<IngestCounts>,
    left: nat,
    outcome: Result<IngestCounts, CommandError>,
) -> (Seq<IngestCounts>, nat, UpdateStep) {
    match outcome {
        Ok(count) => (
            counts.push(count),
            (left - 1) as nat,
            if left == 1 {
                UpdateStep::ReplyCounts
            } else {
                UpdateStep::Next
            },
        ),
        Err(e) => (counts, 0, UpdateStep::ReplyError(e)),
    }
}

/// Goes on with a call, one more series having been written or not.
pub fn handle_update(update: &mut BulkUpdate, outcome: Result<IngestCounts, CommandError>) -> (r:
    UpdateStep)
    requires
        old(update).left > 0,
    ensures
        (final(update).counts@, final(update).left as nat, r) == updated(
            old(update).counts@,
            old(update).left as nat,
            outcome,
        ),
{
    match outcome {
        Ok(counts) => {
            update.counts.push(counts);
            update.left = update.left - 1;
            if update.left == 0 {
                UpdateStep::ReplyCounts
            } else {
                UpdateStep::Next
            }
        },
        Err(e) => {
            update.left = 0;
            UpdateStep::ReplyError(e)
        },
    }
}

/// The course of a call on `n` series with these outcomes, one after the other: the counts, the number
/// of series left, and what is to be done next. Where none is left, no outcome is taken in any more.
pub open spec fn course(n: nat, outcomes: Seq<Result<IngestCounts, CommandError>>) -> (
    Seq<IngestCounts>,
    nat,
    UpdateStep,
)
    decreases outcomes.len(),
{
    if outcomes.len() == 0 {
        (Seq::empty(), n, UpdateStep::Next)
    } else {
        let (counts, left, step) = course(n, outcomes.drop_last());
        if left == 0 {
            (counts, left, step)
        } else {
            updated(counts, left, outcomes.last())
        }
    }
}

/// The counts of outcomes without an error.
pub open spec fn counts_of(outcomes: Seq<Result<IngestCounts, CommandError>>) -> Seq<IngestCounts> {
    outcomes.map_values(|outcome: Result<IngestCounts, CommandError>| outcome->Ok_0)
}

/// A call goes on while there is no error and a series is left. With an error it is answered, with
/// the first one, and nothing is counted from there on; without one it is answered behind the last
/// series, with the counts of all of them in order.
pub proof fn law_all_counts_or_first_error(
    n: nat,
    outcomes: Seq<Result<IngestCounts, CommandError>>,
    k: nat,
)
    requires
        0 < n,
        k <= outcomes.len() <= n,
        forall|i: int| 0 <= i < k ==> (#[trigger] outcomes[i]) is Ok,
        k < outcomes.len() ==> outcomes[k as int] is Err,
    ensures
        course(n, outcomes) == if k < outcomes.len() {
            (
                counts_of(outcomes.take(k as int)),
                0nat,
                UpdateStep::ReplyError(outcomes[k as int]->Err_0),
            )
        } else if k < n {
            (counts_of(outcomes), (n - k) as nat, UpdateStep::Next)
        } else {
            (counts_of(outcomes), 0nat, UpdateStep::ReplyCounts)
        },
    decreases outcomes.len(),
{
    let m = outcomes.len() as int;
    if m == 0 {
        assert(counts_of(outcomes) =~= Seq::empty());
    } else {
        let before = outcomes.drop_last();
        if k == m {
            law_all_counts_or_first_error(n, before, (k - 1) as nat);
            assert(counts_of(outcomes) =~= counts_of(before).push(outcomes.last()->Ok_0));
        } else {
            law_all_counts_or_first_error(n, before, k);
            assert(outcomes.take(k as int) =~= before.take(k as int));
            if k == m - 1 {
                assert(before =~= outcomes.take(k as int));
            }
        }
    }
}

/// The text of a decimal digit.
pub open spec fn digit_text(d: nat) -> Seq<char> {
    if d == 0 {
        "0"@
    } else if d == 1 {
        "1"@
    } else if d == 2 {
        "2"@
    } else if d == 3 {
        "3"@
    } else if d == 4 {
        "4"@
    } else if d == 5 {
        "5"@
    } else if d == 6 {
        "6"@
    } else if d == 7 {
        "7"@
    } else if d == 8 {
        "8"@
    } else {
        "9"@
    }
}

/// A number from 0 on, written down in decimal digits.
pub open spec fn natural_text(n: nat) -> Seq<char>
    decreases n,
{
    if n < 10 {
        digit_text(n)
    } else {
        natural_text(n / 10) + digit_text(n % 10)
    }
}

/// A whole number, written down in decimal digits.
pub open spec fn decimal_text(n: int) -> Seq<char> {
    if n < 0 {
        "-"@ + natural_text((-n) as nat)
    } else {
        natural_text(n as nat)
    }
}

/// The texts, with commas between them.
pub open spec fn joined(parts: Seq<Seq<char>>) -> Seq<char>
    decreases parts.len(),
{
    if parts.len() == 0 {
        Seq::empty()
    } else if parts.len() == 1 {
        parts[0]
    } else {
        joined(parts.drop_last()) + ","@ + parts.last()
    }
}

fn digit_str(d: u128) -> (r: &'static str)
    requires
        d < 10,
    ensures
        r@ == digit_text(d as nat),
{
    if d == 0 {
        "0"
    } else if d == 1 {
        "1"
    } else if d == 2 {
        "2"
    } else if d == 3 {
        "3"
    } else if d == 4 {
        "4"
    } else if d == 5 {
        "5"
    } else if d == 6 {
        "6"
    } else if d == 7 {
        "7"
    } else if d == 8 {
        "8"
    } else {
        "9"
    }
}

fn natural_string(n: u128) -> (r: String)
    ensures
        r@ == natural_text(n as nat),
    decreases n,
{
    if n < 10 {
        digit_str(n).to_owned()
    } else {
        natural_string(n / 10).concat(digit_str(n % 10))
    }
}

fn decimal_string(n: i64) -> (r: String)
    ensures
        r@ == decimal_text(n as int),
{
    if n < 0 {
        let size: u128 = (0 - (n as i128)) as u128;
        "-".to_owned().concat(natural_string(size).as_str())
    } else {
        natural_string(n as u128)
    }
}

/// The texts of the times of samples.
pub open spec fn time_texts(samples: Seq<Sample>) -> Seq<Seq<char>> {
    samples.map_values(|x: Sample| decimal_text(x.timestamp as int))
}

/// What the replicas are told of samples that were written.
pub open spec fn replication_payload(samples: Seq<Sample>, values: Seq<Seq<char>>) -> Seq<char> {
    "{timestamps:["@ + joined(time_texts(samples)) + "], values:["@ + joined(values) + "]}"@
}

fn join_times(samples: &Vec<Sample>) -> (r: String)
    ensures
        r@ == joined(time_texts(samples@)),
{
    let ghost parts = time_texts(samples@);
    let mut r: String = String::new();
    let mut i: usize = 0;
    while i < samples.len()
        invariant
            i <= samples@.len(),
            parts == time_texts(samples@),
            r@ == joined(parts.take(i as int)),
        decreases samples@.len() - i,
    {
        proof {
            assert(parts.take(i + 1).drop_last() =~= parts.take(i as int));
            assert(parts.take(i + 1).last() == parts[i as int]);
        }
        if i > 0 {
            r = r.concat(",");
        }
        let text: String = decimal_string(samples[i].timestamp);
        let ghost before = r@;
        r = r.concat(text.as_str());
        assert(i == 0 ==> before + text@ =~= text@);
        i = i + 1;
    }
    assert(parts.take(i as int) =~= parts);
    r
}

fn join_texts(texts: &Vec<String>) -> (r: String)
    ensures
        r@ == joined(crate::options::texts(texts@)),
{
    let ghost parts = crate::options::texts(texts@);
    let mut r: String = String::new();
    let mut i: usize = 0;
    while i < texts.len()
        invariant
            i <= texts@.len(),
            parts == crate::options::texts(texts@),
            r@ == joined(parts.take(i as int)),
        decreases texts@.len() - i,
    {
        proof {
            assert(parts.take(i + 1).drop_last() =~= parts.take(i as int));
            assert(parts.take(i + 1).last() == parts[i as int]);
        }
        if i > 0 {
            r = r.concat(",");
        }
        let ghost before = r@;
        r = r.concat(texts[i].as_str());
        assert(i == 0 ==> before + parts[0] =~= parts[0]);
        i = i + 1;
    }
    assert(parts.take(i as int) =~= parts);
    r
}

/// What the replicas and the keyspace are told of samples that were written.
#[derive(Debug)]
pub struct Replication {
    /// The command to pass on.
    pub command: &'static str,
    pub key: String,
    pub payload: String,
    /// What the keyspace is notified of, at the key.
    pub event: AddEvent,
}

/// What the replicas and the keyspace are told of samples that were written; `values` are the texts
/// of their values.
pub fn handle_replication(inputs: &IngestedSamples, values: &Vec<String>) -> (r: Replication)
    requires
        values@.len() == inputs.samples@.len(),
    ensures
        r.command@ == "TS.MADDBULK"@,
        r.key@ == inputs.key@,
        r.payload@ == replication_payload(inputs.samples@, crate::options::texts(values@)),
        r.event == AddEvent::Add,
{
    let times: String = join_times(&inputs.samples);
    let texts: String = join_texts(values);
    let payload: String = "{timestamps:[".to_owned().concat(times.as_str()).concat(
        "], values:[",
    ).concat(texts.as_str()).concat("]}");
    Replication {
        command: "TS.MADDBULK",
        key: inputs.key.clone(),
        payload,
        event: AddEvent::Add,
    }
}

proof fn lemma_digit_text(d: nat)
    requires
        d < 10,
    ensures
        digit_text(d).len() == 1,
        '0' <= digit_text(d)[0] <= '9',
        digit_text(d)[0] as u32 - '0' as u32 == d,
{
    reveal_strlit("0");
    reveal_strlit("1");
    reveal_strlit("2");
    reveal_strlit("3");
    reveal_strlit("4");
    reveal_strlit("5");
    reveal_strlit("6");
    reveal_strlit("7");
    reveal_strlit("8");
    reveal_strlit("9");
}

proof fn lemma_natural_text(n: nat)
    ensures
        natural_text(n).len() > 0,
        crate::options::all_digits(natural_text(n)),
        crate::options::decimal_value(natural_text(n)) == n,
    decreases n,
{
    let text = natural_text(n);
    if n < 10 {
        lemma_digit_text(n);
        assert(text.drop_last() =~= Seq::<char>::empty());
        assert(crate::options::decimal_value(text.drop_last()) == 0);
    } else {
        lemma_natural_text(n / 10);
        lemma_digit_text(n % 10);
        assert(text.drop_last() =~= natural_text(n / 10));
        assert(text.last() == digit_text(n % 10)[0]);
        assert forall|i: int| 0 <= i < text.len() implies '0' <= #[trigger] text[i] <= '9' by {
            if i < natural_text(n / 10).len() {
                assert(text[i] == natural_text(n / 10)[i]);
            }
        }
    }
}

/// A timestamp that is passed on, from 0 on, is read back as it was.
pub proof fn law_time_text_reads_back(t: u64)
    ensures
        crate::options::number_of(decimal_text(t as int)) == Some(t),
{
    lemma_natural_text(t as nat);
}

/// Two lists of texts, joined, are the one joined, a comma, and the other joined.
pub proof fn law_joined_in_parts(a: Seq<Seq<char>>, b: Seq<Seq<char>>)
    requires
        a.len() > 0,
        b.len() > 0,
    ensures
        joined(a + b) == joined(a) + ","@ + joined(b),
        joined(seq![a[0]]) == a[0],
    decreases b.len(),
{
    let all = a + b;
    assert(all.drop_last() =~= a + b.drop_last());
    assert(all.last() == b.last());
    if b.len() > 1 {
        law_joined_in_parts(a, b.drop_last());
        assert(joined(all) =~= joined(a) + ","@ + joined(b));
    } else {
        assert(a + b.drop_last() =~= a);
    }
}

/// A time before 0 is passed on as a minus and what is passed on of the time as far behind 0.
pub proof fn law_negative_time_text(n: int)
    requires
        n > 0,
    ensures
        decimal_text(-n) == "-"@ + decimal_text(n),
{
}

} // verus!
