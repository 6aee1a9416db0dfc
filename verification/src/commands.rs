//! The commands that ingest payloads.
use vstd::prelude::*;

use crate::bulk_add::bulk_insert_samples;
use crate::common::{count_ok, DuplicatePolicy, Sample, SampleAddResult};
use crate::context::Context;
use crate::ingest::{IngestError, IngestedSamples};
use crate::options::{parse_series_options, OptionError, SeriesOptions};
use crate::series::{SeriesView, TimeSeries};

verus! {

/// The place of the first option among the arguments of an ingestion: behind the name of the
/// command, the key and the payload.
pub const FIRST_OPTION: usize = 3;

/// Why a command is refused.
#[derive(Debug)]
pub enum CommandError {
    /// The number of arguments is wrong.
    WrongArity,
    /// The caller may not write to a key.
    PermissionDenied,
    /// A payload is refused.
    Payload(IngestError),
    /// The options are refused.
    Options(OptionError),
    /// The server refuses; holds its words.
    Server(String),
}

/// How many samples were stored, and how many there were.
#[derive(Debug, Clone, Copy, PartialEq, Eq, Structural)]
pub struct IngestCounts {
    pub ingested: usize,
    pub total: usize,
}

/// The policy of an ingestion: that of the command, or else that of the series, or else `BLOCK`.
pub open spec fn ingest_policy(
    series: SeriesView,
    on_duplicate: Option<DuplicatePolicy>,
) -> DuplicatePolicy {
    match on_duplicate {
        Some(p) => p,
        None => series.sample_duplicates.resolved(Some(DuplicatePolicy::Block)),
    }
}

/// The samples of a payload that the limits of the series let in.
pub open spec fn near_samples(series: SeriesView, samples: Seq<Sample>) -> Seq<Sample> {
    match series.sample_duplicates.ignore {
        Some(limits) => limits.kept(series.last_sample(), samples),
        None => samples,
    }
}

/// Writes the samples of a payload, which are in order of time, into `series`; gives how many were
/// stored, and how many there were.
pub fn ingest_samples(
    ctx: &mut Context,
    series: &mut TimeSeries,
    samples: &Vec<Sample>,
    on_duplicate: Option<DuplicatePolicy>,
) -> (r: IngestCounts)
    requires
        old(ctx)@.wf(),
        old(series)@.wf(),
    ensures
        ({
            let policy = ingest_policy(old(series)@, on_duplicate);
            let near = near_samples(old(series)@, samples@);
            &&& r.ingested == crate::common::ok_count(
                crate::bulk_add::insert_results(old(series)@, near, policy),
            )
            &&& r.total == samples@.len()
            &&& (final(ctx)@, final(series)@) == crate::bulk_add::bulk_inserted(
                old(ctx)@,
                old(series)@,
                near,
                policy,
                old(ctx)@.series.dom().len(),
            )
        }),
        final(ctx)@.wf(),
        final(ctx)@.series.dom() == old(ctx)@.series.dom(),
        final(series)@.wf(),
{
    let policy: DuplicatePolicy = match on_duplicate {
        Some(p) => p,
        None => series.sample_duplicates.resolve_policy(Some(DuplicatePolicy::Block)),
    };
    let results: Vec<SampleAddResult> = match series.sample_duplicates.ignore {
        Some(limits) => {
            let near: Vec<Sample> = limits.keep(series.last_sample(), samples);
            bulk_insert_samples(ctx, series, &near, Some(policy))
        },
        None => bulk_insert_samples(ctx, series, samples, Some(policy)),
    };
    IngestCounts { ingested: count_ok(&results), total: samples.len() }
}

/// Writes a payload into `series`; gives how many samples were stored, and how many there were. A
/// payload that is refused changes nothing.
pub fn handle_ingest(
    ctx: &mut Context,
    series: &mut TimeSeries,
    buf: Vec<u8>,
    on_duplicate: Option<DuplicatePolicy>,
) -> (r: Result<IngestCounts, CommandError>)
    requires
        old(ctx)@.wf(),
        old(series)@.wf(),
    ensures
        exists|parsed: Result<IngestedSamples, IngestError>| #[trigger]
            crate::ingest::parses_to(buf@, parsed) && match parsed {
                Ok(payload) => {
                    let policy = ingest_policy(old(series)@, on_duplicate);
                    let near = near_samples(old(series)@, payload.samples@);
                    &&& r is Ok
                    &&& r->Ok_0.ingested == crate::common::ok_count(
                        crate::bulk_add::insert_results(old(series)@, near, policy),
                    )
                    &&& r->Ok_0.total == payload.samples@.len()
                    &&& (final(ctx)@, final(series)@) == crate::bulk_add::bulk_inserted(
                        old(ctx)@,
                        old(series)@,
                        near,
                        policy,
                        old(ctx)@.series.dom().len(),
                    )
                },
                Err(e) => r == Err::<IngestCounts, CommandError>(CommandError::Payload(e))
                    && final(ctx)@ == old(ctx)@ && final(series)@ == old(series)@,
            },
        final(ctx)@.wf(),
        final(ctx)@.series.dom() == old(ctx)@.series.dom(),
        final(series)@.wf(),
{
    let mut buf: Vec<u8> = buf;
    let parsed: Result<IngestedSamples, IngestError> = IngestedSamples::from_json_lines(
        buf.as_mut_slice(),
    );
    match parsed {
        Ok(payload) => Ok(ingest_samples(ctx, series, &payload.samples, on_duplicate)),
        Err(e) => Err(CommandError::Payload(e)),
    }
}

/// What happened in the course of an ingestion.
#[derive(Debug)]
pub enum IngestEvent {
    /// The command was called.
    Called,
    /// The key holds a series.
    Found,
    /// The key holds nothing.
    Missing,
    /// The key was not looked up; holds why.
    LookUpFailed(String),
    /// A series was made and stored under the key.
    Created,
    /// No series was made; holds why.
    CreateFailed(String),
}

/// What is to be done next in the course of an ingestion.
#[derive(Debug)]
pub enum IngestStep {
    /// Answer with an error.
    Refuse(CommandError),
    /// Look the key up, for writing.
    LookUp,
    /// Make a series with the options and store it under the key.
    Create(SeriesOptions),
    /// Write the payload into the series, answer with the counts or the error, and pass the command
    /// on to the replicas where `replicate` says so.
    Ingest { on_duplicate: Option<DuplicatePolicy>, replicate: bool },
}

/// The policy that the options give for this command; none where they are refused.
pub open spec fn override_of(args: Seq<String>) -> Option<DuplicatePolicy> {
    match crate::options::options_from(
        crate::options::texts(args),
        FIRST_OPTION as int,
        crate::options::no_options(),
    ) {
        Ok(o) => o.on_duplicate,
        Err(_) => None,
    }
}

/// What is to be done next in the course of an ingestion: an existing series takes the payload in,
/// a missing one is made with the options first, and only then the command is passed on.
pub open spec fn ingest_after(args: Seq<String>, event: IngestEvent) -> IngestStep {
    match event {
        IngestEvent::Called => if args.len() < FIRST_OPTION {
            IngestStep::Refuse(CommandError::WrongArity)
        } else {
            IngestStep::LookUp
        },
        IngestEvent::Found => IngestStep::Ingest {
            on_duplicate: override_of(args),
            replicate: false,
        },
        IngestEvent::Missing => match crate::options::options_from(
            crate::options::texts(args),
            FIRST_OPTION as int,
            crate::options::no_options(),
        ) {
            Ok(o) => IngestStep::Create(o),
            Err(e) => IngestStep::Refuse(CommandError::Options(e)),
        },
        IngestEvent::LookUpFailed(why) => IngestStep::Refuse(CommandError::Server(why)),
        IngestEvent::Created => IngestStep::Ingest {
            on_duplicate: override_of(args),
            replicate: true,
        },
        IngestEvent::CreateFailed(why) => IngestStep::Refuse(CommandError::Server(why)),
    }
}

/// Goes on with an ingestion. The arguments are the name of the command, the key, the payload and
/// the options.
pub fn ingest(args: &Vec<String>, event: IngestEvent) -> (r: IngestStep)
    ensures
        r == ingest_after(args@, event),
        r is Create ==> crate::options::valid_options(r->Create_0, args@.len()),
{
    match event {
        IngestEvent::Called => if args.len() < FIRST_OPTION {
            IngestStep::Refuse(CommandError::WrongArity)
        } else {
            IngestStep::LookUp
        },
        IngestEvent::Found => {
            let on_duplicate: Option<DuplicatePolicy> = match parse_series_options(
                args,
                FIRST_OPTION,
            ) {
                Ok(o) => o.on_duplicate,
                Err(_) => None,
            };
            IngestStep::Ingest { on_duplicate, replicate: false }
        },
        IngestEvent::Missing => match parse_series_options(args, FIRST_OPTION) {
            Ok(o) => IngestStep::Create(o),
            Err(e) => IngestStep::Refuse(CommandError::Options(e)),
        },
        IngestEvent::LookUpFailed(why) => IngestStep::Refuse(CommandError::Server(why)),
        IngestEvent::Created => {
            let on_duplicate: Option<DuplicatePolicy> = match parse_series_options(
                args,
                FIRST_OPTION,
            ) {
                Ok(o) => o.on_duplicate,
                Err(_) => None,
            };
            IngestStep::Ingest { on_duplicate, replicate: true }
        },
        IngestEvent::CreateFailed(why) => IngestStep::Refuse(CommandError::Server(why)),
    }
}

/// An ingestion never counts more samples as stored than the payload holds.
pub proof fn law_ingested_at_most_all(
    series: SeriesView,
    samples: Seq<Sample>,
    on_duplicate: Option<DuplicatePolicy>,
)
    requires
        series.wf(),
        series.chunks.len() <= usize::MAX,
    ensures
        crate::common::ok_count(
            crate::bulk_add::insert_results(
                series,
                near_samples(series, samples),
                ingest_policy(series, on_duplicate),
            ),
        ) <= samples.len(),
{
    let near = near_samples(series, samples);
    let policy = ingest_policy(series, on_duplicate);
    let results = crate::bulk_add::insert_results(series, near, policy);
    crate::common::law_ok_count_bounded(results);
    crate::bulk_add::law_one_result_each(series, near, policy);
    crate::grouping::lemma_leading(
        near,
        crate::grouping::older_than(series.min_timestamp()),
    );
    if let Some(limits) = series.sample_duplicates.ignore {
        crate::ignore::law_kept_are_near(limits, series.last_sample(), samples);
    }
}

/// The policy that the command gives stands over that of the series; where neither gives one,
/// duplicates are blocked.
pub proof fn law_override_stands(series: SeriesView, on_duplicate: Option<DuplicatePolicy>)
    ensures
        on_duplicate is Some ==> ingest_policy(series, on_duplicate) == on_duplicate->0,
        on_duplicate is None && series.sample_duplicates.policy is Some ==> ingest_policy(
            series,
            on_duplicate,
        ) == series.sample_duplicates.policy->0,
        on_duplicate is None && series.sample_duplicates.policy is None ==> ingest_policy(
            series,
            on_duplicate,
        ) is Block,
{
}

/// Without limits every sample of a payload is let in. With limits, the first one let in lies within
/// those of the last sample stored, where there is one, and each one behind within those of the one let
/// in before it.
pub proof fn law_ingested_lie_near(series: SeriesView, samples: Seq<Sample>)
    requires
        series.wf(),
    ensures
        ({
            let near = near_samples(series, samples);
            match series.sample_duplicates.ignore {
                None => near == samples,
                Some(limits) => {
                    &&& forall|i: int| 0 <= i < near.len() ==> samples.contains(#[trigger] near[i])
                    &&& forall|i: int|
                        0 < i < near.len() ==> limits.near(near[i - 1], #[trigger] near[i])
                    &&& near.len() > 0 && series.samples().len() > 0 ==> limits.near(
                        series.samples().last(),
                        near[0],
                    )
                },
            }
        }),
{
    crate::series::law_series_tells_its_samples(series);
    if let Some(limits) = series.sample_duplicates.ignore {
        crate::ignore::law_kept_are_near(limits, series.last_sample(), samples);
    }
}

/// A payload whose samples lie within the limits, each of the one before, and the first one of the last
/// sample stored, is let in as it is.
pub proof fn law_near_payload_is_let_in(series: SeriesView, samples: Seq<Sample>)
    requires
        series.wf(),
        series.sample_duplicates.ignore is Some,
        series.samples().len() > 0 && samples.len() > 0
            ==> series.sample_duplicates.ignore->0.near(series.samples().last(), samples[0]),
        forall|i: int|
            0 < i < samples.len() ==> series.sample_duplicates.ignore->0.near(
                samples[i - 1],
                #[trigger] samples[i],
            ),
    ensures
        near_samples(series, samples) == samples,
{
    crate::series::law_series_tells_its_samples(series);
    crate::ignore::law_all_near_are_kept(
        series.sample_duplicates.ignore->0,
        series.last_sample(),
        samples,
    );
}

/// In the course of an ingestion, a payload is written only into a series that was found or made, a
/// series is made only where none was found, and the command is passed on only where one was made.
pub proof fn law_ingestion_takes_its_course(args: Seq<String>, event: IngestEvent)
    ensures
        ({
            let step = ingest_after(args, event);
            &&& step is Ingest <==> event is Found || event is Created
            &&& step is Ingest ==> step->replicate == (event is Created)
            &&& step is Create ==> event is Missing
            &&& step is LookUp ==> event is Called && args.len() >= 3
            &&& event is Called && args.len() < 3 ==> step is Refuse
            &&& event is LookUpFailed || event is CreateFailed ==> step is Refuse
        }),
{
}

} // verus!
