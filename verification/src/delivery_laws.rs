//! What a bulk insert leaves in the series that it is compacted into, and what the server is told.
use vstd::prelude::*;

use crate::common::{DuplicatePolicy, Sample, SampleAddResult, Timestamp};
use crate::context::{AddEvent, ContextView, EffectView, Warning};
use crate::series::{CompactionRule, SeriesRef, SeriesView};

verus! {

/// Whether none of the rules compacts into the series `id`.
pub open spec fn aim_elsewhere(rules: Seq<CompactionRule>, id: SeriesRef) -> bool {
    forall|r: int| 0 <= r < rules.len() ==> (#[trigger] rules[r]).dest_id != id
}

/// Whether no series in reach is compacted into the series `id`.
pub open spec fn untargeted(ctx: ContextView, id: SeriesRef) -> bool {
    forall|s: SeriesRef| #[trigger]
        ctx.series.contains_key(s) ==> aim_elsewhere(ctx.series[s].rules, id)
}

/// Whether the parts of a series fit together.
pub open spec fn sound(series: SeriesView) -> bool {
    series.wf() && series.chunks.len() <= usize::MAX
}

/// Whether both contexts hold the same under `id`.
spec fn same_at(a: ContextView, b: ContextView, id: SeriesRef) -> bool {
    &&& a.series.contains_key(id) == b.series.contains_key(id)
    &&& a.series.contains_key(id) ==> a.series[id] == b.series[id]
}

/// A write reaches no series that nothing is compacted into.
proof fn lemma_write_elsewhere(
    ctx: ContextView,
    series: SeriesView,
    samples: Seq<Sample>,
    policy: DuplicatePolicy,
    depth: nat,
    id: SeriesRef,
)
    requires
        untargeted(ctx, id),
        aim_elsewhere(series.rules, id),
    ensures
        ({
            let (after, written) = crate::bulk_add::bulk_inserted(
                ctx,
                series,
                samples,
                policy,
                depth,
            );
            &&& untargeted(after, id)
            &&& aim_elsewhere(written.rules, id)
            &&& same_at(ctx, after, id)
        }),
    decreases depth, 1nat, 0nat,
{
    if crate::grouping::grouped(series, samples).len() > 0 {
        let after = crate::bulk_add::inserted(series, samples, policy);
        let stored = crate::common::stored_samples(
            crate::bulk_add::insert_results(series, samples, policy),
        );
        let told = if after.total_samples > series.total_samples {
            ctx.notified(crate::bulk_add::add_event(after), seq![after.id])
        } else {
            ctx
        };
        assert(told.series == ctx.series);
        assert(untargeted(told, id));
        assert(after.rules == series.rules);
        if after.rules.len() > 0 && stored.len() > 0 {
            let rules = crate::bulk_add::rules_after(after, stored);
            let batches = crate::bulk_add::rule_batches(after, stored);
            assert forall|r: int| 0 <= r < rules.len() implies (#[trigger] rules[r]).dest_id
                != id by {
                assert(after.rules[r].dest_id != id);
            }
            lemma_deliver_elsewhere(told, rules, batches, 0, rules.len(), depth, id);
        }
    }
}

/// Rules that aim elsewhere leave a series that nothing is compacted into as it was.
proof fn lemma_deliver_elsewhere(
    ctx: ContextView,
    rules: Seq<CompactionRule>,
    batches: Seq<Seq<Sample>>,
    m: nat,
    n: nat,
    depth: nat,
    id: SeriesRef,
)
    requires
        m <= n <= rules.len(),
        untargeted(crate::bulk_add::delivered(ctx, rules, batches, m, depth), id),
        forall|r: int| m <= r < n ==> (#[trigger] rules[r]).dest_id != id,
    ensures
        untargeted(crate::bulk_add::delivered(ctx, rules, batches, n, depth), id),
        same_at(
            crate::bulk_add::delivered(ctx, rules, batches, m, depth),
            crate::bulk_add::delivered(ctx, rules, batches, n, depth),
            id,
        ),
    decreases depth, 0nat, n,
{
    if m < n {
        lemma_deliver_elsewhere(ctx, rules, batches, m, (n - 1) as nat, depth, id);
        let before = crate::bulk_add::delivered(ctx, rules, batches, (n - 1) as nat, depth);
        let dest = rules[n - 1].dest_id;
        if depth > 0 && before.series.contains_key(dest) {
            lemma_deliver_once(before, batches[n - 1], dest, depth, id);
        }
    }
}

/// One delivery targets nothing new, and changes no series that nothing is compacted into but its own.
proof fn lemma_deliver_once(
    before: ContextView,
    batch: Seq<Sample>,
    dest: SeriesRef,
    depth: nat,
    id: SeriesRef,
)
    requires
        depth > 0,
        before.series.contains_key(dest),
        untargeted(before, id),
    ensures
        ({
            let (rest, written) = crate::bulk_add::bulk_inserted(
                before.without(dest),
                before.series[dest],
                batch,
                DuplicatePolicy::KeepLast,
                (depth - 1) as nat,
            );
            let after = rest.with(dest, written);
            &&& untargeted(after, id)
            &&& dest != id ==> same_at(before, after, id)
        }),
    decreases (depth - 1) as nat, 2nat, 0nat,
{
    let out = before.without(dest);
    assert forall|s: SeriesRef| #[trigger] out.series.contains_key(s) implies aim_elsewhere(
        out.series[s].rules,
        id,
    ) by {
        assert(before.series.contains_key(s));
    }
    lemma_write_elsewhere(
        out,
        before.series[dest],
        batch,
        DuplicatePolicy::KeepLast,
        (depth - 1) as nat,
        id,
    );
    let (rest, written) = crate::bulk_add::bulk_inserted(
        out,
        before.series[dest],
        batch,
        DuplicatePolicy::KeepLast,
        (depth - 1) as nat,
    );
    let after = rest.with(dest, written);
    assert forall|s: SeriesRef| #[trigger] after.series.contains_key(s) implies aim_elsewhere(
        after.series[s].rules,
        id,
    ) by {
        if s != dest {
            assert(rest.series.contains_key(s));
        }
    }
}

/// The samples reported as stored have the times of results, in order.
proof fn lemma_stored_times(results: Seq<SampleAddResult>, times: Seq<Sample>)
    requires
        results.len() == times.len(),
        crate::placement::in_time(times),
        forall|i: int|
            0 <= i < results.len() ==> ((#[trigger] results[i]) matches SampleAddResult::Stored(y)
                ==> y.timestamp == times[i].timestamp),
    ensures
        crate::sorting::in_order(
            crate::common::stored_samples(results),
            crate::sorting::sample_time(),
        ),
        forall|k: int|
            0 <= k < crate::common::stored_samples(results).len() ==> crate::chunk::has_time(
                times,
                (#[trigger] crate::common::stored_samples(results)[k]).timestamp,
            ),
    decreases results.len(),
{
    if results.len() > 0 {
        let n = results.len() - 1;
        let (d, e) = (results.drop_last(), times.drop_last());
        assert(crate::placement::in_time(e)) by {
            assert forall|i: int, j: int| 0 <= i <= j < e.len() implies (#[trigger] e[i]).timestamp
                <= (#[trigger] e[j]).timestamp by {
                assert(times[i].timestamp <= times[j].timestamp);
            }
        }
        assert forall|i: int| 0 <= i < d.len() implies ((
        #[trigger] d[i]) matches SampleAddResult::Stored(y) ==> y.timestamp == e[i].timestamp) by {
            assert(d[i] == results[i]);
        }
        lemma_stored_times(d, e);
        let key = crate::sorting::sample_time();
        let rest = crate::common::stored_samples(d);
        let all = crate::common::stored_samples(results);
        assert(results[n] == results.last());
        assert forall|k: int| 0 <= k < all.len() implies crate::chunk::has_time(
            times,
            (#[trigger] all[k]).timestamp,
        ) by {
            if k < rest.len() {
                assert(all[k] == rest[k]);
                let i = choose|i: int|
                    0 <= i < e.len() && (#[trigger] e[i]).timestamp == rest[k].timestamp;
                assert(times[i].timestamp == all[k].timestamp);
            } else {
                assert(times[n].timestamp == all[k].timestamp);
            }
        }
        assert forall|i: int, j: int| 0 <= i <= j < all.len() implies key(#[trigger] all[i]) <= key(
            #[trigger] all[j],
        ) by {
            if i < rest.len() {
                assert(all[i] == rest[i]);
                if j < rest.len() {
                    assert(all[j] == rest[j]);
                    assert(key(rest[i]) <= key(rest[j]));
                } else {
                    let k = choose|k: int|
                        0 <= k < e.len() && (#[trigger] e[k]).timestamp == rest[i].timestamp;
                    assert(times[k].timestamp <= times[n].timestamp);
                }
            }
        }
    }
}

/// What is reported as stored, where samples in order of time are written: it is in order of time, the
/// series holds a sample at each of its times, none of these lies before 0, and its buckets start at
/// times that can be told.
proof fn lemma_stored(
    series: SeriesView,
    samples: Seq<Sample>,
    policy: DuplicatePolicy,
    rule: CompactionRule,
)
    requires
        series.wf(),
        series.chunks.len() <= usize::MAX,
        rule.wf(),
        crate::sorting::in_order(samples, crate::sorting::sample_time()),
    ensures
        ({
            let stored = crate::common::stored_samples(
                crate::bulk_add::insert_results(series, samples, policy),
            );
            let after = crate::bulk_add::inserted(series, samples, policy);
            &&& crate::sorting::in_order(stored, crate::sorting::sample_time())
            &&& forall|k: int|
                0 <= k < stored.len() ==> crate::chunk::has_time(
                    after.samples(),
                    (#[trigger] stored[k]).timestamp,
                ) && crate::compaction_laws::unclipped(rule, stored[k].timestamp)
                    && stored[k].timestamp >= 0
        }),
{
    let kept = crate::grouping::admitted(series, samples);
    let results = crate::bulk_add::insert_results(series, samples, policy);
    let stored = crate::common::stored_samples(results);
    let after = crate::bulk_add::inserted(series, samples, policy);
    crate::policy_laws::lemma_admitted_in_time(series, samples);
    crate::read_back::law_results_are_of_one_run(series, samples, policy);
    lemma_stored_times(results, kept);
    assert forall|k: int| 0 <= k < stored.len() implies crate::chunk::has_time(
        after.samples(),
        (#[trigger] stored[k]).timestamp,
    ) && crate::compaction_laws::unclipped(rule, stored[k].timestamp) && stored[k].timestamp
        >= 0 by {
        let t = stored[k].timestamp;
        crate::read_back::law_times_after_write(series, samples, policy, t);
        let i = choose|i: int| 0 <= i < kept.len() && (#[trigger] kept[i]).timestamp == t;
        assert(kept.contains(kept[i]));
        crate::read_back::law_retention_drops_old(series, samples, kept[i]);
        assert(t >= 0);
        vstd::arithmetic::div_mod::lemma_mod_bound(
            t - rule.align_timestamp,
            rule.bucket_duration as int,
        );
    }
}

/// What the destination of a rule holds after a bulk insert: the batch of the rule is written into it,
/// where anything was stored, and nothing else reaches it.
#[verifier::rlimit(40)]
proof fn lemma_destination(
    ctx: ContextView,
    series: SeriesView,
    samples: Seq<Sample>,
    policy: DuplicatePolicy,
    depth: nat,
    r: int,
)
    requires
        series.wf(),
        series.chunks.len() <= usize::MAX,
        depth > 0,
        0 <= r < series.rules.len(),
        ctx.series.contains_key(series.rules[r].dest_id),
        sound(ctx.series[series.rules[r].dest_id]),
        untargeted(ctx, series.rules[r].dest_id),
        forall|j: int|
            0 <= j < series.rules.len() && j != r ==> (#[trigger] series.rules[j]).dest_id
                != series.rules[r].dest_id,
    ensures
        ({
            let id = series.rules[r].dest_id;
            let after = crate::bulk_add::bulk_inserted(ctx, series, samples, policy, depth).0;
            let plain = crate::bulk_add::inserted(series, samples, policy);
            let stored = crate::common::stored_samples(
                crate::bulk_add::insert_results(series, samples, policy),
            );
            &&& after.series.contains_key(id)
            &&& after.series[id].samples() == if stored.len() == 0 {
                ctx.series[id].samples()
            } else {
                crate::bulk_add::inserted(
                    ctx.series[id],
                    crate::compaction::compacted_samples(plain, series.rules[r], stored),
                    DuplicatePolicy::KeepLast,
                ).samples()
            }
        }),
{
    let id = series.rules[r].dest_id;
    let results = crate::bulk_add::insert_results(series, samples, policy);
    let stored = crate::common::stored_samples(results);
    let plain = crate::bulk_add::inserted(series, samples, policy);
    crate::bulk_add::law_one_result_each(series, samples, policy);
    crate::grouping::law_grouping(series, samples);
    crate::common::law_ok_count_bounded(results);
    if crate::grouping::grouped(series, samples).len() == 0 {
        assert(results.len() == 0);
    }
    let told = if plain.total_samples > series.total_samples {
        ctx.notified(crate::bulk_add::add_event(plain), seq![plain.id])
    } else {
        ctx
    };
    assert(told.series == ctx.series);
    assert(untargeted(told, id));
    assert(plain.rules == series.rules);
    if stored.len() > 0 {
        let rules = crate::bulk_add::rules_after(plain, stored);
        let batches = crate::bulk_add::rule_batches(plain, stored);
        let n = rules.len();
        let batch = batches[r];
        assert(rules[r].dest_id == id);
        assert forall|j: int| 0 <= j < rules.len() && j != r implies (#[trigger] rules[j]).dest_id
            != id by {
            assert(series.rules[j].dest_id != id);
        }
        lemma_deliver_elsewhere(told, rules, batches, 0, r as nat, depth, id);
        let before = crate::bulk_add::delivered(told, rules, batches, r as nat, depth);
        lemma_deliver_once(before, batch, id, depth, id);
        let upto = crate::bulk_add::delivered(told, rules, batches, (r + 1) as nat, depth);
        assert(untargeted(upto, id));
        lemma_deliver_elsewhere(told, rules, batches, (r + 1) as nat, n, depth, id);
        crate::bulk_add::law_destination_takes_batch(told, rules, batches, (r + 1) as nat, depth);
    }
}

/// Samples in order of time having been bulk inserted into a series, for every one of them that is
/// reported as stored, new or written over an old one, and for every rule of the series whose
/// destination is in reach: where the bucket of the sample takes in no more samples, and the retention
/// of the destination keeps its start, the destination holds at the start of the bucket the aggregate
/// of all samples that the series now holds in the bucket. This is of the context after the whole
/// insert, with all compactions and those that follow from them; nothing else may be compacted into
/// the destination.
#[verifier::rlimit(40)]
pub proof fn law_destination_holds_rebuilt_bucket(
    ctx: ContextView,
    series: SeriesView,
    samples: Seq<Sample>,
    policy: DuplicatePolicy,
    depth: nat,
    r: int,
    x: Sample,
)
    requires
        series.wf(),
        series.chunks.len() <= usize::MAX,
        depth > 0,
        crate::sorting::in_order(samples, crate::sorting::sample_time()),
        0 <= r < series.rules.len(),
        ctx.series.contains_key(series.rules[r].dest_id),
        sound(ctx.series[series.rules[r].dest_id]),
        untargeted(ctx, series.rules[r].dest_id),
        forall|j: int|
            0 <= j < series.rules.len() && j != r ==> (#[trigger] series.rules[j]).dest_id
                != series.rules[r].dest_id,
        crate::bulk_add::insert_results(series, samples, policy).contains(
            SampleAddResult::Stored(x),
        ),
        crate::compaction_laws::closed_at(
            series.rules[r],
            series.rules[r].bucket_of(x.timestamp),
        ),
        series.rules[r].bucket_of(x.timestamp)
            >= ctx.series[series.rules[r].dest_id].min_timestamp(),
    ensures
        ({
            let rule = series.rules[r];
            let (after, written) = crate::bulk_add::bulk_inserted(
                ctx,
                series,
                samples,
                policy,
                depth,
            );
            let b = rule.bucket_of(x.timestamp) as Timestamp;
            let in_bucket = written.samples().filter(|y: Sample| rule.bucket_of(y.timestamp) == b);
            &&& after.series.contains_key(rule.dest_id)
            &&& after.series[rule.dest_id].samples().contains(
                Sample {
                    timestamp: b,
                    value: crate::aggregate_laws::aggregate(rule.aggregator.kind, in_bucket),
                },
            )
        }),
{
    let rule = series.rules[r];
    let id = rule.dest_id;
    let results = crate::bulk_add::insert_results(series, samples, policy);
    let stored = crate::common::stored_samples(results);
    let plain = crate::bulk_add::inserted(series, samples, policy);
    let i = choose|i: int| 0 <= i < results.len() && results[i] == SampleAddResult::Stored(x);
    lemma_stored_holds(results, i);
    let k = choose|k: int| 0 <= k < stored.len() && stored[k] == x;
    lemma_stored(series, samples, policy, rule);
    lemma_destination(ctx, series, samples, policy, depth, r);
    // what is delivered
    let batch = crate::compaction::compacted_samples(plain, rule, stored);
    crate::bulk_add::law_insert_keeps_series(series, samples, policy);
    crate::compaction_laws::law_closed_bucket_is_rebuilt(plain, rule, stored, k);
    let b = rule.bucket_of(x.timestamp) as Timestamp;
    let e = crate::compaction_laws::bucket_aggregate(
        rule,
        rule.aggregator.kind,
        plain.samples(),
        b,
    );
    // the destination takes it in
    let dest = ctx.series[id];
    crate::compaction_laws::lemma_ascending_in_order(batch);
    crate::read_back::law_retention_drops_old(dest, batch, e);
    lemma_admitted_ascending(dest, batch);
    crate::read_back::law_write_reads_back(dest, batch, DuplicatePolicy::KeepLast, e);
    crate::bulk_add::law_compacting_leaves_samples(ctx, series, samples, policy, depth);
}

proof fn lemma_admitted_ascending(dest: SeriesView, batch: Seq<Sample>)
    requires
        crate::chunk::ascending(batch),
    ensures
        crate::chunk::ascending(crate::grouping::admitted(dest, batch)),
        crate::placement::in_time(crate::grouping::admitted(dest, batch)),
{
    crate::compaction_laws::lemma_ascending_in_order(batch);
    crate::policy_laws::lemma_admitted_in_time(dest, batch);
    let kept = crate::grouping::admitted(dest, batch);
    let m = choose|m: int|
        0 <= m <= batch.len() && kept == #[trigger] batch.skip(m) && forall|j: int|
            0 <= j < m ==> (#[trigger] batch[j]).timestamp < dest.min_timestamp();
    assert forall|a: int, c: int| 0 <= a < c < kept.len() implies (#[trigger] kept[a]).timestamp < (
    #[trigger] kept[c]).timestamp by {
        assert(batch[m + a].timestamp < batch[m + c].timestamp);
    }
}

/// A bulk insert leaves every sample of a destination as it was that stands at no start of a bucket
/// with samples of the series, and adds none there.
pub proof fn law_destination_keeps_other_times(
    ctx: ContextView,
    series: SeriesView,
    samples: Seq<Sample>,
    policy: DuplicatePolicy,
    depth: nat,
    r: int,
    y: Sample,
)
    requires
        series.wf(),
        series.chunks.len() <= usize::MAX,
        depth > 0,
        crate::sorting::in_order(samples, crate::sorting::sample_time()),
        0 <= r < series.rules.len(),
        ctx.series.contains_key(series.rules[r].dest_id),
        sound(ctx.series[series.rules[r].dest_id]),
        untargeted(ctx, series.rules[r].dest_id),
        forall|j: int|
            0 <= j < series.rules.len() && j != r ==> (#[trigger] series.rules[j]).dest_id
                != series.rules[r].dest_id,
        forall|z: Sample| #[trigger]
            crate::bulk_add::bulk_inserted(
                ctx,
                series,
                samples,
                policy,
                depth,
            ).1.samples().contains(z) ==> series.rules[r].bucket_of(z.timestamp) != y.timestamp,
    ensures
        ({
            let id = series.rules[r].dest_id;
            let after = crate::bulk_add::bulk_inserted(ctx, series, samples, policy, depth).0;
            after.series[id].samples().contains(y) <==> ctx.series[id].samples().contains(y)
        }),
{
    let rule = series.rules[r];
    let dest = ctx.series[rule.dest_id];
    let stored = crate::common::stored_samples(
        crate::bulk_add::insert_results(series, samples, policy),
    );
    let plain = crate::bulk_add::inserted(series, samples, policy);
    lemma_destination(ctx, series, samples, policy, depth, r);
    if stored.len() > 0 {
        let batch = crate::compaction::compacted_samples(plain, rule, stored);
        crate::bulk_add::law_insert_keeps_series(series, samples, policy);
        lemma_stored(series, samples, policy, rule);
        crate::compaction_laws::law_compacted_in_order(plain, rule, stored);
        crate::bulk_add::law_compacting_leaves_samples(ctx, series, samples, policy, depth);
        lemma_admitted_ascending(dest, batch);
        let kept = crate::grouping::admitted(dest, batch);
        if crate::chunk::has_time(kept, y.timestamp) {
            let i = choose|i: int|
                0 <= i < kept.len() && (#[trigger] kept[i]).timestamp == y.timestamp;
            crate::compaction_laws::lemma_ascending_in_order(batch);
            assert(kept.contains(kept[i]));
            crate::read_back::law_retention_drops_old(dest, batch, kept[i]);
            let j = choose|j: int| 0 <= j < batch.len() && batch[j] == kept[i];
            assert(crate::compaction_laws::bucket_with_samples(
                rule,
                plain.samples(),
                batch[j].timestamp,
            ));
            let z = choose|z: Sample| #[trigger]
                plain.samples().contains(z) && rule.bucket_of(z.timestamp) == y.timestamp;
            assert(crate::bulk_add::bulk_inserted(
                ctx,
                series,
                samples,
                policy,
                depth,
            ).1.samples().contains(z));
        }
        crate::read_back::law_other_times_stay(dest, batch, DuplicatePolicy::KeepLast, y);
    }
}

/// A bulk insert reaches no series that nothing is compacted into.
pub proof fn law_unrelated_series_stay(
    ctx: ContextView,
    series: SeriesView,
    samples: Seq<Sample>,
    policy: DuplicatePolicy,
    depth: nat,
    id: SeriesRef,
)
    requires
        untargeted(ctx, id),
        aim_elsewhere(series.rules, id),
        ctx.series.contains_key(id),
    ensures
        ({
            let after = crate::bulk_add::bulk_inserted(ctx, series, samples, policy, depth).0;
            after.series.contains_key(id) && after.series[id] == ctx.series[id]
        }),
{
    lemma_write_elsewhere(ctx, series, samples, policy, depth, id);
}

/// A bulk insert leaves the rules of the series as they are, but for their running aggregations.
pub proof fn law_rules_stay(
    ctx: ContextView,
    series: SeriesView,
    samples: Seq<Sample>,
    policy: DuplicatePolicy,
    depth: nat,
    r: int,
)
    requires
        0 <= r < series.rules.len(),
    ensures
        ({
            let written = crate::bulk_add::bulk_inserted(ctx, series, samples, policy, depth).1;
            let (a, b) = (written.rules[r], series.rules[r]);
            &&& a.dest_id == b.dest_id
            &&& a.bucket_duration == b.bucket_duration
            &&& a.align_timestamp == b.align_timestamp
            &&& a.bucket_start == b.bucket_start
            &&& a.aggregator.kind == b.aggregator.kind
        }),
{
    let plain = crate::bulk_add::inserted(series, samples, policy);
    let stored = crate::common::stored_samples(
        crate::bulk_add::insert_results(series, samples, policy),
    );
    assert(plain.rules == series.rules);
    crate::compaction_laws::law_rule_stays(plain, series.rules[r], stored);
}

/// What is reported as stored is among the stored samples.
proof fn lemma_stored_holds(results: Seq<SampleAddResult>, i: int)
    requires
        0 <= i < results.len(),
        results[i] is Stored,
    ensures
        crate::common::stored_samples(results).contains(results[i]->Stored_0),
    decreases results.len(),
{
    let d = results.drop_last();
    let all = crate::common::stored_samples(results);
    let rest = crate::common::stored_samples(d);
    if i < d.len() {
        lemma_stored_holds(d, i);
        let k = choose|k: int| 0 <= k < rest.len() && rest[k] == d[i]->Stored_0;
        assert(all[k] == rest[k]);
    } else {
        assert(all[all.len() - 1] == results[i]->Stored_0);
    }
}

/// Where a bulk insert makes a series hold more samples, the server is told so first of all, at the
/// key of the series: as of a compaction, where the series is compacted from another one; where its key
/// is not known, a warning stands in its place. Where it does not, and nothing is compacted, the server
/// is told nothing.
pub proof fn law_gain_is_told(
    ctx: ContextView,
    series: SeriesView,
    samples: Seq<Sample>,
    policy: DuplicatePolicy,
    depth: nat,
)
    ensures
        ({
            let (after, written) = crate::bulk_add::bulk_inserted(
                ctx,
                series,
                samples,
                policy,
                depth,
            );
            let n = ctx.effects.len() as int;
            let event = if series.src_series is Some {
                AddEvent::AddDest
            } else {
                AddEvent::Add
            };
            &&& written.total_samples > series.total_samples ==> {
                &&& after.effects.len() > n
                &&& after.effects[n] == if ctx.keys.contains_key(series.id) {
                    EffectView::Notify { event, key: ctx.keys[series.id] }
                } else {
                    EffectView::Warn(Warning::SeriesKeyNotFound)
                }
            }
            &&& written.total_samples <= series.total_samples && series.rules.len() == 0
                ==> after.effects == ctx.effects
        }),
{
    let (after, written) = crate::bulk_add::bulk_inserted(ctx, series, samples, policy, depth);
    let n = ctx.effects.len() as int;
    crate::bulk_add::law_write_keeps_surroundings(ctx, series, samples, policy, depth);
    crate::bulk_add::law_compacting_leaves_samples(ctx, series, samples, policy, depth);
    if crate::grouping::grouped(series, samples).len() > 0 {
        let plain = crate::bulk_add::inserted(series, samples, policy);
        assert(written.total_samples == plain.total_samples);
        if plain.total_samples > series.total_samples {
            let told = ctx.notified(crate::bulk_add::add_event(plain), seq![plain.id]);
            let stored = crate::common::stored_samples(
                crate::bulk_add::insert_results(series, samples, policy),
            );
            assert(told.effects.len() == n + 1);
            assert(told.effects[n] == ctx.effect_of(
                crate::bulk_add::add_event(plain),
                plain.id,
            ));
            if plain.rules.len() > 0 && stored.len() > 0 {
                let rules = crate::bulk_add::rules_after(plain, stored);
                crate::bulk_add::lemma_delivery_keeps_surroundings(
                    told,
                    rules,
                    crate::bulk_add::rule_batches(plain, stored),
                    rules.len(),
                    depth,
                );
                assert(after.effects.take(told.effects.len() as int)[n] == told.effects[n]);
            }
        }
    }
}

/// Samples in order of time that all fall into the bucket of a rule that still takes in samples having
/// been bulk inserted, some of them stored, the running aggregation of the rule has taken in the samples
/// that the series now holds in the bucket.
pub proof fn law_open_bucket_takes_in(
    ctx: ContextView,
    series: SeriesView,
    samples: Seq<Sample>,
    policy: DuplicatePolicy,
    depth: nat,
    r: int,
    b: Timestamp,
    x: Sample,
)
    requires
        series.wf(),
        series.chunks.len() <= usize::MAX,
        crate::sorting::in_order(samples, crate::sorting::sample_time()),
        0 <= r < series.rules.len(),
        series.rules[r].bucket_start == Some(b),
        b + series.rules[r].bucket_duration <= i64::MAX,
        forall|i: int|
            0 <= i < samples.len() ==> series.rules[r].bucket_of((#[trigger] samples[i]).timestamp)
                == b,
        crate::bulk_add::insert_results(series, samples, policy).contains(
            SampleAddResult::Stored(x),
        ),
    ensures
        ({
            let rule = series.rules[r];
            let written = crate::bulk_add::bulk_inserted(ctx, series, samples, policy, depth).1;
            let in_bucket = written.samples().filter(|y: Sample| rule.bucket_of(y.timestamp) == b);
            written.rules[r].aggregator == rule.aggregator.fed(in_bucket)
        }),
{
    let rule = series.rules[r];
    let results = crate::bulk_add::insert_results(series, samples, policy);
    let stored = crate::common::stored_samples(results);
    let plain = crate::bulk_add::inserted(series, samples, policy);
    let i = choose|i: int| 0 <= i < results.len() && results[i] == SampleAddResult::Stored(x);
    lemma_stored_holds(results, i);
    lemma_open_batch(series, samples, policy, rule, b);
    crate::bulk_add::law_one_result_each(series, samples, policy);
    crate::grouping::law_grouping(series, samples);
    if crate::grouping::grouped(series, samples).len() == 0 {
        assert(results.len() == 0);
    }
    crate::bulk_add::law_compacting_leaves_samples(ctx, series, samples, policy, depth);
    let written = crate::bulk_add::bulk_inserted(ctx, series, samples, policy, depth).1;
    assert(plain.rules == series.rules);
    assert(written.rules[r] == crate::compaction::rule_after(plain, rule, stored));
}

/// Samples in order of time that all fall into the bucket of a rule that still takes in samples leave
/// the destination of the rule as it was: what an open bucket comes to is not delivered.
pub proof fn law_open_bucket_is_not_delivered(
    ctx: ContextView,
    series: SeriesView,
    samples: Seq<Sample>,
    policy: DuplicatePolicy,
    depth: nat,
    r: int,
    b: Timestamp,
)
    requires
        series.wf(),
        series.chunks.len() <= usize::MAX,
        depth > 0,
        crate::sorting::in_order(samples, crate::sorting::sample_time()),
        0 <= r < series.rules.len(),
        ctx.series.contains_key(series.rules[r].dest_id),
        sound(ctx.series[series.rules[r].dest_id]),
        untargeted(ctx, series.rules[r].dest_id),
        forall|j: int|
            0 <= j < series.rules.len() && j != r ==> (#[trigger] series.rules[j]).dest_id
                != series.rules[r].dest_id,
        series.rules[r].bucket_start == Some(b),
        b + series.rules[r].bucket_duration <= i64::MAX,
        forall|i: int|
            0 <= i < samples.len() ==> series.rules[r].bucket_of((#[trigger] samples[i]).timestamp)
                == b,
    ensures
        ({
            let id = series.rules[r].dest_id;
            let after = crate::bulk_add::bulk_inserted(ctx, series, samples, policy, depth).0;
            after.series[id].samples() == ctx.series[id].samples()
        }),
{
    let rule = series.rules[r];
    let stored = crate::common::stored_samples(
        crate::bulk_add::insert_results(series, samples, policy),
    );
    let plain = crate::bulk_add::inserted(series, samples, policy);
    lemma_destination(ctx, series, samples, policy, depth, r);
    if stored.len() > 0 {
        lemma_open_batch(series, samples, policy, rule, b);
        let dest = ctx.series[rule.dest_id];
        let batch = crate::compaction::compacted_samples(plain, rule, stored);
        crate::grouping::law_grouping(dest, batch);
        crate::grouping::lemma_leading(
            batch,
            crate::grouping::older_than(dest.min_timestamp()),
        );
        crate::bulk_add::law_one_result_each(dest, batch, DuplicatePolicy::KeepLast);
        crate::read_back::law_chunks_are_one_run(dest, batch, DuplicatePolicy::KeepLast);
    }
}

/// What a rule gives where all samples that were written fall into its open bucket.
proof fn lemma_open_batch(
    series: SeriesView,
    samples: Seq<Sample>,
    policy: DuplicatePolicy,
    rule: CompactionRule,
    b: Timestamp,
)
    requires
        series.wf(),
        series.chunks.len() <= usize::MAX,
        crate::sorting::in_order(samples, crate::sorting::sample_time()),
        rule.wf(),
        rule.bucket_start == Some(b),
        b + rule.bucket_duration <= i64::MAX,
        forall|i: int|
            0 <= i < samples.len() ==> rule.bucket_of((#[trigger] samples[i]).timestamp) == b,
        crate::common::stored_samples(
            crate::bulk_add::insert_results(series, samples, policy),
        ).len() > 0,
    ensures
        ({
            let stored = crate::common::stored_samples(
                crate::bulk_add::insert_results(series, samples, policy),
            );
            let plain = crate::bulk_add::inserted(series, samples, policy);
            &&& crate::compaction::compacted_samples(plain, rule, stored) == Seq::<Sample>::empty()
            &&& crate::compaction::rule_after(plain, rule, stored).aggregator
                == rule.aggregator.fed(
                plain.samples().filter(|y: Sample| rule.bucket_of(y.timestamp) == b),
            )
        }),
{
    let results = crate::bulk_add::insert_results(series, samples, policy);
    let stored = crate::common::stored_samples(results);
    let plain = crate::bulk_add::inserted(series, samples, policy);
    let kept = crate::grouping::admitted(series, samples);
    lemma_stored(series, samples, policy, rule);
    crate::bulk_add::law_insert_keeps_series(series, samples, policy);
    crate::bulk_add::law_one_result_each(series, samples, policy);
    crate::policy_laws::lemma_admitted_in_time(series, samples);
    crate::read_back::law_results_are_of_one_run(series, samples, policy);
    lemma_stored_times(results, kept);
    let n = choose|n: int|
        0 <= n <= samples.len() && kept == #[trigger] samples.skip(n) && forall|j: int|
            0 <= j < n ==> (#[trigger] samples[j]).timestamp < series.min_timestamp();
    assert forall|j: int| 0 <= j < stored.len() implies rule.bucket_of(
        (#[trigger] stored[j]).timestamp,
    ) == b by {
        let m = choose|m: int|
            0 <= m < kept.len() && (#[trigger] kept[m]).timestamp == stored[j].timestamp;
        assert(kept[m] == samples[n + m]);
    }
    let t = stored[0].timestamp;
    crate::series::law_buckets_are_aligned(rule, t);
    crate::compaction_laws::lemma_bucket_bounds(rule, t);
    let all = plain.samples();
    let j = choose|j: int| 0 <= j < all.len() && (#[trigger] all[j]).timestamp == t;
    all.lemma_filter_contains(|y: Sample| rule.bucket_of(y.timestamp) == b, j);
    crate::compaction_laws::law_open_bucket_is_carried_on(plain, rule, stored, b);
}

/// The series that rules compact into, in order.
spec fn aims(rules: Seq<CompactionRule>) -> Seq<SeriesRef> {
    rules.map_values(|rule: CompactionRule| rule.dest_id)
}

/// Whether the same series are in reach, each compacted into the same ones.
spec fn same_aims(a: ContextView, b: ContextView) -> bool {
    &&& a.series.dom() == b.series.dom()
    &&& forall|s: SeriesRef| #[trigger]
        a.series.contains_key(s) ==> aims(b.series[s].rules) == aims(a.series[s].rules)
}

/// A write changes no aim of any rule.
proof fn lemma_aims_stay(
    ctx: ContextView,
    series: SeriesView,
    samples: Seq<Sample>,
    policy: DuplicatePolicy,
    depth: nat,
)
    ensures
        ({
            let (after, written) = crate::bulk_add::bulk_inserted(
                ctx,
                series,
                samples,
                policy,
                depth,
            );
            &&& same_aims(ctx, after)
            &&& aims(written.rules) == aims(series.rules)
        }),
    decreases depth, 1nat, 0nat,
{
    if crate::grouping::grouped(series, samples).len() > 0 {
        let after = crate::bulk_add::inserted(series, samples, policy);
        let stored = crate::common::stored_samples(
            crate::bulk_add::insert_results(series, samples, policy),
        );
        let told = if after.total_samples > series.total_samples {
            ctx.notified(crate::bulk_add::add_event(after), seq![after.id])
        } else {
            ctx
        };
        assert(told.series == ctx.series);
        assert(after.rules == series.rules);
        if after.rules.len() > 0 && stored.len() > 0 {
            let rules = crate::bulk_add::rules_after(after, stored);
            assert(aims(rules) =~= aims(series.rules));
            lemma_aims_stay_delivered(
                told,
                rules,
                crate::bulk_add::rule_batches(after, stored),
                rules.len(),
                depth,
            );
        }
    }
}

proof fn lemma_aims_stay_delivered(
    ctx: ContextView,
    rules: Seq<CompactionRule>,
    batches: Seq<Seq<Sample>>,
    n: nat,
    depth: nat,
)
    ensures
        same_aims(ctx, crate::bulk_add::delivered(ctx, rules, batches, n, depth)),
    decreases depth, 0nat, n,
{
    if n > 0 {
        lemma_aims_stay_delivered(ctx, rules, batches, (n - 1) as nat, depth);
        let before = crate::bulk_add::delivered(ctx, rules, batches, (n - 1) as nat, depth);
        let after = crate::bulk_add::delivered(ctx, rules, batches, n, depth);
        let id = rules[n - 1].dest_id;
        if depth > 0 && before.series.contains_key(id) {
            let out = before.without(id);
            lemma_aims_stay(
                out,
                before.series[id],
                batches[n - 1],
                DuplicatePolicy::KeepLast,
                (depth - 1) as nat,
            );
            let rest = crate::bulk_add::bulk_inserted(
                out,
                before.series[id],
                batches[n - 1],
                DuplicatePolicy::KeepLast,
                (depth - 1) as nat,
            ).0;
            assert(before.series.dom().contains(id));
            assert(after.series.dom() =~= before.series.dom());
            assert forall|s: SeriesRef| #[trigger] ctx.series.contains_key(s) implies aims(
                after.series[s].rules,
            ) == aims(ctx.series[s].rules) by {
                assert(ctx.series.dom().contains(s));
                assert(before.series.dom().contains(s));
                if s != id {
                    assert(out.series.contains_key(s));
                    assert(aims(rest.series[s].rules) == aims(out.series[s].rules));
                }
            }
        }
    }
}

/// Whether nothing in reach is compacted into the series `a`, and nothing but `a` into `b`.
pub open spec fn in_a_row(ctx: ContextView, a: SeriesRef, b: SeriesRef) -> bool {
    forall|s: SeriesRef| #[trigger]
        ctx.series.contains_key(s) ==> aim_elsewhere(ctx.series[s].rules, a) && (s != a
            ==> aim_elsewhere(ctx.series[s].rules, b))
}

proof fn lemma_same_aims(rules: Seq<CompactionRule>, others: Seq<CompactionRule>, id: SeriesRef)
    requires
        aims(rules) == aims(others),
        aim_elsewhere(rules, id),
    ensures
        aim_elsewhere(others, id),
{
    assert(aims(rules).len() == rules.len());
    assert(aims(others).len() == others.len());
    assert forall|r: int| 0 <= r < others.len() implies (#[trigger] others[r]).dest_id != id by {
        assert(aims(others)[r] == others[r].dest_id);
        assert(aims(rules)[r] == rules[r].dest_id);
    }
}

proof fn lemma_row_stays(ctx: ContextView, after: ContextView, a: SeriesRef, b: SeriesRef)
    requires
        same_aims(ctx, after),
        in_a_row(ctx, a, b),
    ensures
        in_a_row(after, a, b),
{
    assert forall|s: SeriesRef| #[trigger] after.series.contains_key(s) implies aim_elsewhere(
        after.series[s].rules,
        a,
    ) && (s != a ==> aim_elsewhere(after.series[s].rules, b)) by {
        assert(after.series.dom().contains(s));
        assert(ctx.series.contains_key(s));
        lemma_same_aims(ctx.series[s].rules, after.series[s].rules, a);
        if s != a {
            lemma_same_aims(ctx.series[s].rules, after.series[s].rules, b);
        }
    }
}

/// A write into a third series reaches neither of two that are compacted in a row.
proof fn lemma_write_beside(
    ctx: ContextView,
    series: SeriesView,
    samples: Seq<Sample>,
    policy: DuplicatePolicy,
    depth: nat,
    a: SeriesRef,
    b: SeriesRef,
)
    requires
        in_a_row(ctx, a, b),
        aim_elsewhere(series.rules, a),
        aim_elsewhere(series.rules, b),
    ensures
        ({
            let after = crate::bulk_add::bulk_inserted(ctx, series, samples, policy, depth).0;
            &&& same_at(ctx, after, a)
            &&& same_at(ctx, after, b)
        }),
    decreases depth, 1nat, 0nat,
{
    if crate::grouping::grouped(series, samples).len() > 0 {
        let after = crate::bulk_add::inserted(series, samples, policy);
        let stored = crate::common::stored_samples(
            crate::bulk_add::insert_results(series, samples, policy),
        );
        let told = if after.total_samples > series.total_samples {
            ctx.notified(crate::bulk_add::add_event(after), seq![after.id])
        } else {
            ctx
        };
        assert(told.series == ctx.series);
        assert(in_a_row(told, a, b));
        assert(after.rules == series.rules);
        if after.rules.len() > 0 && stored.len() > 0 {
            let rules = crate::bulk_add::rules_after(after, stored);
            let batches = crate::bulk_add::rule_batches(after, stored);
            assert forall|r: int| 0 <= r < rules.len() implies (#[trigger] rules[r]).dest_id != a
                && rules[r].dest_id != b by {
                assert(after.rules[r].dest_id != a);
            }
            lemma_deliver_beside(told, rules, batches, 0, rules.len(), depth, a, b);
        }
    }
}

proof fn lemma_deliver_beside(
    ctx: ContextView,
    rules: Seq<CompactionRule>,
    batches: Seq<Seq<Sample>>,
    m: nat,
    n: nat,
    depth: nat,
    a: SeriesRef,
    b: SeriesRef,
)
    requires
        m <= n <= rules.len(),
        in_a_row(ctx, a, b),
        forall|r: int|
            m <= r < n ==> (#[trigger] rules[r]).dest_id != a && rules[r].dest_id != b,
    ensures
        ({
            let before = crate::bulk_add::delivered(ctx, rules, batches, m, depth);
            let after = crate::bulk_add::delivered(ctx, rules, batches, n, depth);
            &&& same_at(before, after, a)
            &&& same_at(before, after, b)
        }),
    decreases depth, 0nat, n,
{
    if m < n {
        lemma_deliver_beside(ctx, rules, batches, m, (n - 1) as nat, depth, a, b);
        let before = crate::bulk_add::delivered(ctx, rules, batches, (n - 1) as nat, depth);
        lemma_aims_stay_delivered(ctx, rules, batches, (n - 1) as nat, depth);
        lemma_row_stays(ctx, before, a, b);
        let dest = rules[n - 1].dest_id;
        if depth > 0 && before.series.contains_key(dest) {
            let out = before.without(dest);
            assert forall|s: SeriesRef| #[trigger] out.series.contains_key(s) implies aim_elsewhere(
                out.series[s].rules,
                a,
            ) && (s != a ==> aim_elsewhere(out.series[s].rules, b)) by {
                assert(before.series.contains_key(s));
            }
            lemma_write_beside(
                out,
                before.series[dest],
                batches[n - 1],
                DuplicatePolicy::KeepLast,
                (depth - 1) as nat,
                a,
                b,
            );
        }
    }
}

/// Compactions go on through their destinations: where the destination of a rule is itself compacted
/// into a third series, that one holds, after the whole bulk insert, at the start of the bucket that a
/// rebuilt bucket falls into, the aggregate of all samples that the destination now holds in it.
#[verifier::rlimit(80)]
pub proof fn law_compactions_go_on(
    ctx: ContextView,
    series: SeriesView,
    samples: Seq<Sample>,
    policy: DuplicatePolicy,
    depth: nat,
    r: int,
    q: int,
    x: Sample,
)
    requires
        series.wf(),
        series.chunks.len() <= usize::MAX,
        depth > 1,
        crate::sorting::in_order(samples, crate::sorting::sample_time()),
        0 <= r < series.rules.len(),
        ({
            let rule = series.rules[r];
            let a = rule.dest_id;
            let dest = ctx.series[a];
            let next = dest.rules[q];
            let b = next.dest_id;
            &&& ctx.series.contains_key(a)
            &&& sound(dest)
            &&& 0 <= q < dest.rules.len()
            &&& a != b
            &&& ctx.series.contains_key(b)
            &&& sound(ctx.series[b])
            &&& in_a_row(ctx, a, b)
            &&& forall|j: int|
                0 <= j < series.rules.len() && j != r ==> (#[trigger] series.rules[j]).dest_id != a
                    && series.rules[j].dest_id != b
            &&& forall|j: int|
                0 <= j < dest.rules.len() && j != q ==> (#[trigger] dest.rules[j]).dest_id != b
            &&& crate::bulk_add::insert_results(series, samples, policy).contains(
                SampleAddResult::Stored(x),
            )
            &&& crate::compaction_laws::closed_at(rule, rule.bucket_of(x.timestamp))
            &&& rule.bucket_of(x.timestamp) >= dest.min_timestamp()
            &&& crate::compaction_laws::closed_at(
                next,
                next.bucket_of(rule.bucket_of(x.timestamp) as Timestamp),
            )
            &&& next.bucket_of(rule.bucket_of(x.timestamp) as Timestamp)
                >= ctx.series[b].min_timestamp()
        }),
    ensures
        ({
            let rule = series.rules[r];
            let next = ctx.series[rule.dest_id].rules[q];
            let after = crate::bulk_add::bulk_inserted(ctx, series, samples, policy, depth).0;
            let start = next.bucket_of(rule.bucket_of(x.timestamp) as Timestamp) as Timestamp;
            let in_bucket = after.series[rule.dest_id].samples().filter(
                |y: Sample| next.bucket_of(y.timestamp) == start,
            );
            &&& after.series.contains_key(next.dest_id)
            &&& after.series[next.dest_id].samples().contains(
                Sample {
                    timestamp: start,
                    value: crate::aggregate_laws::aggregate(next.aggregator.kind, in_bucket),
                },
            )
        }),
{
    let rule = series.rules[r];
    let a = rule.dest_id;
    let dest = ctx.series[a];
    let b = dest.rules[q].dest_id;
    let results = crate::bulk_add::insert_results(series, samples, policy);
    let stored = crate::common::stored_samples(results);
    let plain = crate::bulk_add::inserted(series, samples, policy);
    let i = choose|i: int| 0 <= i < results.len() && results[i] == SampleAddResult::Stored(x);
    lemma_stored_holds(results, i);
    let k = choose|k: int| 0 <= k < stored.len() && stored[k] == x;
    lemma_stored(series, samples, policy, rule);
    crate::bulk_add::law_insert_keeps_series(series, samples, policy);
    crate::bulk_add::law_one_result_each(series, samples, policy);
    crate::grouping::law_grouping(series, samples);
    if crate::grouping::grouped(series, samples).len() == 0 {
        assert(results.len() == 0);
    }
    let told = if plain.total_samples > series.total_samples {
        ctx.notified(crate::bulk_add::add_event(plain), seq![plain.id])
    } else {
        ctx
    };
    assert(told.series == ctx.series);
    assert(in_a_row(told, a, b));
    assert(plain.rules == series.rules);
    let rules = crate::bulk_add::rules_after(plain, stored);
    let batches = crate::bulk_add::rule_batches(plain, stored);
    let batch = crate::compaction::compacted_samples(plain, rule, stored);
    assert(batches[r] == batch);
    assert(rules[r].dest_id == a);
    assert forall|j: int| 0 <= j < rules.len() && j != r implies (#[trigger] rules[j]).dest_id != a
        && rules[j].dest_id != b by {
        assert(series.rules[j].dest_id != a);
    }
    // the first bucket is delivered
    crate::compaction_laws::law_closed_bucket_is_rebuilt(plain, rule, stored, k);
    let e = crate::compaction_laws::bucket_aggregate(
        rule,
        rule.aggregator.kind,
        plain.samples(),
        rule.bucket_of(x.timestamp) as Timestamp,
    );
    let y = lemma_batch_stored(dest, batch, e);
    // and passed on
    lemma_deliver_beside(told, rules, batches, 0, r as nat, depth, a, b);
    let before = crate::bulk_add::delivered(told, rules, batches, r as nat, depth);
    lemma_aims_stay_delivered(told, rules, batches, r as nat, depth);
    lemma_row_stays(told, before, a, b);
    let out = before.without(a);
    assert(untargeted(out, b)) by {
        assert forall|s: SeriesRef| #[trigger] out.series.contains_key(s) implies aim_elsewhere(
            out.series[s].rules,
            b,
        ) by {
            assert(before.series.contains_key(s));
        }
    }
    law_destination_holds_rebuilt_bucket(
        out,
        dest,
        batch,
        DuplicatePolicy::KeepLast,
        (depth - 1) as nat,
        q,
        y,
    );
    lemma_deliver_beside(
        told,
        rules,
        batches,
        (r + 1) as nat,
        rules.len(),
        depth,
        a,
        b,
    );
}

/// A sample of an ascending batch that the retention keeps is reported as stored, the last value being
/// kept.
proof fn lemma_batch_stored(dest: SeriesView, batch: Seq<Sample>, e: Sample) -> (y: Sample)
    requires
        sound(dest),
        crate::chunk::ascending(batch),
        batch.contains(e),
        e.timestamp >= dest.min_timestamp(),
    ensures
        y.timestamp == e.timestamp,
        crate::bulk_add::insert_results(dest, batch, DuplicatePolicy::KeepLast).contains(
            SampleAddResult::Stored(y),
        ),
{
    let kept = crate::grouping::admitted(dest, batch);
    let results = crate::bulk_add::insert_results(dest, batch, DuplicatePolicy::KeepLast);
    crate::compaction_laws::lemma_ascending_in_order(batch);
    crate::read_back::law_retention_drops_old(dest, batch, e);
    lemma_admitted_ascending(dest, batch);
    let i = choose|i: int| 0 <= i < kept.len() && kept[i] == e;
    crate::read_back::law_results_are_of_one_run(dest, batch, DuplicatePolicy::KeepLast);
    if crate::chunk::has_time(kept.take(i), e.timestamp) {
        let j = choose|j: int|
            0 <= j < kept.take(i).len() && (#[trigger] kept.take(i)[j]).timestamp == e.timestamp;
        assert(kept[j].timestamp < kept[i].timestamp);
    }
    assert(results[i] is Stored);
    let y = results[i]->Stored_0;
    assert(results[i] == SampleAddResult::Stored(y));
    y
}

} // verus!
