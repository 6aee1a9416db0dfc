//! Bulk insertion of samples into a series.
//!
//! A batch is grouped by the chunk that each sample goes to, the groups are merged in parallel,
//! and what was stored is compacted into the series that the rules name.
use vstd::prelude::*;

use crate::chunk::{ChunkEncoding, ChunkError, ChunkView, TimeSeriesChunk};
use crate::common::{
    collect_stored, AddError, DuplicatePolicy, Sample, SampleAddResult, TsdbResult,
};
use crate::compaction::get_compacted_samples;
use crate::context::{AddEvent, Context, ContextView};
use crate::grouping::{group_samples_by_chunk, ChunkHolder, ChunkSampleGroup, GroupView};
use crate::joining::join_chunks;
use crate::parallel::par_map;
use crate::series::{CompactionRule, SeriesRef, SeriesView, TimeSeries};
use crate::sorting::sort_by_time;

verus! {

/// The samples of the groups that name the chunk `k`, in order.
pub open spec fn samples_for(groups: Seq<GroupView>, k: int) -> Seq<Sample>
    decreases groups.len(),
{
    if groups.len() == 0 {
        Seq::empty()
    } else {
        let before = samples_for(groups.drop_last(), k);
        match groups.last().chunk {
            ChunkHolder::ExistingIdx(i) => if i == k {
                before + groups.last().samples
            } else {
                before
            },
            ChunkHolder::New => before,
        }
    }
}

/// The chunks after the samples of the groups that name one are written into it.
pub open spec fn written(
    chunks: Seq<ChunkView>,
    groups: Seq<GroupView>,
    policy: DuplicatePolicy,
) -> Seq<ChunkView> {
    Seq::new(chunks.len(), |k: int| chunks[k].merge(samples_for(groups, k), policy))
}

/// The runs of samples that are to go to new chunks, in order.
pub open spec fn new_runs(groups: Seq<GroupView>) -> Seq<Seq<Sample>>
    decreases groups.len(),
{
    if groups.len() == 0 {
        Seq::empty()
    } else {
        let before = new_runs(groups.drop_last());
        match groups.last().chunk {
            ChunkHolder::ExistingIdx(_) => before,
            ChunkHolder::New => before.push(groups.last().samples),
        }
    }
}

/// The chunk that a run of samples makes, as a function.
pub open spec fn new_chunk(
    encoding: ChunkEncoding,
    max_size: usize,
    policy: DuplicatePolicy,
) -> spec_fn(Seq<Sample>) -> ChunkView {
    |run: Seq<Sample>| crate::chunk::empty_chunk(encoding, max_size).merge(run, policy)
}

/// The samples in the chunk that the group `g` goes to, behind the groups `earlier`, before it is
/// written.
pub open spec fn samples_before(
    earlier: Seq<GroupView>,
    g: GroupView,
    chunks: Seq<ChunkView>,
    policy: DuplicatePolicy,
) -> Seq<Sample> {
    match g.chunk {
        ChunkHolder::ExistingIdx(k) => crate::chunk::merged(
            chunks[k as int].samples,
            samples_for(earlier, k as int),
            policy,
        ),
        ChunkHolder::New => Seq::empty(),
    }
}

/// What becomes of each sample of the group `g`, behind the groups `earlier`.
pub open spec fn group_results(
    earlier: Seq<GroupView>,
    g: GroupView,
    chunks: Seq<ChunkView>,
    policy: DuplicatePolicy,
) -> Seq<SampleAddResult> {
    crate::chunk::merge_results(samples_before(earlier, g, chunks, policy), g.samples, policy)
}

/// What becomes of each sample of all groups, group after group.
pub open spec fn batch_results(
    groups: Seq<GroupView>,
    chunks: Seq<ChunkView>,
    policy: DuplicatePolicy,
) -> Seq<SampleAddResult>
    decreases groups.len(),
{
    if groups.len() == 0 {
        Seq::empty()
    } else {
        batch_results(groups.drop_last(), chunks, policy) + group_results(
            groups.drop_last(),
            groups.last(),
            chunks,
            policy,
        )
    }
}

/// The series after `samples` are written into it.
///
/// Where no sample is let in, nothing changes. Otherwise each group goes to its chunk, new chunks
/// take their place by time, chunks that overlap are joined, and every chunk that holds too much is
/// split.
pub open spec fn inserted(
    series: SeriesView,
    samples: Seq<Sample>,
    policy: DuplicatePolicy,
) -> SeriesView {
    let groups = crate::grouping::grouped(series, samples);
    if groups.len() == 0 {
        series
    } else {
        let old_chunks = written(series.chunks, groups, policy);
        let made = new_runs(groups).map_values(
            new_chunk(series.chunk_compression, series.chunk_size_bytes, policy),
        );
        SeriesView {
            chunks: crate::joining::joined(
                crate::sorting::stable_sort(old_chunks + made, crate::series::chunk_time()),
                policy,
            ),
            ..series
        }.with_bounds().with_splits().with_total()
    }
}

/// What becomes of each sample that is let in, in order.
pub open spec fn insert_results(
    series: SeriesView,
    samples: Seq<Sample>,
    policy: DuplicatePolicy,
) -> Seq<SampleAddResult> {
    batch_results(crate::grouping::grouped(series, samples), series.chunks, policy)
}

pub(crate) proof fn lemma_samples_for_none(groups: Seq<GroupView>, k: usize)
    requires
        forall|i: int|
            0 <= i < groups.len() ==> (#[trigger] groups[i]).chunk != ChunkHolder::ExistingIdx(k),
    ensures
        samples_for(groups, k as int) == Seq::<Sample>::empty(),
    decreases groups.len(),
{
    if groups.len() > 0 {
        let d = groups.drop_last();
        assert forall|i: int| 0 <= i < d.len() implies (#[trigger] d[i]).chunk
            != ChunkHolder::ExistingIdx(k) by {
            assert(d[i] == groups[i]);
        }
        lemma_samples_for_none(d, k);
        assert(groups.last() == groups[groups.len() - 1]);
    }
}

/// What a chunk is given lies in its range.
pub(crate) proof fn lemma_samples_for_covered(
    groups: Seq<GroupView>,
    chunks: Seq<ChunkView>,
    capacity: nat,
    k: int,
)
    requires
        0 <= k < chunks.len(),
        forall|i: int|
            0 <= i < groups.len() ==> crate::grouping::placed(
                #[trigger] groups[i],
                chunks,
                capacity,
            ),
    ensures
        forall|i: int|
            0 <= i < samples_for(groups, k).len() ==> chunks[k].covers(
                (#[trigger] samples_for(groups, k)[i]).timestamp,
            ),
    decreases groups.len(),
{
    if groups.len() > 0 {
        let d = groups.drop_last();
        let g = groups.last();
        assert(g == groups[groups.len() - 1]);
        assert forall|i: int| 0 <= i < d.len() implies crate::grouping::placed(
            #[trigger] d[i],
            chunks,
            capacity,
        ) by {
            assert(d[i] == groups[i]);
        }
        lemma_samples_for_covered(d, chunks, capacity, k);
        let all = samples_for(groups, k);
        let before = samples_for(d, k);
        assert forall|i: int| 0 <= i < all.len() implies chunks[k].covers(
            (#[trigger] all[i]).timestamp,
        ) by {
            if i < before.len() {
                assert(all[i] == before[i]);
            } else {
                assert(all[i] == g.samples[i - before.len()]);
            }
        }
    }
}

/// Borrows the items of `slice` at `indices`, each for writing.
///
/// The indices are strictly ascending and in bounds.
pub fn disjoint_get_many_mut_with_pos<'a, T>(slice: &'a mut [T], indices: &[usize]) -> (out: Vec<
    &'a mut T,
>)
    requires
        forall|i: int, j: int| 0 <= i < j < indices@.len() ==> indices@[i] < indices@[j],
        forall|i: int| 0 <= i < indices@.len() ==> #[trigger] indices@[i] < old(slice)@.len(),
    ensures
        out@.len() == indices@.len(),
        forall|k: int|
            0 <= k < out@.len() ==> *#[trigger] out@[k] == old(slice)@[indices@[k] as int],
        final(slice)@.len() == old(slice)@.len(),
        forall|k: int|
            0 <= k < out@.len() ==> *final(#[trigger] out@[k]) == final(slice)@[indices@[k] as int],
        forall|j: int|
            0 <= j < old(slice)@.len() && !indices@.contains(j as usize)
                ==> #[trigger] final(slice)@[j] == old(slice)@[j],
{
    let mut out: Vec<&'a mut T> = Vec::with_capacity(indices.len());
    let len: usize = slice.len();
    let mut base: usize = 0;
    let ghost fin: Seq<T> = final(slice)@;
    let mut tail: &'a mut [T] = slice;
    let mut n: usize = 0;
    while n < indices.len()
        invariant
            n <= indices@.len(),
            out@.len() == n,
            len == old(slice)@.len(),
            base <= old(slice)@.len(),
            n > 0 ==> base == indices@[n - 1] + 1,
            n == 0 ==> base == 0,
            forall|i: int, j: int| 0 <= i < j < indices@.len() ==> indices@[i] < indices@[j],
            forall|i: int| 0 <= i < indices@.len() ==> #[trigger] indices@[i] < old(slice)@.len(),
            tail@ == old(slice)@.subrange(base as int, old(slice)@.len() as int),
            fin.len() == base + final(tail)@.len(),
            fin.subrange(base as int, fin.len() as int) == final(tail)@,
            forall|k: int| 0 <= k < n ==> *#[trigger] out@[k] == old(slice)@[indices@[k] as int],
            forall|k: int| 0 <= k < n ==> *final(#[trigger] out@[k]) == fin[indices@[k] as int],
            forall|j: int| 0 <= j < base && !indices@.contains(j as usize) ==> #[trigger] fin[j] == old(slice)@[j],
        decreases indices@.len() - n,
    {
        let idx: usize = indices[n];
        let rel: usize = idx - base;
        let ghost ft = final(tail)@;
        let (left, rest) = tail.split_at_mut(rel);
        let ghost fl = final(left)@;
        let ghost fr = final(rest)@;
        let (item, rest2) = rest.split_at_mut(1);
        let ghost fi = final(item)@;
        let first: &mut T = &mut item[0];
        let ghost ff = *final(first);
        out.push(first);
        let ghost f2 = final(rest2)@;
        tail = rest2;
        proof {
            assert(ft == fl + fr);
            assert(fi == seq![ff]);
            assert(fr == fi + f2);
            assert(fr.len() == 1 + f2.len());
            assert(fl == left@);
            assert forall|j: int| base <= j < ft.len() + base implies fin[j] == ft[j - base] by {
                assert(fin[j] == fin.subrange(base as int, fin.len() as int)[j - base]);
            }
            assert(ft[rel as int] == ff);
            assert(fin[idx as int] == ff);
            assert(indices@[n as int] == idx);
            assert forall|j: int| base <= j < idx implies fin[j] == old(slice)@[j] by {
                assert(fin[j] == ft[j - base]);
            }
            assert(indices@.contains(idx));
            assert(fr.subrange(1, fr.len() as int) == f2);
            assert forall|j: int| 0 <= j < f2.len() implies f2[j] == fin[idx + 1 + j] by {
                assert(f2[j] == fr[1 + j]);
                assert(fr[1 + j] == ft[rel + 1 + j]);
            }
        }
        base = idx + 1;
        assert(fin.subrange(base as int, fin.len() as int) =~= f2);
        n = n + 1;
    }
    proof {
        assert forall|j: int| base <= j < old(slice)@.len() implies fin[j] == old(slice)@[j] by {
            assert(fin[j] == fin.subrange(base as int, fin.len() as int)[j - base]);
        }
    }
    out
}

/// The results of a merge; where the chunk refused the batch, an error for each of its `count`
/// samples.
pub fn results_or_errors(merged: Result<Vec<SampleAddResult>, ChunkError>, count: usize) -> (r: Vec<
    SampleAddResult,
>)
    ensures
        match merged {
            Ok(results) => r@ == results@,
            Err(_) => r@ == Seq::new(
                count as nat,
                |i: int| SampleAddResult::Error(AddError::CannotAddSample),
            ),
        },
{
    match merged {
        Ok(results) => results,
        Err(_) => {
            let mut r: Vec<SampleAddResult> = Vec::with_capacity(count);
            let mut i: usize = 0;
            while i < count
                invariant
                    i <= count,
                    r@ == Seq::new(
                        i as nat,
                        |i: int| SampleAddResult::Error(AddError::CannotAddSample),
                    ),
                decreases count - i,
            {
                r.push(SampleAddResult::Error(AddError::CannotAddSample));
                i = i + 1;
            }
            r
        },
    }
}

/// Writes `samples` into `chunk`; gives what became of each.
pub fn exec_merge(
    chunk: &mut TimeSeriesChunk,
    samples: &[Sample],
    policy: Option<DuplicatePolicy>,
) -> (r: Vec<SampleAddResult>)
    requires
        old(chunk)@.wf(),
    ensures
        final(chunk)@.wf(),
        final(chunk)@ == old(chunk)@.merge(samples@, crate::common::policy_or_block(policy)),
        r@ == crate::chunk::merge_results(
            old(chunk)@.samples,
            samples@,
            crate::common::policy_or_block(policy),
        ),
{
    let merged: Result<Vec<SampleAddResult>, ChunkError> = chunk.merge_samples(samples, policy);
    results_or_errors(merged, samples.len())
}

/// What the server is told where samples were added to a series.
pub open spec fn add_event(series: SeriesView) -> AddEvent {
    if series.src_series is Some {
        AddEvent::AddDest
    } else {
        AddEvent::Add
    }
}

/// The context and the series after `samples` are written into the series, the server is told of a
/// gain, and what was stored is compacted. Compactions go on through at most `depth` series.
pub open spec fn bulk_inserted(
    ctx: ContextView,
    series: SeriesView,
    samples: Seq<Sample>,
    policy: DuplicatePolicy,
    depth: nat,
) -> (ContextView, SeriesView)
    decreases depth, 2nat, 0nat,
{
    if crate::grouping::grouped(series, samples).len() == 0 {
        (ctx, series)
    } else {
        let after = inserted(series, samples, policy);
        let told = if after.total_samples > series.total_samples {
            ctx.notified(add_event(after), seq![after.id])
        } else {
            ctx
        };
        compactions_run(
            told,
            after,
            crate::common::stored_samples(insert_results(series, samples, policy)),
            depth,
        )
    }
}

/// The context and the series after its rules are applied to it, `samples` having been written into
/// it: the aggregates of each rule are written into its destination, the last value kept.
pub open spec fn compactions_run(
    ctx: ContextView,
    series: SeriesView,
    samples: Seq<Sample>,
    depth: nat,
) -> (ContextView, SeriesView)
    decreases depth, 1nat, 0nat,
{
    if series.rules.len() == 0 || samples.len() == 0 {
        (ctx, series)
    } else {
        let rules = rules_after(series, samples);
        (
            delivered(ctx, rules, rule_batches(series, samples), rules.len(), depth),
            SeriesView { rules, ..series },
        )
    }
}

/// The rules of a series after they are applied to it.
pub open spec fn rules_after(series: SeriesView, samples: Seq<Sample>) -> Seq<CompactionRule> {
    series.rules.map_values(
        |rule: CompactionRule| crate::compaction::rule_after(series, rule, samples),
    )
}

/// What each rule makes of a series.
pub open spec fn rule_batches(series: SeriesView, samples: Seq<Sample>) -> Seq<Seq<Sample>> {
    series.rules.map_values(
        |rule: CompactionRule| crate::compaction::compacted_samples(series, rule, samples),
    )
}

/// The context after the batches of the first `n` rules are written into their destinations; a rule
/// whose destination is not in reach is passed over.
pub open spec fn delivered(
    ctx: ContextView,
    rules: Seq<CompactionRule>,
    batches: Seq<Seq<Sample>>,
    n: nat,
    depth: nat,
) -> ContextView
    decreases depth, 0nat, n,
{
    if n == 0 {
        ctx
    } else {
        let before = delivered(ctx, rules, batches, (n - 1) as nat, depth);
        let id = rules[n - 1].dest_id;
        if depth > 0 && before.series.contains_key(id) {
            let (rest, dest) = bulk_inserted(
                before.without(id),
                before.series[id],
                batches[n - 1],
                DuplicatePolicy::KeepLast,
                (depth - 1) as nat,
            );
            rest.with(id, dest)
        } else {
            before
        }
    }
}

/// A group that goes to an existing chunk: its place among the groups, the chunk, the samples.
pub type ExistingGroup<'a> = (usize, usize, &'a [Sample]);

/// A group that goes to a new chunk: its place among the groups, the samples.
pub type NewGroup<'a> = (usize, &'a [Sample]);

/// The samples of the listed groups that name the chunk `k`, in order.
spec fn named<'a>(groups: Seq<ExistingGroup<'a>>, k: int) -> Seq<Sample>
    decreases groups.len(),
{
    if groups.len() == 0 {
        Seq::empty()
    } else {
        let before = named(groups.drop_last(), k);
        if groups.last().1 == k {
            before + groups.last().2@
        } else {
            before
        }
    }
}

proof fn lemma_named_none<'a>(groups: Seq<ExistingGroup<'a>>, k: int)
    requires
        forall|e: int| 0 <= e < groups.len() ==> (#[trigger] groups[e]).1 != k,
    ensures
        named(groups, k) == Seq::<Sample>::empty(),
    decreases groups.len(),
{
    if groups.len() > 0 {
        let d = groups.drop_last();
        assert(groups.last() == groups[groups.len() - 1]);
        assert forall|e: int| 0 <= e < d.len() implies (#[trigger] d[e]).1 != k by {
            assert(d[e] == groups[e]);
        }
        lemma_named_none(d, k);
    }
}

proof fn lemma_named_front<'a>(groups: Seq<ExistingGroup<'a>>, n: int, k: int)
    requires
        0 <= n <= groups.len(),
        forall|e: int| n <= e < groups.len() ==> (#[trigger] groups[e]).1 != k,
    ensures
        named(groups, k) == named(groups.take(n), k),
    decreases groups.len(),
{
    if n < groups.len() {
        let d = groups.drop_last();
        assert(groups.last() == groups[groups.len() - 1]);
        assert forall|e: int| n <= e < d.len() implies (#[trigger] d[e]).1 != k by {
            assert(d[e] == groups[e]);
        }
        lemma_named_front(d, n, k);
        assert(d.take(n) =~= groups.take(n));
    } else {
        assert(groups.take(n) =~= groups);
    }
}

/// Whether `existing` and `fresh` list the groups of either kind, in order.
spec fn partitioned<'a>(
    existing: Seq<ExistingGroup<'a>>,
    fresh: Seq<NewGroup<'a>>,
    groups: Seq<GroupView>,
) -> bool {
    &&& forall|e: int|
        0 <= e < existing.len() ==> (#[trigger] existing[e]).0 < groups.len()
            && groups[existing[e].0 as int].chunk == ChunkHolder::ExistingIdx(existing[e].1)
            && groups[existing[e].0 as int].samples == existing[e].2@
    &&& forall|e: int, f: int|
        0 <= e < f < existing.len() ==> (#[trigger] existing[e]).0 < (#[trigger] existing[f]).0
    &&& forall|p: int|
        0 <= p < groups.len() && (#[trigger] groups[p]).chunk is ExistingIdx ==> exists|e: int|
            0 <= e < existing.len() && (#[trigger] existing[e]).0 == p
    &&& forall|e: int|
        0 <= e < fresh.len() ==> (#[trigger] fresh[e]).0 < groups.len()
            && groups[fresh[e].0 as int].chunk is New && groups[fresh[e].0 as int].samples
            == fresh[e].1@
    &&& forall|e: int, f: int|
        0 <= e < f < fresh.len() ==> (#[trigger] fresh[e]).0 < (#[trigger] fresh[f]).0
    &&& forall|p: int|
        0 <= p < groups.len() && (#[trigger] groups[p]).chunk is New ==> exists|e: int|
            0 <= e < fresh.len() && (#[trigger] fresh[e]).0 == p
    &&& fresh.len() == new_runs(groups).len()
    &&& forall|e: int| 0 <= e < fresh.len() ==> (#[trigger] fresh[e]).1@ == new_runs(groups)[e]
    &&& forall|k: int| #[trigger] named(existing, k) == samples_for(groups, k)
    &&& forall|e: int, k: int|
        0 <= e < existing.len() ==> #[trigger] named(existing.take(e), k) == samples_for(
            groups.take(existing[e].0 as int),
            k,
        )
}

/// Lists the groups that go to existing chunks, and those that go to new ones.
fn partition_groups<'a>(groups: &Vec<ChunkSampleGroup<'a>>) -> (r: (
    Vec<ExistingGroup<'a>>,
    Vec<NewGroup<'a>>,
))
    ensures
        partitioned(r.0@, r.1@, groups@.map_values(crate::grouping::group_view())),
{
    let mut existing: Vec<ExistingGroup<'a>> = Vec::new();
    let mut fresh: Vec<NewGroup<'a>> = Vec::new();
    let ghost views = groups@.map_values(crate::grouping::group_view());
    let count: usize = groups.len();
    let mut p: usize = 0;
    while p < count
        invariant
            p <= count,
            count == groups@.len(),
            views == groups@.map_values(crate::grouping::group_view()),
            partitioned(existing@, fresh@, views.take(p as int)),
        decreases count - p,
    {
        let ghost now = views.take(p as int);
        let ghost next = views.take(p + 1);
        let ghost old_existing = existing@;
        let ghost old_fresh = fresh@;
        proof {
            assert(next.drop_last() =~= now);
            assert(next.last() == groups@[p as int]@);
            assert forall|k: int| 0 <= k < p implies next[k] == now[k] by {}
        }
        match groups[p].chunk {
            ChunkHolder::ExistingIdx(idx) => {
                existing.push((p, idx, groups[p].samples));
                proof {
                    assert(existing@.drop_last() =~= old_existing);
                    assert forall|k: int| #[trigger] named(existing@, k) == samples_for(
                        next,
                        k,
                    ) by {
                        assert(named(old_existing, k) == samples_for(now, k));
                    }
                    assert forall|e: int, k: int| 0 <= e < existing@.len() implies #[trigger] named(
                        existing@.take(e),
                        k,
                    ) == samples_for(next.take(existing@[e].0 as int), k) by {
                        if e < old_existing.len() {
                            assert(existing@.take(e) =~= old_existing.take(e));
                            assert(next.take(existing@[e].0 as int) =~= now.take(
                                old_existing[e].0 as int,
                            ));
                            assert(named(old_existing.take(e), k) == samples_for(
                                now.take(old_existing[e].0 as int),
                                k,
                            ));
                        } else {
                            assert(existing@.take(e) =~= old_existing);
                            assert(next.take(p as int) =~= now);
                            assert(named(old_existing, k) == samples_for(now, k));
                        }
                    }
                    assert forall|k: int|
                        0 <= k < next.len() && (
                        #[trigger] next[k]).chunk is ExistingIdx implies exists|e: int|
                        0 <= e < existing@.len() && (#[trigger] existing@[e]).0 == k by {
                        if k < p {
                            assert(now[k].chunk is ExistingIdx);
                            let e = choose|e: int|
                                0 <= e < old_existing.len() && (#[trigger] old_existing[e]).0 == k;
                            assert(existing@[e].0 == k);
                        } else {
                            assert(existing@[existing@.len() - 1].0 == k);
                        }
                    }
                    assert forall|k: int|
                        0 <= k < next.len() && (#[trigger] next[k]).chunk is New implies exists|
                        e: int,
                    |
                        0 <= e < fresh@.len() && (#[trigger] fresh@[e]).0 == k by {
                        assert(now[k].chunk is New);
                    }
                }
            },
            ChunkHolder::New => {
                fresh.push((p, groups[p].samples));
                proof {
                    assert forall|k: int| #[trigger] named(existing@, k) == samples_for(
                        next,
                        k,
                    ) by {
                        assert(named(old_existing, k) == samples_for(now, k));
                    }
                    assert forall|e: int, k: int| 0 <= e < existing@.len() implies #[trigger] named(
                        existing@.take(e),
                        k,
                    ) == samples_for(next.take(existing@[e].0 as int), k) by {
                        assert(next.take(existing@[e].0 as int) =~= now.take(
                            existing@[e].0 as int,
                        ));
                    }
                    assert forall|k: int|
                        0 <= k < next.len() && (#[trigger] next[k]).chunk is New implies exists|
                        e: int,
                    |
                        0 <= e < fresh@.len() && (#[trigger] fresh@[e]).0 == k by {
                        if k < p {
                            assert(now[k].chunk is New);
                            let e = choose|e: int|
                                0 <= e < old_fresh.len() && (#[trigger] old_fresh[e]).0 == k;
                            assert(fresh@[e].0 == k);
                        } else {
                            assert(fresh@[fresh@.len() - 1].0 == k);
                        }
                    }
                    assert forall|k: int|
                        0 <= k < next.len() && (
                        #[trigger] next[k]).chunk is ExistingIdx implies exists|e: int|
                        0 <= e < existing@.len() && (#[trigger] existing@[e]).0 == k by {
                        assert(now[k].chunk is ExistingIdx);
                    }
                }
            },
        }
        p = p + 1;
    }
    assert(views.take(p as int) =~= views);
    (existing, fresh)
}

/// A chunk, and from where to where the groups that name it are listed.
type Span = (usize, usize, usize);

/// Whether `spans` part the first `n` groups by the chunk that they name.
spec fn spanned<'a>(spans: Seq<Span>, groups: Seq<ExistingGroup<'a>>, n: int) -> bool {
    &&& n <= groups.len()
    &&& spans.len() == 0 ==> n == 0
    &&& spans.len() > 0 ==> spans[0].1 == 0 && spans.last().2 == n
    &&& forall|j: int|
        0 <= j < spans.len() ==> (#[trigger] spans[j]).1 < spans[j].2 <= n && spans[j].0
            == groups[spans[j].1 as int].1
    &&& forall|j: int, l: int|
        0 <= j && l == j + 1 && l < spans.len() ==> (#[trigger] spans[j]).2 == (
        #[trigger] spans[l]).1
    &&& forall|j: int, e: int|
        0 <= j < spans.len() && (#[trigger] spans[j]).1 <= e < spans[j].2 ==> (
        #[trigger] groups[e]).1 == spans[j].0
    &&& forall|j: int, l: int|
        0 <= j < l < spans.len() ==> (#[trigger] spans[j]).0 < (#[trigger] spans[l]).0
            && spans[j].2 <= spans[l].1
    &&& forall|e: int| 0 <= e < n ==> spanning(spans, (#[trigger] groups[e]).1)
}

/// Whether one of the spans is that of the chunk `k`.
spec fn spanning(spans: Seq<Span>, k: usize) -> bool {
    exists|j: int| 0 <= j < spans.len() && (#[trigger] spans[j]).0 == k
}

proof fn lemma_next_span<'a>(
    spans: Seq<Span>,
    groups: Seq<ExistingGroup<'a>>,
    idx: usize,
    from: usize,
    to: usize,
)
    requires
        spanned(spans, groups, from as int),
        from < to <= groups.len(),
        forall|e: int| from <= e < to ==> (#[trigger] groups[e]).1 == idx,
        spans.len() > 0 ==> spans.last().0 < idx,
    ensures
        spanned(spans.push((idx, from, to)), groups, to as int),
{
    let all = spans.push((idx, from, to));
    let l = spans.len() as int;
    assert(all[l] == (idx, from, to));
    assert(groups[from as int].1 == idx);
    assert forall|e: int| 0 <= e < to implies spanning(all, (#[trigger] groups[e]).1) by {
        if e < from {
            assert(spanning(spans, groups[e].1));
            let j = choose|j: int| 0 <= j < spans.len() && (#[trigger] spans[j]).0 == groups[e].1;
            assert(all[j] == spans[j]);
        } else {
            assert(all[l].0 == groups[e].1);
        }
    }
    assert forall|j: int, m: int| 0 <= j < m < all.len() implies (#[trigger] all[j]).0 < (
    #[trigger] all[m]).0 && all[j].2 <= all[m].1 by {
        assert(all[j] == spans[j]);
        if m == l {
            if j < l - 1 {
                assert(spans[j].0 < spans[l - 1].0);
            }
        } else {
            assert(all[m] == spans[m]);
        }
    }
    assert forall|j: int, e: int|
        0 <= j < all.len() && (#[trigger] all[j]).1 <= e < all[j].2 implies (
    #[trigger] groups[e]).1 == all[j].0 by {
        if j < l {
            assert(all[j] == spans[j]);
        }
    }
    assert forall|j: int, m: int| 0 <= j && m == j + 1 && m < all.len() implies (
    #[trigger] all[j]).2 == (#[trigger] all[m]).1 by {
        assert(all[j] == spans[j]);
        if m < l {
            assert(all[m] == spans[m]);
        }
    }
    assert forall|j: int| 0 <= j < all.len() implies (#[trigger] all[j]).1 < all[j].2 <= to
        && all[j].0 == groups[all[j].1 as int].1 by {
        if j < l {
            assert(all[j] == spans[j]);
        }
    }
    if l > 0 {
        assert(all[0] == spans[0]);
    }
}

/// Parts the groups, which name chunks in ascending order, by the chunk.
fn find_spans<'a>(groups: &Vec<ExistingGroup<'a>>) -> (r: Vec<Span>)
    requires
        forall|i: int, j: int|
            0 <= i < j < groups@.len() ==> (#[trigger] groups@[i]).1 <= (#[trigger] groups@[j]).1,
    ensures
        spanned(r@, groups@, groups@.len() as int),
{
    let n: usize = groups.len();
    let mut spans: Vec<Span> = Vec::new();
    let mut i: usize = 0;
    while i < n
        invariant
            i <= n,
            n == groups@.len(),
            forall|i: int, j: int|
                0 <= i < j < groups@.len() ==> (#[trigger] groups@[i]).1 <= (
                #[trigger] groups@[j]).1,
            spanned(spans@, groups@, i as int),
            i < n && spans@.len() > 0 ==> spans@.last().0 < groups@[i as int].1,
        decreases n - i,
    {
        let from: usize = i;
        let idx: usize = groups[i].1;
        i = i + 1;
        while i < n && groups[i].1 == idx
            invariant
                from < i <= n,
                n == groups@.len(),
                forall|e: int| from <= e < i ==> (#[trigger] groups@[e]).1 == idx,
            decreases n - i,
        {
            i = i + 1;
        }
        proof {
            lemma_next_span(spans@, groups@, idx, from, i);
            if i < n {
                assert(groups@[from as int].1 <= groups@[i as int].1);
            }
        }
        spans.push((idx, from, i));
    }
    spans
}

/// Whether `r` gives the place of the listed group `e` and what becomes of its samples, where
/// `before` was stored in its chunk and the groups in front of it are written.
spec fn tells<'a>(
    r: (usize, Vec<SampleAddResult>),
    groups: Seq<ExistingGroup<'a>>,
    e: int,
    before: Seq<Sample>,
    policy: DuplicatePolicy,
) -> bool {
    &&& r.0 == groups[e].0
    &&& r.1@ == crate::chunk::merge_results(
        crate::chunk::merged(before, named(groups.take(e), groups[e].1 as int), policy),
        groups[e].2@,
        policy,
    )
}

/// Writes the groups listed from `from` to `to`, all of which name the chunk with the index `idx`,
/// into that chunk; gives the place of each group and what became of its samples.
fn merge_span<'a>(
    chunk: &mut TimeSeriesChunk,
    idx: usize,
    from: usize,
    to: usize,
    groups: &Vec<ExistingGroup<'a>>,
    policy: Option<DuplicatePolicy>,
) -> (r: Vec<(usize, Vec<SampleAddResult>)>)
    requires
        old(chunk)@.wf(),
        from <= to <= groups@.len(),
        named(groups@.take(from as int), idx as int).len() == 0,
        forall|e: int| from <= e < to ==> (#[trigger] groups@[e]).1 == idx,
    ensures
        final(chunk)@ == old(chunk)@.merge(
            named(groups@.take(to as int), idx as int),
            crate::common::policy_or_block(policy),
        ),
        r@.len() == to - from,
        forall|i: int|
            0 <= i < r@.len() ==> tells(
                #[trigger] r@[i],
                groups@,
                from + i,
                old(chunk)@.samples,
                crate::common::policy_or_block(policy),
            ),
{
    let mut r: Vec<(usize, Vec<SampleAddResult>)> = Vec::with_capacity(to - from);
    let ghost start = chunk@;
    let ghost p = crate::common::policy_or_block(policy);
    let mut e: usize = from;
    while e < to
        invariant
            from <= e <= to <= groups@.len(),
            start == old(chunk)@,
            p == crate::common::policy_or_block(policy),
            forall|e: int| from <= e < to ==> (#[trigger] groups@[e]).1 == idx,
            chunk@.wf(),
            chunk@ == start.merge(named(groups@.take(e as int), idx as int), p),
            r@.len() == e - from,
            forall|i: int|
                0 <= i < r@.len() ==> tells(#[trigger] r@[i], groups@, from + i, start.samples, p),
        decreases to - e,
    {
        let samples: &'a [Sample] = groups[e].2;
        proof {
            let next = groups@.take(e + 1);
            assert(next.drop_last() =~= groups@.take(e as int));
            assert(next.last() == groups@[e as int]);
            crate::chunk::law_merged_in_parts(
                start.samples,
                named(groups@.take(e as int), idx as int),
                samples@,
                p,
            );
        }
        let results: Vec<SampleAddResult> = exec_merge(chunk, samples, policy);
        r.push((groups[e].0, results));
        e = e + 1;
    }
    r
}

/// Writes each group into the chunk that it names, on several threads; gives the place of each
/// group and what became of its samples.
fn merge_existing<'a>(
    chunks: &mut Vec<TimeSeriesChunk>,
    groups: &Vec<ExistingGroup<'a>>,
    policy: Option<DuplicatePolicy>,
) -> (r: Vec<(usize, Vec<SampleAddResult>)>)
    requires
        forall|i: int| 0 <= i < old(chunks)@.len() ==> (#[trigger] old(chunks)@[i])@.wf(),
        forall|i: int| 0 <= i < groups@.len() ==> (#[trigger] groups@[i]).1 < old(chunks)@.len(),
        forall|i: int, j: int|
            0 <= i < j < groups@.len() ==> (#[trigger] groups@[i]).1 <= (#[trigger] groups@[j]).1,
    ensures
        final(chunks)@.len() == old(chunks)@.len(),
        forall|k: int|
            0 <= k < old(chunks)@.len() ==> (#[trigger] final(chunks)@[k])@ == old(
                chunks,
            )@[k]@.merge(named(groups@, k), crate::common::policy_or_block(policy)),
        r@.len() == groups@.len(),
        forall|e: int|
            0 <= e < r@.len() ==> tells(
                #[trigger] r@[e],
                groups@,
                e,
                old(chunks)@[groups@[e].1 as int]@.samples,
                crate::common::policy_or_block(policy),
            ),
{
    let ghost p = crate::common::policy_or_block(policy);
    assert(chunks.len() == chunks@.len());
    let spans: Vec<Span> = find_spans(groups);
    let n: usize = spans.len();
    let mut indices: Vec<usize> = Vec::with_capacity(n);
    let mut i: usize = 0;
    while i < n
        invariant
            i <= n,
            n == spans@.len(),
            indices@.len() == i,
            forall|k: int| 0 <= k < i ==> #[trigger] indices@[k] == spans@[k].0,
        decreases n - i,
    {
        indices.push(spans[i].0);
        i = i + 1;
    }
    let ghost before = chunks@;
    proof {
        assert forall|a: int, b: int| 0 <= a < b < indices@.len() implies indices@[a]
            < indices@[b] by {
            assert(spans@[a].0 < spans@[b].0);
        }
        assert forall|a: int| 0 <= a < indices@.len() implies #[trigger] indices@[a]
            < before.len() by {
            assert(spans@[a].1 < spans@[a].2);
            assert(groups@[spans@[a].1 as int].1 < before.len());
        }
    }
    let refs: Vec<&mut TimeSeriesChunk> = disjoint_get_many_mut_with_pos(
        chunks.as_mut_slice(),
        &indices,
    );
    let ghost all = refs@;
    let mut jobs: Vec<(&mut TimeSeriesChunk, Span)> = Vec::with_capacity(n);
    let mut at: usize = 0;
    for chunk in it: refs
        invariant
            it.seq() == all,
            all.len() == n,
            n == spans@.len(),
            at == it.index(),
            at <= n,
            jobs@.len() == at,
            forall|k: int| 0 <= k < at ==> *(#[trigger] jobs@[k]).0 == *all[k],
            forall|k: int| 0 <= k < at ==> *final((#[trigger] jobs@[k]).0) == *final(all[k]),
            forall|k: int| 0 <= k < at ==> (#[trigger] jobs@[k]).1 == spans@[k],
    {
        assert(at < n);
        assert(chunk == all[at as int]);
        jobs.push((chunk, spans[at]));
        at = at + 1;
    }
    let merge = |job: (&mut TimeSeriesChunk, Span)| -> (r: Vec<(usize, Vec<SampleAddResult>)>)
        requires
            (*job.0)@.wf(),
            job.1.1 <= job.1.2 <= groups@.len(),
            named(groups@.take(job.1.1 as int), job.1.0 as int).len() == 0,
            forall|e: int| job.1.1 <= e < job.1.2 ==> (#[trigger] groups@[e]).1 == job.1.0,
        ensures
            final(job.0)@ == old(job.0)@.merge(
                named(groups@.take(job.1.2 as int), job.1.0 as int),
                crate::common::policy_or_block(policy),
            ),
            r@.len() == job.1.2 - job.1.1,
            forall|i: int|
                0 <= i < r@.len() ==> tells(
                    #[trigger] r@[i],
                    groups@,
                    job.1.1 + i,
                    old(job.0)@.samples,
                    crate::common::policy_or_block(policy),
                ),
        {
            let (chunk, span) = job;
            merge_span(chunk, span.0, span.1, span.2, groups, policy)
        };
    let ghost work = jobs@;
    proof {
        assert forall|j: int| 0 <= j < work.len() implies call_requires(
            merge,
            (#[trigger] work[j],),
        ) by {
            let span = spans@[j];
            assert(work[j].1 == span);
            assert(*work[j].0 == *all[j]);
            assert(indices@[j] == span.0);
            let front = groups@.take(span.1 as int);
            assert forall|e: int| 0 <= e < front.len() implies (#[trigger] front[e]).1
                != span.0 by {
                assert(front[e] == groups@[e]);
                lemma_before_span(spans@, groups@, j, e);
            }
            lemma_named_none(front, span.0 as int);
        }
    }
    let parts: Vec<Vec<(usize, Vec<SampleAddResult>)>> = par_map(jobs, merge);
    let ghost done = parts@;
    proof {
        assert forall|k: int| 0 <= k < before.len() implies (#[trigger] chunks@[k])@
            == before[k]@.merge(named(groups@, k), p) by {
            if exists|j: int| 0 <= j < spans@.len() && (#[trigger] spans@[j]).0 == k {
                let j = choose|j: int| 0 <= j < spans@.len() && (#[trigger] spans@[j]).0 == k;
                assert(call_ensures(merge, (work[j],), done[j]));
                assert(*work[j].0 == *all[j]);
                assert(indices@[j] == spans@[j].0);
                assert(work[j].1 == spans@[j]);
                assert forall|e: int| spans@[j].2 <= e < groups@.len() implies (
                #[trigger] groups@[e]).1 != k by {
                    lemma_behind_span(spans@, groups@, j, e);
                }
                lemma_named_front(groups@, spans@[j].2 as int, k);
            } else {
                assert(!indices@.contains(k as usize)) by {
                    if indices@.contains(k as usize) {
                        let e = choose|e: int|
                            0 <= e < indices@.len() && indices@[e] == k as usize;
                        assert(spans@[e].0 == k);
                    }
                }
                assert(chunks@[k] == before[k]);
                assert forall|e: int| 0 <= e < groups@.len() implies (
                #[trigger] groups@[e]).1 != k by {
                    assert(spanning(spans@, groups@[e].1));
                    let j = choose|j: int|
                        0 <= j < spans@.len() && (#[trigger] spans@[j]).0 == groups@[e].1;
                    assert(spans@[j].0 != k);
                }
                lemma_named_none(groups@, k);
                assert(before[k]@.merge(named(groups@, k), p) =~= before[k]@);
            }
        }
    }
    proof {
        assert forall|j: int| 0 <= j < n implies told_span(
            (#[trigger] done[j])@,
            groups@,
            spans@[j],
            before,
            p,
        ) by {
            assert(call_ensures(merge, (work[j],), done[j]));
            assert(*work[j].0 == *all[j]);
            assert(indices@[j] == spans@[j].0);
            assert(work[j].1 == spans@[j]);
        }
    }
    gather(parts, groups, &spans, Ghost(before), Ghost(p))
}

/// Whether `part` tells of the listed groups of a span, in order.
spec fn told_span<'a>(
    part: Seq<(usize, Vec<SampleAddResult>)>,
    groups: Seq<ExistingGroup<'a>>,
    span: Span,
    before: Seq<TimeSeriesChunk>,
    policy: DuplicatePolicy,
) -> bool {
    &&& part.len() == span.2 - span.1
    &&& forall|i: int|
        0 <= i < part.len() ==> tells(
            #[trigger] part[i],
            groups,
            span.1 + i,
            before[span.0 as int]@.samples,
            policy,
        )
}

/// Lines up what the spans tell.
fn gather<'a>(
    parts: Vec<Vec<(usize, Vec<SampleAddResult>)>>,
    groups: &Vec<ExistingGroup<'a>>,
    spans: &Vec<Span>,
    Ghost(before): Ghost<Seq<TimeSeriesChunk>>,
    Ghost(policy): Ghost<DuplicatePolicy>,
) -> (r: Vec<(usize, Vec<SampleAddResult>)>)
    requires
        spanned(spans@, groups@, groups@.len() as int),
        parts@.len() == spans@.len(),
        forall|j: int|
            0 <= j < parts@.len() ==> told_span(
                (#[trigger] parts@[j])@,
                groups@,
                spans@[j],
                before,
                policy,
            ),
    ensures
        r@.len() == groups@.len(),
        forall|e: int|
            0 <= e < r@.len() ==> tells(
                #[trigger] r@[e],
                groups@,
                e,
                before[groups@[e].1 as int]@.samples,
                policy,
            ),
{
    let ghost all = parts@;
    let n: usize = parts.len();
    let mut r: Vec<(usize, Vec<SampleAddResult>)> = Vec::with_capacity(groups.len());
    let mut j: usize = 0;
    for part in it: parts
        invariant
            it.seq() == all,
            all.len() == n,
            n == spans@.len(),
            j == it.index(),
            j <= n,
            spanned(spans@, groups@, groups@.len() as int),
            j < n ==> r@.len() == spans@[j as int].1,
            j == n ==> r@.len() == groups@.len(),
            forall|j: int|
                0 <= j < all.len() ==> told_span(
                    (#[trigger] all[j])@,
                    groups@,
                    spans@[j],
                    before,
                    policy,
                ),
            forall|e: int|
                0 <= e < r@.len() ==> tells(
                    #[trigger] r@[e],
                    groups@,
                    e,
                    before[groups@[e].1 as int]@.samples,
                    policy,
                ),
    {
        assert(j < n);
        assert(part == all[j as int]);
        let ghost from = r@.len();
        let ghost old_r = r@;
        let ghost span = spans@[j as int];
        let ghost added = part@;
        let mut part = part;
        r.append(&mut part);
        proof {
            assert(told_span(added, groups@, span, before, policy));
            assert forall|e: int| 0 <= e < r@.len() implies tells(
                #[trigger] r@[e],
                groups@,
                e,
                before[groups@[e].1 as int]@.samples,
                policy,
            ) by {
                if e >= from {
                    assert(r@[e] == added[e - from]);
                    assert(groups@[e].1 == span.0);
                } else {
                    assert(r@[e] == old_r[e]);
                }
            }
            if j + 1 < n {
                assert(spans@[j as int].2 == spans@[j + 1].1);
            } else {
                assert(spans@.last() == span);
            }
        }
        j = j + 1;
    }
    r
}

proof fn lemma_before_span<'a>(
    spans: Seq<Span>,
    groups: Seq<ExistingGroup<'a>>,
    j: int,
    e: int,
)
    requires
        spanned(spans, groups, groups.len() as int),
        0 <= j < spans.len(),
        0 <= e < spans[j].1,
    ensures
        groups[e].1 < spans[j].0,
    decreases j,
{
    if j > 0 {
        assert(spans[j - 1].2 == spans[j].1);
        assert(spans[j - 1].0 < spans[j].0);
        if e >= spans[j - 1].1 {
            assert(groups[e].1 == spans[j - 1].0);
        } else {
            lemma_before_span(spans, groups, j - 1, e);
        }
    }
}

proof fn lemma_behind_span<'a>(
    spans: Seq<Span>,
    groups: Seq<ExistingGroup<'a>>,
    j: int,
    e: int,
)
    requires
        spanned(spans, groups, groups.len() as int),
        0 <= j < spans.len(),
        spans[j].2 <= e < groups.len(),
    ensures
        groups[e].1 > spans[j].0,
    decreases spans.len() - j,
{
    if j + 1 < spans.len() {
        assert(spans[j].2 == spans[j + 1].1);
        assert(spans[j].0 < spans[j + 1].0);
        if e < spans[j + 1].2 {
            assert(groups[e].1 == spans[j + 1].0);
        } else {
            lemma_behind_span(spans, groups, j + 1, e);
        }
    } else {
        assert(spans.last() == spans[j]);
    }
}

/// Makes a chunk of each run of samples, on several threads; gives the place of each run among the
/// groups, its chunk, and what became of its samples.
fn merge_new<'a>(
    runs: Vec<NewGroup<'a>>,
    encoding: ChunkEncoding,
    max_size: usize,
    policy: Option<DuplicatePolicy>,
) -> (r: Vec<(usize, TimeSeriesChunk, Vec<SampleAddResult>)>)
    ensures
        r@.len() == runs@.len(),
        forall|e: int|
            0 <= e < r@.len() ==> (#[trigger] r@[e]).0 == runs@[e].0 && r@[e].1@ == new_chunk(
                encoding,
                max_size,
                crate::common::policy_or_block(policy),
            )(runs@[e].1@) && r@[e].2@ == crate::chunk::merge_results(
                Seq::empty(),
                runs@[e].1@,
                crate::common::policy_or_block(policy),
            ),
{
    let make = |run: NewGroup<'a>| -> (r: (usize, TimeSeriesChunk, Vec<SampleAddResult>))
        ensures
            r.0 == run.0,
            r.1@ == new_chunk(encoding, max_size, crate::common::policy_or_block(policy))(run.1@),
            r.2@ == crate::chunk::merge_results(
                Seq::empty(),
                run.1@,
                crate::common::policy_or_block(policy),
            ),
        {
            let mut chunk: TimeSeriesChunk = TimeSeriesChunk::new(encoding, max_size);
            let results: Vec<SampleAddResult> = exec_merge(&mut chunk, run.1, policy);
            (run.0, chunk, results)
        };
    let ghost work = runs@;
    let r: Vec<(usize, TimeSeriesChunk, Vec<SampleAddResult>)> = par_map(runs, make);
    assert forall|e: int| 0 <= e < r@.len() implies (#[trigger] r@[e]).0 == work[e].0 && r@[e].1@
        == new_chunk(encoding, max_size, crate::common::policy_or_block(policy))(work[e].1@)
        && r@[e].2@ == crate::chunk::merge_results(
        Seq::empty(),
        work[e].1@,
        crate::common::policy_or_block(policy),
    ) by {
        assert(call_ensures(make, (work[e],), r@[e]));
    }
    r
}

/// Writing samples that lie in the range of a chunk keeps its range.
proof fn lemma_covered_merge(c: ChunkView, batch: Seq<Sample>, policy: DuplicatePolicy)
    requires
        c.wf(),
        c.samples.len() > 0,
        forall|i: int| 0 <= i < batch.len() ==> c.covers((#[trigger] batch[i]).timestamp),
    ensures
        c.merge(batch, policy).wf(),
        c.merge(batch, policy).samples.len() > 0,
        c.merge(batch, policy).first_timestamp() == c.first_timestamp(),
        c.merge(batch, policy).last_timestamp() == c.last_timestamp(),
{
    let s = c.samples;
    let m = c.merge(batch, policy).samples;
    crate::chunk::law_merge(s, batch, policy);
    let n = m.len() - 1;
    let last = s.len() - 1;
    let t0 = s[0].timestamp;
    let t1 = s[last].timestamp;
    crate::chunk::law_taken(s, t0);
    crate::chunk::law_taken(s, t1);
    crate::chunk::law_taken(m, t0);
    crate::chunk::law_taken(m, t1);
    assert(crate::chunk::taken(s, t0) && crate::chunk::taken(m, t0));
    assert(crate::chunk::taken(s, t1) && crate::chunk::taken(m, t1));
    lemma_merged_time(c, batch, policy, 0);
    lemma_merged_time(c, batch, policy, n);
    let a = choose|a: int| 0 <= a < m.len() && (#[trigger] m[a]).timestamp == t0;
    let b = choose|b: int| 0 <= b < m.len() && (#[trigger] m[b]).timestamp == t1;
    if a > 0 {
        assert(m[0].timestamp < m[a].timestamp);
    }
    if b < n {
        assert(m[b].timestamp < m[n].timestamp);
    }
}

/// A sample of a merged chunk lies in the range that the chunk had.
proof fn lemma_merged_time(c: ChunkView, batch: Seq<Sample>, policy: DuplicatePolicy, k: int)
    requires
        c.wf(),
        c.samples.len() > 0,
        forall|i: int| 0 <= i < batch.len() ==> c.covers((#[trigger] batch[i]).timestamp),
        0 <= k < c.merge(batch, policy).samples.len(),
    ensures
        c.covers(c.merge(batch, policy).samples[k].timestamp),
{
    let s = c.samples;
    let m = c.merge(batch, policy).samples;
    crate::chunk::law_merge(s, batch, policy);
    let t = m[k].timestamp;
    crate::chunk::law_taken(m, t);
    crate::chunk::law_taken(s, t);
    assert(crate::chunk::taken(m, t));
    if crate::chunk::taken(s, t) {
        let i = choose|i: int| 0 <= i < s.len() && (#[trigger] s[i]).timestamp == t;
        if i > 0 {
            assert(s[0].timestamp < s[i].timestamp);
        }
        if i < s.len() - 1 {
            assert(s[i].timestamp < s[s.len() - 1].timestamp);
        }
    } else {
        let i = choose|i: int| 0 <= i < batch.len() && (#[trigger] batch[i]).timestamp == t;
        assert(c.covers(batch[i].timestamp));
    }
}

/// Writing the groups keeps every chunk sound, its range and its place.
pub(crate) proof fn lemma_written(series: SeriesView, samples: Seq<Sample>, policy: DuplicatePolicy)
    requires
        series.wf(),
        series.chunks.len() <= usize::MAX,
    ensures
        written(series.chunks, crate::grouping::grouped(series, samples), policy).len()
            == series.chunks.len(),
        forall|k: int|
            0 <= k < series.chunks.len() ==> {
                let c = #[trigger] written(
                    series.chunks,
                    crate::grouping::grouped(series, samples),
                    policy,
                )[k];
                &&& c.wf()
                &&& c.samples.len() > 0
                &&& c.first_timestamp() == series.chunks[k].first_timestamp()
                &&& c.last_timestamp() == series.chunks[k].last_timestamp()
            },
        crate::joining::ordered(
            written(series.chunks, crate::grouping::grouped(series, samples), policy),
        ),
        crate::sorting::in_order(
            written(series.chunks, crate::grouping::grouped(series, samples), policy),
            crate::series::chunk_time(),
        ),
{
    let groups = crate::grouping::grouped(series, samples);
    let w = written(series.chunks, groups, policy);
    crate::grouping::law_grouping(series, samples);
    crate::joining::lemma_ascending_ordered(series.chunks);
    assert forall|k: int| 0 <= k < series.chunks.len() implies {
        let c = #[trigger] w[k];
        &&& c.wf()
        &&& c.samples.len() > 0
        &&& c.first_timestamp() == series.chunks[k].first_timestamp()
        &&& c.last_timestamp() == series.chunks[k].last_timestamp()
    } by {
        let c = series.chunks[k];
        let batch = samples_for(groups, k);
        lemma_samples_for_covered(
            groups,
            series.chunks,
            crate::grouping::new_capacity(series),
            k,
        );
        lemma_covered_merge(c, batch, policy);
    }
    assert forall|i: int, j: int| 0 <= i < j < w.len() implies (#[trigger] w[i]).last_timestamp()
        < (#[trigger] w[j]).first_timestamp() by {
        assert(series.chunks[i].last_timestamp() < series.chunks[j].first_timestamp());
    }
    assert forall|i: int, j: int| 0 <= i <= j < w.len() implies crate::series::chunk_time()(
        #[trigger] w[i],
    ) <= crate::series::chunk_time()(#[trigger] w[j]) by {
        assert(crate::series::chunk_time()(series.chunks[i]) <= crate::series::chunk_time()(
            series.chunks[j],
        ));
    }
}

/// Every run that is to go to a new chunk has samples.
proof fn lemma_new_runs(groups: Seq<GroupView>)
    requires
        forall|i: int| 0 <= i < groups.len() ==> (#[trigger] groups[i]).samples.len() > 0,
    ensures
        forall|i: int|
            0 <= i < new_runs(groups).len() ==> (#[trigger] new_runs(groups)[i]).len() > 0,
    decreases groups.len(),
{
    if groups.len() > 0 {
        let d = groups.drop_last();
        assert forall|i: int| 0 <= i < d.len() implies (#[trigger] d[i]).samples.len() > 0 by {
            assert(d[i] == groups[i]);
        }
        lemma_new_runs(d);
        let runs = new_runs(groups);
        assert(groups.last() == groups[groups.len() - 1]);
        assert forall|i: int| 0 <= i < runs.len() implies (#[trigger] runs[i]).len() > 0 by {
            if i < new_runs(d).len() {
                assert(runs[i] == new_runs(d)[i]);
            }
        }
    }
}

/// The chunks made of new runs are sound.
pub(crate) proof fn lemma_made(series: SeriesView, samples: Seq<Sample>, policy: DuplicatePolicy)
    requires
        series.wf(),
        series.chunks.len() <= usize::MAX,
    ensures
        crate::series::sound_chunks(
            new_runs(crate::grouping::grouped(series, samples)).map_values(
                new_chunk(series.chunk_compression, series.chunk_size_bytes, policy),
            ),
        ),
{
    let groups = crate::grouping::grouped(series, samples);
    let runs = new_runs(groups);
    let f = new_chunk(series.chunk_compression, series.chunk_size_bytes, policy);
    crate::grouping::law_grouping(series, samples);
    assert forall|i: int| 0 <= i < groups.len() implies (#[trigger] groups[i]).samples.len()
        > 0 by {
        assert(crate::grouping::placed(
            groups[i],
            series.chunks,
            crate::grouping::new_capacity(series),
        ));
    }
    lemma_new_runs(groups);
    let made = runs.map_values(f);
    assert forall|i: int| 0 <= i < made.len() implies (#[trigger] made[i]).wf()
        && made[i].samples.len() > 0 by {
        assert(runs[i].len() > 0);
        crate::chunk::law_merge(Seq::empty(), runs[i], policy);
    }
}

/// The chunks, old and new, into which samples were written, are sound.
pub(crate) proof fn lemma_both_sound(
    series: SeriesView,
    samples: Seq<Sample>,
    policy: DuplicatePolicy,
)
    requires
        series.wf(),
        series.chunks.len() <= usize::MAX,
    ensures
        ({
            let groups = crate::grouping::grouped(series, samples);
            crate::series::sound_chunks(
                written(series.chunks, groups, policy) + new_runs(groups).map_values(
                    new_chunk(series.chunk_compression, series.chunk_size_bytes, policy),
                ),
            )
        }),
{
    let groups = crate::grouping::grouped(series, samples);
    let old_chunks = written(series.chunks, groups, policy);
    let made = new_runs(groups).map_values(
        new_chunk(series.chunk_compression, series.chunk_size_bytes, policy),
    );
    lemma_written(series, samples, policy);
    lemma_made(series, samples, policy);
    let both = old_chunks + made;
    assert forall|i: int| 0 <= i < both.len() implies (#[trigger] both[i]).wf()
        && both[i].samples.len() > 0 by {
        if i < old_chunks.len() {
            assert(both[i] == old_chunks[i]);
        } else {
            assert(both[i] == made[i - old_chunks.len()]);
        }
    }
}

/// Writing samples into a series keeps its parts fitting together: no empty chunk, all samples in
/// order of time, no two at the same time, and the counts and bounds that belong to them.
pub proof fn law_insert_keeps_series(
    series: SeriesView,
    samples: Seq<Sample>,
    policy: DuplicatePolicy,
)
    requires
        series.wf(),
        series.chunks.len() <= usize::MAX,
    ensures
        inserted(series, samples, policy).wf(),
{
    let groups = crate::grouping::grouped(series, samples);
    if groups.len() > 0 {
        let key = crate::series::chunk_time();
        let old_chunks = written(series.chunks, groups, policy);
        let made = new_runs(groups).map_values(
            new_chunk(series.chunk_compression, series.chunk_size_bytes, policy),
        );
        let both = old_chunks + made;
        lemma_both_sound(series, samples, policy);
        crate::series::lemma_sort_sound(both);
        let sorted = crate::sorting::stable_sort(both, key);
        crate::sorting::law_stable_sort(both, key);
        let whole = crate::joining::joined(sorted, policy);
        crate::joining::law_joined_in_order(sorted, policy);
        crate::joining::lemma_ordered_ascending(whole);
        let split = crate::series::split_all(whole);
        crate::series::lemma_split_all_sound(whole);
        crate::read_back::law_split_keeps_samples(whole);
        crate::joining::lemma_ascending_ordered(split);
        crate::sorting::law_sort_of_sorted(split, key);
    }
}

proof fn lemma_batch_results_len(
    groups: Seq<GroupView>,
    chunks: Seq<ChunkView>,
    policy: DuplicatePolicy,
)
    ensures
        batch_results(groups, chunks, policy).len() == crate::grouping::grouped_samples(
            groups,
        ).len(),
    decreases groups.len(),
{
    if groups.len() > 0 {
        lemma_batch_results_len(groups.drop_last(), chunks, policy);
    }
}

/// There is one result for each sample that is let in.
pub proof fn law_one_result_each(
    series: SeriesView,
    samples: Seq<Sample>,
    policy: DuplicatePolicy,
)
    requires
        series.wf(),
        series.chunks.len() <= usize::MAX,
    ensures
        insert_results(series, samples, policy).len() == crate::grouping::admitted(
            series,
            samples,
        ).len(),
{
    crate::grouping::law_grouping(series, samples);
    lemma_batch_results_len(crate::grouping::grouped(series, samples), series.chunks, policy);
}

proof fn lemma_no_results(series: SeriesView, samples: Seq<Sample>, policy: DuplicatePolicy)
    requires
        series.wf(),
        series.chunks.len() <= usize::MAX,
    ensures
        insert_results(series, samples, policy).len() == 0 <==> crate::grouping::grouped(
            series,
            samples,
        ).len() == 0,
{
    let groups = crate::grouping::grouped(series, samples);
    crate::grouping::law_grouping(series, samples);
    if groups.len() > 0 {
        let last = groups.len() - 1;
        assert(crate::grouping::placed(
            groups[last],
            series.chunks,
            crate::grouping::new_capacity(series),
        ));
        assert(group_results(groups.drop_last(), groups.last(), series.chunks, policy).len() > 0);
    }
}

/// Lines up the results of the groups.
fn flatten_results(slots: Vec<Option<Vec<SampleAddResult>>>) -> (r: Vec<SampleAddResult>)
    ensures
        r@ == slots@.map_values(slot_results()).flatten_alt(),
{
    let mut r: Vec<SampleAddResult> = Vec::new();
    let ghost parts = slots@.map_values(slot_results());
    let ghost all = slots@;
    let mut at: usize = 0;
    let n: usize = slots.len();
    for slot in it: slots
        invariant
            it.seq() == all,
            all.len() == n,
            at == it.index(),
            at <= n,
            parts == all.map_values(slot_results()),
            r@ == parts.take(at as int).flatten_alt(),
    {
        assert(at < n);
        assert(slot == all[at as int]);
        proof {
            assert(parts.take(at + 1).drop_last() =~= parts.take(at as int));
            assert(parts.take(at + 1).last() == slot_results()(slot));
        }
        match slot {
            Some(mut results) => {
                r.append(&mut results);
            },
            None => {},
        }
        at = at + 1;
    }
    assert(parts.take(at as int) =~= parts);
    r
}

/// The results in a slot, as a function.
spec fn slot_results() -> spec_fn(Option<Vec<SampleAddResult>>) -> Seq<SampleAddResult> {
    |slot: Option<Vec<SampleAddResult>>|
        match slot {
            Some(results) => results@,
            None => Seq::empty(),
        }
}

proof fn lemma_batch_results(
    parts: Seq<Seq<SampleAddResult>>,
    groups: Seq<GroupView>,
    chunks: Seq<ChunkView>,
    policy: DuplicatePolicy,
)
    requires
        parts.len() == groups.len(),
        forall|p: int|
            0 <= p < parts.len() ==> #[trigger] parts[p] == group_results(
                groups.take(p),
                groups[p],
                chunks,
                policy,
            ),
    ensures
        parts.flatten_alt() == batch_results(groups, chunks, policy),
    decreases parts.len(),
{
    if parts.len() > 0 {
        assert forall|p: int| 0 <= p < parts.drop_last().len() implies #[trigger] parts.drop_last()[p]
            == group_results(
            groups.drop_last().take(p),
            groups.drop_last()[p],
            chunks,
            policy,
        ) by {
            assert(parts.drop_last()[p] == parts[p]);
            assert(groups.drop_last().take(p) =~= groups.take(p));
        }
        lemma_batch_results(parts.drop_last(), groups.drop_last(), chunks, policy);
        assert(parts.last() == parts[parts.len() - 1]);
        assert(groups.take(groups.len() - 1) =~= groups.drop_last());
    }
}

/// Puts results into the slots of their groups.
fn fill_existing(
    slots: &mut Vec<Option<Vec<SampleAddResult>>>,
    results: Vec<(usize, Vec<SampleAddResult>)>,
)
    requires
        forall|e: int| 0 <= e < results@.len() ==> (#[trigger] results@[e]).0 < old(slots)@.len(),
        forall|e: int, f: int|
            0 <= e < f < results@.len() ==> (#[trigger] results@[e]).0 < (#[trigger] results@[f]).0,
    ensures
        final(slots)@.len() == old(slots)@.len(),
        forall|e: int|
            0 <= e < results@.len() ==> final(slots)@[(#[trigger] results@[e]).0 as int] == Some(
                results@[e].1,
            ),
{
    let ghost all = results@;
    let ghost count = slots@.len();
    let n: usize = results.len();
    let mut at: usize = 0;
    for result in it: results
        invariant
            it.seq() == all,
            all.len() == n,
            at == it.index(),
            at <= n,
            slots@.len() == count,
            forall|e: int| 0 <= e < n ==> (#[trigger] all[e]).0 < count,
            forall|e: int, f: int|
                0 <= e < f < n ==> (#[trigger] all[e]).0 < (#[trigger] all[f]).0,
            forall|e: int|
                0 <= e < at ==> slots@[(#[trigger] all[e]).0 as int] == Some(all[e].1),
    {
        assert(at < n);
        assert(result == all[at as int]);
        let (place, group) = result;
        slots.set(place, Some(group));
        at = at + 1;
    }
}

/// Appends the new chunks, and puts results into the slots of their groups.
fn fill_new(
    slots: &mut Vec<Option<Vec<SampleAddResult>>>,
    chunks: &mut Vec<TimeSeriesChunk>,
    results: Vec<(usize, TimeSeriesChunk, Vec<SampleAddResult>)>,
)
    requires
        forall|e: int| 0 <= e < results@.len() ==> (#[trigger] results@[e]).0 < old(slots)@.len(),
        forall|e: int, f: int|
            0 <= e < f < results@.len() ==> (#[trigger] results@[e]).0 < (#[trigger] results@[f]).0,
    ensures
        final(slots)@.len() == old(slots)@.len(),
        forall|e: int|
            0 <= e < results@.len() ==> final(slots)@[(#[trigger] results@[e]).0 as int] == Some(
                results@[e].2,
            ),
        forall|q: int|
            0 <= q < old(slots)@.len() && (forall|e: int|
                0 <= e < results@.len() ==> (#[trigger] results@[e]).0 != q)
                ==> #[trigger] final(slots)@[q] == old(slots)@[q],
        final(chunks)@ == old(chunks)@ + Seq::new(results@.len(), |e: int| results@[e].1),
{
    let ghost all = results@;
    let ghost count = slots@.len();
    let n: usize = results.len();
    let mut at: usize = 0;
    for result in it: results
        invariant
            it.seq() == all,
            all.len() == n,
            at == it.index(),
            at <= n,
            slots@.len() == count,
            count == old(slots)@.len(),
            forall|e: int| 0 <= e < n ==> (#[trigger] all[e]).0 < count,
            forall|e: int, f: int|
                0 <= e < f < n ==> (#[trigger] all[e]).0 < (#[trigger] all[f]).0,
            forall|e: int|
                0 <= e < at ==> slots@[(#[trigger] all[e]).0 as int] == Some(all[e].2),
            forall|q: int|
                0 <= q < count && (forall|e: int| 0 <= e < n ==> (#[trigger] all[e]).0 != q)
                    ==> #[trigger] slots@[q] == old(slots)@[q],
            chunks@ == old(chunks)@ + Seq::new(at as nat, |e: int| all[e].1),
    {
        assert(at < n);
        assert(result == all[at as int]);
        let ghost held = chunks@;
        let (place, chunk, group) = result;
        slots.set(place, Some(group));
        chunks.push(chunk);
        assert(chunks@ =~= old(chunks)@ + Seq::new((at + 1) as nat, |e: int| all[e].1));
        at = at + 1;
    }
    assert(chunks@ =~= old(chunks)@ + Seq::new(n as nat, |e: int| all[e].1));
}

/// Writes `samples` into `series`; gives what became of each that is let in.
fn insert_samples(series: &mut TimeSeries, samples: &[Sample], policy: Option<DuplicatePolicy>) -> (r:
    Vec<SampleAddResult>)
    requires
        old(series)@.wf(),
    ensures
        final(series)@.wf(),
        final(series)@ == inserted(
            old(series)@,
            samples@,
            crate::common::policy_or_block(policy),
        ),
        r@ == insert_results(old(series)@, samples@, crate::common::policy_or_block(policy)),
{
    let ghost start = series@;
    let ghost p = crate::common::policy_or_block(policy);
    assert(series.chunks.len() == series@.chunks.len());
    let groups: Vec<ChunkSampleGroup<'_>> = group_samples_by_chunk(series, samples);
    let count: usize = groups.len();
    let ghost views = groups@.map_values(crate::grouping::group_view());
    if count == 0 {
        return Vec::new();
    }
    proof {
        crate::grouping::law_grouping(start, samples@);
        law_insert_keeps_series(start, samples@, p);
        lemma_written(start, samples@, p);
    }
    let (existing, fresh) = partition_groups(&groups);
    let mut slots: Vec<Option<Vec<SampleAddResult>>> = Vec::with_capacity(count);
    while slots.len() < count
        invariant
            slots@.len() <= count,
        decreases count - slots@.len(),
    {
        slots.push(None);
    }

    let ghost before = series.chunks@;
    proof {
        assert forall|i: int| 0 <= i < before.len() implies (#[trigger] before[i])@.wf() by {
            assert(start.chunks[i] == before[i]@);
        }
        assert forall|e: int| 0 <= e < existing@.len() implies (#[trigger] existing@[e]).1
            < before.len() by {
            assert(crate::grouping::placed(
                views[existing@[e].0 as int],
                start.chunks,
                crate::grouping::new_capacity(start),
            ));
        }
        assert forall|e: int, f: int| 0 <= e < f < existing@.len() implies (
        #[trigger] existing@[e]).1 <= (#[trigger] existing@[f]).1 by {
            assert(existing@[e].0 < existing@[f].0);
            assert(views[existing@[e].0 as int].chunk is ExistingIdx);
            assert(views[existing@[f].0 as int].chunk is ExistingIdx);
        }
    }
    let existing_results: Vec<(usize, Vec<SampleAddResult>)> = merge_existing(
        &mut series.chunks,
        &existing,
        policy,
    );
    proof {
        let now = series.chunks@.map_values(crate::series::chunk_view());
        let w = written(start.chunks, views, p);
        assert forall|k: int| 0 <= k < w.len() implies now[k] == w[k] by {
            assert(series.chunks@[k]@ == before[k]@.merge(named(existing@, k), p));
            assert(named(existing@, k) == samples_for(views, k));
        }
        assert(now =~= w);
    }
    let ghost existing_done = existing_results@;
    fill_existing(&mut slots, existing_results);
    let ghost half = slots@;
    let ghost w = written(start.chunks, views, p);
    let ghost f = new_chunk(start.chunk_compression, start.chunk_size_bytes, p);
    let ghost made = new_runs(views).map_values(f);
    let ghost fresh_groups = fresh@;
    let ghost placed_chunks = SeriesView {
        chunks: crate::joining::joined(
            crate::sorting::stable_sort(w + made, crate::series::chunk_time()),
            p,
        ),
        ..start
    }.with_bounds();
    assert(series@ == SeriesView { chunks: w, ..start });

    if fresh.len() > 0 {
        let new_results: Vec<(usize, TimeSeriesChunk, Vec<SampleAddResult>)> = merge_new(
            fresh,
            series.chunk_compression,
            series.chunk_size_bytes,
            policy,
        );
        let ghost done = new_results@;
        proof {
            assert forall|e: int, g: int| 0 <= e < g < done.len() implies (#[trigger] done[e]).0 < (
            #[trigger] done[g]).0 by {
                assert(fresh_groups[e].0 < fresh_groups[g].0);
            }
            assert forall|e: int| 0 <= e < done.len() implies (#[trigger] done[e]).0
                < slots@.len() by {
                assert(fresh_groups[e].0 < views.len());
            }
        }
        fill_new(&mut slots, &mut series.chunks, new_results);
        proof {
            assert forall|e: int| 0 <= e < fresh_groups.len() implies slots@[(
            #[trigger] fresh_groups[e]).0 as int] is Some && slots@[fresh_groups[e].0 as int]->0@
                == crate::chunk::merge_results(Seq::empty(), fresh_groups[e].1@, p) by {
                assert(done[e].0 == fresh_groups[e].0);
            }
            assert forall|q: int|
                0 <= q < half.len() && (forall|e: int|
                    0 <= e < fresh_groups.len() ==> (#[trigger] fresh_groups[e]).0
                        != q) implies #[trigger] slots@[q] == half[q] by {
                assert forall|e: int| 0 <= e < done.len() implies (#[trigger] done[e]).0 != q by {
                    assert(fresh_groups[e].0 != q);
                }
            }
        }
        let mut chunks: Vec<TimeSeriesChunk> = Vec::new();
        std::mem::swap(&mut chunks, &mut series.chunks);
        let ghost unsorted = chunks@;
        sort_by_time(&mut chunks);
        proof {
            assert(unsorted.map_values(crate::series::chunk_view()) =~= w + made) by {
                assert forall|e: int| 0 <= e < done.len() implies (#[trigger] done[e]).1@
                    == made[e] by {
                    assert(fresh_groups[e].1@ == new_runs(views)[e]);
                }
            }
            crate::sorting::lemma_sort_map(
                unsorted,
                crate::series::chunk_view(),
                crate::sorting::time_of::<TimeSeriesChunk>(),
                crate::series::chunk_time(),
            );
            lemma_both_sound(start, samples@, p);
            crate::series::lemma_sort_sound(w + made);
            crate::sorting::law_stable_sort(w + made, crate::series::chunk_time());
        }
        series.chunks = join_chunks(chunks, policy);
        series.update_first_last_timestamps();
    } else {
        proof {
            assert(w + made =~= w);
            crate::sorting::law_sort_of_sorted(w, crate::series::chunk_time());
            crate::joining::law_joined_of_ordered(w, p);
        }
    }
    assert(series@ == placed_chunks);
    proof {
        lemma_both_sound(start, samples@, p);
        let sorted = crate::sorting::stable_sort(w + made, crate::series::chunk_time());
        crate::series::lemma_sort_sound(w + made);
        crate::sorting::law_stable_sort(w + made, crate::series::chunk_time());
        crate::joining::law_joined_in_order(sorted, p);
        crate::joining::lemma_ordered_ascending(series@.chunks);
        crate::joining::lemma_ascending_ordered(series@.chunks);
    }
    series.split_chunks_if_needed();
    series.recalculate_total_samples();
    proof {
        let parts = slots@.map_values(slot_results());
        assert forall|q: int| 0 <= q < parts.len() implies #[trigger] parts[q] == group_results(
            views.take(q),
            views[q],
            start.chunks,
            p,
        ) by {
            match views[q].chunk {
                ChunkHolder::ExistingIdx(k) => {
                    let e = choose|e: int|
                        0 <= e < existing@.len() && (#[trigger] existing@[e]).0 == q;
                    assert(existing_done[e].0 == q);
                    assert(named(existing@.take(e), k as int) == samples_for(
                        views.take(q),
                        k as int,
                    ));
                    assert(before[k as int]@ == start.chunks[k as int]);
                    assert(half[q] == Some(existing_done[e].1));
                    assert forall|g: int| 0 <= g < fresh_groups.len() implies (
                    #[trigger] fresh_groups[g]).0 != q by {
                        assert(views[fresh_groups[g].0 as int].chunk is New);
                    }
                    assert(slots@[q] == half[q]);
                },
                ChunkHolder::New => {
                    let e = choose|e: int|
                        0 <= e < fresh_groups.len() && (#[trigger] fresh_groups[e]).0 == q;
                },
            }
        }
        lemma_batch_results(parts, views, start.chunks, p);
    }
    flatten_results(slots)
}

/// Writes `samples`, which are in order of time, into `series`, tells the server of a gain, and
/// compacts what was stored; gives what became of each sample that is let in.
pub fn bulk_insert_samples(
    ctx: &mut Context,
    series: &mut TimeSeries,
    samples: &[Sample],
    policy: Option<DuplicatePolicy>,
) -> (r: Vec<SampleAddResult>)
    requires
        old(ctx)@.wf(),
        old(series)@.wf(),
    ensures
        (final(ctx)@, final(series)@) == bulk_inserted(
            old(ctx)@,
            old(series)@,
            samples@,
            crate::common::policy_or_block(policy),
            old(ctx)@.series.dom().len(),
        ),
        r@ == insert_results(old(series)@, samples@, crate::common::policy_or_block(policy)),
        final(ctx)@.wf(),
        final(ctx)@.series.dom() == old(ctx)@.series.dom(),
        final(series)@.wf(),
    decreases old(ctx)@.series.dom().len(), 1nat,
{
    let saved: usize = series.total_samples;
    proof {
        assert(series.chunks.len() == series@.chunks.len());
        lemma_no_results(series@, samples@, crate::common::policy_or_block(policy));
    }
    let results: Vec<SampleAddResult> = insert_samples(series, samples, policy);
    if results.len() == 0 {
        return results;
    }
    if series.total_samples > saved {
        let event: AddEvent = if series.is_compaction() {
            AddEvent::AddDest
        } else {
            AddEvent::Add
        };
        let ids: [SeriesRef; 1] = [series.id];
        assert(ids@ =~= seq![series@.id]);
        ctx.notify_added(event, &ids);
    }
    let added: Vec<Sample> = collect_stored(&results);
    let _ = run_compactions(ctx, series, &added);
    results
}

/// Applies the rules of `series`, into which `samples`, which are in order of time, were written.
pub fn run_compactions(ctx: &mut Context, series: &mut TimeSeries, samples: &[Sample]) -> (r:
    TsdbResult<()>)
    requires
        old(ctx)@.wf(),
        old(series)@.wf(),
    ensures
        r is Ok,
        (final(ctx)@, final(series)@) == compactions_run(
            old(ctx)@,
            old(series)@,
            samples@,
            old(ctx)@.series.dom().len(),
        ),
        final(ctx)@.wf(),
        final(ctx)@.series.dom() == old(ctx)@.series.dom(),
        final(series)@.wf(),
    decreases old(ctx)@.series.dom().len(), 0nat,
{
    let n: usize = series.rules.len();
    if n == 0 || samples.len() == 0 {
        return Ok(());
    }
    let ghost source = series@;
    let ghost depth = ctx@.series.dom().len();
    let ghost all_rules = rules_after(source, samples@);
    let ghost all_batches = rule_batches(source, samples@);
    let mut rules: Vec<CompactionRule> = Vec::with_capacity(n);
    let mut batches: Vec<Vec<Sample>> = Vec::with_capacity(n);
    let mut i: usize = 0;
    while i < n
        invariant
            i <= n,
            n == source.rules.len(),
            series@ == source,
            source.wf(),
            all_rules == rules_after(source, samples@),
            all_batches == rule_batches(source, samples@),
            rules@.len() == i,
            batches@.len() == i,
            forall|k: int| 0 <= k < i ==> #[trigger] rules@[k] == all_rules[k],
            forall|k: int| 0 <= k < i ==> (#[trigger] batches@[k])@ == all_batches[k],
        decreases n - i,
    {
        let mut rule: CompactionRule = series.rules[i];
        assert(source.rules[i as int].wf());
        let batch: Vec<Sample> = get_compacted_samples(series, &mut rule, samples);
        rules.push(rule);
        batches.push(batch);
        i = i + 1;
    }
    series.rules = rules;
    assert(series@.rules =~= all_rules);
    proof {
        assert forall|k: int| 0 <= k < all_rules.len() implies (#[trigger] all_rules[k]).wf() by {
            assert(source.rules[k].wf());
        }
    }
    let mut k: usize = 0;
    while k < n
        invariant
            k <= n,
            n == all_rules.len(),
            n == batches@.len(),
            n == all_batches.len(),
            series@ == (SeriesView { rules: all_rules, ..source }),
            forall|j: int| 0 <= j < n ==> (#[trigger] batches@[j])@ == all_batches[j],
            ctx@ == delivered(old(ctx)@, all_rules, all_batches, k as nat, depth),
            ctx@.wf(),
            ctx@.series.dom() == old(ctx)@.series.dom(),
            depth == old(ctx)@.series.dom().len(),
        decreases n - k,
    {
        let id: SeriesRef = series.rules[k].dest_id;
        let ghost before = ctx@;
        match ctx.get_destination_series(id) {
            Some(mut dest) => {
                proof {
                    assert(before.series.dom().contains(id));
                    assert(ctx@.series.dom() =~= before.series.dom().remove(id));
                }
                let _ = bulk_insert_samples(
                    ctx,
                    &mut dest,
                    &batches[k],
                    Some(DuplicatePolicy::KeepLast),
                );
                assert(dest.chunks.len() == dest@.chunks.len());
                ctx.put_series(id, dest);
                assert(ctx@.series.dom() =~= before.series.dom());
            },
            None => {
                assert(ctx@.series =~= before.series);
                assert(ctx@ =~= before);
            },
        }
        k = k + 1;
    }
    Ok(())
}

/// Whether `later` tells the server all that `earlier` does, and perhaps more behind it.
pub open spec fn tells_more(earlier: ContextView, later: ContextView) -> bool {
    earlier.effects.len() <= later.effects.len() && later.effects.take(
        earlier.effects.len() as int,
    ) == earlier.effects
}

/// A write keeps the keys, and which series are in reach, and only adds to what the server is told.
/// The series written keeps all but its samples and the running aggregations of its rules.
pub proof fn law_write_keeps_surroundings(
    ctx: ContextView,
    series: SeriesView,
    samples: Seq<Sample>,
    policy: DuplicatePolicy,
    depth: nat,
)
    ensures
        ({
            let (after, written_series) = bulk_inserted(ctx, series, samples, policy, depth);
            &&& after.keys == ctx.keys
            &&& after.series.dom() == ctx.series.dom()
            &&& tells_more(ctx, after)
            &&& written_series.id == series.id
            &&& written_series.retention == series.retention
            &&& written_series.chunk_compression == series.chunk_compression
            &&& written_series.chunk_size_bytes == series.chunk_size_bytes
            &&& written_series.sample_duplicates == series.sample_duplicates
            &&& written_series.rounding == series.rounding
            &&& written_series.labels == series.labels
            &&& written_series.metric == series.metric
            &&& written_series.src_series == series.src_series
            &&& written_series.rules.len() == series.rules.len()
        }),
    decreases depth, 1nat, 0nat,
{
    assert(ctx.effects.take(ctx.effects.len() as int) =~= ctx.effects);
    if crate::grouping::grouped(series, samples).len() > 0 {
        let after = inserted(series, samples, policy);
        let told = if after.total_samples > series.total_samples {
            ctx.notified(add_event(after), seq![after.id])
        } else {
            ctx
        };
        assert(told.effects.take(ctx.effects.len() as int) =~= ctx.effects);
        let stored = crate::common::stored_samples(insert_results(series, samples, policy));
        let rules = rules_after(after, stored);
        if after.rules.len() > 0 && stored.len() > 0 {
            lemma_delivery_keeps_surroundings(
                told,
                rules,
                rule_batches(after, stored),
                rules.len(),
                depth,
            );
            let last = delivered(told, rules, rule_batches(after, stored), rules.len(), depth);
            assert(last.effects.take(ctx.effects.len() as int) =~= last.effects.take(
                told.effects.len() as int,
            ).take(ctx.effects.len() as int));
        }
    }
}

pub(crate) proof fn lemma_delivery_keeps_surroundings(
    ctx: ContextView,
    rules: Seq<CompactionRule>,
    batches: Seq<Seq<Sample>>,
    n: nat,
    depth: nat,
)
    ensures
        ({
            let after = delivered(ctx, rules, batches, n, depth);
            &&& after.keys == ctx.keys
            &&& after.series.dom() == ctx.series.dom()
            &&& tells_more(ctx, after)
        }),
    decreases depth, 0nat, n,
{
    assert(ctx.effects.take(ctx.effects.len() as int) =~= ctx.effects);
    if n > 0 {
        lemma_delivery_keeps_surroundings(ctx, rules, batches, (n - 1) as nat, depth);
        let before = delivered(ctx, rules, batches, (n - 1) as nat, depth);
        let id = rules[n - 1].dest_id;
        if depth > 0 && before.series.contains_key(id) {
            let dest = before.series[id];
            law_write_keeps_surroundings(
                before.without(id),
                dest,
                batches[n - 1],
                DuplicatePolicy::KeepLast,
                (depth - 1) as nat,
            );
            let after = delivered(ctx, rules, batches, n, depth);
            assert(before.series.dom().contains(id));
            assert(after.series.dom() =~= before.series.dom());
            assert(after.effects.take(ctx.effects.len() as int) =~= after.effects.take(
                before.effects.len() as int,
            ).take(ctx.effects.len() as int));
        }
    }
}

/// Telling the server and compacting leave the samples of the series as they were written, and with
/// them its chunks, its counts and its bounds.
pub proof fn law_compacting_leaves_samples(
    ctx: ContextView,
    series: SeriesView,
    samples: Seq<Sample>,
    policy: DuplicatePolicy,
    depth: nat,
)
    ensures
        ({
            let after = bulk_inserted(ctx, series, samples, policy, depth).1;
            let plain = inserted(series, samples, policy);
            &&& after.samples() == plain.samples()
            &&& after == (SeriesView { rules: after.rules, ..plain })
        }),
{
}

/// A compaction whose destination is in reach is written into it, the last value kept, on top of
/// what the rules before it left there.
pub proof fn law_destination_takes_batch(
    ctx: ContextView,
    rules: Seq<CompactionRule>,
    batches: Seq<Seq<Sample>>,
    n: nat,
    depth: nat,
)
    requires
        0 < n <= rules.len(),
        depth > 0,
        ctx.series.contains_key(rules[n - 1].dest_id),
    ensures
        ({
            let id = rules[n - 1].dest_id;
            let before = delivered(ctx, rules, batches, (n - 1) as nat, depth);
            let after = delivered(ctx, rules, batches, n, depth);
            &&& after.series.contains_key(id)
            &&& after.series[id].samples() == inserted(
                before.series[id],
                batches[n - 1],
                DuplicatePolicy::KeepLast,
            ).samples()
        }),
{
    let id = rules[n - 1].dest_id;
    let before = delivered(ctx, rules, batches, (n - 1) as nat, depth);
    lemma_delivery_keeps_surroundings(ctx, rules, batches, (n - 1) as nat, depth);
    assert(before.series.dom().contains(id));
    law_compacting_leaves_samples(
        before.without(id),
        before.series[id],
        batches[n - 1],
        DuplicatePolicy::KeepLast,
        (depth - 1) as nat,
    );
}

} // verus!
