//! What holds of the groups that the samples of a batch are put into.
use vstd::prelude::*;

use crate::chunk::ChunkView;
use crate::common::{Sample, Timestamp};
use crate::grouping::{ChunkHolder, GroupView};
use crate::series::SeriesView;

verus! {

/// Whether the samples are in order of time; several may have the same time.
pub open spec fn in_time(s: Seq<Sample>) -> bool {
    forall|i: int, j: int|
        0 <= i <= j < s.len() ==> (#[trigger] s[i]).timestamp <= (#[trigger] s[j]).timestamp
}

/// Whether all samples of each group are older than those of the next.
pub open spec fn parted(groups: Seq<GroupView>) -> bool {
    forall|g: int, h: int, i: int, j: int|
        0 <= g < h < groups.len() && 0 <= i < groups[g].samples.len() && 0 <= j
            < groups[h].samples.len() ==> (#[trigger] groups[g].samples[i]).timestamp < (
        #[trigger] groups[h].samples[j]).timestamp
}

/// Whether each sample at a time that a chunk holds is in a group of that chunk.
pub open spec fn homed(groups: Seq<GroupView>, chunks: Seq<ChunkView>) -> bool {
    forall|g: int, i: int, k: int|
        0 <= g < groups.len() && 0 <= i < groups[g].samples.len() && 0 <= k < chunks.len()
            && #[trigger] crate::chunk::taken(
            chunks[k].samples,
            (#[trigger] groups[g].samples[i]).timestamp,
        ) ==> groups[g].chunk == ChunkHolder::ExistingIdx(k as usize)
}

/// How many of the samples lie in the range of a chunk, at times that it does not hold.
pub open spec fn newcomers(c: ChunkView, samples: Seq<Sample>) -> nat
    decreases samples.len(),
{
    if samples.len() == 0 {
        0
    } else {
        let t = samples.last().timestamp;
        newcomers(c, samples.drop_last()) + (if c.covers(t) && !crate::chunk::taken(c.samples, t) {
            1nat
        } else {
            0
        })
    }
}

/// Whether every sample of `a` is older than those of `b`.
spec fn all_before(a: Seq<Sample>, b: Seq<Sample>) -> bool {
    forall|i: int, j: int|
        0 <= i < a.len() && 0 <= j < b.len() ==> (#[trigger] a[i]).timestamp < (
        #[trigger] b[j]).timestamp
}

/// A group's samples are among those of all groups, in one run.
pub(crate) proof fn lemma_group_run(groups: Seq<GroupView>, g: int) -> (at: int)
    requires
        0 <= g < groups.len(),
    ensures
        0 <= at <= at + groups[g].samples.len() <= crate::grouping::grouped_samples(groups).len(),
        groups[g].samples == crate::grouping::grouped_samples(groups).subrange(
            at,
            at + groups[g].samples.len(),
        ),
    decreases groups.len(),
{
    let d = groups.drop_last();
    let front = crate::grouping::grouped_samples(d);
    let all = crate::grouping::grouped_samples(groups);
    if g == groups.len() - 1 {
        assert(groups[g] == groups.last());
        assert(all.subrange(front.len() as int, all.len() as int) =~= groups[g].samples);
        front.len() as int
    } else {
        let at = lemma_group_run(d, g);
        assert(d[g] == groups[g]);
        assert(front.subrange(at, at + d[g].samples.len()) =~= all.subrange(
            at,
            at + d[g].samples.len(),
        ));
        at
    }
}

/// Cutting samples in order of time between two different times.
proof fn lemma_cut_between(s: Seq<Sample>, n: int)
    requires
        in_time(s),
        0 <= n <= s.len(),
        0 < n < s.len() ==> s[n - 1].timestamp != s[n].timestamp,
    ensures
        in_time(s.take(n)),
        in_time(s.skip(n)),
        all_before(s.take(n), s.skip(n)),
{
    let a = s.take(n);
    let b = s.skip(n);
    assert forall|i: int, j: int| 0 <= i <= j < a.len() implies (#[trigger] a[i]).timestamp <= (
    #[trigger] a[j]).timestamp by {
        assert(s[i].timestamp <= s[j].timestamp);
    }
    assert forall|i: int, j: int| 0 <= i <= j < b.len() implies (#[trigger] b[i]).timestamp <= (
    #[trigger] b[j]).timestamp by {
        assert(s[n + i].timestamp <= s[n + j].timestamp);
    }
    assert forall|i: int, j: int| 0 <= i < a.len() && 0 <= j < b.len() implies (
    #[trigger] a[i]).timestamp < (#[trigger] b[j]).timestamp by {
        assert(s[i].timestamp <= s[n - 1].timestamp);
        assert(s[n - 1].timestamp <= s[n].timestamp);
        assert(s[n].timestamp <= s[n + j].timestamp);
    }
}

proof fn lemma_parted_add(
    a: Seq<GroupView>,
    b: Seq<GroupView>,
    run: Seq<Sample>,
    rest: Seq<Sample>,
    chunks: Seq<ChunkView>,
)
    requires
        crate::grouping::grouped_samples(a) == run,
        crate::grouping::grouped_samples(b) == rest,
        all_before(run, rest),
        parted(a),
        parted(b),
        homed(a, chunks),
        homed(b, chunks),
    ensures
        parted(a + b),
        homed(a + b, chunks),
{
    let all = a + b;
    assert forall|g: int, h: int, i: int, j: int|
        0 <= g < h < all.len() && 0 <= i < all[g].samples.len() && 0 <= j
            < all[h].samples.len() implies (#[trigger] all[g].samples[i]).timestamp < (
    #[trigger] all[h].samples[j]).timestamp by {
        if h < a.len() {
            assert(all[g] == a[g] && all[h] == a[h]);
            assert(a[g].samples[i].timestamp < a[h].samples[j].timestamp);
        } else if g >= a.len() {
            assert(all[g] == b[g - a.len()] && all[h] == b[h - a.len()]);
            assert(b[g - a.len()].samples[i].timestamp < b[h - a.len()].samples[j].timestamp);
        } else {
            assert(all[g] == a[g] && all[h] == b[h - a.len()]);
            let p = lemma_group_run(a, g);
            let q = lemma_group_run(b, h - a.len());
            assert(run[p + i] == a[g].samples[i]);
            assert(rest[q + j] == b[h - a.len()].samples[j]);
        }
    }
    assert forall|g: int, i: int, k: int|
        0 <= g < all.len() && 0 <= i < all[g].samples.len() && 0 <= k < chunks.len()
            && #[trigger] crate::chunk::taken(
            chunks[k].samples,
            (#[trigger] all[g].samples[i]).timestamp,
        ) implies all[g].chunk == ChunkHolder::ExistingIdx(k as usize) by {
        if g < a.len() {
            assert(all[g] == a[g]);
            assert(crate::chunk::taken(chunks[k].samples, a[g].samples[i].timestamp));
        } else {
            assert(all[g] == b[g - a.len()]);
            assert(crate::chunk::taken(
                chunks[k].samples,
                b[g - a.len()].samples[i].timestamp,
            ));
        }
    }
}

/// One group alone.
proof fn lemma_parted_one(g: GroupView, chunks: Seq<ChunkView>)
    requires
        forall|i: int, k: int|
            0 <= i < g.samples.len() && 0 <= k < chunks.len() && #[trigger] crate::chunk::taken(
                chunks[k].samples,
                (#[trigger] g.samples[i]).timestamp,
            ) ==> g.chunk == ChunkHolder::ExistingIdx(k as usize),
    ensures
        parted(seq![g]),
        homed(seq![g], chunks),
        crate::grouping::grouped_samples(seq![g]) == g.samples,
{
    crate::grouping::lemma_grouped_samples_one(g);
    let one = seq![g];
    assert forall|h: int, i: int, k: int|
        0 <= h < one.len() && 0 <= i < one[h].samples.len() && 0 <= k < chunks.len()
            && #[trigger] crate::chunk::taken(
            chunks[k].samples,
            (#[trigger] one[h].samples[i]).timestamp,
        ) implies one[h].chunk == ChunkHolder::ExistingIdx(k as usize) by {
        assert(one[h] == g);
        assert(crate::chunk::taken(chunks[k].samples, g.samples[i].timestamp));
    }
}

/// Whether no chunk holds the time of a sample.
spec fn all_free(samples: Seq<Sample>, chunks: Seq<ChunkView>) -> bool {
    forall|i: int, k: int|
        0 <= i < samples.len() && 0 <= k < chunks.len() ==> !#[trigger] crate::chunk::taken(
            chunks[k].samples,
            (#[trigger] samples[i]).timestamp,
        )
}

proof fn lemma_new_parted(samples: Seq<Sample>, chunks: Seq<ChunkView>, capacity: nat)
    requires
        capacity > 0,
        in_time(samples),
        all_free(samples, chunks),
    ensures
        parted(crate::grouping::new_groups(samples, capacity)),
        homed(crate::grouping::new_groups(samples, capacity), chunks),
    decreases samples.len(),
{
    if samples.len() > 0 {
        crate::grouping::lemma_first_run(samples, capacity);
        let n = crate::grouping::first_run(samples, capacity) as int;
        let a = samples.take(n);
        let b = samples.skip(n);
        if n < samples.len() {
            let f = crate::grouping::at_time(samples[capacity - 1].timestamp);
            let rest = samples.skip(capacity as int);
            crate::grouping::lemma_leading(rest, f);
            assert(rest[n - capacity] == samples[n]);
            assert(!f(samples[n]));
            if n > capacity {
                assert(f(rest[n - capacity - 1]));
                assert(rest[n - capacity - 1] == samples[n - 1]);
            }
        }
        lemma_cut_between(samples, n);
        let g = GroupView { chunk: ChunkHolder::New, samples: a };
        assert forall|i: int, k: int|
            0 <= i < a.len() && 0 <= k < chunks.len() implies !#[trigger] crate::chunk::taken(
            chunks[k].samples,
            (#[trigger] a[i]).timestamp,
        ) by {
            assert(!crate::chunk::taken(chunks[k].samples, samples[i].timestamp));
        }
        assert forall|i: int, k: int|
            0 <= i < b.len() && 0 <= k < chunks.len() implies !#[trigger] crate::chunk::taken(
            chunks[k].samples,
            (#[trigger] b[i]).timestamp,
        ) by {
            assert(!crate::chunk::taken(chunks[k].samples, samples[n + i].timestamp));
        }
        lemma_parted_one(g, chunks);
        lemma_new_parted(b, chunks, capacity);
        crate::grouping::lemma_new_groups(b, chunks, capacity, 0);
        lemma_parted_add(seq![g], crate::grouping::new_groups(b, capacity), a, b, chunks);
    }
}

/// What stays with a chunk ends between two different times.
proof fn lemma_staying_ends(c: ChunkView, run: Seq<Sample>, room: nat)
    requires
        in_time(run),
    ensures
        ({
            let n = crate::grouping::staying(c, run, room) as int;
            0 < n < run.len() ==> run[n - 1].timestamp != run[n].timestamp
        }),
    decreases run.len(),
{
    if run.len() > 0 {
        let f = crate::grouping::at_time(run[0].timestamp);
        crate::grouping::lemma_leading(run, f);
        let n = crate::grouping::leading(run, f) as int;
        assert(f(run[0]));
        let rest = run.skip(n);
        if n < run.len() {
            assert(f(run[n - 1]));
            assert(!f(run[n]));
        }
        lemma_cut_between(run, n);
        let left = if crate::chunk::taken(c.samples, run[0].timestamp) {
            room
        } else {
            (room - n) as nat
        };
        if crate::chunk::taken(c.samples, run[0].timestamp) || n <= room {
            crate::grouping::lemma_staying(c, rest, left);
            lemma_staying_ends(c, rest, left);
            let m = crate::grouping::staying(c, rest, left) as int;
            if 0 < m < rest.len() {
                assert(rest[m - 1] == run[n + m - 1]);
                assert(rest[m] == run[n + m]);
            }
        }
    }
}

/// A time that a sound chunk holds lies in its range.
pub(crate) proof fn lemma_taken_covered(c: ChunkView, t: Timestamp)
    requires
        c.wf(),
        crate::chunk::taken(c.samples, t),
    ensures
        c.covers(t),
{
    crate::joining::lemma_in_range(c);
    assert(c.covers(c.samples[crate::chunk::rank(c.samples, t) as int].timestamp));
}

/// A time in the range of one chunk is in that of no other.
proof fn lemma_only_chunk(chunks: Seq<ChunkView>, idx: int, k: int, t: Timestamp)
    requires
        crate::series::sound_chunks(chunks),
        crate::joining::ordered(chunks),
        0 <= idx < chunks.len(),
        0 <= k < chunks.len(),
        chunks[idx].covers(t),
        chunks[k].covers(t),
    ensures
        k == idx,
{
    if k < idx {
        assert(chunks[k].last_timestamp() < chunks[idx].first_timestamp());
    } else if idx < k {
        assert(chunks[idx].last_timestamp() < chunks[k].first_timestamp());
    }
}

proof fn lemma_chunk_parted(
    chunks: Seq<ChunkView>,
    idx: int,
    run: Seq<Sample>,
    room: nat,
    capacity: nat,
)
    requires
        capacity > 0,
        crate::series::sound_chunks(chunks),
        crate::joining::ordered(chunks),
        0 <= idx < chunks.len() <= usize::MAX,
        in_time(run),
        forall|i: int| 0 <= i < run.len() ==> crate::grouping::in_range_of(chunks[idx])(
            #[trigger] run[i],
        ),
    ensures
        parted(crate::grouping::chunk_groups(chunks[idx], idx, run, room, capacity)),
        homed(crate::grouping::chunk_groups(chunks[idx], idx, run, room, capacity), chunks),
    decreases run.len(),
{
    let c = chunks[idx];
    if run.len() > 0 {
        let f = crate::grouping::free_in(c);
        crate::grouping::lemma_staying(c, run, room);
        crate::grouping::lemma_leading(run, f);
        lemma_staying_ends(c, run, room);
        let n = crate::grouping::staying(c, run, room) as int;
        let m = crate::grouping::leading(run, f) as int;
        let k = if n > 0 {
            n
        } else {
            m
        };
        if n == 0 && m < run.len() {
            assert(f(run[m - 1]));
            assert(!f(run[m]));
        }
        lemma_cut_between(run, k);
        let a = run.take(k);
        let rest = run.skip(k);
        let g = GroupView { chunk: ChunkHolder::ExistingIdx(idx as usize), samples: run.take(n) };
        let here = if n > 0 {
            seq![g]
        } else {
            crate::grouping::new_groups(run.take(m), capacity)
        };
        assert forall|i: int, j: int|
            0 <= i < a.len() && 0 <= j < chunks.len() && #[trigger] crate::chunk::taken(
                chunks[j].samples,
                (#[trigger] a[i]).timestamp,
            ) implies j == idx by {
            assert(crate::grouping::in_range_of(c)(run[i]));
            assert(chunks[j].wf());
            lemma_taken_covered(chunks[j], a[i].timestamp);
            lemma_only_chunk(chunks, idx, j, a[i].timestamp);
        }
        if n > 0 {
            lemma_parted_one(g, chunks);
        } else {
            assert forall|i: int, j: int|
                0 <= i < a.len() && 0 <= j < chunks.len() implies !#[trigger] crate::chunk::taken(
                chunks[j].samples,
                (#[trigger] a[i]).timestamp,
            ) by {
                assert(f(run[i]));
            }
            lemma_new_parted(a, chunks, capacity);
            crate::grouping::lemma_new_groups(a, chunks, capacity, 0);
        }
        assert forall|i: int| 0 <= i < rest.len() implies crate::grouping::in_range_of(c)(
            #[trigger] rest[i],
        ) by {
            assert(crate::grouping::in_range_of(c)(run[k + i]));
        }
        lemma_chunk_parted(chunks, idx, rest, 0, capacity);
        crate::grouping::lemma_chunk_groups(chunks, idx, rest, 0, capacity);
        lemma_parted_add(
            here,
            crate::grouping::chunk_groups(c, idx, rest, 0, capacity),
            a,
            rest,
            chunks,
        );
    }
}

/// Whether every sample is newer than the chunks in front of `idx`.
spec fn behind(chunks: Seq<ChunkView>, idx: int, s: Seq<Sample>) -> bool {
    forall|i: int|
        0 < idx && 0 <= i < s.len() ==> (#[trigger] s[i]).timestamp > chunks[idx
            - 1].last_timestamp()
}

/// How the samples from the chunk `idx` on are cut.
proof fn lemma_cuts(chunks: Seq<ChunkView>, idx: int, rest: Seq<Sample>)
    requires
        crate::series::sound_chunks(chunks),
        crate::joining::ordered(chunks),
        0 <= idx < chunks.len(),
        in_time(rest),
        behind(chunks, idx, rest),
    ensures
        ({
            let c = chunks[idx];
            let n = crate::grouping::leading(
                rest,
                crate::grouping::older_than(c.first_timestamp()),
            ) as int;
            let left = rest.skip(n);
            let m = crate::grouping::leading(left, crate::grouping::in_range_of(c)) as int;
            &&& 0 <= n <= rest.len()
            &&& 0 <= m <= left.len()
            &&& in_time(rest.take(n))
            &&& in_time(left.take(m))
            &&& in_time(left.skip(m))
            &&& all_before(rest.take(n), left)
            &&& all_before(left.take(m), left.skip(m))
            &&& all_free(rest.take(n), chunks)
            &&& behind(chunks, idx + 1, left.skip(m))
            &&& forall|i: int|
                0 <= i < left.take(m).len() ==> crate::grouping::in_range_of(c)(
                    #[trigger] left.take(m)[i],
                )
            &&& forall|i: int|
                0 <= i < rest.take(n).len() ==> (#[trigger] rest.take(n)[i]).timestamp
                    < c.first_timestamp()
        }),
{
    let c = chunks[idx];
    let f = crate::grouping::older_than(c.first_timestamp());
    crate::grouping::lemma_leading(rest, f);
    let n = crate::grouping::leading(rest, f) as int;
    if 0 < n < rest.len() {
        assert(f(rest[n - 1]));
        assert(!f(rest[n]));
    }
    lemma_cut_between(rest, n);
    let gap = rest.take(n);
    let left = rest.skip(n);
    let r = crate::grouping::in_range_of(c);
    crate::grouping::lemma_leading(left, r);
    let m = crate::grouping::leading(left, r) as int;
    if 0 < m < left.len() {
        assert(r(left[m - 1]));
        assert(!r(left[m]));
    }
    lemma_cut_between(left, m);
    assert forall|i: int| 0 <= i < left.take(m).len() implies r(#[trigger] left.take(m)[i]) by {
        assert(r(left[i]));
    }
    assert forall|i: int| 0 <= i < gap.len() implies (#[trigger] gap[i]).timestamp
        < c.first_timestamp() by {
        assert(f(rest[i]));
    }
    assert forall|i: int, k: int|
        0 <= i < gap.len() && 0 <= k < chunks.len() implies !#[trigger] crate::chunk::taken(
        chunks[k].samples,
        (#[trigger] gap[i]).timestamp,
    ) by {
        let t = rest[i].timestamp;
        assert(gap[i] == rest[i]);
        assert(gap[i].timestamp < c.first_timestamp());
        if crate::chunk::taken(chunks[k].samples, t) {
            assert(chunks[k].wf());
            lemma_taken_covered(chunks[k], t);
            if k > idx {
                assert(chunks[idx].last_timestamp() < chunks[k].first_timestamp());
                assert(chunks[idx].wf());
                crate::joining::lemma_in_range(chunks[idx]);
            } else if k < idx {
                assert(t > chunks[idx - 1].last_timestamp());
                if k < idx - 1 {
                    assert(chunks[k].last_timestamp() < chunks[idx - 1].first_timestamp());
                    assert(chunks[idx - 1].wf());
                    crate::joining::lemma_in_range(chunks[idx - 1]);
                }
            }
        }
    }
    let last = left.skip(m);
    assert forall|i: int| 0 <= i < last.len() implies (#[trigger] last[i]).timestamp > chunks[idx
        + 1 - 1].last_timestamp() by {
        assert(last[i] == left[m + i]);
        assert(left[m].timestamp <= left[m + i].timestamp);
        assert(!r(left[m]));
        assert(left[0] == rest[n]);
        assert(!f(rest[n]));
        assert(left[0].timestamp <= left[m].timestamp);
    }
}

proof fn lemma_existing_parted(
    chunks: Seq<ChunkView>,
    idx: int,
    rest: Seq<Sample>,
    capacity: nat,
)
    requires
        capacity > 0,
        crate::series::sound_chunks(chunks),
        crate::joining::ordered(chunks),
        0 <= idx <= chunks.len() <= usize::MAX,
        in_time(rest),
        behind(chunks, idx, rest),
    ensures
        parted(crate::grouping::existing_groups(chunks, idx, rest, capacity)),
        homed(crate::grouping::existing_groups(chunks, idx, rest, capacity), chunks),
    decreases chunks.len() - idx,
{
    if idx >= chunks.len() {
        assert forall|i: int, k: int|
            0 <= i < rest.len() && 0 <= k < chunks.len() implies !#[trigger] crate::chunk::taken(
            chunks[k].samples,
            (#[trigger] rest[i]).timestamp,
        ) by {
            if crate::chunk::taken(chunks[k].samples, rest[i].timestamp) {
                assert(chunks[k].wf());
                lemma_taken_covered(chunks[k], rest[i].timestamp);
                if k < idx - 1 {
                    assert(chunks[k].last_timestamp() < chunks[idx - 1].first_timestamp());
                    assert(chunks[idx - 1].wf());
                    crate::joining::lemma_in_range(chunks[idx - 1]);
                }
            }
        }
        lemma_new_parted(rest, chunks, capacity);
    } else {
        let c = chunks[idx];
        lemma_cuts(chunks, idx, rest);
        let n = crate::grouping::leading(
            rest,
            crate::grouping::older_than(c.first_timestamp()),
        ) as int;
        let left = rest.skip(n);
        let m = crate::grouping::leading(left, crate::grouping::in_range_of(c)) as int;
        let run = left.take(m);
        let gap = crate::grouping::new_groups(rest.take(n), capacity);
        let here = crate::grouping::chunk_groups(
            c,
            idx,
            run,
            crate::grouping::room_of(c),
            capacity,
        );
        let tail = crate::grouping::existing_groups(chunks, idx + 1, left.skip(m), capacity);
        lemma_new_parted(rest.take(n), chunks, capacity);
        crate::grouping::lemma_new_groups(rest.take(n), chunks, capacity, 0);
        lemma_chunk_parted(chunks, idx, run, crate::grouping::room_of(c), capacity);
        crate::grouping::lemma_chunk_groups(
            chunks,
            idx,
            run,
            crate::grouping::room_of(c),
            capacity,
        );
        lemma_existing_parted(chunks, idx + 1, left.skip(m), capacity);
        crate::grouping::lemma_existing_groups(chunks, idx + 1, left.skip(m), capacity);
        assert(all_before(rest.take(n), run)) by {
            assert forall|i: int, j: int|
                0 <= i < rest.take(n).len() && 0 <= j < run.len() implies (
            #[trigger] rest.take(n)[i]).timestamp < (#[trigger] run[j]).timestamp by {
                assert(run[j] == left[j]);
            }
        }
        lemma_parted_add(gap, here, rest.take(n), run, chunks);
        crate::grouping::lemma_grouped_samples_add(gap, here);
        let front = rest.take(n) + run;
        assert(all_before(front, left.skip(m))) by {
            assert forall|i: int, j: int|
                0 <= i < front.len() && 0 <= j < left.skip(m).len() implies (
            #[trigger] front[i]).timestamp < (#[trigger] left.skip(m)[j]).timestamp by {
                assert(left.skip(m)[j] == left[m + j]);
                if i < n {
                    assert(front[i] == rest.take(n)[i]);
                } else {
                    assert(front[i] == run[i - n]);
                }
            }
        }
        lemma_parted_add(gap + here, tail, front, left.skip(m), chunks);
    }
}

/// Where the samples that are let in are in order of time, those of each group are older than those
/// of the next, so that samples at the same time go to the same chunk, and each sample at a time
/// that a chunk holds goes to that chunk.
pub proof fn law_same_times_together(series: SeriesView, samples: Seq<Sample>)
    requires
        series.wf(),
        series.chunks.len() <= usize::MAX,
        in_time(crate::grouping::admitted(series, samples)),
    ensures
        parted(crate::grouping::grouped(series, samples)),
        homed(crate::grouping::grouped(series, samples), series.chunks),
{
    crate::joining::lemma_ascending_ordered(series.chunks);
    lemma_existing_parted(
        series.chunks,
        0,
        crate::grouping::admitted(series, samples),
        crate::grouping::new_capacity(series),
    );
}

proof fn lemma_newcomers_add(c: ChunkView, a: Seq<Sample>, b: Seq<Sample>)
    ensures
        newcomers(c, a + b) == newcomers(c, a) + newcomers(c, b),
    decreases b.len(),
{
    if b.len() == 0 {
        assert(a + b =~= a);
    } else {
        assert((a + b).drop_last() =~= a + b.drop_last());
        assert((a + b).last() == b.last());
        lemma_newcomers_add(c, a, b.drop_last());
    }
}

/// Samples at one time are all newcomers or none is.
proof fn lemma_newcomers_same(c: ChunkView, s: Seq<Sample>, t: Timestamp)
    requires
        forall|i: int| 0 <= i < s.len() ==> (#[trigger] s[i]).timestamp == t,
    ensures
        newcomers(c, s) == if c.covers(t) && !crate::chunk::taken(c.samples, t) {
            s.len()
        } else {
            0
        },
    decreases s.len(),
{
    if s.len() > 0 {
        let d = s.drop_last();
        assert(s.last() == s[s.len() - 1]);
        assert forall|i: int| 0 <= i < d.len() implies (#[trigger] d[i]).timestamp == t by {
            assert(d[i] == s[i]);
        }
        lemma_newcomers_same(c, d, t);
    }
}

/// What stays with a chunk brings no more newcomers than it has room for; all stay where there is
/// room for all.
proof fn lemma_staying_room(c: ChunkView, run: Seq<Sample>, room: nat)
    requires
        forall|i: int| 0 <= i < run.len() ==> crate::grouping::in_range_of(c)(#[trigger] run[i]),
    ensures
        newcomers(c, run.take(crate::grouping::staying(c, run, room) as int)) <= room,
        newcomers(c, run) <= room ==> crate::grouping::staying(c, run, room) == run.len(),
    decreases run.len(),
{
    if run.len() == 0 {
        assert(run.take(0) =~= run);
    } else {
        let t = run[0].timestamp;
        let f = crate::grouping::at_time(t);
        crate::grouping::lemma_leading(run, f);
        let n = crate::grouping::leading(run, f) as int;
        assert(f(run[0]));
        let a = run.take(n);
        let b = run.skip(n);
        assert(crate::grouping::in_range_of(c)(run[0]));
        assert forall|i: int| 0 <= i < a.len() implies (#[trigger] a[i]).timestamp == t by {
            assert(f(run[i]));
        }
        lemma_newcomers_same(c, a, t);
        lemma_newcomers_add(c, a, b);
        assert(a + b =~= run);
        assert forall|i: int| 0 <= i < b.len() implies crate::grouping::in_range_of(c)(
            #[trigger] b[i],
        ) by {
            assert(crate::grouping::in_range_of(c)(run[n + i]));
        }
        let here = crate::chunk::taken(c.samples, t);
        if here || n <= room {
            let left = if here {
                room
            } else {
                (room - n) as nat
            };
            lemma_staying_room(c, b, left);
            crate::grouping::lemma_staying(c, b, left);
            let m = crate::grouping::staying(c, b, left) as int;
            lemma_newcomers_add(c, a, b.take(m));
            assert(a + b.take(m) =~= run.take(n + m));
        } else {
            assert(run.take(0) =~= Seq::<Sample>::empty());
        }
    }
}

proof fn lemma_samples_for_add(a: Seq<GroupView>, b: Seq<GroupView>, k: int)
    ensures
        crate::bulk_add::samples_for(a + b, k) == crate::bulk_add::samples_for(a, k)
            + crate::bulk_add::samples_for(b, k),
    decreases b.len(),
{
    if b.len() == 0 {
        assert(a + b =~= a);
        assert(crate::bulk_add::samples_for(a, k) + Seq::<Sample>::empty()
            =~= crate::bulk_add::samples_for(a, k));
    } else {
        assert((a + b).drop_last() =~= a + b.drop_last());
        assert((a + b).last() == b.last());
        lemma_samples_for_add(a, b.drop_last(), k);
        assert(crate::bulk_add::samples_for(a + b, k) =~= crate::bulk_add::samples_for(a, k)
            + crate::bulk_add::samples_for(b, k));
    }
}

/// Groups that do not name a chunk give it nothing.
proof fn lemma_nothing_for(groups: Seq<GroupView>, k: int)
    requires
        0 <= k <= usize::MAX,
        forall|i: int|
            0 <= i < groups.len() ==> (#[trigger] groups[i]).chunk != ChunkHolder::ExistingIdx(
                k as usize,
            ),
    ensures
        crate::bulk_add::samples_for(groups, k) == Seq::<Sample>::empty(),
{
    crate::bulk_add::lemma_samples_for_none(groups, k as usize);
}

proof fn lemma_chunk_room(
    chunks: Seq<ChunkView>,
    idx: int,
    run: Seq<Sample>,
    room: nat,
    capacity: nat,
)
    requires
        capacity > 0,
        0 <= idx < chunks.len() <= usize::MAX,
        forall|i: int| 0 <= i < run.len() ==> crate::grouping::in_range_of(chunks[idx])(
            #[trigger] run[i],
        ),
    ensures
        ({
            let groups = crate::grouping::chunk_groups(chunks[idx], idx, run, room, capacity);
            &&& newcomers(chunks[idx], crate::bulk_add::samples_for(groups, idx)) <= room
            &&& newcomers(chunks[idx], run) <= room ==> forall|g: int|
                0 <= g < groups.len() ==> (#[trigger] groups[g]).chunk == ChunkHolder::ExistingIdx(
                    idx as usize,
                )
        }),
    decreases run.len(),
{
    let c = chunks[idx];
    if run.len() > 0 {
        let f = crate::grouping::free_in(c);
        crate::grouping::lemma_staying(c, run, room);
        crate::grouping::lemma_leading(run, f);
        lemma_staying_room(c, run, room);
        let n = crate::grouping::staying(c, run, room) as int;
        let m = crate::grouping::leading(run, f) as int;
        let k = if n > 0 {
            n
        } else {
            m
        };
        let rest = run.skip(k);
        let g = GroupView { chunk: ChunkHolder::ExistingIdx(idx as usize), samples: run.take(n) };
        let here = if n > 0 {
            seq![g]
        } else {
            crate::grouping::new_groups(run.take(m), capacity)
        };
        let tail = crate::grouping::chunk_groups(c, idx, rest, 0, capacity);
        assert forall|i: int| 0 <= i < rest.len() implies crate::grouping::in_range_of(c)(
            #[trigger] rest[i],
        ) by {
            assert(crate::grouping::in_range_of(c)(run[k + i]));
        }
        lemma_chunk_room(chunks, idx, rest, 0, capacity);
        lemma_samples_for_add(here, tail, idx);
        lemma_newcomers_add(
            c,
            crate::bulk_add::samples_for(here, idx),
            crate::bulk_add::samples_for(tail, idx),
        );
        if n > 0 {
            assert(here.drop_last() =~= Seq::<GroupView>::empty());
            lemma_nothing_for(here.drop_last(), idx);
            assert(here.last() == g);
            assert(crate::bulk_add::samples_for(here, idx) =~= run.take(n));
            if newcomers(c, run) <= room {
                assert(rest =~= Seq::<Sample>::empty());
                assert(here + tail =~= here);
            }
        } else {
            crate::grouping::lemma_new_groups(run.take(m), chunks, capacity, 0);
            lemma_nothing_for(here, idx);
        }
    }
}

/// Samples outside the range of a chunk are no newcomers to it.
proof fn lemma_no_newcomers(c: ChunkView, s: Seq<Sample>)
    requires
        forall|i: int| 0 <= i < s.len() ==> !c.covers((#[trigger] s[i]).timestamp),
    ensures
        newcomers(c, s) == 0,
    decreases s.len(),
{
    if s.len() > 0 {
        let d = s.drop_last();
        assert(s.last() == s[s.len() - 1]);
        assert forall|i: int| 0 <= i < d.len() implies !c.covers((#[trigger] d[i]).timestamp) by {
            assert(d[i] == s[i]);
        }
        lemma_no_newcomers(c, d);
    }
}

/// Whether the groups that hold samples in the range of the chunk `k` all name it.
spec fn all_home(groups: Seq<GroupView>, chunks: Seq<ChunkView>, k: int) -> bool {
    forall|g: int, i: int|
        0 <= g < groups.len() && 0 <= i < groups[g].samples.len() && chunks[k].covers(
            (#[trigger] groups[g].samples[i]).timestamp,
        ) ==> groups[g].chunk == ChunkHolder::ExistingIdx(k as usize)
}

proof fn lemma_home_add(a: Seq<GroupView>, b: Seq<GroupView>, chunks: Seq<ChunkView>, k: int)
    requires
        all_home(a, chunks, k),
        all_home(b, chunks, k),
    ensures
        all_home(a + b, chunks, k),
{
    let all = a + b;
    assert forall|g: int, i: int|
        0 <= g < all.len() && 0 <= i < all[g].samples.len() && chunks[k].covers(
            (#[trigger] all[g].samples[i]).timestamp,
        ) implies all[g].chunk == ChunkHolder::ExistingIdx(k as usize) by {
        if g < a.len() {
            assert(all[g] == a[g]);
            assert(chunks[k].covers(a[g].samples[i].timestamp));
        } else {
            assert(all[g] == b[g - a.len()]);
            assert(chunks[k].covers(b[g - a.len()].samples[i].timestamp));
        }
    }
}

/// Groups of samples outside the range of a chunk.
proof fn lemma_home_outside(
    groups: Seq<GroupView>,
    run: Seq<Sample>,
    chunks: Seq<ChunkView>,
    k: int,
)
    requires
        crate::grouping::grouped_samples(groups) == run,
        forall|i: int| 0 <= i < run.len() ==> !chunks[k].covers((#[trigger] run[i]).timestamp),
    ensures
        all_home(groups, chunks, k),
{
    assert forall|g: int, i: int|
        0 <= g < groups.len() && 0 <= i < groups[g].samples.len() && chunks[k].covers(
            (#[trigger] groups[g].samples[i]).timestamp,
        ) implies groups[g].chunk == ChunkHolder::ExistingIdx(k as usize) by {
        let at = lemma_group_run(groups, g);
        assert(run[at + i] == groups[g].samples[i]);
    }
}

proof fn lemma_existing_room(
    chunks: Seq<ChunkView>,
    idx: int,
    rest: Seq<Sample>,
    capacity: nat,
    k: int,
)
    requires
        capacity > 0,
        crate::series::sound_chunks(chunks),
        crate::joining::ordered(chunks),
        0 <= idx <= chunks.len() <= usize::MAX,
        0 <= k < chunks.len(),
        in_time(rest),
        behind(chunks, idx, rest),
    ensures
        ({
            let groups = crate::grouping::existing_groups(chunks, idx, rest, capacity);
            &&& newcomers(chunks[k], crate::bulk_add::samples_for(groups, k))
                <= crate::grouping::room_of(chunks[k])
            &&& newcomers(chunks[k], rest) <= crate::grouping::room_of(chunks[k]) ==> all_home(
                groups,
                chunks,
                k,
            )
        }),
    decreases chunks.len() - idx,
{
    let room = crate::grouping::room_of(chunks[k]);
    let groups = crate::grouping::existing_groups(chunks, idx, rest, capacity);
    crate::grouping::lemma_existing_groups(chunks, idx, rest, capacity);
    if k < idx {
        lemma_nothing_for(groups, k);
        assert forall|i: int| 0 <= i < rest.len() implies !chunks[k].covers(
            (#[trigger] rest[i]).timestamp,
        ) by {
            if k < idx - 1 {
                assert(chunks[k].last_timestamp() < chunks[idx - 1].first_timestamp());
                assert(chunks[idx - 1].wf());
                crate::joining::lemma_in_range(chunks[idx - 1]);
            }
        }
        lemma_home_outside(groups, rest, chunks, k);
    } else {
        let c = chunks[idx];
        lemma_cuts(chunks, idx, rest);
        let n = crate::grouping::leading(
            rest,
            crate::grouping::older_than(c.first_timestamp()),
        ) as int;
        let left = rest.skip(n);
        let m = crate::grouping::leading(left, crate::grouping::in_range_of(c)) as int;
        let run = left.take(m);
        let last = left.skip(m);
        let gap = crate::grouping::new_groups(rest.take(n), capacity);
        let here = crate::grouping::chunk_groups(
            c,
            idx,
            run,
            crate::grouping::room_of(c),
            capacity,
        );
        let tail = crate::grouping::existing_groups(chunks, idx + 1, last, capacity);
        crate::grouping::lemma_new_groups(rest.take(n), chunks, capacity, 0);
        crate::grouping::lemma_chunk_groups(
            chunks,
            idx,
            run,
            crate::grouping::room_of(c),
            capacity,
        );
        lemma_chunk_room(chunks, idx, run, crate::grouping::room_of(c), capacity);
        lemma_existing_room(chunks, idx + 1, last, capacity, k);
        crate::grouping::lemma_existing_groups(chunks, idx + 1, last, capacity);
        lemma_samples_for_add(gap, here, k);
        lemma_samples_for_add(gap + here, tail, k);
        lemma_nothing_for(gap, k);
        lemma_newcomers_add(chunks[k], rest.take(n), run);
        lemma_newcomers_add(chunks[k], rest.take(n) + run, last);
        assert(rest.take(n) + run + last =~= rest);
        let none = Seq::<Sample>::empty();
        assert(none + crate::bulk_add::samples_for(here, k) =~= crate::bulk_add::samples_for(
            here,
            k,
        ));
        assert forall|i: int| 0 <= i < rest.take(n).len() implies !chunks[k].covers(
            (#[trigger] rest.take(n)[i]).timestamp,
        ) by {
            if k > idx {
                assert(c.last_timestamp() < chunks[k].first_timestamp());
                assert(c.wf());
                crate::joining::lemma_in_range(c);
            }
        }
        lemma_home_outside(gap, rest.take(n), chunks, k);
        if k == idx {
            lemma_nothing_for(tail, k);
            assert(crate::bulk_add::samples_for(here, k) + none =~= crate::bulk_add::samples_for(
                here,
                k,
            ));
            if newcomers(c, rest) <= room {
                assert(all_home(here, chunks, k));
            }
        } else {
            lemma_nothing_for(here, k);
            assert(none + crate::bulk_add::samples_for(tail, k) =~= crate::bulk_add::samples_for(
                tail,
                k,
            ));
            assert forall|i: int| 0 <= i < run.len() implies !chunks[k].covers(
                (#[trigger] run[i]).timestamp,
            ) by {
                assert(crate::grouping::in_range_of(c)(run[i]));
                assert(c.last_timestamp() < chunks[k].first_timestamp());
            }
            lemma_home_outside(here, run, chunks, k);
        }
        if newcomers(chunks[k], rest) <= room {
            lemma_home_add(gap, here, chunks, k);
            lemma_home_add(gap + here, tail, chunks, k);
        }
    }
}

/// Where the samples that are let in are in order of time, a chunk is given no more samples at times
/// that it does not hold than it is trusted to take; the others in its range go to new chunks.
pub proof fn law_no_more_than_room(series: SeriesView, samples: Seq<Sample>, k: int)
    requires
        series.wf(),
        series.chunks.len() <= usize::MAX,
        in_time(crate::grouping::admitted(series, samples)),
        0 <= k < series.chunks.len(),
    ensures
        newcomers(
            series.chunks[k],
            crate::bulk_add::samples_for(crate::grouping::grouped(series, samples), k),
        ) <= crate::grouping::room_of(series.chunks[k]),
{
    crate::joining::lemma_ascending_ordered(series.chunks);
    lemma_existing_room(
        series.chunks,
        0,
        crate::grouping::admitted(series, samples),
        crate::grouping::new_capacity(series),
        k,
    );
}

/// Where the samples that are let in are in order of time, and a chunk has room for those in its
/// range at times that it does not hold, every sample in its range goes to it, whatever else the
/// batch holds.
pub proof fn law_covered_go_home(
    series: SeriesView,
    samples: Seq<Sample>,
    k: int,
    g: int,
    i: int,
)
    requires
        series.wf(),
        series.chunks.len() <= usize::MAX,
        in_time(crate::grouping::admitted(series, samples)),
        0 <= k < series.chunks.len(),
        newcomers(series.chunks[k], crate::grouping::admitted(series, samples))
            <= crate::grouping::room_of(series.chunks[k]),
        0 <= g < crate::grouping::grouped(series, samples).len(),
        0 <= i < crate::grouping::grouped(series, samples)[g].samples.len(),
        series.chunks[k].covers(crate::grouping::grouped(series, samples)[g].samples[i].timestamp),
    ensures
        crate::grouping::grouped(series, samples)[g].chunk == ChunkHolder::ExistingIdx(k as usize),
{
    crate::joining::lemma_ascending_ordered(series.chunks);
    lemma_existing_room(
        series.chunks,
        0,
        crate::grouping::admitted(series, samples),
        crate::grouping::new_capacity(series),
        k,
    );
}

} // verus!
