//! What a read gives back of what was written into a series.
use vstd::prelude::*;

use crate::chunk::ChunkView;
use crate::common::{DuplicatePolicy, Sample, SampleAddResult, Timestamp};
use crate::grouping::{ChunkHolder, GroupView};
use crate::series::SeriesView;

verus! {

/// Whether one of the chunks holds `y`.
pub open spec fn held(chunks: Seq<ChunkView>, y: Sample) -> bool {
    exists|k: int| 0 <= k < chunks.len() && (#[trigger] chunks[k]).samples.contains(y)
}

/// A read gives back a sample exactly where one of the chunks holds it.
pub proof fn law_read_gives_what_is_held(chunks: Seq<ChunkView>, y: Sample)
    ensures
        crate::series::all_samples(chunks).contains(y) <==> held(chunks, y),
    decreases chunks.len(),
{
    if chunks.len() > 0 {
        let d = chunks.drop_last();
        let c = chunks.last();
        law_read_gives_what_is_held(d, y);
        let front = crate::series::all_samples(d);
        let all = crate::series::all_samples(chunks);
        assert(chunks[chunks.len() - 1] == c);
        if all.contains(y) {
            let i = choose|i: int| 0 <= i < all.len() && all[i] == y;
            if i < front.len() {
                assert(front[i] == y);
                let k = choose|k: int| 0 <= k < d.len() && (#[trigger] d[k]).samples.contains(y);
                assert(chunks[k].samples.contains(y));
            } else {
                assert(c.samples[i - front.len()] == y);
                assert(chunks[chunks.len() - 1].samples.contains(y));
            }
        }
        if held(chunks, y) {
            let k = choose|k: int|
                0 <= k < chunks.len() && (#[trigger] chunks[k]).samples.contains(y);
            if k < d.len() {
                assert(d[k].samples.contains(y));
                let i = choose|i: int| 0 <= i < front.len() && front[i] == y;
                assert(all[i] == y);
            } else {
                let i = choose|i: int| 0 <= i < c.samples.len() && c.samples[i] == y;
                assert(all[front.len() + i] == y);
            }
        }
    }
}

proof fn lemma_held_sort(chunks: Seq<ChunkView>, y: Sample)
    ensures
        held(
            crate::sorting::stable_sort(chunks, crate::series::chunk_time()),
            y,
        ) <==> held(chunks, y),
{
    broadcast use vstd::seq_lib::group_to_multiset_ensures;

    let key = crate::series::chunk_time();
    let r = crate::sorting::stable_sort(chunks, key);
    crate::sorting::law_stable_sort(chunks, key);
    if held(chunks, y) {
        let k = choose|k: int| 0 <= k < chunks.len() && (#[trigger] chunks[k]).samples.contains(y);
        let c = chunks[k];
        assert(chunks.contains(c));
        assert(r.to_multiset().count(c) > 0);
        assert(r.contains(c));
        let i = choose|i: int| 0 <= i < r.len() && r[i] == c;
        assert(r[i].samples.contains(y));
    }
    if held(r, y) {
        let i = choose|i: int| 0 <= i < r.len() && (#[trigger] r[i]).samples.contains(y);
        crate::sorting::lemma_sort_contains(chunks, key, i);
        let k = choose|k: int| 0 <= k < chunks.len() && chunks[k] == r[i];
        assert(chunks[k].samples.contains(y));
    }
}

/// Cutting a run keeps its samples, in their order.
proof fn lemma_cut_joins(samples: Seq<Sample>, capacity: nat, c: ChunkView)
    requires
        capacity > 0,
    ensures
        crate::series::all_samples(
            crate::series::cut(samples, capacity).map_values(
                |s: Seq<Sample>| ChunkView { samples: s, ..c },
            ),
        ) == samples,
    decreases samples.len(),
{
    let f = |s: Seq<Sample>| ChunkView { samples: s, ..c };
    let parts = crate::series::cut(samples, capacity).map_values(f);
    if samples.len() == 0 {
        assert(parts =~= Seq::<ChunkView>::empty());
        assert(crate::series::all_samples(parts) =~= samples);
    } else if samples.len() <= capacity {
        assert(parts =~= seq![f(samples)]);
        lemma_all_samples_one(f(samples));
    } else {
        let rest = samples.skip(capacity as int);
        let one = f(samples.take(capacity as int));
        lemma_cut_joins(rest, capacity, c);
        let tail = crate::series::cut(rest, capacity).map_values(f);
        assert(parts =~= seq![one] + tail);
        lemma_all_samples_add(seq![one], tail);
        lemma_all_samples_one(one);
        assert(samples.take(capacity as int) + rest =~= samples);
    }
}

proof fn lemma_all_samples_one(c: ChunkView)
    ensures
        crate::series::all_samples(seq![c]) == c.samples,
{
    assert(seq![c].drop_last() =~= Seq::<ChunkView>::empty());
    assert(crate::series::all_samples(seq![c].drop_last()) =~= Seq::<Sample>::empty());
    assert(Seq::<Sample>::empty() + c.samples =~= c.samples);
}

proof fn lemma_all_samples_add(a: Seq<ChunkView>, b: Seq<ChunkView>)
    ensures
        crate::series::all_samples(a + b) == crate::series::all_samples(a)
            + crate::series::all_samples(b),
    decreases b.len(),
{
    if b.len() == 0 {
        assert(a + b =~= a);
        assert(crate::series::all_samples(a) + crate::series::all_samples(b)
            =~= crate::series::all_samples(a));
    } else {
        assert((a + b).drop_last() =~= a + b.drop_last());
        lemma_all_samples_add(a, b.drop_last());
        assert(crate::series::all_samples(a + b) =~= crate::series::all_samples(a)
            + crate::series::all_samples(b));
    }
}

/// Splitting chunks keeps what a read gives back, sample for sample.
pub proof fn law_split_keeps_samples(chunks: Seq<ChunkView>)
    ensures
        crate::series::all_samples(crate::series::split_all(chunks))
            == crate::series::all_samples(chunks),
    decreases chunks.len(),
{
    if chunks.len() > 0 {
        let d = chunks.drop_last();
        let c = chunks.last();
        law_split_keeps_samples(d);
        let parts = crate::series::split_chunk(c);
        lemma_all_samples_add(crate::series::split_all(d), parts);
        if crate::series::oversized(c) {
            lemma_cut_joins(
                c.samples,
                crate::chunk::capacity_of(c.encoding, c.max_size),
                c,
            );
        } else {
            lemma_all_samples_one(c);
        }
    }
}

/// The number of samples is the number that a read gives back.
pub proof fn law_count_is_read_length(chunks: Seq<ChunkView>)
    ensures
        crate::series::sample_count(chunks) == crate::series::all_samples(chunks).len(),
    decreases chunks.len(),
{
    if chunks.len() > 0 {
        law_count_is_read_length(chunks.drop_last());
    }
}

/// Whether no two of the chunks hold the same time.
spec fn disjoint(chunks: Seq<ChunkView>) -> bool {
    forall|i: int, j: int, t: Timestamp|
        0 <= i < j < chunks.len() && #[trigger] crate::chunk::taken(chunks[i].samples, t)
            && #[trigger] crate::chunk::taken(chunks[j].samples, t) ==> false
}

/// Two places of the same item.
proof fn lemma_two_places(s: Seq<ChunkView>, x: ChunkView) -> (p: (int, int))
    requires
        s.to_multiset().count(x) >= 2,
    ensures
        0 <= p.0 < p.1 < s.len(),
        s[p.0] == x,
        s[p.1] == x,
    decreases s.len(),
{
    broadcast use vstd::seq_lib::group_to_multiset_ensures;

    assert(s.len() > 0) by {
        if s.len() == 0 {
            assert(s.to_multiset().len() == 0);
        }
    }
    let d = s.drop_last();
    let l = s.last();
    assert(s =~= d.push(l));
    assert(s.to_multiset() =~= d.to_multiset().insert(l));
    if l == x {
        assert(d.to_multiset().count(x) >= 1);
        assert(d.contains(x));
        let i = choose|i: int| 0 <= i < d.len() && d[i] == x;
        assert(s[i] == x);
        (i, s.len() - 1)
    } else {
        lemma_two_places(d, x)
    }
}

proof fn lemma_two_counted(s: Seq<ChunkView>, i: int, j: int)
    requires
        0 <= i < j < s.len(),
        s[i] == s[j],
    ensures
        s.to_multiset().count(s[i]) >= 2,
    decreases s.len(),
{
    broadcast use vstd::seq_lib::group_to_multiset_ensures;

    let d = s.drop_last();
    let l = s.last();
    assert(s =~= d.push(l));
    assert(s.to_multiset() =~= d.to_multiset().insert(l));
    if j == s.len() - 1 {
        assert(d[i] == s[i]);
        assert(d.contains(s[i]));
        assert(d.to_multiset().count(s[i]) >= 1);
    } else {
        lemma_two_counted(d, i, j);
        assert(d[i] == s[i]);
    }
}

/// Sorting keeps the times of chunks apart.
proof fn lemma_sort_disjoint(chunks: Seq<ChunkView>)
    requires
        crate::series::sound_chunks(chunks),
        disjoint(chunks),
    ensures
        disjoint(crate::sorting::stable_sort(chunks, crate::series::chunk_time())),
{
    let key = crate::series::chunk_time();
    let r = crate::sorting::stable_sort(chunks, key);
    crate::sorting::law_stable_sort(chunks, key);
    assert forall|i: int, j: int, t: Timestamp|
        0 <= i < j < r.len() && #[trigger] crate::chunk::taken(r[i].samples, t)
            && #[trigger] crate::chunk::taken(r[j].samples, t) implies false by {
        if r[i] == r[j] {
            lemma_two_counted(r, i, j);
            let p = lemma_two_places(chunks, r[i]);
            assert(crate::chunk::taken(chunks[p.0].samples, t));
            assert(crate::chunk::taken(chunks[p.1].samples, t));
        } else {
            crate::sorting::lemma_sort_contains(chunks, key, i);
            crate::sorting::lemma_sort_contains(chunks, key, j);
            let a = choose|a: int| 0 <= a < chunks.len() && chunks[a] == r[i];
            let b = choose|b: int| 0 <= b < chunks.len() && chunks[b] == r[j];
            assert(crate::chunk::taken(chunks[a].samples, t));
            assert(crate::chunk::taken(chunks[b].samples, t));
        }
    }
}

/// Writing ascending samples at free times adds exactly them.
proof fn lemma_merge_free(s: Seq<Sample>, b: Seq<Sample>, policy: DuplicatePolicy, y: Sample)
    requires
        crate::chunk::ascending(s),
        crate::chunk::ascending(b),
        forall|t: Timestamp|
            #[trigger] crate::chunk::taken(s, t) && crate::chunk::taken(b, t) ==> false,
    ensures
        crate::chunk::merged(s, b, policy).contains(y) <==> s.contains(y) || b.contains(y),
{
    let t = y.timestamp;
    let m = crate::chunk::merged(s, b, policy);
    crate::chunk::law_merge(s, b, policy);
    crate::values::law_settled(s, b, t, policy);
    crate::values::lemma_stored(m, y);
    crate::values::lemma_stored(s, y);
    crate::values::lemma_stored(b, y);
    if crate::chunk::taken(b, t) {
        assert(!crate::chunk::taken(s, t));
        crate::values::lemma_settled_alone(b, t, policy);
    } else {
        crate::chunk::law_taken(b, t);
        crate::values::lemma_unsettled(crate::values::value_at(s, t), b, t, policy);
    }
}

proof fn lemma_held_push(chunks: Seq<ChunkView>, c: ChunkView, y: Sample)
    ensures
        held(chunks.push(c), y) <==> held(chunks, y) || c.samples.contains(y),
{
    let all = chunks.push(c);
    if held(chunks, y) {
        let k = choose|k: int| 0 <= k < chunks.len() && (#[trigger] chunks[k]).samples.contains(y);
        assert(all[k].samples.contains(y));
    }
    if c.samples.contains(y) {
        assert(all[chunks.len() as int].samples.contains(y));
    }
    if held(all, y) {
        let k = choose|k: int| 0 <= k < all.len() && (#[trigger] all[k]).samples.contains(y);
        if k < chunks.len() {
            assert(chunks[k].samples.contains(y));
        }
    }
}

/// A time is held by one of the chunks where a sample at it is.
proof fn lemma_taken_held(c: ChunkView, t: Timestamp) -> (y: Sample)
    requires
        c.wf(),
        crate::chunk::taken(c.samples, t),
    ensures
        y.timestamp == t,
        c.samples.contains(y),
{
    c.samples[crate::chunk::rank(c.samples, t) as int]
}

proof fn lemma_held_taken(chunks: Seq<ChunkView>, y: Sample) -> (k: int)
    requires
        crate::series::sound_chunks(chunks),
        held(chunks, y),
    ensures
        0 <= k < chunks.len(),
        chunks[k].samples.contains(y),
        crate::chunk::taken(chunks[k].samples, y.timestamp),
{
    let k = choose|k: int| 0 <= k < chunks.len() && (#[trigger] chunks[k]).samples.contains(y);
    assert(chunks[k].wf());
    crate::values::lemma_stored(chunks[k].samples, y);
    k
}

/// Joining chunks that hold different times keeps what they hold.
proof fn lemma_joined_held(chunks: Seq<ChunkView>, policy: DuplicatePolicy)
    requires
        crate::series::sound_chunks(chunks),
        crate::sorting::in_order(chunks, crate::series::chunk_time()),
        disjoint(chunks),
    ensures
        forall|y: Sample|
            #[trigger] held(crate::joining::joined(chunks, policy), y) <==> held(chunks, y),
    decreases chunks.len(),
{
    if chunks.len() > 0 {
        let key = crate::series::chunk_time();
        let d = chunks.drop_last();
        let c = chunks.last();
        let n = chunks.len() - 1;
        crate::joining::lemma_sound_front(chunks);
        assert(crate::sorting::in_order(d, key)) by {
            assert forall|i: int, j: int| 0 <= i <= j < d.len() implies key(#[trigger] d[i]) <= key(
                #[trigger] d[j],
            ) by {
                assert(key(chunks[i]) <= key(chunks[j]));
            }
        }
        assert(disjoint(d)) by {
            assert forall|i: int, j: int, t: Timestamp|
                0 <= i < j < d.len() && #[trigger] crate::chunk::taken(d[i].samples, t)
                    && #[trigger] crate::chunk::taken(d[j].samples, t) implies false by {
                assert(crate::chunk::taken(chunks[i].samples, t));
                assert(crate::chunk::taken(chunks[j].samples, t));
            }
        }
        lemma_joined_held(d, policy);
        crate::joining::law_joined_in_order(d, policy);
        let front = crate::joining::joined(d, policy);
        let all = crate::joining::joined(chunks, policy);
        assert(d.push(c) =~= chunks);
        assert forall|y: Sample| #[trigger] held(all, y) <==> held(chunks, y) by {
            lemma_held_push(d, c, y);
            assert(held(front, y) <==> held(d, y));
            if front.len() > 0 && c.first_timestamp() <= front.last().last_timestamp() {
                let l = front.last();
                let e = front.drop_last();
                assert(front[front.len() - 1] == l);
                assert(l.wf());
                assert forall|t: Timestamp|
                    #[trigger] crate::chunk::taken(l.samples, t) && crate::chunk::taken(
                        c.samples,
                        t,
                    ) implies false by {
                    let z = lemma_taken_held(l, t);
                    assert(front[front.len() - 1].samples.contains(z));
                    assert(held(front, z));
                    assert(held(d, z));
                    let k = lemma_held_taken(d, z);
                    assert(crate::chunk::taken(chunks[k].samples, t));
                    assert(crate::chunk::taken(chunks[n].samples, t));
                }
                lemma_merge_free(l.samples, c.samples, policy, y);
                lemma_held_push(e, l, y);
                assert(e.push(l) =~= front);
                lemma_held_push(e, l.merge(c.samples, policy), y);
            } else {
                lemma_held_push(front, c, y);
            }
        }
    }
}

/// The chunks, old and new, into which samples were written, before they are put in order.
spec fn unsorted_chunks(
    series: SeriesView,
    samples: Seq<Sample>,
    policy: DuplicatePolicy,
) -> Seq<ChunkView> {
    let groups = crate::grouping::grouped(series, samples);
    crate::bulk_add::written(series.chunks, groups, policy) + crate::bulk_add::new_runs(
        groups,
    ).map_values(
        crate::bulk_add::new_chunk(series.chunk_compression, series.chunk_size_bytes, policy),
    )
}

/// The run of a group that goes to a new chunk.
proof fn lemma_run_of_group(groups: Seq<GroupView>, g: int) -> (r: int)
    requires
        0 <= g < groups.len(),
        groups[g].chunk is New,
    ensures
        0 <= r < crate::bulk_add::new_runs(groups).len(),
        crate::bulk_add::new_runs(groups)[r] == groups[g].samples,
    decreases groups.len(),
{
    let d = groups.drop_last();
    if g == groups.len() - 1 {
        crate::bulk_add::new_runs(d).len() as int
    } else {
        assert(d[g] == groups[g]);
        lemma_run_of_group(d, g)
    }
}

/// The group of a run that goes to a new chunk.
proof fn lemma_group_of_run(groups: Seq<GroupView>, r: int) -> (g: int)
    requires
        0 <= r < crate::bulk_add::new_runs(groups).len(),
    ensures
        0 <= g < groups.len(),
        groups[g].chunk is New,
        crate::bulk_add::new_runs(groups)[r] == groups[g].samples,
    decreases groups.len(),
{
    let d = groups.drop_last();
    if r < crate::bulk_add::new_runs(d).len() {
        let g = lemma_group_of_run(d, r);
        assert(d[g] == groups[g]);
        g
    } else {
        groups.len() - 1
    }
}

/// The groups of two runs that go to new chunks, in the order of the runs.
proof fn lemma_groups_of_runs(groups: Seq<GroupView>, r: int, q: int) -> (p: (int, int))
    requires
        0 <= r < q < crate::bulk_add::new_runs(groups).len(),
    ensures
        0 <= p.0 < p.1 < groups.len(),
        groups[p.0].chunk is New,
        groups[p.1].chunk is New,
        crate::bulk_add::new_runs(groups)[r] == groups[p.0].samples,
        crate::bulk_add::new_runs(groups)[q] == groups[p.1].samples,
    decreases groups.len(),
{
    let d = groups.drop_last();
    if q < crate::bulk_add::new_runs(d).len() {
        let p = lemma_groups_of_runs(d, r, q);
        assert(d[p.0] == groups[p.0] && d[p.1] == groups[p.1]);
        p
    } else {
        let g = lemma_group_of_run(d, r);
        assert(d[g] == groups[g]);
        (g, groups.len() - 1)
    }
}

/// A time of what a chunk is given is a time of a group that names it.
proof fn lemma_given_time(groups: Seq<GroupView>, k: int, t: Timestamp) -> (g: int)
    requires
        0 <= k <= usize::MAX,
        crate::chunk::has_time(crate::bulk_add::samples_for(groups, k), t),
    ensures
        0 <= g < groups.len(),
        groups[g].chunk == ChunkHolder::ExistingIdx(k as usize),
        crate::chunk::has_time(groups[g].samples, t),
    decreases groups.len(),
{
    let s = crate::bulk_add::samples_for(groups, k);
    let d = groups.drop_last();
    let before = crate::bulk_add::samples_for(d, k);
    let i = choose|i: int| 0 <= i < s.len() && (#[trigger] s[i]).timestamp == t;
    if i < before.len() {
        assert(before[i].timestamp == t);
        let g = lemma_given_time(d, k, t);
        assert(d[g] == groups[g]);
        g
    } else {
        assert(groups.last().samples[i - before.len()].timestamp == t);
        groups.len() - 1
    }
}

/// Where the samples let in are in order of time, no two groups hold the same time.
proof fn lemma_one_group(groups: Seq<GroupView>, g: int, h: int, t: Timestamp)
    requires
        crate::placement::parted(groups),
        0 <= g < groups.len(),
        0 <= h < groups.len(),
        crate::chunk::has_time(groups[g].samples, t),
        crate::chunk::has_time(groups[h].samples, t),
    ensures
        g == h,
{
    let a = groups[g].samples;
    let b = groups[h].samples;
    let i = choose|i: int| 0 <= i < a.len() && (#[trigger] a[i]).timestamp == t;
    let j = choose|j: int| 0 <= j < b.len() && (#[trigger] b[j]).timestamp == t;
    if g < h {
        assert(groups[g].samples[i].timestamp < groups[h].samples[j].timestamp);
    } else if h < g {
        assert(groups[h].samples[j].timestamp < groups[g].samples[i].timestamp);
    }
}

/// A sample at a time that a chunk holds is in a group of that chunk.
proof fn lemma_home_of_time(groups: Seq<GroupView>, chunks: Seq<ChunkView>, g: int, k: int, t: Timestamp)
    requires
        crate::placement::homed(groups, chunks),
        0 <= g < groups.len(),
        0 <= k < chunks.len(),
        crate::chunk::has_time(groups[g].samples, t),
        crate::chunk::taken(chunks[k].samples, t),
    ensures
        groups[g].chunk == ChunkHolder::ExistingIdx(k as usize),
{
    let a = groups[g].samples;
    let i = choose|i: int| 0 <= i < a.len() && (#[trigger] a[i]).timestamp == t;
    assert(crate::chunk::taken(chunks[k].samples, groups[g].samples[i].timestamp));
}

/// The times of a written chunk.
proof fn lemma_written_taken(
    series: SeriesView,
    samples: Seq<Sample>,
    policy: DuplicatePolicy,
    k: int,
    t: Timestamp,
)
    requires
        series.wf(),
        series.chunks.len() <= usize::MAX,
        0 <= k < series.chunks.len(),
    ensures
        ({
            let groups = crate::grouping::grouped(series, samples);
            let w = crate::bulk_add::written(series.chunks, groups, policy);
            &&& crate::chunk::taken(w[k].samples, t) <==> crate::chunk::taken(
                series.chunks[k].samples,
                t,
            ) || crate::chunk::has_time(crate::bulk_add::samples_for(groups, k), t)
            &&& crate::values::value_at(w[k].samples, t) == crate::values::settled(
                crate::values::value_at(series.chunks[k].samples, t),
                crate::bulk_add::samples_for(groups, k),
                t,
                policy,
            )
        }),
{
    let groups = crate::grouping::grouped(series, samples);
    assert(series.chunks[k].wf());
    crate::chunk::law_merge(
        series.chunks[k].samples,
        crate::bulk_add::samples_for(groups, k),
        policy,
    );
    crate::values::law_settled(
        series.chunks[k].samples,
        crate::bulk_add::samples_for(groups, k),
        t,
        policy,
    );
}

/// The times of a new chunk.
proof fn lemma_made_taken(
    series: SeriesView,
    run: Seq<Sample>,
    policy: DuplicatePolicy,
    t: Timestamp,
)
    ensures
        ({
            let c = crate::bulk_add::new_chunk(
                series.chunk_compression,
                series.chunk_size_bytes,
                policy,
            )(run);
            &&& crate::chunk::taken(c.samples, t) <==> crate::chunk::has_time(run, t)
            &&& crate::values::value_at(c.samples, t) == crate::values::settled(
                None,
                run,
                t,
                policy,
            )
        }),
{
    let none = Seq::<Sample>::empty();
    crate::chunk::law_merge(none, run, policy);
    crate::values::law_settled(none, run, t, policy);
    assert(!crate::chunk::taken(none, t));
}

/// Where the samples let in are in order of time, no two chunks hold the same time after they are
/// written.
proof fn lemma_write_disjoint(series: SeriesView, samples: Seq<Sample>, policy: DuplicatePolicy)
    requires
        series.wf(),
        series.chunks.len() <= usize::MAX,
        crate::placement::in_time(crate::grouping::admitted(series, samples)),
    ensures
        disjoint(unsorted_chunks(series, samples, policy)),
{
    let chunks = series.chunks;
    let groups = crate::grouping::grouped(series, samples);
    let w = crate::bulk_add::written(chunks, groups, policy);
    let runs = crate::bulk_add::new_runs(groups);
    let both = unsorted_chunks(series, samples, policy);
    let n = chunks.len() as int;
    crate::bulk_add::lemma_written(series, samples, policy);
    crate::placement::law_same_times_together(series, samples);
    assert forall|i: int, j: int, t: Timestamp|
        0 <= i < j < both.len() && #[trigger] crate::chunk::taken(both[i].samples, t)
            && #[trigger] crate::chunk::taken(both[j].samples, t) implies false by {
        if j < n {
            assert(both[i] == w[i] && both[j] == w[j]);
            crate::placement::lemma_taken_covered(w[i], t);
            crate::placement::lemma_taken_covered(w[j], t);
            assert(w[i].last_timestamp() < w[j].first_timestamp());
        } else {
            let q = j - n;
            lemma_made_taken(series, runs[q], policy, t);
            let h = lemma_group_of_run(groups, q);
            if i < n {
                assert(both[i] == w[i]);
                lemma_written_taken(series, samples, policy, i, t);
                if crate::chunk::taken(chunks[i].samples, t) {
                    lemma_home_of_time(groups, chunks, h, i, t);
                } else {
                    let g = lemma_given_time(groups, i, t);
                    lemma_one_group(groups, g, h, t);
                }
            } else {
                let r = i - n;
                lemma_made_taken(series, runs[r], policy, t);
                let p = lemma_groups_of_runs(groups, r, q);
                lemma_one_group(groups, p.0, p.1, t);
            }
        }
    }
}

/// What is held at a time is what the one chunk that holds the time has there.
proof fn lemma_held_at(chunks: Seq<ChunkView>, i: int, y: Sample)
    requires
        crate::series::sound_chunks(chunks),
        disjoint(chunks),
        0 <= i < chunks.len(),
        crate::chunk::taken(chunks[i].samples, y.timestamp),
    ensures
        held(chunks, y) <==> crate::values::value_at(chunks[i].samples, y.timestamp) == Some(
            y.value,
        ),
{
    assert(chunks[i].wf());
    crate::values::lemma_stored(chunks[i].samples, y);
    if held(chunks, y) {
        let k = lemma_held_taken(chunks, y);
        if k < i {
            assert(crate::chunk::taken(chunks[k].samples, y.timestamp));
        } else if i < k {
            assert(crate::chunk::taken(chunks[k].samples, y.timestamp));
        }
    }
    if chunks[i].samples.contains(y) {
        assert(held(chunks, y));
    }
}

/// Of groups of which one alone holds a time, it alone settles the time.
proof fn lemma_settled_by_group(
    groups: Seq<GroupView>,
    g: int,
    v: Option<u64>,
    t: Timestamp,
    policy: DuplicatePolicy,
)
    requires
        0 <= g < groups.len(),
        forall|h: int|
            0 <= h < groups.len() && h != g ==> !crate::chunk::has_time(
                (#[trigger] groups[h]).samples,
                t,
            ),
    ensures
        crate::values::settled(v, crate::grouping::grouped_samples(groups), t, policy)
            == crate::values::settled(v, groups[g].samples, t, policy),
        groups[g].chunk is ExistingIdx ==> crate::values::settled(
            v,
            crate::bulk_add::samples_for(groups, groups[g].chunk->ExistingIdx_0 as int),
            t,
            policy,
        ) == crate::values::settled(v, groups[g].samples, t, policy),
    decreases groups.len(),
{
    let d = groups.drop_last();
    let l = groups.last();
    let n = groups.len() - 1;
    assert(groups[n] == l);
    let front = crate::grouping::grouped_samples(d);
    crate::values::lemma_settled_add(v, front, l.samples, t, policy);
    let k = if groups[g].chunk is ExistingIdx {
        groups[g].chunk->ExistingIdx_0 as int
    } else {
        0
    };
    let given = crate::bulk_add::samples_for(d, k);
    crate::values::lemma_settled_add(v, given, l.samples, t, policy);
    if g == n {
        lemma_front_unsettled(d, k, t);
        crate::values::lemma_unsettled(v, front, t, policy);
        crate::values::lemma_unsettled(v, given, t, policy);
    } else {
        assert(d[g] == groups[g]);
        assert forall|h: int| 0 <= h < d.len() && h != g implies !crate::chunk::has_time(
            (#[trigger] d[h]).samples,
            t,
        ) by {
            assert(d[h] == groups[h]);
        }
        lemma_settled_by_group(d, g, v, t, policy);
        let u = crate::values::settled(v, front, t, policy);
        crate::values::lemma_unsettled(u, l.samples, t, policy);
    }
}

/// Groups without a time hold it nowhere.
proof fn lemma_front_unsettled(groups: Seq<GroupView>, k: int, t: Timestamp)
    requires
        0 <= k <= usize::MAX,
        forall|h: int|
            0 <= h < groups.len() ==> !crate::chunk::has_time((#[trigger] groups[h]).samples, t),
    ensures
        !crate::chunk::has_time(crate::grouping::grouped_samples(groups), t),
        !crate::chunk::has_time(crate::bulk_add::samples_for(groups, k), t),
{
    if crate::chunk::has_time(crate::bulk_add::samples_for(groups, k), t) {
        let g = lemma_given_time(groups, k, t);
    }
    if crate::chunk::has_time(crate::grouping::grouped_samples(groups), t) {
        let g = lemma_time_of_group(groups, t);
    }
}

/// A time of all groups is a time of one of them.
proof fn lemma_time_of_group(groups: Seq<GroupView>, t: Timestamp) -> (g: int)
    requires
        crate::chunk::has_time(crate::grouping::grouped_samples(groups), t),
    ensures
        0 <= g < groups.len(),
        crate::chunk::has_time(groups[g].samples, t),
    decreases groups.len(),
{
    let all = crate::grouping::grouped_samples(groups);
    let d = groups.drop_last();
    let front = crate::grouping::grouped_samples(d);
    let i = choose|i: int| 0 <= i < all.len() && (#[trigger] all[i]).timestamp == t;
    if i < front.len() {
        assert(front[i].timestamp == t);
        let g = lemma_time_of_group(d, t);
        assert(d[g] == groups[g]);
        g
    } else {
        assert(groups.last().samples[i - front.len()].timestamp == t);
        groups.len() - 1
    }
}

/// The value at a time that no chunk but perhaps one holds.
proof fn lemma_value_in_chunk(chunks: Seq<ChunkView>, k: int, t: Timestamp)
    requires
        crate::series::sound_chunks(chunks),
        crate::chunk::ascending(crate::series::all_samples(chunks)),
        0 <= k < chunks.len(),
        forall|j: int|
            0 <= j < chunks.len() && j != k ==> !crate::chunk::taken(
                (#[trigger] chunks[j]).samples,
                t,
            ),
    ensures
        crate::values::value_at(crate::series::all_samples(chunks), t) == crate::values::value_at(
            chunks[k].samples,
            t,
        ),
{
    let all = crate::series::all_samples(chunks);
    assert(chunks[k].wf());
    if crate::chunk::taken(chunks[k].samples, t) {
        let y = lemma_taken_held(chunks[k], t);
        assert(held(chunks, y));
        law_read_gives_what_is_held(chunks, y);
        crate::values::lemma_stored(all, y);
        crate::values::lemma_stored(chunks[k].samples, y);
    } else {
        lemma_no_value(chunks, t);
    }
}

proof fn lemma_no_value(chunks: Seq<ChunkView>, t: Timestamp)
    requires
        crate::series::sound_chunks(chunks),
        crate::chunk::ascending(crate::series::all_samples(chunks)),
        forall|j: int|
            0 <= j < chunks.len() ==> !crate::chunk::taken((#[trigger] chunks[j]).samples, t),
    ensures
        crate::values::value_at(crate::series::all_samples(chunks), t) is None,
{
    let all = crate::series::all_samples(chunks);
    if crate::chunk::taken(all, t) {
        let y = all[crate::chunk::rank(all, t) as int];
        assert(all.contains(y));
        law_read_gives_what_is_held(chunks, y);
        let k = lemma_held_taken(chunks, y);
    }
}

/// What the chunks hold after the write is what the samples let in make of what was stored.
proof fn lemma_write_held(
    series: SeriesView,
    samples: Seq<Sample>,
    policy: DuplicatePolicy,
    y: Sample,
)
    requires
        series.wf(),
        series.chunks.len() <= usize::MAX,
        crate::placement::in_time(crate::grouping::admitted(series, samples)),
    ensures
        held(unsorted_chunks(series, samples, policy), y) <==> crate::values::settled(
            crate::values::value_at(series.samples(), y.timestamp),
            crate::grouping::admitted(series, samples),
            y.timestamp,
            policy,
        ) == Some(y.value),
{
    let t = y.timestamp;
    let chunks = series.chunks;
    let kept = crate::grouping::admitted(series, samples);
    let groups = crate::grouping::grouped(series, samples);
    let w = crate::bulk_add::written(chunks, groups, policy);
    let runs = crate::bulk_add::new_runs(groups);
    let both = unsorted_chunks(series, samples, policy);
    let v = crate::values::value_at(series.samples(), t);
    let n = chunks.len() as int;
    crate::grouping::law_grouping(series, samples);
    crate::bulk_add::lemma_both_sound(series, samples, policy);
    crate::placement::law_same_times_together(series, samples);
    lemma_write_disjoint(series, samples, policy);
    if crate::chunk::has_time(kept, t) {
        let g = lemma_time_of_group(groups, t);
        assert forall|h: int| 0 <= h < groups.len() && h != g implies !crate::chunk::has_time(
            (#[trigger] groups[h]).samples,
            t,
        ) by {
            if crate::chunk::has_time(groups[h].samples, t) {
                lemma_one_group(groups, g, h, t);
            }
        }
        match groups[g].chunk {
            ChunkHolder::ExistingIdx(idx) => {
                let k = idx as int;
                assert(crate::grouping::placed(
                    groups[g],
                    chunks,
                    crate::grouping::new_capacity(series),
                ));
                assert forall|j: int| 0 <= j < chunks.len() && j != k implies !crate::chunk::taken(
                    (#[trigger] chunks[j]).samples,
                    t,
                ) by {
                    if crate::chunk::taken(chunks[j].samples, t) {
                        lemma_home_of_time(groups, chunks, g, j, t);
                    }
                }
                lemma_value_in_chunk(chunks, k, t);
                lemma_written_taken(series, samples, policy, k, t);
                lemma_settled_by_group(groups, g, v, t, policy);
                crate::values::lemma_some_settled(v, groups[g].samples, t, policy);
                assert(both[k] == w[k]);
                lemma_held_at(both, k, y);
            },
            ChunkHolder::New => {
                assert forall|j: int| 0 <= j < chunks.len() implies !crate::chunk::taken(
                    (#[trigger] chunks[j]).samples,
                    t,
                ) by {
                    if crate::chunk::taken(chunks[j].samples, t) {
                        lemma_home_of_time(groups, chunks, g, j, t);
                    }
                }
                lemma_no_value(chunks, t);
                let r = lemma_run_of_group(groups, g);
                lemma_made_taken(series, runs[r], policy, t);
                lemma_settled_by_group(groups, g, v, t, policy);
                crate::values::lemma_some_settled(v, groups[g].samples, t, policy);
                lemma_held_at(both, n + r, y);
            },
        }
    } else {
        crate::values::lemma_unsettled(v, kept, t, policy);
        crate::values::lemma_stored(series.samples(), y);
        law_read_gives_what_is_held(chunks, y);
        assert forall|h: int| 0 <= h < groups.len() implies !crate::chunk::has_time(
            (#[trigger] groups[h]).samples,
            t,
        ) by {
            if crate::chunk::has_time(groups[h].samples, t) {
                let s = groups[h].samples;
                let i = choose|i: int| 0 <= i < s.len() && (#[trigger] s[i]).timestamp == t;
                let at = crate::placement::lemma_group_run(groups, h);
                assert(kept[at + i] == s[i]);
            }
        }
        assert forall|k: int| 0 <= k < n implies (w[k].samples.contains(y)
            <==> #[trigger] chunks[k].samples.contains(y)) by {
            lemma_written_taken(series, samples, policy, k, t);
            lemma_front_unsettled(groups, k, t);
            crate::values::lemma_unsettled(
                crate::values::value_at(chunks[k].samples, t),
                crate::bulk_add::samples_for(groups, k),
                t,
                policy,
            );
            assert(both[k] == w[k]);
            assert(both[k].wf());
            assert(chunks[k].wf());
            crate::values::lemma_stored(w[k].samples, y);
            crate::values::lemma_stored(chunks[k].samples, y);
        }
        if held(both, y) {
            let k = lemma_held_taken(both, y);
            if k < n {
                assert(both[k] == w[k]);
                assert(chunks[k].samples.contains(y));
                assert(held(chunks, y));
            } else {
                lemma_made_taken(series, runs[k - n], policy, t);
                let h = lemma_group_of_run(groups, k - n);
                assert(!crate::chunk::has_time(groups[h].samples, t));
            }
        }
        if held(chunks, y) {
            let k = choose|k: int|
                0 <= k < chunks.len() && (#[trigger] chunks[k]).samples.contains(y);
            assert(w[k].samples.contains(y));
            assert(both[k] == w[k]);
            assert(held(both, y));
        }
    }
}

/// A write into the chunks of a series is a write into one run: where the samples let in are in
/// order of time, a read afterwards gives what writing them, one after the other, into the samples
/// of the series comes to.
pub proof fn law_chunks_are_one_run(
    series: SeriesView,
    samples: Seq<Sample>,
    policy: DuplicatePolicy,
)
    requires
        series.wf(),
        series.chunks.len() <= usize::MAX,
        crate::placement::in_time(crate::grouping::admitted(series, samples)),
    ensures
        crate::bulk_add::inserted(series, samples, policy).samples() == crate::chunk::merged(
            series.samples(),
            crate::grouping::admitted(series, samples),
            policy,
        ),
{
    let kept = crate::grouping::admitted(series, samples);
    let groups = crate::grouping::grouped(series, samples);
    let after = crate::bulk_add::inserted(series, samples, policy);
    let m = crate::chunk::merged(series.samples(), kept, policy);
    crate::grouping::law_grouping(series, samples);
    if groups.len() == 0 {
        assert(kept.len() == 0);
    } else {
        let key = crate::series::chunk_time();
        let both = unsorted_chunks(series, samples, policy);
        let sorted = crate::sorting::stable_sort(both, key);
        let whole = crate::joining::joined(sorted, policy);
        let split = crate::series::split_all(whole);
        crate::bulk_add::lemma_both_sound(series, samples, policy);
        lemma_write_disjoint(series, samples, policy);
        crate::series::lemma_sort_sound(both);
        crate::sorting::law_stable_sort(both, key);
        lemma_sort_disjoint(both);
        lemma_joined_held(sorted, policy);
        crate::joining::law_joined_in_order(sorted, policy);
        crate::joining::lemma_ordered_ascending(whole);
        crate::series::lemma_split_all_sound(whole);
        law_split_keeps_samples(whole);
        crate::joining::lemma_ascending_ordered(split);
        crate::sorting::law_sort_of_sorted(split, key);
        assert(after.chunks == split);
        crate::chunk::law_merge(series.samples(), kept, policy);
        assert forall|y: Sample| #[trigger] after.samples().contains(y) <==> m.contains(y) by {
            law_read_gives_what_is_held(whole, y);
            lemma_held_sort(both, y);
            lemma_write_held(series, samples, policy, y);
            crate::values::law_settled(series.samples(), kept, y.timestamp, policy);
            crate::values::lemma_stored(m, y);
            assert(held(whole, y) <==> held(sorted, y));
        }
        crate::values::law_values_fix_samples(after.samples(), m);
    }
}

proof fn lemma_results_add(
    s: Seq<Sample>,
    a: Seq<Sample>,
    b: Seq<Sample>,
    policy: DuplicatePolicy,
)
    ensures
        crate::chunk::merge_results(s, a + b, policy).take(a.len() as int)
            == crate::chunk::merge_results(s, a, policy),
{
    let all = crate::chunk::merge_results(s, a + b, policy);
    let front = crate::chunk::merge_results(s, a, policy);
    assert forall|i: int| 0 <= i < a.len() implies all[i] == front[i] by {
        assert((a + b).take(i) =~= a.take(i));
        assert((a + b)[i] == a[i]);
    }
    assert(all.take(a.len() as int) =~= front);
}

/// What becomes of a sample is settled by what is stored at its time, and by whether an earlier
/// sample of the batch has it.
proof fn lemma_same_outcome(
    earlier: Seq<Sample>,
    other_earlier: Seq<Sample>,
    current: Seq<Sample>,
    other: Seq<Sample>,
    x: Sample,
    policy: DuplicatePolicy,
)
    requires
        crate::values::value_at(current, x.timestamp) == crate::values::value_at(
            other,
            x.timestamp,
        ),
        crate::chunk::has_time(earlier, x.timestamp) == crate::chunk::has_time(
            other_earlier,
            x.timestamp,
        ),
    ensures
        crate::chunk::outcome(earlier, current, x, policy) == crate::chunk::outcome(
            other_earlier,
            other,
            x,
            policy,
        ),
{
}

proof fn lemma_batch_is_run(
    groups: Seq<GroupView>,
    chunks: Seq<ChunkView>,
    capacity: nat,
    policy: DuplicatePolicy,
)
    requires
        crate::series::sound_chunks(chunks),
        crate::chunk::ascending(crate::series::all_samples(chunks)),
        chunks.len() <= usize::MAX,
        crate::placement::parted(groups),
        crate::placement::homed(groups, chunks),
        forall|i: int|
            0 <= i < groups.len() ==> crate::grouping::placed(
                #[trigger] groups[i],
                chunks,
                capacity,
            ),
    ensures
        crate::bulk_add::batch_results(groups, chunks, policy) == crate::chunk::merge_results(
            crate::series::all_samples(chunks),
            crate::grouping::grouped_samples(groups),
            policy,
        ),
    decreases groups.len(),
{
    let s = crate::series::all_samples(chunks);
    let all = crate::grouping::grouped_samples(groups);
    if groups.len() == 0 {
        assert(crate::bulk_add::batch_results(groups, chunks, policy)
            =~= crate::chunk::merge_results(s, all, policy));
    } else {
        let d = groups.drop_last();
        let g = groups.last();
        let n = groups.len() - 1;
        assert(groups[n] == g);
        let front = crate::grouping::grouped_samples(d);
        assert(crate::placement::parted(d)) by {
            assert forall|a: int, b: int, i: int, j: int|
                0 <= a < b < d.len() && 0 <= i < d[a].samples.len() && 0 <= j
                    < d[b].samples.len() implies (#[trigger] d[a].samples[i]).timestamp < (
            #[trigger] d[b].samples[j]).timestamp by {
                assert(groups[a].samples[i].timestamp < groups[b].samples[j].timestamp);
            }
        }
        assert(crate::placement::homed(d, chunks)) by {
            assert forall|a: int, i: int, k: int|
                0 <= a < d.len() && 0 <= i < d[a].samples.len() && 0 <= k < chunks.len()
                    && #[trigger] crate::chunk::taken(
                    chunks[k].samples,
                    (#[trigger] d[a].samples[i]).timestamp,
                ) implies d[a].chunk == ChunkHolder::ExistingIdx(k as usize) by {
                assert(crate::chunk::taken(chunks[k].samples, groups[a].samples[i].timestamp));
            }
        }
        assert forall|i: int| 0 <= i < d.len() implies crate::grouping::placed(
            #[trigger] d[i],
            chunks,
            capacity,
        ) by {
            assert(d[i] == groups[i]);
        }
        lemma_batch_is_run(d, chunks, capacity, policy);
        lemma_results_add(s, front, g.samples, policy);
        let results = crate::bulk_add::group_results(d, g, chunks, policy);
        let run = crate::chunk::merge_results(s, all, policy);
        assert forall|i: int| 0 <= i < results.len() implies results[i] == run[front.len() + i] by {
            lemma_group_outcome(groups, chunks, capacity, policy, i);
        }
        assert(run =~= run.take(front.len() as int) + results);
    }
}

/// What becomes of a sample of the last group.
proof fn lemma_group_outcome(
    groups: Seq<GroupView>,
    chunks: Seq<ChunkView>,
    capacity: nat,
    policy: DuplicatePolicy,
    i: int,
)
    requires
        crate::series::sound_chunks(chunks),
        crate::chunk::ascending(crate::series::all_samples(chunks)),
        chunks.len() <= usize::MAX,
        groups.len() > 0,
        crate::placement::parted(groups),
        crate::placement::homed(groups, chunks),
        crate::grouping::placed(groups.last(), chunks, capacity),
        0 <= i < groups.last().samples.len(),
    ensures
        crate::bulk_add::group_results(groups.drop_last(), groups.last(), chunks, policy)[i]
            == crate::chunk::merge_results(
            crate::series::all_samples(chunks),
            crate::grouping::grouped_samples(groups),
            policy,
        )[crate::grouping::grouped_samples(groups.drop_last()).len() + i],
{
    let s = crate::series::all_samples(chunks);
    let all = crate::grouping::grouped_samples(groups);
    let d = groups.drop_last();
    let g = groups.last();
    let n = groups.len() - 1;
    assert(groups[n] == g);
    let front = crate::grouping::grouped_samples(d);
    let x = g.samples[i];
    let t = x.timestamp;
    let e = front.len() + i;
    let part = g.samples.take(i);
    assert(all[e] == x);
    assert(all.take(e) =~= front + part);
    assert(crate::chunk::has_time(g.samples, t));
    assert forall|h: int| 0 <= h < d.len() implies !crate::chunk::has_time(
        (#[trigger] d[h]).samples,
        t,
    ) by {
        if crate::chunk::has_time(d[h].samples, t) {
            assert(d[h] == groups[h]);
            lemma_one_group(groups, h, n, t);
        }
    }
    lemma_front_unsettled(d, 0, t);
    assert(crate::chunk::has_time(all.take(e), t) == crate::chunk::has_time(part, t)) by {
        if crate::chunk::has_time(part, t) {
            let j = choose|j: int| 0 <= j < part.len() && (#[trigger] part[j]).timestamp == t;
            assert((front + part)[front.len() + j].timestamp == t);
        }
        if crate::chunk::has_time(front + part, t) {
            let j = choose|j: int|
                0 <= j < (front + part).len() && (#[trigger] (front + part)[j]).timestamp == t;
            if j < front.len() {
                assert(front[j].timestamp == t);
            } else {
                assert(part[j - front.len()].timestamp == t);
            }
        }
    }
    let v = crate::values::value_at(s, t);
    crate::values::law_settled(s, all.take(e), t, policy);
    crate::values::lemma_settled_add(v, front, part, t, policy);
    crate::values::lemma_unsettled(v, front, t, policy);
    let before = crate::bulk_add::samples_before(d, g, chunks, policy);
    match g.chunk {
        ChunkHolder::ExistingIdx(idx) => {
            let k = idx as int;
            let given = crate::bulk_add::samples_for(d, k);
            assert(chunks[k].wf());
            crate::chunk::law_merge(chunks[k].samples, given, policy);
            crate::values::law_settled(chunks[k].samples, given, t, policy);
            lemma_front_unsettled(d, k, t);
            crate::values::lemma_unsettled(
                crate::values::value_at(chunks[k].samples, t),
                given,
                t,
                policy,
            );
            assert forall|j: int| 0 <= j < chunks.len() && j != k implies !crate::chunk::taken(
                (#[trigger] chunks[j]).samples,
                t,
            ) by {
                if crate::chunk::taken(chunks[j].samples, t) {
                    lemma_home_of_time(groups, chunks, n, j, t);
                }
            }
            lemma_value_in_chunk(chunks, k, t);
        },
        ChunkHolder::New => {
            assert forall|j: int| 0 <= j < chunks.len() implies !crate::chunk::taken(
                (#[trigger] chunks[j]).samples,
                t,
            ) by {
                if crate::chunk::taken(chunks[j].samples, t) {
                    lemma_home_of_time(groups, chunks, n, j, t);
                }
            }
            lemma_no_value(chunks, t);
            assert(!crate::chunk::taken(before, t));
        },
    }
    assert(crate::chunk::ascending(before));
    assert(crate::values::value_at(before, t) == v);
    crate::values::law_settled(before, part, t, policy);
    lemma_same_outcome(
        part,
        all.take(e),
        crate::chunk::merged(before, part, policy),
        crate::chunk::merged(s, all.take(e), policy),
        x,
        policy,
    );
}

/// Where the samples let in are in order of time, what becomes of each of them is what becomes of it
/// when they are written, one after the other, into the samples of the series.
pub proof fn law_results_are_of_one_run(
    series: SeriesView,
    samples: Seq<Sample>,
    policy: DuplicatePolicy,
)
    requires
        series.wf(),
        series.chunks.len() <= usize::MAX,
        crate::placement::in_time(crate::grouping::admitted(series, samples)),
    ensures
        crate::bulk_add::insert_results(series, samples, policy) == crate::chunk::merge_results(
            series.samples(),
            crate::grouping::admitted(series, samples),
            policy,
        ),
{
    crate::grouping::law_grouping(series, samples);
    crate::placement::law_same_times_together(series, samples);
    lemma_batch_is_run(
        crate::grouping::grouped(series, samples),
        series.chunks,
        crate::grouping::new_capacity(series),
        policy,
    );
}

/// Whatever is written, a series holds one sample per time, in order of time.
pub proof fn law_one_sample_per_time(
    series: SeriesView,
    samples: Seq<Sample>,
    policy: DuplicatePolicy,
)
    requires
        series.wf(),
        series.chunks.len() <= usize::MAX,
    ensures
        crate::chunk::ascending(crate::bulk_add::inserted(series, samples, policy).samples()),
{
    crate::bulk_add::law_insert_keeps_series(series, samples, policy);
}

/// Where the samples let in are in order of time, a write leaves every sample at another time as it
/// was, and adds none there.
pub proof fn law_other_times_stay(
    series: SeriesView,
    samples: Seq<Sample>,
    policy: DuplicatePolicy,
    y: Sample,
)
    requires
        series.wf(),
        series.chunks.len() <= usize::MAX,
        crate::placement::in_time(crate::grouping::admitted(series, samples)),
        !crate::chunk::has_time(crate::grouping::admitted(series, samples), y.timestamp),
    ensures
        crate::bulk_add::inserted(series, samples, policy).samples().contains(y)
            <==> series.samples().contains(y),
{
    let kept = crate::grouping::admitted(series, samples);
    law_chunks_are_one_run(series, samples, policy);
    crate::chunk::law_merge(series.samples(), kept, policy);
    assert forall|i: int| 0 <= i < kept.len() implies (#[trigger] kept[i]).timestamp
        != y.timestamp by {}
}

/// Under `BLOCK`, whatever samples in order of time are written, no sample that a read gave back is
/// lost or changed.
pub proof fn law_block_keeps_samples(series: SeriesView, samples: Seq<Sample>, y: Sample)
    requires
        series.wf(),
        series.chunks.len() <= usize::MAX,
        crate::placement::in_time(crate::grouping::admitted(series, samples)),
        series.samples().contains(y),
    ensures
        crate::bulk_add::inserted(series, samples, DuplicatePolicy::Block).samples().contains(y),
{
    let policy = DuplicatePolicy::Block;
    let kept = crate::grouping::admitted(series, samples);
    law_chunks_are_one_run(series, samples, policy);
    crate::chunk::law_merge(series.samples(), kept, policy);
    crate::values::law_settled(series.samples(), kept, y.timestamp, policy);
    crate::values::lemma_stored(series.samples(), y);
    crate::values::lemma_stored(crate::chunk::merged(series.samples(), kept, policy), y);
    lemma_blocked(y.value, kept, y.timestamp);
}

proof fn lemma_blocked(v: u64, batch: Seq<Sample>, t: Timestamp)
    ensures
        crate::values::settled(Some(v), batch, t, DuplicatePolicy::Block) == Some(v),
    decreases batch.len(),
{
    if batch.len() > 0 {
        lemma_blocked(v, batch.drop_last(), t);
    }
}

/// Where no two of the samples let in, which are in order, have the same time, a read gives back
/// each of them as it was written: under `LAST` in any case, under any other policy where its time
/// was free.
pub proof fn law_write_reads_back(
    series: SeriesView,
    samples: Seq<Sample>,
    policy: DuplicatePolicy,
    x: Sample,
)
    requires
        series.wf(),
        series.chunks.len() <= usize::MAX,
        crate::chunk::ascending(crate::grouping::admitted(series, samples)),
        crate::grouping::admitted(series, samples).contains(x),
        policy == DuplicatePolicy::KeepLast || !crate::chunk::has_time(
            series.samples(),
            x.timestamp,
        ),
    ensures
        crate::bulk_add::inserted(series, samples, policy).samples().contains(x),
{
    let kept = crate::grouping::admitted(series, samples);
    let t = x.timestamp;
    let s = series.samples();
    let v = crate::values::value_at(s, t);
    assert(crate::placement::in_time(kept)) by {
        assert forall|i: int, j: int| 0 <= i <= j < kept.len() implies (
        #[trigger] kept[i]).timestamp <= (#[trigger] kept[j]).timestamp by {
            if i < j {
                assert(kept[i].timestamp < kept[j].timestamp);
            }
        }
    }
    law_chunks_are_one_run(series, samples, policy);
    crate::chunk::law_merge(s, kept, policy);
    crate::values::law_settled(s, kept, t, policy);
    crate::values::lemma_stored(crate::chunk::merged(s, kept, policy), x);
    crate::values::lemma_stored(s, x);
    crate::values::lemma_stored(kept, x);
    if v is None {
        crate::values::lemma_settled_alone(kept, t, policy);
    } else {
        let i = choose|i: int| 0 <= i < kept.len() && kept[i] == x;
        lemma_last_settles(v, kept, i);
    }
}

/// Under `LAST`, the one sample at a time settles it.
proof fn lemma_last_settles(v: Option<u64>, batch: Seq<Sample>, i: int)
    requires
        crate::chunk::ascending(batch),
        0 <= i < batch.len(),
    ensures
        crate::values::settled(v, batch, batch[i].timestamp, DuplicatePolicy::KeepLast) == Some(
            batch[i].value,
        ),
    decreases batch.len(),
{
    let d = batch.drop_last();
    let n = batch.len() - 1;
    if i < n {
        assert(crate::chunk::ascending(d)) by {
            assert forall|a: int, b: int| 0 <= a < b < d.len() implies (
            #[trigger] d[a]).timestamp < (#[trigger] d[b]).timestamp by {
                assert(batch[a].timestamp < batch[b].timestamp);
            }
        }
        lemma_last_settles(v, d, i);
        assert(batch[i].timestamp < batch[n].timestamp);
    }
}

/// After a write of samples in order of time, a read gives back a sample at exactly the times at
/// which it did before and those of the samples let in; no time is lost.
pub proof fn law_times_after_write(
    series: SeriesView,
    samples: Seq<Sample>,
    policy: DuplicatePolicy,
    t: Timestamp,
)
    requires
        series.wf(),
        series.chunks.len() <= usize::MAX,
        crate::placement::in_time(crate::grouping::admitted(series, samples)),
    ensures
        crate::chunk::has_time(crate::bulk_add::inserted(series, samples, policy).samples(), t)
            <==> crate::chunk::has_time(series.samples(), t) || crate::chunk::has_time(
            crate::grouping::admitted(series, samples),
            t,
        ),
{
    let kept = crate::grouping::admitted(series, samples);
    let m = crate::chunk::merged(series.samples(), kept, policy);
    law_chunks_are_one_run(series, samples, policy);
    crate::chunk::law_merge(series.samples(), kept, policy);
    crate::chunk::law_taken(m, t);
    crate::chunk::law_taken(series.samples(), t);
    assert(crate::chunk::taken(m, t) <==> crate::chunk::taken(series.samples(), t)
        || crate::chunk::has_time(kept, t));
}

/// Of samples in order of time, those let in are exactly those that are not older than the
/// retention allows.
pub proof fn law_retention_drops_old(series: SeriesView, samples: Seq<Sample>, x: Sample)
    requires
        crate::sorting::in_order(samples, crate::sorting::sample_time()),
    ensures
        crate::grouping::admitted(series, samples).contains(x) <==> samples.contains(x)
            && x.timestamp >= series.min_timestamp(),
{
    let min = series.min_timestamp();
    let too_old = crate::grouping::older_than(min);
    let kept = crate::grouping::admitted(series, samples);
    crate::grouping::lemma_leading(samples, too_old);
    let n = crate::grouping::leading(samples, too_old) as int;
    if kept.contains(x) {
        let i = choose|i: int| 0 <= i < kept.len() && kept[i] == x;
        assert(samples[n + i] == x);
        assert(crate::sorting::sample_time()(samples[n]) <= crate::sorting::sample_time()(
            samples[n + i],
        ));
    }
    if samples.contains(x) && x.timestamp >= min {
        let i = choose|i: int| 0 <= i < samples.len() && samples[i] == x;
        assert(i >= n) by {
            if i < n {
                assert(too_old(samples[i]));
            }
        }
        assert(kept[i - n] == x);
    }
}

/// Writing ascending samples that are all newer puts them behind.
#[verifier::rlimit(40)]
proof fn lemma_merge_newer(s: Seq<Sample>, b: Seq<Sample>, policy: DuplicatePolicy)
    requires
        crate::chunk::ascending(s),
        crate::chunk::ascending(b),
        s.len() > 0 && b.len() > 0 ==> s.last().timestamp < b[0].timestamp,
    ensures
        crate::chunk::merged(s, b, policy) == s + b,
        crate::chunk::merge_results(s, b, policy) == b.map_values(
            |x: Sample| SampleAddResult::Stored(x),
        ),
        crate::chunk::ascending(s + b),
    decreases b.len(),
{
    let f = |x: Sample| SampleAddResult::Stored(x);
    if b.len() == 0 {
        assert(s + b =~= s);
        assert(crate::chunk::merge_results(s, b, policy) =~= b.map_values(f));
    } else {
        let d = b.drop_last();
        let x = b.last();
        let n = b.len() - 1;
        assert(crate::chunk::ascending(d)) by {
            assert forall|i: int, j: int| 0 <= i < j < d.len() implies (
            #[trigger] d[i]).timestamp < (#[trigger] d[j]).timestamp by {
                assert(b[i].timestamp < b[j].timestamp);
            }
        }
        if d.len() > 0 {
            assert(d[0] == b[0]);
        }
        lemma_merge_newer(s, d, policy);
        let m = s + d;
        if m.len() > 0 {
            if d.len() > 0 {
                assert(m.last() == b[n - 1]);
                assert(b[n - 1].timestamp < b[n].timestamp);
            } else {
                assert(m.last() == s.last());
                assert(x == b[0]);
            }
        }
        assert(crate::chunk::rank(m, x.timestamp) == m.len());
        assert(m.insert(m.len() as int, x) =~= s + b);
        crate::chunk::law_upsert(m, x, policy);
        let all = crate::chunk::merge_results(s, b, policy);
        lemma_results_add(s, d, seq![x], policy);
        assert(d + seq![x] =~= b);
        assert forall|i: int| 0 <= i < all.len() implies all[i] == b.map_values(f)[i] by {
            if i < n {
                assert(all[i] == all.take(n)[i]);
                assert(all.take(n)[i] == d.map_values(f)[i]);
            } else {
                assert(b.take(n) =~= d);
            }
        }
        assert(all =~= b.map_values(f));
    }
}

/// Where samples in order of time are written that are all newer than those of a series, a read
/// gives back the old samples and behind them the new ones, each as it was written. Every one of
/// them counts as stored, the last timestamp is that of the newest, and the number of samples grows
/// by theirs.
pub proof fn law_append_reads_back(
    series: SeriesView,
    samples: Seq<Sample>,
    policy: DuplicatePolicy,
)
    requires
        series.wf(),
        series.chunks.len() <= usize::MAX,
        crate::chunk::ascending(samples),
        samples.len() > 0,
        samples[0].timestamp >= series.min_timestamp(),
        series.chunks.len() > 0 ==> samples[0].timestamp > series.last_timestamp,
    ensures
        ({
            let after = crate::bulk_add::inserted(series, samples, policy);
            &&& after.samples() == series.samples() + samples
            &&& after.last_timestamp == samples.last().timestamp
            &&& after.first_timestamp == after.samples()[0].timestamp
            &&& after.total_samples == crate::series::clamp_count(
                series.samples().len() + samples.len(),
            )
            &&& crate::bulk_add::insert_results(series, samples, policy) == samples.map_values(
                |x: Sample| SampleAddResult::Stored(x),
            )
        }),
{
    let after = crate::bulk_add::inserted(series, samples, policy);
    let too_old = crate::grouping::older_than(series.min_timestamp());
    assert(!too_old(samples[0]));
    assert(crate::grouping::leading(samples, too_old) == 0);
    assert(crate::grouping::admitted(series, samples) =~= samples);
    assert(crate::placement::in_time(samples)) by {
        assert forall|i: int, j: int| 0 <= i <= j < samples.len() implies (
        #[trigger] samples[i]).timestamp <= (#[trigger] samples[j]).timestamp by {
            if i < j {
                assert(samples[i].timestamp < samples[j].timestamp);
            }
        }
    }
    crate::joining::lemma_ascending_ordered(series.chunks);
    if series.chunks.len() == 0 {
        assert(series.samples().len() == 0);
    }
    law_chunks_are_one_run(series, samples, policy);
    law_results_are_of_one_run(series, samples, policy);
    lemma_merge_newer(series.samples(), samples, policy);
    crate::bulk_add::law_insert_keeps_series(series, samples, policy);
    law_count_is_read_length(after.chunks);
    crate::joining::lemma_ascending_ordered(after.chunks);
    if after.chunks.len() == 0 {
        assert(after.samples().len() == 0);
    }
    lemma_first_sample(after.chunks);
    assert(after.samples().last() == samples.last());
}

/// The first sample of all is the first of the first chunk.
proof fn lemma_first_sample(chunks: Seq<ChunkView>)
    requires
        chunks.len() > 0,
        crate::series::sound_chunks(chunks),
    ensures
        crate::series::all_samples(chunks).len() > 0,
        crate::series::all_samples(chunks)[0] == chunks[0].samples[0],
    decreases chunks.len(),
{
    let d = chunks.drop_last();
    crate::joining::lemma_sound_front(chunks);
    if d.len() > 0 {
        lemma_first_sample(d);
        assert(d[0] == chunks[0]);
    } else {
        assert(crate::series::all_samples(d).len() == 0);
        assert(chunks.last() == chunks[0]);
    }
}

proof fn lemma_cut_lengths(samples: Seq<Sample>, capacity: nat)
    requires
        capacity > 0,
    ensures
        forall|i: int|
            0 <= i < crate::series::cut(samples, capacity).len() ==> (#[trigger] crate::series::cut(
                samples,
                capacity,
            )[i]).len() <= capacity,
    decreases samples.len(),
{
    if samples.len() > capacity {
        let rest = samples.skip(capacity as int);
        lemma_cut_lengths(rest, capacity);
        let c = crate::series::cut(samples, capacity);
        assert forall|i: int| 0 <= i < c.len() implies (#[trigger] c[i]).len() <= capacity by {
            if i > 0 {
                assert(c[i] == crate::series::cut(rest, capacity)[i - 1]);
            }
        }
    }
}

proof fn lemma_split_fits(chunks: Seq<ChunkView>)
    ensures
        forall|i: int|
            0 <= i < crate::series::split_all(chunks).len() ==> !crate::series::oversized(
                #[trigger] crate::series::split_all(chunks)[i],
            ),
    decreases chunks.len(),
{
    if chunks.len() > 0 {
        let d = chunks.drop_last();
        let c = chunks.last();
        lemma_split_fits(d);
        let capacity = crate::chunk::capacity_of(c.encoding, c.max_size);
        let parts = crate::series::split_chunk(c);
        if crate::series::oversized(c) {
            lemma_cut_lengths(c.samples, capacity);
        }
        let all = crate::series::split_all(chunks);
        let front = crate::series::split_all(d);
        assert forall|i: int| 0 <= i < all.len() implies !crate::series::oversized(
            #[trigger] all[i],
        ) by {
            if i < front.len() {
                assert(all[i] == front[i]);
            } else {
                assert(all[i] == parts[i - front.len()]);
                if crate::series::oversized(c) {
                    assert(parts[i - front.len()].samples == crate::series::cut(
                        c.samples,
                        capacity,
                    )[i - front.len()]);
                }
            }
        }
    }
}

/// After a write that lets in any sample, no chunk holds more than its size is trusted to take.
pub proof fn law_no_chunk_holds_too_much(
    series: SeriesView,
    samples: Seq<Sample>,
    policy: DuplicatePolicy,
    i: int,
)
    requires
        series.wf(),
        series.chunks.len() <= usize::MAX,
        crate::grouping::admitted(series, samples).len() > 0,
        0 <= i < crate::bulk_add::inserted(series, samples, policy).chunks.len(),
    ensures
        !crate::series::oversized(crate::bulk_add::inserted(series, samples, policy).chunks[i]),
{
    let key = crate::series::chunk_time();
    crate::grouping::law_grouping(series, samples);
    if crate::grouping::grouped(series, samples).len() == 0 {
        assert(crate::grouping::grouped_samples(crate::grouping::grouped(series, samples)).len()
            == 0);
    }
    let whole = crate::joining::joined(
        crate::sorting::stable_sort(unsorted_chunks(series, samples, policy), key),
        policy,
    );
    let split = crate::series::split_all(whole);
    lemma_split_fits(whole);
    let after = crate::bulk_add::inserted(series, samples, policy);
    assert(after.chunks == crate::sorting::stable_sort(split, key));
    crate::sorting::lemma_sort_contains(split, key, i);
    let k = choose|k: int| 0 <= k < split.len() && split[k] == after.chunks[i];
    assert(!crate::series::oversized(split[k]));
}

} // verus!
