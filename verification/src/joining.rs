//! Chunks that overlap, joined into chunks that do not.
use vstd::prelude::*;

use crate::chunk::{ChunkView, TimeSeriesChunk};
use crate::common::{DuplicatePolicy, Sample, SampleAddResult};

verus! {

/// Whether each chunk ends before the next one starts.
pub open spec fn ordered(chunks: Seq<ChunkView>) -> bool {
    forall|i: int, j: int|
        0 <= i < j < chunks.len() ==> (#[trigger] chunks[i]).last_timestamp() < (
        #[trigger] chunks[j]).first_timestamp()
}

/// The chunks, which are in order of their first times, with each that starts before those in front
/// of it end written into the last of them.
pub open spec fn joined(chunks: Seq<ChunkView>, policy: DuplicatePolicy) -> Seq<ChunkView>
    decreases chunks.len(),
{
    if chunks.len() == 0 {
        chunks
    } else {
        let front = joined(chunks.drop_last(), policy);
        let c = chunks.last();
        if front.len() > 0 && c.first_timestamp() <= front.last().last_timestamp() {
            front.drop_last().push(front.last().merge(c.samples, policy))
        } else {
            front.push(c)
        }
    }
}

/// The samples of a sound chunk lie in its range.
pub(crate) proof fn lemma_in_range(c: ChunkView)
    requires
        c.wf(),
        c.samples.len() > 0,
    ensures
        c.first_timestamp() <= c.last_timestamp(),
        forall|i: int| 0 <= i < c.samples.len() ==> c.covers((#[trigger] c.samples[i]).timestamp),
{
    let n = c.samples.len() - 1;
    assert forall|i: int| 0 <= i < c.samples.len() implies c.covers(
        (#[trigger] c.samples[i]).timestamp,
    ) by {
        if i > 0 {
            assert(c.samples[0].timestamp < c.samples[i].timestamp);
        }
        if i < n {
            assert(c.samples[i].timestamp < c.samples[n].timestamp);
        }
    }
    assert(c.covers(c.samples[0].timestamp));
}

pub(crate) proof fn lemma_sound_front(chunks: Seq<ChunkView>)
    requires
        crate::series::sound_chunks(chunks),
        chunks.len() > 0,
    ensures
        crate::series::sound_chunks(chunks.drop_last()),
        chunks.last().wf(),
        chunks.last().samples.len() > 0,
{
    let d = chunks.drop_last();
    assert(chunks.last() == chunks[chunks.len() - 1]);
    assert forall|i: int| 0 <= i < d.len() implies (#[trigger] d[i]).wf() && d[i].samples.len()
        > 0 by {
        assert(d[i] == chunks[i]);
    }
}

/// Chunks of which each ends before the next one starts hold their samples in order of time.
pub(crate) proof fn lemma_ordered_ascending(chunks: Seq<ChunkView>)
    requires
        crate::series::sound_chunks(chunks),
        ordered(chunks),
    ensures
        crate::chunk::ascending(crate::series::all_samples(chunks)),
        chunks.len() > 0 ==> crate::series::all_samples(chunks).len() > 0
            && crate::series::all_samples(chunks).last() == chunks.last().samples.last(),
    decreases chunks.len(),
{
    if chunks.len() > 0 {
        let d = chunks.drop_last();
        let c = chunks.last();
        let front = crate::series::all_samples(d);
        let all = crate::series::all_samples(chunks);
        let n = chunks.len() - 1;
        lemma_sound_front(chunks);
        assert(ordered(d)) by {
            assert forall|i: int, j: int| 0 <= i < j < d.len() implies (
            #[trigger] d[i]).last_timestamp() < (#[trigger] d[j]).first_timestamp() by {
                assert(d[i] == chunks[i] && d[j] == chunks[j]);
            }
        }
        lemma_ordered_ascending(d);
        assert(all.last() == c.samples.last());
        assert forall|i: int, j: int| 0 <= i < j < all.len() implies (#[trigger] all[i]).timestamp
            < (#[trigger] all[j]).timestamp by {
            if j < front.len() {
                assert(front[i].timestamp < front[j].timestamp);
            } else if i >= front.len() {
                assert(c.samples[i - front.len()].timestamp < c.samples[j
                    - front.len()].timestamp);
            } else {
                assert(d.last() == chunks[n - 1]);
                assert(chunks[n - 1].last_timestamp() < chunks[n].first_timestamp());
                lemma_in_range(c);
                assert(c.covers(c.samples[j - front.len()].timestamp));
                if i < front.len() - 1 {
                    assert(front[i].timestamp < front[front.len() - 1].timestamp);
                }
            }
        }
    }
}

/// Where the samples of sound chunks are in order of time, each chunk ends before the next one
/// starts.
pub(crate) proof fn lemma_ascending_ordered(chunks: Seq<ChunkView>)
    requires
        crate::series::sound_chunks(chunks),
        crate::chunk::ascending(crate::series::all_samples(chunks)),
    ensures
        ordered(chunks),
        crate::sorting::in_order(chunks, crate::series::chunk_time()),
        chunks.len() > 0 ==> crate::series::all_samples(chunks).len() > 0
            && crate::series::all_samples(chunks).last() == chunks.last().samples.last(),
    decreases chunks.len(),
{
    let key = crate::series::chunk_time();
    if chunks.len() > 0 {
        let d = chunks.drop_last();
        let c = chunks.last();
        let front = crate::series::all_samples(d);
        let all = crate::series::all_samples(chunks);
        let n = chunks.len() - 1;
        lemma_sound_front(chunks);
        assert(crate::chunk::ascending(front)) by {
            assert forall|i: int, j: int| 0 <= i < j < front.len() implies (
            #[trigger] front[i]).timestamp < (#[trigger] front[j]).timestamp by {
                assert(all[i] == front[i] && all[j] == front[j]);
            }
        }
        lemma_ascending_ordered(d);
        assert(all.last() == c.samples.last());
        assert forall|i: int, j: int| 0 <= i < j < chunks.len() implies (
        #[trigger] chunks[i]).last_timestamp() < (#[trigger] chunks[j]).first_timestamp() by {
            assert(d[i] == chunks[i]);
            if j < n {
                assert(d[j] == chunks[j]);
            } else {
                assert(all[front.len() - 1] == front.last());
                assert(all[front.len() as int] == c.samples[0]);
                assert(d.last() == d[n - 1]);
                lemma_in_range(d[n - 1]);
                if i < n - 1 {
                    assert(d[i].last_timestamp() < d[n - 1].first_timestamp());
                }
            }
        }
        assert forall|i: int, j: int| 0 <= i <= j < chunks.len() implies key(#[trigger] chunks[i])
            <= key(#[trigger] chunks[j]) by {
            if i < j {
                assert(chunks[i].last_timestamp() < chunks[j].first_timestamp());
                assert(chunks[i].wf());
                lemma_in_range(chunks[i]);
            }
        }
    }
}

/// Writing samples, none of them older than those of a chunk, keeps where it starts.
proof fn lemma_merge_behind(c: ChunkView, e: ChunkView, policy: DuplicatePolicy)
    requires
        c.wf(),
        c.samples.len() > 0,
        e.wf(),
        e.samples.len() > 0,
        c.first_timestamp() <= e.first_timestamp(),
    ensures
        c.merge(e.samples, policy).wf(),
        c.merge(e.samples, policy).samples.len() > 0,
        c.merge(e.samples, policy).first_timestamp() == c.first_timestamp(),
{
    let m = c.merge(e.samples, policy);
    crate::chunk::law_merge(c.samples, e.samples, policy);
    let t = m.samples[0].timestamp;
    crate::chunk::law_taken(m.samples, t);
    assert(crate::chunk::taken(m.samples, t));
    lemma_in_range(c);
    lemma_in_range(e);
    crate::chunk::law_taken(c.samples, t);
    if crate::chunk::taken(c.samples, t) {
        let i = choose|i: int| 0 <= i < c.samples.len() && (#[trigger] c.samples[i]).timestamp == t;
        assert(c.covers(c.samples[i].timestamp));
    } else {
        let i = choose|i: int| 0 <= i < e.samples.len() && (#[trigger] e.samples[i]).timestamp == t;
        assert(e.covers(e.samples[i].timestamp));
    }
    let u = c.samples[0].timestamp;
    crate::chunk::law_taken(c.samples, u);
    assert(crate::chunk::taken(m.samples, u));
    crate::chunk::law_taken(m.samples, u);
    let k = choose|k: int| 0 <= k < m.samples.len() && (#[trigger] m.samples[k]).timestamp == u;
    if k > 0 {
        assert(m.samples[0].timestamp < m.samples[k].timestamp);
    }
}

/// Joined chunks are sound, and each ends before the next one starts.
pub proof fn law_joined_in_order(chunks: Seq<ChunkView>, policy: DuplicatePolicy)
    requires
        crate::series::sound_chunks(chunks),
        crate::sorting::in_order(chunks, crate::series::chunk_time()),
    ensures
        crate::series::sound_chunks(joined(chunks, policy)),
        ordered(joined(chunks, policy)),
        chunks.len() > 0 ==> joined(chunks, policy).len() > 0 && joined(
            chunks,
            policy,
        ).last().first_timestamp() <= chunks.last().first_timestamp(),
    decreases chunks.len(),
{
    let key = crate::series::chunk_time();
    if chunks.len() > 0 {
        let d = chunks.drop_last();
        let c = chunks.last();
        let n = chunks.len() - 1;
        lemma_sound_front(chunks);
        assert(crate::sorting::in_order(d, key)) by {
            assert forall|i: int, j: int| 0 <= i <= j < d.len() implies key(#[trigger] d[i]) <= key(
                #[trigger] d[j],
            ) by {
                assert(key(chunks[i]) <= key(chunks[j]));
            }
        }
        law_joined_in_order(d, policy);
        let front = joined(d, policy);
        let all = joined(chunks, policy);
        if front.len() > 0 {
            let l = front.last();
            let m = front.len() - 1;
            assert(front[m] == l);
            assert(d.len() > 0);
            assert(d.last() == chunks[n - 1]);
            assert(key(chunks[n - 1]) <= key(chunks[n]));
            assert(l.first_timestamp() <= c.first_timestamp());
            if c.first_timestamp() <= l.last_timestamp() {
                lemma_merge_behind(l, c, policy);
                let e = l.merge(c.samples, policy);
                assert(all == front.drop_last().push(e));
                assert forall|i: int| 0 <= i < all.len() implies (#[trigger] all[i]).wf()
                    && all[i].samples.len() > 0 by {
                    if i < m {
                        assert(all[i] == front[i]);
                    }
                }
                assert forall|i: int, j: int| 0 <= i < j < all.len() implies (
                #[trigger] all[i]).last_timestamp() < (#[trigger] all[j]).first_timestamp() by {
                    assert(all[i] == front[i]);
                    assert(front[i].last_timestamp() < front[j].first_timestamp());
                }
            } else {
                assert forall|i: int| 0 <= i < all.len() implies (#[trigger] all[i]).wf()
                    && all[i].samples.len() > 0 by {
                    if i <= m {
                        assert(all[i] == front[i]);
                    }
                }
                assert forall|i: int, j: int| 0 <= i < j < all.len() implies (
                #[trigger] all[i]).last_timestamp() < (#[trigger] all[j]).first_timestamp() by {
                    assert(all[i] == front[i]);
                    if j <= m {
                        assert(all[j] == front[j]);
                    } else if i < m {
                        assert(front[i].last_timestamp() < front[m].first_timestamp());
                        lemma_in_range(l);
                    }
                }
            }
        } else {
            assert(all =~= seq![c]);
        }
    }
}

/// Chunks of which each ends before the next one starts are left as they are.
pub proof fn law_joined_of_ordered(chunks: Seq<ChunkView>, policy: DuplicatePolicy)
    requires
        ordered(chunks),
    ensures
        joined(chunks, policy) == chunks,
    decreases chunks.len(),
{
    if chunks.len() > 0 {
        let d = chunks.drop_last();
        let n = chunks.len() - 1;
        assert(ordered(d)) by {
            assert forall|i: int, j: int| 0 <= i < j < d.len() implies (
            #[trigger] d[i]).last_timestamp() < (#[trigger] d[j]).first_timestamp() by {
                assert(d[i] == chunks[i] && d[j] == chunks[j]);
            }
        }
        law_joined_of_ordered(d, policy);
        if d.len() > 0 {
            assert(d.last() == chunks[n - 1]);
            assert(chunks[n - 1].last_timestamp() < chunks[n].first_timestamp());
        }
        assert(d.push(chunks.last()) =~= chunks);
    }
}

/// Writes each chunk that starts before those in front of it end into the last of them.
pub fn join_chunks(chunks: Vec<TimeSeriesChunk>, policy: Option<DuplicatePolicy>) -> (r: Vec<
    TimeSeriesChunk,
>)
    requires
        crate::series::sound_chunks(chunks@.map_values(crate::series::chunk_view())),
        crate::sorting::in_order(
            chunks@.map_values(crate::series::chunk_view()),
            crate::series::chunk_time(),
        ),
    ensures
        r@.map_values(crate::series::chunk_view()) == joined(
            chunks@.map_values(crate::series::chunk_view()),
            crate::common::policy_or_block(policy),
        ),
{
    let ghost f = crate::series::chunk_view();
    let ghost p = crate::common::policy_or_block(policy);
    let ghost all = chunks@;
    let ghost views = all.map_values(f);
    let mut out: Vec<TimeSeriesChunk> = Vec::with_capacity(chunks.len());
    let mut at: usize = 0;
    let n: usize = chunks.len();
    assert(views.take(0) =~= Seq::<ChunkView>::empty());
    assert(out@.map_values(f) =~= Seq::<ChunkView>::empty());
    for chunk in it: chunks
        invariant
            it.seq() == all,
            all.len() == n,
            at == it.index(),
            at <= n,
            f == crate::series::chunk_view(),
            p == crate::common::policy_or_block(policy),
            views == all.map_values(f),
            crate::series::sound_chunks(views),
            crate::sorting::in_order(views, crate::series::chunk_time()),
            out@.map_values(f) == joined(views.take(at as int), p),
    {
        assert(at < n);
        assert(chunk == all[at as int]);
        let ghost done = views.take(at as int);
        let ghost front = out@.map_values(f);
        proof {
            assert(views.take(at + 1).drop_last() =~= done);
            assert(views.take(at + 1).last() == chunk@);
            lemma_prefix(views, at as int);
            law_joined_in_order(done, p);
        }
        let len: usize = out.len();
        if len > 0 && chunk.first_timestamp() <= out[len - 1].last_timestamp() {
            assert(front.last() == out@[len - 1]@);
            let ghost before = out@;
            if let Some(top) = out.pop() {
                let mut top = top;
                assert(top@ == front[len - 1]);
                let _ = crate::bulk_add::exec_merge(&mut top, &chunk.samples, policy);
                assert(out@.map_values(f) =~= front.drop_last());
                out.push(top);
                assert(out@.map_values(f) =~= front.drop_last().push(
                    front.last().merge(chunk@.samples, p),
                ));
            }
        } else {
            if len > 0 {
                assert(front.last() == out@[len - 1]@);
            }
            let ghost view = chunk@;
            out.push(chunk);
            assert(out@.map_values(f) =~= front.push(view));
        }
        at = at + 1;
    }
    assert(views.take(n as int) =~= views);
    out
}

proof fn lemma_prefix(views: Seq<ChunkView>, n: int)
    requires
        crate::series::sound_chunks(views),
        crate::sorting::in_order(views, crate::series::chunk_time()),
        0 <= n <= views.len(),
    ensures
        crate::series::sound_chunks(views.take(n)),
        crate::sorting::in_order(views.take(n), crate::series::chunk_time()),
{
    let t = views.take(n);
    let key = crate::series::chunk_time();
    assert forall|i: int| 0 <= i < t.len() implies (#[trigger] t[i]).wf() && t[i].samples.len()
        > 0 by {
        assert(t[i] == views[i]);
    }
    assert forall|i: int, j: int| 0 <= i <= j < t.len() implies key(#[trigger] t[i]) <= key(
        #[trigger] t[j],
    ) by {
        assert(key(views[i]) <= key(views[j]));
    }
}

} // verus!
