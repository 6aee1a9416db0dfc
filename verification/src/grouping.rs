//! Grouping of the samples of a batch by the chunk that each goes to.
use vstd::prelude::*;

use crate::binary64;
use crate::chunk::{sample_capacity, ChunkEncoding, ChunkView, TimeSeriesChunk};
use crate::common::{Sample, Timestamp};
use crate::series::{SeriesView, TimeSeries};

verus! {

/// The chunk that a group of samples goes to.
#[derive(Debug, Clone, Copy, PartialEq, Eq, Structural)]
pub enum ChunkHolder {
    /// The chunk of the series with this index.
    ExistingIdx(usize),
    /// A chunk yet to be made.
    New,
}

/// A run of samples that go to the same chunk.
#[derive(Debug)]
pub struct ChunkSampleGroup<'a> {
    pub chunk: ChunkHolder,
    pub samples: &'a [Sample],
}

/// What a group holds.
#[verifier::ext_equal]
pub struct GroupView {
    pub chunk: ChunkHolder,
    pub samples: Seq<Sample>,
}

impl<'a> View for ChunkSampleGroup<'a> {
    type V = GroupView;

    open spec fn view(&self) -> GroupView {
        GroupView { chunk: self.chunk, samples: self.samples@ }
    }
}

/// What a group holds, as a function.
pub open spec fn group_view<'a>() -> spec_fn(ChunkSampleGroup<'a>) -> GroupView {
    |g: ChunkSampleGroup<'a>| g@
}

/// How many samples at the front of `s` satisfy `f`.
pub open spec fn leading(s: Seq<Sample>, f: spec_fn(Sample) -> bool) -> nat
    decreases s.len(),
{
    if s.len() == 0 || !f(s[0]) {
        0
    } else {
        1 + leading(s.drop_first(), f)
    }
}

/// Whether a sample is older than `t`, as a function.
pub open spec fn older_than(t: Timestamp) -> spec_fn(Sample) -> bool {
    |x: Sample| x.timestamp < t
}

/// Whether a sample lies in the range of a chunk, as a function.
pub open spec fn in_range_of(c: ChunkView) -> spec_fn(Sample) -> bool {
    |x: Sample| c.covers(x.timestamp)
}

/// The samples that the retention lets in: all but those at the front that are too old.
pub open spec fn admitted(series: SeriesView, samples: Seq<Sample>) -> Seq<Sample> {
    samples.skip(leading(samples, older_than(series.min_timestamp())) as int)
}

/// Whether a sample has the time `t`, as a function.
pub open spec fn at_time(t: Timestamp) -> spec_fn(Sample) -> bool {
    |x: Sample| x.timestamp == t
}

/// Whether a chunk holds no sample at the time of a sample, as a function.
pub open spec fn free_in(c: ChunkView) -> spec_fn(Sample) -> bool {
    |x: Sample| !crate::chunk::taken(c.samples, x.timestamp)
}

/// How many of `samples` go to the first of the new chunks: as many as it takes, and those behind
/// them that have the time of the last one.
pub open spec fn first_run(samples: Seq<Sample>, capacity: nat) -> nat {
    if samples.len() <= capacity || capacity == 0 {
        samples.len()
    } else {
        capacity + leading(
            samples.skip(capacity as int),
            at_time(samples[capacity - 1].timestamp),
        )
    }
}

/// The groups of new chunks that a run of samples is put into.
pub open spec fn new_groups(samples: Seq<Sample>, capacity: nat) -> Seq<GroupView>
    decreases samples.len(),
{
    if samples.len() == 0 || capacity == 0 {
        Seq::empty()
    } else {
        proof {
            lemma_first_run(samples, capacity);
        }
        let n = first_run(samples, capacity) as int;
        seq![GroupView { chunk: ChunkHolder::New, samples: samples.take(n) }] + new_groups(
            samples.skip(n),
            capacity,
        )
    }
}

/// How many more samples a chunk is trusted to take.
pub open spec fn room_of(c: ChunkView) -> nat {
    let full = crate::chunk::capacity_of(c.encoding, c.max_size);
    let len = c.samples.len();
    let room = if full > len {
        (full - len) as nat
    } else {
        0
    };
    crate::chunk::trusted_room(room, len, c.encoding == ChunkEncoding::Compressed)
}

/// How many samples at the front of `run` stay with the chunk `c`, which is trusted with `room` more:
/// those at times that it holds, and others as long as there is room for all at the same time.
pub open spec fn staying(c: ChunkView, run: Seq<Sample>, room: nat) -> nat
    decreases run.len(),
{
    if run.len() == 0 {
        0
    } else {
        proof {
            lemma_leading(run, at_time(run[0].timestamp));
        }
        let n = leading(run, at_time(run[0].timestamp));
        if crate::chunk::taken(c.samples, run[0].timestamp) {
            n + staying(c, run.skip(n as int), room)
        } else if n <= room {
            n + staying(c, run.skip(n as int), (room - n) as nat)
        } else {
            0
        }
    }
}

/// The groups of `run`, which lies in the range of the chunk `c` with the index `idx`: what stays
/// with the chunk, and new chunks for what it has no room for.
pub open spec fn chunk_groups(
    c: ChunkView,
    idx: int,
    run: Seq<Sample>,
    room: nat,
    capacity: nat,
) -> Seq<GroupView>
    decreases run.len(),
{
    if run.len() == 0 {
        Seq::empty()
    } else {
        proof {
            lemma_staying(c, run, room);
            lemma_leading(run, free_in(c));
        }
        let n = staying(c, run, room) as int;
        let m = leading(run, free_in(c)) as int;
        if n > 0 {
            seq![
                GroupView {
                    chunk: ChunkHolder::ExistingIdx(idx as usize),
                    samples: run.take(n),
                },
            ] + chunk_groups(c, idx, run.skip(n), 0, capacity)
        } else {
            new_groups(run.take(m), capacity) + chunk_groups(c, idx, run.skip(m), 0, capacity)
        }
    }
}

/// The groups of `rest` over the chunks from `idx` on: new chunks for what is older than the next
/// chunk, then what lies in the range of that chunk, and so on; what is left behind the last chunk
/// goes to new ones.
pub open spec fn existing_groups(
    chunks: Seq<ChunkView>,
    idx: int,
    rest: Seq<Sample>,
    capacity: nat,
) -> Seq<GroupView>
    decreases chunks.len() - idx,
{
    if idx < 0 || idx >= chunks.len() {
        new_groups(rest, capacity)
    } else {
        let c = chunks[idx];
        let n = leading(rest, older_than(c.first_timestamp())) as int;
        let left = rest.skip(n);
        let m = leading(left, in_range_of(c)) as int;
        new_groups(rest.take(n), capacity) + chunk_groups(
            c,
            idx,
            left.take(m),
            room_of(c),
            capacity,
        ) + existing_groups(chunks, idx + 1, left.skip(m), capacity)
    }
}

/// The capacity of a new chunk of the series.
pub open spec fn new_capacity(series: SeriesView) -> nat {
    crate::chunk::capacity_of(series.chunk_compression, series.chunk_size_bytes)
}

/// The groups that `samples` are put into.
pub open spec fn grouped(series: SeriesView, samples: Seq<Sample>) -> Seq<GroupView> {
    existing_groups(series.chunks, 0, admitted(series, samples), new_capacity(series))
}

/// The samples of all groups, group after group.
pub open spec fn grouped_samples(groups: Seq<GroupView>) -> Seq<Sample>
    decreases groups.len(),
{
    if groups.len() == 0 {
        Seq::empty()
    } else {
        grouped_samples(groups.drop_last()) + groups.last().samples
    }
}

/// Whether a new chunk that takes `capacity` samples is given no more times than that.
pub open spec fn fits(samples: Seq<Sample>, capacity: nat) -> bool {
    forall|i: int|
        capacity <= i < samples.len() ==> (#[trigger] samples[i]).timestamp == samples[capacity
            - 1].timestamp
}

/// Whether a group has samples and a place for all of them: a chunk whose range they lie in, or a
/// new chunk that takes `capacity` samples.
pub open spec fn placed(g: GroupView, chunks: Seq<ChunkView>, capacity: nat) -> bool {
    &&& g.samples.len() > 0
    &&& match g.chunk {
        ChunkHolder::ExistingIdx(k) => k < chunks.len() && forall|i: int|
            0 <= i < g.samples.len() ==> chunks[k as int].covers(
                (#[trigger] g.samples[i]).timestamp,
            ),
        ChunkHolder::New => fits(g.samples, capacity),
    }
}

/// Whether the groups name chunks in ascending order, none before `from`.
pub open spec fn ascending_targets(groups: Seq<GroupView>, from: int) -> bool {
    &&& forall|i: int|
        0 <= i < groups.len() && (#[trigger] groups[i]).chunk is ExistingIdx
            ==> groups[i].chunk->ExistingIdx_0 >= from
    &&& forall|i: int, j: int|
        0 <= i < j < groups.len() && (#[trigger] groups[i]).chunk is ExistingIdx && (
        #[trigger] groups[j]).chunk is ExistingIdx ==> groups[i].chunk->ExistingIdx_0
            <= groups[j].chunk->ExistingIdx_0
}

pub proof fn lemma_first_run(samples: Seq<Sample>, capacity: nat)
    requires
        samples.len() > 0,
        capacity > 0,
    ensures
        0 < first_run(samples, capacity) <= samples.len(),
        fits(samples.take(first_run(samples, capacity) as int), capacity),
{
    if samples.len() > capacity {
        let f = at_time(samples[capacity - 1].timestamp);
        let rest = samples.skip(capacity as int);
        lemma_leading(rest, f);
        let run = samples.take(first_run(samples, capacity) as int);
        assert forall|i: int| capacity <= i < run.len() implies (#[trigger] run[i]).timestamp
            == run[capacity - 1].timestamp by {
            assert(f(rest[i - capacity]));
        }
    }
}

pub proof fn lemma_staying(c: ChunkView, run: Seq<Sample>, room: nat)
    ensures
        staying(c, run, room) <= run.len(),
        run.len() > 0 && staying(c, run, room) == 0 ==> free_in(c)(run[0]),
    decreases run.len(),
{
    if run.len() > 0 {
        let f = at_time(run[0].timestamp);
        lemma_leading(run, f);
        let n = leading(run, f);
        assert(f(run[0]));
        if crate::chunk::taken(c.samples, run[0].timestamp) {
            lemma_staying(c, run.skip(n as int), room);
        } else if n <= room {
            lemma_staying(c, run.skip(n as int), (room - n) as nat);
        }
    }
}

pub(crate) proof fn lemma_grouped_samples_add(a: Seq<GroupView>, b: Seq<GroupView>)
    ensures
        grouped_samples(a + b) == grouped_samples(a) + grouped_samples(b),
    decreases b.len(),
{
    if b.len() == 0 {
        assert(a + b =~= a);
    } else {
        assert((a + b).drop_last() =~= a + b.drop_last());
        lemma_grouped_samples_add(a, b.drop_last());
    }
}

pub(crate) proof fn lemma_grouped_samples_one(g: GroupView)
    ensures
        grouped_samples(seq![g]) == g.samples,
{
    assert(seq![g].drop_last() =~= Seq::<GroupView>::empty());
    assert(grouped_samples(seq![g].drop_last()) =~= Seq::<Sample>::empty());
    assert(Seq::<Sample>::empty() + g.samples =~= g.samples);
}

/// Whether every group has samples and a place, the chunks that are named are in order, and the
/// groups hold exactly `run`.
pub(crate) open spec fn holds(
    groups: Seq<GroupView>,
    run: Seq<Sample>,
    chunks: Seq<ChunkView>,
    capacity: nat,
    from: int,
) -> bool {
    &&& grouped_samples(groups) == run
    &&& ascending_targets(groups, from)
    &&& forall|i: int| 0 <= i < groups.len() ==> placed(#[trigger] groups[i], chunks, capacity)
}

proof fn lemma_holds_add(
    a: Seq<GroupView>,
    b: Seq<GroupView>,
    run: Seq<Sample>,
    rest: Seq<Sample>,
    chunks: Seq<ChunkView>,
    capacity: nat,
    from: int,
)
    requires
        holds(a, run, chunks, capacity, from),
        holds(b, rest, chunks, capacity, from),
        forall|i: int, j: int|
            0 <= i < a.len() && 0 <= j < b.len() && (#[trigger] a[i]).chunk is ExistingIdx && (
            #[trigger] b[j]).chunk is ExistingIdx ==> a[i].chunk->ExistingIdx_0
                <= b[j].chunk->ExistingIdx_0,
    ensures
        holds(a + b, run + rest, chunks, capacity, from),
{
    let all = a + b;
    lemma_grouped_samples_add(a, b);
    assert forall|i: int| 0 <= i < all.len() implies placed(#[trigger] all[i], chunks, capacity)
        && (all[i].chunk is ExistingIdx ==> all[i].chunk->ExistingIdx_0 >= from) by {
        if i < a.len() {
            assert(all[i] == a[i]);
        } else {
            assert(all[i] == b[i - a.len()]);
        }
    }
    assert forall|i: int, j: int|
        0 <= i < j < all.len() && (#[trigger] all[i]).chunk is ExistingIdx && (
        #[trigger] all[j]).chunk is ExistingIdx implies all[i].chunk->ExistingIdx_0
        <= all[j].chunk->ExistingIdx_0 by {
        if j < a.len() {
            assert(all[i] == a[i] && all[j] == a[j]);
        } else if i < a.len() {
            assert(all[i] == a[i] && all[j] == b[j - a.len()]);
        } else {
            assert(all[i] == b[i - a.len()] && all[j] == b[j - a.len()]);
        }
    }
}

pub(crate) proof fn lemma_new_groups(
    samples: Seq<Sample>,
    chunks: Seq<ChunkView>,
    capacity: nat,
    from: int,
)
    requires
        capacity > 0,
    ensures
        holds(new_groups(samples, capacity), samples, chunks, capacity, from),
        forall|i: int|
            0 <= i < new_groups(samples, capacity).len() ==> (#[trigger] new_groups(
                samples,
                capacity,
            )[i]).chunk is New,
    decreases samples.len(),
{
    let groups = new_groups(samples, capacity);
    if samples.len() == 0 {
        assert(grouped_samples(groups) =~= samples);
    } else {
        lemma_first_run(samples, capacity);
        let n = first_run(samples, capacity) as int;
        let g = GroupView { chunk: ChunkHolder::New, samples: samples.take(n) };
        let rest = samples.skip(n);
        lemma_new_groups(rest, chunks, capacity, from);
        lemma_grouped_samples_one(g);
        lemma_holds_add(
            seq![g],
            new_groups(rest, capacity),
            samples.take(n),
            rest,
            chunks,
            capacity,
            from,
        );
        assert(samples.take(n) + rest =~= samples);
        assert forall|i: int| 0 <= i < groups.len() implies (#[trigger] groups[i]).chunk is New by {
            if i > 0 {
                assert(groups[i] == new_groups(rest, capacity)[i - 1]);
            }
        }
    }
}

pub(crate) proof fn lemma_chunk_groups(
    chunks: Seq<ChunkView>,
    idx: int,
    run: Seq<Sample>,
    room: nat,
    capacity: nat,
)
    requires
        capacity > 0,
        0 <= idx < chunks.len() <= usize::MAX,
        forall|i: int| 0 <= i < run.len() ==> in_range_of(chunks[idx])(#[trigger] run[i]),
    ensures
        holds(chunk_groups(chunks[idx], idx, run, room, capacity), run, chunks, capacity, idx),
        forall|i: int|
            0 <= i < chunk_groups(chunks[idx], idx, run, room, capacity).len() && (
            #[trigger] chunk_groups(
                chunks[idx],
                idx,
                run,
                room,
                capacity,
            )[i]).chunk is ExistingIdx ==> chunk_groups(
                chunks[idx],
                idx,
                run,
                room,
                capacity,
            )[i].chunk->ExistingIdx_0 == idx,
    decreases run.len(),
{
    let c = chunks[idx];
    let all = chunk_groups(c, idx, run, room, capacity);
    if run.len() == 0 {
        assert(grouped_samples(all) =~= run);
    } else {
        lemma_staying(c, run, room);
        lemma_leading(run, free_in(c));
        let n = staying(c, run, room) as int;
        let m = leading(run, free_in(c)) as int;
        let k = if n > 0 {
            n
        } else {
            m
        };
        let g = GroupView { chunk: ChunkHolder::ExistingIdx(idx as usize), samples: run.take(n) };
        let here = if n > 0 {
            seq![g]
        } else {
            new_groups(run.take(m), capacity)
        };
        let rest = run.skip(k);
        let tail = chunk_groups(c, idx, rest, 0, capacity);
        assert forall|i: int| 0 <= i < rest.len() implies in_range_of(c)(#[trigger] rest[i]) by {
            assert(in_range_of(c)(run[k + i]));
        }
        lemma_chunk_groups(chunks, idx, rest, 0, capacity);
        lemma_new_groups(run.take(m), chunks, capacity, idx);
        if n > 0 {
            lemma_grouped_samples_one(g);
            assert forall|i: int| 0 <= i < g.samples.len() implies c.covers(
                (#[trigger] g.samples[i]).timestamp,
            ) by {
                assert(in_range_of(c)(run[i]));
            }
        }
        lemma_holds_add(here, tail, run.take(k), rest, chunks, capacity, idx);
        assert(run.take(k) + rest =~= run);
        assert forall|i: int|
            0 <= i < all.len() && (#[trigger] all[i]).chunk is ExistingIdx implies all[i].chunk->ExistingIdx_0
            == idx by {
            if i < here.len() {
                assert(all[i] == here[i]);
            } else {
                assert(all[i] == tail[i - here.len()]);
            }
        }
    }
}

pub(crate) proof fn lemma_existing_groups(
    chunks: Seq<ChunkView>,
    idx: int,
    rest: Seq<Sample>,
    capacity: nat,
)
    requires
        capacity > 0,
        0 <= idx <= chunks.len() <= usize::MAX,
    ensures
        holds(existing_groups(chunks, idx, rest, capacity), rest, chunks, capacity, idx),
    decreases chunks.len() - idx,
{
    if idx >= chunks.len() {
        lemma_new_groups(rest, chunks, capacity, idx);
    } else {
        let c = chunks[idx];
        lemma_leading(rest, older_than(c.first_timestamp()));
        let n = leading(rest, older_than(c.first_timestamp())) as int;
        let left = rest.skip(n);
        lemma_leading(left, in_range_of(c));
        let m = leading(left, in_range_of(c)) as int;
        let run = left.take(m);
        let gap = new_groups(rest.take(n), capacity);
        let here = chunk_groups(c, idx, run, room_of(c), capacity);
        let tail = existing_groups(chunks, idx + 1, left.skip(m), capacity);
        lemma_new_groups(rest.take(n), chunks, capacity, idx);
        assert forall|i: int| 0 <= i < run.len() implies in_range_of(c)(#[trigger] run[i]) by {
            assert(in_range_of(c)(left[i]));
        }
        lemma_chunk_groups(chunks, idx, run, room_of(c), capacity);
        lemma_existing_groups(chunks, idx + 1, left.skip(m), capacity);
        lemma_holds_add(gap, here, rest.take(n), run, chunks, capacity, idx);
        let front = gap + here;
        assert forall|i: int|
            0 <= i < front.len() && (
            #[trigger] front[i]).chunk is ExistingIdx implies front[i].chunk->ExistingIdx_0
            == idx by {
            if i < gap.len() {
                assert(front[i] == gap[i]);
            } else {
                assert(front[i] == here[i - gap.len()]);
            }
        }
        lemma_holds_add(front, tail, rest.take(n) + run, left.skip(m), chunks, capacity, idx);
        assert(rest.take(n) + run + left.skip(m) =~= rest);
    }
}

/// The groups hold exactly the samples that the retention lets in, in their order. Every group has
/// samples, and a chunk that takes them; the chunks are named in their order.
pub proof fn law_grouping(series: SeriesView, samples: Seq<Sample>)
    requires
        series.wf(),
        series.chunks.len() <= usize::MAX,
    ensures
        grouped_samples(grouped(series, samples)) == admitted(series, samples),
        forall|i: int|
            0 <= i < grouped(series, samples).len() ==> placed(
                #[trigger] grouped(series, samples)[i],
                series.chunks,
                new_capacity(series),
            ),
        ascending_targets(grouped(series, samples), 0),
{
    lemma_existing_groups(
        series.chunks,
        0,
        admitted(series, samples),
        new_capacity(series),
    );
}

proof fn lemma_leading_is(s: Seq<Sample>, f: spec_fn(Sample) -> bool, n: nat)
    requires
        n <= s.len(),
        forall|i: int| 0 <= i < n ==> f(#[trigger] s[i]),
        n < s.len() ==> !f(s[n as int]),
    ensures
        leading(s, f) == n,
    decreases s.len(),
{
    if n > 0 {
        assert(f(s[0]));
        let d = s.drop_first();
        assert forall|i: int| 0 <= i < n - 1 implies f(#[trigger] d[i]) by {
            assert(d[i] == s[i + 1]);
        }
        if n < s.len() {
            assert(d[n - 1] == s[n as int]);
        }
        lemma_leading_is(d, f, (n - 1) as nat);
    }
}

pub proof fn lemma_leading(s: Seq<Sample>, f: spec_fn(Sample) -> bool)
    ensures
        leading(s, f) <= s.len(),
        forall|i: int| 0 <= i < leading(s, f) ==> f(#[trigger] s[i]),
        leading(s, f) < s.len() ==> !f(s[leading(s, f) as int]),
    decreases s.len(),
{
    if s.len() > 0 && f(s[0]) {
        let d = s.drop_first();
        lemma_leading(d, f);
        assert forall|i: int| 0 <= i < leading(s, f) implies f(#[trigger] s[i]) by {
            if i > 0 {
                assert(d[i - 1] == s[i]);
            }
        }
        if leading(s, f) < s.len() {
            assert(d[leading(d, f) as int] == s[leading(s, f) as int]);
        }
    }
}

/// The oldest time that the retention of the series lets in.
pub fn get_min_allowed_timestamp(series: &TimeSeries) -> (r: Timestamp)
    ensures
        r == series@.min_timestamp(),
        r >= 0,
{
    if series.retention == 0 {
        0
    } else {
        series.get_min_timestamp()
    }
}

/// How many more samples a chunk is trusted to take.
pub fn calculate_capacity(chunk: &TimeSeriesChunk) -> (r: usize)
    ensures
        r == room_of(chunk@),
{
    let capacity: usize = chunk.estimate_remaining_sample_capacity();
    if capacity > 0 && chunk.len() < crate::chunk::EARLY_CHUNK_SAMPLE_THRESHOLD
        && chunk.is_compressed() {
        let exact: u128 = binary64::round_to_53_bits(capacity as u128);
        let factor: u128 = crate::chunk::EARLY_CHUNK_CAPACITY_FACTOR as u128;
        assert(exact * factor < 0x40_0000_0000_0000_0000_0000_0000_0000) by (nonlinear_arith)
            requires
                exact <= 2 * 0x1_0000_0000_0000_0000,
                factor == 6305039478318694,
        ;
        let product: u128 = binary64::round_to_53_bits(exact * factor);
        let share: u128 = product / 0x20_0000_0000_0000;
        if share < 1 {
            1
        } else {
            share as usize
        }
    } else {
        capacity
    }
}

/// The longest run of samples from `start` on that are older than `t`: where it ends.
fn skip_older(samples: &[Sample], start: usize, t: Timestamp) -> (r: usize)
    requires
        start <= samples@.len(),
    ensures
        start <= r <= samples@.len(),
        r - start == leading(samples@.skip(start as int), older_than(t)),
{
    let mut i: usize = start;
    let ghost rest = samples@.skip(start as int);
    while i < samples.len() && samples[i].timestamp < t
        invariant
            start <= i <= samples@.len(),
            rest == samples@.skip(start as int),
            forall|k: int| 0 <= k < i - start ==> older_than(t)(#[trigger] rest[k]),
        decreases samples@.len() - i,
    {
        assert(rest[i - start] == samples@[i as int]);
        i = i + 1;
    }
    proof {
        if i < samples@.len() {
            assert(rest[i - start] == samples@[i as int]);
        }
        lemma_leading_is(rest, older_than(t), (i - start) as nat);
    }
    i
}

/// The longest run of samples from `start` on that lie in the range of `chunk`: where it ends.
fn skip_covered(samples: &[Sample], start: usize, chunk: &TimeSeriesChunk) -> (r: usize)
    requires
        start <= samples@.len(),
    ensures
        start <= r <= samples@.len(),
        r - start == leading(samples@.skip(start as int), in_range_of(chunk@)),
{
    let mut i: usize = start;
    let ghost rest = samples@.skip(start as int);
    while i < samples.len() && chunk.is_timestamp_in_range(samples[i].timestamp)
        invariant
            start <= i <= samples@.len(),
            rest == samples@.skip(start as int),
            forall|k: int| 0 <= k < i - start ==> in_range_of(chunk@)(#[trigger] rest[k]),
        decreases samples@.len() - i,
    {
        assert(rest[i - start] == samples@[i as int]);
        i = i + 1;
    }
    proof {
        if i < samples@.len() {
            assert(rest[i - start] == samples@[i as int]);
        }
        lemma_leading_is(rest, in_range_of(chunk@), (i - start) as nat);
    }
    i
}

/// The longest run of samples from `start` on that have the time `t`: where it ends.
fn skip_same(samples: &[Sample], start: usize, t: Timestamp) -> (r: usize)
    requires
        start <= samples@.len(),
    ensures
        start <= r <= samples@.len(),
        r - start == leading(samples@.skip(start as int), at_time(t)),
{
    let mut i: usize = start;
    let ghost rest = samples@.skip(start as int);
    while i < samples.len() && samples[i].timestamp == t
        invariant
            start <= i <= samples@.len(),
            rest == samples@.skip(start as int),
            forall|k: int| 0 <= k < i - start ==> at_time(t)(#[trigger] rest[k]),
        decreases samples@.len() - i,
    {
        assert(rest[i - start] == samples@[i as int]);
        i = i + 1;
    }
    proof {
        if i < samples@.len() {
            assert(rest[i - start] == samples@[i as int]);
        }
        lemma_leading_is(rest, at_time(t), (i - start) as nat);
    }
    i
}

/// The longest run of samples from `start` on at times that `chunk` does not hold: where it ends.
fn skip_free(samples: &[Sample], start: usize, chunk: &TimeSeriesChunk) -> (r: usize)
    requires
        start <= samples@.len(),
        chunk@.wf(),
    ensures
        start <= r <= samples@.len(),
        r - start == leading(samples@.skip(start as int), free_in(chunk@)),
{
    let mut i: usize = start;
    let ghost rest = samples@.skip(start as int);
    while i < samples.len() && !chunk.has_timestamp(samples[i].timestamp)
        invariant
            start <= i <= samples@.len(),
            chunk@.wf(),
            rest == samples@.skip(start as int),
            forall|k: int| 0 <= k < i - start ==> free_in(chunk@)(#[trigger] rest[k]),
        decreases samples@.len() - i,
    {
        assert(rest[i - start] == samples@[i as int]);
        i = i + 1;
    }
    proof {
        if i < samples@.len() {
            assert(rest[i - start] == samples@[i as int]);
        }
        lemma_leading_is(rest, free_in(chunk@), (i - start) as nat);
    }
    i
}

/// The longest run of samples from `start` on that stay with `chunk`, which is trusted with `room`
/// more: where it ends.
fn skip_staying(samples: &[Sample], start: usize, chunk: &TimeSeriesChunk, room: usize) -> (r: usize)
    requires
        start <= samples@.len(),
        chunk@.wf(),
    ensures
        start <= r <= samples@.len(),
        r - start == staying(chunk@, samples@.skip(start as int), room as nat),
{
    let mut i: usize = start;
    let mut left: usize = room;
    let ghost goal = staying(chunk@, samples@.skip(start as int), room as nat);
    while i < samples.len()
        invariant
            start <= i <= samples@.len(),
            chunk@.wf(),
            goal == staying(chunk@, samples@.skip(start as int), room as nat),
            goal == (i - start) + staying(chunk@, samples@.skip(i as int), left as nat),
        decreases samples@.len() - i,
    {
        let ghost rest = samples@.skip(i as int);
        assert(rest[0] == samples@[i as int]);
        let t: Timestamp = samples[i].timestamp;
        let end: usize = skip_same(samples, i, t);
        let n: usize = end - i;
        proof {
            lemma_leading(rest, at_time(t));
            assert(at_time(t)(rest[0]));
            assert(rest.skip(n as int) =~= samples@.skip(end as int));
        }
        if chunk.has_timestamp(t) {
            i = end;
        } else if n <= left {
            left = left - n;
            i = end;
        } else {
            return i;
        }
    }
    i
}

/// Appends the groups of new chunks that `samples` are put into.
pub fn add_chunks_for_remaining_samples<'a>(
    dest: &mut Vec<ChunkSampleGroup<'a>>,
    series: &TimeSeries,
    samples: &'a [Sample],
)
    requires
        new_capacity(series@) > 0,
    ensures
        final(dest)@.map_values(group_view()) == old(dest)@.map_values(group_view()) + new_groups(
            samples@,
            new_capacity(series@),
        ),
{
    let ghost base = dest@.map_values(group_view());
    let ghost capacity_spec = new_capacity(series@);
    let n: usize = samples.len();
    if n == 0 {
        assert(new_groups(samples@, capacity_spec) =~= Seq::<GroupView>::empty());
        assert(base + new_groups(samples@, capacity_spec) =~= base);
        return;
    }
    let capacity: usize = sample_capacity(series.chunk_compression, series.chunk_size_bytes);
    let ghost goal = base + new_groups(samples@, capacity as nat);
    let mut pos: usize = 0;
    assert(samples@.skip(0) =~= samples@);
    while pos < n
        invariant
            pos <= n,
            n == samples@.len(),
            capacity > 0,
            dest@.map_values(group_view()) + new_groups(samples@.skip(pos as int), capacity as nat)
                == goal,
        decreases n - pos,
    {
        let ghost rest = samples@.skip(pos as int);
        let ghost views = dest@.map_values(group_view());
        let end: usize = if n - pos <= capacity {
            n
        } else {
            assert(rest[capacity - 1] == samples@[pos + capacity - 1]);
            assert(rest.skip(capacity as int) =~= samples@.skip(pos + capacity));
            skip_same(samples, pos + capacity, samples[pos + capacity - 1].timestamp)
        };
        let ghost m = (end - pos) as int;
        assert(m == first_run(rest, capacity as nat));
        proof {
            lemma_first_run(rest, capacity as nat);
        }
        let piece: &'a [Sample] = vstd::slice::slice_subrange(samples, pos, end);
        let group: ChunkSampleGroup<'a> = ChunkSampleGroup {
            chunk: ChunkHolder::New,
            samples: piece,
        };
        let ghost view = group@;
        dest.push(group);
        proof {
            assert(piece@ =~= rest.take(m));
            assert(rest.skip(m) =~= samples@.skip(end as int));
            let tail = new_groups(samples@.skip(end as int), capacity as nat);
            assert(dest@.map_values(group_view()) =~= views.push(view));
            assert(new_groups(rest, capacity as nat) == seq![view] + tail);
            assert(views.push(view) + tail =~= views + (seq![view] + tail));
        }
        pos = end;
    }
    assert(new_groups(samples@.skip(pos as int), capacity as nat) =~= Seq::<GroupView>::empty());
    assert(dest@.map_values(group_view()) =~= goal);
}

/// Appends the groups of `samples`, which lie in the range of the chunk with the index `idx`.
fn add_groups_for_chunk<'a>(
    dest: &mut Vec<ChunkSampleGroup<'a>>,
    series: &TimeSeries,
    idx: usize,
    samples: &'a [Sample],
)
    requires
        new_capacity(series@) > 0,
        idx < series@.chunks.len(),
        series@.chunks[idx as int].wf(),
    ensures
        final(dest)@.map_values(group_view()) == old(dest)@.map_values(group_view()) + chunk_groups(
            series@.chunks[idx as int],
            idx as int,
            samples@,
            room_of(series@.chunks[idx as int]),
            new_capacity(series@),
        ),
{
    let chunk: &TimeSeriesChunk = &series.chunks[idx];
    let ghost c = series@.chunks[idx as int];
    assert(c == chunk@);
    let ghost capacity = new_capacity(series@);
    let ghost base = dest@.map_values(group_view());
    let mut room: usize = calculate_capacity(chunk);
    let ghost goal = base + chunk_groups(c, idx as int, samples@, room as nat, capacity);
    let n: usize = samples.len();
    let mut pos: usize = 0;
    assert(samples@.skip(0) =~= samples@);
    while pos < n
        invariant
            pos <= n,
            n == samples@.len(),
            c == chunk@,
            c.wf(),
            capacity == new_capacity(series@),
            capacity > 0,
            dest@.map_values(group_view()) + chunk_groups(
                c,
                idx as int,
                samples@.skip(pos as int),
                room as nat,
                capacity,
            ) == goal,
        decreases n - pos,
    {
        let ghost rest = samples@.skip(pos as int);
        let ghost views = dest@.map_values(group_view());
        proof {
            lemma_staying(c, rest, room as nat);
            lemma_leading(rest, free_in(c));
        }
        let stay: usize = skip_staying(samples, pos, chunk, room);
        if stay > pos {
            let piece: &'a [Sample] = vstd::slice::slice_subrange(samples, pos, stay);
            let group: ChunkSampleGroup<'a> = ChunkSampleGroup {
                chunk: ChunkHolder::ExistingIdx(idx),
                samples: piece,
            };
            let ghost view = group@;
            dest.push(group);
            proof {
                let m = (stay - pos) as int;
                assert(piece@ =~= rest.take(m));
                assert(rest.skip(m) =~= samples@.skip(stay as int));
                let tail = chunk_groups(c, idx as int, samples@.skip(stay as int), 0, capacity);
                assert(dest@.map_values(group_view()) =~= views.push(view));
                assert(views.push(view) + tail =~= views + (seq![view] + tail));
            }
            pos = stay;
        } else {
            let end: usize = skip_free(samples, pos, chunk);
            let piece: &'a [Sample] = vstd::slice::slice_subrange(samples, pos, end);
            add_chunks_for_remaining_samples(dest, series, piece);
            proof {
                let m = (end - pos) as int;
                assert(piece@ =~= rest.take(m));
                assert(rest.skip(m) =~= samples@.skip(end as int));
                let here = new_groups(rest.take(m), capacity);
                let tail = chunk_groups(c, idx as int, samples@.skip(end as int), 0, capacity);
                assert((views + here) + tail =~= views + (here + tail));
                assert(free_in(c)(rest[0]));
            }
            pos = end;
        }
        room = 0;
    }
    assert(dest@.map_values(group_view()) =~= goal);
}

/// Groups `samples`, which are in order of time, by the chunk that each goes to.
///
/// Samples older than the retention are left out. A sample in the range of a chunk goes to it where
/// the chunk holds its time or has room; every other sample goes to a new chunk.
pub fn group_samples_by_chunk<'a>(series: &TimeSeries, samples: &'a [Sample]) -> (r: Vec<
    ChunkSampleGroup<'a>,
>)
    requires
        series@.wf(),
    ensures
        r@.map_values(group_view()) == grouped(series@, samples@),
{
    let mut out: Vec<ChunkSampleGroup<'a>> = Vec::new();
    let ghost capacity = new_capacity(series@);
    let ghost chunks = series@.chunks;
    let min_allowed: Timestamp = get_min_allowed_timestamp(series);
    let ghost kept = admitted(series@, samples@);
    assert(samples@.skip(0) =~= samples@);
    let from: usize = skip_older(samples, 0, min_allowed);
    let kept_samples: &'a [Sample] = vstd::slice::slice_subrange(samples, from, samples.len());
    let n: usize = kept_samples.len();
    assert(kept_samples@ =~= kept);
    let ghost goal = grouped(series@, samples@);
    let count: usize = series.chunks.len();
    let mut i: usize = 0;
    let mut idx: usize = 0;
    assert(kept.skip(0) =~= kept);
    assert(out@.map_values(group_view()) + goal =~= goal);
    while idx < count
        invariant
            idx <= count,
            count == chunks.len(),
            goal == grouped(series@, samples@),
            chunks == series@.chunks,
            series@.wf(),
            i <= n,
            n == kept.len(),
            kept == kept_samples@,
            capacity == new_capacity(series@),
            capacity > 0,
            out@.map_values(group_view()) + existing_groups(
                chunks,
                idx as int,
                kept.skip(i as int),
                capacity,
            ) == goal,
        decreases count - idx,
    {
        let ghost views = out@.map_values(group_view());
        let ghost rest = kept.skip(i as int);
        let chunk: &TimeSeriesChunk = &series.chunks[idx];
        assert(chunks[idx as int] == chunk@);
        let gap_end: usize = skip_older(kept_samples, i, chunk.first_timestamp());
        let gap: &'a [Sample] = vstd::slice::slice_subrange(kept_samples, i, gap_end);
        let end: usize = skip_covered(kept_samples, gap_end, chunk);
        let run: &'a [Sample] = vstd::slice::slice_subrange(kept_samples, gap_end, end);
        let ghost a = (gap_end - i) as int;
        let ghost b = (end - gap_end) as int;
        assert(gap@ =~= rest.take(a));
        assert(rest.skip(a) =~= kept.skip(gap_end as int));
        assert(run@ =~= rest.skip(a).take(b));
        assert(rest.skip(a).skip(b) =~= kept.skip(end as int));
        add_chunks_for_remaining_samples(&mut out, series, gap);
        add_groups_for_chunk(&mut out, series, idx, run);
        proof {
            let x = new_groups(gap@, capacity);
            let y = chunk_groups(chunk@, idx as int, run@, room_of(chunk@), capacity);
            let z = existing_groups(chunks, idx + 1, kept.skip(end as int), capacity);
            assert(((views + x) + y) + z =~= views + (x + y + z));
        }
        i = end;
        idx = idx + 1;
    }
    let rest: &'a [Sample] = vstd::slice::slice_subrange(kept_samples, i, n);
    assert(rest@ =~= kept.skip(i as int));
    add_chunks_for_remaining_samples(&mut out, series, rest);
    out
}

} // verus!
