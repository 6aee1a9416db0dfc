//! Chunks: runs of samples in order of time.
use vstd::prelude::*;

use crate::binary64;
use crate::common::{DuplicatePolicy, Sample, SampleAddResult, Timestamp};
use crate::sorting::Timed;

verus! {

/// The bytes of one sample: a timestamp and a value.
pub const SAMPLE_SIZE: usize = 16;

/// Chunks with fewer samples than this take part in the estimate of a young chunk's capacity.
pub const EARLY_CHUNK_SAMPLE_THRESHOLD: usize = 10;

/// The significand of the binary64 number nearest to 0.7, the share of the estimated room that
/// a young compressed chunk is trusted with; its unit is `2^-53`.
pub const EARLY_CHUNK_CAPACITY_FACTOR: u64 = 6305039478318694;

/// How a chunk stores its samples.
#[derive(Debug, Clone, Copy, PartialEq, Eq, Structural)]
pub enum ChunkEncoding {
    Compressed,
    Uncompressed,
}

/// A run of samples in strictly ascending order of time.
#[derive(Debug)]
pub struct TimeSeriesChunk {
    pub encoding: ChunkEncoding,
    pub max_size: usize,
    pub samples: Vec<Sample>,
}

/// What a chunk holds.
#[verifier::ext_equal]
pub struct ChunkView {
    pub encoding: ChunkEncoding,
    pub max_size: usize,
    pub samples: Seq<Sample>,
}

impl View for TimeSeriesChunk {
    type V = ChunkView;

    open spec fn view(&self) -> ChunkView {
        ChunkView { encoding: self.encoding, max_size: self.max_size, samples: self.samples@ }
    }
}

/// Whether the samples are in strictly ascending order of time.
pub open spec fn ascending(s: Seq<Sample>) -> bool {
    forall|i: int, j: int| 0 <= i < j < s.len() ==> (#[trigger] s[i]).timestamp < (
    #[trigger] s[j]).timestamp
}

/// How many of the ascending samples `s` come before the time `t`.
pub open spec fn rank(s: Seq<Sample>, t: Timestamp) -> nat
    decreases s.len(),
{
    if s.len() == 0 || s.last().timestamp < t {
        s.len()
    } else {
        rank(s.drop_last(), t)
    }
}

/// Whether one of the ascending samples `s` has the time `t`.
pub open spec fn taken(s: Seq<Sample>, t: Timestamp) -> bool {
    rank(s, t) < s.len() && s[rank(s, t) as int].timestamp == t
}

/// The samples after `x` is written into `s`.
pub open spec fn upserted(s: Seq<Sample>, x: Sample, policy: DuplicatePolicy) -> Seq<Sample> {
    let i = rank(s, x.timestamp) as int;
    if taken(s, x.timestamp) {
        match policy.kept(s[i].value, x.value) {
            Some(value) => s.update(i, Sample { timestamp: x.timestamp, value }),
            None => s,
        }
    } else {
        s.insert(i, x)
    }
}

/// The samples after those of `batch` are written into `s`, one after the other.
pub open spec fn merged(s: Seq<Sample>, batch: Seq<Sample>, policy: DuplicatePolicy) -> Seq<Sample>
    decreases batch.len(),
{
    if batch.len() == 0 {
        s
    } else {
        upserted(merged(s, batch.drop_last(), policy), batch.last(), policy)
    }
}

/// Whether one of the samples has the time `t`.
pub open spec fn has_time(samples: Seq<Sample>, t: Timestamp) -> bool {
    exists|i: int| 0 <= i < samples.len() && (#[trigger] samples[i]).timestamp == t
}

/// What becomes of `x`, written when `current` is stored, behind the samples `earlier` of its batch.
pub open spec fn outcome(
    earlier: Seq<Sample>,
    current: Seq<Sample>,
    x: Sample,
    policy: DuplicatePolicy,
) -> SampleAddResult {
    if taken(current, x.timestamp) {
        match policy.kept(current[rank(current, x.timestamp) as int].value, x.value) {
            None => SampleAddResult::Duplicate,
            Some(value) => if has_time(earlier, x.timestamp) {
                SampleAddResult::Merged(Sample { timestamp: x.timestamp, value })
            } else {
                SampleAddResult::Stored(Sample { timestamp: x.timestamp, value })
            },
        }
    } else {
        SampleAddResult::Stored(x)
    }
}

/// What becomes of each sample of `batch` where `s` is stored.
pub open spec fn merge_results(
    s: Seq<Sample>,
    batch: Seq<Sample>,
    policy: DuplicatePolicy,
) -> Seq<SampleAddResult> {
    Seq::new(
        batch.len(),
        |i: int| outcome(batch.take(i), merged(s, batch.take(i), policy), batch[i], policy),
    )
}

impl ChunkView {
    /// Whether the samples are in strictly ascending order of time.
    pub open spec fn wf(self) -> bool {
        ascending(self.samples)
    }

    /// The time of the first sample; 0 where there is none.
    pub open spec fn first_timestamp(self) -> Timestamp {
        if self.samples.len() == 0 {
            0
        } else {
            self.samples[0].timestamp
        }
    }

    /// The time of the last sample; 0 where there is none.
    pub open spec fn last_timestamp(self) -> Timestamp {
        if self.samples.len() == 0 {
            0
        } else {
            self.samples.last().timestamp
        }
    }

    /// Whether `t` lies between the first and the last sample.
    pub open spec fn covers(self, t: Timestamp) -> bool {
        self.first_timestamp() <= t <= self.last_timestamp()
    }

    /// The chunk after `batch` is written into it.
    pub open spec fn merge(self, batch: Seq<Sample>, policy: DuplicatePolicy) -> ChunkView {
        ChunkView { samples: merged(self.samples, batch, policy), ..self }
    }
}

/// An empty chunk.
pub open spec fn empty_chunk(encoding: ChunkEncoding, max_size: usize) -> ChunkView {
    ChunkView { encoding, max_size, samples: Seq::empty() }
}

/// How many samples are put into one chunk of `chunk_size` bytes: compression is trusted to halve
/// the size of a sample.
pub open spec fn capacity_of(encoding: ChunkEncoding, chunk_size: usize) -> nat {
    match encoding {
        ChunkEncoding::Compressed => (chunk_size / 8) as nat,
        ChunkEncoding::Uncompressed => (chunk_size / 16) as nat,
    }
}

/// How many samples are put into one chunk of `chunk_size` bytes.
pub fn sample_capacity(encoding: ChunkEncoding, chunk_size: usize) -> (r: usize)
    ensures
        r == capacity_of(encoding, chunk_size),
{
    match encoding {
        ChunkEncoding::Compressed => chunk_size / (SAMPLE_SIZE / 2),
        ChunkEncoding::Uncompressed => chunk_size / SAMPLE_SIZE,
    }
}

pub(crate) proof fn lemma_rank(s: Seq<Sample>, t: Timestamp)
    requires
        ascending(s),
    ensures
        rank(s, t) <= s.len(),
        forall|i: int| 0 <= i < rank(s, t) ==> (#[trigger] s[i]).timestamp < t,
        forall|i: int| rank(s, t) <= i < s.len() ==> (#[trigger] s[i]).timestamp >= t,
    decreases s.len(),
{
    if s.len() > 0 {
        if s.last().timestamp < t {
        } else {
            lemma_rank(s.drop_last(), t);
            assert forall|i: int| 0 <= i < rank(s, t) implies (#[trigger] s[i]).timestamp < t by {
                assert(s.drop_last()[i] == s[i]);
            }
            assert forall|i: int| rank(s, t) <= i < s.len() implies (#[trigger] s[i]).timestamp
                >= t by {
                if i < s.len() - 1 {
                    assert(s.drop_last()[i] == s[i]);
                }
            }
        }
    }
}

proof fn lemma_rank_is(s: Seq<Sample>, t: Timestamp, n: nat)
    requires
        ascending(s),
        n <= s.len(),
        n > 0 ==> s[n - 1].timestamp < t,
        n < s.len() ==> s[n as int].timestamp >= t,
    ensures
        rank(s, t) == n,
{
    lemma_rank(s, t);
}

/// A time is taken exactly where one of the ascending samples has it.
pub proof fn law_taken(s: Seq<Sample>, t: Timestamp)
    requires
        ascending(s),
    ensures
        taken(s, t) <==> exists|i: int| 0 <= i < s.len() && (#[trigger] s[i]).timestamp == t,
{
    lemma_rank(s, t);
    if exists|i: int| 0 <= i < s.len() && (#[trigger] s[i]).timestamp == t {
        let i = choose|i: int| 0 <= i < s.len() && (#[trigger] s[i]).timestamp == t;
        assert(i >= rank(s, t));
        if i > rank(s, t) {
            assert(s[rank(s, t) as int].timestamp < s[i].timestamp);
        }
    }
}

/// What replacing the value of a sample does.
proof fn lemma_replaced(s: Seq<Sample>, i: int, x: Sample)
    requires
        ascending(s),
        0 <= i < s.len(),
        s[i].timestamp == x.timestamp,
    ensures
        ascending(s.update(i, x)),
        forall|t: Timestamp| #[trigger] taken(s.update(i, x), t) == taken(s, t),
        forall|y: Sample|
            y.timestamp != x.timestamp ==> (#[trigger] s.update(i, x).contains(y) <==> s.contains(
                y,
            )),
{
    let r = s.update(i, x);
    assert forall|a: int, b: int| 0 <= a < b < r.len() implies (#[trigger] r[a]).timestamp < (
    #[trigger] r[b]).timestamp by {
        assert(s[a].timestamp < s[b].timestamp);
    }
    assert forall|t: Timestamp| #[trigger] taken(r, t) == taken(s, t) by {
        lemma_rank(s, t);
        lemma_rank_is(r, t, rank(s, t));
    }
    assert forall|y: Sample| y.timestamp != x.timestamp implies (#[trigger] r.contains(y)
        <==> s.contains(y)) by {
        if s.contains(y) {
            let k = choose|k: int| 0 <= k < s.len() && s[k] == y;
            assert(r[k] == y);
        }
        if r.contains(y) {
            let k = choose|k: int| 0 <= k < r.len() && r[k] == y;
            assert(s[k] == y);
        }
    }
}

/// What inserting a sample at a free time does.
proof fn lemma_inserted(s: Seq<Sample>, x: Sample)
    requires
        ascending(s),
        !taken(s, x.timestamp),
    ensures
        ascending(s.insert(rank(s, x.timestamp) as int, x)),
        taken(s.insert(rank(s, x.timestamp) as int, x), x.timestamp),
        forall|t: Timestamp|
            t != x.timestamp ==> #[trigger] taken(s.insert(rank(s, x.timestamp) as int, x), t)
                == taken(s, t),
        forall|y: Sample|
            y.timestamp != x.timestamp ==> (#[trigger] s.insert(
                rank(s, x.timestamp) as int,
                x,
            ).contains(y) <==> s.contains(y)),
{
    let t = x.timestamp;
    let i = rank(s, t) as int;
    let r = s.insert(i, x);
    lemma_rank(s, t);
    assert(i < s.len() ==> s[i].timestamp > t);
    assert forall|a: int, b: int| 0 <= a < b < r.len() implies (#[trigger] r[a]).timestamp < (
    #[trigger] r[b]).timestamp by {
        if b < i {
            assert(s[a].timestamp < s[b].timestamp);
        } else if b == i {
            assert(s[a].timestamp < t);
        } else if a == i {
            if b - 1 > i {
                assert(s[i].timestamp < s[b - 1].timestamp);
            }
        } else if a < i {
            assert(s[a].timestamp < s[b - 1].timestamp);
        } else {
            assert(s[a - 1].timestamp < s[b - 1].timestamp);
        }
    }
    lemma_rank_is(r, t, i as nat);
    assert forall|u: Timestamp| u != t implies #[trigger] taken(r, u) == taken(s, u) by {
        law_taken(s, u);
        law_taken(r, u);
        if taken(s, u) {
            let k = choose|k: int| 0 <= k < s.len() && (#[trigger] s[k]).timestamp == u;
            assert(r[if k < i { k } else { k + 1 }].timestamp == u);
        }
        if taken(r, u) {
            let k = choose|k: int| 0 <= k < r.len() && (#[trigger] r[k]).timestamp == u;
            assert(s[if k < i { k } else { k - 1 }].timestamp == u);
        }
    }
    assert forall|y: Sample| y.timestamp != t implies (#[trigger] r.contains(y) <==> s.contains(
        y,
    )) by {
        if s.contains(y) {
            let k = choose|k: int| 0 <= k < s.len() && s[k] == y;
            assert(r[if k < i { k } else { k + 1 }] == y);
        }
        if r.contains(y) {
            let k = choose|k: int| 0 <= k < r.len() && r[k] == y;
            assert(s[if k < i { k } else { k - 1 }] == y);
        }
    }
}

/// Writing a sample keeps the order of time; the written time is taken afterwards, every other
/// time is taken just where it was, and every other sample stays as it was.
pub proof fn law_upsert(s: Seq<Sample>, x: Sample, policy: DuplicatePolicy)
    requires
        ascending(s),
    ensures
        ascending(upserted(s, x, policy)),
        taken(upserted(s, x, policy), x.timestamp),
        forall|t: Timestamp|
            t != x.timestamp ==> #[trigger] taken(upserted(s, x, policy), t) == taken(s, t),
        forall|y: Sample|
            y.timestamp != x.timestamp ==> (#[trigger] upserted(s, x, policy).contains(y)
                <==> s.contains(y)),
        upserted(s, x, policy).len() == if taken(s, x.timestamp) {
            s.len()
        } else {
            s.len() + 1
        },
{
    let i = rank(s, x.timestamp) as int;
    lemma_rank(s, x.timestamp);
    if taken(s, x.timestamp) {
        match policy.kept(s[i].value, x.value) {
            Some(value) => {
                lemma_replaced(s, i, Sample { timestamp: x.timestamp, value });
            },
            None => {},
        }
    } else {
        lemma_inserted(s, x);
    }
}

/// Where a sample is written at a taken time, the value there is the one that the policy keeps of
/// the two; a blocked write leaves the value as it was.
pub proof fn law_duplicate_value(s: Seq<Sample>, x: Sample, policy: DuplicatePolicy)
    requires
        ascending(s),
        taken(s, x.timestamp),
    ensures
        ({
            let i = rank(s, x.timestamp) as int;
            let r = upserted(s, x, policy);
            &&& r.len() == s.len()
            &&& r[i].timestamp == x.timestamp
            &&& r[i].value == match policy.kept(s[i].value, x.value) {
                Some(value) => value,
                None => s[i].value,
            }
            &&& forall|k: int| 0 <= k < s.len() && k != i ==> #[trigger] r[k] == s[k]
        }),
{
    lemma_rank(s, x.timestamp);
}

/// Writing a batch keeps the order of time. Afterwards exactly the times that were taken and those
/// of the batch are taken, and every sample at another time than the batch's stays as it was.
pub proof fn law_merge(s: Seq<Sample>, batch: Seq<Sample>, policy: DuplicatePolicy)
    requires
        ascending(s),
    ensures
        ascending(merged(s, batch, policy)),
        forall|t: Timestamp|
            #[trigger] taken(merged(s, batch, policy), t) <==> taken(s, t) || exists|i: int|
                0 <= i < batch.len() && (#[trigger] batch[i]).timestamp == t,
        forall|y: Sample|
            (forall|i: int| 0 <= i < batch.len() ==> (#[trigger] batch[i]).timestamp != y.timestamp)
                ==> (#[trigger] merged(s, batch, policy).contains(y) <==> s.contains(y)),
        s.len() <= merged(s, batch, policy).len() <= s.len() + batch.len(),
        s.len() + batch.len() > 0 ==> merged(s, batch, policy).len() > 0,
    decreases batch.len(),
{
    if batch.len() > 0 {
        let d = batch.drop_last();
        let x = batch.last();
        law_merge(s, d, policy);
        let m = merged(s, d, policy);
        law_upsert(m, x, policy);
        let r = merged(s, batch, policy);
        assert forall|t: Timestamp|
            #[trigger] taken(r, t) <==> taken(s, t) || exists|i: int|
                0 <= i < batch.len() && (#[trigger] batch[i]).timestamp == t by {
            if t == x.timestamp {
                assert(batch[batch.len() - 1].timestamp == t);
            } else {
                assert(taken(r, t) == taken(m, t));
                if exists|i: int| 0 <= i < d.len() && (#[trigger] d[i]).timestamp == t {
                    let i = choose|i: int| 0 <= i < d.len() && (#[trigger] d[i]).timestamp == t;
                    assert(batch[i].timestamp == t);
                }
                if exists|i: int| 0 <= i < batch.len() && (#[trigger] batch[i]).timestamp == t {
                    let i = choose|i: int|
                        0 <= i < batch.len() && (#[trigger] batch[i]).timestamp == t;
                    assert(d[i].timestamp == t);
                }
            }
        }
        assert forall|y: Sample|
            (forall|i: int|
                0 <= i < batch.len() ==> (#[trigger] batch[i]).timestamp
                    != y.timestamp) implies (#[trigger] r.contains(y) <==> s.contains(y)) by {
            assert(batch[batch.len() - 1] == x);
            assert forall|i: int| 0 <= i < d.len() implies (#[trigger] d[i]).timestamp
                != y.timestamp by {
                assert(batch[i] == d[i]);
            }
            assert(m.contains(y) <==> s.contains(y));
        }
    }
}

/// Writing one batch and then another is writing both together.
pub proof fn law_merged_in_parts(
    s: Seq<Sample>,
    a: Seq<Sample>,
    b: Seq<Sample>,
    policy: DuplicatePolicy,
)
    ensures
        merged(merged(s, a, policy), b, policy) == merged(s, a + b, policy),
    decreases b.len(),
{
    if b.len() == 0 {
        assert(a + b =~= a);
    } else {
        law_merged_in_parts(s, a, b.drop_last(), policy);
        assert((a + b).drop_last() =~= a + b.drop_last());
        assert((a + b).last() == b.last());
    }
}

/// Finds how many of the ascending `samples` come before the time `t`, from the end.
fn find_rank(samples: &Vec<Sample>, t: Timestamp) -> (r: usize)
    requires
        ascending(samples@),
    ensures
        r == rank(samples@, t),
        r <= samples@.len(),
{
    let mut r: usize = samples.len();
    while r > 0 && samples[r - 1].timestamp >= t
        invariant
            r <= samples@.len(),
            ascending(samples@),
            r < samples@.len() ==> samples@[r as int].timestamp >= t,
        decreases r,
    {
        r = r - 1;
    }
    proof {
        lemma_rank_is(samples@, t, r as nat);
    }
    r
}

/// Whether one of the samples in front of `end` has the time `t`.
fn came_earlier(batch: &[Sample], end: usize, t: Timestamp) -> (r: bool)
    requires
        end <= batch@.len(),
    ensures
        r == has_time(batch@.take(end as int), t),
{
    let mut i: usize = end;
    let ghost earlier = batch@.take(end as int);
    while i > 0
        invariant
            i <= end <= batch@.len(),
            earlier == batch@.take(end as int),
            forall|k: int| i <= k < end ==> (#[trigger] earlier[k]).timestamp != t,
        decreases i,
    {
        i = i - 1;
        assert(earlier[i as int] == batch@[i as int]);
        if batch[i].timestamp == t {
            return true;
        }
    }
    false
}

/// Why a chunk refused a batch.
#[derive(Debug, Clone, Copy, PartialEq, Eq, Structural)]
pub enum ChunkError {
    /// The samples could not be encoded.
    Encoding,
}

impl TimeSeriesChunk {
    /// An empty chunk of at most `max_size` bytes.
    pub fn new(encoding: ChunkEncoding, max_size: usize) -> (r: Self)
        ensures
            r@ == empty_chunk(encoding, max_size),
            r@.wf(),
    {
        TimeSeriesChunk { encoding, max_size, samples: Vec::new() }
    }

    /// The number of samples.
    pub fn len(&self) -> (r: usize)
        ensures
            r == self@.samples.len(),
    {
        self.samples.len()
    }

    /// Whether there is no sample.
    pub fn is_empty(&self) -> (r: bool)
        ensures
            r == (self@.samples.len() == 0),
    {
        self.samples.len() == 0
    }

    /// Whether the samples are compressed.
    pub fn is_compressed(&self) -> (r: bool)
        ensures
            r == (self@.encoding == ChunkEncoding::Compressed),
    {
        match self.encoding {
            ChunkEncoding::Compressed => true,
            ChunkEncoding::Uncompressed => false,
        }
    }

    /// The time of the first sample; 0 where there is none.
    pub fn first_timestamp(&self) -> (r: Timestamp)
        ensures
            r == self@.first_timestamp(),
    {
        if self.samples.len() == 0 {
            0
        } else {
            self.samples[0].timestamp
        }
    }

    /// The time of the last sample; 0 where there is none.
    pub fn last_timestamp(&self) -> (r: Timestamp)
        ensures
            r == self@.last_timestamp(),
    {
        if self.samples.len() == 0 {
            0
        } else {
            self.samples[self.samples.len() - 1].timestamp
        }
    }

    /// Whether `t` lies between the first and the last sample.
    pub fn is_timestamp_in_range(&self, t: Timestamp) -> (r: bool)
        ensures
            r == self@.covers(t),
    {
        self.first_timestamp() <= t && t <= self.last_timestamp()
    }

    /// Whether one of the samples has the time `t`.
    pub fn has_timestamp(&self, t: Timestamp) -> (r: bool)
        requires
            self@.wf(),
        ensures
            r == taken(self@.samples, t),
    {
        let at: usize = find_rank(&self.samples, t);
        at < self.samples.len() && self.samples[at].timestamp == t
    }

    /// How many more samples the chunk is estimated to take.
    pub fn estimate_remaining_sample_capacity(&self) -> (r: usize)
        ensures
            r == if capacity_of(self@.encoding, self@.max_size) > self@.samples.len() {
                capacity_of(self@.encoding, self@.max_size) - self@.samples.len()
            } else {
                0
            },
    {
        let capacity: usize = sample_capacity(self.encoding, self.max_size);
        capacity.saturating_sub(self.samples.len())
    }

    /// Writes `batch` into the chunk, sample after sample; gives what became of each.
    pub fn merge_samples(&mut self, batch: &[Sample], policy: Option<DuplicatePolicy>) -> (r: Result<
        Vec<SampleAddResult>,
        ChunkError,
    >)
        requires
            old(self)@.wf(),
        ensures
            final(self)@.wf(),
            final(self)@ == old(self)@.merge(batch@, crate::common::policy_or_block(policy)),
            r is Ok,
            r->Ok_0@ == merge_results(
                old(self)@.samples,
                batch@,
                crate::common::policy_or_block(policy),
            ),
    {
        let policy: DuplicatePolicy = match policy {
            Some(p) => p,
            None => DuplicatePolicy::Block,
        };
        let ghost start = self.samples@;
        let mut results: Vec<SampleAddResult> = Vec::with_capacity(batch.len());
        let mut i: usize = 0;
        while i < batch.len()
            invariant
                i <= batch@.len(),
                ascending(start),
                ascending(self.samples@),
                self.encoding == old(self)@.encoding,
                self.max_size == old(self)@.max_size,
                self.samples@ == merged(start, batch@.take(i as int), policy),
                results@.len() == i,
                results@ =~= merge_results(start, batch@, policy).take(i as int),
            decreases batch@.len() - i,
        {
            let x: Sample = batch[i];
            let ghost current = self.samples@;
            proof {
                law_upsert(current, x, policy);
                assert(batch@.take(i + 1).drop_last() =~= batch@.take(i as int));
                assert(batch@.take(i + 1).last() == x);
            }
            let at: usize = find_rank(&self.samples, x.timestamp);
            let result: SampleAddResult = if at < self.samples.len() && self.samples[at].timestamp
                == x.timestamp {
                match policy.duplicate_value(self.samples[at].value, x.value) {
                    None => SampleAddResult::Duplicate,
                    Some(value) => {
                        let kept: Sample = Sample { timestamp: x.timestamp, value };
                        self.samples.set(at, kept);
                        if came_earlier(batch, i, x.timestamp) {
                            SampleAddResult::Merged(kept)
                        } else {
                            SampleAddResult::Stored(kept)
                        }
                    },
                }
            } else {
                self.samples.insert(at, x);
                SampleAddResult::Stored(x)
            };
            results.push(result);
            i = i + 1;
        }
        proof {
            assert(batch@.take(i as int) =~= batch@);
        }
        Ok(results)
    }
}

impl Timed for TimeSeriesChunk {
    open spec fn time(&self) -> i64 {
        self@.first_timestamp()
    }

    fn get_time(&self) -> (r: i64) {
        self.first_timestamp()
    }
}

/// The samples of a young or an old chunk that are trusted to fit, out of an estimated `room`.
///
/// A compressed chunk that holds some room and few samples is trusted with 0.7 of the room, the
/// binary64 product rounded down, but with at least one sample.
pub open spec fn trusted_room(room: nat, len: nat, compressed: bool) -> nat {
    if room > 0 && len < EARLY_CHUNK_SAMPLE_THRESHOLD && compressed {
        let share = binary64::round_53(
            binary64::round_53(room) * EARLY_CHUNK_CAPACITY_FACTOR as nat,
        ) / binary64::TWO_53 as nat;
        if share < 1 {
            1
        } else {
            share
        }
    } else {
        room
    }
}

/// A chunk is trusted with all of its room, unless it is a young compressed one with some: that one is
/// trusted with seven tenths, rounded down, but with at least one sample.
pub proof fn law_young_chunks_are_trusted_with_less(room: nat, len: nat, compressed: bool)
    requires
        room < 0x2_0000_0000_0000,
    ensures
        !compressed || len >= EARLY_CHUNK_SAMPLE_THRESHOLD || room == 0 ==> trusted_room(
            room,
            len,
            compressed,
        ) == room,
        compressed && len < EARLY_CHUNK_SAMPLE_THRESHOLD && room > 0 ==> {
            let trusted = trusted_room(room, len, compressed);
            &&& trusted >= 1
            &&& trusted > 1 ==> 10 * trusted <= 7 * room
            &&& 7 * room <= 10 * trusted + 10
        },
{
    let f = EARLY_CHUNK_CAPACITY_FACTOR as nat;
    let whole = binary64::TWO_53 as int;
    crate::number_laws::law_53_bits_are_close(room);
    let product = room * f;
    crate::number_laws::law_53_bits_are_close(product);
    let rounded = binary64::round_53(product) as int;
    let share = rounded / whole;
    let gap = crate::number_laws::apart(rounded, product as int) as int;
    vstd::arithmetic::div_mod::lemma_fundamental_div_mod(rounded, whole);
    let r = room as int;
    assert(product == r * 6305039478318694);
    assert(gap <= r) by (nonlinear_arith)
        requires
            gap * 9007199254740992 <= r * 6305039478318694,
            r >= 0,
    ;
    assert(binary64::round_53(room) == room);
}

} // verus!
