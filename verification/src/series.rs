//! Time series: chunks of samples, with the rules by which they are compacted.
use vstd::prelude::*;

use crate::aggregators::Aggregator;
use crate::chunk::{sample_capacity, ChunkEncoding, ChunkView, TimeSeriesChunk};
use crate::common::{saturate_i128, DuplicatePolicy, Sample, Timestamp};
use crate::ignore::IgnoreLimits;
use crate::sorting::sort_by_time;

verus! {

/// The size in bytes of a chunk where none is configured.
pub const DEFAULT_CHUNK_SIZE: usize = 4096;

/// Names a series.
pub type SeriesRef = u64;

/// Aggregates a series, bucket by bucket, into another one.
#[derive(Debug, Clone, Copy, PartialEq, Eq, Structural)]
pub struct CompactionRule {
    pub dest_id: SeriesRef,
    pub aggregator: Aggregator,
    /// The length of a bucket in milliseconds.
    pub bucket_duration: u64,
    /// A time at which a bucket starts.
    pub align_timestamp: Timestamp,
    /// The start of the bucket that still takes in samples.
    pub bucket_start: Option<Timestamp>,
}

impl CompactionRule {
    /// Whether the buckets have a length that a timestamp can hold.
    pub open spec fn wf(self) -> bool {
        0 < self.bucket_duration <= i64::MAX
    }

    /// The start of the bucket that `t` lies in.
    pub open spec fn bucket_of(self, t: Timestamp) -> int {
        crate::common::saturate(t - (t - self.align_timestamp) % (self.bucket_duration as int))
    }

    /// The last time of the bucket that `t` lies in.
    pub open spec fn bucket_end(self, t: Timestamp) -> int {
        crate::common::saturate(self.bucket_of(t) + self.bucket_duration - 1)
    }

    /// The start of the bucket that `t` lies in.
    pub fn calc_bucket_start(&self, t: Timestamp) -> (r: Timestamp)
        requires
            self.wf(),
        ensures
            r == self.bucket_of(t),
    {
        let duration: i128 = self.bucket_duration as i128;
        let since: i128 = (t as i128) - (self.align_timestamp as i128);
        let over: i128 = if since >= 0 {
            since % duration
        } else {
            let under: i128 = (0 - since) % duration;
            if under == 0 {
                0
            } else {
                duration - under
            }
        };
        proof {
            if since < 0 {
                let d = duration as int;
                let n = -(since as int);
                let q = n / d;
                let u = n % d;
                vstd::arithmetic::div_mod::lemma_fundamental_div_mod(n, d);
                if u == 0 {
                    assert(since == d * (-q) + 0) by (nonlinear_arith)
                        requires
                            n == d * q + u,
                            u == 0,
                            n == -since,
                    ;
                    assert(since == (-q) * d + 0) by (nonlinear_arith)
                        requires
                            since == d * (-q) + 0,
                    ;
                    vstd::arithmetic::div_mod::lemma_fundamental_div_mod_converse(
                        since as int,
                        d,
                        -q,
                        0,
                    );
                } else {
                    assert(since == (-q - 1) * d + (d - u)) by (nonlinear_arith)
                        requires
                            n == d * q + u,
                            n == -since,
                    ;
                    vstd::arithmetic::div_mod::lemma_fundamental_div_mod_converse(
                        since as int,
                        d,
                        -q - 1,
                        d - u,
                    );
                }
            }
        }
        saturate_i128((t as i128) - over)
    }

    /// The first and the last time of the bucket that `t` lies in.
    pub fn get_bucket_range(&self, t: Timestamp) -> (r: (Timestamp, Timestamp))
        requires
            self.wf(),
        ensures
            r.0 == self.bucket_of(t),
            r.1 == self.bucket_end(t),
    {
        let start: Timestamp = self.calc_bucket_start(t);
        let end: Timestamp = saturate_i128(
            (start as i128) + (self.bucket_duration as i128) - 1,
        );
        (start, end)
    }
}

/// A time lies in its bucket.
pub proof fn law_time_in_bucket(rule: CompactionRule, t: Timestamp)
    requires
        rule.wf(),
    ensures
        rule.bucket_of(t) <= t <= rule.bucket_end(t),
{
    let d = rule.bucket_duration as int;
    vstd::arithmetic::div_mod::lemma_mod_bound(t - rule.align_timestamp, d);
}

/// Buckets start at whole numbers of bucket lengths from the alignment, and no time lies a bucket
/// length or more behind the start of its bucket. Where such a start comes before all times, the bucket
/// starts at the first of these.
pub proof fn law_buckets_are_aligned(rule: CompactionRule, t: Timestamp)
    requires
        rule.wf(),
    ensures
        rule.bucket_of(t) <= t < rule.bucket_of(t) + rule.bucket_duration,
        rule.bucket_of(t) == i64::MIN || (rule.bucket_of(t) - rule.align_timestamp) % (
        rule.bucket_duration as int) == 0,
        rule.bucket_end(t) == crate::common::saturate(rule.bucket_of(t) + rule.bucket_duration - 1),
{
    let d = rule.bucket_duration as int;
    let x = t - rule.align_timestamp;
    vstd::arithmetic::div_mod::lemma_mod_bound(x, d);
    vstd::arithmetic::div_mod::lemma_fundamental_div_mod(x, d);
    let q = x / d;
    assert(x - x % d == q * d + 0) by (nonlinear_arith)
        requires
            x == d * q + x % d,
    ;
    vstd::arithmetic::div_mod::lemma_fundamental_div_mod_converse(x - x % d, d, q, 0);
}

/// How a series treats duplicates, and samples that lie apart.
#[derive(Debug, Clone, Copy, PartialEq, Eq, Structural)]
pub struct SampleDuplicatePolicy {
    pub policy: Option<DuplicatePolicy>,
    /// How far an ingested sample may lie from the one before.
    pub ignore: Option<IgnoreLimits>,
}

impl SampleDuplicatePolicy {
    /// The configured policy, or else `default`, or else `BLOCK`.
    pub open spec fn resolved(self, default: Option<DuplicatePolicy>) -> DuplicatePolicy {
        match self.policy {
            Some(p) => p,
            None => crate::common::policy_or_block(default),
        }
    }

    /// The configured policy, or else `default`, or else `BLOCK`.
    pub fn resolve_policy(&self, default: Option<DuplicatePolicy>) -> (r: DuplicatePolicy)
        ensures
            r == self.resolved(default),
    {
        match self.policy {
            Some(p) => p,
            None => match default {
                Some(p) => p,
                None => DuplicatePolicy::Block,
            },
        }
    }
}

/// How values are rounded.
#[derive(Debug, Clone, Copy, PartialEq, Eq, Structural)]
pub enum Rounding {
    SignificantDigits(u64),
    DecimalDigits(u64),
}

/// A label of a series.
#[derive(Debug, PartialEq, Eq)]
pub struct Label {
    pub name: String,
    pub value: String,
}

impl View for Label {
    type V = (Seq<char>, Seq<char>);

    open spec fn view(&self) -> (Seq<char>, Seq<char>) {
        (self.name@, self.value@)
    }
}

/// The name and the value of a label, as a function.
pub open spec fn label_view() -> spec_fn(Label) -> (Seq<char>, Seq<char>) {
    |label: Label| label@
}

/// What a text says that may be missing.
pub open spec fn text_view(text: Option<String>) -> Option<Seq<char>> {
    match text {
        Some(words) => Some(words@),
        None => None,
    }
}

/// A time series.
#[derive(Debug)]
pub struct TimeSeries {
    pub id: SeriesRef,
    /// How long samples are kept, in milliseconds; 0 keeps them for ever.
    pub retention: u64,
    pub chunk_compression: ChunkEncoding,
    pub chunk_size_bytes: usize,
    pub sample_duplicates: SampleDuplicatePolicy,
    /// How values are rounded.
    pub rounding: Option<Rounding>,
    pub labels: Vec<Label>,
    /// The metric that the series belongs to.
    pub metric: Option<String>,
    /// The series that this one is compacted from.
    pub src_series: Option<SeriesRef>,
    pub rules: Vec<CompactionRule>,
    /// The chunks in order of their first samples.
    pub chunks: Vec<TimeSeriesChunk>,
    pub total_samples: usize,
    pub first_timestamp: Timestamp,
    pub last_timestamp: Timestamp,
}

/// What a series holds.
#[verifier::ext_equal]
pub struct SeriesView {
    pub id: SeriesRef,
    pub retention: u64,
    pub chunk_compression: ChunkEncoding,
    pub chunk_size_bytes: usize,
    pub sample_duplicates: SampleDuplicatePolicy,
    pub rounding: Option<Rounding>,
    pub labels: Seq<(Seq<char>, Seq<char>)>,
    pub metric: Option<Seq<char>>,
    pub src_series: Option<SeriesRef>,
    pub rules: Seq<CompactionRule>,
    pub chunks: Seq<ChunkView>,
    pub total_samples: usize,
    pub first_timestamp: Timestamp,
    pub last_timestamp: Timestamp,
}

/// What a chunk holds, as a function.
pub open spec fn chunk_view() -> spec_fn(TimeSeriesChunk) -> ChunkView {
    |c: TimeSeriesChunk| c@
}

/// The time of the first sample of a chunk, as a function.
pub open spec fn chunk_time() -> spec_fn(ChunkView) -> i64 {
    |c: ChunkView| c.first_timestamp()
}

impl View for TimeSeries {
    type V = SeriesView;

    open spec fn view(&self) -> SeriesView {
        SeriesView {
            id: self.id,
            retention: self.retention,
            chunk_compression: self.chunk_compression,
            chunk_size_bytes: self.chunk_size_bytes,
            sample_duplicates: self.sample_duplicates,
            rounding: self.rounding,
            labels: self.labels@.map_values(label_view()),
            metric: text_view(self.metric),
            src_series: self.src_series,
            rules: self.rules@,
            chunks: self.chunks@.map_values(chunk_view()),
            total_samples: self.total_samples,
            first_timestamp: self.first_timestamp,
            last_timestamp: self.last_timestamp,
        }
    }
}

/// The number of samples in all chunks.
pub open spec fn sample_count(chunks: Seq<ChunkView>) -> nat
    decreases chunks.len(),
{
    if chunks.len() == 0 {
        0
    } else {
        sample_count(chunks.drop_last()) + chunks.last().samples.len()
    }
}

/// The samples of all chunks, chunk after chunk.
pub open spec fn all_samples(chunks: Seq<ChunkView>) -> Seq<Sample>
    decreases chunks.len(),
{
    if chunks.len() == 0 {
        Seq::empty()
    } else {
        all_samples(chunks.drop_last()) + chunks.last().samples
    }
}

/// The samples of `s` with a time from `start` to `end`.
pub open spec fn within(s: Seq<Sample>, start: Timestamp, end: Timestamp) -> Seq<Sample> {
    s.filter(|x: Sample| start <= x.timestamp <= end)
}

/// `n`, or the largest number that fits.
pub open spec fn clamp_count(n: nat) -> usize {
    if n > usize::MAX {
        usize::MAX
    } else {
        n as usize
    }
}

/// The runs of at most `capacity` samples that a run is cut into.
pub open spec fn cut(samples: Seq<Sample>, capacity: nat) -> Seq<Seq<Sample>>
    decreases samples.len(),
{
    if samples.len() == 0 || capacity == 0 {
        Seq::empty()
    } else if samples.len() <= capacity {
        seq![samples]
    } else {
        seq![samples.take(capacity as int)] + cut(samples.skip(capacity as int), capacity)
    }
}

/// Whether the chunk holds more samples than its size is trusted to take.
pub open spec fn oversized(c: ChunkView) -> bool {
    let capacity = crate::chunk::capacity_of(c.encoding, c.max_size);
    capacity > 0 && c.samples.len() > capacity
}

/// The chunks that a chunk is split into: itself, unless it is oversized.
pub open spec fn split_chunk(c: ChunkView) -> Seq<ChunkView> {
    if oversized(c) {
        cut(c.samples, crate::chunk::capacity_of(c.encoding, c.max_size)).map_values(
            |s: Seq<Sample>| ChunkView { samples: s, ..c },
        )
    } else {
        seq![c]
    }
}

/// The chunks with every oversized one split.
pub open spec fn split_all(chunks: Seq<ChunkView>) -> Seq<ChunkView>
    decreases chunks.len(),
{
    if chunks.len() == 0 {
        chunks
    } else {
        split_all(chunks.drop_last()) + split_chunk(chunks.last())
    }
}

impl SeriesView {
    /// Whether the parts of the series fit together: a new chunk takes samples, no chunk is empty,
    /// all samples are in order of time, no two at the same time, and the counts and bounds are
    /// those of the chunks.
    pub open spec fn wf(self) -> bool {
        &&& crate::chunk::capacity_of(self.chunk_compression, self.chunk_size_bytes) > 0
        &&& sound_chunks(self.chunks)
        &&& crate::chunk::ascending(self.samples())
        &&& self.total_samples == clamp_count(sample_count(self.chunks))
        &&& self.first_timestamp == self.start_of_chunks()
        &&& self.last_timestamp == self.end_of_chunks()
        &&& forall|i: int| 0 <= i < self.rules.len() ==> (#[trigger] self.rules[i]).wf()
    }

    /// The time of the first sample of the first chunk; 0 where there is none.
    pub open spec fn start_of_chunks(self) -> Timestamp {
        if self.chunks.len() == 0 {
            0
        } else {
            self.chunks[0].first_timestamp()
        }
    }

    /// The time of the last sample of the last chunk; 0 where there is none.
    pub open spec fn end_of_chunks(self) -> Timestamp {
        if self.chunks.len() == 0 {
            0
        } else {
            self.chunks.last().last_timestamp()
        }
    }

    /// The series with its first and last timestamps taken from its chunks.
    pub open spec fn with_bounds(self) -> SeriesView {
        SeriesView {
            first_timestamp: self.start_of_chunks(),
            last_timestamp: self.end_of_chunks(),
            ..self
        }
    }

    /// The series with its number of samples taken from its chunks.
    pub open spec fn with_total(self) -> SeriesView {
        SeriesView { total_samples: clamp_count(sample_count(self.chunks)), ..self }
    }

    /// The series with every oversized chunk split.
    pub open spec fn with_splits(self) -> SeriesView {
        SeriesView {
            chunks: crate::sorting::stable_sort(split_all(self.chunks), chunk_time()),
            ..self
        }.with_bounds()
    }

    /// The oldest time that the retention lets in; 0 where samples are kept for ever.
    pub open spec fn min_timestamp(self) -> Timestamp {
        if self.retention == 0 || self.last_timestamp <= self.retention {
            0
        } else {
            (self.last_timestamp - self.retention) as Timestamp
        }
    }

    /// All samples, chunk after chunk.
    pub open spec fn samples(self) -> Seq<Sample> {
        all_samples(self.chunks)
    }

    /// The last sample of the last chunk.
    pub open spec fn last_sample(self) -> Option<Sample> {
        if self.chunks.len() == 0 || self.chunks.last().samples.len() == 0 {
            None
        } else {
            Some(self.chunks.last().samples.last())
        }
    }
}


/// Whether the samples are in strictly ascending order of time.
fn is_ascending(samples: &Vec<Sample>) -> (r: bool)
    ensures
        r == crate::chunk::ascending(samples@),
{
    let mut i: usize = 1;
    while i < samples.len()
        invariant
            1 <= i,
            samples@.len() > 0 ==> i <= samples@.len(),
            forall|a: int, b: int|
                0 <= a < b < i && b < samples@.len() ==> (#[trigger] samples@[a]).timestamp < (
                #[trigger] samples@[b]).timestamp,
        decreases samples@.len() - i,
    {
        if samples[i - 1].timestamp >= samples[i].timestamp {
            return false;
        }
        i = i + 1;
    }
    true
}

/// Copies the samples from `start` up to `end`.
fn copy_samples(samples: &Vec<Sample>, start: usize, end: usize) -> (r: Vec<Sample>)
    requires
        start <= end <= samples@.len(),
    ensures
        r@ == samples@.subrange(start as int, end as int),
{
    let mut r: Vec<Sample> = Vec::with_capacity(end - start);
    let mut i: usize = start;
    while i < end
        invariant
            start <= i <= end <= samples@.len(),
            r@ == samples@.subrange(start as int, i as int),
        decreases end - i,
    {
        r.push(samples[i]);
        i = i + 1;
    }
    r
}

/// Appends the chunks that `chunk` is split into.
fn push_split(out: &mut Vec<TimeSeriesChunk>, chunk: &TimeSeriesChunk)
    ensures
        final(out)@.map_values(chunk_view()) == old(out)@.map_values(chunk_view()) + split_chunk(
            chunk@,
        ),
{
    let capacity: usize = sample_capacity(chunk.encoding, chunk.max_size);
    let n: usize = chunk.samples.len();
    let ghost base = out@.map_values(chunk_view());
    if capacity == 0 || n <= capacity {
        let copy: Vec<Sample> = copy_samples(&chunk.samples, 0, n);
        assert(copy@ =~= chunk.samples@);
        let ghost before = out@;
        out.push(
            TimeSeriesChunk { encoding: chunk.encoding, max_size: chunk.max_size, samples: copy },
        );
        assert(out@.map_values(chunk_view()) =~= base + split_chunk(chunk@));
        return;
    }
    let ghost f = |s: Seq<Sample>| ChunkView { samples: s, ..chunk@ };
    let ghost all = chunk.samples@;
    let ghost goal = base + cut(all, capacity as nat).map_values(f);
    let mut pos: usize = 0;
    proof {
        assert(all.skip(0) =~= all);
    }
    while n - pos > capacity
        invariant
            pos <= n,
            n == all.len(),
            all == chunk.samples@,
            capacity > 0,
            f == (|s: Seq<Sample>| ChunkView { samples: s, ..chunk@ }),
            out@.map_values(chunk_view()) + cut(all.skip(pos as int), capacity as nat).map_values(f)
                == goal,
            pos < n,
        decreases n - pos,
    {
        let piece: Vec<Sample> = copy_samples(&chunk.samples, pos, pos + capacity);
        let ghost rest = all.skip(pos as int);
        let ghost views = out@.map_values(chunk_view());
        out.push(
            TimeSeriesChunk { encoding: chunk.encoding, max_size: chunk.max_size, samples: piece },
        );
        proof {
            assert(piece@ =~= rest.take(capacity as int));
            assert(rest.skip(capacity as int) =~= all.skip(pos + capacity));
            let tail = cut(all.skip(pos + capacity), capacity as nat);
            assert(out@.map_values(chunk_view()) =~= views.push(f(piece@)));
            assert(cut(rest, capacity as nat).map_values(f) =~= seq![f(piece@)] + tail.map_values(
                f,
            ));
            assert(views.push(f(piece@)) + tail.map_values(f) =~= views + (seq![f(piece@)]
                + tail.map_values(f)));
        }
        pos = pos + capacity;
    }
    let piece: Vec<Sample> = copy_samples(&chunk.samples, pos, n);
    let ghost views = out@.map_values(chunk_view());
    out.push(TimeSeriesChunk { encoding: chunk.encoding, max_size: chunk.max_size, samples: piece });
    proof {
        let rest = all.skip(pos as int);
        assert(piece@ =~= rest);
        assert(out@.map_values(chunk_view()) =~= views.push(f(piece@)));
        assert(cut(rest, capacity as nat).map_values(f) =~= seq![f(piece@)]);
        assert(views.push(f(piece@)) =~= views + seq![f(piece@)]);
    }
}

proof fn lemma_split_all_same(chunks: Seq<ChunkView>)
    requires
        forall|i: int| 0 <= i < chunks.len() ==> !oversized(#[trigger] chunks[i]),
    ensures
        split_all(chunks) == chunks,
    decreases chunks.len(),
{
    if chunks.len() > 0 {
        assert forall|i: int| 0 <= i < chunks.drop_last().len() implies !oversized(
            #[trigger] chunks.drop_last()[i],
        ) by {
            assert(chunks.drop_last()[i] == chunks[i]);
        }
        lemma_split_all_same(chunks.drop_last());
        assert(!oversized(chunks[chunks.len() - 1]));
        assert(chunks.drop_last() + seq![chunks.last()] =~= chunks);
    }
}

/// Whether every chunk has samples, in order of time.
pub open spec fn sound_chunks(chunks: Seq<ChunkView>) -> bool {
    forall|i: int|
        0 <= i < chunks.len() ==> (#[trigger] chunks[i]).wf() && chunks[i].samples.len() > 0
}

/// The runs that an ascending run is cut into have samples, in order of time.
pub(crate) proof fn lemma_cut_sound(samples: Seq<Sample>, capacity: nat)
    requires
        crate::chunk::ascending(samples),
        capacity > 0,
    ensures
        forall|i: int|
            0 <= i < cut(samples, capacity).len() ==> crate::chunk::ascending(
                #[trigger] cut(samples, capacity)[i],
            ) && cut(samples, capacity)[i].len() > 0,
    decreases samples.len(),
{
    if samples.len() > capacity {
        let rest = samples.skip(capacity as int);
        lemma_cut_sound(rest, capacity);
        let c = cut(samples, capacity);
        assert forall|i: int| 0 <= i < c.len() implies crate::chunk::ascending(#[trigger] c[i])
            && c[i].len() > 0 by {
            if i > 0 {
                assert(c[i] == cut(rest, capacity)[i - 1]);
            }
        }
    }
}

/// Splitting keeps every chunk sound.
pub proof fn lemma_split_all_sound(chunks: Seq<ChunkView>)
    requires
        sound_chunks(chunks),
    ensures
        sound_chunks(split_all(chunks)),
    decreases chunks.len(),
{
    if chunks.len() > 0 {
        let d = chunks.drop_last();
        let c = chunks.last();
        assert(c == chunks[chunks.len() - 1]);
        assert(sound_chunks(d)) by {
            assert forall|i: int| 0 <= i < d.len() implies (#[trigger] d[i]).wf()
                && d[i].samples.len() > 0 by {
                assert(d[i] == chunks[i]);
            }
        }
        lemma_split_all_sound(d);
        let capacity = crate::chunk::capacity_of(c.encoding, c.max_size);
        let parts = split_chunk(c);
        if oversized(c) {
            lemma_cut_sound(c.samples, capacity);
            assert forall|i: int| 0 <= i < parts.len() implies (#[trigger] parts[i]).wf()
                && parts[i].samples.len() > 0 by {
                assert(parts[i].samples == cut(c.samples, capacity)[i]);
            }
        }
        let all = split_all(chunks);
        assert forall|i: int| 0 <= i < all.len() implies (#[trigger] all[i]).wf()
            && all[i].samples.len() > 0 by {
            if i < split_all(d).len() {
                assert(all[i] == split_all(d)[i]);
            } else {
                assert(all[i] == parts[i - split_all(d).len()]);
            }
        }
    }
}

/// Sorting keeps every chunk sound.
pub proof fn lemma_sort_sound(chunks: Seq<ChunkView>)
    requires
        sound_chunks(chunks),
    ensures
        sound_chunks(crate::sorting::stable_sort(chunks, chunk_time())),
{
    let r = crate::sorting::stable_sort(chunks, chunk_time());
    assert forall|i: int| 0 <= i < r.len() implies (#[trigger] r[i]).wf() && r[i].samples.len()
        > 0 by {
        crate::sorting::lemma_sort_contains(chunks, chunk_time(), i);
        let k = choose|k: int| 0 <= k < chunks.len() && chunks[k] == r[i];
        assert(chunks[k].wf());
    }
}

impl Default for TimeSeries {
    /// An empty series that keeps its samples for ever, compressed in chunks of the default size.
    fn default() -> (r: Self)
        ensures
            r@.wf(),
            r@.chunks.len() == 0,
            r@.rules.len() == 0,
            r@.retention == 0,
            r@.total_samples == 0,
            r@.id == 0,
            r@.src_series is None,
            r@.sample_duplicates == (SampleDuplicatePolicy { policy: None, ignore: None }),
            r@.rounding is None,
            r@.labels.len() == 0,
            r@.metric is None,
            r@.chunk_compression == ChunkEncoding::Compressed,
            r@.chunk_size_bytes == DEFAULT_CHUNK_SIZE,
    {
        TimeSeries {
            id: 0,
            retention: 0,
            chunk_compression: ChunkEncoding::Compressed,
            chunk_size_bytes: DEFAULT_CHUNK_SIZE,
            sample_duplicates: SampleDuplicatePolicy { policy: None, ignore: None },
            rounding: None,
            labels: Vec::new(),
            metric: None,
            src_series: None,
            rules: Vec::new(),
            chunks: Vec::new(),
            total_samples: 0,
            first_timestamp: 0,
            last_timestamp: 0,
        }
    }
}

impl TimeSeries {
    /// Whether there is no sample.
    pub fn is_empty(&self) -> (r: bool)
        ensures
            r == (self@.total_samples == 0),
    {
        self.total_samples == 0
    }

    /// Whether the series is compacted from another one.
    pub fn is_compaction(&self) -> (r: bool)
        ensures
            r == (self@.src_series is Some),
    {
        self.src_series.is_some()
    }

    /// Whether new chunks are compressed.
    pub fn is_compressed(&self) -> (r: bool)
        ensures
            r == (self@.chunk_compression == ChunkEncoding::Compressed),
    {
        match self.chunk_compression {
            ChunkEncoding::Compressed => true,
            ChunkEncoding::Uncompressed => false,
        }
    }

    /// The time of the last sample; 0 where there is none.
    pub fn last_timestamp(&self) -> (r: Timestamp)
        ensures
            r == self@.last_timestamp,
    {
        self.last_timestamp
    }

    /// The last sample of the last chunk.
    pub fn last_sample(&self) -> (r: Option<Sample>)
        ensures
            r == self@.last_sample(),
    {
        let n: usize = self.chunks.len();
        if n == 0 {
            return None;
        }
        let chunk: &TimeSeriesChunk = &self.chunks[n - 1];
        assert(self@.chunks.last() == chunk@);
        let m: usize = chunk.samples.len();
        if m == 0 {
            None
        } else {
            Some(chunk.samples[m - 1])
        }
    }

    /// The oldest time that the retention lets in.
    pub fn get_min_timestamp(&self) -> (r: Timestamp)
        ensures
            r == self@.min_timestamp(),
            r >= 0,
    {
        if self.retention == 0 {
            return 0;
        }
        let oldest: i128 = (self.last_timestamp as i128) - (self.retention as i128);
        if oldest <= 0 {
            0
        } else {
            oldest as i64
        }
    }

    /// Takes the first and last timestamps from the chunks.
    pub fn update_first_last_timestamps(&mut self)
        ensures
            final(self)@ == old(self)@.with_bounds(),
    {
        let n: usize = self.chunks.len();
        if n == 0 {
            self.first_timestamp = 0;
            self.last_timestamp = 0;
        } else {
            self.first_timestamp = self.chunks[0].first_timestamp();
            self.last_timestamp = self.chunks[n - 1].last_timestamp();
        }
    }

    /// The number of samples in the chunks.
    fn count_samples(&self) -> (total: usize)
        ensures
            total == clamp_count(sample_count(self@.chunks)),
    {
        let mut total: usize = 0;
        let mut i: usize = 0;
        let ghost views = self@.chunks;
        while i < self.chunks.len()
            invariant
                i <= views.len(),
                views == self@.chunks,
                total == clamp_count(sample_count(views.take(i as int))),
            decreases views.len() - i,
        {
            proof {
                assert(views.take(i + 1).drop_last() =~= views.take(i as int));
                assert(views.take(i + 1).last() == self.chunks@[i as int]@);
            }
            total = total.saturating_add(self.chunks[i].len());
            i = i + 1;
        }
        proof {
            assert(views.take(i as int) =~= views);
        }
        total
    }

    /// Counts the samples.
    pub fn recalculate_total_samples(&mut self)
        ensures
            final(self)@ == old(self)@.with_total(),
    {
        self.total_samples = self.count_samples();
    }

    /// Whether no chunk is empty, and the samples of each are in order of time.
    fn has_sound_chunks(&self) -> (r: bool)
        ensures
            r == sound_chunks(self@.chunks),
    {
        let ghost views = self@.chunks;
        let mut i: usize = 0;
        while i < self.chunks.len()
            invariant
                i <= views.len(),
                views == self@.chunks,
                forall|k: int|
                    0 <= k < i ==> (#[trigger] views[k]).wf() && views[k].samples.len() > 0,
            decreases views.len() - i,
        {
            assert(views[i as int] == self.chunks@[i as int]@);
            if self.chunks[i].is_empty() || !is_ascending(&self.chunks[i].samples) {
                return false;
            }
            i = i + 1;
        }
        true
    }

    /// Whether every rule has buckets of a length that a timestamp can hold.
    fn has_sound_rules(&self) -> (r: bool)
        ensures
            r == (forall|i: int| 0 <= i < self@.rules.len() ==> (#[trigger] self@.rules[i]).wf()),
    {
        let mut i: usize = 0;
        while i < self.rules.len()
            invariant
                i <= self.rules@.len(),
                forall|k: int| 0 <= k < i ==> (#[trigger] self@.rules[k]).wf(),
            decreases self.rules@.len() - i,
        {
            let duration: u64 = self.rules[i].bucket_duration;
            if duration == 0 || duration > i64::MAX as u64 {
                assert(!self@.rules[i as int].wf());
                return false;
            }
            i = i + 1;
        }
        true
    }

    /// Whether the parts of the series fit together.
    pub fn is_sound(&self) -> (r: bool)
        ensures
            r == self@.wf(),
    {
        let n: usize = self.chunks.len();
        let (first, last): (Timestamp, Timestamp) = if n == 0 {
            (0, 0)
        } else {
            (self.chunks[0].first_timestamp(), self.chunks[n - 1].last_timestamp())
        };
        sample_capacity(self.chunk_compression, self.chunk_size_bytes) > 0
            && self.has_sound_chunks() && is_ascending(&self.iter()) && self.total_samples
            == self.count_samples() && self.first_timestamp == first && self.last_timestamp == last
            && self.has_sound_rules()
    }

    /// Splits every chunk that holds more samples than its size is trusted to take.
    pub fn split_chunks_if_needed(&mut self)
        requires
            crate::sorting::in_order(old(self)@.chunks, chunk_time()),
            old(self)@ == old(self)@.with_bounds(),
        ensures
            final(self)@ == old(self)@.with_splits(),
    {
        let n: usize = self.chunks.len();
        let ghost views = self@.chunks;
        let mut any: bool = false;
        let mut i: usize = 0;
        while i < n
            invariant
                i <= n,
                n == views.len(),
                views == self@.chunks,
                *self == *old(self),
                !any ==> forall|k: int| 0 <= k < i ==> !oversized(#[trigger] views[k]),
            decreases n - i,
        {
            let capacity: usize = sample_capacity(self.chunks[i].encoding, self.chunks[i].max_size);
            assert(views[i as int] == self.chunks@[i as int]@);
            if capacity > 0 && self.chunks[i].len() > capacity {
                any = true;
            }
            i = i + 1;
        }
        if !any {
            proof {
                lemma_split_all_same(views);
                crate::sorting::law_sort_of_sorted(views, chunk_time());
            }
            return;
        }
        let mut out: Vec<TimeSeriesChunk> = Vec::new();
        let mut k: usize = 0;
        assert(out@.map_values(chunk_view()) =~= split_all(views.take(0)));
        while k < n
            invariant
                k <= n,
                n == views.len(),
                views == self@.chunks,
                *self == *old(self),
                out@.map_values(chunk_view()) == split_all(views.take(k as int)),
            decreases n - k,
        {
            proof {
                assert(views.take(k + 1).drop_last() =~= views.take(k as int));
                assert(views.take(k + 1).last() == self.chunks@[k as int]@);
            }
            push_split(&mut out, &self.chunks[k]);
            k = k + 1;
        }
        let ghost unsorted = out@;
        sort_by_time(&mut out);
        proof {
            assert(views.take(n as int) =~= views);
            assert(unsorted.map_values(chunk_view()) == split_all(views));
            crate::sorting::lemma_sort_map(
                unsorted,
                chunk_view(),
                crate::sorting::time_of::<TimeSeriesChunk>(),
                chunk_time(),
            );
        }
        self.chunks = out;
        self.update_first_last_timestamps();
    }

    /// All samples, chunk after chunk.
    pub fn iter(&self) -> (r: Vec<Sample>)
        ensures
            r@ == self@.samples(),
    {
        let mut r: Vec<Sample> = Vec::new();
        let ghost views = self@.chunks;
        let mut i: usize = 0;
        assert(views.take(0) =~= Seq::<ChunkView>::empty());
        while i < self.chunks.len()
            invariant
                i <= views.len(),
                views == self@.chunks,
                r@ == all_samples(views.take(i as int)),
            decreases views.len() - i,
        {
            let chunk: &TimeSeriesChunk = &self.chunks[i];
            proof {
                assert(views.take(i + 1).drop_last() =~= views.take(i as int));
                assert(views.take(i + 1).last() == chunk@);
            }
            let mut copy: Vec<Sample> = copy_samples(&chunk.samples, 0, chunk.samples.len());
            assert(copy@ =~= chunk@.samples);
            r.append(&mut copy);
            i = i + 1;
        }
        proof {
            assert(views.take(i as int) =~= views);
        }
        r
    }

    /// The samples with a time from `start` to `end`, chunk after chunk.
    pub fn range_iter(&self, start: Timestamp, end: Timestamp) -> (r: Vec<Sample>)
        ensures
            r@ == within(self@.samples(), start, end),
    {
        let all: Vec<Sample> = self.iter();
        let mut r: Vec<Sample> = Vec::new();
        let mut i: usize = 0;
        let ghost f = |x: Sample| start <= x.timestamp <= end;
        proof {
            reveal(Seq::filter);
            assert(all@.take(0).filter(f) =~= Seq::<Sample>::empty());
        }
        while i < all.len()
            invariant
                i <= all@.len(),
                f == (|x: Sample| start <= x.timestamp <= end),
                r@ == all@.take(i as int).filter(f),
            decreases all@.len() - i,
        {
            proof {
                reveal(Seq::filter);
                assert(all@.take(i + 1).drop_last() =~= all@.take(i as int));
            }
            let x: Sample = all[i];
            if start <= x.timestamp && x.timestamp <= end {
                r.push(x);
            }
            i = i + 1;
        }
        proof {
            assert(all@.take(i as int) =~= all@);
        }
        r
    }
}

/// The retention keeps the times that lie no farther behind the last sample than it is long, and all
/// of them where it is 0; times before 0 are never kept.
pub proof fn law_retention_is_a_window(series: SeriesView, t: Timestamp)
    ensures
        t >= series.min_timestamp() <==> t >= 0 && (series.retention == 0 || series.last_timestamp
            - t <= series.retention),
{
}

/// A series starts at the time of its first sample, ends at that of its last, and counts as many as it
/// holds, as far as they can be counted.
pub proof fn law_series_tells_its_samples(series: SeriesView)
    requires
        series.wf(),
    ensures
        series.samples().len() > 0 ==> {
            &&& series.first_timestamp == series.samples()[0].timestamp
            &&& series.last_timestamp == series.samples().last().timestamp
            &&& series.last_sample() == Some(series.samples().last())
        },
        series.samples().len() == 0 ==> series.last_sample() is None,
        series.samples().len() <= usize::MAX ==> series.total_samples == series.samples().len(),
        series.samples().len() > usize::MAX ==> series.total_samples == usize::MAX,
{
    crate::read_back::law_count_is_read_length(series.chunks);
    let chunks = series.chunks;
    if chunks.len() > 0 {
        lemma_ends(chunks);
        let last = chunks[chunks.len() - 1];
        assert(last.samples.len() > 0);
    }
}

/// The samples of all chunks start with the first one of the first chunk, and end with the last one of
/// the last.
proof fn lemma_ends(chunks: Seq<ChunkView>)
    requires
        sound_chunks(chunks),
        chunks.len() > 0,
    ensures
        all_samples(chunks).len() > 0,
        all_samples(chunks)[0] == chunks[0].samples[0],
        all_samples(chunks).last() == chunks.last().samples.last(),
    decreases chunks.len(),
{
    let d = chunks.drop_last();
    assert(chunks[chunks.len() - 1].samples.len() > 0);
    if d.len() > 0 {
        assert forall|i: int| 0 <= i < d.len() implies (#[trigger] d[i]).wf()
            && d[i].samples.len() > 0 by {
            assert(d[i] == chunks[i]);
        }
        lemma_ends(d);
    } else {
        assert(all_samples(d) =~= Seq::<Sample>::empty());
    }
}

} // verus!
