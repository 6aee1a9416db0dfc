//! Samples, timestamps and what becomes of a sample that is written.
use vstd::prelude::*;

use crate::binary64;

verus! {

/// Milliseconds since the epoch.
pub type Timestamp = i64;

/// One observation of a series.
///
/// `value` holds the bits of the observed binary64 number.
#[derive(Debug, Clone, Copy, PartialEq, Eq, Structural)]
pub struct Sample {
    pub timestamp: Timestamp,
    pub value: u64,
}

impl Sample {
    /// A sample of the value with the bits `value`.
    pub fn new(timestamp: Timestamp, value: u64) -> (r: Self)
        ensures
            r == (Sample { timestamp, value }),
    {
        Sample { timestamp, value }
    }
}

/// What is kept where a sample is written at a timestamp that already holds one.
#[derive(Debug, Clone, Copy, PartialEq, Eq, Structural)]
pub enum DuplicatePolicy {
    /// Ignore the new sample.
    Block,
    /// Keep the first value.
    KeepFirst,
    /// Keep the last value.
    KeepLast,
    /// Keep the smaller value.
    Min,
    /// Keep the larger value.
    Max,
    /// Keep the sum of the values.
    Sum,
}

impl DuplicatePolicy {
    /// The value kept where `new` is written over `old`; none where the write is blocked.
    pub open spec fn kept(self, old_value: u64, new_value: u64) -> Option<u64> {
        match self {
            DuplicatePolicy::Block => None,
            DuplicatePolicy::KeepFirst => Some(old_value),
            DuplicatePolicy::KeepLast => Some(new_value),
            DuplicatePolicy::Min => Some(binary64::min_of(old_value, new_value)),
            DuplicatePolicy::Max => Some(binary64::max_of(old_value, new_value)),
            DuplicatePolicy::Sum => Some(binary64::sum_of(old_value, new_value)),
        }
    }

    /// The value to keep where `new_value` is written over `old_value`.
    pub fn duplicate_value(self, old_value: u64, new_value: u64) -> (r: Option<u64>)
        ensures
            r == self.kept(old_value, new_value),
    {
        match self {
            DuplicatePolicy::Block => None,
            DuplicatePolicy::KeepFirst => Some(old_value),
            DuplicatePolicy::KeepLast => Some(new_value),
            DuplicatePolicy::Min => Some(binary64::float_min(old_value, new_value)),
            DuplicatePolicy::Max => Some(binary64::float_max(old_value, new_value)),
            DuplicatePolicy::Sum => Some(binary64::float_sum(old_value, new_value)),
        }
    }
}

/// The policy where none is configured: `BLOCK`.
pub open spec fn policy_or_block(policy: Option<DuplicatePolicy>) -> DuplicatePolicy {
    match policy {
        Some(p) => p,
        None => DuplicatePolicy::Block,
    }
}

/// Why a sample could not be written.
#[derive(Debug, Clone, Copy, PartialEq, Eq, Structural)]
pub enum AddError {
    /// The chunk refused the samples.
    CannotAddSample,
}

/// What became of one sample of a batch.
#[derive(Debug, Clone, Copy, PartialEq, Eq, Structural)]
pub enum SampleAddResult {
    /// Stored; holds the sample as stored.
    Stored(Sample),
    /// Not stored: its timestamp is taken and the policy blocks duplicates.
    Duplicate,
    /// Folded by the policy into an earlier sample of the same batch; holds the outcome.
    Merged(Sample),
    /// Not stored.
    Error(AddError),
}

impl SampleAddResult {
    /// Whether the sample counts as ingested.
    pub fn is_ok(&self) -> (r: bool)
        ensures
            r == (*self is Stored),
    {
        match self {
            SampleAddResult::Stored(_) => true,
            _ => false,
        }
    }
}

/// How many of `results` count as ingested.
pub open spec fn ok_count(results: Seq<SampleAddResult>) -> nat
    decreases results.len(),
{
    if results.len() == 0 {
        0
    } else {
        ok_count(results.drop_last()) + (if results.last() is Stored {
            1nat
        } else {
            0
        })
    }
}

/// The samples that `results` report as stored, in order.
pub open spec fn stored_samples(results: Seq<SampleAddResult>) -> Seq<Sample>
    decreases results.len(),
{
    if results.len() == 0 {
        Seq::empty()
    } else {
        let rest = stored_samples(results.drop_last());
        match results.last() {
            SampleAddResult::Stored(s) => rest.push(s),
            _ => rest,
        }
    }
}

/// The number of samples that count as ingested.
pub fn count_ok(results: &Vec<SampleAddResult>) -> (n: usize)
    ensures
        n == ok_count(results@),
        n <= results@.len(),
{
    let mut n: usize = 0;
    let mut i: usize = 0;
    while i < results.len()
        invariant
            i <= results@.len(),
            n == ok_count(results@.take(i as int)),
            n <= i,
        decreases results@.len() - i,
    {
        proof {
            assert(results@.take(i + 1).drop_last() =~= results@.take(i as int));
        }
        if results[i].is_ok() {
            n = n + 1;
        }
        i = i + 1;
    }
    proof {
        assert(results@.take(i as int) =~= results@);
    }
    n
}

/// The samples that `results` report as stored.
pub fn collect_stored(results: &Vec<SampleAddResult>) -> (r: Vec<Sample>)
    ensures
        r@ == stored_samples(results@),
{
    let mut r: Vec<Sample> = Vec::new();
    let mut i: usize = 0;
    while i < results.len()
        invariant
            i <= results@.len(),
            r@ == stored_samples(results@.take(i as int)),
        decreases results@.len() - i,
    {
        proof {
            assert(results@.take(i + 1).drop_last() =~= results@.take(i as int));
        }
        if let SampleAddResult::Stored(s) = results[i] {
            r.push(s);
        }
        i = i + 1;
    }
    proof {
        assert(results@.take(i as int) =~= results@);
    }
    r
}

/// A batch never counts more samples as ingested than it has results, and the samples it reports
/// as stored are exactly those that count.
pub proof fn law_ok_count_bounded(results: Seq<SampleAddResult>)
    ensures
        ok_count(results) <= results.len(),
        stored_samples(results).len() == ok_count(results),
    decreases results.len(),
{
    if results.len() > 0 {
        law_ok_count_bounded(results.drop_last());
    }
}

/// Why an operation on a series failed.
#[derive(Debug, Clone, Copy, PartialEq, Eq, Structural)]
pub enum TsdbError {
    /// The samples could not be added.
    CannotAddSample,
}

/// What an operation on a series gives.
pub type TsdbResult<T> = Result<T, TsdbError>;

/// `x` where it fits a timestamp, else the nearest bound.
pub open spec fn saturate(x: int) -> int {
    if x > i64::MAX {
        i64::MAX as int
    } else if x < i64::MIN {
        i64::MIN as int
    } else {
        x
    }
}

/// `x` where it fits a timestamp, else the nearest bound.
pub fn saturate_i128(x: i128) -> (r: i64)
    ensures
        r == saturate(x as int),
{
    if x > i64::MAX as i128 {
        i64::MAX
    } else if x < i64::MIN as i128 {
        i64::MIN
    } else {
        x as i64
    }
}

/// The samples that count as ingested are those that are reported as stored, no more and no fewer: not
/// duplicates, not those folded into others, and not those that were refused.
pub proof fn law_only_stored_count(results: Seq<SampleAddResult>)
    ensures
        ok_count(results) == results.filter(|r: SampleAddResult| r is Stored).len(),
        stored_samples(results) == results.filter(|r: SampleAddResult| r is Stored).map_values(
            |r: SampleAddResult| r->Stored_0,
        ),
    decreases results.len(),
{
    reveal(Seq::filter);
    let f = |r: SampleAddResult| r is Stored;
    let g = |r: SampleAddResult| r->Stored_0;
    if results.len() > 0 {
        let d = results.drop_last();
        law_only_stored_count(d);
        if f(results.last()) {
            assert(results.filter(f) == d.filter(f).push(results.last()));
            assert(results.filter(f).map_values(g) =~= d.filter(f).map_values(g).push(
                g(results.last()),
            ));
        }
    } else {
        assert(results.filter(f).map_values(g) =~= Seq::<Sample>::empty());
    }
}

} // verus!
