//! Aggregation of the samples of a bucket into one value.
use vstd::prelude::*;

use crate::binary64;
use crate::common::{Sample, Timestamp};

verus! {

/// What a bucket is reduced to.
#[derive(Debug, Clone, Copy, PartialEq, Eq, Structural)]
pub enum AggregationType {
    Avg,
    Sum,
    Min,
    Max,
    Count,
    First,
    Last,
}

/// The running state of an aggregation: how many values were taken in, and what they come to.
#[derive(Debug, Clone, Copy, PartialEq, Eq, Structural)]
pub struct Aggregator {
    pub kind: AggregationType,
    pub count: u64,
    pub value: u64,
}

/// The aggregation of no value.
pub open spec fn fresh(kind: AggregationType) -> Aggregator {
    Aggregator { kind, count: 0, value: 0 }
}

impl Aggregator {
    /// The state after `value` is taken in.
    pub open spec fn updated(self, value: u64) -> Aggregator {
        Aggregator {
            kind: self.kind,
            count: if self.count < u64::MAX {
                (self.count + 1) as u64
            } else {
                self.count
            },
            value: match self.kind {
                AggregationType::Avg => binary64::sum_of(self.value, value),
                AggregationType::Sum => binary64::sum_of(self.value, value),
                AggregationType::Min => if self.count == 0 {
                    value
                } else {
                    binary64::min_of(self.value, value)
                },
                AggregationType::Max => if self.count == 0 {
                    value
                } else {
                    binary64::max_of(self.value, value)
                },
                AggregationType::Count => self.value,
                AggregationType::First => if self.count == 0 {
                    value
                } else {
                    self.value
                },
                AggregationType::Last => value,
            },
        }
    }

    /// The state after the values of `samples` are taken in, in order.
    pub open spec fn fed(self, samples: Seq<Sample>) -> Aggregator
        decreases samples.len(),
    {
        if samples.len() == 0 {
            self
        } else {
            self.fed(samples.drop_last()).updated(samples.last().value)
        }
    }

    /// The aggregate: the sum and the count of no value are 0, every other aggregate of no value
    /// is a NaN.
    pub open spec fn result(self) -> u64 {
        match self.kind {
            AggregationType::Avg => binary64::quotient_of(self.value, self.count as nat),
            AggregationType::Sum => self.value,
            AggregationType::Count => binary64::of_int(self.count as int),
            _ => if self.count == 0 {
                binary64::QUIET_NAN
            } else {
                self.value
            },
        }
    }

    /// An aggregation that has taken in no value.
    pub fn new(kind: AggregationType) -> (r: Self)
        ensures
            r == fresh(kind),
    {
        Aggregator { kind, count: 0, value: 0 }
    }

    /// Forgets every value.
    pub fn reset(&mut self)
        ensures
            *final(self) == fresh(old(self).kind),
    {
        self.count = 0;
        self.value = 0;
    }

    /// Takes in the value of a sample.
    pub fn update(&mut self, _timestamp: Timestamp, value: u64)
        ensures
            *final(self) == old(self).updated(value),
    {
        let next: u64 = match self.kind {
            AggregationType::Avg => binary64::float_sum(self.value, value),
            AggregationType::Sum => binary64::float_sum(self.value, value),
            AggregationType::Min => if self.count == 0 {
                value
            } else {
                binary64::float_min(self.value, value)
            },
            AggregationType::Max => if self.count == 0 {
                value
            } else {
                binary64::float_max(self.value, value)
            },
            AggregationType::Count => self.value,
            AggregationType::First => if self.count == 0 {
                value
            } else {
                self.value
            },
            AggregationType::Last => value,
        };
        self.value = next;
        if self.count < u64::MAX {
            self.count = self.count + 1;
        }
    }

    /// The aggregate of the values taken in.
    pub fn finalize(&self) -> (r: u64)
        ensures
            r == self.result(),
    {
        match self.kind {
            AggregationType::Avg => binary64::float_quotient(self.value, self.count),
            AggregationType::Sum => self.value,
            AggregationType::Count => binary64::float_of_count(self.count),
            _ => if self.count == 0 {
                binary64::QUIET_NAN
            } else {
                self.value
            },
        }
    }
}

/// Taking in one run of samples and then another is taking in both together.
pub proof fn law_fed_in_parts(aggregator: Aggregator, a: Seq<Sample>, b: Seq<Sample>)
    ensures
        aggregator.fed(a).fed(b) == aggregator.fed(a + b),
    decreases b.len(),
{
    if b.len() == 0 {
        assert(a + b =~= a);
    } else {
        law_fed_in_parts(aggregator, a, b.drop_last());
        assert((a + b).drop_last() =~= a + b.drop_last());
    }
}

} // verus!
