//! What is stored at each time, and what a batch makes of it.
use vstd::prelude::*;

use crate::common::{DuplicatePolicy, Sample, Timestamp};

verus! {

/// The value that the ascending samples `s` hold at the time `t`.
pub open spec fn value_at(s: Seq<Sample>, t: Timestamp) -> Option<u64> {
    if crate::chunk::taken(s, t) {
        Some(s[crate::chunk::rank(s, t) as int].value)
    } else {
        None
    }
}

/// The value at the time `t` after the samples of `batch` are written where `v` is stored, one after
/// the other, the policy deciding between two at the same time.
pub open spec fn settled(
    v: Option<u64>,
    batch: Seq<Sample>,
    t: Timestamp,
    policy: DuplicatePolicy,
) -> Option<u64>
    decreases batch.len(),
{
    if batch.len() == 0 {
        v
    } else {
        let before = settled(v, batch.drop_last(), t, policy);
        let x = batch.last();
        if x.timestamp != t {
            before
        } else {
            match before {
                None => Some(x.value),
                Some(old_value) => match policy.kept(old_value, x.value) {
                    Some(value) => Some(value),
                    None => before,
                },
            }
        }
    }
}

/// The value at the time of a sample is that of the sample.
pub(crate) proof fn lemma_value_of(s: Seq<Sample>, i: int)
    requires
        crate::chunk::ascending(s),
        0 <= i < s.len(),
    ensures
        value_at(s, s[i].timestamp) == Some(s[i].value),
{
    let t = s[i].timestamp;
    crate::chunk::lemma_rank(s, t);
    let r = crate::chunk::rank(s, t) as int;
    if r < i {
        assert(s[r].timestamp < s[i].timestamp);
    }
}

/// A sample is stored exactly where its value is the one at its time.
pub(crate) proof fn lemma_stored(s: Seq<Sample>, y: Sample)
    requires
        crate::chunk::ascending(s),
    ensures
        s.contains(y) <==> value_at(s, y.timestamp) == Some(y.value),
        crate::chunk::has_time(s, y.timestamp) <==> value_at(s, y.timestamp) is Some,
{
    crate::chunk::law_taken(s, y.timestamp);
    crate::chunk::lemma_rank(s, y.timestamp);
    if s.contains(y) {
        let i = choose|i: int| 0 <= i < s.len() && s[i] == y;
        lemma_value_of(s, i);
    }
    if value_at(s, y.timestamp) == Some(y.value) {
        assert(s[crate::chunk::rank(s, y.timestamp) as int] == y);
    }
}

/// What is stored at a time after a batch is what the samples at that time make of what was stored
/// there.
pub proof fn law_settled(
    s: Seq<Sample>,
    batch: Seq<Sample>,
    t: Timestamp,
    policy: DuplicatePolicy,
)
    requires
        crate::chunk::ascending(s),
    ensures
        value_at(crate::chunk::merged(s, batch, policy), t) == settled(
            value_at(s, t),
            batch,
            t,
            policy,
        ),
    decreases batch.len(),
{
    if batch.len() > 0 {
        let d = batch.drop_last();
        let x = batch.last();
        law_settled(s, d, t, policy);
        crate::chunk::law_merge(s, d, policy);
        let m = crate::chunk::merged(s, d, policy);
        let r = crate::chunk::upserted(m, x, policy);
        crate::chunk::law_upsert(m, x, policy);
        crate::chunk::lemma_rank(m, x.timestamp);
        let i = crate::chunk::rank(m, x.timestamp) as int;
        if x.timestamp == t {
            if crate::chunk::taken(m, t) {
                crate::chunk::law_duplicate_value(m, x, policy);
            }
            lemma_value_of(r, i);
        } else {
            if crate::chunk::taken(m, t) {
                let y = m[crate::chunk::rank(m, t) as int];
                assert(m.contains(y));
                assert(r.contains(y));
                lemma_stored(r, y);
            }
        }
    }
}

/// Samples at other times settle nothing.
pub(crate) proof fn lemma_unsettled(
    v: Option<u64>,
    batch: Seq<Sample>,
    t: Timestamp,
    policy: DuplicatePolicy,
)
    requires
        !crate::chunk::has_time(batch, t),
    ensures
        settled(v, batch, t, policy) == v,
    decreases batch.len(),
{
    if batch.len() > 0 {
        let d = batch.drop_last();
        assert(batch[batch.len() - 1] == batch.last());
        if crate::chunk::has_time(d, t) {
            let i = choose|i: int| 0 <= i < d.len() && (#[trigger] d[i]).timestamp == t;
            assert(batch[i].timestamp == t);
        }
        lemma_unsettled(v, d, t, policy);
    }
}

/// A sample at a time leaves a value there.
pub(crate) proof fn lemma_some_settled(
    v: Option<u64>,
    batch: Seq<Sample>,
    t: Timestamp,
    policy: DuplicatePolicy,
)
    ensures
        settled(v, batch, t, policy) is Some <==> v is Some || crate::chunk::has_time(batch, t),
    decreases batch.len(),
{
    if batch.len() > 0 {
        let d = batch.drop_last();
        lemma_some_settled(v, d, t, policy);
        if crate::chunk::has_time(d, t) {
            let i = choose|i: int| 0 <= i < d.len() && (#[trigger] d[i]).timestamp == t;
            assert(batch[i].timestamp == t);
        }
        if crate::chunk::has_time(batch, t) && batch.last().timestamp != t {
            let i = choose|i: int| 0 <= i < batch.len() && (#[trigger] batch[i]).timestamp == t;
            assert(d[i].timestamp == t);
        }
        if batch.last().timestamp == t {
            assert(batch[batch.len() - 1].timestamp == t);
        }
    }
}

pub(crate) proof fn lemma_settled_add(
    v: Option<u64>,
    a: Seq<Sample>,
    b: Seq<Sample>,
    t: Timestamp,
    policy: DuplicatePolicy,
)
    ensures
        settled(v, a + b, t, policy) == settled(settled(v, a, t, policy), b, t, policy),
    decreases b.len(),
{
    if b.len() == 0 {
        assert(a + b =~= a);
    } else {
        assert((a + b).drop_last() =~= a + b.drop_last());
        assert((a + b).last() == b.last());
        lemma_settled_add(v, a, b.drop_last(), t, policy);
    }
}

/// Of ascending samples, the one at a time settles it where nothing is stored.
pub(crate) proof fn lemma_settled_alone(b: Seq<Sample>, t: Timestamp, policy: DuplicatePolicy)
    requires
        crate::chunk::ascending(b),
    ensures
        settled(None, b, t, policy) == value_at(b, t),
    decreases b.len(),
{
    crate::chunk::law_taken(b, t);
    if b.len() > 0 {
        let d = b.drop_last();
        let n = b.len() - 1;
        assert(crate::chunk::ascending(d)) by {
            assert forall|i: int, j: int| 0 <= i < j < d.len() implies (
            #[trigger] d[i]).timestamp < (#[trigger] d[j]).timestamp by {
                assert(b[i].timestamp < b[j].timestamp);
            }
        }
        lemma_settled_alone(d, t, policy);
        crate::chunk::law_taken(d, t);
        if b.last().timestamp == t {
            lemma_value_of(b, n);
            if crate::chunk::taken(d, t) {
                let i = choose|i: int| 0 <= i < d.len() && (#[trigger] d[i]).timestamp == t;
                assert(b[i].timestamp < b[n].timestamp);
            }
        } else if crate::chunk::taken(b, t) {
            let i = choose|i: int| 0 <= i < b.len() && (#[trigger] b[i]).timestamp == t;
            lemma_value_of(b, i);
            lemma_value_of(d, i);
        } else if crate::chunk::taken(d, t) {
            let i = choose|i: int| 0 <= i < d.len() && (#[trigger] d[i]).timestamp == t;
            assert(b[i].timestamp == t);
        }
    }
}

/// Ascending samples are given by the values at each time.
pub proof fn law_values_fix_samples(a: Seq<Sample>, b: Seq<Sample>)
    requires
        crate::chunk::ascending(a),
        crate::chunk::ascending(b),
        forall|y: Sample| #[trigger] a.contains(y) <==> b.contains(y),
    ensures
        a == b,
    decreases a.len(),
{
    if a.len() == 0 {
        if b.len() > 0 {
            assert(b.contains(b[0]));
            assert(a.contains(b[0]));
        }
        assert(a =~= b);
    } else {
        let n = a.len() - 1;
        let x = a[n];
        assert(a.contains(x));
        let m = b.len() - 1;
        let z = b[m];
        assert(b.contains(x));
        let p = choose|p: int| 0 <= p < b.len() && b[p] == x;
        assert(b.contains(z));
        assert(a.contains(z));
        let q = choose|q: int| 0 <= q < a.len() && a[q] == z;
        if p < m {
            assert(b[p].timestamp < b[m].timestamp);
            if q < n {
                assert(a[q].timestamp < a[n].timestamp);
            }
        }
        assert(p == m);
        let c = a.drop_last();
        let d = b.drop_last();
        assert forall|i: int, j: int| 0 <= i < j < c.len() implies (#[trigger] c[i]).timestamp < (
        #[trigger] c[j]).timestamp by {
            assert(a[i].timestamp < a[j].timestamp);
        }
        assert forall|i: int, j: int| 0 <= i < j < d.len() implies (#[trigger] d[i]).timestamp < (
        #[trigger] d[j]).timestamp by {
            assert(b[i].timestamp < b[j].timestamp);
        }
        assert forall|y: Sample| #[trigger] c.contains(y) <==> d.contains(y) by {
            if c.contains(y) {
                let i = choose|i: int| 0 <= i < c.len() && c[i] == y;
                assert(a[i] == y);
                assert(a.contains(y));
                let j = choose|j: int| 0 <= j < b.len() && b[j] == y;
                assert(a[i].timestamp < a[n].timestamp);
                assert(d[j] == y);
            }
            if d.contains(y) {
                let i = choose|i: int| 0 <= i < d.len() && d[i] == y;
                assert(b[i] == y);
                assert(b.contains(y));
                assert(a.contains(y));
                let j = choose|j: int| 0 <= j < a.len() && a[j] == y;
                assert(b[i].timestamp < b[m].timestamp);
                assert(c[j] == y);
            }
        }
        law_values_fix_samples(c, d);
        assert(c.push(x) =~= a);
        assert(d.push(z) =~= b);
    }
}

} // verus!
