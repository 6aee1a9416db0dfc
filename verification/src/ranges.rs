//! Sets of times, held as ranges.
use vstd::prelude::*;

use crate::common::Timestamp;

verus! {

/// A first and a last time.
pub type TimeRange = (Timestamp, Timestamp);

/// A set of times, held as ranges that neither overlap nor touch.
#[verifier::external_body]
#[derive(Debug)]
pub struct TimestampRanges {
    inner: range_set_blaze::RangeSetBlaze<i64>,
}

/// The times in a set.
pub uninterp spec fn range_contents(s: TimestampRanges) -> Set<int>;

/// The times from `start` to `end`.
pub open spec fn times_between(start: Timestamp, end: Timestamp) -> Set<int> {
    Set::new(|t: int| start <= t <= end)
}

/// Whether `t` lies in one of the ranges.
pub open spec fn covered(ranges: Seq<TimeRange>, t: int) -> bool {
    exists|i: int| 0 <= i < ranges.len() && (#[trigger] ranges[i]).0 <= t <= ranges[i].1
}

/// The times that lie in one of the ranges.
pub open spec fn covered_times(ranges: Seq<TimeRange>) -> Set<int> {
    Set::new(|t: int| covered(ranges, t))
}

/// Whether `ranges` are the longest ranges of `times`, in ascending order.
pub open spec fn is_ranges_of(ranges: Seq<TimeRange>, times: Set<int>) -> bool {
    &&& forall|i: int| 0 <= i < ranges.len() ==> (#[trigger] ranges[i]).0 <= ranges[i].1
    &&& forall|i: int, j: int|
        0 <= i < j < ranges.len() ==> (#[trigger] ranges[i]).1 + 1 < (#[trigger] ranges[j]).0
    &&& forall|t: int| #[trigger] times.contains(t) <==> covered(ranges, t)
}

/// The longest ranges of a set of times, in ascending order.
pub open spec fn ranges_of(times: Set<int>) -> Seq<TimeRange> {
    choose|ranges: Seq<TimeRange>| is_ranges_of(ranges, times)
}

impl TimestampRanges {
    /// The empty set.
    ///
    /// Calls `RangeSetBlaze::new`, of which it is claimed that the set holds nothing.
    #[verifier::external_body]
    pub(crate) fn new() -> (r: Self)
        ensures
            range_contents(r) == Set::<int>::empty(),
    {
        TimestampRanges { inner: range_set_blaze::RangeSetBlaze::new() }
    }

    /// Adds the times from `start` to `end`.
    ///
    /// Calls `RangeSetBlaze::ranges_insert`, of which it is claimed that it adds these times and no
    /// others; that is none where `end` comes before `start`.
    #[verifier::external_body]
    pub(crate) fn ranges_insert(&mut self, start: Timestamp, end: Timestamp)
        ensures
            range_contents(*final(self)) == range_contents(*old(self)).union(
                times_between(start, end),
            ),
    {
        self.inner.ranges_insert(start..=end);
    }

    /// The ranges of the set.
    ///
    /// Calls `RangeSetBlaze::ranges`, of which it is claimed that it gives the longest ranges, in
    /// ascending order.
    #[verifier::external_body]
    pub(crate) fn ranges(&self) -> (r: Vec<TimeRange>)
        ensures
            is_ranges_of(r@, range_contents(*self)),
    {
        self.inner.ranges().map(|range| range.into_inner()).collect()
    }
}

proof fn lemma_last_range(a: Seq<TimeRange>, b: Seq<TimeRange>, times: Set<int>)
    requires
        is_ranges_of(a, times),
        is_ranges_of(b, times),
        a.len() > 0,
        b.len() > 0,
    ensures
        a.last().1 <= b.last().1,
        a.last().1 == b.last().1 ==> a.last().0 >= b.last().0,
{
    let x = a.last();
    let y = b.last();
    let n = a.len() - 1;
    let m = b.len() - 1;
    assert(a[n] == x && b[m] == y);
    assert(covered(a, x.1 as int));
    assert(times.contains(x.1 as int));
    let i = choose|i: int| 0 <= i < b.len() && (#[trigger] b[i]).0 <= x.1 <= b[i].1;
    if i < m {
        assert(b[i].1 + 1 < b[m].0);
    }
    if x.1 == y.1 && x.0 < y.0 {
        let t = y.0 - 1;
        assert(covered(a, t));
        assert(times.contains(t));
        assert(covered(b, t));
        let k = choose|k: int| 0 <= k < b.len() && (#[trigger] b[k]).0 <= t <= b[k].1;
        if k < m {
            assert(b[k].1 + 1 < b[m].0);
        }
    }
}

proof fn lemma_drop_range(a: Seq<TimeRange>, times: Set<int>)
    requires
        is_ranges_of(a, times),
        a.len() > 0,
    ensures
        is_ranges_of(
            a.drop_last(),
            times.difference(times_between(a.last().0, a.last().1)),
        ),
{
    let d = a.drop_last();
    let n = a.len() - 1;
    let gone = times_between(a.last().0, a.last().1);
    assert forall|i: int| 0 <= i < d.len() implies (#[trigger] d[i]).0 <= d[i].1 by {
        assert(d[i] == a[i]);
    }
    assert forall|i: int, j: int| 0 <= i < j < d.len() implies (#[trigger] d[i]).1 + 1 < (
    #[trigger] d[j]).0 by {
        assert(d[i] == a[i] && d[j] == a[j]);
    }
    assert forall|t: int| #[trigger] times.difference(gone).contains(t) <==> covered(d, t) by {
        if covered(d, t) {
            let i = choose|i: int| 0 <= i < d.len() && (#[trigger] d[i]).0 <= t <= d[i].1;
            assert(a[i].0 <= t <= a[i].1);
            assert(a[i].1 + 1 < a[n].0);
            assert(covered(a, t));
            assert(times.contains(t));
        }
        if times.contains(t) && !gone.contains(t) {
            let i = choose|i: int| 0 <= i < a.len() && (#[trigger] a[i]).0 <= t <= a[i].1;
            assert(d[i].0 <= t <= d[i].1);
        }
    }
}

/// A set of times has at most one sequence of longest ranges.
pub proof fn law_ranges_unique(a: Seq<TimeRange>, b: Seq<TimeRange>, times: Set<int>)
    requires
        is_ranges_of(a, times),
        is_ranges_of(b, times),
    ensures
        a == b,
    decreases a.len(),
{
    if a.len() == 0 {
        if b.len() > 0 {
            assert(covered(b, b[0].0 as int));
            assert(times.contains(b[0].0 as int));
        }
        assert(a =~= b);
    } else {
        if b.len() == 0 {
            assert(covered(a, a[0].0 as int));
            assert(times.contains(a[0].0 as int));
        }
        lemma_last_range(a, b, times);
        lemma_last_range(b, a, times);
        lemma_drop_range(a, times);
        lemma_drop_range(b, times);
        law_ranges_unique(
            a.drop_last(),
            b.drop_last(),
            times.difference(times_between(a.last().0, a.last().1)),
        );
        assert(a =~= a.drop_last().push(a.last()));
        assert(b =~= b.drop_last().push(b.last()));
    }
}

/// How many ranges at the front end before `a`, without touching it.
spec fn ranges_before(ranges: Seq<TimeRange>, a: int) -> nat
    decreases ranges.len(),
{
    if ranges.len() == 0 || ranges[0].1 + 1 >= a {
        0
    } else {
        1 + ranges_before(ranges.drop_first(), a)
    }
}

proof fn lemma_ranges_before(ranges: Seq<TimeRange>, a: int)
    ensures
        ranges_before(ranges, a) <= ranges.len(),
        forall|i: int| 0 <= i < ranges_before(ranges, a) ==> (#[trigger] ranges[i]).1 + 1 < a,
        ranges_before(ranges, a) < ranges.len() ==> ranges[ranges_before(ranges, a) as int].1 + 1
            >= a,
    decreases ranges.len(),
{
    if ranges.len() > 0 && ranges[0].1 + 1 < a {
        let d = ranges.drop_first();
        lemma_ranges_before(d, a);
        let n = ranges_before(ranges, a);
        assert forall|i: int| 0 <= i < n implies (#[trigger] ranges[i]).1 + 1 < a by {
            if i > 0 {
                assert(d[i - 1] == ranges[i]);
            }
        }
        if n < ranges.len() {
            assert(d[n - 1] == ranges[n as int]);
        }
    }
}

/// How many ranges at the front start before `b` or touch it.
spec fn ranges_up_to(ranges: Seq<TimeRange>, b: int) -> nat
    decreases ranges.len(),
{
    if ranges.len() == 0 || ranges[0].0 > b + 1 {
        0
    } else {
        1 + ranges_up_to(ranges.drop_first(), b)
    }
}

proof fn lemma_ranges_up_to(ranges: Seq<TimeRange>, b: int)
    ensures
        ranges_up_to(ranges, b) <= ranges.len(),
        forall|i: int| 0 <= i < ranges_up_to(ranges, b) ==> (#[trigger] ranges[i]).0 <= b + 1,
        ranges_up_to(ranges, b) < ranges.len() ==> ranges[ranges_up_to(ranges, b) as int].0 > b + 1,
    decreases ranges.len(),
{
    if ranges.len() > 0 && ranges[0].0 <= b + 1 {
        let d = ranges.drop_first();
        lemma_ranges_up_to(d, b);
        let n = ranges_up_to(ranges, b);
        assert forall|i: int| 0 <= i < n implies (#[trigger] ranges[i]).0 <= b + 1 by {
            if i > 0 {
                assert(d[i - 1] == ranges[i]);
            }
        }
        if n < ranges.len() {
            assert(d[n - 1] == ranges[n as int]);
        }
    }
}

/// The longest ranges after `r` is added to `ranges`: those that touch it grow together with it.
spec fn spliced(ranges: Seq<TimeRange>, r: TimeRange) -> Seq<TimeRange> {
    let p = ranges_before(ranges, r.0 as int) as int;
    let q = ranges_up_to(ranges, r.1 as int) as int;
    let lo = if p < q && ranges[p].0 < r.0 {
        ranges[p].0
    } else {
        r.0
    };
    let hi = if p < q && ranges[q - 1].1 > r.1 {
        ranges[q - 1].1
    } else {
        r.1
    };
    ranges.take(p) + seq![(lo, hi)] + ranges.skip(q)
}

/// Where the parts of the longest ranges with one more stand.
proof fn lemma_spliced(ranges: Seq<TimeRange>, times: Set<int>, r: TimeRange)
    requires
        is_ranges_of(ranges, times),
        r.0 <= r.1,
    ensures
        ({
            let p = ranges_before(ranges, r.0 as int) as int;
            let q = ranges_up_to(ranges, r.1 as int) as int;
            let all = spliced(ranges, r);
            &&& 0 <= p <= q <= ranges.len()
            &&& all.len() == p + 1 + ranges.len() - q
            &&& forall|i: int| 0 <= i < p ==> #[trigger] all[i] == ranges[i]
            &&& forall|i: int| p < i < all.len() ==> #[trigger] all[i] == ranges[q + i - p - 1]
            &&& all[p].0 <= r.0
            &&& r.1 <= all[p].1
            &&& p == q ==> all[p] == r
            &&& p < q ==> all[p].0 == r.0 || all[p].0 == ranges[p].0
            &&& p < q ==> all[p].1 == r.1 || all[p].1 == ranges[q - 1].1
            &&& p < q ==> all[p].0 <= ranges[p].0 && ranges[q - 1].1 <= all[p].1
            &&& p < q ==> ranges[p].1 + 1 >= r.0 && ranges[q - 1].0 <= r.1 + 1
        }),
{
    lemma_ranges_before(ranges, r.0 as int);
    lemma_ranges_up_to(ranges, r.1 as int);
    let p = ranges_before(ranges, r.0 as int) as int;
    let q = ranges_up_to(ranges, r.1 as int) as int;
    if p > q {
        assert(ranges[q].1 + 1 < r.0);
        assert(ranges[q].0 <= ranges[q].1);
    }
    if p < q {
        assert(ranges[q - 1].0 <= r.1 + 1);
    }
}

proof fn lemma_spliced_order(ranges: Seq<TimeRange>, times: Set<int>, r: TimeRange, i: int, j: int)
    requires
        is_ranges_of(ranges, times),
        r.0 <= r.1,
        0 <= i < j < spliced(ranges, r).len(),
    ensures
        spliced(ranges, r)[i].1 + 1 < spliced(ranges, r)[j].0,
{
    lemma_ranges_before(ranges, r.0 as int);
    lemma_ranges_up_to(ranges, r.1 as int);
    lemma_spliced(ranges, times, r);
    let p = ranges_before(ranges, r.0 as int) as int;
    let q = ranges_up_to(ranges, r.1 as int) as int;
    let all = spliced(ranges, r);
    if i < p {
        assert(all[i] == ranges[i]);
        assert(ranges[i].1 + 1 < r.0);
        if j < p {
            assert(all[j] == ranges[j]);
        } else if j == p {
            if p < q {
                assert(ranges[i].1 + 1 < ranges[p].0);
            }
        } else {
            assert(all[j] == ranges[q + j - p - 1]);
            assert(ranges[i].1 + 1 < ranges[q + j - p - 1].0);
        }
    } else {
        let m = q + j - p - 1;
        assert(all[j] == ranges[m]);
        if i == p {
            assert(ranges[q].0 > r.1 + 1);
            if m > q {
                assert(ranges[q].1 + 1 < ranges[m].0);
                assert(ranges[q].0 <= ranges[q].1);
            }
            if p < q {
                assert(ranges[q - 1].1 + 1 < ranges[m].0);
            }
        } else {
            assert(all[i] == ranges[q + i - p - 1]);
            assert(ranges[q + i - p - 1].1 + 1 < ranges[m].0);
        }
    }
}

proof fn lemma_spliced_cover(ranges: Seq<TimeRange>, times: Set<int>, r: TimeRange, t: int)
    requires
        is_ranges_of(ranges, times),
        r.0 <= r.1,
    ensures
        covered(spliced(ranges, r), t) <==> covered(ranges, t) || r.0 <= t <= r.1,
{
    lemma_spliced(ranges, times, r);
    let p = ranges_before(ranges, r.0 as int) as int;
    let q = ranges_up_to(ranges, r.1 as int) as int;
    let all = spliced(ranges, r);
    if covered(ranges, t) {
        let k = choose|k: int| 0 <= k < ranges.len() && (#[trigger] ranges[k]).0 <= t
            <= ranges[k].1;
        if k < p {
            assert(all[k].0 <= t <= all[k].1);
        } else if k >= q {
            let m = p + 1 + k - q;
            assert(all[m] == ranges[k]);
            assert(all[m].0 <= t <= all[m].1);
        } else {
            if k > p {
                assert(ranges[p].1 + 1 < ranges[k].0);
                assert(ranges[p].0 <= ranges[p].1);
            }
            if k < q - 1 {
                assert(ranges[k].1 + 1 < ranges[q - 1].0);
                assert(ranges[q - 1].0 <= ranges[q - 1].1);
            }
            assert(all[p].0 <= t <= all[p].1);
        }
    }
    if r.0 <= t <= r.1 {
        assert(all[p].0 <= t <= all[p].1);
    }
    if covered(all, t) {
        let k = choose|k: int| 0 <= k < all.len() && (#[trigger] all[k]).0 <= t <= all[k].1;
        if k < p {
            assert(ranges[k].0 <= t <= ranges[k].1);
        } else if k > p {
            assert(ranges[q + k - p - 1].0 <= t <= ranges[q + k - p - 1].1);
        } else if t < r.0 {
            assert(ranges[p].0 <= t <= ranges[p].1);
        } else if t > r.1 {
            assert(ranges[q - 1].0 <= t <= ranges[q - 1].1);
        }
    }
}

/// One more range added to the longest ranges of a set of times.
proof fn lemma_add_range(ranges: Seq<TimeRange>, times: Set<int>, r: TimeRange) -> (all: Seq<
    TimeRange,
>)
    requires
        is_ranges_of(ranges, times),
    ensures
        is_ranges_of(all, times.union(times_between(r.0, r.1))),
{
    let more = times.union(times_between(r.0, r.1));
    if r.0 > r.1 {
        assert(more =~= times);
        ranges
    } else {
        let all = spliced(ranges, r);
        let p = ranges_before(ranges, r.0 as int) as int;
        let q = ranges_up_to(ranges, r.1 as int) as int;
        lemma_spliced(ranges, times, r);
        assert forall|i: int| 0 <= i < all.len() implies (#[trigger] all[i]).0 <= all[i].1 by {
            if i < p {
                assert(ranges[i].0 <= ranges[i].1);
            } else if i > p {
                assert(ranges[q + i - p - 1].0 <= ranges[q + i - p - 1].1);
            }
        }
        assert forall|i: int, j: int| 0 <= i < j < all.len() implies (#[trigger] all[i]).1 + 1 < (
        #[trigger] all[j]).0 by {
            lemma_spliced_order(ranges, times, r, i, j);
        }
        assert forall|t: int| #[trigger] more.contains(t) <==> covered(all, t) by {
            lemma_spliced_cover(ranges, times, r, t);
            assert(times.contains(t) <==> covered(ranges, t));
        }
        all
    }
}

/// The times that lie in any of some ranges have longest ranges.
pub proof fn law_ranges_exist(runs: Seq<TimeRange>)
    ensures
        is_ranges_of(ranges_of(covered_times(runs)), covered_times(runs)),
{
    let found = lemma_find_ranges(runs);
    assert(is_ranges_of(found, covered_times(runs)));
}

proof fn lemma_find_ranges(runs: Seq<TimeRange>) -> (found: Seq<TimeRange>)
    ensures
        is_ranges_of(found, covered_times(runs)),
    decreases runs.len(),
{
    if runs.len() == 0 {
        Seq::empty()
    } else {
        let d = runs.drop_last();
        let r = runs.last();
        let before = lemma_find_ranges(d);
        let found = lemma_add_range(before, covered_times(d), r);
        lemma_covered_push(d, r);
        assert(d.push(r) =~= runs);
        found
    }
}

/// One more range adds its times.
pub(crate) proof fn lemma_covered_push(ranges: Seq<TimeRange>, r: TimeRange)
    ensures
        covered_times(ranges.push(r)) == covered_times(ranges).union(times_between(r.0, r.1)),
{
    let all = ranges.push(r);
    assert forall|t: int| covered(all, t) <==> covered(ranges, t) || r.0 <= t <= r.1 by {
        if covered(ranges, t) {
            let i = choose|i: int| 0 <= i < ranges.len() && (#[trigger] ranges[i]).0 <= t
                <= ranges[i].1;
            assert(all[i].0 <= t <= all[i].1);
        }
        if r.0 <= t <= r.1 {
            assert(all[all.len() - 1] == r);
        }
        if covered(all, t) {
            let i = choose|i: int| 0 <= i < all.len() && (#[trigger] all[i]).0 <= t <= all[i].1;
            if i < ranges.len() {
                assert(ranges[i].0 <= t <= ranges[i].1);
            }
        }
    }
    assert(covered_times(all) =~= covered_times(ranges).union(times_between(r.0, r.1)));
}

} // verus!
