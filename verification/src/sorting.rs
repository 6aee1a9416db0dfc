//! Stable sorting by time.
use vstd::prelude::*;

use crate::common::Sample;

verus! {

/// What can be put in order of time.
pub trait Timed: Sized {
    /// The time that orders the item.
    spec fn time(&self) -> i64;

    /// The time that orders the item.
    fn get_time(&self) -> (r: i64)
        ensures
            r == self.time(),
    ;
}

impl Timed for Sample {
    open spec fn time(&self) -> i64 {
        self.timestamp
    }

    fn get_time(&self) -> (r: i64) {
        self.timestamp
    }
}

/// `s`, which is in order of `key`, with `x` behind the last item whose key is not above its own.
pub open spec fn insert_sorted<A>(s: Seq<A>, x: A, key: spec_fn(A) -> i64) -> Seq<A>
    decreases s.len(),
{
    if s.len() == 0 || key(s.last()) <= key(x) {
        s.push(x)
    } else {
        insert_sorted(s.drop_last(), x, key).push(s.last())
    }
}

/// `s` in order of `key`, items with equal keys in the order they had.
pub open spec fn stable_sort<A>(s: Seq<A>, key: spec_fn(A) -> i64) -> Seq<A>
    decreases s.len(),
{
    if s.len() == 0 {
        s
    } else {
        insert_sorted(stable_sort(s.drop_last(), key), s.last(), key)
    }
}

/// Whether `s` is in order of `key`.
pub open spec fn in_order<A>(s: Seq<A>, key: spec_fn(A) -> i64) -> bool {
    forall|i: int, j: int| 0 <= i <= j < s.len() ==> key(#[trigger] s[i]) <= key(#[trigger] s[j])
}

/// The items of `s` with the key `k`, in order.
pub open spec fn with_key<A>(s: Seq<A>, key: spec_fn(A) -> i64, k: i64) -> Seq<A> {
    s.filter(|a: A| key(a) == k)
}

/// The time of an item, as a function.
pub open spec fn time_of<T: Timed>() -> spec_fn(T) -> i64 {
    |x: T| x.time()
}

/// The time of a sample, as a function.
pub open spec fn sample_time() -> spec_fn(Sample) -> i64 {
    |s: Sample| s.timestamp
}

proof fn lemma_insert_at<A>(s: Seq<A>, x: A, key: spec_fn(A) -> i64, j: int)
    requires
        0 <= j <= s.len(),
        forall|i: int| j <= i < s.len() ==> key(#[trigger] s[i]) > key(x),
        j > 0 ==> key(s[j - 1]) <= key(x),
    ensures
        insert_sorted(s, x, key) == s.insert(j, x),
    decreases s.len(),
{
    if j == s.len() {
        assert(s.insert(j, x) =~= s.push(x));
    } else {
        assert(s.last() == s[s.len() - 1]);
        lemma_insert_at(s.drop_last(), x, key, j);
        assert(s.drop_last().insert(j, x).push(s.last()) =~= s.insert(j, x));
    }
}

proof fn lemma_insert_sorted<A>(s: Seq<A>, x: A, key: spec_fn(A) -> i64)
    requires
        in_order(s, key),
    ensures
        in_order(insert_sorted(s, x, key), key),
        insert_sorted(s, x, key).to_multiset() == s.to_multiset().insert(x),
        insert_sorted(s, x, key).len() == s.len() + 1,
        s.len() > 0 ==> key(insert_sorted(s, x, key).last()) == if key(s.last()) <= key(x) {
            key(x)
        } else {
            key(s.last())
        },
    decreases s.len(),
{
    broadcast use vstd::seq_lib::group_to_multiset_ensures;

    if s.len() == 0 || key(s.last()) <= key(x) {
        let r = s.push(x);
        assert forall|i: int, j: int| 0 <= i <= j < r.len() implies key(#[trigger] r[i]) <= key(
            #[trigger] r[j],
        ) by {
            if j == s.len() && i < j {
                assert(key(s[i]) <= key(s[s.len() - 1]));
            }
        }
    } else {
        let d = s.drop_last();
        lemma_insert_sorted(d, x, key);
        let r = insert_sorted(d, x, key);
        let l = s.last();
        assert(s =~= d.push(l));
        if d.len() > 0 {
            assert(key(s[d.len() - 1]) <= key(s[s.len() - 1]));
        }
        assert(key(r.last()) <= key(l));
        let full = r.push(l);
        assert forall|i: int, j: int| 0 <= i <= j < full.len() implies key(#[trigger] full[i])
            <= key(#[trigger] full[j]) by {
            if j == r.len() && i < j {
                assert(key(r[i]) <= key(r[r.len() - 1]));
            }
        }
        assert(full.to_multiset() =~= s.to_multiset().insert(x));
    }
}

proof fn lemma_with_key_push<A>(s: Seq<A>, x: A, key: spec_fn(A) -> i64, k: i64)
    ensures
        with_key(s.push(x), key, k) == if key(x) == k {
            with_key(s, key, k).push(x)
        } else {
            with_key(s, key, k)
        },
{
    reveal(Seq::filter);
    assert(s.push(x).drop_last() =~= s);
}

proof fn lemma_insert_sorted_filter<A>(s: Seq<A>, x: A, key: spec_fn(A) -> i64, k: i64)
    requires
        in_order(s, key),
    ensures
        with_key(insert_sorted(s, x, key), key, k) == with_key(s.push(x), key, k),
    decreases s.len(),
{
    if s.len() == 0 || key(s.last()) <= key(x) {
    } else {
        let d = s.drop_last();
        let l = s.last();
        lemma_insert_sorted_filter(d, x, key, k);
        lemma_with_key_push(insert_sorted(d, x, key), l, key, k);
        lemma_with_key_push(d, x, key, k);
        lemma_with_key_push(d, l, key, k);
        assert(d.push(l) =~= s);
        lemma_with_key_push(s, x, key, k);
    }
}

/// Sorting by time puts the items in order, keeps every item, and keeps the order of items with
/// equal times.
pub proof fn law_stable_sort<A>(s: Seq<A>, key: spec_fn(A) -> i64)
    ensures
        in_order(stable_sort(s, key), key),
        stable_sort(s, key).to_multiset() == s.to_multiset(),
        stable_sort(s, key).len() == s.len(),
        forall|k: i64|
            #[trigger] with_key(stable_sort(s, key), key, k) == with_key(s, key, k),
    decreases s.len(),
{
    broadcast use vstd::seq_lib::group_to_multiset_ensures;

    if s.len() > 0 {
        let d = s.drop_last();
        let x = s.last();
        law_stable_sort(d, key);
        let t = stable_sort(d, key);
        lemma_insert_sorted(t, x, key);
        assert(s =~= d.push(x));
        assert forall|k: i64|
            #[trigger] with_key(stable_sort(s, key), key, k) == with_key(s, key, k) by {
            lemma_insert_sorted_filter(t, x, key, k);
            assert(with_key(t, key, k) == with_key(d, key, k));
            lemma_with_key_push(t, x, key, k);
            lemma_with_key_push(d, x, key, k);
        }
    }
}

/// Every item of a stable sort is one of the items sorted.
pub proof fn lemma_sort_contains<A>(s: Seq<A>, key: spec_fn(A) -> i64, i: int)
    requires
        0 <= i < stable_sort(s, key).len(),
    ensures
        s.contains(stable_sort(s, key)[i]),
{
    broadcast use vstd::seq_lib::group_to_multiset_ensures;

    law_stable_sort(s, key);
    let r = stable_sort(s, key);
    assert(r.contains(r[i]));
    assert(r.to_multiset().count(r[i]) > 0);
}

/// A sequence in order is its own stable sort.
pub proof fn law_sort_of_sorted<A>(s: Seq<A>, key: spec_fn(A) -> i64)
    requires
        in_order(s, key),
    ensures
        stable_sort(s, key) == s,
    decreases s.len(),
{
    if s.len() > 0 {
        let d = s.drop_last();
        assert(in_order(d, key)) by {
            assert forall|i: int, j: int| 0 <= i <= j < d.len() implies key(#[trigger] d[i]) <= key(
                #[trigger] d[j],
            ) by {
                assert(key(s[i]) <= key(s[j]));
            }
        }
        law_sort_of_sorted(d, key);
        if d.len() > 0 {
            assert(key(s[d.len() - 1]) <= key(s[s.len() - 1]));
        }
        assert(d.push(s.last()) =~= s);
    }
}

/// Sorting commutes with a map that keeps the keys.
pub proof fn lemma_sort_map<A, B>(
    s: Seq<A>,
    f: spec_fn(A) -> B,
    key_a: spec_fn(A) -> i64,
    key_b: spec_fn(B) -> i64,
)
    requires
        forall|a: A| key_b(#[trigger] f(a)) == key_a(a),
    ensures
        stable_sort(s, key_a).map_values(f) == stable_sort(s.map_values(f), key_b),
    decreases s.len(),
{
    if s.len() > 0 {
        lemma_sort_map(s.drop_last(), f, key_a, key_b);
        assert(s.map_values(f).drop_last() =~= s.drop_last().map_values(f));
        lemma_insert_map(stable_sort(s.drop_last(), key_a), s.last(), f, key_a, key_b);
    } else {
        assert(s.map_values(f) =~= Seq::<B>::empty());
        assert(stable_sort(s, key_a).map_values(f) =~= Seq::<B>::empty());
    }
}

proof fn lemma_insert_map<A, B>(
    s: Seq<A>,
    x: A,
    f: spec_fn(A) -> B,
    key_a: spec_fn(A) -> i64,
    key_b: spec_fn(B) -> i64,
)
    requires
        forall|a: A| key_b(#[trigger] f(a)) == key_a(a),
    ensures
        insert_sorted(s, x, key_a).map_values(f) == insert_sorted(s.map_values(f), f(x), key_b),
    decreases s.len(),
{
    let m = s.map_values(f);
    if s.len() == 0 || key_a(s.last()) <= key_a(x) {
        if s.len() > 0 {
            assert(m.last() == f(s.last()));
        }
        assert(s.push(x).map_values(f) =~= m.push(f(x)));
    } else {
        assert(m.last() == f(s.last()));
        lemma_insert_map(s.drop_last(), x, f, key_a, key_b);
        assert(m.drop_last() =~= s.drop_last().map_values(f));
        assert(insert_sorted(s.drop_last(), x, key_a).push(s.last()).map_values(f)
            =~= insert_sorted(s.drop_last(), x, key_a).map_values(f).push(f(s.last())));
    }
}

/// Sorts `v` by time; items with equal times keep their order.
pub fn sort_by_time<T: Timed>(v: &mut Vec<T>)
    ensures
        final(v)@ == stable_sort(old(v)@, time_of::<T>()),
{
    let n: usize = v.len();
    let mut i: usize = 0;
    let ghost key = time_of::<T>();
    let ghost all = v@;
    proof {
        assert(stable_sort(all.take(0), key) + all.skip(0) =~= all);
        law_stable_sort(all.take(0), key);
    }
    while i < n
        invariant
            i <= n,
            n == all.len(),
            key == time_of::<T>(),
            v@ == stable_sort(all.take(i as int), key) + all.skip(i as int),
            stable_sort(all.take(i as int), key).len() == i,
        decreases n - i,
    {
        let ghost front = stable_sort(all.take(i as int), key);
        let ghost x = all[i as int];
        let t: i64 = v[i].get_time();
        let mut j: usize = i;
        while j > 0 && v[j - 1].get_time() > t
            invariant
                j <= i < n,
                n == v@.len(),
                front.len() == i,
                key == time_of::<T>(),
                v@.take(i as int) == front,
                t == key(x),
                forall|k: int| j <= k < i ==> key(#[trigger] front[k]) > t,
            decreases j,
        {
            j = j - 1;
            assert(front[j as int] == v@[j as int]);
        }
        proof {
            assert(v@[i as int] == x);
            if j > 0 {
                assert(front[j - 1] == v@[j - 1]);
            }
            lemma_insert_at(front, x, key, j as int);
            assert(all.take(i + 1).drop_last() =~= all.take(i as int));
            assert(all.take(i + 1).last() == x);
            assert(front.insert(j as int, x) + all.skip(i + 1) =~= v@.remove(i as int).insert(
                j as int,
                x,
            ));
        }
        if j < i {
            let item = v.remove(i);
            v.insert(j, item);
        } else {
            proof {
                assert(v@.remove(i as int).insert(j as int, x) =~= v@);
            }
        }
        i = i + 1;
    }
    proof {
        assert(all.take(i as int) =~= all);
        assert(v@ =~= stable_sort(all, key));
    }
}

} // verus!
