//! The lower median of a sample, picked by totalOrder.

use vstd::prelude::*;
use crate::ieee::{is_nan, is_nan_bits, lemma_order_key_injective, order_key, total_order_key};

verus! {

/// How many elements of `s` have a totalOrder key below `k`.
pub open spec fn count_below(s: Seq<u64>, k: int) -> nat
    decreases s.len(),
{
    if s.len() == 0 {
        0
    } else {
        count_below(s.drop_last(), k) + if order_key(s.last()) < k {
            1nat
        } else {
            0nat
        }
    }
}

/// Some element of `s` is a NaN.
pub open spec fn has_nan(s: Seq<u64>) -> bool {
    exists|i: int| 0 <= i < s.len() && is_nan(#[trigger] s[i])
}

/// `s` is in ascending totalOrder.
pub open spec fn is_sorted(s: Seq<u64>) -> bool {
    forall|a: int, b: int| 0 <= a < b < s.len() ==> order_key(s[a]) <= order_key(s[b])
}

/// `v` is an element of `s` that stands at zero-based position `p` once `s`
/// is sorted ascending: at most `p` elements come strictly before it, and
/// more than `p` elements come no later than it.
pub open spec fn at_sorted_position(s: Seq<u64>, p: int, v: u64) -> bool {
    &&& s.contains(v)
    &&& count_below(s, order_key(v)) <= p
    &&& p < count_below(s, order_key(v) + 1)
}

/// What `median` returns: nothing for an empty sample or one that holds a
/// NaN; otherwise the element at position `(n - 1) / 2` of the sorted sample,
/// the lower of the two middle elements when `n` is even.
pub open spec fn is_median_of(s: Seq<u64>, r: Option<u64>) -> bool {
    match r {
        None => s.len() == 0 || has_nan(s),
        Some(v) => s.len() > 0 && !has_nan(s) && at_sorted_position(s, (s.len() - 1) / 2, v),
    }
}

proof fn lemma_count_at_most_len(s: Seq<u64>, k: int)
    ensures
        count_below(s, k) <= s.len(),
    decreases s.len(),
{
    if s.len() > 0 {
        lemma_count_at_most_len(s.drop_last(), k);
    }
}

proof fn lemma_count_monotonic(s: Seq<u64>, k1: int, k2: int)
    requires
        k1 <= k2,
    ensures
        count_below(s, k1) <= count_below(s, k2),
    decreases s.len(),
{
    if s.len() > 0 {
        lemma_count_monotonic(s.drop_last(), k1, k2);
    }
}

proof fn lemma_count_insert(t: Seq<u64>, p: int, x: u64, k: int)
    requires
        0 <= p <= t.len(),
    ensures
        count_below(t.insert(p, x), k) == count_below(t, k) + if order_key(x) < k {
            1nat
        } else {
            0nat
        },
    decreases t.len(),
{
    if p == t.len() {
        assert(t.insert(p, x).drop_last() =~= t);
    } else {
        assert(t.insert(p, x).drop_last() =~= t.drop_last().insert(p, x));
        lemma_count_insert(t.drop_last(), p, x, k);
    }
}

/// Where every element from position `p` on has a key of at least `k`, at
/// most `p` elements lie below `k`.
proof fn lemma_count_upper(s: Seq<u64>, p: int, k: int)
    requires
        0 <= p,
        forall|j: int| p <= j < s.len() ==> order_key(#[trigger] s[j]) >= k,
    ensures
        count_below(s, k) <= p,
    decreases s.len(),
{
    if s.len() <= p {
        lemma_count_at_most_len(s, k);
    } else {
        lemma_count_upper(s.drop_last(), p, k);
    }
}

/// Where every element before position `p` has a key below `k`, at least `p`
/// elements lie below `k`.
proof fn lemma_count_lower(s: Seq<u64>, p: int, k: int)
    requires
        0 <= p <= s.len(),
        forall|j: int| 0 <= j < p ==> order_key(#[trigger] s[j]) < k,
    ensures
        count_below(s, k) >= p,
    decreases s.len(),
{
    if s.len() > p {
        lemma_count_lower(s.drop_last(), p, k);
    } else if p > 0 {
        lemma_count_lower(s.drop_last(), p - 1, k);
    }
}

/// Where the counts below `k` and below `k + 1` differ, some element has key
/// exactly `k`.
proof fn lemma_count_witness(s: Seq<u64>, k: int) -> (i: int)
    requires
        count_below(s, k) < count_below(s, k + 1),
    ensures
        0 <= i < s.len(),
        order_key(s[i]) == k,
    decreases s.len(),
{
    if order_key(s.last()) == k {
        (s.len() - 1) as int
    } else {
        lemma_count_witness(s.drop_last(), k)
    }
}

/// A copy of `sample` in ascending totalOrder. Keys are distinct for
/// distinct patterns, so the order is unique.
fn sorted_by_total_order(sample: &[u64]) -> (t: Vec<u64>)
    ensures
        t@.len() == sample@.len(),
        is_sorted(t@),
        forall|k: int| count_below(t@, k) == count_below(sample@, k),
{
    let mut t: Vec<u64> = Vec::new();
    let n = sample.len();
    for i in 0..n
        invariant
            n == sample@.len(),
            t@.len() == i,
            is_sorted(t@),
            forall|k: int| count_below(t@, k) == count_below(sample@.take(i as int), k),
    {
        let x = sample[i];
        let kx = total_order_key(x);
        let mut p: usize = 0;
        while p < t.len() && total_order_key(t[p]) <= kx
            invariant
                p <= t@.len(),
                forall|j: int| 0 <= j < p ==> order_key(#[trigger] t@[j]) <= kx,
            decreases t@.len() - p,
        {
            p = p + 1;
        }
        assert(forall|j: int| p <= j < t@.len() ==> order_key(#[trigger] t@[j]) > kx) by {
            if p < t@.len() {
                assert(order_key(t@[p as int]) > kx);
            }
        }
        let ghost before = t@;
        t.insert(p, x);
        assert(sample@.take(i + 1).drop_last() =~= sample@.take(i as int));
        assert forall|k: int| count_below(t@, k) == count_below(sample@.take(i + 1), k) by {
            lemma_count_insert(before, p as int, x, k);
        }
        assert(is_sorted(t@)) by {
            assert forall|a: int, b: int| 0 <= a < b < t@.len() implies order_key(t@[a])
                <= order_key(t@[b]) by {
                if b < p {
                } else if b == p {
                } else if a < p {
                    assert(order_key(before[b - 1]) > kx);
                } else if a == p {
                    assert(order_key(before[b - 1]) > kx);
                } else {
                }
            }
        }
    }
    assert(sample@.take(n as int) =~= sample@);
    t
}

/// The lower median of `sample`: its element at zero-based position
/// `(n - 1) / 2` once sorted ascending by totalOrder. `None` for an empty
/// sample, and for one that holds a NaN, which has no place among the
/// numbers. The sample is left as it is, and the result is always one of its
/// elements.
pub fn median(sample: &[u64]) -> (r: Option<u64>)
    ensures
        is_median_of(sample@, r),
{
    let n = sample.len();
    if n == 0 {
        return None;
    }
    for i in 0..n
        invariant
            n == sample@.len(),
            forall|j: int| 0 <= j < i ==> !is_nan(#[trigger] sample@[j]),
    {
        if is_nan_bits(sample[i]) {
            return None;
        }
    }
    let t = sorted_by_total_order(sample);
    let mid = (n - 1) / 2;
    let v = t[mid];
    proof {
        let s = sample@;
        let kv = order_key(v);
        assert forall|j: int| mid <= j < t@.len() implies order_key(#[trigger] t@[j]) >= kv by {
            if j > mid {
                assert(order_key(t@[mid as int]) <= order_key(t@[j]));
            }
        }
        lemma_count_upper(t@, mid as int, kv);
        assert forall|j: int| 0 <= j < mid + 1 implies order_key(#[trigger] t@[j]) < kv + 1 by {
            if j < mid {
                assert(order_key(t@[j]) <= order_key(t@[mid as int]));
            }
        }
        lemma_count_lower(t@, mid + 1, kv + 1);
        assert(count_below(s, kv) == count_below(t@, kv));
        assert(count_below(s, kv + 1) == count_below(t@, kv + 1));
        let w = lemma_count_witness(s, kv);
        lemma_order_key_injective(s[w], v);
        assert(s.contains(v));
    }
    Some(v)
}

/// Two results that both meet `median`'s contract for the same sample are
/// the same: the median is a function of the sample alone.
pub proof fn lemma_median_deterministic(s: Seq<u64>, r1: Option<u64>, r2: Option<u64>)
    requires
        is_median_of(s, r1),
        is_median_of(s, r2),
    ensures
        r1 == r2,
{
    if r1 is Some && r2 is Some {
        let v1 = r1->Some_0;
        let v2 = r2->Some_0;
        if order_key(v1) < order_key(v2) {
            lemma_count_monotonic(s, order_key(v1) + 1, order_key(v2));
        } else if order_key(v2) < order_key(v1) {
            lemma_count_monotonic(s, order_key(v2) + 1, order_key(v1));
        }
        lemma_order_key_injective(v1, v2);
    }
}

/// The median of a one-element sample is that element, unless it is a NaN.
pub proof fn lemma_median_single(v: u64, r: Option<u64>)
    requires
        !is_nan(v),
    ensures
        is_median_of(seq![v], r) <==> r == Some(v),
{
    let s = seq![v];
    assert(s.drop_last() =~= Seq::<u64>::empty());
    assert(s[0] == v && s.last() == v);
    assert(count_below(s.drop_last(), order_key(v)) == 0);
    assert(count_below(s.drop_last(), order_key(v) + 1) == 0);
    assert(!has_nan(s));
    assert(count_below(s, order_key(v)) == 0);
    assert(count_below(s, order_key(v) + 1) == 1);
    assert(s.contains(v));
    if is_median_of(s, r) {
        lemma_median_deterministic(s, r, Some(v));
    }
}

} // verus!
