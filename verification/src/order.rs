//! Stable ordering by integer keys.

use vstd::prelude::*;

use crate::ieee::Real32;

verus! {

/// `a` comes before `b` when the positions are ordered by key, equal keys
/// keeping the order in which they stand.
pub open spec fn precedes(keys: Seq<i64>, a: int, b: int) -> bool {
    keys[a] < keys[b] || (keys[a] == keys[b] && a < b)
}

/// `perm` lists the positions `0..n` of `keys`, each once, by ascending key,
/// equal keys in the order in which they stand.
pub open spec fn is_stable_order(keys: Seq<i64>, perm: Seq<usize>) -> bool {
    &&& perm.len() == keys.len()
    &&& forall|i: int| 0 <= i < perm.len() ==> (#[trigger] perm[i]) < keys.len()
    &&& forall|i: int, j: int|
        0 <= i < j < perm.len() ==> precedes(keys, #[trigger] perm[i] as int, #[trigger] perm[j] as int)
    &&& forall|p: usize| p < keys.len() ==> #[trigger] perm.contains(p)
}

/// The positions of `keys` by ascending key, equal keys in the order in which
/// they stand.
pub open spec fn sorted_positions(keys: Seq<i64>) -> Seq<usize> {
    choose|perm: Seq<usize>| is_stable_order(keys, perm)
}

/// The same of the first `n` positions only.
spec fn orders_prefix(keys: Seq<i64>, perm: Seq<usize>, n: int) -> bool {
    &&& perm.len() == n
    &&& 0 <= n <= keys.len()
    &&& forall|i: int| 0 <= i < perm.len() ==> (#[trigger] perm[i]) < n
    &&& forall|i: int, j: int|
        0 <= i < j < perm.len() ==> precedes(keys, #[trigger] perm[i] as int, #[trigger] perm[j] as int)
    &&& forall|p: usize| p < n ==> #[trigger] perm.contains(p)
}

/// The positions of `keys` in stable ascending order.
pub fn stable_order(keys: &Vec<i64>) -> (perm: Vec<usize>)
    ensures
        is_stable_order(keys@, perm@),
        perm@ == sorted_positions(keys@),
{
    let mut perm: Vec<usize> = Vec::new();
    let mut n: usize = 0;
    while n < keys.len()
        invariant
            n <= keys.len(),
            orders_prefix(keys@, perm@, n as int),
        decreases keys.len() - n,
    {
        // The new position goes behind every one whose key is not larger.
        let mut at: usize = perm.len();
        while at > 0 && keys[perm[at - 1]] > keys[n as usize]
            invariant
                n < keys.len(),
                orders_prefix(keys@, perm@, n as int),
                at <= perm.len(),
                forall|i: int| at <= i < perm.len() ==> keys[#[trigger] perm[i] as int] > keys[n as int],
            decreases at,
        {
            at = at - 1;
        }
        proof {
            assert forall|i: int| 0 <= i < at implies precedes(keys@, #[trigger] perm@[i] as int, n as int) by {
                if i < at - 1 {
                    assert(precedes(keys@, perm@[i] as int, perm@[at - 1] as int));
                }
            }
            insertion_keeps_order(keys@, perm@, n as int, at as int);
        }
        perm.insert(at, n);
        n = n + 1;
    }
    proof {
        keys_can_be_ordered(keys@);
        stable_order_is_unique(keys@, perm@, sorted_positions(keys@));
    }
    perm
}

/// A stable order is determined by its keys.
pub proof fn stable_order_is_unique(keys: Seq<i64>, a: Seq<usize>, b: Seq<usize>)
    requires
        is_stable_order(keys, a),
        is_stable_order(keys, b),
    ensures
        a == b,
{
    assert forall|i: int| 0 <= i < a.len() implies a[i] == b[i] by {
        stable_orders_agree_at(keys, a, b, i);
    }
    assert(a =~= b);
}

proof fn stable_orders_agree_at(keys: Seq<i64>, a: Seq<usize>, b: Seq<usize>, i: int)
    requires
        is_stable_order(keys, a),
        is_stable_order(keys, b),
        0 <= i < a.len(),
    ensures
        a[i] == b[i],
    decreases i,
{
    assert forall|k: int| 0 <= k < i implies a[k] == b[k] by {
        stable_orders_agree_at(keys, a, b, k);
    }
    assert(b.contains(a[i]) && a.contains(b[i]));
    let j = choose|j: int| 0 <= j < b.len() && b[j] == a[i];
    let l = choose|l: int| 0 <= l < a.len() && a[l] == b[i];
    if a[i] != b[i] {
        assert(j != i && l != i);
        if j < i {
            assert(a[j] == b[j]);
            assert(precedes(keys, a[j] as int, a[i] as int));
        } else if l < i {
            assert(a[l] == b[l]);
            assert(precedes(keys, b[l] as int, b[i] as int));
        } else {
            assert(precedes(keys, b[i] as int, b[j] as int));
            assert(precedes(keys, a[i] as int, a[l] as int));
        }
    }
}

/// Where position `n` goes in the order of the positions before it: behind every
/// one whose key is not larger.
proof fn insertion_point(keys: Seq<i64>, perm: Seq<usize>, n: int, from: int) -> (at: int)
    requires
        0 <= n < keys.len(),
        orders_prefix(keys, perm, n),
        0 <= from <= perm.len(),
        forall|i: int| from <= i < perm.len() ==> keys[#[trigger] perm[i] as int] > keys[n],
    ensures
        0 <= at <= perm.len(),
        forall|i: int| at <= i < perm.len() ==> keys[#[trigger] perm[i] as int] > keys[n],
        forall|i: int| 0 <= i < at ==> precedes(keys, #[trigger] perm[i] as int, n),
    decreases from,
{
    if from > 0 && keys[perm[from - 1] as int] > keys[n] {
        insertion_point(keys, perm, n, from - 1)
    } else {
        assert forall|i: int| 0 <= i < from implies precedes(keys, #[trigger] perm[i] as int, n) by {
            if i < from - 1 {
                assert(precedes(keys, perm[i] as int, perm[from - 1] as int));
            }
        }
        from
    }
}

/// A position put in its place keeps the order.
proof fn insertion_keeps_order(keys: Seq<i64>, before: Seq<usize>, n: int, at: int)
    requires
        0 <= n < keys.len() <= usize::MAX,
        orders_prefix(keys, before, n),
        0 <= at <= before.len(),
        forall|i: int| at <= i < before.len() ==> keys[#[trigger] before[i] as int] > keys[n],
        forall|i: int| 0 <= i < at ==> precedes(keys, #[trigger] before[i] as int, n),
    ensures
        orders_prefix(keys, before.insert(at, n as usize), n + 1),
{
    let after = before.insert(at, n as usize);
    assert forall|i: int, j: int| 0 <= i < j < after.len() implies precedes(
        keys,
        #[trigger] after[i] as int,
        #[trigger] after[j] as int,
    ) by {
        let bi: int = if i < at { i } else { i - 1 };
        let bj: int = if j < at { j } else { j - 1 };
        if i == at {
            assert(after[j] == before[bj]);
        } else if j == at {
            assert(after[i] == before[bi]);
        } else {
            assert(after[i] == before[bi] && after[j] == before[bj]);
        }
    }
    assert forall|p: usize| p < n + 1 implies #[trigger] after.contains(p) by {
        if p == n {
            assert(after[at] == p);
        } else {
            assert(before.contains(p));
            let i = choose|i: int| 0 <= i < before.len() && before[i] == p;
            if i < at {
                assert(after[i] == p);
            } else {
                assert(after[i + 1] == p);
            }
        }
    }
}

proof fn prefix_order(keys: Seq<i64>, n: int) -> (perm: Seq<usize>)
    requires
        0 <= n <= keys.len() <= usize::MAX,
    ensures
        orders_prefix(keys, perm, n),
    decreases n,
{
    if n == 0 {
        Seq::empty()
    } else {
        let before = prefix_order(keys, n - 1);
        let at = insertion_point(keys, before, n - 1, before.len() as int);
        insertion_keeps_order(keys, before, n - 1, at);
        before.insert(at, (n - 1) as usize)
    }
}

/// Keys can always be ordered: `sorted_positions` is their stable order.
pub proof fn keys_can_be_ordered(keys: Seq<i64>)
    requires
        keys.len() <= usize::MAX,
    ensures
        is_stable_order(keys, sorted_positions(keys)),
{
    let perm = prefix_order(keys, keys.len() as int);
    assert(is_stable_order(keys, perm));
}

/// The integers by which values are put in total order.
pub open spec fn order_keys(values: Seq<Real32>) -> Seq<i64> {
    Seq::new(values.len(), |i: int| values[i].total_rank() as i64)
}

/// The integers by which values are put in descending total order.
pub open spec fn descending_keys(values: Seq<Real32>) -> Seq<i64> {
    Seq::new(values.len(), |i: int| (-values[i].total_rank()) as i64)
}

/// The positions of values in ascending total order.
pub fn ascending(values: &Vec<Real32>) -> (perm: Vec<usize>)
    ensures
        is_stable_order(order_keys(values@), perm@),
        perm@ == sorted_positions(order_keys(values@)),
{
    let mut keys: Vec<i64> = Vec::new();
    let mut i: usize = 0;
    while i < values.len()
        invariant
            i <= values.len(),
            keys@ == order_keys(values@).take(i as int),
        decreases values.len() - i,
    {
        keys.push(values[i].order_rank());
        i = i + 1;
        assert(keys@ =~= order_keys(values@).take(i as int));
    }
    assert(keys@ =~= order_keys(values@));
    stable_order(&keys)
}

/// The positions of values in descending total order, equal ones as they stand.
pub fn descending(values: &Vec<Real32>) -> (perm: Vec<usize>)
    ensures
        is_stable_order(descending_keys(values@), perm@),
        perm@ == sorted_positions(descending_keys(values@)),
{
    let mut keys: Vec<i64> = Vec::new();
    let mut i: usize = 0;
    while i < values.len()
        invariant
            i <= values.len(),
            keys@ == descending_keys(values@).take(i as int),
        decreases values.len() - i,
    {
        let rank: i64 = values[i].order_rank();
        keys.push(-rank);
        i = i + 1;
        assert(keys@ =~= descending_keys(values@).take(i as int));
    }
    assert(keys@ =~= descending_keys(values@));
    stable_order(&keys)
}

/// The value in place `k` of the ascending total order.
pub open spec fn kth_smallest(values: Seq<Real32>, k: int) -> Real32 {
    values[sorted_positions(order_keys(values))[k] as int]
}

/// The upper median: the value at half the length of the ascending order.
pub fn median(values: &Vec<Real32>) -> (m: Real32)
    requires
        values.len() > 0,
    ensures
        m == kth_smallest(values@, values.len() as int / 2),
{
    let perm: Vec<usize> = ascending(values);
    values[perm[values.len() / 2]]
}

/// The median has at least as many values on either side as the halves hold:
/// those before it in the order are not above it, those after it not below.
pub proof fn median_splits_the_values(values: Seq<Real32>, i: int)
    requires
        0 <= i < values.len() <= usize::MAX,
    ensures
        ({
            let h = values.len() as int / 2;
            &&& i <= h ==> kth_smallest(values, i).total_rank() <= kth_smallest(values, h).total_rank()
            &&& i >= h ==> kth_smallest(values, i).total_rank() >= kth_smallest(values, h).total_rank()
        }),
{
    let keys = order_keys(values);
    let perm = sorted_positions(keys);
    let h = values.len() as int / 2;
    keys_can_be_ordered(keys);
    if i < h {
        assert(precedes(keys, perm[i] as int, perm[h] as int));
    } else if i > h {
        assert(precedes(keys, perm[h] as int, perm[i] as int));
    }
}

/// Among the first `n` values the one at `k` is largest in total order, the last
/// of several.
pub open spec fn is_last_largest(values: Seq<Real32>, n: int, k: int) -> bool {
    &&& 0 <= k < n
    &&& forall|j: int|
        0 <= j < n ==> {
            &&& (#[trigger] values[j]).total_rank() <= values[k].total_rank()
            &&& j > k ==> values[j].total_rank() < values[k].total_rank()
        }
}

/// The position of the largest value in total order, the last of several.
pub fn last_largest(values: &Vec<Real32>) -> (r: Option<usize>)
    ensures
        match r {
            Some(k) => is_last_largest(values@, values.len() as int, k as int),
            None => values.len() == 0,
        },
{
    if values.len() == 0 {
        return None;
    }
    let mut k: usize = 0;
    let mut i: usize = 1;
    while i < values.len()
        invariant
            1 <= i <= values.len(),
            is_last_largest(values@, i as int, k as int),
        decreases values.len() - i,
    {
        if values[k].order_rank() <= values[i].order_rank() {
            k = i;
        }
        i = i + 1;
    }
    Some(k)
}

/// The last largest value is determined by the values.
pub proof fn last_largest_is_unique(values: Seq<Real32>, n: int, a: int, b: int)
    requires
        is_last_largest(values, n, a),
        is_last_largest(values, n, b),
    ensures
        a == b,
{
    assert(values[a].total_rank() <= values[b].total_rank());
    assert(values[b].total_rank() <= values[a].total_rank());
}

/// `best` is `start` or one of the first `n` values, and no number among these is
/// above it; it is not a number only if none of them is.
pub open spec fn is_maximum_of(start: Real32, values: Seq<Real32>, n: int, best: Real32) -> bool {
    &&& best == start || exists|i: int| 0 <= i < n && best == #[trigger] values[i]
    &&& best.nan() ==> start.nan() && forall|i: int| 0 <= i < n ==> (#[trigger] values[i]).nan()
    &&& !start.nan() ==> start.at_most(best)
    &&& forall|i: int| 0 <= i < n && !(#[trigger] values[i]).nan() ==> values[i].at_most(best)
}

/// The largest number among `start` and the values.
pub fn maximum_of(start: Real32, values: &Vec<Real32>) -> (best: Real32)
    ensures
        is_maximum_of(start, values@, values.len() as int, best),
{
    let mut best: Real32 = start;
    let mut i: usize = 0;
    while i < values.len()
        invariant
            i <= values.len(),
            is_maximum_of(start, values@, i as int, best),
        decreases values.len() - i,
    {
        if best.less(&values[i]) || (best.is_nan() && !values[i].is_nan()) {
            best = values[i];
        }
        i = i + 1;
    }
    best
}

} // verus!
