//! What it is to be in order.

use vstd::prelude::*;

use crate::ieee::Real32;
use crate::order::{keys_can_be_ordered, kth_smallest, order_keys, precedes, sorted_positions};

verus! {

/// How many of the first `n` values come before `v`.
pub open spec fn count_below(values: Seq<Real32>, v: Real32, n: int) -> int
    decreases n,
{
    if n <= 0 {
        0
    } else if values[n - 1].total_rank() < v.total_rank() {
        count_below(values, v, n - 1) + 1
    } else {
        count_below(values, v, n - 1)
    }
}

/// How many of the first `n` values come behind `v`.
pub open spec fn count_above(values: Seq<Real32>, v: Real32, n: int) -> int
    decreases n,
{
    if n <= 0 {
        0
    } else if v.total_rank() < values[n - 1].total_rank() {
        count_above(values, v, n - 1) + 1
    } else {
        count_above(values, v, n - 1)
    }
}

/// The number of positions among `ps[..k]` that are below `n`.
spec fn hits(ps: Seq<usize>, k: int, n: int) -> int
    decreases k,
{
    if k <= 0 {
        0
    } else if ps[k - 1] < n {
        hits(ps, k - 1, n) + 1
    } else {
        hits(ps, k - 1, n)
    }
}

proof fn one_more_hit(ps: Seq<usize>, k: int, n: int)
    requires
        0 <= k <= ps.len(),
        0 <= n,
        forall|i: int, j: int| 0 <= i < j < ps.len() ==> ps[i] != ps[j],
    ensures
        hits(ps, k, n + 1) == hits(ps, k, n) + (if ps.take(k).contains(n as usize) && n <= usize::MAX {
            1int
        } else {
            0int
        }),
    decreases k,
{
    if k > 0 {
        one_more_hit(ps, k - 1, n);
        let (a, b) = (ps.take(k - 1), ps.take(k));
        if n <= usize::MAX {
            if a.contains(n as usize) {
                let i = choose|i: int| 0 <= i < a.len() && a[i] == n as usize;
                assert(b[i] == n as usize);
                assert(ps[i] != ps[k - 1]);
            }
            if b.contains(n as usize) && !a.contains(n as usize) {
                let i = choose|i: int| 0 <= i < b.len() && b[i] == n as usize;
                if i < k - 1 {
                    assert(a[i] == n as usize);
                }
            }
            if ps[k - 1] == n {
                assert(b[k - 1] == n as usize);
            }
        }
    }
}

proof fn few_come_before(values: Seq<Real32>, k: int, n: int)
    requires
        values.len() <= usize::MAX,
        0 <= k < values.len(),
        0 <= n <= values.len(),
    ensures
        count_below(values, kth_smallest(values, k), n) <= hits(sorted_positions(order_keys(values)), k, n),
        count_above(values, kth_smallest(values, k), n) <= n - hits(sorted_positions(order_keys(values)), k + 1, n),
    decreases n,
{
    let keys = order_keys(values);
    let ps = sorted_positions(keys);
    keys_can_be_ordered(keys);
    let v = kth_smallest(values, k);
    assert forall|i: int, j: int| 0 <= i < j < ps.len() implies ps[i] != ps[j] by {
        assert(precedes(keys, ps[i] as int, ps[j] as int));
    }
    if n == 0 {
        no_hits(ps, k);
        no_hits(ps, k + 1);
    } else {
        few_come_before(values, k, n - 1);
        one_more_hit(ps, k, n - 1);
        one_more_hit(ps, k + 1, n - 1);
        let p = (n - 1) as usize;
        assert(ps.contains(p));
        let i = choose|i: int| 0 <= i < ps.len() && ps[i] == p;
        assert(keys[p as int] == values[n - 1].total_rank());
        assert(keys[ps[k] as int] == v.total_rank());
        if i < k {
            assert(precedes(keys, ps[i] as int, ps[k] as int));
            assert(ps.take(k)[i] == p);
            assert(ps.take(k + 1)[i] == p);
        } else if i == k {
            assert(ps.take(k + 1)[i] == p);
        } else {
            assert(precedes(keys, ps[k] as int, ps[i] as int));
            let front = ps.take(k + 1);
            if front.contains(p) {
                let j = choose|j: int| 0 <= j < front.len() && front[j] == p;
                assert(ps[j] == p);
            }
        }
    }
}

proof fn no_hits(ps: Seq<usize>, k: int)
    ensures
        hits(ps, k, 0) == 0,
    decreases k,
{
    if k > 0 {
        no_hits(ps, k - 1);
    }
}

proof fn all_hit(ps: Seq<usize>, k: int, n: int)
    requires
        0 <= k <= ps.len(),
        forall|i: int| 0 <= i < ps.len() ==> (#[trigger] ps[i]) < n,
    ensures
        hits(ps, k, n) == k,
    decreases k,
{
    if k > 0 {
        all_hit(ps, k - 1, n);
    }
}

/// The value in place `k` is one of the values, at most `k` come before it, and at most
/// as many behind it as there are places behind `k`.
pub proof fn place_in_the_order(values: Seq<Real32>, k: int)
    requires
        values.len() <= usize::MAX,
        0 <= k < values.len(),
    ensures
        values.contains(kth_smallest(values, k)),
        count_below(values, kth_smallest(values, k), values.len() as int) <= k,
        count_above(values, kth_smallest(values, k), values.len() as int) <= values.len() - 1 - k,
{
    let ps = sorted_positions(order_keys(values));
    keys_can_be_ordered(order_keys(values));
    few_come_before(values, k, values.len() as int);
    all_hit(ps, k, values.len() as int);
    all_hit(ps, k + 1, values.len() as int);
    assert(values[ps[k] as int] == kth_smallest(values, k));
}

} // verus!
