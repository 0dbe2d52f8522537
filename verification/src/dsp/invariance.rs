//! What a visibility graph does not depend on, and how many edges it can have.

use vstd::prelude::*;

use crate::dsp::visibility::{
    bin_count, clear_from, degree, degree_sum, degrees_sum_to_twice_the_edges, edge_count,
    largest_degree, metrics_of, seen_from, sees, VisMetrics,
};
use crate::ieee::Real32;

verus! {

/// All samples are numbers.
pub open spec fn all_numbers(s: Seq<Real32>) -> bool {
    forall|i: int| 0 <= i < s.len() ==> !(#[trigger] s[i]).nan()
}

/// The samples of two series are ordered alike.
pub open spec fn ordered_alike(s: Seq<Real32>, t: Seq<Real32>) -> bool {
    &&& s.len() == t.len()
    &&& forall|i: int, j: int|
        #![trigger s[i], s[j]]
        0 <= i < s.len() && 0 <= j < s.len() ==> s[i].below(s[j]) == t[i].below(t[j])
}

proof fn same_views(s: Seq<Real32>, t: Seq<Real32>, a: int, b: int)
    requires
        all_numbers(s),
        all_numbers(t),
        ordered_alike(s, t),
        0 <= a < b < s.len(),
    ensures
        sees(s, a, b) == sees(t, a, b),
{
    if sees(s, a, b) {
        assert forall|k: int| a < k < b implies !(#[trigger] t[k]).nan() && t[k].below(t[a]) && t[k].below(t[b]) by {
            assert(s[k].below(s[a]) && s[k].below(s[b]));
            assert(!t[a].nan());
        }
    }
    if sees(t, a, b) {
        assert forall|k: int| a < k < b implies !(#[trigger] s[k]).nan() && s[k].below(s[a]) && s[k].below(s[b]) by {
            assert(t[k].below(t[b]) && !t[k].nan());
            assert(!t[a].nan() && t[k].below(t[a]));
            assert(s[k].below(s[a]) == t[k].below(t[a]));
            assert(s[k].below(s[b]) == t[k].below(t[b]));
        }
    }
}

proof fn same_seen(s: Seq<Real32>, t: Seq<Real32>, b: int, lo: int)
    requires
        all_numbers(s),
        all_numbers(t),
        ordered_alike(s, t),
        0 <= lo <= b < s.len(),
    ensures
        seen_from(s, b, lo) == seen_from(t, b, lo),
    decreases b - lo,
{
    if lo < b {
        same_seen(s, t, b, lo + 1);
        same_views(s, t, lo, b);
    }
}

proof fn same_degree(s: Seq<Real32>, t: Seq<Real32>, k: int, n: int)
    requires
        all_numbers(s),
        all_numbers(t),
        ordered_alike(s, t),
        0 <= k < n <= s.len(),
    ensures
        degree(s, k, n) == degree(t, k, n),
    decreases n - k,
{
    if n == k + 1 {
        same_seen(s, t, k, 0);
    } else {
        same_degree(s, t, k, n - 1);
        same_views(s, t, k, n - 1);
    }
}

proof fn same_counts(s: Seq<Real32>, t: Seq<Real32>, bin: int, m: int)
    requires
        all_numbers(s),
        all_numbers(t),
        ordered_alike(s, t),
        0 <= m <= s.len(),
    ensures
        edge_count(s, m) == edge_count(t, m),
        largest_degree(s, m) == largest_degree(t, m),
        bin_count(s, bin, m) == bin_count(t, bin, m),
    decreases m,
{
    if m > 0 {
        same_counts(s, t, bin, m - 1);
        same_seen(s, t, m - 1, 0);
        same_degree(s, t, m - 1, s.len() as int);
    }
}

/// Only the order of the samples matters: mapping a series by an increasing function
/// leaves every degree and all metrics as they are.
pub proof fn only_the_order_matters(s: Seq<Real32>, t: Seq<Real32>, r: VisMetrics)
    requires
        all_numbers(s),
        all_numbers(t),
        ordered_alike(s, t),
    ensures
        forall|k: int| 0 <= k < s.len() ==> #[trigger] degree(s, k, s.len() as int) == degree(t, k, t.len() as int),
        metrics_of(s, r) <==> metrics_of(t, r),
{
    let n = s.len() as int;
    assert forall|k: int| 0 <= k < s.len() implies #[trigger] degree(s, k, n) == degree(t, k, n) by {
        same_degree(s, t, k, n);
    }
    assert forall|b: int| #[trigger] bin_count(s, b, n) == bin_count(t, b, n) by {
        same_counts(s, t, b, n);
    }
    same_counts(s, t, 0, n);
    if metrics_of(s, r) {
        assert forall|b: int| 0 <= b < 10 implies (#[trigger] r.histogram[b]) == bin_count(t, b, n) by {
            assert(bin_count(s, b, n) == bin_count(t, b, n));
        }
    }
    if metrics_of(t, r) {
        assert forall|b: int| 0 <= b < 10 implies (#[trigger] r.histogram[b]) == bin_count(s, b, n) by {
            assert(bin_count(s, b, n) == bin_count(t, b, n));
        }
    }
}

/// How many of the samples behind sample `k`, before sample `n`, it sees.
spec fn ahead(s: Seq<Real32>, k: int, n: int) -> nat
    decreases n - k,
{
    if n <= k + 1 {
        0
    } else {
        ahead(s, k, n - 1) + if sees(s, k, n - 1) {
            1nat
        } else {
            0nat
        }
    }
}

proof fn degree_is_behind_and_ahead(s: Seq<Real32>, k: int, n: int)
    requires
        0 <= k < n,
    ensures
        degree(s, k, n) == seen_from(s, k, 0) + ahead(s, k, n),
    decreases n - k,
{
    if n > k + 1 {
        degree_is_behind_and_ahead(s, k, n - 1);
    }
}

proof fn views_turn_round(s: Seq<Real32>, a: int, b: int)
    requires
        all_numbers(s),
        0 <= a < b < s.len(),
    ensures
        sees(s.reverse(), a, b) == sees(s, s.len() - 1 - b, s.len() - 1 - a),
{
    let n = s.len() as int;
    let r = s.reverse();
    let (x, y) = (n - 1 - b, n - 1 - a);
    assert(r[a] == s[y] && r[b] == s[x]);
    if sees(r, a, b) {
        assert forall|k: int| x < k < y implies !(#[trigger] s[k]).nan() && s[k].below(s[x]) && s[k].below(s[y]) by {
            let j = n - 1 - k;
            assert(r[j] == s[k]);
            assert(a < j < b);
            assert(!r[a].nan());
            assert(r[j].below(r[a]) && r[j].below(r[b]));
        }
    }
    if sees(s, x, y) {
        assert forall|j: int| a < j < b implies !(#[trigger] r[j]).nan() && r[j].below(r[a]) && r[j].below(r[b]) by {
            let k = n - 1 - j;
            assert(r[j] == s[k]);
            assert(x < k < y);
            assert(!s[x].nan());
            assert(s[k].below(s[x]) && s[k].below(s[y]));
        }
    }
}

proof fn behind_turns_ahead(s: Seq<Real32>, k: int, lo: int)
    requires
        all_numbers(s),
        0 <= lo <= k < s.len(),
    ensures
        seen_from(s.reverse(), k, lo) == ahead(s, s.len() - 1 - k, s.len() - lo),
    decreases k - lo,
{
    if lo < k {
        behind_turns_ahead(s, k, lo + 1);
        views_turn_round(s, lo, k);
    }
}

proof fn degree_turns_round(s: Seq<Real32>, k: int)
    requires
        all_numbers(s),
        0 <= k < s.len(),
    ensures
        degree(s.reverse(), k, s.len() as int) == degree(s, s.len() - 1 - k, s.len() as int),
{
    let n = s.len() as int;
    let r = s.reverse();
    let j = n - 1 - k;
    degree_is_behind_and_ahead(r, k, n);
    degree_is_behind_and_ahead(s, j, n);
    behind_turns_ahead(s, k, 0);
    assert(r.reverse() =~= s);
    assert forall|i: int| 0 <= i < r.len() implies !(#[trigger] r[i]).nan() by {
        assert(r[i] == s[n - 1 - i]);
    }
    behind_turns_ahead(r, j, 0);
}

proof fn counts_turn_round(s: Seq<Real32>, bin: int, m: int)
    requires
        all_numbers(s),
        0 <= m <= s.len(),
    ensures
        bin_count(s, bin, s.len() as int) == bin_count(s, bin, s.len() - m) + bin_count(s.reverse(), bin, m),
        degree_sum(s, s.len() as int, s.len() as int) == degree_sum(s, s.len() - m, s.len() as int) + degree_sum(
            s.reverse(),
            m,
            s.len() as int,
        ),
        largest_degree(s, s.len() as int) == (if largest_degree(s, s.len() - m) > largest_degree(s.reverse(), m) {
            largest_degree(s, s.len() - m)
        } else {
            largest_degree(s.reverse(), m)
        }),
    decreases m,
{
    if m > 0 {
        counts_turn_round(s, bin, m - 1);
        degree_turns_round(s, m - 1);
    }
}

/// Time has no direction: a series of numbers and its reverse have the same metrics,
/// and every sample keeps its degree.
pub proof fn reversing_changes_nothing(s: Seq<Real32>, r: VisMetrics)
    requires
        all_numbers(s),
    ensures
        forall|k: int|
            0 <= k < s.len() ==> #[trigger] degree(s.reverse(), k, s.len() as int) == degree(
                s,
                s.len() - 1 - k,
                s.len() as int,
            ),
        metrics_of(s.reverse(), r) <==> metrics_of(s, r),
{
    let n = s.len() as int;
    let t = s.reverse();
    assert forall|k: int| 0 <= k < s.len() implies #[trigger] degree(t, k, n) == degree(s, n - 1 - k, n) by {
        degree_turns_round(s, k);
    }
    counts_turn_round(s, 0, n);
    degrees_sum_to_twice_the_edges(s, n);
    degrees_sum_to_twice_the_edges(t, n);
    assert(edge_count(s, n) == edge_count(t, n));
    assert forall|b: int| #[trigger] bin_count(s, b, n) == bin_count(t, b, n) by {
        counts_turn_round(s, b, n);
    }
    if metrics_of(s, r) {
        assert forall|b: int| 0 <= b < 10 implies (#[trigger] r.histogram[b]) == bin_count(t, b, n) by {
            assert(bin_count(s, b, n) == bin_count(t, b, n));
        }
    }
    if metrics_of(t, r) {
        assert forall|b: int| 0 <= b < 10 implies (#[trigger] r.histogram[b]) == bin_count(s, b, n) by {
            assert(bin_count(s, b, n) == bin_count(t, b, n));
        }
    }
}

/// How many of the samples in `lo..n` can be seen from beyond the first `n`.
spec fn open_from(s: Seq<Real32>, n: int, lo: int) -> nat
    decreases n - lo,
{
    if lo >= n {
        0
    } else {
        open_from(s, n, lo + 1) + if clear_from(s, lo, n) {
            1nat
        } else {
            0nat
        }
    }
}

/// How many of the samples in `lo..b` can still be seen from behind sample `b`.
spec fn kept_from(s: Seq<Real32>, b: int, lo: int) -> nat
    decreases b - lo,
{
    if lo >= b {
        0
    } else {
        kept_from(s, b, lo + 1) + if clear_from(s, lo, b + 1) {
            1nat
        } else {
            0nat
        }
    }
}

proof fn open_is_kept_and_new(s: Seq<Real32>, b: int, lo: int)
    requires
        0 <= lo <= b,
    ensures
        open_from(s, b + 1, lo) == kept_from(s, b, lo) + 1,
    decreases b - lo,
{
    if lo < b {
        open_is_kept_and_new(s, b, lo + 1);
    } else {
        assert(open_from(s, b + 1, b + 1) == 0);
        assert(clear_from(s, b, b + 1));
    }
}

/// What sample `b` sees it hides from later ones, but for the highest at most.
proof fn seen_are_hidden(s: Seq<Real32>, b: int, lo: int)
    requires
        0 <= lo <= b < s.len(),
    ensures
        seen_from(s, b, lo) <= open_from(s, b, lo),
        seen_from(s, b, lo) + kept_from(s, b, lo) <= open_from(s, b, lo) + 1,
        seen_from(s, b, lo) + kept_from(s, b, lo) == open_from(s, b, lo) + 1 ==> exists|a: int|
            lo <= a < b && !(#[trigger] s[a]).below(s[b]),
    decreases b - lo,
{
    if lo < b {
        seen_are_hidden(s, b, lo + 1);
        if clear_from(s, lo, b + 1) {
            assert(!s[b].nan() && (s[lo].nan() || s[b].below(s[lo])));
            assert(clear_from(s, lo, b));
            assert(!s[lo].below(s[b]));
        }
    }
}

proof fn edges_and_open(s: Seq<Real32>, n: int)
    requires
        1 <= n <= s.len(),
    ensures
        open_from(s, n, 0) >= 1,
        edge_count(s, n) + open_from(s, n, 0) <= 2 * n - 1,
        n >= 2 && open_from(s, n, 0) == 1 ==> edge_count(s, n) + open_from(s, n, 0) <= 2 * n - 2,
    decreases n,
{
    open_is_kept_and_new(s, n - 1, 0);
    if n == 1 {
        assert(edge_count(s, 0) == 0);
        assert(seen_from(s, 0, 0) == 0);
        assert(kept_from(s, 0, 0) == 0);
    } else {
        edges_and_open(s, n - 1);
        seen_are_hidden(s, n - 1, 0);
    }
}

/// The graph of two or more samples has at most `2n - 3` edges.
pub proof fn edges_are_few(s: Seq<Real32>, n: int)
    requires
        2 <= n <= s.len(),
    ensures
        edge_count(s, n) <= 2 * n - 3,
{
    edges_and_open(s, n);
}

} // verus!
