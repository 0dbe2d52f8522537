//! What the visibility graph of a series counts.

use vstd::prelude::*;

use crate::dsp::visibility::{
    bin_count, degree, edge_count, horizontal_visibility, largest_degree, metrics_of, no_metrics, seen_from, sees, VisMetrics,
};
use crate::ieee::Real32;

verus! {

/// Two samples of a series of numbers see each other exactly if every sample between them
/// is lower than both; so neighbours always do.
pub proof fn samples_see_over_lower_ones(s: Seq<Real32>, a: int, b: int)
    requires
        0 <= a < b < s.len(),
        forall|i: int| 0 <= i < s.len() ==> !(#[trigger] s[i]).nan(),
    ensures
        sees(s, a, b) <==> forall|k: int| a < k < b ==> (#[trigger] s[k]).below(s[a]) && s[k].below(s[b]),
        b == a + 1 ==> sees(s, a, b),
{
    if sees(s, a, b) {
        assert forall|k: int| a < k < b implies (#[trigger] s[k]).below(s[a]) && s[k].below(s[b]) by {
            assert(!s[a].nan());
        }
    }
}

/// How many of the samples `lo..hi` see sample `k`, which is not among them.
pub open spec fn seers(s: Seq<Real32>, k: int, lo: int, hi: int) -> nat
    decreases hi - lo,
{
    if hi <= lo {
        0
    } else {
        seers(s, k, lo, hi - 1) + if hi - 1 < k && sees(s, hi - 1, k) || k < hi - 1 && sees(s, k, hi - 1) {
            1nat
        } else {
            0nat
        }
    }
}

proof fn seers_join(s: Seq<Real32>, k: int, lo: int, mid: int, hi: int)
    requires
        lo <= mid <= hi,
    ensures
        seers(s, k, lo, hi) == seers(s, k, lo, mid) + seers(s, k, mid, hi),
    decreases hi - mid,
{
    if mid < hi {
        seers_join(s, k, lo, mid, hi - 1);
    }
}

proof fn earlier_are_seers(s: Seq<Real32>, k: int, lo: int)
    requires
        0 <= lo <= k,
    ensures
        seen_from(s, k, lo) == seers(s, k, lo, k),
    decreases k - lo,
{
    if lo < k {
        earlier_are_seers(s, k, lo + 1);
        seers_join(s, k, lo, lo + 1, k);
        assert(seers(s, k, lo, lo) == 0);
    }
}

/// The degree of a sample is the number of samples that see it, before and behind it.
pub proof fn degree_counts_the_seers(s: Seq<Real32>, k: int, n: int)
    requires
        0 <= k < n,
    ensures
        degree(s, k, n) == seers(s, k, 0, k) + seers(s, k, k + 1, n),
    decreases n,
{
    if n == k + 1 {
        earlier_are_seers(s, k, 0);
    } else {
        degree_counts_the_seers(s, k, n - 1);
    }
}

/// Every pair is counted once: with each sample the edges grow by the earlier ones that
/// see it, from none on.
pub proof fn every_pair_is_an_edge_once(s: Seq<Real32>, n: int)
    requires
        0 <= n,
    ensures
        edge_count(s, 0) == 0,
        edge_count(s, n + 1) == edge_count(s, n) + seers(s, n, 0, n),
{
    earlier_are_seers(s, n, 0);
}

/// What is reported: the number of samples and of edges; twice the edges over the samples,
/// and over the ordered pairs; a degree that some sample has and none exceeds; and for
/// every degree below nine how many samples have it, and how many have nine or more.
pub proof fn metrics_describe_the_graph(s: Seq<Real32>, r: VisMetrics, k: int, b: int, m: int)
    requires
        s.len() >= 2,
        metrics_of(s, r),
        0 <= k < s.len(),
        0 <= b < 10,
        0 <= m,
    ensures
        r.nodes == s.len(),
        r.edges == edge_count(s, s.len() as int),
        r.mean_degree.num == 2 * r.edges,
        r.mean_degree.den == s.len(),
        r.density.num == 2 * r.edges,
        r.density.den == s.len() * (s.len() - 1),
        degree(s, k, s.len() as int) <= r.max_degree,
        exists|i: int| 0 <= i < s.len() && r.max_degree == #[trigger] degree(s, i, s.len() as int),
        r.histogram[b] == bin_count(s, b, s.len() as int),
        bin_count(s, b, 0) == 0,
        bin_count(s, b, m + 1) == bin_count(s, b, m) + (if (b < 9 && degree(s, m, s.len() as int) == b) || (b == 9
            && degree(s, m, s.len() as int) >= 9) {
            1int
        } else {
            0int
        }),
{
    largest_is_some(s, s.len() as int, k);
}

proof fn largest_is_some(s: Seq<Real32>, m: int, k: int)
    requires
        0 < m <= s.len(),
        0 <= k,
    ensures
        k < m ==> degree(s, k, s.len() as int) <= largest_degree(s, m),
        exists|i: int| 0 <= i < m && largest_degree(s, m) == #[trigger] degree(s, i, s.len() as int),
    decreases m,
{
    let n = s.len() as int;
    let d = degree(s, m - 1, n);
    if m > 1 {
        largest_is_some(s, m - 1, k);
        if d <= largest_degree(s, m - 1) {
            let i = choose|i: int| 0 <= i < m - 1 && largest_degree(s, m - 1) == #[trigger] degree(s, i, n);
            assert(largest_degree(s, m) == degree(s, i, n));
        } else {
            assert(largest_degree(s, m) == degree(s, m - 1, n));
        }
    } else {
        assert(largest_degree(s, 0) == 0);
        assert(largest_degree(s, m) == degree(s, m - 1, n));
    }
}

/// In a series with samples that are no numbers too: sample `a` is seen from `b` over
/// samples that are all below `b`, and below `a` unless that is no number.
pub proof fn samples_see_over_numbers(s: Seq<Real32>, a: int, b: int)
    requires
        0 <= a < b < s.len(),
    ensures
        sees(s, a, b) <==> forall|k: int|
            a < k < b ==> (#[trigger] s[k]).below(s[b]) && (s[a].nan() || s[k].below(s[a])),
{
}

/// A series of fewer than two samples has no graph: nothing is counted.
pub proof fn short_series_count_nothing(b: int)
    requires
        0 <= b < 10,
    ensures
        no_metrics().nodes == 0,
        no_metrics().edges == 0,
        no_metrics().mean_degree.num == 0 && no_metrics().mean_degree.den == 1,
        no_metrics().density.num == 0 && no_metrics().density.den == 1,
        no_metrics().max_degree == 0,
        no_metrics().histogram[b] == 0,
{
}

/// The graph of a series is the one described, and there is none of fewer than two samples.
pub proof fn graph_is_of_the_series(series: &Vec<Real32>, r: VisMetrics)
    requires
        call_ensures(horizontal_visibility, (series,), r),
    ensures
        series.len() >= 2 ==> metrics_of(series@, r),
        series.len() < 2 ==> r == no_metrics(),
{
}

} // verus!
