//! Horizontal visibility graph (HVG) complexity metrics.
//!
//! Maps a time series to a network: nodes are samples, and two samples are
//! connected if every sample strictly between them is lower than both
//! (they can "see" each other horizontally). Network statistics then act
//! as a texture/complexity signature of the audio envelope: a sustained
//! tone yields a near-chain graph (mean degree -> 2), while percussive or
//! noisy textures yield hubs and heavier-tailed degree distributions.
//! Construction is O(n) amortized via a monotonic stack.

use vstd::prelude::*;

use crate::ieee::Real32;

verus! {

/// Bins of the degree histogram.
pub const HIST_BINS: usize = 10;

/// An exact quotient; the caller divides.
#[derive(Clone, Copy, Debug, PartialEq, Eq, Structural)]
pub struct Ratio {
    pub num: u128,
    pub den: u128,
}

/// Statistics of a visibility graph.
#[derive(Clone, Copy, Debug)]
pub struct VisMetrics {
    pub nodes: usize,
    pub edges: usize,
    /// 2E / n.
    pub mean_degree: Ratio,
    /// 2E / n(n-1).
    pub density: Ratio,
    pub max_degree: usize,
    /// Degree counts: index d = nodes with degree d (last bin = HIST_BINS-1 or more).
    pub histogram: [u32; HIST_BINS],
}

impl Default for VisMetrics {
    fn default() -> (r: VisMetrics)
        ensures
            r == no_metrics(),
    {
        let r = VisMetrics {
            nodes: 0,
            edges: 0,
            mean_degree: Ratio { num: 0, den: 1 },
            density: Ratio { num: 0, den: 1 },
            max_degree: 0,
            histogram: [0, 0, 0, 0, 0, 0, 0, 0, 0, 0],
        };
        assert(r.histogram@ =~= no_metrics().histogram@);
        r
    }
}

/// The metrics of a series too short for a graph.
pub open spec fn no_metrics() -> VisMetrics {
    VisMetrics {
        nodes: 0,
        edges: 0,
        mean_degree: Ratio { num: 0, den: 1 },
        density: Ratio { num: 0, den: 1 },
        max_degree: 0,
        histogram: [0, 0, 0, 0, 0, 0, 0, 0, 0, 0],
    }
}

/// Every sample strictly between `a` and `b` is a number lower than sample `a`.
/// A sample that is not a number hides nothing behind it.
pub open spec fn clear_from(s: Seq<Real32>, a: int, b: int) -> bool {
    forall|k: int| a < k < b ==> !(#[trigger] s[k]).nan() && (s[a].nan() || s[k].below(s[a]))
}

/// Samples `a < b` see each other: everything strictly between is lower than
/// both. Neighbours always do. (A sample that is not a number is looked at over
/// any numbers, but itself looks back no further than its neighbour.)
pub open spec fn sees(s: Seq<Real32>, a: int, b: int) -> bool {
    &&& clear_from(s, a, b)
    &&& forall|k: int| a < k < b ==> (#[trigger] s[k]).below(s[b])
}

/// How many of the samples in `lo..b` sample `b` sees to its left.
pub open spec fn seen_from(s: Seq<Real32>, b: int, lo: int) -> nat
    decreases b - lo,
{
    if lo >= b {
        0
    } else {
        seen_from(s, b, lo + 1) + if sees(s, lo, b) {
            1nat
        } else {
            0nat
        }
    }
}

/// How many of the first `n` samples see sample `k`: its degree in their graph.
pub open spec fn degree(s: Seq<Real32>, k: int, n: int) -> nat
    decreases n - k,
{
    if n <= k {
        0
    } else if n == k + 1 {
        seen_from(s, k, 0)
    } else {
        degree(s, k, n - 1) + if sees(s, k, n - 1) {
            1nat
        } else {
            0nat
        }
    }
}

/// The number of pairs of the first `n` samples that see each other.
pub open spec fn edge_count(s: Seq<Real32>, n: int) -> nat
    decreases n,
{
    if n <= 0 {
        0
    } else {
        edge_count(s, n - 1) + seen_from(s, n - 1, 0)
    }
}

/// The bin of the histogram that a degree falls into.
pub open spec fn bin_of(d: nat) -> int {
    if d < HIST_BINS {
        d as int
    } else {
        HIST_BINS - 1
    }
}

/// How many of the first `m` samples have a degree in `bin`.
pub open spec fn bin_count(s: Seq<Real32>, bin: int, m: int) -> nat
    decreases m,
{
    if m <= 0 {
        0
    } else {
        bin_count(s, bin, m - 1) + if bin_of(degree(s, m - 1, s.len() as int)) == bin {
            1nat
        } else {
            0nat
        }
    }
}

/// The largest degree among the first `m` samples.
pub open spec fn largest_degree(s: Seq<Real32>, m: int) -> nat
    decreases m,
{
    if m <= 0 {
        0
    } else {
        let d = degree(s, m - 1, s.len() as int);
        let rest = largest_degree(s, m - 1);
        if d > rest {
            d
        } else {
            rest
        }
    }
}

/// The sum of the degrees of the first `m` of the first `n` samples.
pub open spec fn degree_sum(s: Seq<Real32>, m: int, n: int) -> nat
    decreases m,
{
    if m <= 0 {
        0
    } else {
        degree_sum(s, m - 1, n) + degree(s, m - 1, n)
    }
}

/// What the metrics of a series are.
pub open spec fn metrics_of(s: Seq<Real32>, r: VisMetrics) -> bool {
    let n = s.len() as int;
    &&& r.nodes == n
    &&& r.edges == edge_count(s, n)
    &&& r.mean_degree.num == 2 * edge_count(s, n)
    &&& r.mean_degree.den == n
    &&& r.density.num == 2 * edge_count(s, n)
    &&& r.density.den == n * (n - 1)
    &&& r.max_degree == largest_degree(s, n)
    &&& forall|b: int| 0 <= b < HIST_BINS ==> (#[trigger] r.histogram[b]) == bin_count(s, b, n)
}

proof fn seen_is_bounded(s: Seq<Real32>, b: int, lo: int)
    requires
        lo <= b,
    ensures
        seen_from(s, b, lo) <= b - lo,
    decreases b - lo,
{
    if lo < b {
        seen_is_bounded(s, b, lo + 1);
    }
}

proof fn degree_is_bounded(s: Seq<Real32>, k: int, n: int)
    requires
        0 <= k < n,
    ensures
        degree(s, k, n) < n,
    decreases n - k,
{
    if n == k + 1 {
        seen_is_bounded(s, k, 0);
    } else {
        degree_is_bounded(s, k, n - 1);
    }
}

/// Nothing before `lo` is seen, so counting from zero counts from `lo`.
proof fn unseen_prefix(s: Seq<Real32>, b: int, lo: int, from: int)
    requires
        0 <= from <= lo <= b,
        forall|a: int| from <= a < lo ==> !sees(s, a, b),
    ensures
        seen_from(s, b, from) == seen_from(s, b, lo),
    decreases lo - from,
{
    if from < lo {
        unseen_prefix(s, b, lo, from + 1);
    }
}

/// The state of the stack of samples still in view before sample `i`.
#[verifier::opaque]
spec fn stack_ok(s: Seq<Real32>, stack: Seq<usize>, i: int) -> bool {
    &&& 0 <= i <= s.len()
    &&& forall|p: int| 0 <= p < stack.len() ==> (#[trigger] stack[p]) < i
    &&& forall|p: int, q: int| 0 <= p < q < stack.len() ==> (#[trigger] stack[p]) < (#[trigger] stack[q])
    &&& forall|p: int|
        0 <= p < stack.len() ==> clear_from(s, (#[trigger] stack[p]) as int, i) || has_gap(s, stack[p] as int, i)
    &&& forall|j: usize| j < i && !(#[trigger] stack.contains(j)) ==> !clear_from(s, j as int, i)
    &&& forall|p: int, k: int|
        #![trigger stack[p], s[k]]
        0 <= p < stack.len() && floor_of(stack, p) < k < stack[p] ==> s[k].at_most(s[stack[p] as int])
}

/// Some sample strictly between is not a number.
spec fn has_gap(s: Seq<Real32>, a: int, b: int) -> bool {
    exists|k: int| a < k < b && (#[trigger] s[k]).nan()
}

/// The sample below position `p` of the stack, or -1.
spec fn floor_of(stack: Seq<usize>, p: int) -> int {
    if p > 0 {
        stack[p - 1] as int
    } else {
        -1
    }
}

/// The topmost sample of the stack, or -1.
spec fn top_of(stack: Seq<usize>) -> int {
    if stack.len() > 0 {
        stack.last() as int
    } else {
        -1
    }
}

/// What holds of degrees and edges before sample `i`.
spec fn counts_ok(s: Seq<Real32>, deg: Seq<u32>, edges: int, i: int) -> bool {
    &&& deg.len() == s.len()
    &&& forall|k: int| 0 <= k < i ==> (#[trigger] deg[k]) == degree(s, k, i)
    &&& forall|k: int| i <= k < deg.len() ==> (#[trigger] deg[k]) == 0
    &&& edges == edge_count(s, i)
}

/// While sample `i` is joined to what it sees: the samples above `t` are done.
#[verifier::opaque]
spec fn joining(s: Seq<Real32>, deg: Seq<u32>, edges: int, i: int, t: int) -> bool {
    &&& deg.len() == s.len()
    &&& -1 <= t < i < s.len()
    &&& forall|k: int|
        0 <= k < i ==> (#[trigger] deg[k]) == degree(s, k, i) + if k > t && sees(s, k, i) {
            1int
        } else {
            0int
        }
    &&& deg[i] == seen_from(s, i, t + 1)
    &&& forall|k: int| i < k < deg.len() ==> (#[trigger] deg[k]) == 0
    &&& edges == edge_count(s, i) + seen_from(s, i, t + 1)
    &&& forall|k: int| t < k < i ==> !(#[trigger] s[k]).nan() && s[k].below(s[i])
}

/// Joining `i` with the visible sample `t` extends the finished part down to
/// `t`, and the hidden samples down to `floor` come for free.
proof fn join_step(
    s: Seq<Real32>,
    deg: Seq<u32>,
    deg2: Seq<u32>,
    edges: int,
    i: int,
    t: int,
    floor: int,
)
    requires
        joining(s, deg, edges, i, t),
        0 <= t,
        -1 <= floor < t,
        sees(s, t, i),
        forall|a: int| floor < a < t ==> !sees(s, a, i),
        deg2.len() == deg.len(),
        deg2[t] == deg[t] + 1,
        deg2[i] == deg[i] + 1,
        forall|k: int| 0 <= k < deg.len() && k != t && k != i ==> #[trigger] deg2[k] == deg[k],
    ensures
        deg2[i] == seen_from(s, i, floor + 1),
        edges + 1 == edge_count(s, i) + seen_from(s, i, floor + 1),
        forall|k: int|
            0 <= k < i ==> (#[trigger] deg2[k]) == degree(s, k, i) + if k > floor && sees(s, k, i) {
                1int
            } else {
                0int
            },
{
    reveal(joining);
    assert(seen_from(s, i, t) == seen_from(s, i, t + 1) + 1);
    unseen_prefix(s, i, t, floor + 1);
}

/// When everything visible has been joined the counts stand for `i + 1`.
proof fn joined(s: Seq<Real32>, deg: Seq<u32>, edges: int, i: int, t: int)
    requires
        0 <= i < s.len(),
        -1 <= t < i,
        deg.len() == s.len(),
        forall|k: int|
            0 <= k < i ==> (#[trigger] deg[k]) == degree(s, k, i) + if k > t && sees(s, k, i) {
                1int
            } else {
                0int
            },
        deg[i] == seen_from(s, i, t + 1),
        forall|k: int| i < k < deg.len() ==> (#[trigger] deg[k]) == 0,
        edges == edge_count(s, i) + seen_from(s, i, t + 1),
        forall|a: int| 0 <= a <= t ==> !sees(s, a, i),
    ensures
        counts_ok(s, deg, edges, i + 1),
{
    unseen_prefix(s, i, t + 1, 0);
    assert forall|k: int| 0 <= k < i + 1 implies (#[trigger] deg[k]) == degree(s, k, i + 1) by {
        if k < i {
            assert(k <= t ==> !sees(s, k, i));
        }
    }
}

/// Joins the samples `a` and `b` by an edge.
fn connect(a: usize, b: usize, degree: &mut Vec<u32>, edges: &mut usize)
    requires
        a != b,
        a < old(degree).len(),
        b < old(degree).len(),
        old(degree)[a as int] < u32::MAX,
        old(degree)[b as int] < u32::MAX,
        *old(edges) < usize::MAX,
    ensures
        final(degree).len() == old(degree).len(),
        final(degree)[a as int] == old(degree)[a as int] + 1,
        final(degree)[b as int] == old(degree)[b as int] + 1,
        forall|k: int|
            0 <= k < old(degree).len() && k != a && k != b ==> (#[trigger] final(degree)[k]) == old(degree)[k],
        *final(edges) == *old(edges) + 1,
{
    let da: u32 = degree[a];
    degree.set(a, da + 1);
    let db: u32 = degree[b];
    degree.set(b, db + 1);
    *edges = *edges + 1;
}

/// A sample between two neighbouring entries of the stack is hidden.
proof fn skipped_is_hidden(s: Seq<Real32>, stack: Seq<usize>, p: int, i: int, k: int)
    requires
        stack_ok(s, stack, i),
        0 <= p < stack.len(),
        floor_of(stack, p) < k < stack[p],
    ensures
        !sees(s, k, i),
{
    reveal(stack_ok);
    if stack.contains(k as usize) {
        let q = choose|q: int| 0 <= q < stack.len() && stack[q] == k as usize;
        if q < p {
            if q < p - 1 {
                assert(stack[q] < stack[p - 1]);
            }
        } else if q > p {
            assert(stack[p] < stack[q]);
        }
    }
}

/// Joins sample `i` to every lower sample in view on the stack, which it then
/// hides from later ones.
fn join_lower(series: &Vec<Real32>, i: usize, stack: &mut Vec<usize>, degree: &mut Vec<u32>, edges: &mut usize)
    requires
        i < series.len() <= u32::MAX,
        2 * series.len() <= usize::MAX,
        counts_ok(series@, old(degree)@, *old(edges) as int, i as int),
        stack_ok(series@, old(stack)@, i as int),
        i > 0 ==> old(stack).len() > 0 && old(stack)@.last() == i - 1,
        *old(edges) + old(stack).len() <= 2 * i,
    ensures
        final(stack).len() <= old(stack).len(),
        final(stack)@ == old(stack)@.take(final(stack).len() as int),
        joining(series@, final(degree)@, *final(edges) as int, i as int, top_of(final(stack)@)),
        forall|p: int|
            final(stack).len() <= p < old(stack).len() ==> series@[(#[trigger] old(stack)@[p]) as int].below(
                series@[i as int],
            ),
        final(stack).len() > 0 ==> !series@[final(stack)@.last() as int].below(series@[i as int]),
        *final(edges) + final(stack).len() <= 2 * i,
{
    let ghost s = series@;
    let ghost before = stack@;
    let n: usize = series.len();
    proof {
        assert(seen_from(s, i as int, i as int) == 0);
        reveal(joining);
        reveal(stack_ok);
    }
    while stack.len() > 0 && series[stack[stack.len() - 1]].less(&series[i])
        invariant
            i < n == series.len(),
            s == series@,
            n <= u32::MAX,
            2 * n <= usize::MAX,
            stack_ok(s, before, i as int),
            forall|p: int| 0 <= p < before.len() ==> (#[trigger] before[p]) < i,
            stack.len() <= before.len(),
            stack@ == before.take(stack.len() as int),
            degree.len() == n,
            joining(s, degree@, *edges as int, i as int, top_of(stack@)),
            forall|p: int| stack.len() <= p < before.len() ==> s[(#[trigger] before[p]) as int].below(s[i as int]),
            *edges + stack.len() <= 2 * i,
        decreases stack.len(),
    {
        let top: usize = stack[stack.len() - 1];
        let ghost deg0 = degree@;
        let ghost edges0 = *edges as int;
        proof {
            assert(before[stack.len() - 1] == top);
            join_is_possible(s, degree@, edges0, i as int, top as int);
        }
        connect(top, i, degree, edges);
        let _ = stack.pop();
        proof {
            assert(stack@ =~= before.take(stack.len() as int));
            assert(top_of(stack@) == floor_of(before, stack.len() as int));
            pop_joins(s, before, stack.len() as int, deg0, degree@, edges0, i as int);
        }
    }
}

/// The counters have room for one more edge between `top` and `i`.
proof fn join_is_possible(s: Seq<Real32>, deg: Seq<u32>, edges: int, i: int, top: int)
    requires
        joining(s, deg, edges, i, top),
        0 <= top < i < s.len() <= u32::MAX,
    ensures
        deg[top] < u32::MAX,
        deg[i] < u32::MAX,
{
    reveal(joining);
    degree_is_bounded(s, top, i);
    seen_is_bounded(s, i, top + 1);
}

/// Joining sample `i` with the lower top of the stack takes the finished part
/// down to the next entry.
proof fn pop_joins(s: Seq<Real32>, before: Seq<usize>, p: int, deg: Seq<u32>, deg2: Seq<u32>, edges: int, i: int)
    requires
        stack_ok(s, before, i),
        0 <= p < before.len(),
        joining(s, deg, edges, i, before[p] as int),
        s[before[p] as int].below(s[i]),
        deg2.len() == deg.len(),
        deg2[before[p] as int] == deg[before[p] as int] + 1,
        deg2[i] == deg[i] + 1,
        forall|k: int| 0 <= k < deg.len() && k != before[p] && k != i ==> #[trigger] deg2[k] == deg[k],
    ensures
        joining(s, deg2, edges + 1, i, floor_of(before, p)),
{
    let top = before[p] as int;
    let floor = floor_of(before, p);
    assert forall|k: int| floor < k < top implies !(#[trigger] s[k]).nan() && s[k].below(s[i]) by {
        reveal(stack_ok);
        assert(s[k].at_most(s[before[p] as int]));
    }
    assert(sees(s, top, i) && -1 <= floor < top) by {
        reveal(stack_ok);
        reveal(joining);
        if p > 0 {
            assert(before[p - 1] < before[p]);
        }
        assert(!has_gap(s, top, i));
        assert(clear_from(s, before[p] as int, i));
    }
    assert forall|a: int| floor < a < top implies !sees(s, a, i) by {
        skipped_is_hidden(s, before, p, i, a);
    }
    join_step(s, deg, deg2, edges, i, top, floor);
    reveal(joining);
}

/// Adds sample `i` to the graph of the samples before it.
fn add_sample(series: &Vec<Real32>, i: usize, stack: &mut Vec<usize>, degree: &mut Vec<u32>, edges: &mut usize)
    requires
        i < series.len() <= u32::MAX,
        2 * series.len() <= usize::MAX,
        counts_ok(series@, old(degree)@, *old(edges) as int, i as int),
        stack_ok(series@, old(stack)@, i as int),
        i > 0 ==> old(stack).len() > 0 && old(stack)@.last() == i - 1,
        *old(edges) + old(stack).len() <= 2 * i,
    ensures
        counts_ok(series@, final(degree)@, *final(edges) as int, i + 1),
        stack_ok(series@, final(stack)@, i + 1),
        final(stack).len() > 0,
        final(stack)@.last() == i,
        *final(edges) + final(stack).len() <= 2 * (i + 1),
{
    let ghost s = series@;
    let ghost before = stack@;
    // Everything on the stack lower than series[i] is visible from i
    // and then gets blocked by i.
    join_lower(series, i, stack, degree, edges);
    let ghost popped = stack.len() as int;
    proof {
        reveal(stack_ok);
        reveal(joining);
    }
    // The first element at least as high as series[i] (if any) also sees i.
    if stack.len() > 0 {
        let top: usize = stack[stack.len() - 1];
        let ghost deg0 = degree@;
        let ghost edges0 = *edges as int;
        proof {
            assert(before[popped - 1] == top);
            join_is_possible(s, degree@, edges0, i as int, top as int);
        }
        connect(top, i, degree, edges);
        proof {
            top_joins(s, before, popped - 1, deg0, degree@, edges0, i as int);
        }
        // Equal heights block each other: pop the equal one.
        if series[top].equals(&series[i]) {
            let _ = stack.pop();
            proof {
                if popped > 1 {
                    under_equal(s, before, popped, i as int);
                }
            }
        }
    } else {
        proof {
            joined(s, degree@, *edges as int, i as int, -1);
        }
    }
    let ghost kept = stack@;
    proof {
        assert(kept =~= before.take(kept.len() as int));
    }
    stack.push(i);
    proof {
        push_keeps_stack(s, before, kept, stack@, i as int);
    }
}

/// Joining sample `i` with the top of the stack, which is not lower, completes
/// the graph of the first `i + 1` samples.
proof fn top_joins(s: Seq<Real32>, before: Seq<usize>, p: int, deg: Seq<u32>, deg2: Seq<u32>, edges: int, i: int)
    requires
        stack_ok(s, before, i),
        0 <= p < before.len(),
        joining(s, deg, edges, i, before[p] as int),
        !s[before[p] as int].below(s[i]),
        deg2.len() == deg.len(),
        deg2[before[p] as int] == deg[before[p] as int] + 1,
        deg2[i] == deg[i] + 1,
        forall|k: int| 0 <= k < deg.len() && k != before[p] && k != i ==> #[trigger] deg2[k] == deg[k],
    ensures
        counts_ok(s, deg2, edges + 1, i + 1),
{
    reveal(joining);
    let top = before[p] as int;
    assert(sees(s, top, i)) by {
        reveal(stack_ok);
        assert(!has_gap(s, top, i));
        assert(clear_from(s, before[p] as int, i));
    }
    join_step(s, deg, deg2, edges, i, top, top - 1);
    assert forall|a: int| 0 <= a <= top - 1 implies !sees(s, a, i) by {
        assert(!s[top].below(s[i]));
    }
    joined(s, deg2, edges + 1, i, top - 1);
}

/// Below an entry as high as sample `i` stands nothing that is no higher.
proof fn under_equal(s: Seq<Real32>, before: Seq<usize>, popped: int, i: int)
    requires
        stack_ok(s, before, i),
        1 < popped <= before.len(),
        0 <= i < s.len(),
        s[before[popped - 1] as int].same(s[i]),
        forall|k: int| before[popped - 1] < k < i ==> !(#[trigger] s[k]).nan(),
    ensures
        !s[before[popped - 2] as int].at_most(s[i]),
{
    reveal(stack_ok);
    let t = before[popped - 1] as int;
    let j = before[popped - 2] as int;
    assert(j < t);
    if !clear_from(s, j, i) {
        assert(has_gap(s, j, i));
        let k = choose|k: int| j < k < i && (#[trigger] s[k]).nan();
        assert(floor_of(before, popped - 1) == j);
        if k < t {
            assert(s[k].at_most(s[before[popped - 1] as int]));
        }
    }
}

/// The degrees and the number of edges of the visibility graph of a series.
fn graph(series: &Vec<Real32>) -> (r: (Vec<u32>, usize))
    requires
        series.len() <= u32::MAX,
        2 * series.len() <= usize::MAX,
    ensures
        counts_ok(series@, r.0@, r.1 as int, series.len() as int),
{
    let n: usize = series.len();
    let mut degree: Vec<u32> = vec![0u32; n];
    let mut edges: usize = 0;
    // Monotonic decreasing stack of indices.
    let mut stack: Vec<usize> = Vec::with_capacity(n);
    let mut i: usize = 0;
    proof {
        reveal(stack_ok);
    }
    while i < n
        invariant
            i <= n == series.len(),
            n <= u32::MAX,
            2 * n <= usize::MAX,
            counts_ok(series@, degree@, edges as int, i as int),
            stack_ok(series@, stack@, i as int),
            i > 0 ==> stack.len() > 0 && stack@.last() == i - 1,
            edges + stack.len() <= 2 * i,
        decreases n - i,
    {
        add_sample(series, i, &mut stack, &mut degree, &mut edges);
        i = i + 1;
    }
    (degree, edges)
}

proof fn push_keeps_stack(s: Seq<Real32>, before: Seq<usize>, kept: Seq<usize>, after: Seq<usize>, i: int)
    requires
        stack_ok(s, before, i),
        0 <= i < s.len(),
        i <= usize::MAX,
        i > 0 ==> before.len() > 0 && before.last() == i - 1,
        kept.len() <= before.len(),
        kept == before.take(kept.len() as int),
        after == kept.push(i as usize),
        // what was popped is no higher than sample i
        forall|p: int| kept.len() <= p < before.len() ==> s[(#[trigger] before[p]) as int].at_most(s[i]),
        // what was kept on top is higher, or one of the two is not a number
        kept.len() > 0 ==> !s[kept.last() as int].at_most(s[i]),
    ensures
        stack_ok(s, after, i + 1),
{
    reveal(stack_ok);
    let kn = kept.len() as int;
    assert forall|p: int| 0 <= p < after.len() implies clear_from(s, (#[trigger] after[p]) as int, i + 1) || has_gap(
        s,
        after[p] as int,
        i + 1,
    ) by {
        if p < kn {
            let j = before[p] as int;
            assert(after[p] == before[p]);
            if has_gap(s, j, i) {
                let k = choose|k: int| j < k < i && (#[trigger] s[k]).nan();
                assert(has_gap(s, j, i + 1));
            } else if s[i].nan() {
                assert(has_gap(s, j, i + 1));
            } else {
                assert(clear_from(s, j, i));
                let t = kept.last() as int;
                assert(kept[kn - 1] == before[kn - 1]);
                if p < kn - 1 {
                    assert(before[p] < before[kn - 1]);
                    assert(!s[t].nan());
                }
                assert(clear_from(s, j, i + 1));
            }
        }
    }
    assert forall|j: usize| j < i + 1 && !(#[trigger] after.contains(j)) implies !clear_from(s, j as int, i + 1) by {
        assert(after[kn] == i);
        assert(j != i);
        if before.contains(j) {
            let q = choose|q: int| 0 <= q < before.len() && before[q] == j;
            if q < kn {
                assert(after[q] == j);
            }
            assert(s[before[q] as int].at_most(s[i]));
        } else {
            assert(!clear_from(s, j as int, i));
        }
    }
    assert forall|p: int, k: int|
        #![trigger after[p], s[k]]
        0 <= p < after.len() && floor_of(after, p) < k < after[p] implies s[k].at_most(s[after[p] as int]) by {
        if p < kn {
            assert(after[p] == before[p]);
            assert(floor_of(after, p) == floor_of(before, p));
        } else {
            within_popped(s, before, kn, i, k);
        }
    }
    assert forall|p: int, q: int| 0 <= p < q < after.len() implies (#[trigger] after[p]) < (#[trigger] after[q]) by {
        assert(after[p] == before[p]);
        if q < kn {
            assert(after[q] == before[q]);
        }
    }
}

/// Every sample above the kept part of the stack is no higher than sample `i`.
proof fn within_popped(s: Seq<Real32>, before: Seq<usize>, kn: int, i: int, k: int)
    requires
        stack_ok(s, before, i),
        0 <= kn <= before.len(),
        i > 0 ==> before.len() > 0 && before.last() == i - 1,
        forall|p: int| kn <= p < before.len() ==> s[(#[trigger] before[p]) as int].at_most(s[i]),
        floor_of(before, kn) < k < i,
    ensures
        s[k].at_most(s[i]),
{
    reveal(stack_ok);
    // the lowest stack entry at or above k
    let p = lowest_at_or_above(before, kn, k);
    assert(s[before[p] as int].at_most(s[i]));
    if before[p] != k {
        assert(floor_of(before, p) < k < before[p]);
        assert(s[k].at_most(s[before[p] as int]));
    }
}

proof fn lowest_at_or_above(before: Seq<usize>, kn: int, k: int) -> (p: int)
    requires
        0 <= kn < before.len(),
        forall|p: int, q: int| 0 <= p < q < before.len() ==> (#[trigger] before[p]) < (#[trigger] before[q]),
        floor_of(before, kn) < k <= before.last(),
    ensures
        kn <= p < before.len(),
        floor_of(before, p) < k <= before[p],
    decreases before.len() - kn,
{
    if k <= before[kn] {
        kn
    } else {
        lowest_at_or_above(before, kn + 1, k)
    }
}

/// The visibility graph of a series, summed up.
pub fn horizontal_visibility(series: &Vec<Real32>) -> (r: VisMetrics)
    requires
        series.len() <= u32::MAX,
        2 * series.len() <= usize::MAX,
    ensures
        series.len() < 2 ==> r == no_metrics(),
        series.len() >= 2 ==> metrics_of(series@, r),
{
    let n: usize = series.len();
    if n < 2 {
        return VisMetrics::default();
    }
    let (degree, edges) = graph(series);
    let ghost s = series@;
    let mut histogram: [u32; HIST_BINS] = [0u32; HIST_BINS];
    let mut max_degree: usize = 0;
    let mut k: usize = 0;
    while k < n
        invariant
            k <= n == series.len() == degree.len(),
            n <= u32::MAX,
            s == series@,
            counts_ok(s, degree@, edges as int, n as int),
            max_degree == largest_degree(s, k as int),
            forall|b: int| 0 <= b < HIST_BINS ==> (#[trigger] histogram[b]) == bin_count(s, b, k as int),
        decreases n - k,
    {
        let d: usize = degree[k] as usize;
        if d > max_degree {
            max_degree = d;
        }
        let bin: usize = if d < HIST_BINS { d } else { HIST_BINS - 1 };
        proof {
            bin_is_bounded(s, bin as int, k as int);
        }
        histogram[bin] = histogram[bin] + 1;
        k = k + 1;
    }
    proof {
        let e = edges as int;
        let m = n as int;
        assert(0 <= m * (m - 1) <= u32::MAX * u32::MAX) by (nonlinear_arith)
            requires
                2 <= m <= u32::MAX,
        ;
    }
    let mean_degree = Ratio { num: 2 * (edges as u128), den: n as u128 };
    let density = Ratio { num: 2 * (edges as u128), den: (n as u128) * ((n - 1) as u128) };
    VisMetrics { nodes: n, edges, mean_degree, density, max_degree, histogram }
}

proof fn bin_is_bounded(s: Seq<Real32>, bin: int, m: int)
    requires
        0 <= m,
    ensures
        bin_count(s, bin, m) <= m,
    decreases m,
{
    if m > 0 {
        bin_is_bounded(s, bin, m - 1);
    }
}

proof fn degrees_gain_one_sample(s: Seq<Real32>, m: int, n: int)
    requires
        0 <= m < n,
    ensures
        degree_sum(s, m, n) + seen_from(s, n - 1, m) == degree_sum(s, m, n - 1) + seen_from(s, n - 1, 0),
    decreases m,
{
    if m > 0 {
        degrees_gain_one_sample(s, m - 1, n);
    }
}

/// Every edge has two ends: the degrees add up to twice the number of edges.
pub proof fn degrees_sum_to_twice_the_edges(s: Seq<Real32>, n: int)
    requires
        0 <= n <= s.len(),
    ensures
        degree_sum(s, n, n) == 2 * edge_count(s, n),
    decreases n,
{
    if n > 0 {
        degrees_sum_to_twice_the_edges(s, n - 1);
        degrees_gain_one_sample(s, n - 1, n);
    }
}

/// Between numbers the graph is the one of the definition: two samples are
/// connected exactly if every sample strictly between is lower than both.
pub proof fn numbers_see_over_lower_numbers(s: Seq<Real32>, a: int, b: int)
    requires
        0 <= a < b < s.len(),
        forall|k: int| 0 <= k < s.len() ==> !(#[trigger] s[k]).nan(),
    ensures
        sees(s, a, b) <==> (forall|k: int|
            a < k < b ==> (#[trigger] s[k]).rank() < s[a].rank() && s[k].rank() < s[b].rank()),
{
}

/// Neighbours always see each other, so the graph has at least `n - 1` edges.
pub proof fn neighbours_are_connected(s: Seq<Real32>, n: int)
    requires
        1 <= n <= s.len(),
    ensures
        edge_count(s, n) >= n - 1,
        forall|a: int, b: int| 0 <= a && b == a + 1 && b < n ==> #[trigger] sees(s, a, b),
    decreases n,
{
    if n > 1 {
        neighbours_are_connected(s, n - 1);
        let b = n - 1;
        assert(sees(s, b - 1, b));
        seen_grows(s, b, b - 1, 0);
        assert(seen_from(s, b, b) == 0);
        assert(seen_from(s, b, b - 1) == 1);
    } else {
        assert(edge_count(s, 1) >= 0);
    }
}

proof fn seen_grows(s: Seq<Real32>, b: int, hi: int, lo: int)
    requires
        lo <= hi <= b,
    ensures
        seen_from(s, b, lo) >= seen_from(s, b, hi),
    decreases hi - lo,
{
    if lo < hi {
        seen_grows(s, b, hi, lo + 1);
    }
}

/// A sustained tone is a chain: where all samples are equal numbers each sees
/// its neighbours only, and the graph has `n - 1` edges.
pub proof fn equal_samples_form_a_chain(s: Seq<Real32>, n: int)
    requires
        1 <= n <= s.len(),
        forall|k: int| 0 <= k < s.len() ==> (#[trigger] s[k]).same(s[0]),
    ensures
        edge_count(s, n) == n - 1,
        forall|a: int, b: int| 0 <= a < b < n ==> (sees(s, a, b) <==> b == a + 1),
    decreases n,
{
    assert forall|a: int, b: int| 0 <= a < b < n implies (sees(s, a, b) <==> b == a + 1) by {
        if b > a + 1 {
            assert(s[a + 1].same(s[0]) && s[b].same(s[0]));
            assert(!s[a + 1].below(s[b]));
        }
    }
    let b = n - 1;
    if n > 1 {
        equal_samples_form_a_chain(s, n - 1);
        assert(seen_from(s, b, b) == 0);
        assert(seen_from(s, b, b - 1) == 1);
        unseen_prefix(s, b, b - 1, 0);
    } else {
        assert(edge_count(s, 0) == 0);
        assert(seen_from(s, 0, 0) == 0);
    }
}

/// The histogram counts every node once.
pub proof fn histogram_counts_every_node(s: Seq<Real32>, m: int)
    requires
        0 <= m,
    ensures
        bin_count(s, 0, m) + bin_count(s, 1, m) + bin_count(s, 2, m) + bin_count(s, 3, m) + bin_count(s, 4, m)
            + bin_count(s, 5, m) + bin_count(s, 6, m) + bin_count(s, 7, m) + bin_count(s, 8, m) + bin_count(s, 9, m)
            == m,
    decreases m,
{
    if m > 0 {
        histogram_counts_every_node(s, m - 1);
    }
}

} // verus!
