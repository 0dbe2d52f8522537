//! Vibrato analysis over the pitch-deviation history.
//!
//! Works on (time, cents) samples of the recent sung note: rate from zero
//! crossings and depth from a percentile span, robust to a stray frame.

use vstd::prelude::*;

use crate::ieee::{Real32, Real64};
use crate::order::{ascending, kth_smallest};

verus! {

/// Samples needed before a note is judged.
pub const MIN_POINTS: usize = 12;

/// Shortest note that is judged: 0.5 seconds, as an IEEE 754 pattern.
pub const MIN_DURATION: u32 = 0x3f00_0000;

/// Least depth: 5 cents, as an IEEE 754 pattern. Below it the tone is steady.
pub const MIN_DEPTH: u32 = 0x40a0_0000;

/// Least rate: 1 hertz, as an IEEE 754 pattern.
pub const MIN_VIBRATO: u32 = 0x3f80_0000;

/// A deviation from the target at a time; deviations that are not numbers mark
/// gaps.
#[derive(Clone, Copy, Debug, PartialEq, Eq, Structural)]
pub struct Point {
    pub time: Real64,
    pub cents: Real64,
}

#[derive(Clone, Copy, Debug)]
pub struct Vibrato {
    /// Oscillation rate in hertz.
    pub rate_hz: Real32,
    /// Half the peak-to-peak excursion, in cents.
    pub depth_cents: Real32,
    /// Mean pitch offset from the target note, in cents.
    pub mean_cents: Real32,
}

/// When something was last sung in the first `n` points.
pub open spec fn last_voiced_in(history: Seq<Point>, n: int) -> Option<Real64>
    decreases n,
{
    if n <= 0 {
        None
    } else if !history[n - 1].cents.nan() {
        Some(history[n - 1].time)
    } else {
        last_voiced_in(history, n - 1)
    }
}

/// The time of the last point that is no gap.
pub fn last_voiced(history: &Vec<Point>) -> (t: Option<Real64>)
    ensures
        t == last_voiced_in(history@, history.len() as int),
{
    let mut n: usize = history.len();
    while n > 0
        invariant
            n <= history.len(),
            last_voiced_in(history@, history.len() as int) == last_voiced_in(history@, n as int),
        decreases n,
    {
        if !history[n - 1].cents.is_nan() {
            return Some(history[n - 1].time);
        }
        n = n - 1;
    }
    None
}

/// The points among the first `n` that are no gaps and not before `from`.
pub open spec fn voiced_in(history: Seq<Point>, from: Real64, n: int) -> Seq<Point>
    decreases n,
{
    if n <= 0 {
        Seq::empty()
    } else {
        let before = voiced_in(history, from, n - 1);
        if !history[n - 1].cents.nan() && from.at_most(history[n - 1].time) {
            before.push(history[n - 1])
        } else {
            before
        }
    }
}

/// The points that are no gaps and not before `from`, if there are enough to be
/// judged.
pub fn voiced(history: &Vec<Point>, from: Real64) -> (points: Option<Vec<Point>>)
    ensures
        match points {
            Some(p) => p@ == voiced_in(history@, from, history.len() as int) && p.len() >= MIN_POINTS,
            None => voiced_in(history@, from, history.len() as int).len() < MIN_POINTS,
        },
{
    let mut p: Vec<Point> = Vec::new();
    let mut i: usize = 0;
    while i < history.len()
        invariant
            i <= history.len(),
            p@ == voiced_in(history@, from, i as int),
        decreases history.len() - i,
    {
        if !history[i].cents.is_nan() && from.less_or_equal(&history[i].time) {
            p.push(history[i]);
        }
        i = i + 1;
    }
    if p.len() < MIN_POINTS {
        return None;
    }
    Some(p)
}

/// The points among the first `n` that are no gaps.
pub open spec fn sung_in(history: Seq<Point>, n: int) -> Seq<Point>
    decreases n,
{
    if n <= 0 {
        Seq::empty()
    } else if history[n - 1].cents.nan() {
        sung_in(history, n - 1)
    } else {
        sung_in(history, n - 1).push(history[n - 1])
    }
}

proof fn later_points_are_not_read(a: Seq<Point>, b: Seq<Point>, from: Real64, n: int)
    requires
        0 <= n <= a.len(),
        n <= b.len(),
        forall|i: int| 0 <= i < n ==> #[trigger] a[i] == b[i],
    ensures
        voiced_in(a, from, n) == voiced_in(b, from, n),
        last_voiced_in(a, n) == last_voiced_in(b, n),
    decreases n,
{
    if n > 0 {
        later_points_are_not_read(a, b, from, n - 1);
    }
}

proof fn only_what_is_sung_is_voiced(history: Seq<Point>, from: Real64, n: int)
    requires
        0 <= n <= history.len(),
    ensures
        voiced_in(history, from, n) == voiced_in(sung_in(history, n), from, sung_in(history, n).len() as int),
        last_voiced_in(history, n) == last_voiced_in(sung_in(history, n), sung_in(history, n).len() as int),
    decreases n,
{
    if n > 0 {
        only_what_is_sung_is_voiced(history, from, n - 1);
        let before = sung_in(history, n - 1);
        later_points_are_not_read(before, sung_in(history, n), from, before.len() as int);
    }
}

/// The 5th percentile of some deviations.
pub open spec fn low_of(detrended: Seq<Real32>) -> Real32 {
    kth_smallest(detrended, detrended.len() as int * 5 / 100)
}

/// The 95th percentile of some deviations.
pub open spec fn high_of(detrended: Seq<Real32>) -> Real32 {
    kth_smallest(detrended, detrended.len() as int * 95 / 100)
}

/// The 5th and the 95th percentile of some deviations.
pub fn percentile_span(detrended: &Vec<Real32>) -> (r: (Real32, Real32))
    requires
        0 < detrended.len(),
        detrended.len() * 95 <= usize::MAX,
    ensures
        r.0 == low_of(detrended@),
        r.1 == high_of(detrended@),
{
    let perm: Vec<usize> = ascending(detrended);
    let n: usize = detrended.len();
    (detrended[perm[n * 5 / 100]], detrended[perm[n * 95 / 100]])
}

/// The value is at or above zero.
pub open spec fn is_high(v: Real32) -> bool {
    (Real32 { bits: 0 }).at_most(v)
}

/// How often the first `n` values change between the two sides of zero.
pub open spec fn crossings_in(values: Seq<Real32>, n: int) -> nat
    decreases n,
{
    if n <= 1 {
        0
    } else {
        crossings_in(values, n - 1) + if is_high(values[n - 2]) != is_high(values[n - 1]) {
            1nat
        } else {
            0nat
        }
    }
}

/// Counts the zero crossings.
pub fn crossings(values: &Vec<Real32>) -> (count: usize)
    ensures
        count == crossings_in(values@, values.len() as int),
        count <= values.len(),
{
    if values.len() == 0 {
        return 0;
    }
    let zero: Real32 = Real32::from_bits(0);
    let mut count: usize = 0;
    let mut i: usize = 1;
    while i < values.len()
        invariant
            1 <= i <= values.len(),
            zero == (Real32 { bits: 0 }),
            count == crossings_in(values@, i as int),
            count < i,
        decreases values.len() - i,
    {
        if zero.less_or_equal(&values[i - 1]) != zero.less_or_equal(&values[i]) {
            count = count + 1;
        }
        i = i + 1;
    }
    count
}

/// A steady tone, on one side of zero throughout, crosses it nowhere.
pub proof fn steady_tone_is_not_vibrato(values: Seq<Real32>, high: bool, n: int)
    requires
        0 <= n <= values.len(),
        forall|i: int| 0 <= i < values.len() ==> is_high(#[trigger] values[i]) == high,
    ensures
        crossings_in(values, n) == 0,
    decreases n,
{
    if n > 1 {
        steady_tone_is_not_vibrato(values, high, n - 1);
    }
}

/// `v` is the vibrato of a note, unless that is too short, too steady or too slow.
pub open spec fn judged(
    duration: Real32,
    rate_hz: Real32,
    depth_cents: Real32,
    mean_cents: Real32,
    v: Option<Vibrato>,
) -> bool {
    if duration.below(Real32 { bits: MIN_DURATION }) || depth_cents.below(Real32 { bits: MIN_DEPTH })
        || rate_hz.below(Real32 { bits: MIN_VIBRATO }) {
        v is None
    } else {
        v == Some(Vibrato { rate_hz, depth_cents, mean_cents })
    }
}

/// The vibrato of a note, unless it is too short, too steady or too slow.
pub fn judge(duration: Real32, rate_hz: Real32, depth_cents: Real32, mean_cents: Real32) -> (v: Option<Vibrato>)
    ensures
        judged(duration, rate_hz, depth_cents, mean_cents, v),
{
    if duration.less(&Real32::from_bits(MIN_DURATION)) || depth_cents.less(&Real32::from_bits(MIN_DEPTH))
        || rate_hz.less(&Real32::from_bits(MIN_VIBRATO)) {
        return None;
    }
    Some(Vibrato { rate_hz, depth_cents, mean_cents })
}

/// `m` is a mean of the points.
pub open spec fn averaged<M: Fn(Vec<Point>) -> (Real64, Real32)>(mean: M, points: Seq<Point>, m: (Real64, Real32)) -> bool {
    exists|v: Vec<Point>| #[trigger] v@ == points && call_ensures(mean, (v,), m)
}

/// `detrended` holds the deviations of the points from `mean`.
pub open spec fn detrended_from<D: Fn(Real64, Real64) -> Real32>(
    deviation: D,
    points: Seq<Point>,
    mean: Real64,
    detrended: Seq<Real32>,
) -> bool {
    &&& detrended.len() == points.len()
    &&& forall|i: int|
        0 <= i < points.len() ==> call_ensures(deviation, (points[i].cents, mean), #[trigger] detrended[i])
}

/// `v` is what the points of a note say of its vibrato: it is judged by the time from
/// the first to the last of them, by how often they cross their mean, and by half
/// their span.
pub open spec fn note_judged<
    S: Fn(Real64, Real64) -> Real32,
    M: Fn(Vec<Point>) -> (Real64, Real32),
    D: Fn(Real64, Real64) -> Real32,
    H: Fn(Real32, Real32) -> Real32,
    R: Fn(usize, Real32) -> Real32,
>(points: Seq<Point>, span: S, mean: M, deviation: D, half: H, pace: R, v: Option<Vibrato>) -> bool {
    exists|duration: Real32, m: (Real64, Real32), detrended: Seq<Real32>, count: usize, depth: Real32, rate: Real32|
        #![trigger call_ensures(span, (points.first().time, points.last().time), duration), averaged(mean, points, m), detrended_from(deviation, points, m.0, detrended), call_ensures(half, (low_of(detrended), high_of(detrended)), depth), call_ensures(pace, (count, duration), rate)]
        {
            &&& call_ensures(span, (points.first().time, points.last().time), duration)
            &&& averaged(mean, points, m)
            &&& detrended_from(deviation, points, m.0, detrended)
            &&& call_ensures(half, (low_of(detrended), high_of(detrended)), depth)
            &&& count == crossings_in(detrended, detrended.len() as int)
            &&& call_ensures(pace, (count, duration), rate)
            &&& judged(duration, rate, depth, m.1, v)
        }
}

/// `v` is what a history says of the vibrato of its last note.
pub open spec fn analyzed<
    W: Fn(Real64) -> Real64,
    S: Fn(Real64, Real64) -> Real32,
    M: Fn(Vec<Point>) -> (Real64, Real32),
    D: Fn(Real64, Real64) -> Real32,
    H: Fn(Real32, Real32) -> Real32,
    R: Fn(usize, Real32) -> Real32,
>(history: Seq<Point>, start: W, span: S, mean: M, deviation: D, half: H, pace: R, v: Option<Vibrato>) -> bool {
    match last_voiced_in(history, history.len() as int) {
        Some(end) => exists|from: Real64| #[trigger]
            call_ensures(start, (end,), from) && {
                let points = voiced_in(history, from, history.len() as int);
                if points.len() < MIN_POINTS {
                    v is None
                } else {
                    note_judged(points, span, mean, deviation, half, pace, v)
                }
            },
        None => v is None,
    }
}

/// The vibrato of the recent note, if there is enough voiced data and the modulation
/// is neither too small nor too slow. `start` gives the start of the window that ends
/// at a time, `span` the time between two times, `mean` the mean deviation of some
/// points in both precisions, `deviation` the distance of a deviation from it, `half`
/// half the distance of a low and a high deviation, and `pace` the rate of some zero
/// crossings over a duration.
pub fn analyze<
    W: Fn(Real64) -> Real64,
    S: Fn(Real64, Real64) -> Real32,
    M: Fn(Vec<Point>) -> (Real64, Real32),
    D: Fn(Real64, Real64) -> Real32,
    H: Fn(Real32, Real32) -> Real32,
    R: Fn(usize, Real32) -> Real32,
>(history: &Vec<Point>, start: W, span: S, mean: M, deviation: D, half: H, pace: R) -> (v: Option<Vibrato>)
    requires
        history.len() * 95 <= usize::MAX,
        forall|t: Real64| call_requires(start, (t,)),
        forall|a: Real64, b: Real64| call_requires(span, (a, b)),
        forall|p: Vec<Point>| call_requires(mean, (p,)),
        forall|a: Real64, b: Real64| call_requires(deviation, (a, b)),
        forall|a: Real32, b: Real32| call_requires(half, (a, b)),
        forall|n: usize, d: Real32| call_requires(pace, (n, d)),
    ensures
        analyzed(history@, start, span, mean, deviation, half, pace, v),
{
    let end: Real64 = match last_voiced(history) {
        Some(t) => t,
        None => return None,
    };
    let from: Real64 = start(end);
    assert(call_ensures(start, (end,), from));
    let points: Vec<Point> = match voiced(history, from) {
        Some(p) => p,
        None => return None,
    };
    proof {
        voiced_are_some(history@, from, history.len() as int);
    }
    let duration: Real32 = span(points[0].time, points[points.len() - 1].time);
    let copy: Vec<Point> = crate::ring::section(&points, 0, points.len());
    assert(copy@ =~= points@);
    let m: (Real64, Real32) = mean(copy);
    assert(averaged(mean, points@, m));
    let mut detrended: Vec<Real32> = Vec::new();
    let mut i: usize = 0;
    while i < points.len()
        invariant
            i <= points.len(),
            detrended.len() == i,
            forall|a: Real64, b: Real64| call_requires(deviation, (a, b)),
            forall|k: int| 0 <= k < i ==> call_ensures(deviation, (points[k].cents, m.0), #[trigger] detrended[k]),
        decreases points.len() - i,
    {
        let d: Real32 = deviation(points[i].cents, m.0);
        detrended.push(d);
        i = i + 1;
    }
    assert(detrended_from(deviation, points@, m.0, detrended@));
    let (lo, hi) = percentile_span(&detrended);
    let depth: Real32 = half(lo, hi);
    let count: usize = crossings(&detrended);
    let rate: Real32 = pace(count, duration);
    let v: Option<Vibrato> = judge(duration, rate, depth, m.1);
    proof {
        assert(call_ensures(span, (points@.first().time, points@.last().time), duration));
        assert(call_ensures(half, (low_of(detrended@), high_of(detrended@)), depth));
        assert(call_ensures(pace, (count, duration), rate));
        assert(note_judged(points@, span, mean, deviation, half, pace, v));
    }
    v
}

proof fn voiced_are_some(history: Seq<Point>, from: Real64, n: int)
    requires
        0 <= n,
    ensures
        voiced_in(history, from, n).len() <= n,
    decreases n,
{
    if n > 0 {
        voiced_are_some(history, from, n - 1);
    }
}

/// Gaps do not matter to the outcome, wherever in the history they are and however many:
/// two histories of which the same is left without them have the same.
pub proof fn gaps_do_not_change_the_outcome<
    W: Fn(Real64) -> Real64,
    S: Fn(Real64, Real64) -> Real32,
    M: Fn(Vec<Point>) -> (Real64, Real32),
    D: Fn(Real64, Real64) -> Real32,
    H: Fn(Real32, Real32) -> Real32,
    R: Fn(usize, Real32) -> Real32,
>(
    a: Seq<Point>,
    b: Seq<Point>,
    start: W,
    span: S,
    mean: M,
    deviation: D,
    half: H,
    pace: R,
    v: Option<Vibrato>,
)
    requires
        sung_in(a, a.len() as int) == sung_in(b, b.len() as int),
    ensures
        analyzed(a, start, span, mean, deviation, half, pace, v) <==> analyzed(
            b,
            start,
            span,
            mean,
            deviation,
            half,
            pace,
            v,
        ),
{
    let (m, n) = (a.len() as int, b.len() as int);
    assert forall|from: Real64| #[trigger] voiced_in(a, from, m) == voiced_in(b, from, n) by {
        only_what_is_sung_is_voiced(a, from, m);
        only_what_is_sung_is_voiced(b, from, n);
    }
    only_what_is_sung_is_voiced(a, Real64 { bits: 0 }, m);
    only_what_is_sung_is_voiced(b, Real64 { bits: 0 }, n);
    outcome_is_of_the_voiced(a, b, start, span, mean, deviation, half, pace, v);
}

/// A history in which nothing is sung has no vibrato, and a vibrato is neither too slow
/// nor too shallow.
pub proof fn vibrato_is_fast_and_deep<
    W: Fn(Real64) -> Real64,
    S: Fn(Real64, Real64) -> Real32,
    M: Fn(Vec<Point>) -> (Real64, Real32),
    D: Fn(Real64, Real64) -> Real32,
    H: Fn(Real32, Real32) -> Real32,
    R: Fn(usize, Real32) -> Real32,
>(
    history: Seq<Point>,
    start: W,
    span: S,
    mean: M,
    deviation: D,
    half: H,
    pace: R,
    v: Option<Vibrato>,
)
    requires
        analyzed(history, start, span, mean, deviation, half, pace, v),
    ensures
        sung_in(history, history.len() as int).len() == 0 ==> v is None,
        v matches Some(found) ==> !found.rate_hz.below(Real32 { bits: MIN_VIBRATO }) && !found.depth_cents.below(
            Real32 { bits: MIN_DEPTH },
        ),
{
    only_what_is_sung_is_voiced(history, Real64 { bits: 0 }, history.len() as int);
}

proof fn outcome_is_of_the_voiced<
    W: Fn(Real64) -> Real64,
    S: Fn(Real64, Real64) -> Real32,
    M: Fn(Vec<Point>) -> (Real64, Real32),
    D: Fn(Real64, Real64) -> Real32,
    H: Fn(Real32, Real32) -> Real32,
    R: Fn(usize, Real32) -> Real32,
>(
    a: Seq<Point>,
    b: Seq<Point>,
    start: W,
    span: S,
    mean: M,
    deviation: D,
    half: H,
    pace: R,
    v: Option<Vibrato>,
)
    requires
        last_voiced_in(a, a.len() as int) == last_voiced_in(b, b.len() as int),
        last_voiced_in(b, b.len() as int) matches Some(end) ==> forall|from: Real64| #[trigger]
            call_ensures(start, (end,), from) ==> voiced_in(a, from, a.len() as int) == voiced_in(
                b,
                from,
                b.len() as int,
            ),
    ensures
        analyzed(a, start, span, mean, deviation, half, pace, v) <==> analyzed(
            b,
            start,
            span,
            mean,
            deviation,
            half,
            pace,
            v,
        ),
{
}

/// What is voiced in the older points and the first `n` of the recent ones.
proof fn older_points_are_not_voiced(old_points: Seq<Point>, recent: Seq<Point>, from: Real64, n: int)
    requires
        0 <= n <= recent.len(),
        forall|i: int|
            0 <= i < old_points.len() ==> (#[trigger] old_points[i]).cents.nan() || !from.at_most(old_points[i].time),
    ensures
        voiced_in(old_points + recent, from, old_points.len() + n) == voiced_in(recent, from, n),
    decreases n,
{
    if n > 0 {
        older_points_are_not_voiced(old_points, recent, from, n - 1);
        assert((old_points + recent)[old_points.len() + n - 1] == recent[n - 1]);
    } else {
        nothing_old_is_voiced(old_points, recent, from, old_points.len() as int);
    }
}

proof fn nothing_old_is_voiced(old_points: Seq<Point>, recent: Seq<Point>, from: Real64, n: int)
    requires
        0 <= n <= old_points.len(),
        forall|i: int|
            0 <= i < old_points.len() ==> (#[trigger] old_points[i]).cents.nan() || !from.at_most(old_points[i].time),
    ensures
        voiced_in(old_points + recent, from, n) == Seq::<Point>::empty(),
    decreases n,
{
    if n > 0 {
        nothing_old_is_voiced(old_points, recent, from, n - 1);
        assert((old_points + recent)[n - 1] == old_points[n - 1]);
    }
}

proof fn last_voiced_is_recent(old_points: Seq<Point>, recent: Seq<Point>, n: int)
    requires
        0 <= n <= recent.len(),
        last_voiced_in(recent, n) is Some,
    ensures
        last_voiced_in(old_points + recent, old_points.len() + n) == last_voiced_in(recent, n),
    decreases n,
{
    assert((old_points + recent)[old_points.len() + n - 1] == recent[n - 1]);
    if recent[n - 1].cents.nan() {
        last_voiced_is_recent(old_points, recent, n - 1);
    }
}

/// Only the last window counts: points older than its start, put in front of a history
/// in which something is voiced, do not change the outcome.
pub proof fn older_points_do_not_matter<
    W: Fn(Real64) -> Real64,
    S: Fn(Real64, Real64) -> Real32,
    M: Fn(Vec<Point>) -> (Real64, Real32),
    D: Fn(Real64, Real64) -> Real32,
    H: Fn(Real32, Real32) -> Real32,
    R: Fn(usize, Real32) -> Real32,
>(
    old_points: Seq<Point>,
    recent: Seq<Point>,
    start: W,
    span: S,
    mean: M,
    deviation: D,
    half: H,
    pace: R,
    v: Option<Vibrato>,
)
    requires
        last_voiced_in(recent, recent.len() as int) is Some,
        forall|from: Real64, i: int|
            #![trigger call_ensures(start, (last_voiced_in(recent, recent.len() as int)->0,), from), old_points[i]]
            call_ensures(start, (last_voiced_in(recent, recent.len() as int)->0,), from) && 0 <= i < old_points.len()
                ==> old_points[i].cents.nan() || !from.at_most(old_points[i].time),
    ensures
        analyzed(old_points + recent, start, span, mean, deviation, half, pace, v) <==> analyzed(
            recent,
            start,
            span,
            mean,
            deviation,
            half,
            pace,
            v,
        ),
{
    let n = recent.len() as int;
    let all = old_points + recent;
    last_voiced_is_recent(old_points, recent, n);
    let end = last_voiced_in(recent, n)->0;
    assert forall|from: Real64| #[trigger] call_ensures(start, (end,), from) implies voiced_in(all, from, all.len() as int)
        == voiced_in(recent, from, n) by {
        assert forall|i: int| 0 <= i < old_points.len() implies (#[trigger] old_points[i]).cents.nan() || !from.at_most(
            old_points[i].time,
        ) by {
            assert(call_ensures(start, (last_voiced_in(recent, n)->0,), from));
        }
        older_points_are_not_voiced(old_points, recent, from, n);
    }
    outcome_is_of_the_voiced(all, recent, start, span, mean, deviation, half, pace, v);
}

/// A steady pitch has no vibrato: none is found in a history whose deviations are all
/// alike but for gaps, where half the distance of a deviation from itself is below the
/// least depth.
pub proof fn steady_pitch_has_no_vibrato<
    W: Fn(Real64) -> Real64,
    S: Fn(Real64, Real64) -> Real32,
    M: Fn(Vec<Point>) -> (Real64, Real32),
    D: Fn(Real64, Real64) -> Real32,
    H: Fn(Real32, Real32) -> Real32,
    R: Fn(usize, Real32) -> Real32,
>(
    history: Seq<Point>,
    cents: Real64,
    start: W,
    span: S,
    mean: M,
    deviation: D,
    half: H,
    pace: R,
    v: Option<Vibrato>,
)
    requires
        analyzed(history, start, span, mean, deviation, half, pace, v),
        forall|i: int|
            0 <= i < history.len() ==> (#[trigger] history[i]).cents.nan() || history[i].cents == cents,
        forall|a: Real64, b: Real64, x: Real32, y: Real32| #[trigger]
            call_ensures(deviation, (a, b), x) && #[trigger] call_ensures(deviation, (a, b), y) ==> x == y,
        forall|x: Real32, d: Real32| #[trigger]
            call_ensures(half, (x, x), d) ==> d.below(Real32 { bits: MIN_DEPTH }),
    ensures
        v is None,
{
    let n = history.len() as int;
    if last_voiced_in(history, n) is Some {
        let end = last_voiced_in(history, n)->0;
        let from = choose|from: Real64| #[trigger]
            call_ensures(start, (end,), from) && {
                let points = voiced_in(history, from, n);
                if points.len() < MIN_POINTS {
                    v is None
                } else {
                    note_judged(points, span, mean, deviation, half, pace, v)
                }
            };
        let points = voiced_in(history, from, n);
        if points.len() >= MIN_POINTS {
            voiced_are_alike(history, cents, from, n);
            steady_note_has_no_vibrato(points, span, mean, deviation, half, pace, v);
        }
    }
}

proof fn voiced_are_alike(history: Seq<Point>, cents: Real64, from: Real64, n: int)
    requires
        0 <= n <= history.len(),
        forall|i: int|
            0 <= i < history.len() ==> (#[trigger] history[i]).cents.nan() || history[i].cents == cents,
    ensures
        forall|i: int|
            0 <= i < voiced_in(history, from, n).len() ==> (#[trigger] voiced_in(history, from, n)[i]).cents == cents,
    decreases n,
{
    if n > 0 {
        voiced_are_alike(history, cents, from, n - 1);
        assert(history[n - 1].cents.nan() || history[n - 1].cents == cents);
        let before = voiced_in(history, from, n - 1);
        let points = voiced_in(history, from, n);
        assert forall|i: int| 0 <= i < points.len() implies (#[trigger] points[i]).cents == cents by {
            if i < before.len() {
                assert(points[i] == before[i]);
            }
        }
    }
}

proof fn steady_note_has_no_vibrato<
    S: Fn(Real64, Real64) -> Real32,
    M: Fn(Vec<Point>) -> (Real64, Real32),
    D: Fn(Real64, Real64) -> Real32,
    H: Fn(Real32, Real32) -> Real32,
    R: Fn(usize, Real32) -> Real32,
>(points: Seq<Point>, span: S, mean: M, deviation: D, half: H, pace: R, v: Option<Vibrato>)
    requires
        points.len() >= MIN_POINTS,
        note_judged(points, span, mean, deviation, half, pace, v),
        forall|i: int| 0 <= i < points.len() ==> (#[trigger] points[i]).cents == points[0].cents,
        forall|a: Real64, b: Real64, x: Real32, y: Real32| #[trigger]
            call_ensures(deviation, (a, b), x) && #[trigger] call_ensures(deviation, (a, b), y) ==> x == y,
        forall|x: Real32, d: Real32| #[trigger]
            call_ensures(half, (x, x), d) ==> d.below(Real32 { bits: MIN_DEPTH }),
    ensures
        v is None,
{
    let (duration, m, detrended, count, depth, rate) = choose|
        duration: Real32,
        m: (Real64, Real32),
        detrended: Seq<Real32>,
        count: usize,
        depth: Real32,
        rate: Real32,
    |
        #![trigger call_ensures(span, (points.first().time, points.last().time), duration), averaged(mean, points, m), detrended_from(deviation, points, m.0, detrended), call_ensures(half, (low_of(detrended), high_of(detrended)), depth), call_ensures(pace, (count, duration), rate)]
        {
            &&& call_ensures(span, (points.first().time, points.last().time), duration)
            &&& averaged(mean, points, m)
            &&& detrended_from(deviation, points, m.0, detrended)
            &&& call_ensures(half, (low_of(detrended), high_of(detrended)), depth)
            &&& count == crossings_in(detrended, detrended.len() as int)
            &&& call_ensures(pace, (count, duration), rate)
            &&& judged(duration, rate, depth, m.1, v)
        };
    assert forall|i: int| 0 <= i < detrended.len() implies (#[trigger] detrended[i]) == detrended[0] by {
        assert(call_ensures(deviation, (points[i].cents, m.0), detrended[i]));
        assert(call_ensures(deviation, (points[0].cents, m.0), detrended[0]));
        assert(points[i].cents == points[0].cents);
    }
    let n = detrended.len() as int;
    let held = choose|held: Vec<Point>| #[trigger] held@ == points && call_ensures(mean, (held,), m);
    assert(held.len() == n);
    let order = crate::order::sorted_positions(crate::order::order_keys(detrended));
    crate::order::keys_can_be_ordered(crate::order::order_keys(detrended));
    assert(0 <= n * 5 / 100 < n && 0 <= n * 95 / 100 < n) by (nonlinear_arith)
        requires
            n >= 12,
    ;
    assert(order[n * 5 / 100] < n && order[n * 95 / 100] < n);
    assert(low_of(detrended) == detrended[0]);
    assert(high_of(detrended) == detrended[0]);
    assert(call_ensures(half, (detrended[0], detrended[0]), depth));
}

} // verus!
