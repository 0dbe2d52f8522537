//! When a vibrato is reported, and what of a history it is judged by.

use vstd::prelude::*;

use crate::dsp::vibrato::{
    analyze, analyzed, averaged, crossings, crossings_in, detrended_from, high_of, judge, last_voiced_in, low_of,
    note_judged, percentile_span, voiced, voiced_in, Point, Vibrato,
};
use crate::ieee::{Real32, Real64};
use crate::laws::order::{count_above, count_below, place_in_the_order};

verus! {

/// The rows of a history that count: those with a deviation that is a number, and a time
/// at or after `from`.
pub open spec fn recent(history: Seq<Point>, from: Real64) -> Seq<Point> {
    history.filter(|p: Point| !p.cents.nan() && from.at_most(p.time))
}

proof fn voiced_is_filtered(history: Seq<Point>, from: Real64, n: int)
    requires
        0 <= n <= history.len(),
    ensures
        voiced_in(history, from, n) == recent(history.take(n), from),
    decreases n,
{
    reveal(Seq::filter);
    let keep = |p: Point| !p.cents.nan() && from.at_most(p.time);
    if n > 0 {
        voiced_is_filtered(history, from, n - 1);
        let part = history.take(n);
        assert(part.drop_last() =~= history.take(n - 1));
        assert(part.last() == history[n - 1]);
        assert(part.filter(keep) == (if keep(part.last()) {
            part.drop_last().filter(keep).push(part.last())
        } else {
            part.drop_last().filter(keep)
        }));
    } else {
        assert(history.take(0).filter(keep) =~= Seq::<Point>::empty());
    }
}

/// `end` is the time of the last row whose deviation is a number.
pub open spec fn is_end(history: Seq<Point>, end: Real64) -> bool {
    exists|i: int|
        #![trigger history[i]]
        0 <= i < history.len() && !history[i].cents.nan() && history[i].time == end && forall|j: int|
            i < j < history.len() ==> (#[trigger] history[j]).cents.nan()
}

proof fn end_is_the_last(history: Seq<Point>, n: int)
    requires
        0 <= n <= history.len(),
        forall|j: int| n <= j < history.len() ==> (#[trigger] history[j]).cents.nan(),
    ensures
        last_voiced_in(history, n) matches Some(end) ==> is_end(history, end),
        last_voiced_in(history, n) is None ==> forall|j: int|
            0 <= j < history.len() ==> (#[trigger] history[j]).cents.nan(),
    decreases n,
{
    if n > 0 && history[n - 1].cents.nan() {
        end_is_the_last(history, n - 1);
    }
}

/// A vibrato is reported exactly if there is enough of it. Of a history the rows count
/// that are sung and not before the start of the window that ends with the last of them;
/// fewer than 12 are too few. It is then reported unless it is shorter than half a
/// second, shallower than 5 cents or slower than 1 hertz, and with just the rate, the
/// depth and the mean that it has: however deep and however fast.
pub proof fn vibrato_is_reported_when_there_is_one<
    W: Fn(Real64) -> Real64,
    S: Fn(Real64, Real64) -> Real32,
    M: Fn(Vec<Point>) -> (Real64, Real32),
    D: Fn(Real64, Real64) -> Real32,
    H: Fn(Real32, Real32) -> Real32,
    R: Fn(usize, Real32) -> Real32,
>(history: Seq<Point>, start: W, span: S, mean: M, deviation: D, half: H, pace: R, v: Option<Vibrato>) -> (r: (
    Real64,
    Real64,
    Real32,
    (Real64, Real32),
    Seq<Real32>,
    usize,
    Real32,
    Real32,
))
    requires
        analyzed(history, start, span, mean, deviation, half, pace, v),
    ensures
        ({
            let (end, from, duration, m, off, count, depth, rate) = r;
            let rows = recent(history, from);
            let silent = forall|j: int| 0 <= j < history.len() ==> (#[trigger] history[j]).cents.nan();
            &&& silent ==> v is None
            &&& !silent ==> is_end(history, end) && call_ensures(start, (end,), from)
            &&& !silent && rows.len() < 12 ==> v is None
            &&& !silent && rows.len() >= 12 ==> {
                &&& call_ensures(span, (rows[0].time, rows.last().time), duration)
                &&& exists|held: Vec<Point>| #[trigger] held@ == rows && call_ensures(mean, (held,), m)
                &&& off.len() == rows.len()
                &&& forall|i: int|
                    0 <= i < rows.len() ==> call_ensures(deviation, (rows[i].cents, m.0), #[trigger] off[i])
                &&& call_ensures(half, (low_of(off), high_of(off)), depth)
                &&& count == crossings_in(off, off.len() as int)
                &&& call_ensures(pace, (count, duration), rate)
                &&& v is Some <==> !duration.below(Real32 { bits: 0x3f00_0000 }) && !depth.below(
                    Real32 { bits: 0x40a0_0000 },
                ) && !rate.below(Real32 { bits: 0x3f80_0000 })
                &&& v matches Some(found) ==> found.rate_hz == rate && found.depth_cents == depth && found.mean_cents
                    == m.1
            }
        }),
{
    let n = history.len() as int;
    let zero = Real32 { bits: 0 };
    let nothing = (
        Real64 { bits: 0 },
        Real64 { bits: 0 },
        zero,
        (Real64 { bits: 0 }, zero),
        Seq::<Real32>::empty(),
        0usize,
        zero,
        zero,
    );
    end_is_the_last(history, n);
    match last_voiced_in(history, n) {
        None => nothing,
        Some(end) => {
            let from = choose|from: Real64| #[trigger]
                call_ensures(start, (end,), from) && {
                    let points = voiced_in(history, from, n);
                    if points.len() < 12 {
                        v is None
                    } else {
                        note_judged(points, span, mean, deviation, half, pace, v)
                    }
                };
            voiced_is_filtered(history, from, n);
            assert(history.take(n) =~= history);
            let points = recent(history, from);
            if points.len() < 12 {
                (end, from, nothing.2, nothing.3, nothing.4, nothing.5, nothing.6, nothing.7)
            } else {
                let (duration, m, off, count, depth, rate) = choose|
                    duration: Real32,
                    m: (Real64, Real32),
                    detrended: Seq<Real32>,
                    count: usize,
                    depth: Real32,
                    rate: Real32,
                |
                    #![trigger call_ensures(span, (points.first().time, points.last().time), duration), averaged(mean, points, m), detrended_from(deviation, points, m.0, detrended), call_ensures(half, (low_of(detrended), high_of(detrended)), depth), call_ensures(pace, (count, duration), rate)]
                    {
                        &&& call_ensures(span, (points.first().time, points.last().time), duration)
                        &&& averaged(mean, points, m)
                        &&& detrended_from(deviation, points, m.0, detrended)
                        &&& call_ensures(half, (low_of(detrended), high_of(detrended)), depth)
                        &&& count == crossings_in(detrended, detrended.len() as int)
                        &&& call_ensures(pace, (count, duration), rate)
                        &&& crate::dsp::vibrato::judged(duration, rate, depth, m.1, v)
                    };
                (end, from, duration, m, off, count, depth, rate)
            }
        },
    }
}

/// The depth spans all but a twentieth of the deviations on either side: at most a
/// twentieth of them lie below the low one, and at most a twentieth above the high one.
/// Both are among the deviations, and no more of these lie beyond either than these
/// parts leave.
pub proof fn depth_spans_nine_tenths(off: Seq<Real32>)
    requires
        0 < off.len() <= usize::MAX,
    ensures
        off.contains(low_of(off)),
        off.contains(high_of(off)),
        count_below(off, low_of(off), off.len() as int) <= off.len() as int * 5 / 100,
        count_above(off, low_of(off), off.len() as int) <= off.len() - 1 - off.len() as int * 5 / 100,
        count_below(off, high_of(off), off.len() as int) <= off.len() as int * 95 / 100,
        count_above(off, high_of(off), off.len() as int) <= off.len() - 1 - off.len() as int * 95 / 100,
{
    let n = off.len() as int;
    assert(0 <= n * 5 / 100 < n && 0 <= n * 95 / 100 < n) by (nonlinear_arith)
        requires
            n > 0,
    ;
    place_in_the_order(off, n * 5 / 100);
    place_in_the_order(off, n * 95 / 100);
}

/// The deviation changes its side with value `i`: of it and the one before, one is zero
/// or more and the other is not.
pub open spec fn changes_side(off: Seq<Real32>, i: int) -> bool {
    let zero = Real32 { bits: 0 };
    0 < i < off.len() && (zero.at_most(off[i - 1]) != zero.at_most(off[i]))
}

/// Every change of side is counted as a crossing, and nothing else: one more value adds
/// one crossing exactly if it lies on the other side of zero.
pub proof fn every_change_of_side_counts(off: Seq<Real32>, n: int)
    requires
        0 <= n < off.len(),
    ensures
        crossings_in(off, 0) == 0,
        crossings_in(off, n + 1) == crossings_in(off, n) + (if changes_side(off, n) {
            1int
        } else {
            0int
        }),
{
}

/// A vibrato is judged by three numbers: it is reported, with just these, exactly if it
/// lasts at least half a second, is at least 5 cents deep and at least as fast as 1 hertz.
pub proof fn long_deep_and_fast_is_vibrato(
    duration: Real32,
    rate_hz: Real32,
    depth_cents: Real32,
    mean_cents: Real32,
    v: Option<Vibrato>,
)
    requires
        call_ensures(judge, (duration, rate_hz, depth_cents, mean_cents), v),
    ensures
        v is Some <==> !duration.below(Real32 { bits: 0x3f00_0000 }) && !depth_cents.below(Real32 { bits: 0x40a0_0000 })
            && !rate_hz.below(Real32 { bits: 0x3f80_0000 }),
        v matches Some(found) ==> found.rate_hz == rate_hz && found.depth_cents == depth_cents && found.mean_cents
            == mean_cents,
{
}

/// The vibrato of a history is what the history says of it; the points, the span and the
/// crossings that it is measured by are those of the laws above.
pub proof fn vibrato_is_of_the_history<
    W: Fn(Real64) -> Real64,
    S: Fn(Real64, Real64) -> Real32,
    M: Fn(Vec<Point>) -> (Real64, Real32),
    D: Fn(Real64, Real64) -> Real32,
    H: Fn(Real32, Real32) -> Real32,
    R: Fn(usize, Real32) -> Real32,
>(
    history: &Vec<Point>,
    start: W,
    span: S,
    mean: M,
    deviation: D,
    half: H,
    pace: R,
    v: Option<Vibrato>,
    from: Real64,
    points: Option<Vec<Point>>,
    values: &Vec<Real32>,
    count: usize,
    low_high: (Real32, Real32),
)
    requires
        call_ensures(analyze::<W, S, M, D, H, R>, (history, start, span, mean, deviation, half, pace), v),
        call_ensures(voiced, (history, from), points),
        call_ensures(crossings, (values,), count),
        call_ensures(percentile_span, (values,), low_high),
    ensures
        analyzed(history@, start, span, mean, deviation, half, pace, v),
        points is Some <==> recent(history@, from).len() >= 12,
        points matches Some(p) ==> p@ == recent(history@, from),
        count == crossings_in(values@, values.len() as int),
        low_high == (low_of(values@), high_of(values@)),
{
    voiced_is_filtered(history@, from, history.len() as int);
    assert(history@.take(history.len() as int) =~= history@);
}

} // verus!
