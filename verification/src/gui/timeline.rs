//! The display over time: how long a reading is held, and how far back the history goes.

use vstd::prelude::*;

use crate::dsp::vibrato::Point;
use crate::gui::state::{passes, shown, since, Display, Heard, GAP, HISTORY_SECS, HOLD_FRAMES};
use crate::ieee::Real64;

verus! {

/// Frames follow each other: frame `i` came at `times[i]`, and `heard[i]` was detected in
/// it. `displays` are the display before every frame, and after the last.
pub open spec fn is_session<M: Fn(Real64, Real64) -> Real64>(
    minus: M,
    heard: Seq<Option<Heard>>,
    times: Seq<Real64>,
    displays: Seq<Display>,
) -> bool {
    &&& times.len() == heard.len()
    &&& displays.len() == heard.len() + 1
    &&& forall|i: int|
        0 <= i < heard.len() ==> passes(minus, displays[i], #[trigger] heard[i], times[i], displays[i + 1])
}

/// `after` has the history `all`, without the oldest points that lie more than
/// `HISTORY_SECS` before `now`.
pub open spec fn keeps_recent<M: Fn(Real64, Real64) -> Real64>(
    minus: M,
    all: Seq<Point>,
    now: Real64,
    after: Display,
) -> bool {
    exists|from: Real64| #[trigger]
        call_ensures(minus, (now, Real64 { bits: HISTORY_SECS }), from) && after.history == since(all, from)
}

proof fn silence_wears_on<M: Fn(Real64, Real64) -> Real64>(
    minus: M,
    heard: Seq<Option<Heard>>,
    times: Seq<Real64>,
    displays: Seq<Display>,
    c: int,
    n: int,
)
    requires
        is_session(minus, heard, times, displays),
        0 <= c < heard.len(),
        heard[c] is Some,
        0 <= n,
        c + n < heard.len(),
        forall|i: int| c < i <= c + n ==> (#[trigger] heard[i]) is None,
    ensures
        n <= HOLD_FRAMES ==> displays[c + n + 1].reading == Some(heard[c]->0.reading) && displays[c + n + 1].hold
            == HOLD_FRAMES - n,
        n > HOLD_FRAMES ==> displays[c + n + 1].reading is None && displays[c + n + 1].hold == 0,
    decreases n,
{
    assert(passes(minus, displays[c + n], heard[c + n], times[c + n], displays[c + n + 1]));
    if n > 0 {
        silence_wears_on(minus, heard, times, displays, c, n - 1);
    }
}

/// After a pitch was heard in frame `c`, and none in the `n` frames that follow: through
/// `HOLD_FRAMES` of them the reading stays, and nothing is added to the history. The next
/// one ends the reading and adds one point, at its own time, that marks the gap. Later
/// ones add nothing.
pub proof fn reading_is_held_and_then_ends<M: Fn(Real64, Real64) -> Real64>(
    minus: M,
    heard: Seq<Option<Heard>>,
    times: Seq<Real64>,
    displays: Seq<Display>,
    c: int,
    n: int,
)
    requires
        is_session(minus, heard, times, displays),
        0 <= c < heard.len(),
        heard[c] is Some,
        0 < n,
        c + n < heard.len(),
        forall|i: int| c < i <= c + n ==> (#[trigger] heard[i]) is None,
    ensures
        ({
            let before = displays[c + n];
            let after = displays[c + n + 1];
            let now = times[c + n];
            let gap = Point { time: now, cents: Real64 { bits: GAP } };
            &&& gap.cents.nan()
            &&& n <= HOLD_FRAMES ==> after.reading == Some(heard[c]->0.reading)
            &&& n > HOLD_FRAMES ==> after.reading is None
            &&& n == HOLD_FRAMES + 1 ==> keeps_recent(minus, before.history.push(gap), now, after)
            &&& n != HOLD_FRAMES + 1 ==> keeps_recent(minus, before.history, now, after)
        }),
{
    silence_wears_on(minus, heard, times, displays, c, n - 1);
    silence_wears_on(minus, heard, times, displays, c, n);
    let before = displays[c + n];
    let now = times[c + n];
    assert(passes(minus, before, heard[c + n], now, displays[c + n + 1]));
    let next = shown(before, heard[c + n], now);
    let from = choose|from: Real64| #[trigger]
        call_ensures(minus, (now, Real64 { bits: HISTORY_SECS }), from) && displays[c + n + 1] == (Display {
            history: since(next.history, from),
            ..next
        });
    assert(call_ensures(minus, (now, Real64 { bits: HISTORY_SECS }), from));
}

/// The points stand in the order of their times, none later than `now`.
pub open spec fn in_order(history: Seq<Point>, now: Real64) -> bool {
    &&& forall|i: int| 0 <= i < history.len() ==> (#[trigger] history[i]).time.at_most(now)
    &&& forall|i: int, j: int|
        0 <= i < j < history.len() ==> (#[trigger] history[i]).time.at_most((#[trigger] history[j]).time)
}

proof fn points_since(history: Seq<Point>, now: Real64, from: Real64)
    requires
        !from.nan(),
        in_order(history, now),
    ensures
        since(history, from).len() <= history.len(),
        since(history, from) == history.skip(history.len() - since(history, from).len()),
        forall|i: int| 0 <= i < since(history, from).len() ==> from.at_most((#[trigger] since(history, from)[i]).time),
        forall|i: int|
            0 <= i < history.len() - since(history, from).len() ==> (#[trigger] history[i]).time.below(from),
    decreases history.len(),
{
    if history.len() > 0 && history[0].time.below(from) {
        let rest = history.skip(1);
        points_since(rest, now, from);
        assert(rest.skip(rest.len() - since(rest, from).len()) =~= history.skip(
            history.len() - since(history, from).len(),
        ));
        assert forall|i: int| 0 <= i < history.len() - since(history, from).len() implies (
        #[trigger] history[i]).time.below(from) by {
            if i > 0 {
                assert(rest[i - 1] == history[i]);
            }
        }
    } else {
        assert(history.skip(0) =~= history);
    }
}

/// Where time never runs backwards, after every frame the points of the history stand in
/// the order of their times, every one is at most `HISTORY_SECS` old, and of the points
/// that were there only older ones have gone. So it is from an empty history on, if a
/// number less another is a number.
pub proof fn history_is_recent<M: Fn(Real64, Real64) -> Real64>(
    minus: M,
    heard: Seq<Option<Heard>>,
    times: Seq<Real64>,
    displays: Seq<Display>,
    n: int,
) -> (from: Real64)
    requires
        is_session(minus, heard, times, displays),
        displays[0].history.len() == 0,
        forall|i: int, j: int| 0 <= i <= j < times.len() ==> (#[trigger] times[i]).at_most(#[trigger] times[j]),
        forall|t: Real64, r: Real64|
            !t.nan() && #[trigger] call_ensures(minus, (t, Real64 { bits: HISTORY_SECS }), r) ==> !r.nan(),
        0 <= n < heard.len(),
    ensures
        call_ensures(minus, (times[n], Real64 { bits: HISTORY_SECS }), from),
        in_order(displays[n + 1].history, times[n]),
        forall|i: int|
            0 <= i < displays[n + 1].history.len() ==> from.at_most((#[trigger] displays[n + 1].history[i]).time),
        ({
            let all = shown(displays[n], heard[n], times[n]).history;
            let kept = displays[n + 1].history;
            &&& kept.len() <= all.len()
            &&& kept == all.skip(all.len() - kept.len())
            &&& forall|i: int| 0 <= i < all.len() - kept.len() ==> (#[trigger] all[i]).time.below(from)
        }),
    decreases n,
{
    let now = times[n];
    let before = displays[n];
    assert(times[n].at_most(times[n]));
    assert(passes(minus, before, heard[n], now, displays[n + 1]));
    let next = shown(before, heard[n], now);
    let from = choose|from: Real64| #[trigger]
        call_ensures(minus, (now, Real64 { bits: HISTORY_SECS }), from) && displays[n + 1] == (Display {
            history: since(next.history, from),
            ..next
        });
    if n > 0 {
        let earlier = history_is_recent(minus, heard, times, displays, n - 1);
        assert(times[n - 1].at_most(times[n]));
    }
    assert(in_order(before.history, now));
    assert(in_order(next.history, now));
    points_since(next.history, now, from);
    from
}

} // verus!
