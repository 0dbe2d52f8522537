//! Where one stream lags another, and what the servo of a phone holds on to.

use vstd::prelude::*;

use crate::dsp::align::{
    at_lag, competes, confident, find_delay, is_aligned, is_best_lag, is_floor, is_lag_peak, is_padded, read_aligned, read_at, readable, run,
    sized, trusted_by, whiten, whitened_at, Correction, DelayEstimate, LagPeak, Servo,
};
use crate::ieee::{Real32, Real64};
use crate::order::is_maximum_of;

verus! {

/// The error of a measurement is above 400 samples, either way.
pub open spec fn is_far(c: Correction) -> bool {
    (Real64 { bits: 0x4079_0000_0000_0000 }).below(c.error.unsigned())
}

/// The servo had a measurement and its quality is at least 0.3.
pub open spec fn is_sure(s: Servo) -> bool {
    s.last is Some && (Real32 { bits: 0x3e99_999a }).at_most(s.quality)
}

/// What one measurement does. The first is taken as it is, at the quality 0.4. One that
/// is not far from a sure lock, or any while the lock is not sure, is followed and starts
/// the count of outliers anew; the rate follows it unless two seconds or more have
/// passed. One that is far from a sure lock is only counted, until it is the fourth:
/// then it is taken as a first one would be.
pub proof fn measurement_is_followed_or_counted(s: Servo, t: Real64, measured: Real64, c: Correction)
    requires
        s.well_formed(),
    ensures
        ({
            let after = s.after(t, measured, c);
            let gap = !c.dt.below(Real64 { bits: 0x4000_0000_0000_0000 });
            &&& s.outliers < 4 && after.outliers < 4
            &&& s.last is None ==> {
                &&& after.offset == measured
                &&& after.rate == s.rate
                &&& after.last == Some(t)
                &&& after.quality.bits == 0x3ecc_cccd
                &&& after.outliers == s.outliers
            }
            &&& s.last is Some && !(is_sure(s) && is_far(c)) ==> {
                &&& after.offset == c.offset
                &&& after.rate == (if gap {
                    s.rate
                } else {
                    c.rate
                })
                &&& after.last == Some(t)
                &&& after.quality == c.quality
                &&& after.outliers == 0
            }
            &&& is_sure(s) && is_far(c) && s.outliers < 3 ==> {
                &&& after.offset == s.offset
                &&& after.rate == s.rate
                &&& after.last == s.last
                &&& after.quality == s.quality
                &&& after.outliers == s.outliers + 1
            }
            &&& is_sure(s) && is_far(c) && s.outliers == 3 ==> {
                &&& after.offset == measured
                &&& after.rate.bits == 0
                &&& after.last == Some(t)
                &&& after.quality.bits == 0x3ecc_cccd
                &&& after.outliers == 0
            }
        }),
{
}

/// How many measurements up to the first `n` are far, one behind the other at the end.
pub open spec fn trailing(cs: Seq<Correction>, n: int) -> int
    decreases n,
{
    if n <= 0 || !is_far(cs[n - 1]) {
        0
    } else {
        1 + trailing(cs, n - 1)
    }
}

/// No false peak ever becomes the offset unless it persists: over any run of
/// measurements in which no four in a row are far, every one that is far leaves the
/// offset, the rate, the time and the quality as they were, and every other one is
/// followed. The lock is sure, and every measurement leaves it so.
pub proof fn false_peaks_never_take_the_lock(
    s: Servo,
    ts: Seq<Real64>,
    measured: Seq<Real64>,
    cs: Seq<Correction>,
    n: int,
)
    requires
        is_sure(s),
        s.outliers == 0,
        0 <= n < cs.len(),
        ts.len() == cs.len(),
        measured.len() == cs.len(),
        forall|i: int| 0 <= i < cs.len() ==> (Real32 { bits: 0x3e99_999a }).at_most((#[trigger] cs[i]).quality),
        forall|i: int|
            0 <= i && i + 3 < cs.len() ==> !(is_far(#[trigger] cs[i]) && is_far(cs[i + 1]) && is_far(cs[i + 2]) && is_far(
                cs[i + 3],
            )),
    ensures
        ({
            let before = run(s, ts, measured, cs, n);
            let after = run(s, ts, measured, cs, n + 1);
            &&& is_sure(after)
            &&& is_far(cs[n]) ==> {
                &&& after.offset == before.offset
                &&& after.rate == before.rate
                &&& after.last == before.last
                &&& after.quality == before.quality
            }
            &&& !is_far(cs[n]) ==> {
                &&& after.offset == cs[n].offset
                &&& after.last == Some(ts[n])
                &&& after.outliers == 0
            }
        }),
    decreases n,
{
    outliers_are_counted(s, ts, measured, cs, n);
    outliers_are_counted(s, ts, measured, cs, n + 1);
}

proof fn outliers_are_counted(s: Servo, ts: Seq<Real64>, measured: Seq<Real64>, cs: Seq<Correction>, n: int)
    requires
        is_sure(s),
        s.outliers == 0,
        0 <= n <= cs.len(),
        ts.len() == cs.len(),
        measured.len() == cs.len(),
        forall|i: int| 0 <= i < cs.len() ==> (Real32 { bits: 0x3e99_999a }).at_most((#[trigger] cs[i]).quality),
        forall|i: int|
            0 <= i && i + 3 < cs.len() ==> !(is_far(#[trigger] cs[i]) && is_far(cs[i + 1]) && is_far(cs[i + 2]) && is_far(
                cs[i + 3],
            )),
    ensures
        is_sure(run(s, ts, measured, cs, n)),
        run(s, ts, measured, cs, n).outliers == trailing(cs, n) < 4,
    decreases n,
{
    reveal_with_fuel(trailing, 5);
    if n > 0 {
        outliers_are_counted(s, ts, measured, cs, n - 1);
        let before = run(s, ts, measured, cs, n - 1);
        measurement_is_followed_or_counted(before, ts[n - 1], measured[n - 1], cs[n - 1]);
        assert((Real32 { bits: 0x3e99_999a }).at_most(cs[n - 1].quality));
        if n >= 4 {
            assert(!(is_far(cs[n - 4]) && is_far(cs[n - 4 + 1]) && is_far(cs[n - 4 + 2]) && is_far(cs[n - 4 + 3])));
        }
    }
}

/// The value of a correlation at a lag: negative lags stand at its end.
pub open spec fn value(r: Seq<Real32>, lag: int) -> Real32 {
    if lag < 0 {
        r[16384 + lag]
    } else {
        r[lag]
    }
}

/// A peak is found exactly if there are two lags or more to search and the largest value
/// is above zero. It has the largest value of all lags searched, the last of equal ones,
/// with its neighbours; its runner-up is the largest number more than 64 lags away on
/// either side, and counts if it is above 1e-12.
pub proof fn largest_lag_is_found(r: Seq<Real32>, lo: int, hi: int, found: Option<LagPeak>, t: int)
    requires
        r.len() == 16384,
        -8192 < lo - 1,
        hi + 1 < 8192,
        is_lag_peak(r, lo, hi, found),
        lo <= t <= hi,
    ensures
        found matches Some(p) ==> {
            &&& lo < hi
            &&& lo <= p.best <= hi
            &&& p.peak == value(r, p.best as int)
            &&& p.before == value(r, p.best - 1)
            &&& p.after == value(r, p.best + 1)
            &&& !p.peak.at_most(Real32 { bits: 0 })
            &&& value(r, t).total_rank() <= p.peak.total_rank()
            &&& t > p.best ==> value(r, t).total_rank() < p.peak.total_rank()
            &&& !p.runner.nan()
            &&& (t > p.best + 64 || t < p.best - 64) && !value(r, t).nan() ==> value(r, t).at_most(p.runner)
            &&& p.runner.bits == 0xff7f_ffff || exists|u: int|
                lo <= u <= hi && (u > p.best + 64 || u < p.best - 64) && p.runner == #[trigger] value(r, u)
            &&& p.contested == (Real32 { bits: 0x2b8c_bccc }).below(p.runner)
        },
        found is None ==> lo >= hi || exists|u: int|
            lo <= u <= hi && (#[trigger] value(r, u)).at_most(Real32 { bits: 0 }) && value(r, t).total_rank() <= value(
                r,
                u,
            ).total_rank(),
{
    assert forall|u: int| -8192 < u < 8192 implies #[trigger] at_lag(r, u) == value(r, u) by {
        if u < 0 {
            assert(u % 16384 == u + 16384);
        } else {
            assert(u % 16384 == u);
        }
    }
    match found {
        Some(p) => {
            assert(at_lag(r, t).total_rank() <= at_lag(r, p.best as int).total_rank());
            assert(at_lag(r, p.best - 1) == value(r, p.best - 1));
            assert(at_lag(r, p.best + 1) == value(r, p.best + 1));
            if p.runner.bits != 0xff7f_ffff {
                let u = choose|u: int| lo <= u <= hi && competes(p.best as int, u) && p.runner == #[trigger] at_lag(r, u);
                assert(p.runner == value(r, u));
            }
        },
        None => {
            if lo < hi {
                let u = choose|u: int| #[trigger] is_best_lag(r, lo, hi, u) && at_lag(r, u).at_most(Real32 { bits: 0 });
                assert(at_lag(r, u) == value(r, u));
                assert(at_lag(r, t).total_rank() <= at_lag(r, u).total_rank());
            }
        },
    }
}

/// The confidence in a peak is its ratio to its runner-up, at most 99, and 99 where it has
/// none.
pub proof fn confidence_is_the_ratio<Q: Fn(Real32, Real32) -> Real32>(ratio: Q, p: LagPeak, c: Real32)
    requires
        trusted_by(ratio, p, c),
    ensures
        !p.contested ==> c.bits == 0x42c6_0000,
        p.contested ==> exists|q: Real32| #[trigger]
            call_ensures(ratio, (p.peak, p.runner), q) && (q.below(Real32 { bits: 0x42c6_0000 }) ==> c == q) && (!q.below(
                Real32 { bits: 0x42c6_0000 },
            ) ==> c.bits == 0x42c6_0000),
{
}

/// Every sample is windowed by its own place, and all behind them is zero, up to twice
/// the 8192 that are compared.
pub proof fn samples_are_windowed_and_padded<T, C, W: Fn(T, usize) -> C>(
    window: W,
    zero: C,
    samples: Seq<T>,
    padded: Seq<C>,
    i: int,
)
    requires
        is_padded(window, zero, samples, padded),
        0 <= i < 16384,
    ensures
        padded.len() == 16384,
        i < samples.len() ==> call_ensures(window, (samples[i], i as usize), padded[i]),
        i >= samples.len() ==> padded[i] == zero,
{
}

/// A bin counts where both streams are at least at their floor there and the product is
/// above 1e-12, and then at unit magnitude; elsewhere it is zero. The floor of a stream
/// comes from its largest magnitude.
pub proof fn bins_with_energy_are_whitened<
    C,
    S: Fn(C) -> Real32,
    F: Fn(Real32) -> Real32,
    X: Fn(C, C) -> C,
    U: Fn(C, Real32) -> C,
>(
    size: S,
    floor: F,
    cross: X,
    unit: U,
    zero: C,
    bins: Seq<C>,
    sizes: Seq<Real32>,
    f: Real32,
    a: C,
    b: C,
    quiet: bool,
    w: C,
    i: int,
) -> (max: Real32)
    requires
        sized(size, bins, sizes),
        is_floor(floor, sizes, f),
        whitened_at(size, cross, unit, zero, a, b, quiet, w),
        0 <= i < bins.len(),
    ensures
        call_ensures(size, (bins[i],), sizes[i]),
        call_ensures(floor, (max,), f),
        !sizes[i].nan() ==> sizes[i].at_most(max),
        max.bits == 0 || exists|k: int| 0 <= k < bins.len() && max == #[trigger] sizes[k],
        quiet ==> w == zero,
        !quiet ==> exists|p: C, n: Real32| #[trigger]
            call_ensures(cross, (a, b), p) && #[trigger] call_ensures(size, (p,), n) && ((Real32 {
                bits: 0x2b8c_bccc,
            }).below(n) ==> call_ensures(unit, (p, n), w)) && (!(Real32 { bits: 0x2b8c_bccc }).below(n) ==> w == zero),
{
    choose|max: Real32| #[trigger]
        is_maximum_of(Real32 { bits: 0 }, sizes, sizes.len() as int, max) && call_ensures(floor, (max,), f)
}

/// What is read of a snapshot: sample `j` has the age `age_end + len - 1 - j`, and stands
/// where the local position of that age, carried over by the whole offset, falls in it,
/// counted from the snapshot's own end. Every sample is the blend of the one there and
/// the next; nothing is read exactly if one of them is missing.
pub proof fn samples_are_read_where_they_belong<T, B: Fn(T, T) -> T>(
    blend: B,
    snapshot: Seq<T>,
    snap_total: int,
    mac_total: int,
    whole: int,
    age_end: int,
    len: int,
    r: Option<Seq<T>>,
    j: int,
) -> (missing: int)
    requires
        is_aligned(blend, snapshot, snap_total, mac_total, whole, age_end, len, r),
        0 <= j < len,
    ensures
        ({
            let local = mac_total - 1 - (age_end + len - 1 - j);
            let at = local + whole - (snap_total - snapshot.len());
            r matches Some(v) ==> {
                &&& v.len() == len
                &&& 0 <= at < snapshot.len() - 1
                &&& call_ensures(blend, (snapshot[at], snapshot[at + 1]), v[j])
            }
        }),
        r is None ==> 0 <= missing < len && ({
            let at = mac_total - 1 - (age_end + len - 1 - missing) + whole - (snap_total - snapshot.len());
            at < 0 || at >= snapshot.len() - 1
        }),
{
    let n = snapshot.len() as int;
    let at = read_at(n, snap_total, mac_total, whole, age_end, len, j);
    match r {
        Some(v) => {
            assert(readable(at, snapshot.len()));
            assert(call_ensures(blend, (snapshot[at], snapshot[at + 1]), v[j]));
            0
        },
        None => {
            let k = choose|k: int|
                0 <= k < len && !readable(
                    #[trigger] read_at(n, snap_total, mac_total, whole, age_end, len, k),
                    snapshot.len(),
                );
            k
        },
    }
}

/// What a measurement does to a servo: it is followed, and the count of outliers starts
/// anew, unless it is far from a sure lock; then it is counted, and the fourth in a row is
/// taken as a first one would be.
pub proof fn servo_follows_or_counts(s: &mut Servo, t: Real64, measured: Real64, c: &Correction)
    requires
        old(s).well_formed(),
        call_ensures(Servo::update, (s, t, measured, c), ()),
    ensures
        old(s).last is None ==> final(s).offset == measured && final(s).last == Some(t) && final(s).quality.bits
            == 0x3ecc_cccd && final(s).rate == old(s).rate,
        old(s).last is Some && !(is_sure(*old(s)) && is_far(*c)) ==> {
            &&& final(s).outliers == 0
            &&& final(s).offset == c.offset
            &&& final(s).last == Some(t)
            &&& final(s).quality == c.quality
            &&& final(s).rate == (if c.dt.below(Real64 { bits: 0x4000_0000_0000_0000 }) {
                c.rate
            } else {
                old(s).rate
            })
        },
        is_sure(*old(s)) && is_far(*c) && old(s).outliers < 3 ==> {
            &&& final(s).outliers == old(s).outliers + 1
            &&& final(s).offset == old(s).offset
            &&& final(s).rate == old(s).rate
            &&& final(s).last == old(s).last
            &&& final(s).quality == old(s).quality
        },
        is_sure(*old(s)) && is_far(*c) && old(s).outliers == 3 ==> final(s).offset == measured && final(s).outliers == 0
            && final(s).rate.bits == 0 && final(s).last == Some(t),
{
    measurement_is_followed_or_counted(*old(s), t, measured, *c);
}

/// A miss only lowers the quality; a fresh servo knows nothing; one is locked exactly if
/// it is sure; and its offset is carried on from its last measurement.
pub proof fn servo_keeps_what_it_knows<E: Fn(Real64, Real64, Real64, Real64) -> Real64>(
    s: &mut Servo,
    low: Real32,
    fresh: Servo,
    a: &Servo,
    locked: bool,
    t: Real64,
    extrapolate: &E,
    offset: Option<Real64>,
)
    requires
        call_ensures(Servo::miss, (s, low), ()),
        call_ensures(Servo::new, (), fresh),
        call_ensures(Servo::locked, (a,), locked),
        call_ensures(Servo::offset_at::<E>, (a, t, extrapolate), offset),
    ensures
        final(s).offset == old(s).offset && final(s).rate == old(s).rate && final(s).last == old(s).last
            && final(s).outliers == old(s).outliers && final(s).quality == low,
        fresh.last is None && fresh.outliers == 0 && fresh.offset.bits == 0 && fresh.rate.bits == 0
            && fresh.quality.bits == 0,
        locked == is_sure(*a),
        offset is Some <==> a.last is Some,
        offset matches Some(o) ==> call_ensures(*extrapolate, (a.offset, a.rate, a.last->0, t), o),
{
}

/// A delay is found exactly if there is a peak, at the place its three values give and with
/// its confidence, which is enough from 1.3 on.
pub proof fn delay_is_that_of_the_peak<Q: Fn(Real32, Real32) -> Real32, V: Fn(i64, Real32, Real32, Real32) -> Real32>(
    r: &Vec<Real32>,
    lo: i64,
    hi: i64,
    ratio: Q,
    place: V,
    found: Option<DelayEstimate>,
    c: &Real32,
    sure: bool,
) -> (peak: Option<LagPeak>)
    requires
        call_ensures(find_delay::<Q, V>, (r, lo, hi, ratio, place), found),
        call_ensures(confident, (c,), sure),
    ensures
        is_lag_peak(r@, lo as int, hi as int, peak),
        found is Some <==> peak is Some,
        found matches Some(d) ==> {
            let p = peak->0;
            call_ensures(place, (p.best, p.before, p.peak, p.after), d.lag) && trusted_by(ratio, p, d.confidence)
        },
        sure == (Real32 { bits: 0x3fa6_6666 }).at_most(*c),
{
    choose|peak: Option<LagPeak>| #[trigger]
        is_lag_peak(r@, lo as int, hi as int, peak) && match peak {
            Some(p) => found matches Some(d) && call_ensures(place, (p.best, p.before, p.peak, p.after), d.lag)
                && trusted_by(ratio, p, d.confidence),
            None => found is None,
        }
}

/// A bin of the whitened spectrum is silent exactly where either stream is below its own
/// floor, or their product is too small.
pub proof fn whitening_keeps_real_energy<
    C,
    S: Fn(C) -> Real32,
    F: Fn(Real32) -> Real32,
    X: Fn(C, C) -> C,
    U: Fn(C, Real32) -> C,
>(x: &Vec<C>, y: &Vec<C>, zero: C, size: S, floor: F, cross: X, unit: U, r: Vec<C>, i: int) -> (w: (
    Seq<Real32>,
    Real32,
    Seq<Real32>,
    Real32,
))
    where C: Copy
    requires
        call_ensures(whiten::<C, S, F, X, U>, (x, y, zero, size, floor, cross, unit), r),
        0 <= i < x.len(),
    ensures
        r.len() == x.len(),
        ({
            let (sx, fx, sy, fy) = w;
            &&& sized(size, x@, sx) && is_floor(floor, sx, fx)
            &&& sized(size, y@, sy) && is_floor(floor, sy, fy)
            &&& whitened_at(size, cross, unit, zero, x[i], y[i], sx[i].below(fx) || sy[i].below(fy), r[i])
        }),
{
    let (sx, fx, sy, fy) = choose|sx: Seq<Real32>, fx: Real32, sy: Seq<Real32>, fy: Real32|
        #![trigger sized(size, x@, sx), is_floor(floor, sx, fx), sized(size, y@, sy), is_floor(floor, sy, fy)]
        {
            &&& sized(size, x@, sx)
            &&& is_floor(floor, sx, fx)
            &&& sized(size, y@, sy)
            &&& is_floor(floor, sy, fy)
            &&& forall|i: int|
                0 <= i < x.len() ==> whitened_at(
                    size,
                    cross,
                    unit,
                    zero,
                    x[i],
                    y[i],
                    sx[i].below(fx) || sy[i].below(fy),
                    #[trigger] r[i],
                )
        };
    assert(whitened_at(size, cross, unit, zero, x[i], y[i], sx[i].below(fx) || sy[i].below(fy), r[i]));
    (sx, fx, sy, fy)
}

/// Reading a window gives what belongs there, or nothing.
pub proof fn windows_are_read_aligned<T: Copy, B: Fn(T, T) -> T>(
    snapshot: &Vec<T>,
    snap_total: u64,
    mac_total: u64,
    whole: i64,
    age_end: usize,
    len: usize,
    blend: B,
    r: Option<Vec<T>>,
)
    requires
        call_ensures(read_aligned::<T, B>, (snapshot, snap_total, mac_total, whole, age_end, len, blend), r),
    ensures
        is_aligned(
            blend,
            snapshot@,
            snap_total as int,
            mac_total as int,
            whole as int,
            age_end as int,
            len as int,
            match r {
                Some(v) => Some(v@),
                None => None,
            },
        ),
{
}

} // verus!
