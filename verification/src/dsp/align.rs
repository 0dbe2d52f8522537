//! Cross-stream time alignment for beamforming.
//!
//! Each phone free-runs on its own clock and reaches us through a jittery path,
//! so coherent combination needs continuous alignment, not one-shot calibration:
//!
//! 1. Both the local queue and every phone queue carry an absolute sample
//!    counter. The offset of the same audio in those coordinates is constant up
//!    to clock drift.
//! 2. A cross-correlation measures the offset from live signal. Sustained tones
//!    are periodic, so their correlation is ambiguous; the confidence gate only
//!    accepts transient-rich frames.
//! 3. `Servo` smooths the offset and estimates its rate, extrapolating through
//!    silence.
//! 4. `read_aligned` extracts a phone window at a fractional offset.

use vstd::prelude::*;

use crate::ieee::{Real32, Real64};
use crate::order::{is_maximum_of, maximum_of};

verus! {

/// Samples of each stream compared per measurement.
pub const CORR_LEN: usize = 8192;

/// Length of the correlation: twice the window, so that circular correlation
/// acts linear.
pub const CFFT: usize = 16384;

/// The local reference window is taken this many samples back from "now" so
/// one search range covers phone latencies from about 0 up to 250 ms.
pub const REF_AGE: usize = 4096;

/// Peaks this close to the best lag do not compete with it.
pub const GUARD: i64 = 64;

/// Peak must beat the runner-up by this factor: 1.3, as an IEEE 754 pattern.
/// Rejects the ambiguity of sustained periodic tones.
pub const MIN_CONFIDENCE: u32 = 0x3fa6_6666;

/// Products and runners-up count where they are above this: 1e-12, as an IEEE 754
/// pattern.
pub const RUNNER_FLOOR: u32 = 0x2b8c_bccc;

/// Confidence in a peak without a competitor, and the largest there is: 99, as an
/// IEEE 754 pattern.
pub const SURE: u32 = 0x42c6_0000;

/// The least finite number, as an IEEE 754 pattern.
pub const LEAST: u32 = 0xff7f_ffff;

/// The peak of a correlation.
#[derive(Clone, Copy, Debug)]
pub struct LagPeak {
    /// The lag of the peak.
    pub best: i64,
    /// The correlation one lag before, at, and one lag behind the peak.
    pub before: Real32,
    pub peak: Real32,
    pub after: Real32,
    /// The strongest competing value.
    pub runner: Real32,
    /// Whether there is a competitor at all.
    pub contested: bool,
}

/// The correlation at a lag: negative lags stand at the end.
pub open spec fn at_lag(r: Seq<Real32>, lag: int) -> Real32 {
    r[lag % CFFT as int]
}

/// `best` has the largest value among the lags `lo..=hi` in total order, the last
/// of several.
pub open spec fn is_best_lag(r: Seq<Real32>, lo: int, hi: int, best: int) -> bool {
    &&& lo <= best <= hi
    &&& forall|t: int|
        lo <= t <= hi ==> {
            &&& (#[trigger] at_lag(r, t)).total_rank() <= at_lag(r, best).total_rank()
            &&& t > best ==> at_lag(r, t).total_rank() < at_lag(r, best).total_rank()
        }
}

/// Lag `t` is far enough from `best` to compete with it.
pub open spec fn competes(best: int, t: int) -> bool {
    t - best > GUARD || best - t > GUARD
}

/// `runner` is the largest number among the competitors in `lo..=hi`, or the least
/// number of all where none is larger.
pub open spec fn is_runner(r: Seq<Real32>, lo: int, hi: int, best: int, runner: Real32) -> bool {
    &&& !runner.nan()
    &&& runner == (Real32 { bits: LEAST }) || exists|t: int|
        lo <= t <= hi && competes(best, t) && runner == #[trigger] at_lag(r, t)
    &&& (Real32 { bits: LEAST }).at_most(runner)
    &&& forall|t: int|
        lo <= t <= hi && competes(best, t) && !(#[trigger] at_lag(r, t)).nan() ==> at_lag(r, t).at_most(runner)
}

/// The best lag is determined by the correlation.
pub proof fn best_lag_is_unique(r: Seq<Real32>, lo: int, hi: int, a: int, b: int)
    requires
        is_best_lag(r, lo, hi, a),
        is_best_lag(r, lo, hi, b),
    ensures
        a == b,
{
    assert(at_lag(r, a).total_rank() <= at_lag(r, b).total_rank());
    assert(at_lag(r, b).total_rank() <= at_lag(r, a).total_rank());
}

/// The correlation at a lag.
fn value_at(r: &Vec<Real32>, lag: i64) -> (v: Real32)
    requires
        r.len() == CFFT,
        -CFFT < lag < CFFT,
    ensures
        v == at_lag(r@, lag as int),
{
    if lag < 0 {
        r[(lag + CFFT as i64) as usize]
    } else {
        r[lag as usize]
    }
}

/// `found` is the peak of a correlation among the lags `lo..=hi`, if it is positive,
/// with its strongest competitor.
pub open spec fn is_lag_peak(r: Seq<Real32>, lo: int, hi: int, found: Option<LagPeak>) -> bool {
    match found {
        Some(p) => {
            &&& lo < hi
            &&& is_best_lag(r, lo, hi, p.best as int)
            &&& p.peak == at_lag(r, p.best as int)
            &&& !p.peak.at_most(Real32 { bits: 0 })
            &&& p.before == at_lag(r, p.best - 1)
            &&& p.after == at_lag(r, p.best + 1)
            &&& is_runner(r, lo, hi, p.best as int, p.runner)
            &&& p.contested == (Real32 { bits: RUNNER_FLOOR }).below(p.runner)
        },
        None => lo >= hi || exists|best: int| #[trigger]
            is_best_lag(r, lo, hi, best) && at_lag(r, best).at_most(Real32 { bits: 0 }),
    }
}

/// Finds where one stream lags the other: the peak of their correlation `r` among
/// the lags `lo..=hi`, if it is positive, and its strongest competitor.
pub fn find_peak(r: &Vec<Real32>, lo: i64, hi: i64) -> (found: Option<LagPeak>)
    requires
        r.len() == CFFT,
        -CORR_LEN + 2 <= lo,
        hi <= CORR_LEN - 2,
    ensures
        is_lag_peak(r@, lo as int, hi as int, found),
{
    if lo >= hi {
        return None;
    }
    let mut best: i64 = lo;
    let mut t: i64 = lo + 1;
    while t <= hi
        invariant
            r.len() == CFFT,
            -CORR_LEN + 2 <= lo < hi <= CORR_LEN - 2,
            lo < t <= hi + 1,
            is_best_lag(r@, lo as int, t - 1, best as int),
        decreases hi + 1 - t,
    {
        if value_at(r, best).order_rank() <= value_at(r, t).order_rank() {
            best = t;
        }
        t = t + 1;
    }
    let peak: Real32 = value_at(r, best);
    if peak.less_or_equal(&Real32::from_bits(0)) {
        assert(is_best_lag(r@, lo as int, hi as int, best as int));
        return None;
    }
    let mut runner: Real32 = Real32::from_bits(LEAST);
    t = lo;
    while t <= hi
        invariant
            r.len() == CFFT,
            -CORR_LEN + 2 <= lo < hi <= CORR_LEN - 2,
            lo <= t <= hi + 1,
            lo <= best <= hi,
            is_runner(r@, lo as int, t - 1, best as int, runner),
        decreases hi + 1 - t,
    {
        if t - best > GUARD || best - t > GUARD {
            let v: Real32 = value_at(r, t);
            if runner.less(&v) {
                runner = v;
            }
        }
        t = t + 1;
    }
    Some(
        LagPeak {
            best,
            before: value_at(r, best - 1),
            peak,
            after: value_at(r, best + 1),
            runner,
            contested: Real32::from_bits(RUNNER_FLOOR).less(&runner),
        },
    )
}

/// Where one stream lags the other.
#[derive(Clone, Copy, Debug)]
pub struct DelayEstimate {
    /// Lag of the delayed stream behind the reference window, in samples.
    pub lag: Real32,
    /// Peak height over the strongest competing peak.
    pub confidence: Real32,
}

/// `c` is the confidence in a peak: how far it exceeds its competitor, where there is
/// one, but no more than `SURE`.
pub open spec fn trusted_by<Q: Fn(Real32, Real32) -> Real32>(ratio: Q, p: LagPeak, c: Real32) -> bool {
    if p.contested {
        exists|q: Real32| #[trigger]
            call_ensures(ratio, (p.peak, p.runner), q) && c == if q.below(Real32 { bits: SURE }) {
                q
            } else {
                Real32 { bits: SURE }
            }
    } else {
        c == (Real32 { bits: SURE })
    }
}

/// Finds where one stream lags the other, searching their correlation `r` among the
/// lags `lo..=hi`. `ratio` relates a peak to its competitor, and `place` gives the
/// exact lag of a peak from its value and those beside it.
pub fn find_delay<Q: Fn(Real32, Real32) -> Real32, V: Fn(i64, Real32, Real32, Real32) -> Real32>(
    r: &Vec<Real32>,
    lo: i64,
    hi: i64,
    ratio: Q,
    place: V,
) -> (found: Option<DelayEstimate>)
    requires
        r.len() == CFFT,
        -CORR_LEN + 2 <= lo,
        hi <= CORR_LEN - 2,
        forall|a: Real32, b: Real32| call_requires(ratio, (a, b)),
        forall|t: i64, a: Real32, b: Real32, c: Real32| call_requires(place, (t, a, b, c)),
    ensures
        exists|peak: Option<LagPeak>| #[trigger]
            is_lag_peak(r@, lo as int, hi as int, peak) && match peak {
                Some(p) => found matches Some(d) && call_ensures(place, (p.best, p.before, p.peak, p.after), d.lag)
                    && trusted_by(ratio, p, d.confidence),
                None => found is None,
            },
{
    let peak: Option<LagPeak> = find_peak(r, lo, hi);
    assert(is_lag_peak(r@, lo as int, hi as int, peak));
    match peak {
        Some(p) => {
            let sure: Real32 = Real32::from_bits(SURE);
            let confidence: Real32 = if p.contested {
                let q: Real32 = ratio(p.peak, p.runner);
                if q.less(&sure) {
                    q
                } else {
                    sure
                }
            } else {
                sure
            };
            let lag: Real32 = place(p.best, p.before, p.peak, p.after);
            assert(trusted_by(ratio, p, confidence));
            Some(DelayEstimate { lag, confidence })
        },
        None => None,
    }
}

/// `padded` holds the windowed samples, and behind them as many zeros as the
/// correlation needs.
pub open spec fn is_padded<T, C, W: Fn(T, usize) -> C>(window: W, zero: C, samples: Seq<T>, padded: Seq<C>) -> bool {
    &&& padded.len() == CFFT
    &&& forall|i: int|
        0 <= i < samples.len() ==> call_ensures(window, (samples[i], i as usize), #[trigger] padded[i])
    &&& forall|i: int| samples.len() <= i < CFFT ==> (#[trigger] padded[i]) == zero
}

/// Windows the samples of a stream and pads them for the correlation.
pub fn pad<T: Copy, C: Copy, W: Fn(T, usize) -> C>(samples: &Vec<T>, zero: C, window: W) -> (padded: Vec<C>)
    requires
        samples.len() <= CFFT,
        forall|s: T, i: usize| call_requires(window, (s, i)),
    ensures
        is_padded(window, zero, samples@, padded@),
{
    let mut padded: Vec<C> = Vec::new();
    let mut i: usize = 0;
    while i < CFFT
        invariant
            i <= CFFT,
            samples.len() <= CFFT,
            padded.len() == i,
            forall|s: T, k: usize| call_requires(window, (s, k)),
            forall|k: int|
                0 <= k < i && k < samples.len() ==> call_ensures(window, (samples[k], k as usize), #[trigger] padded[k]),
            forall|k: int| samples.len() <= k < i ==> (#[trigger] padded[k]) == zero,
        decreases CFFT - i,
    {
        let c: C = if i < samples.len() {
            window(samples[i], i)
        } else {
            zero
        };
        padded.push(c);
        i = i + 1;
    }
    padded
}

/// `sizes` holds the magnitudes of some bins.
pub open spec fn sized<C, S: Fn(C) -> Real32>(size: S, bins: Seq<C>, sizes: Seq<Real32>) -> bool {
    &&& sizes.len() == bins.len()
    &&& forall|i: int| 0 <= i < bins.len() ==> call_ensures(size, (bins[i],), #[trigger] sizes[i])
}

/// `f` is the floor of the real energy of a stream whose magnitudes are `sizes`.
pub open spec fn is_floor<F: Fn(Real32) -> Real32>(floor: F, sizes: Seq<Real32>, f: Real32) -> bool {
    exists|max: Real32| #[trigger]
        is_maximum_of(Real32 { bits: 0 }, sizes, sizes.len() as int, max) && call_ensures(floor, (max,), f)
}

/// `w` is what two bins add to the whitened spectrum: nothing where either is quiet, or
/// where their product is too small, else that product at unit magnitude.
pub open spec fn whitened_at<C, S: Fn(C) -> Real32, X: Fn(C, C) -> C, U: Fn(C, Real32) -> C>(
    size: S,
    cross: X,
    unit: U,
    zero: C,
    a: C,
    b: C,
    quiet: bool,
    w: C,
) -> bool {
    if quiet {
        w == zero
    } else {
        exists|p: C, n: Real32| #[trigger]
            call_ensures(cross, (a, b), p) && #[trigger] call_ensures(size, (p,), n) && if (Real32 {
                bits: RUNNER_FLOOR,
            }).below(n) {
                call_ensures(unit, (p, n), w)
            } else {
                w == zero
            }
    }
}

/// Measures the magnitudes of some bins and their floor.
fn measure<C: Copy, S: Fn(C) -> Real32, F: Fn(Real32) -> Real32>(size: &S, floor: &F, bins: &Vec<C>) -> (r: (
    Vec<Real32>,
    Real32,
))
    requires
        forall|c: C| call_requires(*size, (c,)),
        forall|m: Real32| call_requires(*floor, (m,)),
    ensures
        sized(*size, bins@, r.0@),
        is_floor(*floor, r.0@, r.1),
{
    let mut sizes: Vec<Real32> = Vec::new();
    let mut i: usize = 0;
    while i < bins.len()
        invariant
            i <= bins.len(),
            sizes.len() == i,
            forall|c: C| call_requires(*size, (c,)),
            forall|k: int| 0 <= k < i ==> call_ensures(*size, (bins[k],), #[trigger] sizes[k]),
        decreases bins.len() - i,
    {
        let n: Real32 = size(bins[i]);
        sizes.push(n);
        i = i + 1;
    }
    let max: Real32 = maximum_of(Real32::from_bits(0), &sizes);
    let f: Real32 = floor(max);
    assert(is_floor(*floor, sizes@, f));
    (sizes, f)
}

/// The whitened cross-spectrum of two streams, restricted to bins where both carry
/// real energy: whitening empty bins would flood the correlation with random phase
/// noise. `size` gives the magnitude of a bin, `floor` the least real magnitude of a
/// stream from its largest, `cross` the product of two bins, and `unit` brings a bin
/// of a magnitude to unit magnitude.
pub fn whiten<C: Copy, S: Fn(C) -> Real32, F: Fn(Real32) -> Real32, X: Fn(C, C) -> C, U: Fn(C, Real32) -> C>(
    x: &Vec<C>,
    y: &Vec<C>,
    zero: C,
    size: S,
    floor: F,
    cross: X,
    unit: U,
) -> (r: Vec<C>)
    requires
        x.len() == y.len(),
        forall|c: C| call_requires(size, (c,)),
        forall|m: Real32| call_requires(floor, (m,)),
        forall|a: C, b: C| call_requires(cross, (a, b)),
        forall|a: C, n: Real32| call_requires(unit, (a, n)),
    ensures
        r.len() == x.len(),
        exists|sx: Seq<Real32>, fx: Real32, sy: Seq<Real32>, fy: Real32|
            #![trigger sized(size, x@, sx), is_floor(floor, sx, fx), sized(size, y@, sy), is_floor(floor, sy, fy)]
            {
                &&& sized(size, x@, sx)
                &&& is_floor(floor, sx, fx)
                &&& sized(size, y@, sy)
                &&& is_floor(floor, sy, fy)
                &&& forall|i: int|
                    0 <= i < x.len() ==> whitened_at(
                        size,
                        cross,
                        unit,
                        zero,
                        x[i],
                        y[i],
                        sx[i].below(fx) || sy[i].below(fy),
                        #[trigger] r[i],
                    )
            },
{
    let (sx, fx) = measure(&size, &floor, x);
    let (sy, fy) = measure(&size, &floor, y);
    let least: Real32 = Real32::from_bits(RUNNER_FLOOR);
    let mut r: Vec<C> = Vec::new();
    let mut i: usize = 0;
    while i < x.len()
        invariant
            i <= x.len() == y.len(),
            sx.len() == x.len(),
            sy.len() == x.len(),
            least == (Real32 { bits: RUNNER_FLOOR }),
            r.len() == i,
            forall|c: C| call_requires(size, (c,)),
            forall|a: C, b: C| call_requires(cross, (a, b)),
            forall|a: C, n: Real32| call_requires(unit, (a, n)),
            forall|k: int|
                0 <= k < i ==> whitened_at(
                    size,
                    cross,
                    unit,
                    zero,
                    x[k],
                    y[k],
                    sx[k].below(fx) || sy[k].below(fy),
                    #[trigger] r[k],
                ),
        decreases x.len() - i,
    {
        let w: C = if sx[i].less(&fx) || sy[i].less(&fy) {
            zero
        } else {
            let p: C = cross(x[i], y[i]);
            let n: Real32 = size(p);
            assert(call_ensures(cross, (x@[i as int], y@[i as int]), p) && call_ensures(size, (p,), n));
            if least.less(&n) {
                unit(p, n)
            } else {
                zero
            }
        };
        assert(whitened_at(
            size,
            cross,
            unit,
            zero,
            x@[i as int],
            y@[i as int],
            sx@[i as int].below(fx) || sy@[i as int].below(fy),
            w,
        ));
        r.push(w);
        i = i + 1;
    }
    proof {
        assert(sized(size, x@, sx@) && is_floor(floor, sx@, fx) && sized(size, y@, sy@) && is_floor(floor, sy@, fy));
    }
    r
}

/// Whether a measurement is trusted.
pub fn confident(confidence: &Real32) -> (r: bool)
    ensures
        r == (Real32 { bits: MIN_CONFIDENCE }).at_most(*confidence),
{
    Real32::from_bits(MIN_CONFIDENCE).less_or_equal(confidence)
}

/// Quality from which a servo counts as locked: 0.3, as an IEEE 754 pattern.
pub const LOCK_QUALITY: u32 = 0x3e99_999a;

/// Quality of a first measurement: 0.4, as an IEEE 754 pattern.
pub const FIRST_QUALITY: u32 = 0x3ecc_cccd;

/// Prediction error beyond this is treated as a false peak unless it persists:
/// 400 samples, as an IEEE 754 pattern.
pub const OUTLIER_SAMPLES: u64 = 0x4079_0000_0000_0000;

/// The rate only learns from measurements closer than this: 2 seconds, as an
/// IEEE 754 pattern.
pub const RATE_GAP: u64 = 0x4000_0000_0000_0000;

/// This many outliers in a row show that the lock was the false peak.
pub const MAX_OUTLIERS: u32 = 4;

/// Tracker on the absolute offset of one phone: smooths the measurements and
/// learns the relative clock drift so the offset can be extrapolated through
/// silence.
#[derive(Clone, Copy, Debug)]
pub struct Servo {
    /// Offset of the phone from the local position, in samples, at `last`.
    pub offset: Real64,
    /// Relative clock drift, samples per second.
    pub rate: Real64,
    pub last: Option<Real64>,
    pub quality: Real32,
    pub outliers: u32,
}

/// What the arithmetic gives for one measurement.
#[derive(Clone, Copy, Debug)]
pub struct Correction {
    /// Seconds since the last measurement.
    pub dt: Real64,
    /// Measured minus predicted offset.
    pub error: Real64,
    /// The smoothed offset, the learnt rate and the raised quality, should the
    /// measurement be taken.
    pub offset: Real64,
    pub rate: Real64,
    pub quality: Real32,
}

impl Servo {
    /// A servo that has seen nothing.
    pub open spec fn fresh() -> Servo {
        Servo {
            offset: Real64 { bits: 0 },
            rate: Real64 { bits: 0 },
            last: None,
            quality: Real32 { bits: 0 },
            outliers: 0,
        }
    }

    /// The outliers in a row are counted only up to the limit.
    pub open spec fn well_formed(self) -> bool {
        self.outliers < MAX_OUTLIERS
    }

    /// The offset is known and trusted.
    pub open spec fn is_locked(self) -> bool {
        self.last is Some && (Real32 { bits: LOCK_QUALITY }).at_most(self.quality)
    }

    /// The measurement contradicts the lock.
    pub open spec fn is_outlier(self, c: Correction) -> bool {
        self.is_locked() && (Real64 { bits: OUTLIER_SAMPLES }).below(c.error.unsigned())
    }

    /// The servo after a measurement at time `t`.
    pub open spec fn after(self, t: Real64, measured: Real64, c: Correction) -> Servo {
        if self.last is None {
            Servo { offset: measured, last: Some(t), quality: Real32 { bits: FIRST_QUALITY }, ..self }
        } else if self.is_outlier(c) {
            if self.outliers + 1 >= MAX_OUTLIERS {
                // The "outlier" is consistent: our lock was the false peak.
                Servo { offset: measured, last: Some(t), quality: Real32 { bits: FIRST_QUALITY }, ..Servo::fresh() }
            } else {
                Servo { outliers: (self.outliers + 1) as u32, ..self }
            }
        } else {
            Servo {
                offset: c.offset,
                // Across a long gap the offset says little about drift.
                rate: if c.dt.below(Real64 { bits: RATE_GAP }) {
                    c.rate
                } else {
                    self.rate
                },
                last: Some(t),
                quality: c.quality,
                outliers: 0,
            }
        }
    }

    /// A servo that has seen nothing.
    pub fn new() -> (r: Servo)
        ensures
            r == Servo::fresh(),
            r.well_formed(),
            !r.is_locked(),
    {
        Servo {
            offset: Real64::from_bits(0),
            rate: Real64::from_bits(0),
            last: None,
            quality: Real32::from_bits(0),
            outliers: 0,
        }
    }

    /// Whether the offset is known and trusted.
    pub fn locked(&self) -> (r: bool)
        ensures
            r == self.is_locked(),
    {
        self.last.is_some() && Real32::from_bits(LOCK_QUALITY).less_or_equal(&self.quality)
    }

    /// The best offset estimate at a time, once there was a measurement. `extrapolate`
    /// carries the offset on at its rate from the time of the last measurement.
    pub fn offset_at<E: Fn(Real64, Real64, Real64, Real64) -> Real64>(&self, t: Real64, extrapolate: &E) -> (r: Option<
        Real64,
    >)
        requires
            forall|o: Real64, v: Real64, t0: Real64, t1: Real64| call_requires(*extrapolate, (o, v, t0, t1)),
        ensures
            match self.last {
                Some(t0) => r matches Some(o) && call_ensures(*extrapolate, (self.offset, self.rate, t0, t), o),
                None => r is None,
            },
    {
        match self.last {
            Some(t0) => Some(extrapolate(self.offset, self.rate, t0, t)),
            None => None,
        }
    }

    /// Takes in a measurement. Of `correction` nothing counts at the first one.
    pub fn update(&mut self, t: Real64, measured: Real64, correction: &Correction)
        requires
            old(self).well_formed(),
        ensures
            final(self).well_formed(),
            *final(self) == old(self).after(t, measured, *correction),
    {
        if self.last.is_none() {
            self.offset = measured;
            self.last = Some(t);
            self.quality = Real32::from_bits(FIRST_QUALITY);
            return;
        }
        if Real64::from_bits(OUTLIER_SAMPLES).less(&correction.error.abs()) && self.locked() {
            self.outliers = self.outliers + 1;
            if self.outliers >= MAX_OUTLIERS {
                let mut relocked: Servo = Servo::new();
                relocked.offset = measured;
                relocked.last = Some(t);
                relocked.quality = Real32::from_bits(FIRST_QUALITY);
                *self = relocked;
            }
            return;
        }
        self.outliers = 0;
        self.offset = correction.offset;
        if correction.dt.less(&Real64::from_bits(RATE_GAP)) {
            self.rate = correction.rate;
        }
        self.last = Some(t);
        self.quality = correction.quality;
    }

    /// No usable measurement this frame: only the quality changes, to the lowered
    /// value that the caller computes from it.
    pub fn miss(&mut self, lowered: Real32)
        requires
            old(self).well_formed(),
        ensures
            final(self).well_formed(),
            *final(self) == (Servo { quality: lowered, ..*old(self) }),
    {
        self.quality = lowered;
    }
}

impl Default for Servo {
    fn default() -> (r: Servo)
        ensures
            r == Servo::fresh(),
    {
        Servo::new()
    }
}

/// A first measurement locks the servo onto it.
pub proof fn first_measurement_locks(s: Servo, t: Real64, measured: Real64, c: Correction)
    requires
        s.last is None,
    ensures
        s.after(t, measured, c).is_locked(),
        s.after(t, measured, c).offset == measured,
{
}

/// False peaks do not move a lock unless they persist: fewer than `MAX_OUTLIERS`
/// in a row leave offset, rate, time and quality as they were.
pub proof fn isolated_outliers_do_not_move_the_lock(
    s: Servo,
    ts: Seq<Real64>,
    measured: Seq<Real64>,
    cs: Seq<Correction>,
    n: int,
)
    requires
        s.is_locked(),
        s.outliers == 0,
        0 <= n < MAX_OUTLIERS,
        ts.len() >= n,
        measured.len() >= n,
        cs.len() >= n,
        forall|i: int| 0 <= i < n ==> (Real64 { bits: OUTLIER_SAMPLES }).below((#[trigger] cs[i]).error.unsigned()),
    ensures
        run(s, ts, measured, cs, n) == (Servo { outliers: n as u32, ..s }),
    decreases n,
{
    if n > 0 {
        isolated_outliers_do_not_move_the_lock(s, ts, measured, cs, n - 1);
        let before = run(s, ts, measured, cs, n - 1);
        assert(before.is_outlier(cs[n - 1]));
    }
}

/// The servo after the first `n` measurements.
pub open spec fn run(s: Servo, ts: Seq<Real64>, measured: Seq<Real64>, cs: Seq<Correction>, n: int) -> Servo
    decreases n,
{
    if n <= 0 {
        s
    } else {
        run(s, ts, measured, cs, n - 1).after(ts[n - 1], measured[n - 1], cs[n - 1])
    }
}

/// False peaks that persist were the true ones: after `MAX_OUTLIERS` in a row the
/// servo is locked onto the last of them.
pub proof fn persistent_outliers_take_the_lock(
    s: Servo,
    ts: Seq<Real64>,
    measured: Seq<Real64>,
    cs: Seq<Correction>,
)
    requires
        s.is_locked(),
        s.outliers == 0,
        ts.len() >= MAX_OUTLIERS,
        measured.len() >= MAX_OUTLIERS,
        cs.len() >= MAX_OUTLIERS,
        forall|i: int|
            0 <= i < MAX_OUTLIERS ==> (Real64 { bits: OUTLIER_SAMPLES }).below((#[trigger] cs[i]).error.unsigned()),
    ensures
        ({
            let after = run(s, ts, measured, cs, MAX_OUTLIERS as int);
            &&& after.is_locked()
            &&& after.offset == measured[MAX_OUTLIERS - 1]
            &&& after.rate == (Real64 { bits: 0 })
            &&& after.outliers == 0
        }),
{
    isolated_outliers_do_not_move_the_lock(s, ts, measured, cs, MAX_OUTLIERS - 1);
    let before = run(s, ts, measured, cs, MAX_OUTLIERS - 1);
    assert(before.is_outlier(cs[MAX_OUTLIERS - 1]));
}

/// A position between whose sample and the next a value can be interpolated.
pub open spec fn readable(at: int, len: nat) -> bool {
    0 <= at && at + 1 < len
}

/// Where the audio of age `age` stands in a snapshot of `n` samples. It has the position
/// `mac_total - 1 - age` in the local stream, by the whole samples of the offset more in
/// the phone's, and the snapshot ends at `snap_total` there.
pub open spec fn aligned_at(n: int, snap_total: int, mac_total: int, whole: int, age: int) -> int {
    mac_total - 1 - age + whole - snap_total + n
}

/// The position in the snapshot of sample `j` of the `len` samples that end `age_end`
/// samples before the local end.
pub open spec fn read_at(
    n: int,
    snap_total: int,
    mac_total: int,
    whole: int,
    age_end: int,
    len: int,
    j: int,
) -> int {
    aligned_at(n, snap_total, mac_total, whole, age_end + len - 1 - j)
}

/// `r` holds the phone samples aligned with the local ones, unless some of them lie
/// outside the snapshot.
pub open spec fn is_aligned<T, B: Fn(T, T) -> T>(
    blend: B,
    snapshot: Seq<T>,
    snap_total: int,
    mac_total: int,
    whole: int,
    age_end: int,
    len: int,
    r: Option<Seq<T>>,
) -> bool {
    let n = snapshot.len() as int;
    match r {
        Some(v) => {
            &&& v.len() == len
            &&& forall|j: int|
                0 <= j < len ==> readable(
                    #[trigger] read_at(n, snap_total, mac_total, whole, age_end, len, j),
                    snapshot.len(),
                )
            &&& forall|j: int|
                0 <= j < len ==> {
                    let i = read_at(n, snap_total, mac_total, whole, age_end, len, j);
                    call_ensures(blend, (snapshot[i], snapshot[i + 1]), #[trigger] v[j])
                }
        },
        None => exists|j: int|
            0 <= j < len && !readable(
                #[trigger] read_at(n, snap_total, mac_total, whole, age_end, len, j),
                snapshot.len(),
            ),
    }
}

/// Only the difference of the two counters matters: counting from another moment on
/// changes nothing of what is read.
pub proof fn counters_matter_by_their_difference<T, B: Fn(T, T) -> T>(
    blend: B,
    snapshot: Seq<T>,
    snap_total: int,
    mac_total: int,
    d: int,
    whole: int,
    age_end: int,
    len: int,
    r: Option<Seq<T>>,
)
    requires
        is_aligned(blend, snapshot, snap_total, mac_total, whole, age_end, len, r),
    ensures
        is_aligned(blend, snapshot, snap_total + d, mac_total + d, whole, age_end, len, r),
{
    let n = snapshot.len() as int;
    assert forall|j: int|
        #[trigger] read_at(n, snap_total + d, mac_total + d, whole, age_end, len, j) == read_at(
            n,
            snap_total,
            mac_total,
            whole,
            age_end,
            len,
            j,
        ) by {}
    if r is None {
        let j = choose|j: int|
            0 <= j < len && !readable(
                #[trigger] read_at(n, snap_total, mac_total, whole, age_end, len, j),
                snapshot.len(),
            );
        assert(!readable(read_at(n, snap_total + d, mac_total + d, whole, age_end, len, j), snapshot.len()));
    }
}

/// Reads `len` phone samples aligned with the local window that ends `age_end` samples
/// before the local end, oldest first. `whole` counts the whole samples of the offset,
/// and `blend` interpolates two neighbouring samples by what is left of it. `None` if
/// the required audio is outside the snapshot.
pub fn read_aligned<T: Copy, B: Fn(T, T) -> T>(
    snapshot: &Vec<T>,
    snap_total: u64,
    mac_total: u64,
    whole: i64,
    age_end: usize,
    len: usize,
    blend: B,
) -> (r: Option<Vec<T>>)
    requires
        forall|a: T, b: T| call_requires(blend, (a, b)),
    ensures
        is_aligned(
            blend,
            snapshot@,
            snap_total as int,
            mac_total as int,
            whole as int,
            age_end as int,
            len as int,
            match r {
                Some(v) => Some(v@),
                None => None,
            },
        ),
{
    let n: i128 = snapshot.len() as i128;
    let first: i128 = mac_total as i128 + whole as i128 - snap_total as i128 + n - age_end as i128 - len as i128;
    let mut v: Vec<T> = Vec::new();
    let mut j: usize = 0;
    while j < len
        invariant
            j <= len,
            n == snapshot.len(),
            -0x1_0000_0000_0000_0000_0000 < first < 0x1_0000_0000_0000_0000_0000,
            first == mac_total + whole - snap_total + n - age_end - len,
            v.len() == j,
            forall|a: T, b: T| call_requires(blend, (a, b)),
            forall|k: int|
                0 <= k < j ==> readable(
                    #[trigger] read_at(
                        n as int,
                        snap_total as int,
                        mac_total as int,
                        whole as int,
                        age_end as int,
                        len as int,
                        k,
                    ),
                    snapshot.len() as nat,
                ),
            forall|k: int|
                0 <= k < j ==> {
                    let i = read_at(
                        n as int,
                        snap_total as int,
                        mac_total as int,
                        whole as int,
                        age_end as int,
                        len as int,
                        k,
                    );
                    call_ensures(blend, (snapshot[i], snapshot[i + 1]), #[trigger] v[k])
                },
        decreases len - j,
    {
        let i: i128 = first + j as i128;
        assert(i == read_at(
            n as int,
            snap_total as int,
            mac_total as int,
            whole as int,
            age_end as int,
            len as int,
            j as int,
        ));
        if i < 0 || i + 1 >= n {
            return None;
        }
        let sample: T = blend(snapshot[i as usize], snapshot[i as usize + 1]);
        v.push(sample);
        j = j + 1;
    }
    Some(v)
}

} // verus!
