//! The harmonic series of a pitch in the spectrum: how much energy it holds, and
//! what pitch its peaks agree on. The arithmetic is the caller's, handed in as
//! functions.

use vstd::prelude::*;

use crate::ieee::Real32;
use crate::order::{is_maximum_of, maximum_of};
use crate::ring::section;

verus! {

/// Harmonics by which a pitch is scored.
pub const SCORED: usize = 6;

/// Harmonics by which a pitch is refined.
pub const REFINED: usize = 5;

/// A harmonic this close to the candidate's is its own: 30 cents, as an IEEE 754
/// pattern.
pub const HARMONIC_CENTS: u32 = 0x41f0_0000;

/// Least magnitude of a harmonic that counts: 1e-7, as an IEEE 754 pattern.
pub const HARMONIC_FLOOR: u32 = 0x33d6_bf95;

/// What a harmonic of the pitch shows in the spectrum.
#[derive(Clone, Copy, Debug, PartialEq, Eq, Structural)]
pub enum Harmonic {
    /// It lies beyond the spectrum, and so do all higher ones.
    Beyond,
    /// There is no genuine peak near it.
    Absent,
    /// It peaks in this bin.
    Peak(usize),
}

/// The bins from `lo` to `hi` that the spectrum has.
pub open spec fn near(mags: Seq<Real32>, lo: int, hi: int) -> Seq<Real32> {
    let end = if hi < mags.len() {
        hi + 1
    } else {
        mags.len() as int
    };
    if lo < end {
        mags.subrange(lo, end)
    } else {
        Seq::empty()
    }
}

/// The largest magnitude among the bins from `lo` to `hi` that the spectrum has, or
/// zero.
pub fn mag_near(mags: &Vec<Real32>, lo: usize, hi: usize) -> (m: Real32)
    ensures
        is_maximum_of(
            Real32 { bits: 0 },
            near(mags@, lo as int, hi as int),
            near(mags@, lo as int, hi as int).len() as int,
            m,
        ),
{
    let end: usize = if hi < mags.len() { hi + 1 } else { mags.len() };
    let bins: Vec<Real32> = if lo < end {
        section(mags, lo, end - lo)
    } else {
        Vec::new()
    };
    assert(bins@ =~= near(mags@, lo as int, hi as int));
    maximum_of(Real32::from_bits(0), &bins)
}

/// What harmonic `k` adds to the score: its magnitude's share, or zero where `band`
/// places it beyond the limit.
pub open spec fn contributed<B: Fn(usize) -> Option<(usize, usize)>, S: Fn(Real32, usize) -> Real32>(
    mags: Seq<Real32>,
    band: B,
    share: S,
    k: usize,
    v: Real32,
) -> bool {
    exists|b: Option<(usize, usize)>| #[trigger]
        call_ensures(band, (k,), b) && match b {
            Some((lo, hi)) => exists|m: Real32| #[trigger]
                call_ensures(share, (m, k), v) && is_maximum_of(
                    Real32 { bits: 0 },
                    near(mags, lo as int, hi as int),
                    near(mags, lo as int, hi as int).len() as int,
                    m,
                ),
            None => v == (Real32 { bits: 0 }),
        }
}

/// `total` is the sum, from zero on, of what the first `n` harmonics add.
pub open spec fn series<
    B: Fn(usize) -> Option<(usize, usize)>,
    S: Fn(Real32, usize) -> Real32,
    P: Fn(Real32, Real32) -> Real32,
>(mags: Seq<Real32>, band: B, share: S, plus: P, n: nat, total: Real32) -> bool
    decreases n,
{
    if n == 0 {
        total == (Real32 { bits: 0 })
    } else {
        exists|before: Real32, v: Real32|
            series(mags, band, share, plus, (n - 1) as nat, before) && contributed(mags, band, share, n as usize, v)
                && #[trigger] call_ensures(plus, (before, v), total)
    }
}

/// The energy of a harmonic series. `band` gives the bins around a harmonic, unless
/// it lies beyond the limit; `share` weighs a magnitude by the harmonic's number, so
/// that a true fundamental beats its own subharmonic.
pub fn harmonic_score<
    B: Fn(usize) -> Option<(usize, usize)>,
    S: Fn(Real32, usize) -> Real32,
    P: Fn(Real32, Real32) -> Real32,
>(mags: &Vec<Real32>, band: B, share: S, plus: P) -> (total: Real32)
    requires
        forall|k: usize| call_requires(band, (k,)),
        forall|m: Real32, k: usize| call_requires(share, (m, k)),
        forall|a: Real32, b: Real32| call_requires(plus, (a, b)),
    ensures
        series(mags@, band, share, plus, SCORED as nat, total),
{
    let mut total: Real32 = Real32::from_bits(0);
    let mut n: usize = 0;
    while n < SCORED
        invariant
            n <= SCORED,
            forall|k: usize| call_requires(band, (k,)),
            forall|m: Real32, k: usize| call_requires(share, (m, k)),
            forall|a: Real32, b: Real32| call_requires(plus, (a, b)),
            series(mags@, band, share, plus, n as nat, total),
        decreases SCORED - n,
    {
        let k: usize = n + 1;
        let b: Option<(usize, usize)> = band(k);
        let v: Real32 = match b {
            Some((lo, hi)) => {
                let m: Real32 = mag_near(mags, lo, hi);
                share(m, k)
            },
            None => Real32::from_bits(0),
        };
        assert(contributed(mags@, band, share, k, v));
        let ghost before = total;
        total = plus(total, v);
        proof {
            let next = k as nat;
            assert(series(mags@, band, share, plus, (next - 1) as nat, before));
            assert(contributed(mags@, band, share, next as usize, v));
            assert(call_ensures(plus, (before, v), total));
        }
        n = k;
    }
    total
}

/// The first bin searched for a harmonic around `center`.
pub open spec fn harmonic_lo(center: int) -> int {
    if center - 2 > 1 {
        center - 2
    } else {
        1
    }
}

/// The last bin searched for a harmonic around `center`.
pub open spec fn harmonic_hi(center: int, bins: int) -> int {
    if center + 2 < bins - 2 {
        center + 2
    } else {
        bins - 2
    }
}

/// Bin `p` holds the largest positive magnitude of `lo..hi`, the first of
/// several; where none is positive it is `lo`.
pub open spec fn is_top(mags: Seq<Real32>, lo: int, hi: int, p: int) -> bool {
    let zero = Real32 { bits: 0 };
    ||| {
        &&& lo <= p < hi
        &&& zero.below(mags[p])
        &&& forall|i: int|
            lo <= i < hi && zero.below(#[trigger] mags[i]) ==> {
                &&& mags[i].at_most(mags[p])
                &&& i < p ==> mags[i].below(mags[p])
            }
    }
    ||| {
        &&& p == lo
        &&& forall|i: int| lo <= i < hi ==> !zero.below(#[trigger] mags[i])
    }
}

/// The top bin is determined by the magnitudes.
pub proof fn top_is_unique(mags: Seq<Real32>, lo: int, hi: int, a: int, b: int)
    requires
        is_top(mags, lo, hi, a),
        is_top(mags, lo, hi, b),
        lo < hi,
    ensures
        a == b,
{
}

/// A genuine local peak with usable energy stands in bin `p`.
pub open spec fn is_genuine(mags: Seq<Real32>, p: int) -> bool {
    &&& (Real32 { bits: HARMONIC_FLOOR }).below(mags[p])
    &&& !mags[p].below(mags[p - 1])
    &&& !mags[p].below(mags[p + 1])
}

/// `found` is what the spectrum shows of a harmonic that is expected in the bin
/// `center`.
pub open spec fn shows(mags: Seq<Real32>, center: int, found: Harmonic) -> bool {
    let lo = harmonic_lo(center);
    let hi = harmonic_hi(center, mags.len() as int);
    match found {
        Harmonic::Beyond => lo >= hi,
        Harmonic::Absent => lo < hi && exists|p: int| #[trigger]
            is_top(mags, lo, hi + 1, p) && !is_genuine(mags, p),
        Harmonic::Peak(p) => lo < hi && is_top(mags, lo, hi + 1, p as int) && is_genuine(mags, p as int),
    }
}

/// What the spectrum shows of a harmonic is determined by the magnitudes.
pub proof fn harmonic_is_unique(mags: Seq<Real32>, center: int, a: Harmonic, b: Harmonic)
    requires
        shows(mags, center, a),
        shows(mags, center, b),
    ensures
        a == b,
{
}

/// Looks for the peak of a harmonic that is expected in the bin `center`.
pub fn harmonic_peak(mags: &Vec<Real32>, center: usize) -> (r: Harmonic)
    requires
        mags.len() >= 3,
    ensures
        shows(mags@, center as int, r),
        r matches Harmonic::Peak(p) ==> 1 <= p <= mags.len() - 2,
{
    let lo: usize = if center > 3 { center - 2 } else { 1 };
    let hi: usize = if mags.len() >= 4 && center < mags.len() - 4 { center + 2 } else { mags.len() - 2 };
    if lo >= hi {
        return Harmonic::Beyond;
    }
    let zero: Real32 = Real32::from_bits(0);
    let mut p: usize = lo;
    let mut top: Real32 = zero;
    let mut i: usize = lo;
    while i <= hi
        invariant
            1 <= lo < hi <= mags.len() - 2,
            lo <= i <= hi + 1,
            zero == (Real32 { bits: 0 }),
            is_top(mags@, lo as int, i as int, p as int),
            lo <= p <= hi,
            top == (if zero.below(mags[p as int]) && p < i {
                mags[p as int]
            } else {
                zero
            }),
        decreases hi + 1 - i,
    {
        if top.less(&mags[i]) {
            top = mags[i];
            p = i;
        }
        i = i + 1;
    }
    assert(is_top(mags@, harmonic_lo(center as int), harmonic_hi(center as int, mags.len() as int) + 1, p as int));
    if !Real32::from_bits(HARMONIC_FLOOR).less(&mags[p]) || mags[p].less(&mags[p - 1]) || mags[p].less(&mags[p + 1]) {
        return Harmonic::Absent;
    }
    Harmonic::Peak(p)
}

/// Whether a harmonic belongs to the pitch, of which its fundamental is `cents`
/// away, rather than to another string's partial.
pub fn own_harmonic(cents: &Real32) -> (r: bool)
    ensures
        r == cents.unsigned().below(Real32 { bits: HARMONIC_CENTS }),
{
    cents.abs().less(&Real32::from_bits(HARMONIC_CENTS))
}

/// The peak of harmonic `k` in bin `p` makes `after` of the sums `before`: it joins
/// them where it is the pitch's own.
pub open spec fn joined<
    E: Fn(Real32, Real32, Real32, usize, usize) -> Real32,
    C: Fn(Real32, Real32) -> Real32,
    W: Fn((Real32, Real32), Real32, Real32) -> (Real32, Real32),
>(
    mags: Seq<Real32>,
    f0: Real32,
    place: E,
    between: C,
    weigh: W,
    k: usize,
    p: usize,
    before: (Real32, Real32),
    after: (Real32, Real32),
) -> bool {
    exists|f: Real32, cents: Real32|
        #![trigger call_ensures(between, (f, f0), cents)]
        call_ensures(place, (mags[p - 1], mags[p as int], mags[p + 1], p, k), f) && call_ensures(
            between,
            (f, f0),
            cents,
        ) && if cents.unsigned().below(Real32 { bits: HARMONIC_CENTS }) {
            call_ensures(weigh, (before, mags[p as int], f), after)
        } else {
            after == before
        }
}

/// Harmonic `k` makes `after` of the sums `before`, and the series ends with it if it
/// lies beyond the spectrum.
pub open spec fn taken_in<
    N: Fn(usize) -> usize,
    E: Fn(Real32, Real32, Real32, usize, usize) -> Real32,
    C: Fn(Real32, Real32) -> Real32,
    W: Fn((Real32, Real32), Real32, Real32) -> (Real32, Real32),
>(
    mags: Seq<Real32>,
    f0: Real32,
    center: N,
    place: E,
    between: C,
    weigh: W,
    k: usize,
    before: (Real32, Real32),
    after: (Real32, Real32),
    ends: bool,
) -> bool {
    exists|c: usize, found: Harmonic|
        #![trigger call_ensures(center, (k,), c), shows(mags, c as int, found)]
        call_ensures(center, (k,), c) && shows(mags, c as int, found) && ends == (found is Beyond) && match found {
            Harmonic::Peak(p) => joined(mags, f0, place, between, weigh, k, p, before, after),
            _ => after == before,
        }
}

/// `sums` are the weighted sum of what the harmonics up to `n` say of the pitch, and
/// the sum of the weights; `ended` tells that one of them lay beyond the spectrum.
pub open spec fn gathered<
    N: Fn(usize) -> usize,
    E: Fn(Real32, Real32, Real32, usize, usize) -> Real32,
    C: Fn(Real32, Real32) -> Real32,
    W: Fn((Real32, Real32), Real32, Real32) -> (Real32, Real32),
>(
    mags: Seq<Real32>,
    f0: Real32,
    center: N,
    place: E,
    between: C,
    weigh: W,
    n: nat,
    sums: (Real32, Real32),
    ended: bool,
) -> bool
    decreases n,
{
    let zero = Real32 { bits: 0 };
    if n == 0 {
        sums == (zero, zero) && !ended
    } else {
        ||| ended && gathered(mags, f0, center, place, between, weigh, (n - 1) as nat, sums, true)
        ||| exists|before: (Real32, Real32)|
            gathered(mags, f0, center, place, between, weigh, (n - 1) as nat, before, false) && #[trigger] taken_in(
                mags,
                f0,
                center,
                place,
                between,
                weigh,
                n as usize,
                before,
                sums,
                ended,
            )
    }
}

/// Refines the pitch `f0` by the peaks of its harmonics: `center` gives the bin where
/// a harmonic is expected, `place` the fundamental that a peak in a bin speaks for,
/// from its magnitude and those beside it, and `weigh` adds that to the sums.
pub fn refine<
    N: Fn(usize) -> usize,
    E: Fn(Real32, Real32, Real32, usize, usize) -> Real32,
    C: Fn(Real32, Real32) -> Real32,
    W: Fn((Real32, Real32), Real32, Real32) -> (Real32, Real32),
    Q: Fn(Real32, Real32) -> Real32,
>(mags: &Vec<Real32>, f0: Real32, center: N, place: E, between: C, weigh: W, quotient: Q) -> (r: Option<Real32>)
    requires
        mags.len() >= 3,
        forall|k: usize| call_requires(center, (k,)),
        forall|a: Real32, b: Real32, c: Real32, p: usize, k: usize| call_requires(place, (a, b, c, p, k)),
        forall|a: Real32, b: Real32| call_requires(between, (a, b)),
        forall|s: (Real32, Real32), m: Real32, f: Real32| call_requires(weigh, (s, m, f)),
        forall|a: Real32, b: Real32| call_requires(quotient, (a, b)),
    ensures
        exists|sums: (Real32, Real32), ended: bool| #[trigger]
            gathered(mags@, f0, center, place, between, weigh, REFINED as nat, sums, ended) && match r {
                Some(f) => (Real32 { bits: 0 }).below(sums.1) && call_ensures(quotient, sums, f),
                None => !(Real32 { bits: 0 }).below(sums.1),
            },
{
    let zero: Real32 = Real32::from_bits(0);
    let mut sums: (Real32, Real32) = (zero, zero);
    let mut ended: bool = false;
    let mut n: usize = 0;
    while n < REFINED
        invariant
            n <= REFINED,
            mags.len() >= 3,
            forall|k: usize| call_requires(center, (k,)),
            forall|a: Real32, b: Real32, c: Real32, p: usize, k: usize| call_requires(place, (a, b, c, p, k)),
            forall|a: Real32, b: Real32| call_requires(between, (a, b)),
            forall|s: (Real32, Real32), m: Real32, f: Real32| call_requires(weigh, (s, m, f)),
            gathered(mags@, f0, center, place, between, weigh, n as nat, sums, ended),
        decreases REFINED - n,
    {
        let k: usize = n + 1;
        if !ended {
            let ghost before = sums;
            let c: usize = center(k);
            let found: Harmonic = harmonic_peak(mags, c);
            match found {
                Harmonic::Beyond => {
                    ended = true;
                },
                Harmonic::Absent => {},
                Harmonic::Peak(p) => {
                    let f: Real32 = place(mags[p - 1], mags[p], mags[p + 1], p, k);
                    let cents: Real32 = between(f, f0);
                    if own_harmonic(&cents) {
                        sums = weigh(sums, mags[p], f);
                    }
                    assert(joined(mags@, f0, place, between, weigh, k, p, before, sums));
                },
            }
            proof {
                let next = k as nat;
                assert(shows(mags@, c as int, found));
                assert(taken_in(mags@, f0, center, place, between, weigh, next as usize, before, sums, ended));
                assert(gathered(mags@, f0, center, place, between, weigh, (next - 1) as nat, before, false));
            }
        }
        n = k;
    }
    assert(gathered(mags@, f0, center, place, between, weigh, REFINED as nat, sums, ended));
    if zero.less(&sums.1) {
        Some(quotient(sums.0, sums.1))
    } else {
        None
    }
}

} // verus!
