//! How the fundamental of a source follows the drift of its phases.

use vstd::prelude::*;

use crate::dsp::separate::Source;
use crate::ieee::Real32;

verus! {

/// Energies below this count for nothing: 1e-9, as an IEEE 754 pattern.
pub const LEAST_ENERGY: u32 = 0x3089_705f;

/// A refined fundamental stays within this many cents of its seed: 80, and 80 below, as
/// IEEE 754 patterns.
pub const MAX_PULL_CENTS: u32 = 0x42a0_0000;

pub const MAX_FALL_CENTS: u32 = 0xc2a0_0000;

/// How a fundamental is refined.
pub struct Refinement<E, K, U, H> {
    /// The energy of a phasor.
    pub energy: E,
    /// The sums of the weighted drifts and of the weights, with those of one more phasor.
    pub weigh: K,
    /// The fundamental of a source that some sums speak for.
    pub tune: U,
    /// The pitch some cents away from another.
    pub shift: H,
}

/// The phasor of harmonic `m + 1` makes `after` of the sums `before`. One of less energy
/// than `LEAST_ENERGY` does not count.
pub open spec fn counted_in<
    T,
    E: Fn(T, T) -> Real32,
    K: Fn((Real32, Real32), Real32, (T, T, T), usize) -> (Real32, Real32),
>(energy: E, weigh: K, p: (T, T, T), m: usize, before: (Real32, Real32), after: (Real32, Real32)) -> bool {
    exists|e: Real32| #[trigger]
        call_ensures(energy, (p.0, p.1), e) && if e.below(Real32 { bits: LEAST_ENERGY }) {
            after == before
        } else {
            call_ensures(weigh, (before, e, p, m), after)
        }
}

/// `sums` are the weighted sum of the phase drifts of the first `n` phasors, and the sum
/// of the weights.
pub open spec fn drifted<
    T,
    E: Fn(T, T) -> Real32,
    K: Fn((Real32, Real32), Real32, (T, T, T), usize) -> (Real32, Real32),
>(energy: E, weigh: K, phasors: Seq<(T, T, T)>, n: nat, sums: (Real32, Real32)) -> bool
    decreases n,
{
    let zero = Real32 { bits: 0 };
    if n == 0 {
        sums == (zero, zero)
    } else {
        exists|before: (Real32, Real32)|
            drifted(energy, weigh, phasors, (n - 1) as nat, before) && #[trigger] counted_in(
                energy,
                weigh,
                phasors[n - 1],
                (n - 1) as usize,
                before,
                sums,
            )
    }
}

/// `x` where it lies between two bounds, else the bound that it is beyond.
pub open spec fn clamped(x: Real32, lo: Real32, hi: Real32) -> Real32 {
    if x.below(lo) {
        lo
    } else if hi.below(x) {
        hi
    } else {
        x
    }
}

/// `f` is the fundamental that some sums speak for, pulled no further from the seed of
/// its source than `MAX_PULL_CENTS`: unless it is not a number it lies between the
/// pitches so far below and above the seed.
pub open spec fn pulled<U: Fn(Source, Real32, Real32) -> Real32, H: Fn(Real32, Real32) -> Real32>(
    tune: U,
    shift: H,
    source: Source,
    sums: (Real32, Real32),
    f: Real32,
) -> bool {
    exists|x: Real32, lo: Real32, hi: Real32|
        #![trigger call_ensures(tune, (source, sums.0, sums.1), x), call_ensures(shift, (source.seed, Real32 { bits: MAX_FALL_CENTS }), lo), call_ensures(shift, (source.seed, Real32 { bits: MAX_PULL_CENTS }), hi)]
        {
            &&& call_ensures(tune, (source, sums.0, sums.1), x)
            &&& call_ensures(shift, (source.seed, Real32 { bits: MAX_FALL_CENTS }), lo)
            &&& call_ensures(shift, (source.seed, Real32 { bits: MAX_PULL_CENTS }), hi)
            &&& f == clamped(x, lo, hi)
            &&& lo.at_most(hi) && !x.nan() ==> lo.at_most(f) && f.at_most(hi)
        }
}

/// `answer` is the refined fundamental of a source with these phasors, unless it is
/// silent.
pub open spec fn is_refined<
    T,
    E: Fn(T, T) -> Real32,
    K: Fn((Real32, Real32), Real32, (T, T, T), usize) -> (Real32, Real32),
    U: Fn(Source, Real32, Real32) -> Real32,
    H: Fn(Real32, Real32) -> Real32,
>(
    refinement: Refinement<E, K, U, H>,
    source: Source,
    phasors: Seq<(T, T, T)>,
    answer: Option<Real32>,
) -> bool {
    exists|sums: (Real32, Real32)| #[trigger]
        drifted(refinement.energy, refinement.weigh, phasors, phasors.len(), sums) && match answer {
            Some(f) => (Real32 { bits: LEAST_ENERGY }).below(sums.1) && pulled(
                refinement.tune,
                refinement.shift,
                source,
                sums,
                f,
            ),
            None => !(Real32 { bits: LEAST_ENERGY }).below(sums.1),
        }
}

/// The functions that refine can be called with anything.
pub open spec fn can_refine<
    T,
    E: Fn(T, T) -> Real32,
    K: Fn((Real32, Real32), Real32, (T, T, T), usize) -> (Real32, Real32),
    U: Fn(Source, Real32, Real32) -> Real32,
    H: Fn(Real32, Real32) -> Real32,
>(refinement: Refinement<E, K, U, H>) -> bool {
    &&& forall|a: T, b: T| call_requires(refinement.energy, (a, b))
    &&& forall|s: (Real32, Real32), e: Real32, p: (T, T, T), m: usize|
        call_requires(refinement.weigh, (s, e, p, m))
    &&& forall|s: Source, a: Real32, b: Real32| call_requires(refinement.tune, (s, a, b))
    &&& forall|f: Real32, c: Real32| call_requires(refinement.shift, (f, c))
}

/// The refined fundamental of a source: the energy-weighted average of the phase drift
/// over the harmonic number measures the detune directly. The fundamental stays within
/// `MAX_PULL_CENTS` of the seed. A silent source says nothing.
pub fn refine_source<
    T: Copy,
    E: Fn(T, T) -> Real32,
    K: Fn((Real32, Real32), Real32, (T, T, T), usize) -> (Real32, Real32),
    U: Fn(Source, Real32, Real32) -> Real32,
    H: Fn(Real32, Real32) -> Real32,
>(source: Source, phasors: &Vec<(T, T, T)>, refinement: &Refinement<E, K, U, H>) -> (r: Option<Real32>)
    requires
        can_refine::<T, E, K, U, H>(*refinement),
    ensures
        is_refined(*refinement, source, phasors@, r),
{
    let least: Real32 = Real32::from_bits(LEAST_ENERGY);
    let mut sums: (Real32, Real32) = (Real32::from_bits(0), Real32::from_bits(0));
    let mut n: usize = 0;
    while n < phasors.len()
        invariant
            n <= phasors.len(),
            least == (Real32 { bits: LEAST_ENERGY }),
            can_refine::<T, E, K, U, H>(*refinement),
            drifted(refinement.energy, refinement.weigh, phasors@, n as nat, sums),
        decreases phasors.len() - n,
    {
        let ghost before = sums;
        let p: (T, T, T) = phasors[n];
        let e: Real32 = (refinement.energy)(p.0, p.1);
        if !e.less(&least) {
            sums = (refinement.weigh)(sums, e, p, n);
        }
        proof {
            let next = (n + 1) as nat;
            assert(drifted(refinement.energy, refinement.weigh, phasors@, (next - 1) as nat, before));
            assert(call_ensures(refinement.energy, (p.0, p.1), e));
            assert(counted_in(refinement.energy, refinement.weigh, phasors@[next - 1], (next - 1) as usize, before, sums));
        }
        n = n + 1;
    }
    assert(drifted(refinement.energy, refinement.weigh, phasors@, phasors.len() as nat, sums));
    if !least.less(&sums.1) {
        return None;
    }
    let x: Real32 = (refinement.tune)(source, sums.0, sums.1);
    let lo: Real32 = (refinement.shift)(source.seed, Real32::from_bits(MAX_FALL_CENTS));
    let hi: Real32 = (refinement.shift)(source.seed, Real32::from_bits(MAX_PULL_CENTS));
    let f: Real32 = if x.less(&lo) {
        lo
    } else if hi.less(&x) {
        hi
    } else {
        x
    };
    proof {
        assert(call_ensures(refinement.tune, (source, sums.0, sums.1), x));
        assert(call_ensures(refinement.shift, (source.seed, Real32 { bits: MAX_FALL_CENTS }), lo));
        assert(call_ensures(refinement.shift, (source.seed, Real32 { bits: MAX_PULL_CENTS }), hi));
        assert(f == clamped(x, lo, hi));
        assert(pulled(refinement.tune, refinement.shift, source, sums, f));
    }
    Some(f)
}

} // verus!
