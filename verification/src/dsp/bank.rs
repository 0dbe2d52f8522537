//! The oscillator bank at work: the steps of its filter put together, sample by
//! sample.

use vstd::prelude::*;

use crate::dsp::kalman::{
    corrected, observed, predicted, rebalanced, served, served_at, source_phasors,
};
use crate::dsp::drift::{can_refine, drifted, is_refined, pulled, Refinement};
use crate::dsp::drift::{LEAST_ENERGY, MAX_FALL_CENTS, MAX_PULL_CENTS};
use crate::dsp::separate::{Separator, Source, HARMONICS, SUB};
use crate::ieee::Real32;
use crate::ring::section;

verus! {

/// How the model moves on by a sample.
pub struct Motion<R, B> {
    /// Turns a phasor by the cosine and the sine of an angle.
    pub turn: R,
    /// Raises a variance by the process noise.
    pub raise: B,
}

/// How a sample corrects the model.
pub struct Gain<T, A, I, V, W, C, S> {
    /// Variance of the measurement noise.
    pub noise: T,
    /// Adds two numbers.
    pub plus: A,
    /// What a sample has beyond its prediction.
    pub innovation: I,
    /// The inverse of a variance.
    pub invert: V,
    /// The smoothed power of the innovations with one more.
    pub power: W,
    /// Corrects a cell of a phasor, by what it has in common with the sum, the inverse
    /// variance, and the innovation.
    pub correct: C,
    /// Shrinks a cell of the covariance, by what its row and its column have in common
    /// with the sum, and the inverse variance.
    pub shrink: S,
}

/// How the fundamentals follow the sound.
pub struct Pull<G, A, D, P> {
    /// How the fundamental of a source is refined, from its phasors.
    pub refine: G,
    /// The angle per sample of a harmonic of a frequency.
    pub angle: A,
    /// The cosine and the sine of an angle.
    pub direction: D,
    /// The phase that a phasor will have at the next boundary, from its angle.
    pub phase: P,
}

/// How the covariance is kept symmetric.
pub struct Repair<A, F> {
    /// The average of two numbers.
    pub average: A,
    /// A variance that is not negative.
    pub floor: F,
}

/// The sample `y` makes `after` of a bank that predicted the sum `r.1` with the
/// variance `r.0`.
pub open spec fn measured<
    T: Copy,
    A,
    I: Fn(T, T) -> T,
    V: Fn(T) -> T,
    W: Fn(T, T) -> T,
    C: Fn(T, T, T, T) -> T,
    S: Fn(T, T, T, T) -> T,
>(gain: Gain<T, A, I, V, W, C, S>, y: T, r: (T, T), before: Separator<T>, after: Separator<T>) -> bool {
    exists|innov: T, inv: T, res2: T|
        #![trigger call_ensures(gain.invert, (r.0,), inv), call_ensures(gain.power, (before.res2, innov), res2)]
        {
            &&& call_ensures(gain.innovation, (y, r.1), innov)
            &&& call_ensures(gain.invert, (r.0,), inv)
            &&& call_ensures(gain.power, (before.res2, innov), res2)
            &&& corrected(inv, innov, gain.correct, gain.shrink, res2, before, after)
        }
}

/// `after` is `before` one sample further in its sub-block, or at the start of the
/// next.
pub open spec fn advanced<T: Copy>(before: Separator<T>, after: Separator<T>) -> bool {
    &&& after.well_formed()
    &&& after.sub_fill == (before.sub_fill + 1) % SUB as int
    &&& after.sources@ == before.sources@
    &&& after.x@ == before.x@
    &&& after.p@ == before.p@
    &&& after.rot@ == before.rot@
    &&& after.theta@ == before.theta@
    &&& after.ref_phase@ == before.ref_phase@
    &&& after.hp@ == before.hp@
    &&& after.res2 == before.res2
    &&& after.same_constants(&before)
}

/// `after` is `before` with its fundamentals moved and its covariance repaired.
pub open spec fn settled<
    T: Copy,
    E: Fn(T, T) -> Real32,
    K: Fn((Real32, Real32), Real32, (T, T, T), usize) -> (Real32, Real32),
    U: Fn(Source, Real32, Real32) -> Real32,
    H: Fn(Real32, Real32) -> Real32,
    N: Fn(Real32, usize) -> T,
    D: Fn(T) -> (T, T),
    P: Fn(T, T, T) -> T,
    M: Fn(T, T) -> T,
    F: Fn(T) -> T,
>(pull: Pull<Refinement<E, K, U, H>, N, D, P>, repair: Repair<M, F>, before: Separator<T>, after: Separator<T>) -> bool {
    exists|moved: Separator<T>| #[trigger]
        served(pull.refine, pull.angle, pull.direction, pull.phase, before, moved) && rebalanced(
            repair.average,
            repair.floor,
            moved,
            after,
        )
}

/// The sample `y` makes `after` of `before`: the model moves on, is corrected, and at
/// the end of a sub-block settles.
pub open spec fn stepped<
    T: Copy,
    R: Fn((T, T), T, T) -> (T, T),
    B: Fn(T) -> T,
    A: Fn(T, T) -> T,
    I: Fn(T, T) -> T,
    V: Fn(T) -> T,
    W: Fn(T, T) -> T,
    C: Fn(T, T, T, T) -> T,
    S: Fn(T, T, T, T) -> T,
    E: Fn(T, T) -> Real32,
    K: Fn((Real32, Real32), Real32, (T, T, T), usize) -> (Real32, Real32),
    U: Fn(Source, Real32, Real32) -> Real32,
    H: Fn(Real32, Real32) -> Real32,
    N: Fn(Real32, usize) -> T,
    D: Fn(T) -> (T, T),
    P: Fn(T, T, T) -> T,
    M: Fn(T, T) -> T,
    F: Fn(T) -> T,
>(
    motion: Motion<R, B>,
    gain: Gain<T, A, I, V, W, C, S>,
    pull: Pull<Refinement<E, K, U, H>, N, D, P>,
    repair: Repair<M, F>,
    y: T,
    before: Separator<T>,
    after: Separator<T>,
) -> bool {
    exists|turned: Separator<T>, seen: Separator<T>, r: (T, T), told: Separator<T>, counted: Separator<T>|
        #![trigger predicted(motion.turn, motion.raise, before, turned), observed(gain.noise, gain.plus, turned, seen, r), measured(gain, y, r, seen, told), advanced(told, counted)]
        {
            &&& predicted(motion.turn, motion.raise, before, turned)
            &&& observed(gain.noise, gain.plus, turned, seen, r)
            &&& measured(gain, y, r, seen, told)
            &&& advanced(told, counted)
            &&& if told.sub_fill + 1 == SUB {
                settled(pull, repair, counted, after)
            } else {
                after == counted
            }
        }
}

/// The first `n` samples make `after` of `before`, one after another.
pub open spec fn processed<
    T: Copy,
    R: Fn((T, T), T, T) -> (T, T),
    B: Fn(T) -> T,
    A: Fn(T, T) -> T,
    I: Fn(T, T) -> T,
    V: Fn(T) -> T,
    W: Fn(T, T) -> T,
    C: Fn(T, T, T, T) -> T,
    S: Fn(T, T, T, T) -> T,
    E: Fn(T, T) -> Real32,
    K: Fn((Real32, Real32), Real32, (T, T, T), usize) -> (Real32, Real32),
    U: Fn(Source, Real32, Real32) -> Real32,
    H: Fn(Real32, Real32) -> Real32,
    N: Fn(Real32, usize) -> T,
    D: Fn(T) -> (T, T),
    P: Fn(T, T, T) -> T,
    M: Fn(T, T) -> T,
    F: Fn(T) -> T,
>(
    motion: Motion<R, B>,
    gain: Gain<T, A, I, V, W, C, S>,
    pull: Pull<Refinement<E, K, U, H>, N, D, P>,
    repair: Repair<M, F>,
    samples: Seq<T>,
    n: nat,
    before: Separator<T>,
    after: Separator<T>,
) -> bool
    decreases n,
{
    if n == 0 {
        after == before
    } else {
        exists|mid: Separator<T>|
            processed(motion, gain, pull, repair, samples, (n - 1) as nat, before, mid) && #[trigger] stepped(
                motion,
                gain,
                pull,
                repair,
                samples[n - 1],
                mid,
                after,
            )
    }
}

/// Only the samples that are taken in matter.
proof fn later_samples_do_not_matter<
    T: Copy,
    R: Fn((T, T), T, T) -> (T, T),
    B: Fn(T) -> T,
    A: Fn(T, T) -> T,
    I: Fn(T, T) -> T,
    V: Fn(T) -> T,
    W: Fn(T, T) -> T,
    C: Fn(T, T, T, T) -> T,
    S: Fn(T, T, T, T) -> T,
    E: Fn(T, T) -> Real32,
    K: Fn((Real32, Real32), Real32, (T, T, T), usize) -> (Real32, Real32),
    U: Fn(Source, Real32, Real32) -> Real32,
    H: Fn(Real32, Real32) -> Real32,
    N: Fn(Real32, usize) -> T,
    D: Fn(T) -> (T, T),
    P: Fn(T, T, T) -> T,
    M: Fn(T, T) -> T,
    F: Fn(T) -> T,
>(
    motion: Motion<R, B>,
    gain: Gain<T, A, I, V, W, C, S>,
    pull: Pull<Refinement<E, K, U, H>, N, D, P>,
    repair: Repair<M, F>,
    samples: Seq<T>,
    more: Seq<T>,
    n: nat,
    before: Separator<T>,
    after: Separator<T>,
)
    requires
        n <= samples.len(),
        processed(motion, gain, pull, repair, samples, n, before, after),
    ensures
        processed(motion, gain, pull, repair, samples + more, n, before, after),
    decreases n,
{
    if n > 0 {
        let mid = choose|mid: Separator<T>|
            processed(motion, gain, pull, repair, samples, (n - 1) as nat, before, mid) && #[trigger] stepped(
                motion,
                gain,
                pull,
                repair,
                samples[n - 1],
                mid,
                after,
            );
        later_samples_do_not_matter(motion, gain, pull, repair, samples, more, (n - 1) as nat, before, mid);
        assert((samples + more)[n - 1] == samples[n - 1]);
        assert(stepped(motion, gain, pull, repair, (samples + more)[n - 1], mid, after));
    }
}

/// How a stream is cut into blocks does not matter: what two blocks make of a bank one
/// after the other, their samples make of it in one go.
pub proof fn blocks_do_not_matter<
    T: Copy,
    R: Fn((T, T), T, T) -> (T, T),
    B: Fn(T) -> T,
    A: Fn(T, T) -> T,
    I: Fn(T, T) -> T,
    V: Fn(T) -> T,
    W: Fn(T, T) -> T,
    C: Fn(T, T, T, T) -> T,
    S: Fn(T, T, T, T) -> T,
    E: Fn(T, T) -> Real32,
    K: Fn((Real32, Real32), Real32, (T, T, T), usize) -> (Real32, Real32),
    U: Fn(Source, Real32, Real32) -> Real32,
    H: Fn(Real32, Real32) -> Real32,
    N: Fn(Real32, usize) -> T,
    D: Fn(T) -> (T, T),
    P: Fn(T, T, T) -> T,
    M: Fn(T, T) -> T,
    F: Fn(T) -> T,
>(
    motion: Motion<R, B>,
    gain: Gain<T, A, I, V, W, C, S>,
    pull: Pull<Refinement<E, K, U, H>, N, D, P>,
    repair: Repair<M, F>,
    first: Seq<T>,
    second: Seq<T>,
    n: nat,
    before: Separator<T>,
    mid: Separator<T>,
    after: Separator<T>,
)
    requires
        n <= second.len(),
        processed(motion, gain, pull, repair, first, first.len(), before, mid),
        processed(motion, gain, pull, repair, second, n, mid, after),
    ensures
        processed(motion, gain, pull, repair, first + second, first.len() + n, before, after),
    decreases n,
{
    if n == 0 {
        later_samples_do_not_matter(motion, gain, pull, repair, first, second, first.len(), before, mid);
    } else {
        let last = choose|last: Separator<T>|
            processed(motion, gain, pull, repair, second, (n - 1) as nat, mid, last) && #[trigger] stepped(
                motion,
                gain,
                pull,
                repair,
                second[n - 1],
                last,
                after,
            );
        blocks_do_not_matter(motion, gain, pull, repair, first, second, (n - 1) as nat, before, mid, last);
        let whole = first.len() + n;
        assert((first + second)[whole - 1] == second[n - 1]);
        assert(processed(motion, gain, pull, repair, first + second, (whole - 1) as nat, before, last));
        assert(stepped(motion, gain, pull, repair, (first + second)[whole - 1], last, after));
    }
}

/// The fundamental of a source lies within `MAX_PULL_CENTS` of its seed.
pub open spec fn is_near_seed<H: Fn(Real32, Real32) -> Real32>(shift: H, s: Source) -> bool {
    exists|lo: Real32, hi: Real32|
        #![trigger call_ensures(shift, (s.seed, Real32 { bits: MAX_FALL_CENTS }), lo), call_ensures(shift, (s.seed, Real32 { bits: MAX_PULL_CENTS }), hi)]
        {
            &&& call_ensures(shift, (s.seed, Real32 { bits: MAX_FALL_CENTS }), lo)
            &&& call_ensures(shift, (s.seed, Real32 { bits: MAX_PULL_CENTS }), hi)
            &&& lo.at_most(s.freq)
            &&& s.freq.at_most(hi)
        }
}

/// The refinement computes with numbers: what it tunes to is one, and the pitch below
/// another is not above the one above it.
pub open spec fn refines_to_numbers<E, K, U: Fn(Source, Real32, Real32) -> Real32, H: Fn(Real32, Real32) -> Real32>(
    refine: Refinement<E, K, U, H>,
) -> bool {
    &&& forall|s: Source, a: Real32, b: Real32, x: Real32| #[trigger]
        call_ensures(refine.tune, (s, a, b), x) ==> !x.nan()
    &&& forall|f: Real32, lo: Real32, hi: Real32|
        #![trigger call_ensures(refine.shift, (f, Real32 { bits: MAX_FALL_CENTS }), lo), call_ensures(refine.shift, (f, Real32 { bits: MAX_PULL_CENTS }), hi)]
        call_ensures(refine.shift, (f, Real32 { bits: MAX_FALL_CENTS }), lo) && call_ensures(
            refine.shift,
            (f, Real32 { bits: MAX_PULL_CENTS }),
            hi,
        ) ==> lo.at_most(hi)
}

proof fn refined_is_near_its_seed<
    T,
    E: Fn(T, T) -> Real32,
    K: Fn((Real32, Real32), Real32, (T, T, T), usize) -> (Real32, Real32),
    U: Fn(Source, Real32, Real32) -> Real32,
    H: Fn(Real32, Real32) -> Real32,
>(refine: Refinement<E, K, U, H>, s: Source, phasors: Seq<(T, T, T)>, f: Real32)
    requires
        is_refined(refine, s, phasors, Some(f)),
        refines_to_numbers(refine),
    ensures
        is_near_seed(refine.shift, Source { seed: s.seed, freq: f }),
{
    let sums = choose|sums: (Real32, Real32)| #[trigger]
        drifted(refine.energy, refine.weigh, phasors, phasors.len(), sums) && (Real32 { bits: LEAST_ENERGY }).below(
            sums.1,
        ) && pulled(refine.tune, refine.shift, s, sums, f);
    assert(pulled(refine.tune, refine.shift, s, sums, f));
}

/// Fundamentals stay within `MAX_PULL_CENTS` of their seeds: if those of the sources do
/// at first, they do after any samples; and every source keeps its seed.
pub proof fn fundamentals_stay_near_their_seeds<
    T: Copy,
    R: Fn((T, T), T, T) -> (T, T),
    B: Fn(T) -> T,
    A: Fn(T, T) -> T,
    I: Fn(T, T) -> T,
    V: Fn(T) -> T,
    W: Fn(T, T) -> T,
    C: Fn(T, T, T, T) -> T,
    S: Fn(T, T, T, T) -> T,
    E: Fn(T, T) -> Real32,
    K: Fn((Real32, Real32), Real32, (T, T, T), usize) -> (Real32, Real32),
    U: Fn(Source, Real32, Real32) -> Real32,
    H: Fn(Real32, Real32) -> Real32,
    N: Fn(Real32, usize) -> T,
    D: Fn(T) -> (T, T),
    P: Fn(T, T, T) -> T,
    M: Fn(T, T) -> T,
    F: Fn(T) -> T,
>(
    motion: Motion<R, B>,
    gain: Gain<T, A, I, V, W, C, S>,
    pull: Pull<Refinement<E, K, U, H>, N, D, P>,
    repair: Repair<M, F>,
    samples: Seq<T>,
    n: nat,
    before: Separator<T>,
    after: Separator<T>,
)
    requires
        processed(motion, gain, pull, repair, samples, n, before, after),
        refines_to_numbers(pull.refine),
        forall|i: int| 0 <= i < before.sources.len() ==> is_near_seed(pull.refine.shift, #[trigger] before.sources[i]),
    ensures
        after.sources.len() == before.sources.len(),
        forall|i: int| 0 <= i < after.sources.len() ==> is_near_seed(pull.refine.shift, #[trigger] after.sources[i]),
        forall|i: int| 0 <= i < after.sources.len() ==> (#[trigger] after.sources[i]).seed == before.sources[i].seed,
    decreases n,
{
    if n > 0 {
        let mid = choose|mid: Separator<T>|
            processed(motion, gain, pull, repair, samples, (n - 1) as nat, before, mid) && #[trigger] stepped(
                motion,
                gain,
                pull,
                repair,
                samples[n - 1],
                mid,
                after,
            );
        fundamentals_stay_near_their_seeds(motion, gain, pull, repair, samples, (n - 1) as nat, before, mid);
        let (turned, seen, r, told, counted) = choose|
            turned: Separator<T>,
            seen: Separator<T>,
            r: (T, T),
            told: Separator<T>,
            counted: Separator<T>,
        |
            #![trigger predicted(motion.turn, motion.raise, mid, turned), observed(gain.noise, gain.plus, turned, seen, r), measured(gain, samples[n - 1], r, seen, told), advanced(told, counted)]
            {
                &&& predicted(motion.turn, motion.raise, mid, turned)
                &&& observed(gain.noise, gain.plus, turned, seen, r)
                &&& measured(gain, samples[n - 1], r, seen, told)
                &&& advanced(told, counted)
                &&& if told.sub_fill + 1 == SUB {
                    settled(pull, repair, counted, after)
                } else {
                    after == counted
                }
            };
        assert(counted.sources@ == mid.sources@);
        if told.sub_fill + 1 == SUB {
            let moved = choose|moved: Separator<T>| #[trigger]
                served(pull.refine, pull.angle, pull.direction, pull.phase, counted, moved) && rebalanced(
                    repair.average,
                    repair.floor,
                    moved,
                    after,
                );
            assert(after.sources@ == moved.sources@);
            assert forall|i: int| 0 <= i < after.sources.len() implies is_near_seed(pull.refine.shift, #[trigger] after.sources[i])
                && after.sources[i].seed == before.sources[i].seed by {
                assert(counted.sources@[i] == mid.sources@[i]);
                assert(mid.sources[i].seed == before.sources[i].seed);
                assert(served_at(pull.refine, pull.angle, pull.direction, counted, moved, i));
                assert(moved.sources@[i] == after.sources@[i]);
                let phasors = source_phasors(counted.x@, counted.ref_phase@, i);
                if moved.sources[i] != counted.sources[i] {
                    refined_is_near_its_seed(pull.refine, counted.sources[i], phasors, moved.sources[i].freq);
                }
            }
        } else {
            assert forall|i: int| 0 <= i < after.sources.len() implies is_near_seed(pull.refine.shift, #[trigger] after.sources[i])
                && after.sources[i].seed == before.sources[i].seed by {
                assert(after.sources@[i] == mid.sources@[i]);
                assert(mid.sources[i].seed == before.sources[i].seed);
            }
        }
    }
}

/// What a source sounds like.
pub struct SourceReading {
    /// Refined fundamental.
    pub freq: Real32,
    /// Amplitudes of its harmonics.
    pub amps: Vec<Real32>,
    /// Level of the reconstructed source.
    pub level: Real32,
}

/// `reading` is what source `si` sounds like.
pub open spec fn reads<T: Copy, A: Fn(T, T) -> Real32, L: Fn(Vec<Real32>) -> Real32>(
    amplitude: A,
    level: L,
    bank: Separator<T>,
    si: int,
    reading: SourceReading,
) -> bool {
    let phasors = source_phasors(bank.x@, bank.ref_phase@, si);
    &&& reading.freq == bank.sources[si].freq
    &&& reading.amps.len() == HARMONICS
    &&& forall|m: int|
        0 <= m < HARMONICS ==> call_ensures(amplitude, (phasors[m].0, phasors[m].1), #[trigger] reading.amps[m])
    &&& exists|v: Vec<Real32>| #[trigger] v@ == reading.amps@ && call_ensures(level, (v,), reading.level)
}

impl<T: Copy> Separator<T> {
    /// Takes in one sample.
    fn step<
        R: Fn((T, T), T, T) -> (T, T),
        B: Fn(T) -> T,
        A: Fn(T, T) -> T,
        I: Fn(T, T) -> T,
        V: Fn(T) -> T,
        W: Fn(T, T) -> T,
        C: Fn(T, T, T, T) -> T,
        S: Fn(T, T, T, T) -> T,
        E: Fn(T, T) -> Real32,
        K: Fn((Real32, Real32), Real32, (T, T, T), usize) -> (Real32, Real32),
        U: Fn(Source, Real32, Real32) -> Real32,
        H: Fn(Real32, Real32) -> Real32,
        N: Fn(Real32, usize) -> T,
        D: Fn(T) -> (T, T),
        P: Fn(T, T, T) -> T,
        M: Fn(T, T) -> T,
        F: Fn(T) -> T,
    >(
        &mut self,
        motion: &Motion<R, B>,
        gain: &Gain<T, A, I, V, W, C, S>,
        pull: &Pull<Refinement<E, K, U, H>, N, D, P>,
        repair: &Repair<M, F>,
        y: T,
    )
        requires
            old(self).well_formed(),
            forall|r: (T, T), a: T, b: T| call_requires(motion.turn, (r, a, b)),
            forall|a: T| call_requires(motion.raise, (a,)),
            forall|a: T, b: T| call_requires(gain.plus, (a, b)),
            forall|a: T, b: T| call_requires(gain.innovation, (a, b)),
            forall|a: T| call_requires(gain.invert, (a,)),
            forall|a: T, b: T| call_requires(gain.power, (a, b)),
            forall|a: T, b: T, c: T, d: T| call_requires(gain.correct, (a, b, c, d)),
            forall|a: T, b: T, c: T, d: T| call_requires(gain.shrink, (a, b, c, d)),
            can_refine::<T, E, K, U, H>(pull.refine),
            forall|f: Real32, m: usize| call_requires(pull.angle, (f, m)),
            forall|a: T| call_requires(pull.direction, (a,)),
            forall|c: T, s: T, a: T| call_requires(pull.phase, (c, s, a)),
            forall|a: T, b: T| call_requires(repair.average, (a, b)),
            forall|a: T| call_requires(repair.floor, (a,)),
        ensures
            final(self).well_formed(),
            final(self).sources.len() == old(self).sources.len(),
            stepped(*motion, *gain, *pull, *repair, y, *old(self), *final(self)),
    {
        self.predict(&motion.turn, &motion.raise);
        let ghost turned = *self;
        let r: (T, T) = self.observe(gain.noise, &gain.plus);
        let ghost seen = *self;
        let innovation: &I = &gain.innovation;
        let invert: &V = &gain.invert;
        let power: &W = &gain.power;
        let innov: T = innovation(y, r.1);
        let inv: T = invert(r.0);
        let res2: T = power(self.res2, innov);
        self.correct(inv, innov, &gain.correct, &gain.shrink, res2);
        let ghost told = *self;
        assert(call_ensures(gain.invert, (r.0,), inv) && call_ensures(gain.power, (seen.res2, innov), res2));
        assert(measured(*gain, y, r, seen, told));
        let boundary: bool = self.advance();
        let ghost counted = *self;
        assert(advanced(told, counted));
        if boundary {
            self.servo(&pull.refine, &pull.angle, &pull.direction, &pull.phase);
            let ghost moved = *self;
            self.symmetrize(&repair.average, &repair.floor);
            assert(served(pull.refine, pull.angle, pull.direction, pull.phase, counted, moved));
            assert(settled(*pull, *repair, counted, *self));
        }
        assert(predicted(motion.turn, motion.raise, *old(self), turned));
        assert(observed(gain.noise, gain.plus, turned, seen, r));
    }

    /// Takes in some samples, one after another; a bank without sources stays as it
    /// is.
    pub fn process<
        R: Fn((T, T), T, T) -> (T, T),
        B: Fn(T) -> T,
        A: Fn(T, T) -> T,
        I: Fn(T, T) -> T,
        V: Fn(T) -> T,
        W: Fn(T, T) -> T,
        C: Fn(T, T, T, T) -> T,
        S: Fn(T, T, T, T) -> T,
        E: Fn(T, T) -> Real32,
        K: Fn((Real32, Real32), Real32, (T, T, T), usize) -> (Real32, Real32),
        U: Fn(Source, Real32, Real32) -> Real32,
        H: Fn(Real32, Real32) -> Real32,
        N: Fn(Real32, usize) -> T,
        D: Fn(T) -> (T, T),
        P: Fn(T, T, T) -> T,
        M: Fn(T, T) -> T,
        F: Fn(T) -> T,
    >(
        &mut self,
        samples: &Vec<T>,
        motion: &Motion<R, B>,
        gain: &Gain<T, A, I, V, W, C, S>,
        pull: &Pull<Refinement<E, K, U, H>, N, D, P>,
        repair: &Repair<M, F>,
    )
        requires
            old(self).well_formed(),
            forall|r: (T, T), a: T, b: T| call_requires(motion.turn, (r, a, b)),
            forall|a: T| call_requires(motion.raise, (a,)),
            forall|a: T, b: T| call_requires(gain.plus, (a, b)),
            forall|a: T, b: T| call_requires(gain.innovation, (a, b)),
            forall|a: T| call_requires(gain.invert, (a,)),
            forall|a: T, b: T| call_requires(gain.power, (a, b)),
            forall|a: T, b: T, c: T, d: T| call_requires(gain.correct, (a, b, c, d)),
            forall|a: T, b: T, c: T, d: T| call_requires(gain.shrink, (a, b, c, d)),
            can_refine::<T, E, K, U, H>(pull.refine),
            forall|f: Real32, m: usize| call_requires(pull.angle, (f, m)),
            forall|a: T| call_requires(pull.direction, (a,)),
            forall|c: T, s: T, a: T| call_requires(pull.phase, (c, s, a)),
            forall|a: T, b: T| call_requires(repair.average, (a, b)),
            forall|a: T| call_requires(repair.floor, (a,)),
        ensures
            final(self).well_formed(),
            if old(self).sources.len() == 0 {
                *final(self) == *old(self)
            } else {
                processed(
                    *motion,
                    *gain,
                    *pull,
                    *repair,
                    samples@,
                    samples.len() as nat,
                    *old(self),
                    *final(self),
                )
            },
    {
        if self.sources.len() == 0 {
            return;
        }
        let mut n: usize = 0;
        while n < samples.len()
            invariant
                n <= samples.len(),
                self.well_formed(),
                forall|r: (T, T), a: T, b: T| call_requires(motion.turn, (r, a, b)),
                forall|a: T| call_requires(motion.raise, (a,)),
                forall|a: T, b: T| call_requires(gain.plus, (a, b)),
                forall|a: T, b: T| call_requires(gain.innovation, (a, b)),
                forall|a: T| call_requires(gain.invert, (a,)),
                forall|a: T, b: T| call_requires(gain.power, (a, b)),
                forall|a: T, b: T, c: T, d: T| call_requires(gain.correct, (a, b, c, d)),
                forall|a: T, b: T, c: T, d: T| call_requires(gain.shrink, (a, b, c, d)),
                can_refine::<T, E, K, U, H>(pull.refine),
                forall|f: Real32, m: usize| call_requires(pull.angle, (f, m)),
                forall|a: T| call_requires(pull.direction, (a,)),
                forall|c: T, s: T, a: T| call_requires(pull.phase, (c, s, a)),
                forall|a: T, b: T| call_requires(repair.average, (a, b)),
                forall|a: T| call_requires(repair.floor, (a,)),
                processed(*motion, *gain, *pull, *repair, samples@, n as nat, *old(self), *self),
            decreases samples.len() - n,
        {
            let ghost mid = *self;
            self.step(motion, gain, pull, repair, samples[n]);
            proof {
                let next = (n + 1) as nat;
                assert(processed(*motion, *gain, *pull, *repair, samples@, (next - 1) as nat, *old(self), mid));
                assert(stepped(*motion, *gain, *pull, *repair, samples@[next - 1], mid, *self));
            }
            n = n + 1;
        }
    }

    /// What every source sounds like. `amplitude` gives the amplitude of a phasor, and
    /// `level` the level of the amplitudes of a source.
    pub fn readings<A: Fn(T, T) -> Real32, L: Fn(Vec<Real32>) -> Real32>(
        &self,
        amplitude: A,
        level: L,
    ) -> (r: Vec<SourceReading>)
        requires
            self.well_formed(),
            forall|a: T, b: T| call_requires(amplitude, (a, b)),
            forall|v: Vec<Real32>| call_requires(level, (v,)),
        ensures
            r.len() == self.sources.len(),
            forall|si: int| 0 <= si < r.len() ==> reads(amplitude, level, *self, si, #[trigger] r[si]),
    {
        let mut r: Vec<SourceReading> = Vec::new();
        let mut si: usize = 0;
        while si < self.sources.len()
            invariant
                si <= self.sources.len(),
                self.well_formed(),
                r.len() == si,
                forall|a: T, b: T| call_requires(amplitude, (a, b)),
                forall|v: Vec<Real32>| call_requires(level, (v,)),
                forall|k: int| 0 <= k < si ==> reads(amplitude, level, *self, k, #[trigger] r[k]),
            decreases self.sources.len() - si,
        {
            let phasors: Vec<(T, T, T)> = self.phasors(si);
            let mut amps: Vec<Real32> = Vec::new();
            let mut m: usize = 0;
            while m < HARMONICS
                invariant
                    m <= HARMONICS == phasors.len(),
                    amps.len() == m,
                    forall|a: T, b: T| call_requires(amplitude, (a, b)),
                    forall|k: int|
                        0 <= k < m ==> call_ensures(amplitude, (phasors[k].0, phasors[k].1), #[trigger] amps[k]),
                decreases HARMONICS - m,
            {
                let (c, s, _) = phasors[m];
                let a: Real32 = amplitude(c, s);
                amps.push(a);
                m = m + 1;
            }
            let copy: Vec<Real32> = section(&amps, 0, amps.len());
            assert(copy@ =~= amps@);
            let l: Real32 = level(copy);
            let reading: SourceReading = SourceReading { freq: self.sources[si].freq, amps, level: l };
            assert(reads(amplitude, level, *self, si as int, reading));
            r.push(reading);
            si = si + 1;
        }
        r
    }
}

} // verus!
