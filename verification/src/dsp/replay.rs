//! What a bank becomes is settled by what it was and by the samples: with functions
//! that give one value for one argument, filtering a stream again gives the same bank,
//! however the stream is cut into blocks.

use vstd::prelude::*;

use crate::dsp::bank::{advanced, blocks_do_not_matter, measured, processed, settled, stepped};
use crate::dsp::bank::{reads, Gain, Motion, Pull, Repair, SourceReading};
use crate::dsp::drift::{counted_in, drifted, is_refined, pulled, Refinement, LEAST_ENERGY};
use crate::dsp::kalman::{balanced_at, columns_turned, columns_turned_at, corrected, diagonal_raised, floored_at};
use crate::dsp::kalman::{observed, phase_set_at, predicted, rebalanced, rotates_at, rows_turned, rows_turned_at};
use crate::dsp::kalman::{served, served_at, source_phasors, state_turned_at, summed};
use crate::dsp::separate::{is_square, Separator, Source, HARMONICS, SUB};
use crate::ieee::Real32;

verus! {

/// One argument, one value.
pub open spec fn steady1<X, Y, F: Fn(X) -> Y>(f: F) -> bool {
    forall|a: X, y: Y, z: Y| #[trigger] call_ensures(f, (a,), y) && #[trigger] call_ensures(f, (a,), z) ==> y == z
}

/// Two arguments, one value.
pub open spec fn steady2<V, X, Y, F: Fn(V, X) -> Y>(f: F) -> bool {
    forall|a: V, b: X, y: Y, z: Y| #[trigger]
        call_ensures(f, (a, b), y) && #[trigger] call_ensures(f, (a, b), z) ==> y == z
}

/// Three arguments, one value.
pub open spec fn steady3<U, V, X, Y, F: Fn(U, V, X) -> Y>(f: F) -> bool {
    forall|a: U, b: V, c: X, y: Y, z: Y| #[trigger]
        call_ensures(f, (a, b, c), y) && #[trigger] call_ensures(f, (a, b, c), z) ==> y == z
}

/// Four arguments, one value.
pub open spec fn steady4<U, V, W, X, Y, F: Fn(U, V, W, X) -> Y>(f: F) -> bool {
    forall|a: U, b: V, c: W, d: X, y: Y, z: Y| #[trigger]
        call_ensures(f, (a, b, c, d), y) && #[trigger] call_ensures(f, (a, b, c, d), z) ==> y == z
}

/// Two square matrices have the same cells.
pub open spec fn same_cells<T>(a: Seq<Vec<T>>, b: Seq<Vec<T>>, n: int) -> bool {
    &&& is_square(a, n)
    &&& is_square(b, n)
    &&& forall|i: int, j: int| 0 <= i < n && 0 <= j < n ==> #[trigger] a[i][j] == #[trigger] b[i][j]
}

/// Two banks are in the same state.
pub open spec fn alike<T: Copy>(a: Separator<T>, b: Separator<T>) -> bool {
    &&& a.well_formed()
    &&& b.well_formed()
    &&& a.sources@ == b.sources@
    &&& a.x@ == b.x@
    &&& same_cells(a.p@, b.p@, a.x.len() as int)
    &&& a.rot@ == b.rot@
    &&& a.theta@ == b.theta@
    &&& a.ref_phase@ == b.ref_phase@
    &&& a.hp@ == b.hp@
    &&& a.sub_fill == b.sub_fill
    &&& a.res2 == b.res2
    &&& a.same_constants(&b)
}

proof fn rows_alike<T, R: Fn((T, T), T, T) -> (T, T)>(
    turn: R,
    rot: Seq<(T, T)>,
    b1: Seq<Vec<T>>,
    b2: Seq<Vec<T>>,
    a1: Seq<Vec<T>>,
    a2: Seq<Vec<T>>,
)
    requires
        steady3(turn),
        same_cells(b1, b2, 2 * rot.len() as int),
        rows_turned(turn, rot, b1, a1),
        rows_turned(turn, rot, b2, a2),
    ensures
        same_cells(a1, a2, 2 * rot.len() as int),
{
    let n = 2 * rot.len() as int;
    assert forall|i: int, j: int| 0 <= i < n && 0 <= j < n implies #[trigger] a1[i][j] == #[trigger] a2[i][j] by {
        let o = i / 2;
        assert(rows_turned_at(turn, rot, b1, a1, o, j));
        assert(rows_turned_at(turn, rot, b2, a2, o, j));
        assert(b1[2 * o][j] == b2[2 * o][j]);
        assert(b1[2 * o + 1][j] == b2[2 * o + 1][j]);
        assert((a1[2 * o][j], a1[2 * o + 1][j]) == (a2[2 * o][j], a2[2 * o + 1][j]));
    }
}

proof fn columns_alike<T, R: Fn((T, T), T, T) -> (T, T)>(
    turn: R,
    rot: Seq<(T, T)>,
    b1: Seq<Vec<T>>,
    b2: Seq<Vec<T>>,
    a1: Seq<Vec<T>>,
    a2: Seq<Vec<T>>,
)
    requires
        steady3(turn),
        same_cells(b1, b2, 2 * rot.len() as int),
        columns_turned(turn, rot, b1, a1),
        columns_turned(turn, rot, b2, a2),
    ensures
        same_cells(a1, a2, 2 * rot.len() as int),
{
    let n = 2 * rot.len() as int;
    assert forall|i: int, j: int| 0 <= i < n && 0 <= j < n implies #[trigger] a1[i][j] == #[trigger] a2[i][j] by {
        let o = j / 2;
        assert(columns_turned_at(turn, rot, b1, a1, i, o));
        assert(columns_turned_at(turn, rot, b2, a2, i, o));
        assert(b1[i][2 * o] == b2[i][2 * o]);
        assert(b1[i][2 * o + 1] == b2[i][2 * o + 1]);
        assert((a1[i][2 * o], a1[i][2 * o + 1]) == (a2[i][2 * o], a2[i][2 * o + 1]));
    }
}

proof fn raised_alike<T, B: Fn(T) -> T>(
    raise: B,
    b1: Seq<Vec<T>>,
    b2: Seq<Vec<T>>,
    a1: Seq<Vec<T>>,
    a2: Seq<Vec<T>>,
    n: int,
)
    requires
        steady1(raise),
        same_cells(b1, b2, n),
        diagonal_raised(raise, b1, a1, n),
        diagonal_raised(raise, b2, a2, n),
    ensures
        same_cells(a1, a2, n),
{
    assert forall|i: int, j: int| 0 <= i < n && 0 <= j < n implies #[trigger] a1[i][j] == #[trigger] a2[i][j] by {
        assert(b1[i][j] == b2[i][j]);
        if i == j {
            assert(floored_at(raise, b1, a1, i));
            assert(floored_at(raise, b2, a2, i));
        }
    }
}

proof fn predicted_alike<T: Copy, R: Fn((T, T), T, T) -> (T, T), B: Fn(T) -> T>(
    turn: R,
    raise: B,
    b1: Separator<T>,
    b2: Separator<T>,
    a1: Separator<T>,
    a2: Separator<T>,
)
    requires
        steady3(turn),
        steady1(raise),
        alike(b1, b2),
        predicted(turn, raise, b1, a1),
        predicted(turn, raise, b2, a2),
    ensures
        alike(a1, a2),
{
    let rot = b1.rot@;
    let n = 2 * rot.len() as int;
    assert(n == b1.x.len());
    assert forall|k: int| 0 <= k < n implies a1.x@[k] == a2.x@[k] by {
        let o = k / 2;
        assert(state_turned_at(turn, rot, b1.x@, a1.x@, o));
        assert(state_turned_at(turn, rot, b2.x@, a2.x@, o));
        assert((a1.x@[2 * o], a1.x@[2 * o + 1]) == (a2.x@[2 * o], a2.x@[2 * o + 1]));
    }
    assert(a1.x@ =~= a2.x@);
    let (r1, c1) = choose|rows: Seq<Vec<T>>, both: Seq<Vec<T>>|
        #![trigger rows_turned(turn, rot, b1.p@, rows), columns_turned(turn, rot, rows, both)]
        {
            &&& rows_turned(turn, rot, b1.p@, rows)
            &&& columns_turned(turn, rot, rows, both)
            &&& diagonal_raised(raise, both, a1.p@, b1.p.len() as int)
        };
    let (r2, c2) = choose|rows: Seq<Vec<T>>, both: Seq<Vec<T>>|
        #![trigger rows_turned(turn, rot, b2.p@, rows), columns_turned(turn, rot, rows, both)]
        {
            &&& rows_turned(turn, rot, b2.p@, rows)
            &&& columns_turned(turn, rot, rows, both)
            &&& diagonal_raised(raise, both, a2.p@, b2.p.len() as int)
        };
    rows_alike(turn, rot, b1.p@, b2.p@, r1, r2);
    columns_alike(turn, rot, r1, r2, c1, c2);
    raised_alike(raise, c1, c2, a1.p@, a2.p@, n);
}

proof fn sums_alike<T, A: Fn(T, T) -> T>(plus: A, start: T, b1: Seq<T>, b2: Seq<T>, k: nat, r1: T, r2: T)
    requires
        steady2(plus),
        forall|i: int| 0 <= i < 2 * k ==> #[trigger] b1[i] == b2[i],
        summed(plus, start, b1, k, r1),
        summed(plus, start, b2, k, r2),
    ensures
        r1 == r2,
    decreases k,
{
    if k > 0 {
        let m1 = choose|m: T|
            summed(plus, start, b1, (k - 1) as nat, m) && #[trigger] call_ensures(plus, (m, b1[2 * (k - 1)]), r1);
        let m2 = choose|m: T|
            summed(plus, start, b2, (k - 1) as nat, m) && #[trigger] call_ensures(plus, (m, b2[2 * (k - 1)]), r2);
        sums_alike(plus, start, b1, b2, (k - 1) as nat, m1, m2);
        assert(b1[2 * (k - 1)] == b2[2 * (k - 1)]);
    }
}

proof fn observed_alike<T: Copy, A: Fn(T, T) -> T>(
    noise: T,
    plus: A,
    b1: Separator<T>,
    b2: Separator<T>,
    a1: Separator<T>,
    a2: Separator<T>,
    r1: (T, T),
    r2: (T, T),
)
    requires
        steady2(plus),
        alike(b1, b2),
        observed(noise, plus, b1, a1, r1),
        observed(noise, plus, b2, a2, r2),
    ensures
        alike(a1, a2),
        r1 == r2,
{
    let count = b1.rot.len() as nat;
    assert forall|i: int| 0 <= i < b1.x.len() implies a1.hp@[i] == a2.hp@[i] by {
        assert(summed(plus, b1.zero, b1.p[i]@, count, a1.hp[i]));
        assert(summed(plus, b2.zero, b2.p[i]@, count, a2.hp[i]));
        assert forall|j: int| 0 <= j < 2 * count implies #[trigger] b1.p[i]@[j] == b2.p[i]@[j] by {
            assert(b1.p@[i][j] == b2.p@[i][j]);
        }
        sums_alike(plus, b1.zero, b1.p[i]@, b2.p[i]@, count, a1.hp[i], a2.hp[i]);
    }
    assert(a1.hp@ =~= a2.hp@);
    sums_alike(plus, noise, a1.hp@, a2.hp@, count, r1.0, r2.0);
    sums_alike(plus, b1.zero, b1.x@, b2.x@, count, r1.1, r2.1);
}

proof fn corrected_alike<T: Copy, C: Fn(T, T, T, T) -> T, S: Fn(T, T, T, T) -> T>(
    inv: T,
    innov: T,
    correct: C,
    shrink: S,
    res2: T,
    b1: Separator<T>,
    b2: Separator<T>,
    a1: Separator<T>,
    a2: Separator<T>,
)
    requires
        steady4(correct),
        steady4(shrink),
        alike(b1, b2),
        corrected(inv, innov, correct, shrink, res2, b1, a1),
        corrected(inv, innov, correct, shrink, res2, b2, a2),
    ensures
        alike(a1, a2),
{
    let n = b1.x.len() as int;
    assert forall|i: int| 0 <= i < n implies a1.x@[i] == a2.x@[i] by {
        assert(call_ensures(correct, (b1.x[i], b1.hp[i], inv, innov), a1.x[i]));
        assert(call_ensures(correct, (b2.x[i], b2.hp[i], inv, innov), a2.x[i]));
        assert(b1.x@[i] == b2.x@[i] && b1.hp@[i] == b2.hp@[i]);
    }
    assert(a1.x@ =~= a2.x@);
    assert forall|i: int, j: int| 0 <= i < n && 0 <= j < n implies #[trigger] a1.p@[i][j] == #[trigger] a2.p@[i][j] by {
        assert(call_ensures(shrink, (b1.p[i][j], b1.hp[i], b1.hp[j], inv), a1.p[i][j]));
        assert(call_ensures(shrink, (b2.p[i][j], b2.hp[i], b2.hp[j], inv), a2.p[i][j]));
        assert(b1.p@[i][j] == b2.p@[i][j]);
        assert(b1.hp@[i] == b2.hp@[i] && b1.hp@[j] == b2.hp@[j]);
    }
}

proof fn measured_alike<
    T: Copy,
    A,
    I: Fn(T, T) -> T,
    V: Fn(T) -> T,
    W: Fn(T, T) -> T,
    C: Fn(T, T, T, T) -> T,
    S: Fn(T, T, T, T) -> T,
>(
    gain: Gain<T, A, I, V, W, C, S>,
    y: T,
    r: (T, T),
    b1: Separator<T>,
    b2: Separator<T>,
    a1: Separator<T>,
    a2: Separator<T>,
)
    requires
        steady2(gain.innovation),
        steady1(gain.invert),
        steady2(gain.power),
        steady4(gain.correct),
        steady4(gain.shrink),
        alike(b1, b2),
        measured(gain, y, r, b1, a1),
        measured(gain, y, r, b2, a2),
    ensures
        alike(a1, a2),
{
    let (n1, i1, p1) = choose|innov: T, inv: T, res2: T|
        #![trigger call_ensures(gain.invert, (r.0,), inv), call_ensures(gain.power, (b1.res2, innov), res2)]
        {
            &&& call_ensures(gain.innovation, (y, r.1), innov)
            &&& call_ensures(gain.invert, (r.0,), inv)
            &&& call_ensures(gain.power, (b1.res2, innov), res2)
            &&& corrected(inv, innov, gain.correct, gain.shrink, res2, b1, a1)
        };
    let (n2, i2, p2) = choose|innov: T, inv: T, res2: T|
        #![trigger call_ensures(gain.invert, (r.0,), inv), call_ensures(gain.power, (b2.res2, innov), res2)]
        {
            &&& call_ensures(gain.innovation, (y, r.1), innov)
            &&& call_ensures(gain.invert, (r.0,), inv)
            &&& call_ensures(gain.power, (b2.res2, innov), res2)
            &&& corrected(inv, innov, gain.correct, gain.shrink, res2, b2, a2)
        };
    assert(n1 == n2 && i1 == i2);
    assert(p1 == p2);
    corrected_alike(i1, n1, gain.correct, gain.shrink, p1, b1, b2, a1, a2);
}

/// The functions of a refinement give one value for one argument.
pub open spec fn steady_refinement<
    T,
    E: Fn(T, T) -> Real32,
    K: Fn((Real32, Real32), Real32, (T, T, T), usize) -> (Real32, Real32),
    U: Fn(Source, Real32, Real32) -> Real32,
    H: Fn(Real32, Real32) -> Real32,
>(refine: Refinement<E, K, U, H>) -> bool {
    &&& steady2(refine.energy)
    &&& steady4(refine.weigh)
    &&& steady3(refine.tune)
    &&& steady2(refine.shift)
}

proof fn drifted_alike<
    T,
    E: Fn(T, T) -> Real32,
    K: Fn((Real32, Real32), Real32, (T, T, T), usize) -> (Real32, Real32),
>(energy: E, weigh: K, phasors: Seq<(T, T, T)>, n: nat, a: (Real32, Real32), b: (Real32, Real32))
    requires
        steady2(energy),
        steady4(weigh),
        drifted(energy, weigh, phasors, n, a),
        drifted(energy, weigh, phasors, n, b),
    ensures
        a == b,
    decreases n,
{
    if n > 0 {
        let k = (n - 1) as nat;
        let p = phasors[n - 1];
        let a0 = choose|before: (Real32, Real32)|
            drifted(energy, weigh, phasors, k, before) && #[trigger] counted_in(energy, weigh, p, k as usize, before, a);
        let b0 = choose|before: (Real32, Real32)|
            drifted(energy, weigh, phasors, k, before) && #[trigger] counted_in(energy, weigh, p, k as usize, before, b);
        drifted_alike(energy, weigh, phasors, k, a0, b0);
    }
}

proof fn refined_alike<
    T,
    E: Fn(T, T) -> Real32,
    K: Fn((Real32, Real32), Real32, (T, T, T), usize) -> (Real32, Real32),
    U: Fn(Source, Real32, Real32) -> Real32,
    H: Fn(Real32, Real32) -> Real32,
>(refine: Refinement<E, K, U, H>, s: Source, phasors: Seq<(T, T, T)>, a: Option<Real32>, b: Option<Real32>)
    requires
        steady_refinement::<T, E, K, U, H>(refine),
        is_refined(refine, s, phasors, a),
        is_refined(refine, s, phasors, b),
    ensures
        a == b,
{
    let n = phasors.len();
    let sa = choose|sums: (Real32, Real32)| #[trigger]
        drifted(refine.energy, refine.weigh, phasors, n, sums) && match a {
            Some(f) => (Real32 { bits: LEAST_ENERGY }).below(sums.1) && pulled(refine.tune, refine.shift, s, sums, f),
            None => !(Real32 { bits: LEAST_ENERGY }).below(sums.1),
        };
    let sb = choose|sums: (Real32, Real32)| #[trigger]
        drifted(refine.energy, refine.weigh, phasors, n, sums) && match b {
            Some(f) => (Real32 { bits: LEAST_ENERGY }).below(sums.1) && pulled(refine.tune, refine.shift, s, sums, f),
            None => !(Real32 { bits: LEAST_ENERGY }).below(sums.1),
        };
    drifted_alike(refine.energy, refine.weigh, phasors, n, sa, sb);
}

proof fn served_alike_at<
    T: Copy,
    E: Fn(T, T) -> Real32,
    K: Fn((Real32, Real32), Real32, (T, T, T), usize) -> (Real32, Real32),
    U: Fn(Source, Real32, Real32) -> Real32,
    H: Fn(Real32, Real32) -> Real32,
    A: Fn(Real32, usize) -> T,
    D: Fn(T) -> (T, T),
>(
    refine: Refinement<E, K, U, H>,
    angle: A,
    direction: D,
    b1: Separator<T>,
    b2: Separator<T>,
    a1: Separator<T>,
    a2: Separator<T>,
    si: int,
    m: int,
)
    requires
        steady_refinement::<T, E, K, U, H>(refine),
        steady2(angle),
        steady1(direction),
        alike(b1, b2),
        0 <= si < b1.sources.len(),
        0 <= m < HARMONICS,
        served_at(refine, angle, direction, b1, a1, si),
        served_at(refine, angle, direction, b2, a2, si),
    ensures
        a1.sources@[si] == a2.sources@[si],
        a1.theta@[si * HARMONICS + m] == a2.theta@[si * HARMONICS + m],
        a1.rot@[si * HARMONICS + m] == a2.rot@[si * HARMONICS + m],
{
    let o = si * HARMONICS + m;
    let v1 = source_phasors(b1.x@, b1.ref_phase@, si);
    let f1 = choose|answer: Option<Real32>|
        #![trigger is_refined(refine, b1.sources[si], v1, answer)]
        {
            &&& is_refined(refine, b1.sources[si], v1, answer)
            &&& match answer {
                Some(freq) => {
                    &&& a1.sources[si] == (Source { seed: b1.sources[si].seed, freq })
                    &&& forall|m: int|
                        0 <= m < HARMONICS ==> #[trigger] rotates_at(
                            angle,
                            direction,
                            a1.sources[si],
                            a1.theta@,
                            a1.rot@,
                            si,
                            m,
                        )
                },
                None => {
                    &&& a1.sources[si] == b1.sources[si]
                    &&& forall|o: int|
                        si * HARMONICS <= o < si * HARMONICS + HARMONICS ==> {
                            &&& #[trigger] a1.theta[o] == b1.theta[o]
                            &&& a1.rot[o] == b1.rot[o]
                        }
                },
            }
        };
    let v2 = source_phasors(b2.x@, b2.ref_phase@, si);
    let f2 = choose|answer: Option<Real32>|
        #![trigger is_refined(refine, b2.sources[si], v2, answer)]
        {
            &&& is_refined(refine, b2.sources[si], v2, answer)
            &&& match answer {
                Some(freq) => {
                    &&& a2.sources[si] == (Source { seed: b2.sources[si].seed, freq })
                    &&& forall|m: int|
                        0 <= m < HARMONICS ==> #[trigger] rotates_at(
                            angle,
                            direction,
                            a2.sources[si],
                            a2.theta@,
                            a2.rot@,
                            si,
                            m,
                        )
                },
                None => {
                    &&& a2.sources[si] == b2.sources[si]
                    &&& forall|o: int|
                        si * HARMONICS <= o < si * HARMONICS + HARMONICS ==> {
                            &&& #[trigger] a2.theta[o] == b2.theta[o]
                            &&& a2.rot[o] == b2.rot[o]
                        }
                },
            }
        };
    assert(b1.sources@[si] == b2.sources@[si]);
    assert(v1 == v2);
    refined_alike(refine, b1.sources[si], v1, f1, f2);
    assert(a1.sources@[si] == a2.sources@[si]);
    if f1 is Some {
        assert(rotates_at(angle, direction, a1.sources[si], a1.theta@, a1.rot@, si, m));
        assert(rotates_at(angle, direction, a2.sources[si], a2.theta@, a2.rot@, si, m));
    } else {
        assert(a1.theta[o] == b1.theta[o]);
        assert(a2.theta[o] == b2.theta[o]);
        assert(b1.theta@[o] == b2.theta@[o]);
        assert(b1.rot@[o] == b2.rot@[o]);
    }
}

proof fn served_alike<
    T: Copy,
    E: Fn(T, T) -> Real32,
    K: Fn((Real32, Real32), Real32, (T, T, T), usize) -> (Real32, Real32),
    U: Fn(Source, Real32, Real32) -> Real32,
    H: Fn(Real32, Real32) -> Real32,
    A: Fn(Real32, usize) -> T,
    D: Fn(T) -> (T, T),
    P: Fn(T, T, T) -> T,
>(
    refine: Refinement<E, K, U, H>,
    angle: A,
    direction: D,
    phase: P,
    b1: Separator<T>,
    b2: Separator<T>,
    a1: Separator<T>,
    a2: Separator<T>,
)
    requires
        steady_refinement::<T, E, K, U, H>(refine),
        steady2(angle),
        steady1(direction),
        steady3(phase),
        alike(b1, b2),
        served(refine, angle, direction, phase, b1, a1),
        served(refine, angle, direction, phase, b2, a2),
    ensures
        alike(a1, a2),
{
    let sources = b1.sources.len() as int;
    let oscillators = b1.theta.len() as int;
    assert forall|si: int| 0 <= si < sources implies a1.sources@[si] == a2.sources@[si] by {
        assert(served_at(refine, angle, direction, b1, a1, si));
        assert(served_at(refine, angle, direction, b2, a2, si));
        served_alike_at(refine, angle, direction, b1, b2, a1, a2, si, 0);
    }
    assert(a1.sources@ =~= a2.sources@);
    assert forall|o: int| 0 <= o < oscillators implies a1.theta@[o] == a2.theta@[o] by {
        let si = o / HARMONICS as int;
        let m = o % HARMONICS as int;
        assert(served_at(refine, angle, direction, b1, a1, si));
        assert(served_at(refine, angle, direction, b2, a2, si));
        served_alike_at(refine, angle, direction, b1, b2, a1, a2, si, m);
    }
    assert forall|o: int| 0 <= o < oscillators implies a1.rot@[o] == a2.rot@[o] by {
        let si = o / HARMONICS as int;
        let m = o % HARMONICS as int;
        assert(served_at(refine, angle, direction, b1, a1, si));
        assert(served_at(refine, angle, direction, b2, a2, si));
        served_alike_at(refine, angle, direction, b1, b2, a1, a2, si, m);
    }
    assert(a1.theta@ =~= a2.theta@);
    assert(a1.rot@ =~= a2.rot@);
    assert forall|o: int| 0 <= o < oscillators implies a1.ref_phase@[o] == a2.ref_phase@[o] by {
        assert(phase_set_at(phase, b1.x@, a1.theta@, a1.ref_phase@, o));
        assert(phase_set_at(phase, b2.x@, a2.theta@, a2.ref_phase@, o));
    }
    assert(a1.ref_phase@ =~= a2.ref_phase@);
}

proof fn rebalanced_alike<T: Copy, M: Fn(T, T) -> T, F: Fn(T) -> T>(
    average: M,
    floor: F,
    b1: Separator<T>,
    b2: Separator<T>,
    a1: Separator<T>,
    a2: Separator<T>,
)
    requires
        steady2(average),
        steady1(floor),
        alike(b1, b2),
        rebalanced(average, floor, b1, a1),
        rebalanced(average, floor, b2, a2),
    ensures
        alike(a1, a2),
{
    let n = b1.x.len() as int;
    assert forall|i: int, j: int| 0 <= i < n && 0 <= j < n implies #[trigger] a1.p@[i][j] == #[trigger] a2.p@[i][j] by {
        assert(b1.p@[i][j] == b2.p@[i][j]);
        assert(b1.p@[j][i] == b2.p@[j][i]);
        if i < j {
            assert(balanced_at(average, b1.p@, a1.p@, i, j));
            assert(balanced_at(average, b2.p@, a2.p@, i, j));
        } else if j < i {
            assert(balanced_at(average, b1.p@, a1.p@, j, i));
            assert(balanced_at(average, b2.p@, a2.p@, j, i));
        } else {
            assert(floored_at(floor, b1.p@, a1.p@, i));
            assert(floored_at(floor, b2.p@, a2.p@, i));
        }
    }
}

proof fn settled_alike<
    T: Copy,
    E: Fn(T, T) -> Real32,
    K: Fn((Real32, Real32), Real32, (T, T, T), usize) -> (Real32, Real32),
    U: Fn(Source, Real32, Real32) -> Real32,
    H: Fn(Real32, Real32) -> Real32,
    N: Fn(Real32, usize) -> T,
    D: Fn(T) -> (T, T),
    P: Fn(T, T, T) -> T,
    M: Fn(T, T) -> T,
    F: Fn(T) -> T,
>(
    pull: Pull<Refinement<E, K, U, H>, N, D, P>,
    repair: Repair<M, F>,
    b1: Separator<T>,
    b2: Separator<T>,
    a1: Separator<T>,
    a2: Separator<T>,
)
    requires
        steady_pull(pull),
        steady_repair(repair),
        alike(b1, b2),
        settled(pull, repair, b1, a1),
        settled(pull, repair, b2, a2),
    ensures
        alike(a1, a2),
{
    let m1 = choose|moved: Separator<T>| #[trigger]
        served(pull.refine, pull.angle, pull.direction, pull.phase, b1, moved) && rebalanced(
            repair.average,
            repair.floor,
            moved,
            a1,
        );
    let m2 = choose|moved: Separator<T>| #[trigger]
        served(pull.refine, pull.angle, pull.direction, pull.phase, b2, moved) && rebalanced(
            repair.average,
            repair.floor,
            moved,
            a2,
        );
    served_alike(pull.refine, pull.angle, pull.direction, pull.phase, b1, b2, m1, m2);
    rebalanced_alike(repair.average, repair.floor, m1, m2, a1, a2);
}

/// The functions of the model give one value for one argument.
pub open spec fn steady_motion<T, R: Fn((T, T), T, T) -> (T, T), B: Fn(T) -> T>(motion: Motion<R, B>) -> bool {
    steady3(motion.turn) && steady1(motion.raise)
}

/// The functions of the correction give one value for one argument.
pub open spec fn steady_gain<
    T: Copy,
    A: Fn(T, T) -> T,
    I: Fn(T, T) -> T,
    V: Fn(T) -> T,
    W: Fn(T, T) -> T,
    C: Fn(T, T, T, T) -> T,
    S: Fn(T, T, T, T) -> T,
>(gain: Gain<T, A, I, V, W, C, S>) -> bool {
    &&& steady2(gain.plus)
    &&& steady2(gain.innovation)
    &&& steady1(gain.invert)
    &&& steady2(gain.power)
    &&& steady4(gain.correct)
    &&& steady4(gain.shrink)
}

/// The functions of the frequency servo give one value for one argument.
pub open spec fn steady_pull<
    T,
    E: Fn(T, T) -> Real32,
    K: Fn((Real32, Real32), Real32, (T, T, T), usize) -> (Real32, Real32),
    U: Fn(Source, Real32, Real32) -> Real32,
    H: Fn(Real32, Real32) -> Real32,
    N: Fn(Real32, usize) -> T,
    D: Fn(T) -> (T, T),
    P: Fn(T, T, T) -> T,
>(pull: Pull<Refinement<E, K, U, H>, N, D, P>) -> bool {
    &&& steady_refinement::<T, E, K, U, H>(pull.refine)
    &&& steady2(pull.angle)
    &&& steady1(pull.direction)
    &&& steady3(pull.phase)
}

/// The functions that repair the covariance give one value for one argument.
pub open spec fn steady_repair<T, M: Fn(T, T) -> T, F: Fn(T) -> T>(repair: Repair<M, F>) -> bool {
    steady2(repair.average) && steady1(repair.floor)
}

proof fn stepped_alike<
    T: Copy,
    R: Fn((T, T), T, T) -> (T, T),
    B: Fn(T) -> T,
    A: Fn(T, T) -> T,
    I: Fn(T, T) -> T,
    V: Fn(T) -> T,
    W: Fn(T, T) -> T,
    C: Fn(T, T, T, T) -> T,
    S: Fn(T, T, T, T) -> T,
    E: Fn(T, T) -> Real32,
    K: Fn((Real32, Real32), Real32, (T, T, T), usize) -> (Real32, Real32),
    U: Fn(Source, Real32, Real32) -> Real32,
    H: Fn(Real32, Real32) -> Real32,
    N: Fn(Real32, usize) -> T,
    D: Fn(T) -> (T, T),
    P: Fn(T, T, T) -> T,
    M: Fn(T, T) -> T,
    F: Fn(T) -> T,
>(
    motion: Motion<R, B>,
    gain: Gain<T, A, I, V, W, C, S>,
    pull: Pull<Refinement<E, K, U, H>, N, D, P>,
    repair: Repair<M, F>,
    y: T,
    b1: Separator<T>,
    b2: Separator<T>,
    a1: Separator<T>,
    a2: Separator<T>,
)
    requires
        steady_motion(motion),
        steady_gain(gain),
        steady_pull(pull),
        steady_repair(repair),
        alike(b1, b2),
        stepped(motion, gain, pull, repair, y, b1, a1),
        stepped(motion, gain, pull, repair, y, b2, a2),
    ensures
        alike(a1, a2),
{
    let (t1, s1, r1, m1, c1) = choose|
        turned: Separator<T>,
        seen: Separator<T>,
        r: (T, T),
        told: Separator<T>,
        counted: Separator<T>,
    |
        #![trigger predicted(motion.turn, motion.raise, b1, turned), observed(gain.noise, gain.plus, turned, seen, r), measured(gain, y, r, seen, told), advanced(told, counted)]
        {
            &&& predicted(motion.turn, motion.raise, b1, turned)
            &&& observed(gain.noise, gain.plus, turned, seen, r)
            &&& measured(gain, y, r, seen, told)
            &&& advanced(told, counted)
            &&& if told.sub_fill + 1 == SUB {
                settled(pull, repair, counted, a1)
            } else {
                a1 == counted
            }
        };
    let (t2, s2, r2, m2, c2) = choose|
        turned: Separator<T>,
        seen: Separator<T>,
        r: (T, T),
        told: Separator<T>,
        counted: Separator<T>,
    |
        #![trigger predicted(motion.turn, motion.raise, b2, turned), observed(gain.noise, gain.plus, turned, seen, r), measured(gain, y, r, seen, told), advanced(told, counted)]
        {
            &&& predicted(motion.turn, motion.raise, b2, turned)
            &&& observed(gain.noise, gain.plus, turned, seen, r)
            &&& measured(gain, y, r, seen, told)
            &&& advanced(told, counted)
            &&& if told.sub_fill + 1 == SUB {
                settled(pull, repair, counted, a2)
            } else {
                a2 == counted
            }
        };
    predicted_alike(motion.turn, motion.raise, b1, b2, t1, t2);
    observed_alike(gain.noise, gain.plus, t1, t2, s1, s2, r1, r2);
    measured_alike(gain, y, r1, s1, s2, m1, m2);
    assert(alike(c1, c2));
    if m1.sub_fill + 1 == SUB {
        settled_alike(pull, repair, c1, c2, a1, a2);
    }
}

/// Filtering a stream again from the same state gives the same state, if the functions
/// that are handed in give one value for one argument.
pub proof fn replay_gives_the_same<
    T: Copy,
    R: Fn((T, T), T, T) -> (T, T),
    B: Fn(T) -> T,
    A: Fn(T, T) -> T,
    I: Fn(T, T) -> T,
    V: Fn(T) -> T,
    W: Fn(T, T) -> T,
    C: Fn(T, T, T, T) -> T,
    S: Fn(T, T, T, T) -> T,
    E: Fn(T, T) -> Real32,
    K: Fn((Real32, Real32), Real32, (T, T, T), usize) -> (Real32, Real32),
    U: Fn(Source, Real32, Real32) -> Real32,
    H: Fn(Real32, Real32) -> Real32,
    N: Fn(Real32, usize) -> T,
    D: Fn(T) -> (T, T),
    P: Fn(T, T, T) -> T,
    M: Fn(T, T) -> T,
    F: Fn(T) -> T,
>(
    motion: Motion<R, B>,
    gain: Gain<T, A, I, V, W, C, S>,
    pull: Pull<Refinement<E, K, U, H>, N, D, P>,
    repair: Repair<M, F>,
    samples: Seq<T>,
    n: nat,
    b1: Separator<T>,
    b2: Separator<T>,
    a1: Separator<T>,
    a2: Separator<T>,
)
    requires
        steady_motion(motion),
        steady_gain(gain),
        steady_pull(pull),
        steady_repair(repair),
        alike(b1, b2),
        processed(motion, gain, pull, repair, samples, n, b1, a1),
        processed(motion, gain, pull, repair, samples, n, b2, a2),
    ensures
        alike(a1, a2),
    decreases n,
{
    if n > 0 {
        let m1 = choose|mid: Separator<T>|
            processed(motion, gain, pull, repair, samples, (n - 1) as nat, b1, mid) && #[trigger] stepped(
                motion,
                gain,
                pull,
                repair,
                samples[n - 1],
                mid,
                a1,
            );
        let m2 = choose|mid: Separator<T>|
            processed(motion, gain, pull, repair, samples, (n - 1) as nat, b2, mid) && #[trigger] stepped(
                motion,
                gain,
                pull,
                repair,
                samples[n - 1],
                mid,
                a2,
            );
        replay_gives_the_same(motion, gain, pull, repair, samples, (n - 1) as nat, b1, b2, m1, m2);
        stepped_alike(motion, gain, pull, repair, samples[n - 1], m1, m2, a1, a2);
    }
}

/// However a stream is cut in two, the bank ends up in the same state as after the whole
/// stream in one go, if the functions that are handed in give one value for one
/// argument.
pub proof fn cuts_give_the_same<
    T: Copy,
    R: Fn((T, T), T, T) -> (T, T),
    B: Fn(T) -> T,
    A: Fn(T, T) -> T,
    I: Fn(T, T) -> T,
    V: Fn(T) -> T,
    W: Fn(T, T) -> T,
    C: Fn(T, T, T, T) -> T,
    S: Fn(T, T, T, T) -> T,
    E: Fn(T, T) -> Real32,
    K: Fn((Real32, Real32), Real32, (T, T, T), usize) -> (Real32, Real32),
    U: Fn(Source, Real32, Real32) -> Real32,
    H: Fn(Real32, Real32) -> Real32,
    N: Fn(Real32, usize) -> T,
    D: Fn(T) -> (T, T),
    P: Fn(T, T, T) -> T,
    M: Fn(T, T) -> T,
    F: Fn(T) -> T,
>(
    motion: Motion<R, B>,
    gain: Gain<T, A, I, V, W, C, S>,
    pull: Pull<Refinement<E, K, U, H>, N, D, P>,
    repair: Repair<M, F>,
    first: Seq<T>,
    second: Seq<T>,
    before: Separator<T>,
    mid: Separator<T>,
    cut: Separator<T>,
    whole: Separator<T>,
)
    requires
        steady_motion(motion),
        steady_gain(gain),
        steady_pull(pull),
        steady_repair(repair),
        before.well_formed(),
        processed(motion, gain, pull, repair, first, first.len(), before, mid),
        processed(motion, gain, pull, repair, second, second.len(), mid, cut),
        processed(motion, gain, pull, repair, first + second, first.len() + second.len(), before, whole),
    ensures
        alike(cut, whole),
{
    blocks_do_not_matter(motion, gain, pull, repair, first, second, second.len(), before, mid, cut);
    let n = first.len() + second.len();
    replay_gives_the_same(motion, gain, pull, repair, first + second, n, before, before, cut, whole);
}

/// Banks in the same state read alike: their sources have the same fundamentals,
/// amplitudes and levels, and what they leave unexplained has the same power, if the
/// functions that are handed in give one value for one argument.
pub proof fn like_banks_read_alike<T: Copy, A: Fn(T, T) -> Real32, L: Fn(Vec<Real32>) -> Real32>(
    amplitude: A,
    level: L,
    a: Separator<T>,
    b: Separator<T>,
    si: int,
    x: SourceReading,
    y: SourceReading,
)
    requires
        steady2(amplitude),
        forall|v: Vec<Real32>, w: Vec<Real32>, p: Real32, q: Real32|
            v@ == w@ && #[trigger] call_ensures(level, (v,), p) && #[trigger] call_ensures(level, (w,), q) ==> p == q,
        alike(a, b),
        0 <= si < a.sources.len(),
        reads(amplitude, level, a, si, x),
        reads(amplitude, level, b, si, y),
    ensures
        x.freq == y.freq,
        x.amps@ == y.amps@,
        x.level == y.level,
        a.res2 == b.res2,
{
    assert(a.sources@[si] == b.sources@[si]);
    let phasors = source_phasors(a.x@, a.ref_phase@, si);
    assert forall|m: int| 0 <= m < HARMONICS implies x.amps@[m] == y.amps@[m] by {
        assert(call_ensures(amplitude, (phasors[m].0, phasors[m].1), x.amps[m]));
        assert(call_ensures(amplitude, (phasors[m].0, phasors[m].1), y.amps[m]));
    }
    assert(x.amps@ =~= y.amps@);
}

} // verus!
