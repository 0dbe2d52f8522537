//! What the oscillator bank follows, and how it computes.

use vstd::prelude::*;

use crate::dsp::bank::{advanced, measured, processed, reads, settled, stepped};
use crate::dsp::bank::{Gain, Motion, Pull, Repair, SourceReading};
use crate::dsp::drift::{clamped, counted_in, drifted, is_refined, pulled, Refinement};
use crate::dsp::duet::refined;
use crate::dsp::kalman::{
    balanced_at, columns_turned, columns_turned_at, corrected, diagonal_raised, floored_at, observed, phase_set_at,
    predicted, rebalanced, restarted, rotates_at, rows_turned, rows_turned_at, served, served_at, source_phasors,
    state_turned_at, summed,
};
use crate::dsp::separate::{
    block_cell, carried, distinct, first_match, matches_of, picked, reseeded, Separator, Source,
};
use crate::ieee::Real32;
use crate::table::{is_row, is_table};

verus! {

/// A frequency that is offered becomes a seed exactly if it is above zero, more than 60
/// cents, sharp or flat, from every seed before it, and there are fewer than two of them.
pub proof fn frequencies_become_seeds(freqs: Seq<Real32>, between: Seq<Vec<Real32>>, k: int)
    requires
        0 <= k < freqs.len() <= usize::MAX,
    ensures
        picked(freqs, between, 0).len() == 0,
        ({
            let before = picked(freqs, between, k);
            let taken = before.len() < 2 && (Real32 { bits: 0 }).below(freqs[k]) && forall|q: int|
                0 <= q < before.len() ==> (Real32 { bits: 0x4270_0000 }).below(
                    between[k][(#[trigger] before[q]) as int].unsigned(),
                );
            &&& taken ==> picked(freqs, between, k + 1) == before.push(k as usize)
            &&& !taken ==> picked(freqs, between, k + 1) == before
        }),
{
}

/// A seed continues the first source that is below 30 cents from it, sharp or flat, and
/// none if there is none.
pub proof fn seeds_continue_near_sources(row: Seq<Real32>, from: int, j: int)
    requires
        0 <= from <= j < row.len() <= usize::MAX,
    ensures
        match first_match(row, from) {
            Some(m) => {
                &&& from <= m < row.len()
                &&& row[m as int].unsigned().below(Real32 { bits: 0x41f0_0000 })
                &&& j < m ==> !row[j].unsigned().below(Real32 { bits: 0x41f0_0000 })
            },
            None => !row[j].unsigned().below(Real32 { bits: 0x41f0_0000 }),
        },
    decreases row.len() - from,
{
    if !row[from].unsigned().below(Real32 { bits: 0x41f0_0000 }) && from + 1 < row.len() {
        if from < j {
            seeds_continue_near_sources(row, from + 1, j);
        } else {
            seeds_continue_near_sources(row, from + 1, from + 1);
        }
    } else if !row[from].unsigned().below(Real32 { bits: 0x41f0_0000 }) {
        assert(first_match(row, from + 1) is None);
    }
}

/// The bank is kept as it is exactly if every source is continued by one seed and there
/// are as many seeds as sources; then the sources only get their new seeds. Otherwise it
/// is rebuilt: a source per seed, in order, with the fundamental and the phasors of the
/// source that it continues, unless two seeds continue one; all others start at their
/// seed with phasors of zero. The covariance starts anew.
pub proof fn sources_follow_the_seeds<T: Copy>(
    freqs: Seq<Real32>,
    between: Seq<Vec<Real32>>,
    to_source: Seq<Vec<Real32>>,
    before: Separator<T>,
    after: Separator<T>,
    rebuilt: bool,
    i: int,
    c: int,
    k: int,
)
    requires
        reseeded(freqs, between, to_source, before, after, rebuilt),
        0 <= i < picked(freqs, between, freqs.len() as int).len(),
        0 <= c < 10,
        0 <= k < 10 * picked(freqs, between, freqs.len() as int).len(),
    ensures
        ({
            let seeds = picked(freqs, between, freqs.len() as int);
            let of = |a: int| first_match(to_source[seeds[a] as int]@, 0);
            let twice = exists|a: int, b: int|
                #![trigger of(a), of(b)]
                0 <= a < b < seeds.len() && of(a) is Some && of(a) == of(b);
            let kept = seeds.len() == before.sources.len() && !twice && forall|a: int|
                0 <= a < seeds.len() ==> (#[trigger] of(a)) is Some;
            &&& rebuilt == !kept
            &&& !rebuilt ==> {
                &&& after.sources.len() == before.sources.len()
                &&& after.sources[of(i)->0 as int].seed == freqs[seeds[i] as int]
                &&& forall|j: int|
                    0 <= j < before.sources.len() ==> (#[trigger] after.sources[j]).freq == before.sources[j].freq
                &&& after.x@ == before.x@
                &&& after.p@ == before.p@
                &&& after.rot@ == before.rot@
                &&& after.theta@ == before.theta@
                &&& after.ref_phase@ == before.ref_phase@
                &&& after.sub_fill == before.sub_fill
            }
            &&& rebuilt ==> {
                &&& after.sources.len() == seeds.len()
                &&& after.x.len() == 10 * seeds.len()
                &&& after.sources[i].seed == freqs[seeds[i] as int]
                &&& !twice && of(i) is Some ==> after.sources[i].freq == before.sources[of(i)->0 as int].freq
                    && after.x@[10 * i + c] == before.x@[10 * of(i)->0 + c]
                &&& twice || of(i) is None ==> after.sources[i].freq == freqs[seeds[i] as int] && after.x@[10 * i + c]
                    == before.zero
                &&& after.p.len() == 10 * seeds.len()
                &&& after.p@[10 * i + c]@.len() == 10 * seeds.len()
                &&& after.p@[10 * i + c][k] == (if k == 10 * i + c {
                    before.init_var
                } else {
                    before.zero
                })
                &&& after.sub_fill == 0
            }
            &&& after.res2 == before.res2
        }),
{
    let seeds = picked(freqs, between, freqs.len() as int);
    let matches = matches_of(seeds, to_source);
    let of = |a: int| first_match(to_source[seeds[a] as int]@, 0);
    assert forall|a: int| 0 <= a < seeds.len() implies #[trigger] matches[a] == of(a) by {}
    let twice = exists|a: int, b: int|
        #![trigger of(a), of(b)]
        0 <= a < b < seeds.len() && of(a) is Some && of(a) == of(b);
    if twice {
        let (a, b) = choose|a: int, b: int|
            #![trigger of(a), of(b)]
            0 <= a < b < seeds.len() && of(a) is Some && of(a) == of(b);
        assert(matches[a] == matches[b]);
        assert(!distinct(matches));
    } else {
        assert forall|a: int, b: int| 0 <= a < b < matches.len() && (#[trigger] matches[a]) is Some implies matches[a]
            != (#[trigger] matches[b]) by {
            assert(matches[a] == of(a) && matches[b] == of(b));
        }
        assert(distinct(matches));
    }
    let all = forall|a: int| 0 <= a < seeds.len() ==> (#[trigger] of(a)) is Some;
    if all {
        assert forall|a: int| 0 <= a < matches.len() implies (#[trigger] matches[a]) is Some by {
            assert(of(a) is Some);
        }
    } else {
        let a = choose|a: int| 0 <= a < seeds.len() && !((#[trigger] of(a)) is Some);
        assert(!(matches[a] is Some));
    }
    assert(matches[i] == of(i));
    if rebuilt {
        assert(after.rebuilt_from(&before, freqs, seeds, matches));
        assert(after.sources[i].seed == freqs[seeds[i] as int]);
        assert(block_cell(after.x@, i, c) == match carried(matches, i) {
            Some(j) => block_cell(before.x@, j as int, c),
            None => before.zero,
        });
        assert(after.p@[10 * i + c].len() == 10 * seeds.len());
    }
}

/// Distances are measured between every pair, the first from the second, and the
/// sources are known by their refined fundamentals.
pub proof fn every_pair_is_measured<C: Fn(Real32, Real32) -> Real32>(
    between: C,
    from: Seq<Real32>,
    to: Seq<Real32>,
    table: Seq<Vec<Real32>>,
    sources: Seq<Source>,
    i: int,
    j: int,
)
    requires
        is_table(between, from, to, table),
        0 <= i < from.len(),
        0 <= j < to.len(),
    ensures
        table.len() == from.len(),
        table[i].len() == to.len(),
        call_ensures(between, (from[i], to[j]), table[i][j]),
        refined(sources).len() == sources.len(),
        j < sources.len() ==> refined(sources)[j] == sources[j].freq,
{
    assert(is_row(between, from[i], to, table[i]@));
    assert(call_ensures(between, (from[i], to[j]), table[i]@[j]));
}

/// A step of the model turns every phasor, and the covariance from both sides: its rows by
/// the oscillator they belong to, then its columns; then every cell of the diagonal is
/// raised, and no other changes.
pub proof fn prediction_turns_everything<T: Copy, R: Fn((T, T), T, T) -> (T, T), B: Fn(T) -> T>(
    turn: R,
    raise: B,
    before: Separator<T>,
    after: Separator<T>,
    o: int,
    i: int,
    j: int,
) -> (r: (Seq<Vec<T>>, Seq<Vec<T>>))
    requires
        before.well_formed(),
        predicted(turn, raise, before, after),
        0 <= o < before.rot.len(),
        0 <= i < before.x.len(),
        0 <= j < before.x.len(),
    ensures
        after.sources@ == before.sources@,
        after.rot@ == before.rot@,
        after.theta@ == before.theta@,
        after.ref_phase@ == before.ref_phase@,
        after.sub_fill == before.sub_fill,
        after.res2 == before.res2,
        call_ensures(
            turn,
            (before.rot[o], before.x[2 * o], before.x[2 * o + 1]),
            (after.x[2 * o], after.x[2 * o + 1]),
        ),
        call_ensures(
            turn,
            (before.rot[o], before.p[2 * o][j], before.p[2 * o + 1][j]),
            (r.0[2 * o][j], r.0[2 * o + 1][j]),
        ),
        call_ensures(
            turn,
            (before.rot[o], r.0[i][2 * o], r.0[i][2 * o + 1]),
            (r.1[i][2 * o], r.1[i][2 * o + 1]),
        ),
        i == j ==> call_ensures(raise, (r.1[i][i],), after.p[i][i]),
        i != j ==> after.p[i][j] == r.1[i][j],
{
    let rot = before.rot@;
    let (rows, both) = choose|rows: Seq<Vec<T>>, both: Seq<Vec<T>>|
        #![trigger rows_turned(turn, rot, before.p@, rows), columns_turned(turn, rot, rows, both)]
        {
            &&& rows_turned(turn, rot, before.p@, rows)
            &&& columns_turned(turn, rot, rows, both)
            &&& diagonal_raised(raise, both, after.p@, before.p.len() as int)
        };
    assert(state_turned_at(turn, rot, before.x@, after.x@, o));
    assert(rows_turned_at(turn, rot, before.p@, rows, o, j));
    assert(columns_turned_at(turn, rot, rows, both, i, o));
    if i == j {
        assert(floored_at(raise, both, after.p@, i));
    } else {
        assert(after.p@[i][j] == both[i][j]);
    }
    (rows, both)
}

/// The sum over the cosine cells takes in every oscillator once, from its start on.
pub proof fn every_oscillator_is_summed<T, A: Fn(T, T) -> T>(plus: A, start: T, cells: Seq<T>, k: nat, r: T)
    requires
        summed(plus, start, cells, k, r),
    ensures
        k == 0 ==> r == start,
        k > 0 ==> exists|m: T|
            summed(plus, start, cells, (k - 1) as nat, m) && #[trigger] call_ensures(plus, (m, cells[2 * k - 2]), r),
{
    if k > 0 {
        let m = choose|m: T|
            summed(plus, start, cells, (k - 1) as nat, m) && #[trigger] call_ensures(plus, (m, cells[2 * (k - 1)]), r);
        assert(call_ensures(plus, (m, cells[2 * k - 2]), r));
    }
}

/// An observation sums every row of the covariance, then these sums from the noise on, and
/// the phasors: all oscillators each time, and changes nothing else.
pub proof fn observation_sums_everything<T: Copy, A: Fn(T, T) -> T>(
    noise: T,
    plus: A,
    before: Separator<T>,
    after: Separator<T>,
    r: (T, T),
    i: int,
)
    requires
        before.well_formed(),
        observed(noise, plus, before, after, r),
        0 <= i < before.x.len(),
    ensures
        summed(plus, before.zero, before.p[i]@, (5 * before.sources.len()) as nat, after.hp[i]),
        summed(plus, noise, after.hp@, (5 * before.sources.len()) as nat, r.0),
        summed(plus, before.zero, before.x@, (5 * before.sources.len()) as nat, r.1),
        after.x@ == before.x@,
        after.p@ == before.p@,
        after.res2 == before.res2,
        after.sources@ == before.sources@,
{
    assert(summed(plus, before.zero, before.p[i]@, before.rot.len() as nat, after.hp[i]));
}

/// A sample corrects every cell: the innovation is of the sample and the predicted sum,
/// the gain of the predicted variance, and the power of the innovation.
pub proof fn sample_corrects_every_cell<
    T: Copy,
    A,
    I: Fn(T, T) -> T,
    V: Fn(T) -> T,
    W: Fn(T, T) -> T,
    C: Fn(T, T, T, T) -> T,
    S: Fn(T, T, T, T) -> T,
>(
    gain: Gain<T, A, I, V, W, C, S>,
    y: T,
    r: (T, T),
    before: Separator<T>,
    after: Separator<T>,
    i: int,
    j: int,
) -> (w: (T, T))
    requires
        measured(gain, y, r, before, after),
        0 <= i < before.x.len(),
        0 <= j < before.x.len(),
    ensures
        call_ensures(gain.innovation, (y, r.1), w.0),
        call_ensures(gain.invert, (r.0,), w.1),
        call_ensures(gain.power, (before.res2, w.0), after.res2),
        call_ensures(gain.correct, (before.x[i], before.hp[i], w.1, w.0), after.x[i]),
        call_ensures(gain.shrink, (before.p[i][j], before.hp[i], before.hp[j], w.1), after.p[i][j]),
        after.sources@ == before.sources@,
        after.rot@ == before.rot@,
        after.sub_fill == before.sub_fill,
{
    let (innov, inv, res2) = choose|innov: T, inv: T, res2: T|
        #![trigger call_ensures(gain.invert, (r.0,), inv), call_ensures(gain.power, (before.res2, innov), res2)]
        {
            &&& call_ensures(gain.innovation, (y, r.1), innov)
            &&& call_ensures(gain.invert, (r.0,), inv)
            &&& call_ensures(gain.power, (before.res2, innov), res2)
            &&& corrected(inv, innov, gain.correct, gain.shrink, res2, before, after)
        };
    assert(corrected(inv, innov, gain.correct, gain.shrink, res2, before, after));
    assert(call_ensures(gain.correct, (before.x[i], before.hp[i], inv, innov), after.x[i]));
    assert(call_ensures(gain.shrink, (before.p[i][j], before.hp[i], before.hp[j], inv), after.p[i][j]));
    (innov, inv)
}

/// The repair makes the covariance symmetric by averaging every two mirrored cells, and
/// floors every variance.
pub proof fn repair_balances_every_cell<T: Copy, M: Fn(T, T) -> T, F: Fn(T) -> T>(
    average: M,
    floor: F,
    before: Separator<T>,
    after: Separator<T>,
    i: int,
    j: int,
)
    requires
        rebalanced(average, floor, before, after),
        0 <= i < j < before.x.len(),
    ensures
        after.p[i][j] == after.p[j][i],
        call_ensures(average, (before.p[i][j], before.p[j][i]), after.p[i][j]),
        call_ensures(floor, (before.p[i][i],), after.p[i][i]),
        call_ensures(floor, (before.p[j][j],), after.p[j][j]),
        after.x@ == before.x@,
        after.sources@ == before.sources@,
{
    assert(balanced_at(average, before.p@, after.p@, i, j));
    assert(floored_at(floor, before.p@, after.p@, i));
    assert(floored_at(floor, before.p@, after.p@, j));
}

/// At a boundary every source is refined by its own five phasors. Where they speak for a
/// frequency it has it, with the rotations of all its harmonics; else it is as it was.
/// Then every reference phase is set.
pub proof fn servo_refines_every_source<
    T: Copy,
    E: Fn(T, T) -> Real32,
    K: Fn((Real32, Real32), Real32, (T, T, T), usize) -> (Real32, Real32),
    U: Fn(Source, Real32, Real32) -> Real32,
    H: Fn(Real32, Real32) -> Real32,
    A: Fn(Real32, usize) -> T,
    D: Fn(T) -> (T, T),
    P: Fn(T, T, T) -> T,
>(
    refine: Refinement<E, K, U, H>,
    angle: A,
    direction: D,
    phase: P,
    before: Separator<T>,
    after: Separator<T>,
    si: int,
    m: int,
) -> (answer: Option<Real32>)
    requires
        before.well_formed(),
        served(refine, angle, direction, phase, before, after),
        0 <= si < before.sources.len(),
        0 <= m < 5,
    ensures
        ({
            let o = 5 * si + m;
            let phasors = source_phasors(before.x@, before.ref_phase@, si);
            &&& phasors.len() == 5
            &&& phasors[m] == (before.x@[2 * o], before.x@[2 * o + 1], before.ref_phase@[o])
            &&& is_refined(refine, before.sources[si], phasors, answer)
            &&& after.sources[si].seed == before.sources[si].seed
            &&& answer matches Some(f) ==> {
                &&& after.sources[si].freq == f
                &&& call_ensures(angle, (f, (m + 1) as usize), after.theta@[o])
                &&& call_ensures(direction, (after.theta@[o],), after.rot@[o])
            }
            &&& answer is None ==> {
                &&& after.sources[si] == before.sources[si]
                &&& after.theta@[o] == before.theta@[o]
                &&& after.rot@[o] == before.rot@[o]
            }
            &&& call_ensures(phase, (before.x@[2 * o], before.x@[2 * o + 1], after.theta@[o]), after.ref_phase@[o])
            &&& after.x@ == before.x@
        }),
{
    let o = 5 * si + m;
    assert(o == si * 5 + m);
    let phasors = source_phasors(before.x@, before.ref_phase@, si);
    assert(served_at(refine, angle, direction, before, after, si));
    assert(phase_set_at(phase, before.x@, after.theta@, after.ref_phase@, o));
    let answer = choose|answer: Option<Real32>|
        #![trigger is_refined(refine, before.sources[si], phasors, answer)]
        {
            &&& is_refined(refine, before.sources[si], phasors, answer)
            &&& match answer {
                Some(freq) => {
                    &&& after.sources[si] == (Source { seed: before.sources[si].seed, freq })
                    &&& forall|m: int|
                        0 <= m < 5 ==> #[trigger] rotates_at(
                            angle,
                            direction,
                            after.sources[si],
                            after.theta@,
                            after.rot@,
                            si,
                            m,
                        )
                },
                None => {
                    &&& after.sources[si] == before.sources[si]
                    &&& forall|o: int|
                        si * 5 <= o < si * 5 + 5 ==> {
                            &&& #[trigger] after.theta[o] == before.theta[o]
                            &&& after.rot[o] == before.rot[o]
                        }
                },
            }
        };
    assert(10 * si + 2 * m == 2 * o);
    assert(phasors[m] == (before.x@[2 * o], before.x@[2 * o + 1], before.ref_phase@[o]));
    if answer is Some {
        assert(rotates_at(angle, direction, after.sources[si], after.theta@, after.rot@, si, m));
    } else {
        assert(after.theta[o] == before.theta[o] && after.rot[o] == before.rot[o]);
        assert(after.theta@[o] == before.theta@[o] && after.rot@[o] == before.rot@[o]);
    }
    answer
}

/// After a rebuild every oscillator has the angle of its harmonic of its source, the
/// rotation of that angle, and its reference phase.
pub proof fn restart_sets_every_oscillator<
    T: Copy,
    A: Fn(Real32, usize) -> T,
    D: Fn(T) -> (T, T),
    P: Fn(T, T, T) -> T,
>(angle: A, direction: D, phase: P, before: Separator<T>, after: Separator<T>, si: int, m: int)
    requires
        before.well_formed(),
        restarted(angle, direction, phase, before, after),
        0 <= si < before.sources.len(),
        0 <= m < 5,
    ensures
        ({
            let o = 5 * si + m;
            &&& call_ensures(angle, (before.sources[si].freq, (m + 1) as usize), after.theta@[o])
            &&& call_ensures(direction, (after.theta@[o],), after.rot@[o])
            &&& call_ensures(phase, (before.x@[2 * o], before.x@[2 * o + 1], after.theta@[o]), after.ref_phase@[o])
            &&& after.x@ == before.x@
            &&& after.sources@ == before.sources@
            &&& after.p@ == before.p@
        }),
{
    let o = 5 * si + m;
    assert(o == si * 5 + m);
    assert(rotates_at(angle, direction, before.sources[si], after.theta@, after.rot@, si, m));
    assert(phase_set_at(phase, before.x@, after.theta@, after.ref_phase@, o));
}

/// Every sample is taken in, in order: the model moves on, is observed, corrected and
/// counted; with every 256th the fundamentals are refined and the covariance is repaired,
/// and else nothing more happens.
pub proof fn every_sample_is_taken_in<
    T: Copy,
    R: Fn((T, T), T, T) -> (T, T),
    B: Fn(T) -> T,
    A: Fn(T, T) -> T,
    I: Fn(T, T) -> T,
    V: Fn(T) -> T,
    W: Fn(T, T) -> T,
    C: Fn(T, T, T, T) -> T,
    S: Fn(T, T, T, T) -> T,
    E: Fn(T, T) -> Real32,
    K: Fn((Real32, Real32), Real32, (T, T, T), usize) -> (Real32, Real32),
    U: Fn(Source, Real32, Real32) -> Real32,
    H: Fn(Real32, Real32) -> Real32,
    N: Fn(Real32, usize) -> T,
    D: Fn(T) -> (T, T),
    P: Fn(T, T, T) -> T,
    M: Fn(T, T) -> T,
    F: Fn(T) -> T,
>(
    motion: Motion<R, B>,
    gain: Gain<T, A, I, V, W, C, S>,
    pull: Pull<Refinement<E, K, U, H>, N, D, P>,
    repair: Repair<M, F>,
    samples: Seq<T>,
    n: nat,
    before: Separator<T>,
    after: Separator<T>,
) -> (w: (Separator<T>, Separator<T>, Separator<T>, (T, T), Separator<T>, Separator<T>, Separator<T>))
    requires
        processed(motion, gain, pull, repair, samples, n, before, after),
    ensures
        n == 0 ==> after == before,
        n > 0 ==> {
            let (mid, turned, seen, r, told, counted, moved) = w;
            &&& processed(motion, gain, pull, repair, samples, (n - 1) as nat, before, mid)
            &&& predicted(motion.turn, motion.raise, mid, turned)
            &&& observed(gain.noise, gain.plus, turned, seen, r)
            &&& measured(gain, samples[n - 1], r, seen, told)
            &&& counted.x@ == told.x@ && counted.p@ == told.p@ && counted.sources@ == told.sources@ && counted.rot@
                == told.rot@ && counted.res2 == told.res2 && counted.ref_phase@ == told.ref_phase@
            &&& told.sub_fill == 255 ==> counted.sub_fill == 0 && served(
                pull.refine,
                pull.angle,
                pull.direction,
                pull.phase,
                counted,
                moved,
            ) && rebalanced(repair.average, repair.floor, moved, after)
            &&& told.sub_fill < 255 ==> counted.sub_fill == told.sub_fill + 1 && after == counted
        },
{
    if n == 0 {
        (before, before, before, (before.zero, before.zero), before, before, before)
    } else {
        let y = samples[n - 1];
        let mid = choose|mid: Separator<T>|
            processed(motion, gain, pull, repair, samples, (n - 1) as nat, before, mid) && #[trigger] stepped(
                motion,
                gain,
                pull,
                repair,
                y,
                mid,
                after,
            );
        let (turned, seen, r, told, counted) = choose|
            turned: Separator<T>,
            seen: Separator<T>,
            r: (T, T),
            told: Separator<T>,
            counted: Separator<T>,
        |
            #![trigger predicted(motion.turn, motion.raise, mid, turned), observed(gain.noise, gain.plus, turned, seen, r), measured(gain, y, r, seen, told), advanced(told, counted)]
            {
                &&& predicted(motion.turn, motion.raise, mid, turned)
                &&& observed(gain.noise, gain.plus, turned, seen, r)
                &&& measured(gain, y, r, seen, told)
                &&& advanced(told, counted)
                &&& if told.sub_fill + 1 == 256 {
                    settled(pull, repair, counted, after)
                } else {
                    after == counted
                }
            };
        if told.sub_fill == 255 {
            let moved = choose|moved: Separator<T>| #[trigger]
                served(pull.refine, pull.angle, pull.direction, pull.phase, counted, moved) && rebalanced(
                    repair.average,
                    repair.floor,
                    moved,
                    after,
                );
            (mid, turned, seen, r, told, counted, moved)
        } else {
            (mid, turned, seen, r, told, counted, counted)
        }
    }
}

/// Every phasor with at least 1e-9 of energy drifts the sums, weighted, and no other: one
/// more phasor is one more call at most.
pub proof fn every_audible_phasor_counts<
    T,
    E: Fn(T, T) -> Real32,
    K: Fn((Real32, Real32), Real32, (T, T, T), usize) -> (Real32, Real32),
>(energy: E, weigh: K, phasors: Seq<(T, T, T)>, n: nat, sums: (Real32, Real32)) -> (r: ((Real32, Real32), Real32))
    requires
        drifted(energy, weigh, phasors, n, sums),
    ensures
        n == 0 ==> sums.0.bits == 0 && sums.1.bits == 0,
        n > 0 ==> {
            let (before, e) = r;
            let p = phasors[n - 1];
            &&& drifted(energy, weigh, phasors, (n - 1) as nat, before)
            &&& call_ensures(energy, (p.0, p.1), e)
            &&& e.below(Real32 { bits: 0x3089_705f }) ==> sums == before
            &&& !e.below(Real32 { bits: 0x3089_705f }) ==> call_ensures(weigh, (before, e, p, (n - 1) as usize), sums)
        },
{
    if n == 0 {
        (sums, sums.0)
    } else {
        let before = choose|before: (Real32, Real32)|
            drifted(energy, weigh, phasors, (n - 1) as nat, before) && #[trigger] counted_in(
                energy,
                weigh,
                phasors[n - 1],
                (n - 1) as usize,
                before,
                sums,
            );
        let p = phasors[n - 1];
        let e = choose|e: Real32| #[trigger]
            call_ensures(energy, (p.0, p.1), e) && if e.below(Real32 { bits: 0x3089_705f }) {
                sums == before
            } else {
                call_ensures(weigh, (before, e, p, (n - 1) as usize), sums)
            };
        (before, e)
    }
}

/// A fundamental is refined exactly if the weights are above 1e-9, and then to what the
/// sums speak for, unless that lies more than 80 cents from the seed: then to that bound.
pub proof fn fundamental_is_refined_within_bounds<
    T,
    E: Fn(T, T) -> Real32,
    K: Fn((Real32, Real32), Real32, (T, T, T), usize) -> (Real32, Real32),
    U: Fn(Source, Real32, Real32) -> Real32,
    H: Fn(Real32, Real32) -> Real32,
>(refine: Refinement<E, K, U, H>, s: Source, phasors: Seq<(T, T, T)>, answer: Option<Real32>) -> (r: (
    (Real32, Real32),
    Real32,
    Real32,
    Real32,
))
    requires
        is_refined(refine, s, phasors, answer),
    ensures
        ({
            let (sums, x, lo, hi) = r;
            &&& drifted(refine.energy, refine.weigh, phasors, phasors.len(), sums)
            &&& answer is Some <==> (Real32 { bits: 0x3089_705f }).below(sums.1)
            &&& answer matches Some(f) ==> {
                &&& call_ensures(refine.tune, (s, sums.0, sums.1), x)
                &&& call_ensures(refine.shift, (s.seed, Real32 { bits: 0xc2a0_0000 }), lo)
                &&& call_ensures(refine.shift, (s.seed, Real32 { bits: 0x42a0_0000 }), hi)
                &&& !x.below(lo) && !hi.below(x) ==> f == x
                &&& x.below(lo) ==> f == lo
                &&& !x.below(lo) && hi.below(x) ==> f == hi
            }
        }),
{
    let sums = choose|sums: (Real32, Real32)| #[trigger]
        drifted(refine.energy, refine.weigh, phasors, phasors.len(), sums) && match answer {
            Some(f) => (Real32 { bits: 0x3089_705f }).below(sums.1) && pulled(refine.tune, refine.shift, s, sums, f),
            None => !(Real32 { bits: 0x3089_705f }).below(sums.1),
        };
    let zero = Real32 { bits: 0 };
    match answer {
        None => (sums, zero, zero, zero),
        Some(f) => {
            let (x, lo, hi) = choose|x: Real32, lo: Real32, hi: Real32|
                #![trigger call_ensures(refine.tune, (s, sums.0, sums.1), x), call_ensures(refine.shift, (s.seed, Real32 { bits: 0xc2a0_0000 }), lo), call_ensures(refine.shift, (s.seed, Real32 { bits: 0x42a0_0000 }), hi)]
                {
                    &&& call_ensures(refine.tune, (s, sums.0, sums.1), x)
                    &&& call_ensures(refine.shift, (s.seed, Real32 { bits: 0xc2a0_0000 }), lo)
                    &&& call_ensures(refine.shift, (s.seed, Real32 { bits: 0x42a0_0000 }), hi)
                    &&& f == clamped(x, lo, hi)
                };
            (sums, x, lo, hi)
        },
    }
}

/// A reading has the refined fundamental of its source, the amplitude of each of its five
/// phasors, and the level of these.
pub proof fn readings_are_of_the_phasors<T: Copy, A: Fn(T, T) -> Real32, L: Fn(Vec<Real32>) -> Real32>(
    amplitude: A,
    level: L,
    bank: Separator<T>,
    si: int,
    reading: SourceReading,
    m: int,
)
    requires
        reads(amplitude, level, bank, si, reading),
        0 <= si,
        0 <= m < 5,
    ensures
        reading.freq == bank.sources[si].freq,
        reading.amps.len() == 5,
        call_ensures(amplitude, (bank.x@[10 * si + 2 * m], bank.x@[10 * si + 2 * m + 1]), reading.amps[m]),
        exists|v: Vec<Real32>| #[trigger] v@ == reading.amps@ && call_ensures(level, (v,), reading.level),
{
    let phasors = source_phasors(bank.x@, bank.ref_phase@, si);
    assert(call_ensures(amplitude, (phasors[m].0, phasors[m].1), reading.amps[m]));
}

/// The bank follows the frequencies that it is given, measured in cents; where it is
/// rebuilt every oscillator is set. It takes in all samples, unless it has no source: then
/// it stays as it is. It reads one reading per source.
pub proof fn bank_follows_and_takes_in<
    T: Copy,
    X: Fn(Real32, Real32) -> Real32,
    N: Fn(Real32, usize) -> T,
    D: Fn(T) -> (T, T),
    P: Fn(T, T, T) -> T,
    Y: Fn(T, T) -> Real32,
    L: Fn(Vec<Real32>) -> Real32,
>(
    s: &mut Separator<T>,
    freqs: &Vec<Real32>,
    between: X,
    angle: N,
    direction: D,
    phase: P,
    rebuilt: bool,
    bank: &Separator<T>,
    amplitude: Y,
    level: L,
    readings: Vec<SourceReading>,
    i: int,
)
    requires
        call_ensures(
            Separator::<T>::set_sources::<X, N, D, P>,
            (s, freqs, between, angle, direction, phase),
            rebuilt,
        ),
        call_ensures(Separator::<T>::readings::<Y, L>, (bank, amplitude, level), readings),
    ensures
        exists|apart: Seq<Vec<Real32>>, away: Seq<Vec<Real32>>, seeded: Separator<T>|
            #![trigger is_table(between, freqs@, freqs@, apart), is_table(between, freqs@, refined(old(s).sources@), away), reseeded(freqs@, apart, away, *old(s), seeded, rebuilt)]
            {
                &&& is_table(between, freqs@, freqs@, apart)
                &&& is_table(between, freqs@, refined(old(s).sources@), away)
                &&& reseeded(freqs@, apart, away, *old(s), seeded, rebuilt)
                &&& rebuilt ==> restarted(angle, direction, phase, seeded, *final(s))
                &&& !rebuilt ==> *final(s) == seeded
            },
        readings.len() == bank.sources.len(),
        0 <= i < readings.len() ==> reads(amplitude, level, *bank, i, readings[i]),
{
}

/// All samples of a block are taken in, unless there is no source.
pub proof fn bank_takes_in_all_samples<
    T: Copy,
    R: Fn((T, T), T, T) -> (T, T),
    B: Fn(T) -> T,
    A: Fn(T, T) -> T,
    I: Fn(T, T) -> T,
    V: Fn(T) -> T,
    W: Fn(T, T) -> T,
    C: Fn(T, T, T, T) -> T,
    S: Fn(T, T, T, T) -> T,
    E: Fn(T, T) -> Real32,
    K: Fn((Real32, Real32), Real32, (T, T, T), usize) -> (Real32, Real32),
    U: Fn(Source, Real32, Real32) -> Real32,
    H: Fn(Real32, Real32) -> Real32,
    N: Fn(Real32, usize) -> T,
    D: Fn(T) -> (T, T),
    P: Fn(T, T, T) -> T,
    M: Fn(T, T) -> T,
    F: Fn(T) -> T,
>(
    s: &mut Separator<T>,
    samples: &Vec<T>,
    motion: &Motion<R, B>,
    gain: &Gain<T, A, I, V, W, C, S>,
    pull: &Pull<Refinement<E, K, U, H>, N, D, P>,
    repair: &Repair<M, F>,
)
    requires
        call_ensures(
            Separator::<T>::process::<R, B, A, I, V, W, C, S, E, K, U, H, N, D, P, M, F>,
            (s, samples, motion, gain, pull, repair),
            (),
        ),
    ensures
        old(s).sources.len() == 0 ==> *final(s) == *old(s),
        old(s).sources.len() > 0 ==> processed(
            *motion,
            *gain,
            *pull,
            *repair,
            samples@,
            samples@.len(),
            *old(s),
            *final(s),
        ),
{
}

} // verus!
