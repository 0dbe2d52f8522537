//! What pitch classes, chords and keys are made of.

use vstd::prelude::*;

use crate::dsp::chroma::{
    all_scored, best_score, class_energy, classes_from, compared, correlated, correlated_at, correlation,
    detect_chord, dominant, energies, fold, folded,
    in_triad, is_best_key, is_chord_of, is_norm, key_name, key_named, named, projected, ranking, rival_from, rival_score, scored_as, Chord,
    KeyEstimator,
};
use crate::ieee::Real32;
use crate::order::{descending_keys, is_last_largest, is_maximum_of, keys_can_be_ordered, precedes};
use crate::tuning::class_name;

verus! {

/// `r` comes from zero by gathering these values, one after another.
pub open spec fn gathers<E: Fn(Real32, Real32) -> Real32>(gather: E, values: Seq<Real32>, r: Real32) -> bool {
    exists|sums: Seq<Real32>| #[trigger] is_trace(gather, values, sums) && sums[values.len() as int] == r
}

/// `sums` are what is gathered of the values, before the first and after every one.
pub open spec fn is_trace<E: Fn(Real32, Real32) -> Real32>(gather: E, values: Seq<Real32>, sums: Seq<Real32>) -> bool {
    &&& sums.len() == values.len() + 1
    &&& sums[0].bits == 0
    &&& forall|i: int| 0 <= i < values.len() ==> call_ensures(gather, (sums[i], #[trigger] values[i]), sums[i + 1])
}

/// The bands of a pitch class: those of MIDI notes 36 to 96 an octave apart. Class C has
/// six, every other one five.
pub open spec fn bands_of(bands: Seq<Real32>, class: int) -> Seq<Real32> {
    if class == 0 {
        seq![bands[0], bands[12], bands[24], bands[36], bands[48], bands[60]]
    } else {
        seq![bands[class], bands[class + 12], bands[class + 24], bands[class + 36], bands[class + 48]]
    }
}

proof fn trace_grows<E: Fn(Real32, Real32) -> Real32>(
    gather: E,
    values: Seq<Real32>,
    m: Real32,
    v: Real32,
    r: Real32,
)
    requires
        gathers(gather, values, m),
        call_ensures(gather, (m, v), r),
    ensures
        gathers(gather, values.push(v), r),
{
    let sums = choose|sums: Seq<Real32>| #[trigger] is_trace(gather, values, sums) && sums[values.len() as int] == m;
    let more = sums.push(r);
    let all = values.push(v);
    assert forall|i: int| 0 <= i < all.len() implies call_ensures(gather, (more[i], #[trigger] all[i]), more[i + 1]) by {
        if i < values.len() {
            assert(all[i] == values[i]);
        }
    }
    assert(is_trace(gather, all, more));
}

/// The bands of a class among the first `n`, in order.
spec fn bands_among(bands: Seq<Real32>, class: int, n: int) -> Seq<Real32>
    decreases n,
{
    if n <= 0 {
        Seq::empty()
    } else if (n - 1) % 12 == class {
        bands_among(bands, class, n - 1).push(bands[n - 1])
    } else {
        bands_among(bands, class, n - 1)
    }
}

proof fn energy_gathers<E: Fn(Real32, Real32) -> Real32>(gather: E, bands: Seq<Real32>, class: int, n: nat, r: Real32)
    requires
        class_energy(gather, bands, class, n, r),
        0 <= class < 12,
    ensures
        gathers(gather, bands_among(bands, class, n as int), r),
    decreases n,
{
    if n == 0 {
        let sums = seq![r];
        assert(is_trace(gather, Seq::<Real32>::empty(), sums));
    } else {
        assert((36 + n - 1) % 12 == (n - 1) % 12);
        if (n - 1) % 12 != class {
            energy_gathers(gather, bands, class, (n - 1) as nat, r);
        } else {
            let m = choose|m: Real32|
                class_energy(gather, bands, class, (n - 1) as nat, m) && #[trigger] call_ensures(
                    gather,
                    (m, bands[n - 1]),
                    r,
                );
            energy_gathers(gather, bands, class, (n - 1) as nat, m);
            trace_grows(gather, bands_among(bands, class, n - 1), m, bands[n - 1], r);
        }
    }
}

proof fn no_band_between(bands: Seq<Real32>, class: int, q: int, n: int)
    requires
        0 <= class < 12,
        0 <= q,
        12 * q + class + 1 <= n <= 12 * q + class + 12,
    ensures
        bands_among(bands, class, n) == bands_among(bands, class, 12 * q + class).push(bands[12 * q + class]),
    decreases n,
{
    if n > 12 * q + class + 1 {
        no_band_between(bands, class, q, n - 1);
        assert((n - 1) % 12 != class);
    } else {
        assert((12 * q + class) % 12 == class);
    }
}

proof fn no_band_before(bands: Seq<Real32>, class: int, n: int)
    requires
        0 <= n <= class < 12,
    ensures
        bands_among(bands, class, n) == Seq::<Real32>::empty(),
    decreases n,
{
    if n > 0 {
        no_band_before(bands, class, n - 1);
    }
}

proof fn bands_are_listed(bands: Seq<Real32>, class: int)
    requires
        bands.len() == 61,
        0 <= class < 12,
    ensures
        bands_among(bands, class, 61) == bands_of(bands, class),
{
    no_band_before(bands, class, class);
    no_band_between(bands, class, 0, class + 12);
    no_band_between(bands, class, 1, class + 24);
    no_band_between(bands, class, 2, class + 36);
    no_band_between(bands, class, 3, class + 48);
    if class == 0 {
        no_band_between(bands, class, 4, 60);
        no_band_between(bands, class, 5, 61);
    } else {
        no_band_between(bands, class, 4, 61);
    }
    assert(bands_among(bands, class, 61) =~= bands_of(bands, class));
}

/// Every band counts, and counts once: the energy of a pitch class is gathered from zero
/// over all bands of its note, from the lowest octave to the highest. The classes are
/// then levelled against the largest energy, where that is above zero.
pub proof fn every_band_counts<E: Fn(Real32, Real32) -> Real32, L: Fn(Real32, Real32) -> Real32>(
    gather: E,
    level: L,
    bands: Seq<Real32>,
    energy: Seq<Real32>,
    max: Real32,
    chroma: Seq<Real32>,
    class: int,
)
    requires
        bands.len() == 61,
        energies(gather, bands, 61, energy),
        is_maximum_of(Real32 { bits: 0 }, energy, 12, max),
        folded(level, energy, max, chroma),
        0 <= class < 12,
    ensures
        chroma.len() == 12,
        gathers(gather, bands_of(bands, class), energy[class]),
        !energy[class].nan() ==> energy[class].at_most(max),
        max.bits == 0 || exists|c: int| 0 <= c < 12 && max == #[trigger] energy[c],
        (Real32 { bits: 0 }).below(max) ==> call_ensures(level, (energy[class], max), chroma[class]),
        !(Real32 { bits: 0 }).below(max) ==> chroma[class] == energy[class],
{
    assert(class_energy(gather, bands, class, 61, energy[class]));
    energy_gathers(gather, bands, class, 61, energy[class]);
    bands_are_listed(bands, class);
}

/// Pitch class `i` is the root, the third (major or minor) or the fifth of chord `k`: the
/// chords are numbered by their roots, the major one before the minor one.
pub open spec fn belongs(k: int, i: int) -> bool {
    let above = (i + 12 - k / 2) % 12;
    above == 0 || above == 7 || above == (if k % 2 == 0 {
        4int
    } else {
        3int
    })
}

/// `sums` are what is made of the twelve classes for chord `k`, before the first and after
/// every one.
pub open spec fn is_projection<D: Fn(Real32, Real32, bool) -> Real32>(
    dot: D,
    chroma: Seq<Real32>,
    k: int,
    n: int,
    sums: Seq<Real32>,
) -> bool {
    &&& sums.len() == n + 1
    &&& sums[0].bits == 0
    &&& forall|i: int|
        0 <= i < n ==> call_ensures(dot, (#[trigger] sums[i], chroma[i], belongs(k, i)), sums[i + 1])
}

proof fn members_belong(k: int, i: int)
    requires
        0 <= k < 24,
        0 <= i < 12,
    ensures
        in_triad(k, i) == belongs(k, i),
{
    let root = k / 2;
    let third: int = if k % 2 == 0 {
        4
    } else {
        3
    };
    assert(0 <= root < 12);
    assert((i + 12 - root) % 12 == (if i >= root {
        i - root
    } else {
        i + 12 - root
    }));
    assert((root + third) % 12 == (if root + third < 12 {
        root + third
    } else {
        root + third - 12
    }));
    assert((root + 7) % 12 == (if root + 7 < 12 {
        root + 7
    } else {
        root + 7 - 12
    }));
}

proof fn projection_traced<D: Fn(Real32, Real32, bool) -> Real32>(
    dot: D,
    chroma: Seq<Real32>,
    k: int,
    n: nat,
    r: Real32,
) -> (sums: Seq<Real32>)
    requires
        projected(dot, chroma, k, n, r),
        0 <= k < 24,
        n <= 12,
    ensures
        is_projection(dot, chroma, k, n as int, sums),
        sums[n as int] == r,
    decreases n,
{
    if n == 0 {
        seq![r]
    } else {
        let m = choose|m: Real32|
            projected(dot, chroma, k, (n - 1) as nat, m) && #[trigger] call_ensures(
                dot,
                (m, chroma[n - 1], in_triad(k, n - 1)),
                r,
            );
        let before = projection_traced(dot, chroma, k, (n - 1) as nat, m);
        members_belong(k, n - 1);
        let sums = before.push(r);
        assert forall|i: int| 0 <= i < n implies call_ensures(
            dot,
            (#[trigger] sums[i], chroma[i], belongs(k, i)),
            sums[i + 1],
        ) by {
            if i < n - 1 {
                assert(before[i] == sums[i] && before[i + 1] == sums[i + 1]);
                assert(call_ensures(dot, (before[i], chroma[i], belongs(k, i)), before[i + 1]));
            } else {
                assert(sums[i] == m && sums[i + 1] == r);
            }
        }
        sums
    }
}

/// How a chord is scored and chosen. All twelve classes count for each of the 24 chords,
/// as members or not. The best has no score above it, its rival is the best with another
/// root, and of equal scores the first stands. The best is named exactly if its score is
/// at least 0.62 and its margin over the rival at least 0.05.
pub proof fn best_chord_is_named<D: Fn(Real32, Real32, bool) -> Real32, S: Fn(Real32, Real32) -> Real32>(
    dot: D,
    score: S,
    chroma: Seq<Real32>,
    norm: Real32,
    scores: Seq<Real32>,
    margin: Real32,
    chord: Option<Chord>,
    k: int,
) -> (found: (int, int))
    requires
        all_scored(dot, score, chroma, norm, scores),
        named(ranking(scores)[0] as int, best_score(scores), margin, chord),
        0 <= k < 24,
    ensures
        exists|sums: Seq<Real32>| #[trigger]
            is_projection(dot, chroma, k, 12, sums) && call_ensures(score, (sums[12], norm), scores[k]),
        0 <= found.0 < 24,
        0 <= found.1 < 24,
        found.0 / 2 != found.1 / 2,
        best_score(scores) == scores[found.0],
        rival_score(scores) == scores[found.1],
        scores[k].total_rank() <= scores[found.0].total_rank(),
        k < found.0 ==> scores[k].total_rank() < scores[found.0].total_rank(),
        k / 2 != found.0 / 2 ==> scores[k].total_rank() <= scores[found.1].total_rank(),
        chord is Some <==> !scores[found.0].below(Real32 { bits: 0x3f1e_b852 }) && !margin.below(
            Real32 { bits: 0x3d4c_cccd },
        ),
        chord matches Some(c) ==> c.confidence == scores[found.0] && c.name@ == class_name(found.0 / 2) + (if found.0 % 2
            == 0 {
            Seq::<char>::empty()
        } else {
            seq!['m']
        }),
{
    assert(scored_as(dot, score, chroma, norm, k, scores[k]));
    let d = choose|d: Real32|
        projected(dot, chroma, k, 12, d) && #[trigger] call_ensures(score, (d, norm), scores[k]);
    let sums = projection_traced(dot, chroma, k, 12, d);
    assert(is_projection(dot, chroma, k, 12, sums));
    let keys = descending_keys(scores);
    let order = ranking(scores);
    keys_can_be_ordered(keys);
    crate::dsp::chroma::ranking_is_by_score(scores, k as usize);
    let best = order[0] as int;
    assert(order.contains(k as usize));
    let at = choose|i: int| 0 <= i < order.len() && order[i] == k;
    if at > 0 {
        assert(precedes(keys, order[0] as int, order[at] as int));
    }
    reveal_strlit("m");
    reveal_strlit("");
    assert(""@ =~= Seq::<char>::empty());
    assert("m"@ =~= seq!['m']);
    assert(class_name(best / 2) + Seq::<char>::empty() =~= class_name(best / 2) + ""@);
    let other: usize = if best / 2 == 0 { 2 } else { 0 };
    crate::dsp::chroma::ranking_is_by_score(scores, other);
    rival_is_another(order, 1);
    assert(order.contains(other));
    (best, rival_from(order, 1)->0 as int)
}

proof fn rival_is_another(order: Seq<usize>, k: int)
    requires
        0 <= k,
        rival_from(order, k) is Some,
        forall|i: int| 0 <= i < order.len() ==> (#[trigger] order[i]) < 24,
    ensures
        rival_from(order, k)->0 / 2 != order[0] / 2,
        rival_from(order, k)->0 < 24,
    decreases order.len() - k,
{
    if k < order.len() && order[k] as int / 2 == order[0] as int / 2 {
        rival_is_another(order, k + 1);
    }
}

/// Classes whose norm is below a millionth are no chord; others are what their best
/// triad says, by its margin over its rival.
pub proof fn quiet_classes_have_no_chord<
    N: Fn(Vec<Real32>) -> Real32,
    D: Fn(Real32, Real32, bool) -> Real32,
    S: Fn(Real32, Real32) -> Real32,
    M: Fn(Real32, Real32) -> Real32,
>(norm: N, dot: D, score: S, minus: M, chroma: Seq<Real32>, chord: Option<Chord>) -> (size: Real32)
    requires
        is_chord_of(norm, dot, score, minus, chroma, chord),
    ensures
        exists|v: Vec<Real32>| #[trigger] v@ == chroma && call_ensures(norm, (v,), size),
        size.below(Real32 { bits: 0x3586_37bd }) ==> chord is None,
        !size.below(Real32 { bits: 0x3586_37bd }) ==> exists|scores: Seq<Real32>, margin: Real32| #[trigger]
            all_scored(dot, score, chroma, size, scores) && #[trigger] call_ensures(
                minus,
                (best_score(scores), rival_score(scores)),
                margin,
            ) && named(ranking(scores)[0] as int, best_score(scores), margin, chord),
{
    let size = choose|size: Real32| #[trigger]
        is_norm(norm, chroma, size) && if size.below(Real32 { bits: 0x3586_37bd }) {
            chord is None
        } else {
            exists|scores: Seq<Real32>, margin: Real32| #[trigger]
                all_scored(dot, score, chroma, size, scores) && #[trigger] call_ensures(
                    minus,
                    (best_score(scores), rival_score(scores)),
                    margin,
                ) && named(ranking(scores)[0] as int, best_score(scores), margin, chord)
        };
    size
}

/// What a frame does to the evidence for a key: all twelve averages follow, and the frame
/// is counted.
pub proof fn every_class_is_averaged<S: Fn(Real32, Real32) -> Real32>(
    smooth: S,
    before: KeyEstimator<Real32>,
    chroma: Seq<Real32>,
    after: KeyEstimator<Real32>,
    class: int,
)
    requires
        before.updated(smooth, chroma, after),
        0 <= class < 12,
    ensures
        after.avg.len() == 12,
        call_ensures(smooth, (before.avg[class], chroma[class]), after.avg[class]),
        after.frames == before.frames + 1,
{
}

/// How a key is named: not before 40 frames. Key `k` is correlated with the averages from
/// its root upwards, root `k / 2`, minor if `k` is odd. The best correlation counts, the
/// first of equal ones, and is named exactly if it is above 0.5. A first one that is no
/// number stands.
pub proof fn best_key_is_named<N: Fn(Vec<Real32>) -> Real32, C: Fn(Vec<Real32>, Real32, bool) -> Real32>(
    keys: KeyEstimator<Real32>,
    mean: N,
    correlate: C,
    middle: Real32,
    r: Seq<Real32>,
    key: Option<String>,
    k: int,
) -> (best: int)
    requires
        correlated(correlate, keys.avg@, middle, r),
        key_named(r, key),
        0 <= k < 24,
    ensures
        0 <= best < 24,
        r[0].nan() ==> best == 0,
        exists|v: Vec<Real32>| #[trigger]
            v@.len() == 12 && (forall|i: int| 0 <= i < 12 ==> (#[trigger] v[i]) == keys.avg[(k / 2 + i) % 12])
                && call_ensures(correlate, (v, middle, k % 2 == 1), r[k]),
        !r[0].nan() && !r[k].nan() ==> r[k].at_most(r[best]) && (k < best ==> r[k].below(r[best])),
        key is Some <==> (Real32 { bits: 0x3f00_0000 }).below(r[best]),
        key matches Some(name) ==> name@ == class_name(best / 2) + (if best % 2 == 0 {
            " major"@
        } else {
            " minor"@
        }),
{
    assert(correlated_at(correlate, keys.avg@, middle, k, r[k]));
    let v = choose|v: Vec<Real32>| #[trigger]
        v@ == classes_from(keys.avg@, k / 2) && call_ensures(correlate, (v, middle, k % 2 == 1), r[k]);
    assert(v@.len() == 12);
    let best = choose|best: int| #[trigger]
        is_best_key(r, 24, best) && match key {
            Some(name) => (Real32 { bits: 0x3f00_0000 }).below(r[best]) && name@ == key_name(best),
            None => !(Real32 { bits: 0x3f00_0000 }).below(r[best]),
        };
    best
}

/// A key needs 40 frames, and then is the one that the averages correlate best with.
pub proof fn key_needs_evidence<N: Fn(Vec<Real32>) -> Real32, C: Fn(Vec<Real32>, Real32, bool) -> Real32>(
    keys: KeyEstimator<Real32>,
    mean: N,
    correlate: C,
    key: Option<String>,
)
    requires
        keys.is_key(mean, correlate, key),
    ensures
        keys.frames < 40 ==> key is None,
        keys.frames >= 40 ==> exists|middle: Real32, r: Seq<Real32>| #[trigger]
            correlated(correlate, keys.avg@, middle, r) && key_named(r, key) && exists|v: Vec<Real32>| #[trigger]
            v@ == keys.avg@ && call_ensures(mean, (v,), middle),
{
    if keys.frames >= 40 {
        let (middle, r) = choose|middle: Real32, r: Seq<Real32>| #[trigger]
            correlated(correlate, keys.avg@, middle, r) && crate::dsp::chroma::is_middle(mean, keys.avg@, middle)
                && key_named(r, key);
        assert(correlated(correlate, keys.avg@, middle, r) && key_named(r, key));
    }
}

/// All classes count in a correlation, each with its own place in the profile.
pub proof fn every_class_is_correlated<
    T,
    A: Fn((Real32, Real32, Real32), T, usize) -> (Real32, Real32, Real32),
>(take: A, classes: Seq<T>, n: nat, sums: (Real32, Real32, Real32)) -> (trace: Seq<(Real32, Real32, Real32)>)
    requires
        compared(take, classes, n, sums),
        n <= classes.len(),
    ensures
        trace.len() == n + 1,
        trace[0] == (Real32 { bits: 0 }, Real32 { bits: 0 }, Real32 { bits: 0 }),
        trace[n as int] == sums,
        forall|i: int|
            0 <= i < n ==> call_ensures(take, (#[trigger] trace[i], classes[i], i as usize), trace[i + 1]),
    decreases n,
{
    if n == 0 {
        seq![sums]
    } else {
        let m = choose|m: (Real32, Real32, Real32)|
            compared(take, classes, (n - 1) as nat, m) && #[trigger] call_ensures(
                take,
                (m, classes[n - 1], (n - 1) as usize),
                sums,
            );
        let before = every_class_is_correlated(take, classes, (n - 1) as nat, m);
        let trace = before.push(sums);
        assert forall|i: int| 0 <= i < n implies call_ensures(
            take,
            (#[trigger] trace[i], classes[i], i as usize),
            trace[i + 1],
        ) by {
            if i < n - 1 {
                assert(before[i] == trace[i]);
            }
        }
        trace
    }
}

/// The pitch classes of some bands: every band counts in its class, and the classes are
/// levelled against the largest.
pub proof fn bands_fold_into_classes<E: Fn(Real32, Real32) -> Real32, L: Fn(Real32, Real32) -> Real32>(
    bands: &Vec<Real32>,
    gather: E,
    level: L,
    chroma: Vec<Real32>,
    class: int,
) -> (w: (Seq<Real32>, Real32))
    requires
        bands.len() == 61,
        call_ensures(fold::<E, L>, (bands, gather, level), chroma),
        0 <= class < 12,
    ensures
        chroma.len() == 12,
        ({
            let (energy, max) = w;
            &&& gathers(gather, bands_of(bands@, class), energy[class])
            &&& !energy[class].nan() ==> energy[class].at_most(max)
            &&& max.bits == 0 || exists|c: int| 0 <= c < 12 && max == #[trigger] energy[c]
            &&& (Real32 { bits: 0 }).below(max) ==> call_ensures(level, (energy[class], max), chroma[class])
            &&& !(Real32 { bits: 0 }).below(max) ==> chroma[class] == energy[class]
        }),
{
    let (energy, max) = choose|energy: Seq<Real32>, max: Real32| #[trigger]
        energies(gather, bands@, 61, energy) && #[trigger] is_maximum_of(Real32 { bits: 0 }, energy, 12, max) && folded(
            level,
            energy,
            max,
            chroma@,
        );
    every_band_counts(gather, level, bands@, energy, max, chroma@, class);
    (energy, max)
}

/// The chord of some classes, the key of some averages, their update, and the dominant
/// class are what the laws above say; the dominant class is the last of the largest, where
/// it is above 0.2.
pub proof fn harmony_is_recognized<
    N: Fn(Vec<Real32>) -> Real32,
    D: Fn(Real32, Real32, bool) -> Real32,
    S: Fn(Real32, Real32) -> Real32,
    M: Fn(Real32, Real32) -> Real32,
    A: Fn(Real32, Real32) -> Real32,
    E: Fn(Vec<Real32>) -> Real32,
    C: Fn(Vec<Real32>, Real32, bool) -> Real32,
>(
    chroma: &Vec<Real32>,
    norm: N,
    dot: D,
    score: S,
    minus: M,
    chord: Option<Chord>,
    keys: &mut KeyEstimator<Real32>,
    smooth: A,
    now: &KeyEstimator<Real32>,
    mean: E,
    correlate: C,
    key: Option<String>,
    class: Option<usize>,
    i: int,
)
    requires
        call_ensures(detect_chord::<N, D, S, M>, (chroma, norm, dot, score, minus), chord),
        call_ensures(KeyEstimator::<Real32>::update::<A>, (keys, chroma, smooth), ()),
        call_ensures(KeyEstimator::<Real32>::estimate::<E, C>, (now, mean, correlate), key),
        call_ensures(dominant, (chroma,), class),
        0 <= i < chroma.len(),
    ensures
        is_chord_of(norm, dot, score, minus, chroma@, chord),
        old(keys).updated(smooth, chroma@, *final(keys)),
        now.is_key(mean, correlate, key),
        class matches Some(k) ==> {
            &&& k < chroma.len()
            &&& (Real32 { bits: 0x3e4c_cccd }).below(chroma[k as int])
            &&& chroma[i].total_rank() <= chroma[k as int].total_rank()
            &&& i > k ==> chroma[i].total_rank() < chroma[k as int].total_rank()
        },
        class is None ==> exists|k: int|
            0 <= k < chroma.len() && !(Real32 { bits: 0x3e4c_cccd }).below(#[trigger] chroma[k])
                && chroma[i].total_rank() <= chroma[k].total_rank(),
{
    match class {
        Some(k) => {
            assert(chroma@[i].total_rank() <= chroma@[k as int].total_rank());
        },
        None => {
            let k = choose|k: int| #[trigger]
                is_last_largest(chroma@, chroma.len() as int, k) && !(Real32 { bits: 0x3e4c_cccd }).below(chroma[k]);
            assert(chroma@[i].total_rank() <= chroma@[k].total_rank());
            assert(!(Real32 { bits: 0x3e4c_cccd }).below(chroma[k]));
        },
    }
}

/// A correlation is zero where either side is flat, else the quotient of its sums.
pub proof fn flat_classes_do_not_correlate<
    T: Copy,
    A: Fn((Real32, Real32, Real32), T, usize) -> (Real32, Real32, Real32),
    Q: Fn(Real32, Real32, Real32) -> Real32,
>(classes: &Vec<T>, take: A, quotient: Q, r: Real32) -> (sums: (Real32, Real32, Real32))
    requires
        call_ensures(correlation::<T, A, Q>, (classes, take, quotient), r),
    ensures
        compared(take, classes@, classes@.len(), sums),
        sums.1.at_most(Real32 { bits: 0 }) || sums.2.at_most(Real32 { bits: 0 }) ==> r.bits == 0,
        !(sums.1.at_most(Real32 { bits: 0 }) || sums.2.at_most(Real32 { bits: 0 })) ==> call_ensures(quotient, sums, r),
{
    choose|sums: (Real32, Real32, Real32)| #[trigger]
        compared(take, classes@, classes.len() as nat, sums) && if sums.1.at_most(Real32 { bits: 0 })
            || sums.2.at_most(Real32 { bits: 0 }) {
            r == (Real32 { bits: 0 })
        } else {
            call_ensures(quotient, sums, r)
        }
}

} // verus!
