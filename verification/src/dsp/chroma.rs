//! Chord and key recognition from pitch classes.
//!
//! The folded spectrum is matched against 24 major and minor triads, and a
//! long-term average against 24 keys. Chords and keys are numbered alike: two
//! to each root, the major one first.

use vstd::prelude::*;

use crate::dsp::cqt::{band_midi, MIDI_LO, N_BANDS};
use crate::ieee::Real32;
use crate::order::{descending, descending_keys, is_maximum_of, is_stable_order, maximum_of, sorted_positions};
use crate::ring::section;
use crate::tuning::{class_name, class_of, pitch_class};

verus! {

/// Pitch classes, C being the first.
pub const CLASSES: usize = 12;

/// Triads, and keys.
pub const CHORDS: usize = 24;

/// Below this norm there is nothing to hear: 1e-6, as an IEEE 754 pattern.
pub const NORM_FLOOR: u32 = 0x3586_37bd;

/// Least score of a chord: 0.62, as an IEEE 754 pattern.
pub const MIN_SCORE: u32 = 0x3f1e_b852;

/// Least margin over the best chord of another root: 0.05, as an IEEE 754
/// pattern.
pub const MIN_MARGIN: u32 = 0x3d4c_cccd;

/// Frames before a key is named.
pub const KEY_FRAMES: u32 = 40;

/// A key must correlate better than this: 0.5, as an IEEE 754 pattern.
pub const KEY_CORRELATION: u32 = 0x3f00_0000;

/// A pitch class must be above this to be the dominant one: 0.2, as an IEEE 754
/// pattern.
pub const DOMINANT: u32 = 0x3e4c_cccd;

/// The pitch class of a band.
pub fn band_class(band: usize) -> (class: usize)
    requires
        band < N_BANDS,
    ensures
        class == (MIDI_LO + band) % 12,
        class < CLASSES,
{
    class_of(band_midi(band))
}

/// `r` is what the bands of a pitch class among the first `n` add up to, from zero on.
pub open spec fn class_energy<E: Fn(Real32, Real32) -> Real32>(
    gather: E,
    bands: Seq<Real32>,
    class: int,
    n: nat,
    r: Real32,
) -> bool
    decreases n,
{
    if n == 0 {
        r == (Real32 { bits: 0 })
    } else if (MIDI_LO + n - 1) % 12 != class {
        class_energy(gather, bands, class, (n - 1) as nat, r)
    } else {
        exists|m: Real32|
            class_energy(gather, bands, class, (n - 1) as nat, m) && #[trigger] call_ensures(
                gather,
                (m, bands[n - 1]),
                r,
            )
    }
}

/// A pitch class has its energy from its own bands alone, in whatever octave.
pub proof fn other_classes_do_not_matter<E: Fn(Real32, Real32) -> Real32>(
    gather: E,
    a: Seq<Real32>,
    b: Seq<Real32>,
    class: int,
    n: nat,
    r: Real32,
)
    requires
        forall|i: int| 0 <= i < n && (MIDI_LO + i) % 12 == class ==> (#[trigger] a[i]) == b[i],
        class_energy(gather, a, class, n, r),
    ensures
        class_energy(gather, b, class, n, r),
    decreases n,
{
    if n > 0 {
        if (MIDI_LO + n - 1) % 12 != class {
            other_classes_do_not_matter(gather, a, b, class, (n - 1) as nat, r);
        } else {
            let m = choose|m: Real32|
                class_energy(gather, a, class, (n - 1) as nat, m) && #[trigger] call_ensures(
                    gather,
                    (m, a[n - 1]),
                    r,
                );
            other_classes_do_not_matter(gather, a, b, class, (n - 1) as nat, m);
            assert(a[n - 1] == b[n - 1]);
            assert(call_ensures(gather, (m, b[n - 1]), r));
        }
    }
}

/// `energy` holds what the first `n` bands add up to in each pitch class.
pub open spec fn energies<E: Fn(Real32, Real32) -> Real32>(
    gather: E,
    bands: Seq<Real32>,
    n: nat,
    energy: Seq<Real32>,
) -> bool {
    &&& energy.len() == CLASSES
    &&& forall|class: int| 0 <= class < CLASSES ==> class_energy(gather, bands, class, n, #[trigger] energy[class])
}

/// `chroma` holds the levels of the pitch classes relative to the largest, where that
/// is positive, else their energies.
pub open spec fn folded<L: Fn(Real32, Real32) -> Real32>(
    level: L,
    energy: Seq<Real32>,
    max: Real32,
    chroma: Seq<Real32>,
) -> bool {
    if (Real32 { bits: 0 }).below(max) {
        &&& chroma.len() == energy.len()
        &&& forall|class: int|
            0 <= class < energy.len() ==> call_ensures(level, (energy[class], max), #[trigger] chroma[class])
    } else {
        chroma == energy
    }
}

/// Folds the bands into the twelve pitch classes. `gather` adds the energy of a band
/// to a sum, and `level` gives the level of an energy relative to the largest.
pub fn fold<E: Fn(Real32, Real32) -> Real32, L: Fn(Real32, Real32) -> Real32>(
    bands: &Vec<Real32>,
    gather: E,
    level: L,
) -> (chroma: Vec<Real32>)
    requires
        bands.len() == N_BANDS,
        forall|a: Real32, b: Real32| call_requires(gather, (a, b)),
        forall|a: Real32, b: Real32| call_requires(level, (a, b)),
    ensures
        exists|energy: Seq<Real32>, max: Real32| #[trigger]
            energies(gather, bands@, N_BANDS as nat, energy) && #[trigger] is_maximum_of(
                Real32 { bits: 0 },
                energy,
                CLASSES as int,
                max,
            ) && folded(level, energy, max, chroma@),
{
    let zero: Real32 = Real32::from_bits(0);
    let mut energy: Vec<Real32> = Vec::new();
    let mut c: usize = 0;
    while c < CLASSES
        invariant
            c <= CLASSES,
            energy.len() == c,
            forall|k: int| 0 <= k < c ==> (#[trigger] energy[k]) == (Real32 { bits: 0 }),
            zero == (Real32 { bits: 0 }),
        decreases CLASSES - c,
    {
        energy.push(zero);
        c = c + 1;
    }
    let mut i: usize = 0;
    while i < bands.len()
        invariant
            i <= bands.len() == N_BANDS,
            forall|a: Real32, b: Real32| call_requires(gather, (a, b)),
            energies(gather, bands@, i as nat, energy@),
        decreases bands.len() - i,
    {
        let class: usize = band_class(i);
        let ghost had = energy@;
        let sum: Real32 = gather(energy[class], bands[i]);
        energy.set(class, sum);
        proof {
            let next = (i + 1) as nat;
            assert forall|k: int| 0 <= k < CLASSES implies class_energy(gather, bands@, k, next, #[trigger] energy[k]) by {
                assert(class_energy(gather, bands@, k, (next - 1) as nat, had[k]));
                if k == class {
                    assert(call_ensures(gather, (had[k], bands@[next - 1]), sum));
                } else {
                    assert(energy[k] == had[k]);
                }
            }
        }
        i = i + 1;
    }
    let max: Real32 = maximum_of(zero, &energy);
    assert(energies(gather, bands@, N_BANDS as nat, energy@));
    assert(is_maximum_of(Real32 { bits: 0 }, energy@, CLASSES as int, max));
    if !zero.less(&max) {
        return energy;
    }
    let mut chroma: Vec<Real32> = Vec::new();
    let mut k: usize = 0;
    while k < energy.len()
        invariant
            k <= energy.len(),
            chroma.len() == k,
            forall|a: Real32, b: Real32| call_requires(level, (a, b)),
            forall|q: int| 0 <= q < k ==> call_ensures(level, (energy[q], max), #[trigger] chroma[q]),
        decreases energy.len() - k,
    {
        let l: Real32 = level(energy[k], max);
        chroma.push(l);
        k = k + 1;
    }
    assert(folded(level, energy@, max, chroma@));
    chroma
}

/// The root of a chord.
pub open spec fn root_of(chord: int) -> int {
    chord / 2
}

/// The chord is a minor one.
pub open spec fn is_minor(chord: int) -> bool {
    chord % 2 == 1
}

/// The third above the root, in semitones.
pub open spec fn third_of(chord: int) -> int {
    if is_minor(chord) {
        3
    } else {
        4
    }
}

/// A pitch class belongs to a triad: it is the root, the third or the fifth.
pub open spec fn in_triad(chord: int, class: int) -> bool {
    let root = root_of(chord);
    class == root || class == (root + third_of(chord)) % 12 || class == (root + 7) % 12
}

/// The pitch classes of a triad.
pub fn triad(chord: usize) -> (template: Vec<bool>)
    requires
        chord < CHORDS,
    ensures
        template@ == Seq::new(CLASSES as nat, |class: int| in_triad(chord as int, class)),
{
    let root: usize = chord / 2;
    let third: usize = if chord % 2 == 1 { 3 } else { 4 };
    let mut template: Vec<bool> = Vec::new();
    let mut class: usize = 0;
    while class < CLASSES
        invariant
            class <= CLASSES,
            root == root_of(chord as int),
            root < 12,
            third == third_of(chord as int),
            template@ == Seq::new(class as nat, |c: int| in_triad(chord as int, c)),
        decreases CLASSES - class,
    {
        template.push(class == root || class == (root + third) % 12 || class == (root + 7) % 12);
        class = class + 1;
        assert(template@ =~= Seq::new(class as nat, |c: int| in_triad(chord as int, c)));
    }
    template
}

/// A triad has three different pitch classes, and triads differ.
pub proof fn triads_differ(a: int, b: int)
    requires
        0 <= a < CHORDS,
        0 <= b < CHORDS,
        forall|class: int| 0 <= class < CLASSES ==> (#[trigger] in_triad(a, class) == in_triad(b, class)),
    ensures
        root_of(a) != (root_of(a) + third_of(a)) % 12,
        root_of(a) != (root_of(a) + 7) % 12,
        (root_of(a) + third_of(a)) % 12 != (root_of(a) + 7) % 12,
        a == b,
{
    let ra = root_of(a);
    assert(in_triad(a, ra) == in_triad(b, ra));
    assert(in_triad(a, (ra + third_of(a)) % 12) == in_triad(b, (ra + third_of(a)) % 12));
    assert(in_triad(a, (ra + 7) % 12) == in_triad(b, (ra + 7) % 12));
}

/// The chords by descending score, equal ones as they stand.
pub open spec fn ranking(scores: Seq<Real32>) -> Seq<usize> {
    sorted_positions(descending_keys(scores))
}

/// The first chord in the ranking behind the best whose root is another.
pub open spec fn rival_from(order: Seq<usize>, k: int) -> Option<usize>
    decreases order.len() - k,
{
    if k >= order.len() {
        None
    } else if root_of(order[k] as int) != root_of(order[0] as int) {
        Some(order[k])
    } else {
        rival_from(order, k + 1)
    }
}

/// The best chord, and the best one of another root.
pub fn rank_chords(scores: &Vec<Real32>) -> (r: (usize, usize))
    requires
        scores.len() == CHORDS,
    ensures
        r.0 == ranking(scores@)[0],
        rival_from(ranking(scores@), 1) == Some(r.1),
        r.0 < CHORDS,
        r.1 < CHORDS,
        root_of(r.0 as int) != root_of(r.1 as int),
{
    let order: Vec<usize> = descending(scores);
    let ghost keys = descending_keys(scores@);
    let mut k: usize = 1;
    while k < order.len() && order[k] / 2 == order[0] / 2
        invariant
            1 <= k <= order.len() == CHORDS,
            keys.len() == CHORDS,
            is_stable_order(keys, order@),
            rival_from(order@, 1) == rival_from(order@, k as int),
            forall|j: int| 0 <= j < k ==> root_of((#[trigger] order[j]) as int) == root_of(order[0] as int),
        decreases order.len() - k,
    {
        k = k + 1;
    }
    proof {
        if k == order.len() {
            // Chords 0 and 2 have different roots, and both are ranked.
            assert(order@.contains(0) && order@.contains(2));
            let a = choose|i: int| 0 <= i < order.len() && order[i] == 0;
            let b = choose|i: int| 0 <= i < order.len() && order[i] == 2;
            assert(root_of(order[a] as int) == root_of(order[b] as int));
        }
    }
    (order[0], order[k])
}

/// The best chord has no score above it, and no chord of another root has one
/// above the rival's.
pub proof fn ranking_is_by_score(scores: Seq<Real32>, chord: usize)
    requires
        scores.len() == CHORDS,
        chord < CHORDS,
    ensures
        scores[chord as int].total_rank() <= scores[ranking(scores)[0] as int].total_rank(),
        root_of(chord as int) != root_of(ranking(scores)[0] as int) ==> {
            &&& rival_from(ranking(scores), 1) is Some
            &&& scores[chord as int].total_rank() <= scores[rival_from(ranking(scores), 1)->0 as int].total_rank()
        },
{
    let keys = descending_keys(scores);
    let order = ranking(scores);
    crate::order::keys_can_be_ordered(keys);
    assert(order.contains(chord));
    let at = choose|i: int| 0 <= i < order.len() && order[i] == chord;
    if at > 0 {
        assert(crate::order::precedes(keys, order[0] as int, order[at] as int));
    }
    if root_of(chord as int) != root_of(order[0] as int) {
        rival_comes_first(order, 1, at);
        let r = rival_from(order, 1)->0;
        let j = choose|j: int| 1 <= j <= at && order[j] == r;
        if j < at {
            assert(crate::order::precedes(keys, order[j] as int, order[at] as int));
        }
    }
}

proof fn rival_comes_first(order: Seq<usize>, k: int, at: int)
    requires
        0 <= k <= at < order.len(),
        root_of(order[at] as int) != root_of(order[0] as int),
    ensures
        rival_from(order, k) is Some,
        exists|j: int| k <= j <= at && order[j] == rival_from(order, k)->0,
    decreases at - k,
{
    if root_of(order[k] as int) != root_of(order[0] as int) {
        assert(order[k] == rival_from(order, k)->0);
    } else {
        rival_comes_first(order, k + 1, at);
        let j = choose|j: int| k + 1 <= j <= at && order[j] == rival_from(order, k + 1)->0;
        assert(order[j] == rival_from(order, k)->0);
    }
}

/// A recognized chord.
pub struct Chord {
    /// e.g. "A" (major) or "Am" (minor).
    pub name: String,
    /// Its score.
    pub confidence: Real32,
}

/// The name of a chord.
pub open spec fn chord_name(chord: int) -> Seq<char> {
    class_name(root_of(chord)) + if is_minor(chord) {
        "m"@
    } else {
        ""@
    }
}

/// Whether there is enough to hear for a chord, given the norm of the classes.
pub fn sounds(norm: &Real32) -> (r: bool)
    ensures
        r == !norm.below(Real32 { bits: NORM_FLOOR }),
{
    !norm.less(&Real32::from_bits(NORM_FLOOR))
}

/// `chord` names the best chord if its score and its margin over the best chord of
/// another root are large enough.
pub open spec fn named(best: int, score: Real32, margin: Real32, chord: Option<Chord>) -> bool {
    match chord {
        Some(c) => {
            &&& !score.below(Real32 { bits: MIN_SCORE })
            &&& !margin.below(Real32 { bits: MIN_MARGIN })
            &&& c.name@ == chord_name(best)
            &&& c.confidence == score
        },
        None => score.below(Real32 { bits: MIN_SCORE }) || margin.below(Real32 { bits: MIN_MARGIN }),
    }
}

/// Names the best chord if its score and its margin over the best chord of
/// another root are large enough, so a single ambiguous note doesn't get labeled
/// a chord.
pub fn name_chord(best: usize, score: Real32, margin: Real32) -> (chord: Option<Chord>)
    requires
        best < CHORDS,
    ensures
        named(best as int, score, margin, chord),
{
    if score.less(&Real32::from_bits(MIN_SCORE)) || margin.less(&Real32::from_bits(MIN_MARGIN)) {
        return None;
    }
    let mut name: String = String::from_str(pitch_class(best / 2));
    name.append(if best % 2 == 1 { "m" } else { "" });
    Some(Chord { name, confidence: score })
}

/// `r` comes from zero by taking in the first `n` pitch classes, each with whether it
/// belongs to the chord.
pub open spec fn projected<D: Fn(Real32, Real32, bool) -> Real32>(
    dot: D,
    chroma: Seq<Real32>,
    chord: int,
    n: nat,
    r: Real32,
) -> bool
    decreases n,
{
    if n == 0 {
        r == (Real32 { bits: 0 })
    } else {
        exists|m: Real32|
            projected(dot, chroma, chord, (n - 1) as nat, m) && #[trigger] call_ensures(
                dot,
                (m, chroma[n - 1], in_triad(chord, n - 1)),
                r,
            )
    }
}

/// The score of a chord.
pub open spec fn scored_as<D: Fn(Real32, Real32, bool) -> Real32, S: Fn(Real32, Real32) -> Real32>(
    dot: D,
    score: S,
    chroma: Seq<Real32>,
    norm: Real32,
    chord: int,
    r: Real32,
) -> bool {
    exists|d: Real32|
        projected(dot, chroma, chord, CLASSES as nat, d) && #[trigger] call_ensures(score, (d, norm), r)
}

/// The scores of all chords.
pub open spec fn all_scored<D: Fn(Real32, Real32, bool) -> Real32, S: Fn(Real32, Real32) -> Real32>(
    dot: D,
    score: S,
    chroma: Seq<Real32>,
    norm: Real32,
    scores: Seq<Real32>,
) -> bool {
    &&& scores.len() == CHORDS
    &&& forall|k: int| 0 <= k < CHORDS ==> scored_as(dot, score, chroma, norm, k, #[trigger] scores[k])
}

/// The score of the best chord.
pub open spec fn best_score(scores: Seq<Real32>) -> Real32 {
    scores[ranking(scores)[0] as int]
}

/// The score of the best chord of another root.
pub open spec fn rival_score(scores: Seq<Real32>) -> Real32 {
    scores[rival_from(ranking(scores), 1)->0 as int]
}

/// `r` is the norm of some values.
pub open spec fn is_norm<N: Fn(Vec<Real32>) -> Real32>(norm: N, values: Seq<Real32>, r: Real32) -> bool {
    exists|v: Vec<Real32>| #[trigger] v@ == values && call_ensures(norm, (v,), r)
}

/// The score of a chord.
fn score_of<D: Fn(Real32, Real32, bool) -> Real32, S: Fn(Real32, Real32) -> Real32>(
    dot: &D,
    score: &S,
    chroma: &Vec<Real32>,
    norm: Real32,
    chord: usize,
) -> (r: Real32)
    requires
        chroma.len() == CLASSES,
        chord < CHORDS,
        forall|a: Real32, c: Real32, b: bool| call_requires(*dot, (a, c, b)),
        forall|a: Real32, b: Real32| call_requires(*score, (a, b)),
    ensures
        scored_as(*dot, *score, chroma@, norm, chord as int, r),
{
    let members: Vec<bool> = triad(chord);
    let mut d: Real32 = Real32::from_bits(0);
    let mut n: usize = 0;
    while n < CLASSES
        invariant
            n <= CLASSES == chroma.len(),
            members@ == Seq::new(CLASSES as nat, |class: int| in_triad(chord as int, class)),
            forall|a: Real32, c: Real32, b: bool| call_requires(*dot, (a, c, b)),
            projected(*dot, chroma@, chord as int, n as nat, d),
        decreases CLASSES - n,
    {
        let ghost m = d;
        d = dot(d, chroma[n], members[n]);
        proof {
            let next = (n + 1) as nat;
            assert(projected(*dot, chroma@, chord as int, (next - 1) as nat, m));
            assert(call_ensures(*dot, (m, chroma@[next - 1], in_triad(chord as int, next - 1)), d));
        }
        n = n + 1;
    }
    score(d, norm)
}

/// `chord` is what the pitch classes sound like: none where they are too quiet, else the
/// best of the 24 triads, where it is good enough.
pub open spec fn is_chord_of<
    N: Fn(Vec<Real32>) -> Real32,
    D: Fn(Real32, Real32, bool) -> Real32,
    S: Fn(Real32, Real32) -> Real32,
    M: Fn(Real32, Real32) -> Real32,
>(norm: N, dot: D, score: S, minus: M, chroma: Seq<Real32>, chord: Option<Chord>) -> bool {
    exists|size: Real32| #[trigger]
        is_norm(norm, chroma, size) && if size.below(Real32 { bits: NORM_FLOOR }) {
            chord is None
        } else {
            exists|scores: Seq<Real32>, margin: Real32| #[trigger]
                all_scored(dot, score, chroma, size, scores) && #[trigger] call_ensures(
                    minus,
                    (best_score(scores), rival_score(scores)),
                    margin,
                ) && named(ranking(scores)[0] as int, best_score(scores), margin, chord)
        }
}

/// Matches the pitch classes against the 24 triads. Requires both a decent score and
/// a margin over the best chord of another root. `norm` gives the norm of the
/// classes, `dot` takes in a class that belongs to a chord or does not, `score`
/// relates the outcome to the norm, and `minus` gives the margin of two scores.
pub fn detect_chord<
    N: Fn(Vec<Real32>) -> Real32,
    D: Fn(Real32, Real32, bool) -> Real32,
    S: Fn(Real32, Real32) -> Real32,
    M: Fn(Real32, Real32) -> Real32,
>(chroma: &Vec<Real32>, norm: N, dot: D, score: S, minus: M) -> (chord: Option<Chord>)
    requires
        chroma.len() == CLASSES,
        forall|v: Vec<Real32>| call_requires(norm, (v,)),
        forall|a: Real32, c: Real32, b: bool| call_requires(dot, (a, c, b)),
        forall|a: Real32, b: Real32| call_requires(score, (a, b)),
        forall|a: Real32, b: Real32| call_requires(minus, (a, b)),
    ensures
        is_chord_of(norm, dot, score, minus, chroma@, chord),
{
    let copy: Vec<Real32> = section(chroma, 0, chroma.len());
    assert(copy@ =~= chroma@);
    let size: Real32 = norm(copy);
    assert(is_norm(norm, chroma@, size));
    if !sounds(&size) {
        return None;
    }
    let mut scores: Vec<Real32> = Vec::new();
    let mut k: usize = 0;
    while k < CHORDS
        invariant
            k <= CHORDS,
            scores.len() == k,
            chroma.len() == CLASSES,
            forall|a: Real32, c: Real32, b: bool| call_requires(dot, (a, c, b)),
            forall|a: Real32, b: Real32| call_requires(score, (a, b)),
            forall|q: int| 0 <= q < k ==> scored_as(dot, score, chroma@, size, q, #[trigger] scores[q]),
        decreases CHORDS - k,
    {
        let r: Real32 = score_of(&dot, &score, chroma, size, k);
        scores.push(r);
        k = k + 1;
    }
    assert(all_scored(dot, score, chroma@, size, scores@));
    let (best, rival) = rank_chords(&scores);
    let margin: Real32 = minus(scores[best], scores[rival]);
    assert(call_ensures(minus, (best_score(scores@), rival_score(scores@)), margin));
    name_chord(best, scores[best], margin)
}

/// Long-term average of the pitch classes, by which the key is estimated.
pub struct KeyEstimator<T> {
    pub avg: Vec<T>,
    pub frames: u32,
}

/// Key `k` correlates better than all before it and no worse than any behind it,
/// among the first `n`; a first correlation that is not a number stands.
pub open spec fn is_best_key(r: Seq<Real32>, n: int, k: int) -> bool {
    &&& 0 <= k < n
    &&& r[0].nan() ==> k == 0
    &&& !r[0].nan() ==> {
        &&& !r[k].nan()
        &&& forall|j: int|
            0 <= j < n && !(#[trigger] r[j]).nan() ==> {
                &&& r[j].at_most(r[k])
                &&& j < k ==> r[j].below(r[k])
            }
    }
}

/// The name of a key.
pub open spec fn key_name(key: int) -> Seq<char> {
    class_name(root_of(key)) + if is_minor(key) {
        " minor"@
    } else {
        " major"@
    }
}

/// `key` names the key that correlates best, where it does so well enough.
pub open spec fn key_named(r: Seq<Real32>, key: Option<String>) -> bool {
    exists|k: int| #[trigger]
        is_best_key(r, CHORDS as int, k) && match key {
            Some(name) => (Real32 { bits: KEY_CORRELATION }).below(r[k]) && name@ == key_name(k),
            None => !(Real32 { bits: KEY_CORRELATION }).below(r[k]),
        }
}

/// The pitch classes from `root` upwards.
pub open spec fn classes_from<T>(classes: Seq<T>, root: int) -> Seq<T> {
    Seq::new(CLASSES as nat, |i: int| classes[(root + i) % 12])
}

/// The pitch classes from `root` upwards.
fn rotated<T: Copy>(classes: &Vec<T>, root: usize) -> (r: Vec<T>)
    requires
        classes.len() == CLASSES,
        root < CLASSES,
    ensures
        r@ == classes_from(classes@, root as int),
{
    let mut r: Vec<T> = Vec::new();
    let mut i: usize = 0;
    while i < CLASSES
        invariant
            i <= CLASSES == classes.len(),
            root < CLASSES,
            r@ == classes_from(classes@, root as int).take(i as int),
        decreases CLASSES - i,
    {
        r.push(classes[(root + i) % 12]);
        i = i + 1;
        assert(r@ =~= classes_from(classes@, root as int).take(i as int));
    }
    assert(r@ =~= classes_from(classes@, root as int));
    r
}

/// The correlation of the averages with a key.
pub open spec fn correlated_at<T, C: Fn(Vec<T>, T, bool) -> Real32>(
    correlate: C,
    avg: Seq<T>,
    middle: T,
    key: int,
    r: Real32,
) -> bool {
    exists|v: Vec<T>| #[trigger]
        v@ == classes_from(avg, root_of(key)) && call_ensures(correlate, (v, middle, is_minor(key)), r)
}

/// The correlations of the averages with all keys.
pub open spec fn correlated<T, C: Fn(Vec<T>, T, bool) -> Real32>(
    correlate: C,
    avg: Seq<T>,
    middle: T,
    r: Seq<Real32>,
) -> bool {
    &&& r.len() == CHORDS
    &&& forall|k: int| 0 <= k < CHORDS ==> correlated_at(correlate, avg, middle, k, #[trigger] r[k])
}

/// `middle` is the mean of the averages.
pub open spec fn is_middle<T, N: Fn(Vec<T>) -> T>(mean: N, avg: Seq<T>, middle: T) -> bool {
    exists|v: Vec<T>| #[trigger] v@ == avg && call_ensures(mean, (v,), middle)
}

impl<T: Copy> KeyEstimator<T> {
    /// Every class has an average.
    pub open spec fn well_formed(&self) -> bool {
        self.avg.len() == CLASSES
    }

    /// No evidence yet; all averages are `zero`.
    pub fn new(zero: T) -> (r: Self)
        ensures
            r.well_formed(),
            r.frames == 0,
            r.avg@ == Seq::new(CLASSES as nat, |i: int| zero),
    {
        let mut avg: Vec<T> = Vec::new();
        let mut i: usize = 0;
        while i < CLASSES
            invariant
                i <= CLASSES,
                avg@ == Seq::new(i as nat, |k: int| zero),
            decreases CLASSES - i,
        {
            avg.push(zero);
            i = i + 1;
            assert(avg@ =~= Seq::new(i as nat, |k: int| zero));
        }
        KeyEstimator { avg, frames: 0 }
    }

    /// `next` has taken in one more frame.
    pub open spec fn updated<S: Fn(T, T) -> T>(self, smooth: S, chroma: Seq<T>, next: Self) -> bool {
        &&& next.well_formed()
        &&& forall|i: int| 0 <= i < CLASSES ==> call_ensures(smooth, (self.avg[i], chroma[i]), #[trigger] next.avg[i])
        &&& next.frames == self.frames + 1
    }

    /// `key` is the one that the averages correlate best with, where there is enough
    /// evidence.
    pub open spec fn is_key<N: Fn(Vec<T>) -> T, C: Fn(Vec<T>, T, bool) -> Real32>(
        self,
        mean: N,
        correlate: C,
        key: Option<String>,
    ) -> bool {
        if self.frames < KEY_FRAMES {
            key is None
        } else {
            exists|middle: T, r: Seq<Real32>| #[trigger]
                correlated(correlate, self.avg@, middle, r) && is_middle(mean, self.avg@, middle) && key_named(r, key)
        }
    }

    /// Takes in a frame. `smooth` blends a class into its average.
    pub fn update<S: Fn(T, T) -> T>(&mut self, chroma: &Vec<T>, smooth: S)
        requires
            old(self).well_formed(),
            chroma.len() == CLASSES,
            old(self).frames < u32::MAX,
            forall|a: T, c: T| call_requires(smooth, (a, c)),
        ensures
            old(self).updated(smooth, chroma@, *final(self)),
    {
        let mut avg: Vec<T> = Vec::new();
        let mut i: usize = 0;
        while i < CLASSES
            invariant
                i <= CLASSES == chroma.len(),
                avg.len() == i,
                *self == *old(self),
                self.well_formed(),
                forall|a: T, c: T| call_requires(smooth, (a, c)),
                forall|k: int| 0 <= k < i ==> call_ensures(smooth, (self.avg[k], chroma[k]), #[trigger] avg[k]),
            decreases CLASSES - i,
        {
            let a: T = smooth(self.avg[i], chroma[i]);
            avg.push(a);
            i = i + 1;
        }
        self.avg = avg;
        self.frames = self.frames + 1;
    }

    /// e.g. "A major" or "F# minor"; none until enough evidence accumulates.
    /// `mean` gives the mean of the averages, and `correlate` correlates the averages,
    /// from the root of a key upwards and with that mean, with the profile of minor or
    /// major keys.
    pub fn estimate<N: Fn(Vec<T>) -> T, C: Fn(Vec<T>, T, bool) -> Real32>(
        &self,
        mean: N,
        correlate: C,
    ) -> (key: Option<String>)
        requires
            self.well_formed(),
            forall|v: Vec<T>| call_requires(mean, (v,)),
            forall|v: Vec<T>, middle: T, minor: bool| call_requires(correlate, (v, middle, minor)),
        ensures
            self.is_key(mean, correlate, key),
    {
        if self.frames < KEY_FRAMES {
            return None;
        }
        let copy: Vec<T> = section(&self.avg, 0, self.avg.len());
        assert(copy@ =~= self.avg@);
        let middle: T = mean(copy);
        assert(is_middle(mean, self.avg@, middle));
        let mut r: Vec<Real32> = Vec::new();
        let mut k: usize = 0;
        while k < CHORDS
            invariant
                k <= CHORDS,
                r.len() == k,
                self.well_formed(),
                forall|v: Vec<T>, middle: T, minor: bool| call_requires(correlate, (v, middle, minor)),
                forall|q: int| 0 <= q < k ==> correlated_at(correlate, self.avg@, middle, q, #[trigger] r[q]),
            decreases CHORDS - k,
        {
            let from: Vec<T> = rotated(&self.avg, k / 2);
            let c: Real32 = correlate(from, middle, k % 2 == 1);
            assert(correlated_at(correlate, self.avg@, middle, k as int, c));
            r.push(c);
            k = k + 1;
        }
        assert(correlated(correlate, self.avg@, middle, r@));
        name_key(&r)
    }
}

/// Names the key that correlates best, where it does so well enough.
pub fn name_key(correlations: &Vec<Real32>) -> (key: Option<String>)
    requires
        correlations.len() == CHORDS,
    ensures
        key_named(correlations@, key),
{
    let mut best: usize = 0;
    let mut k: usize = 1;
    while k < CHORDS
        invariant
            1 <= k <= CHORDS == correlations.len(),
            is_best_key(correlations@, k as int, best as int),
        decreases CHORDS - k,
    {
        if correlations[best].less(&correlations[k]) {
            best = k;
        }
        k = k + 1;
    }
    assert(is_best_key(correlations@, CHORDS as int, best as int));
    if !Real32::from_bits(KEY_CORRELATION).less(&correlations[best]) {
        return None;
    }
    let mut name: String = String::from_str(pitch_class(best / 2));
    name.append(if best % 2 == 1 { " minor" } else { " major" });
    Some(name)
}

/// `sums` come from zeros by taking in the first `n` classes: the products with the
/// profile, and the squares of either.
pub open spec fn compared<T, A: Fn((Real32, Real32, Real32), T, usize) -> (Real32, Real32, Real32)>(
    take: A,
    classes: Seq<T>,
    n: nat,
    sums: (Real32, Real32, Real32),
) -> bool
    decreases n,
{
    let zero = Real32 { bits: 0 };
    if n == 0 {
        sums == (zero, zero, zero)
    } else {
        exists|before: (Real32, Real32, Real32)|
            compared(take, classes, (n - 1) as nat, before) && #[trigger] call_ensures(
                take,
                (before, classes[n - 1], (n - 1) as usize),
                sums,
            )
    }
}

/// The correlation of some classes with a profile: zero where either is flat. `take`
/// takes in a class and its place in the profile, `quotient` relates the sums.
pub fn correlation<
    T: Copy,
    A: Fn((Real32, Real32, Real32), T, usize) -> (Real32, Real32, Real32),
    Q: Fn(Real32, Real32, Real32) -> Real32,
>(classes: &Vec<T>, take: A, quotient: Q) -> (r: Real32)
    requires
        forall|s: (Real32, Real32, Real32), c: T, i: usize| call_requires(take, (s, c, i)),
        forall|a: Real32, b: Real32, c: Real32| call_requires(quotient, (a, b, c)),
    ensures
        exists|sums: (Real32, Real32, Real32)| #[trigger]
            compared(take, classes@, classes.len() as nat, sums) && if sums.1.at_most(Real32 { bits: 0 })
                || sums.2.at_most(Real32 { bits: 0 }) {
                r == (Real32 { bits: 0 })
            } else {
                call_ensures(quotient, sums, r)
            },
{
    let zero: Real32 = Real32::from_bits(0);
    let mut sums: (Real32, Real32, Real32) = (zero, zero, zero);
    let mut n: usize = 0;
    while n < classes.len()
        invariant
            n <= classes.len(),
            forall|s: (Real32, Real32, Real32), c: T, i: usize| call_requires(take, (s, c, i)),
            compared(take, classes@, n as nat, sums),
        decreases classes.len() - n,
    {
        let ghost before = sums;
        sums = take(sums, classes[n], n);
        proof {
            let next = (n + 1) as nat;
            assert(compared(take, classes@, (next - 1) as nat, before));
            assert(call_ensures(take, (before, classes@[next - 1], (next - 1) as usize), sums));
        }
        n = n + 1;
    }
    assert(compared(take, classes@, classes.len() as nat, sums));
    if sums.1.less_or_equal(&zero) || sums.2.less_or_equal(&zero) {
        zero
    } else {
        quotient(sums.0, sums.1, sums.2)
    }
}

/// The best key is determined by the correlations.
pub proof fn best_key_is_unique(r: Seq<Real32>, n: int, a: int, b: int)
    requires
        is_best_key(r, n, a),
        is_best_key(r, n, b),
    ensures
        a == b,
{
}

/// The dominant pitch class: the largest, the last of several, where it is large
/// enough.
pub fn dominant(chroma: &Vec<Real32>) -> (class: Option<usize>)
    ensures
        match class {
            Some(k) => crate::order::is_last_largest(chroma@, chroma.len() as int, k as int) && (Real32 {
                bits: DOMINANT,
            }).below(chroma[k as int]),
            None => chroma.len() == 0 || exists|k: int|
                #![trigger crate::order::is_last_largest(chroma@, chroma.len() as int, k)]
                crate::order::is_last_largest(chroma@, chroma.len() as int, k) && !(Real32 { bits: DOMINANT }).below(
                    chroma[k],
                ),
        },
{
    match crate::order::last_largest(chroma) {
        Some(k) => {
            if Real32::from_bits(DOMINANT).less(&chroma[k]) {
                Some(k)
            } else {
                assert(crate::order::is_last_largest(chroma@, chroma.len() as int, k as int));
                None
            }
        },
        None => None,
    }
}

} // verus!
