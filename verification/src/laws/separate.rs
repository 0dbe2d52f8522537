//! Which second string is found beside the first.

use vstd::prelude::*;

use crate::dsp::duet::{all_lie, are_harmonics, are_octaves, lies, pick_second};
use crate::dsp::peaks::Track;
use crate::dsp::separate::{choose_second, is_candidate, is_choice, is_octave_of, is_second, is_strongest};
use crate::dsp::separate::{measured, qualifies, second_is_unique, Overtones};
use crate::ieee::Real32;

verus! {

/// Track `i` may be a string of its own: seen three times, in range, above the level
/// `least`, and more than 90 cents, sharp or flat, from each of the first ten harmonics
/// of the primary.
pub open spec fn rings(
    tracks: Seq<Track>,
    range: (Real32, Real32),
    least: Real32,
    primary: Real32,
    times: spec_fn(Real32, usize) -> Real32,
    cents: spec_fn(Real32, Real32) -> Real32,
    i: int,
) -> bool {
    &&& tracks[i].age >= 3
    &&& range.0.at_most(tracks[i].freq)
    &&& tracks[i].freq.at_most(range.1)
    &&& least.below(tracks[i].db)
    &&& forall|k: usize|
        1 <= k <= 10 ==> (Real32 { bits: 0x42b4_0000 }).below(
            cents(tracks[i].freq, #[trigger] times(primary, k)).unsigned(),
        )
}

/// Track `i` is within 90 cents of the octave above track `j`, which lies under nine
/// tenths of its frequency and may be a string of its own.
pub open spec fn echoes(
    tracks: Seq<Track>,
    range: (Real32, Real32),
    least: Real32,
    primary: Real32,
    times: spec_fn(Real32, usize) -> Real32,
    cents: spec_fn(Real32, Real32) -> Real32,
    part: spec_fn(Real32, Real32) -> Real32,
    i: int,
    j: int,
) -> bool {
    &&& rings(tracks, range, least, primary, times, cents, j)
    &&& tracks[j].freq.below(part(tracks[i].freq, Real32 { bits: 0x3f66_6666 }))
    &&& cents(tracks[i].freq, times(tracks[j].freq, 2)).unsigned().below(Real32 { bits: 0x42b4_0000 })
}

/// Track `i` is a second string: it may be a string of its own, and is the octave of no
/// track that may.
pub open spec fn is_string(
    tracks: Seq<Track>,
    range: (Real32, Real32),
    least: Real32,
    primary: Real32,
    times: spec_fn(Real32, usize) -> Real32,
    cents: spec_fn(Real32, Real32) -> Real32,
    part: spec_fn(Real32, Real32) -> Real32,
    i: int,
) -> bool {
    &&& rings(tracks, range, least, primary, times, cents, i)
    &&& forall|j: int|
        0 <= j < tracks.len() ==> !#[trigger] echoes(tracks, range, least, primary, times, cents, part, i, j)
}

/// The functions that measure have these values.
pub open spec fn measures<
    M: Fn(Real32, usize) -> Real32,
    C: Fn(Real32, Real32) -> Real32,
    N: Fn(Real32, Real32) -> Real32,
>(
    times: M,
    between: C,
    part: N,
    t: spec_fn(Real32, usize) -> Real32,
    c: spec_fn(Real32, Real32) -> Real32,
    p: spec_fn(Real32, Real32) -> Real32,
) -> bool {
    &&& forall|f: Real32, k: usize, r: Real32| #[trigger] call_ensures(times, (f, k), r) ==> r == t(f, k)
    &&& forall|a: Real32, b: Real32, r: Real32| #[trigger] call_ensures(between, (a, b), r) ==> r == c(a, b)
    &&& forall|a: Real32, b: Real32, r: Real32| #[trigger] call_ensures(part, (a, b), r) ==> r == p(a, b)
}

proof fn qualifying_rings<
    M: Fn(Real32, usize) -> Real32,
    C: Fn(Real32, Real32) -> Real32,
    N: Fn(Real32, Real32) -> Real32,
>(
    primary: Real32,
    tracks: Seq<Track>,
    range: (Real32, Real32),
    least: Real32,
    times: M,
    between: C,
    part: N,
    t: spec_fn(Real32, usize) -> Real32,
    c: spec_fn(Real32, Real32) -> Real32,
    p: spec_fn(Real32, Real32) -> Real32,
    harmonics: Seq<Real32>,
    octaves: Seq<Real32>,
    overtones: Seq<Overtones>,
    i: int,
)
    requires
        measures(times, between, part, t, c, p),
        are_harmonics(times, primary, harmonics),
        all_lie(between, part, tracks, harmonics, octaves, overtones),
        0 <= i < tracks.len(),
    ensures
        qualifies(tracks[i], overtones[i], range, least) == rings(tracks, range, least, primary, t, c, i),
{
    let o = overtones[i];
    assert(lies(between, part, tracks[i].freq, harmonics, octaves, o));
    assert forall|k: int| 0 <= k < 10 implies (#[trigger] o.of_primary[k]) == c(
        tracks[i].freq,
        t(primary, (k + 1) as usize),
    ) by {
        assert(call_ensures(between, (tracks[i].freq, harmonics[k]), o.of_primary@[k]));
        assert(call_ensures(times, (primary, (k + 1) as usize), harmonics[k]));
    }
    if qualifies(tracks[i], o, range, least) {
        assert forall|k: usize| 1 <= k <= 10 implies (Real32 { bits: 0x42b4_0000 }).below(
            c(tracks[i].freq, #[trigger] t(primary, k)).unsigned(),
        ) by {
            assert((Real32 { bits: 0x42b4_0000 }).below(o.of_primary[k - 1].unsigned()));
        }
    }
    if rings(tracks, range, least, primary, t, c, i) {
        assert forall|k: int| 0 <= k < 10 implies (Real32 { bits: 0x42b4_0000 }).below(
            (#[trigger] o.of_primary[k]).unsigned(),
        ) by {
            let m = (k + 1) as usize;
            assert((Real32 { bits: 0x42b4_0000 }).below(c(tracks[i].freq, t(primary, m)).unsigned()));
        }
    }
}

/// A second string is found exactly if there is one, and it is the loudest, the last of
/// equally loud ones. It may lie above or below the primary: of the distances from the
/// harmonics and from octaves only the size counts. The level to exceed is what `minus`
/// makes of the loudest level and 30 dB.
pub proof fn second_string_is_found<
    M: Fn(Real32, usize) -> Real32,
    C: Fn(Real32, Real32) -> Real32,
    N: Fn(Real32, Real32) -> Real32,
>(
    primary: Real32,
    tracks: Seq<Track>,
    range: (Real32, Real32),
    least: Real32,
    times: M,
    between: C,
    part: N,
    t: spec_fn(Real32, usize) -> Real32,
    c: spec_fn(Real32, Real32) -> Real32,
    p: spec_fn(Real32, Real32) -> Real32,
    harmonics: Seq<Real32>,
    octaves: Seq<Real32>,
    overtones: Seq<Overtones>,
    best: Real32,
    second: Option<Real32>,
)
    requires
        measures(times, between, part, t, c, p),
        are_harmonics(times, primary, harmonics),
        are_octaves(times, tracks, octaves),
        all_lie(between, part, tracks, harmonics, octaves, overtones),
        is_strongest(tracks, best, tracks.len() as int),
        is_choice(tracks, overtones, range, least, second),
    ensures
        second is Some <==> exists|i: int|
            0 <= i < tracks.len() && #[trigger] is_string(tracks, range, least, primary, t, c, p, i),
        second matches Some(f) ==> exists|i: int|
            0 <= i < tracks.len() && #[trigger] is_string(tracks, range, least, primary, t, c, p, i) && f
                == tracks[i].freq && forall|j: int|
                0 <= j < tracks.len() && #[trigger] is_string(tracks, range, least, primary, t, c, p, j) ==> {
                    &&& tracks[j].db.total_rank() <= tracks[i].db.total_rank()
                    &&& j > i ==> tracks[j].db.total_rank() < tracks[i].db.total_rank()
                },
        forall|i: int| 0 <= i < tracks.len() && !(#[trigger] tracks[i]).db.nan() ==> tracks[i].db.at_most(best),
        best.bits == 0xff80_0000 || exists|i: int| 0 <= i < tracks.len() && best == (#[trigger] tracks[i]).db,
{
    let n = tracks.len() as int;
    assert forall|i: int| 0 <= i < n implies #[trigger] is_candidate(tracks, overtones, range, least, i) == is_string(
        tracks,
        range,
        least,
        primary,
        t,
        c,
        p,
        i,
    ) by {
        qualifying_rings(primary, tracks, range, least, times, between, part, t, c, p, harmonics, octaves, overtones, i);
        assert forall|j: int| 0 <= j < n implies #[trigger] is_octave_of(tracks, overtones, range, least, i, j) == echoes(
            tracks,
            range,
            least,
            primary,
            t,
            c,
            p,
            i,
            j,
        ) by {
            qualifying_rings(
                primary,
                tracks,
                range,
                least,
                times,
                between,
                part,
                t,
                c,
                p,
                harmonics,
                octaves,
                overtones,
                j,
            );
            let o = overtones[i];
            assert(lies(between, part, tracks[i].freq, harmonics, octaves, o));
            assert(call_ensures(between, (tracks[i].freq, octaves[j]), o.of_track@[j]));
            assert(call_ensures(times, (tracks[j].freq, 2usize), octaves[j]));
        }
        if is_candidate(tracks, overtones, range, least, i) {
            assert forall|j: int| 0 <= j < n implies !#[trigger] echoes(
                tracks,
                range,
                least,
                primary,
                t,
                c,
                p,
                i,
                j,
            ) by {
                assert(!is_octave_of(tracks, overtones, range, least, i, j));
            }
        }
        if is_string(tracks, range, least, primary, t, c, p, i) {
            assert forall|j: int| 0 <= j < n implies !#[trigger] is_octave_of(
                tracks,
                overtones,
                range,
                least,
                i,
                j,
            ) by {
                assert(!echoes(tracks, range, least, primary, t, c, p, i, j));
            }
        }
    }
    match second {
        Some(f) => {
            let i = choose|i: int| #[trigger] is_second(tracks, overtones, range, least, i, n) && f == tracks[i].freq;
            assert(is_second(tracks, overtones, range, least, i, n));
            assert(is_candidate(tracks, overtones, range, least, i));
            assert(is_string(tracks, range, least, primary, t, c, p, i));
            assert forall|j: int|
                0 <= j < n && #[trigger] is_string(tracks, range, least, primary, t, c, p, j) implies {
                &&& tracks[j].db.total_rank() <= tracks[i].db.total_rank()
                &&& j > i ==> tracks[j].db.total_rank() < tracks[i].db.total_rank()
            } by {
                assert(is_candidate(tracks, overtones, range, least, j));
            }
        },
        None => {
            assert forall|i: int| 0 <= i < n implies !#[trigger] is_string(
                tracks,
                range,
                least,
                primary,
                t,
                c,
                p,
                i,
            ) by {
                assert(!is_candidate(tracks, overtones, range, least, i));
            }
        },
    }
}

/// The same distances, each sharp or flat.
pub open spec fn same_sizes(a: Overtones, b: Overtones) -> bool {
    &&& a.of_primary.len() == b.of_primary.len()
    &&& a.of_track.len() == b.of_track.len()
    &&& a.ceiling == b.ceiling
    &&& forall|k: int|
        0 <= k < a.of_primary.len() ==> (#[trigger] a.of_primary[k]).unsigned() == b.of_primary[k].unsigned()
    &&& forall|k: int| 0 <= k < a.of_track.len() ==> (#[trigger] a.of_track[k]).unsigned() == b.of_track[k].unsigned()
}

/// Whether the distances are sharp or flat changes nothing.
pub proof fn signs_of_distances_do_not_matter(
    tracks: Seq<Track>,
    a: Seq<Overtones>,
    b: Seq<Overtones>,
    range: (Real32, Real32),
    floor: Real32,
    second: Option<Real32>,
)
    requires
        measured(tracks, a),
        measured(tracks, b),
        forall|i: int| 0 <= i < tracks.len() ==> same_sizes(#[trigger] a[i], b[i]),
        is_choice(tracks, a, range, floor, second),
    ensures
        is_choice(tracks, b, range, floor, second),
{
    let n = tracks.len() as int;
    assert forall|i: int| 0 <= i < n implies qualifies(tracks[i], #[trigger] a[i], range, floor) == qualifies(
        tracks[i],
        b[i],
        range,
        floor,
    ) by {
        assert(same_sizes(a[i], b[i]));
        if qualifies(tracks[i], b[i], range, floor) {
            assert forall|k: int| 0 <= k < 10 implies (Real32 { bits: 0x42b4_0000 }).below(
                (#[trigger] a[i].of_primary[k]).unsigned(),
            ) by {
                assert((Real32 { bits: 0x42b4_0000 }).below(b[i].of_primary[k].unsigned()));
            }
        }
        if qualifies(tracks[i], a[i], range, floor) {
            assert forall|k: int| 0 <= k < 10 implies (Real32 { bits: 0x42b4_0000 }).below(
                (#[trigger] b[i].of_primary[k]).unsigned(),
            ) by {
                assert((Real32 { bits: 0x42b4_0000 }).below(a[i].of_primary[k].unsigned()));
            }
        }
    }
    assert forall|i: int| 0 <= i < n implies #[trigger] is_candidate(tracks, a, range, floor, i) == is_candidate(
        tracks,
        b,
        range,
        floor,
        i,
    ) by {
        assert(same_sizes(a[i], b[i]));
        assert forall|j: int| 0 <= j < n implies is_octave_of(tracks, a, range, floor, i, j) == is_octave_of(
            tracks,
            b,
            range,
            floor,
            i,
            j,
        ) by {
            assert(same_sizes(a[j], b[j]));
            assert(a[i].of_track[j].unsigned() == b[i].of_track[j].unsigned());
        }
        if is_candidate(tracks, a, range, floor, i) {
            assert forall|j: int| 0 <= j < n implies !#[trigger] is_octave_of(tracks, b, range, floor, i, j) by {
                assert(!is_octave_of(tracks, a, range, floor, i, j));
            }
        }
        if is_candidate(tracks, b, range, floor, i) {
            assert forall|j: int| 0 <= j < n implies !#[trigger] is_octave_of(tracks, a, range, floor, i, j) by {
                assert(!is_octave_of(tracks, b, range, floor, i, j));
            }
        }
    }
    match second {
        Some(f) => {
            let i = choose|i: int| #[trigger] is_second(tracks, a, range, floor, i, n) && f == tracks[i].freq;
            assert(is_candidate(tracks, a, range, floor, i));
            assert forall|j: int| 0 <= j < n && #[trigger] is_candidate(tracks, b, range, floor, j) implies {
                &&& tracks[j].db.total_rank() <= tracks[i].db.total_rank()
                &&& j > i ==> tracks[j].db.total_rank() < tracks[i].db.total_rank()
            } by {
                assert(is_candidate(tracks, a, range, floor, j));
            }
            assert(is_second(tracks, b, range, floor, i, n));
        },
        None => {
            assert forall|i: int| 0 <= i < n implies !#[trigger] is_candidate(tracks, b, range, floor, i) by {
                assert(!is_candidate(tracks, a, range, floor, i));
            }
        },
    }
}

/// The second string that is picked beside a primary: there is one exactly if some track is
/// a second string, and it is the loudest of these.
pub proof fn second_string_is_picked<
    M: Fn(Real32, usize) -> Real32,
    C: Fn(Real32, Real32) -> Real32,
    N: Fn(Real32, Real32) -> Real32,
    F: Fn(Real32, Real32) -> Real32,
>(
    primary: Real32,
    tracks: &Vec<Track>,
    range: (Real32, Real32),
    times: M,
    between: C,
    part: N,
    minus: F,
    t: spec_fn(Real32, usize) -> Real32,
    c: spec_fn(Real32, Real32) -> Real32,
    p: spec_fn(Real32, Real32) -> Real32,
    second: Option<Real32>,
) -> (w: (Real32, Real32))
    requires
        measures(times, between, part, t, c, p),
        call_ensures(pick_second::<M, C, N, F>, (primary, tracks, range, times, between, part, minus), second),
    ensures
        ({
            let (best, least) = w;
            &&& forall|i: int| 0 <= i < tracks.len() && !(#[trigger] tracks[i]).db.nan() ==> tracks[i].db.at_most(best)
            &&& best.bits == 0xff80_0000 || exists|i: int| 0 <= i < tracks.len() && best == (#[trigger] tracks[i]).db
            &&& call_ensures(minus, (best, Real32 { bits: 0x41f0_0000 }), least)
            &&& second is Some <==> exists|i: int|
                0 <= i < tracks.len() && #[trigger] is_string(tracks@, range, least, primary, t, c, p, i)
            &&& second matches Some(f) ==> exists|i: int|
                0 <= i < tracks.len() && #[trigger] is_string(tracks@, range, least, primary, t, c, p, i) && f
                    == tracks[i].freq && forall|j: int|
                    0 <= j < tracks.len() && #[trigger] is_string(tracks@, range, least, primary, t, c, p, j) ==> {
                        &&& tracks[j].db.total_rank() <= tracks[i].db.total_rank()
                        &&& j > i ==> tracks[j].db.total_rank() < tracks[i].db.total_rank()
                    }
        }),
{
    let (harmonics, octaves, overtones, best, least) = choose|
        harmonics: Seq<Real32>,
        octaves: Seq<Real32>,
        overtones: Seq<Overtones>,
        best: Real32,
        least: Real32,
    |
        #![trigger are_harmonics(times, primary, harmonics), are_octaves(times, tracks@, octaves), all_lie(between, part, tracks@, harmonics, octaves, overtones), is_strongest(tracks@, best, tracks.len() as int), call_ensures(minus, (best, Real32 { bits: 0x41f0_0000 }), least)]
        {
            &&& are_harmonics(times, primary, harmonics)
            &&& are_octaves(times, tracks@, octaves)
            &&& all_lie(between, part, tracks@, harmonics, octaves, overtones)
            &&& is_strongest(tracks@, best, tracks.len() as int)
            &&& call_ensures(minus, (best, Real32 { bits: 0x41f0_0000 }), least)
            &&& is_choice(tracks@, overtones, range, least, second)
        };
    second_string_is_found(
        primary,
        tracks@,
        range,
        least,
        times,
        between,
        part,
        t,
        c,
        p,
        harmonics,
        octaves,
        overtones,
        best,
        second,
    );
    assert forall|i: int| 0 <= i < tracks.len() && !(#[trigger] tracks[i]).db.nan() implies tracks[i].db.at_most(best) by {
        assert(tracks@[i] == tracks[i]);
    }
    if best.bits != 0xff80_0000 {
        let i = choose|i: int| 0 <= i < tracks@.len() && best == (#[trigger] tracks@[i]).db;
        assert(tracks[i].db == best);
    }
    (best, least)
}

/// A choice by the distances alone does not depend on their signs.
pub proof fn choice_does_not_depend_on_signs(
    tracks: &Vec<Track>,
    a: &Vec<Overtones>,
    b: &Vec<Overtones>,
    range: (Real32, Real32),
    floor: Real32,
    x: Option<Real32>,
    y: Option<Real32>,
)
    requires
        measured(tracks@, a@),
        measured(tracks@, b@),
        forall|i: int| 0 <= i < tracks.len() ==> same_sizes(#[trigger] a@[i], b@[i]),
        call_ensures(choose_second, (tracks, a, range, floor), x),
        call_ensures(choose_second, (tracks, b, range, floor), y),
    ensures
        x == y,
{
    let n = tracks.len() as int;
    signs_of_distances_do_not_matter(tracks@, a@, b@, range, floor, x);
    match (x, y) {
        (Some(f), Some(g)) => {
            let i = choose|i: int| #[trigger] is_second(tracks@, b@, range, floor, i, n) && f == tracks@[i].freq;
            let j = choose|j: int| #[trigger] is_second(tracks@, b@, range, floor, j, n) && g == tracks@[j].freq;
            second_is_unique(tracks@, b@, range, floor, i, j);
        },
        (Some(f), None) => {
            let i = choose|i: int| #[trigger] is_second(tracks@, b@, range, floor, i, n) && f == tracks@[i].freq;
            assert(is_candidate(tracks@, b@, range, floor, i));
        },
        (None, Some(g)) => {
            let j = choose|j: int| #[trigger] is_second(tracks@, b@, range, floor, j, n) && g == tracks@[j].freq;
            assert(is_candidate(tracks@, b@, range, floor, j));
        },
        (None, None) => {},
    }
}

} // verus!
