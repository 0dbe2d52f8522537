//! Two strings at once: which fundamentals the oscillator bank follows.

use vstd::prelude::*;

use crate::dsp::kalman::restarted;
use crate::dsp::peaks::Track;
use crate::dsp::separate::{
    choose_second, is_choice, is_strongest, measured, reseeded, strongest_db, Overtones, Separator,
    Source, PRIMARY_HARMONICS,
};
use crate::ieee::Real32;
use crate::table::{is_row, is_table, row, table};

verus! {

/// A track must be less than this below the strongest: 30 decibels, as an IEEE 754
/// pattern.
pub const FLOOR_DB: u32 = 0x41f0_0000;

/// The octave below a frequency lies under this part of it: 0.9, as an IEEE 754 pattern.
pub const CEILING: u32 = 0x3f66_6666;

/// The refined frequencies of some sources.
pub open spec fn refined(sources: Seq<Source>) -> Seq<Real32> {
    sources.map_values(|s: Source| s.freq)
}

impl<T: Copy> Separator<T> {
    /// Seed (or re-seed) the source set from frequencies, of which `between` gives the
    /// distance of two in cents. A seed near a source already being tracked continues
    /// that source: its phasor state and refined frequency survive, so per-frame
    /// detector jitter never resets the filter. Where the bank is rebuilt, rotations
    /// and reference phases are computed anew; `angle` gives the angle per sample of a
    /// harmonic of a frequency, `direction` its cosine and sine, and `phase` the phase
    /// that a phasor will have at the next boundary. Tells whether it was rebuilt.
    pub fn set_sources<
        C: Fn(Real32, Real32) -> Real32,
        A: Fn(Real32, usize) -> T,
        D: Fn(T) -> (T, T),
        P: Fn(T, T, T) -> T,
    >(&mut self, freqs: &Vec<Real32>, between: C, angle: A, direction: D, phase: P) -> (rebuilt: bool)
        requires
            old(self).well_formed(),
            forall|a: Real32, b: Real32| call_requires(between, (a, b)),
            forall|f: Real32, m: usize| call_requires(angle, (f, m)),
            forall|a: T| call_requires(direction, (a,)),
            forall|c: T, s: T, a: T| call_requires(phase, (c, s, a)),
        ensures
            final(self).well_formed(),
            exists|apart: Seq<Vec<Real32>>, away: Seq<Vec<Real32>>, seeded: Separator<T>|
                #![trigger is_table(between, freqs@, freqs@, apart), is_table(between, freqs@, refined(old(self).sources@), away), reseeded(freqs@, apart, away, *old(self), seeded, rebuilt)]
                {
                    &&& is_table(between, freqs@, freqs@, apart)
                    &&& is_table(between, freqs@, refined(old(self).sources@), away)
                    &&& reseeded(freqs@, apart, away, *old(self), seeded, rebuilt)
                    &&& if rebuilt {
                        restarted(angle, direction, phase, seeded, *final(self))
                    } else {
                        *final(self) == seeded
                    }
                },
    {
        let mut followed: Vec<Real32> = Vec::new();
        let mut i: usize = 0;
        while i < self.sources.len()
            invariant
                i <= self.sources.len(),
                followed@ == refined(self.sources@).take(i as int),
            decreases self.sources.len() - i,
        {
            followed.push(self.sources[i].freq);
            i = i + 1;
            assert(followed@ =~= refined(self.sources@).take(i as int));
        }
        assert(followed@ =~= refined(self.sources@));
        let apart: Vec<Vec<Real32>> = table(&between, freqs, freqs);
        let away: Vec<Vec<Real32>> = table(&between, freqs, &followed);
        let rebuilt: bool = self.reseed(freqs, &apart, &away);
        let ghost seeded = *self;
        assert(reseeded(freqs@, apart@, away@, *old(self), seeded, rebuilt));
        if rebuilt {
            self.restart(&angle, &direction, &phase);
        }
        rebuilt
    }
}

/// `harmonics` are the first harmonics of a frequency.
pub open spec fn are_harmonics<M: Fn(Real32, usize) -> Real32>(times: M, freq: Real32, harmonics: Seq<Real32>) -> bool {
    &&& harmonics.len() == PRIMARY_HARMONICS
    &&& forall|k: int|
        0 <= k < PRIMARY_HARMONICS ==> call_ensures(times, (freq, (k + 1) as usize), #[trigger] harmonics[k])
}

/// `octaves` are the octaves above some tracks.
pub open spec fn are_octaves<M: Fn(Real32, usize) -> Real32>(times: M, tracks: Seq<Track>, octaves: Seq<Real32>) -> bool {
    &&& octaves.len() == tracks.len()
    &&& forall|i: int| 0 <= i < tracks.len() ==> call_ensures(times, (tracks[i].freq, 2usize), #[trigger] octaves[i])
}

/// `o` tells how a frequency lies to some harmonics and to some octaves.
pub open spec fn lies<C: Fn(Real32, Real32) -> Real32, N: Fn(Real32, Real32) -> Real32>(
    between: C,
    part: N,
    freq: Real32,
    harmonics: Seq<Real32>,
    octaves: Seq<Real32>,
    o: Overtones,
) -> bool {
    &&& is_row(between, freq, harmonics, o.of_primary@)
    &&& call_ensures(part, (freq, Real32 { bits: CEILING }), o.ceiling)
    &&& is_row(between, freq, octaves, o.of_track@)
}

/// `overtones` tell how the tracks lie to some harmonics and to some octaves.
pub open spec fn all_lie<C: Fn(Real32, Real32) -> Real32, N: Fn(Real32, Real32) -> Real32>(
    between: C,
    part: N,
    tracks: Seq<Track>,
    harmonics: Seq<Real32>,
    octaves: Seq<Real32>,
    overtones: Seq<Overtones>,
) -> bool {
    &&& overtones.len() == tracks.len()
    &&& forall|i: int|
        0 <= i < tracks.len() ==> lies(between, part, tracks[i].freq, harmonics, octaves, #[trigger] overtones[i])
}

/// Choose a second fundamental from the tracked spectral peaks: the strongest
/// aged track that is neither a harmonic of the primary nor the octave partial
/// of a lower qualifying track. Known limitation: a second string whose
/// fundamental coincides with a harmonic of the first is indistinguishable by
/// frequency alone and is rejected as well.
///
/// `times` gives a multiple of a frequency, `between` the distance of two in cents,
/// `part` a part of a frequency, and `minus` the difference of two levels.
pub fn pick_second<
    M: Fn(Real32, usize) -> Real32,
    C: Fn(Real32, Real32) -> Real32,
    N: Fn(Real32, Real32) -> Real32,
    F: Fn(Real32, Real32) -> Real32,
>(primary: Real32, tracks: &Vec<Track>, range: (Real32, Real32), times: M, between: C, part: N, minus: F) -> (second: Option<
    Real32,
>)
    requires
        forall|f: Real32, k: usize| call_requires(times, (f, k)),
        forall|a: Real32, b: Real32| call_requires(between, (a, b)),
        forall|f: Real32, p: Real32| call_requires(part, (f, p)),
        forall|a: Real32, b: Real32| call_requires(minus, (a, b)),
    ensures
        exists|harmonics: Seq<Real32>, octaves: Seq<Real32>, overtones: Seq<Overtones>, best: Real32, least: Real32|
            #![trigger are_harmonics(times, primary, harmonics), are_octaves(times, tracks@, octaves), all_lie(between, part, tracks@, harmonics, octaves, overtones), is_strongest(tracks@, best, tracks.len() as int), call_ensures(minus, (best, Real32 { bits: FLOOR_DB }), least)]
            {
                &&& are_harmonics(times, primary, harmonics)
                &&& are_octaves(times, tracks@, octaves)
                &&& all_lie(between, part, tracks@, harmonics, octaves, overtones)
                &&& is_strongest(tracks@, best, tracks.len() as int)
                &&& call_ensures(minus, (best, Real32 { bits: FLOOR_DB }), least)
                &&& is_choice(tracks@, overtones, range, least, second)
            },
{
    let best: Real32 = strongest_db(tracks);
    let least: Real32 = minus(best, Real32::from_bits(FLOOR_DB));
    let mut harmonics: Vec<Real32> = Vec::new();
    let mut k: usize = 0;
    while k < PRIMARY_HARMONICS
        invariant
            k <= PRIMARY_HARMONICS,
            harmonics.len() == k,
            forall|f: Real32, q: usize| call_requires(times, (f, q)),
            forall|q: int| 0 <= q < k ==> call_ensures(times, (primary, (q + 1) as usize), #[trigger] harmonics[q]),
        decreases PRIMARY_HARMONICS - k,
    {
        let h: Real32 = times(primary, k + 1);
        harmonics.push(h);
        k = k + 1;
    }
    let mut octaves: Vec<Real32> = Vec::new();
    let mut i: usize = 0;
    while i < tracks.len()
        invariant
            i <= tracks.len(),
            octaves.len() == i,
            forall|f: Real32, q: usize| call_requires(times, (f, q)),
            forall|q: int| 0 <= q < i ==> call_ensures(times, (tracks[q].freq, 2usize), #[trigger] octaves[q]),
        decreases tracks.len() - i,
    {
        let o: Real32 = times(tracks[i].freq, 2);
        octaves.push(o);
        i = i + 1;
    }
    let mut overtones: Vec<Overtones> = Vec::new();
    let mut j: usize = 0;
    while j < tracks.len()
        invariant
            j <= tracks.len() == octaves.len(),
            harmonics.len() == PRIMARY_HARMONICS,
            overtones.len() == j,
            forall|a: Real32, b: Real32| call_requires(between, (a, b)),
            forall|f: Real32, p: Real32| call_requires(part, (f, p)),
            forall|q: int|
                0 <= q < j ==> lies(between, part, tracks[q].freq, harmonics@, octaves@, #[trigger] overtones[q]),
        decreases tracks.len() - j,
    {
        let f: Real32 = tracks[j].freq;
        let of_primary: Vec<Real32> = row(&between, f, &harmonics);
        let of_track: Vec<Real32> = row(&between, f, &octaves);
        let ceiling: Real32 = part(f, Real32::from_bits(CEILING));
        overtones.push(Overtones { of_primary, ceiling, of_track });
        j = j + 1;
    }
    assert(are_harmonics(times, primary, harmonics@));
    assert(are_octaves(times, tracks@, octaves@));
    assert(all_lie(between, part, tracks@, harmonics@, octaves@, overtones@));
    assert(measured(tracks@, overtones@));
    assert(call_ensures(minus, (best, Real32 { bits: FLOOR_DB }), least));
    choose_second(tracks, &overtones, range, least)
}

} // verus!
