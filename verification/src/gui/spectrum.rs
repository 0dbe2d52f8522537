//! Spectrum card: its title, the peaks it labels, and how its curve moves.

use vstd::prelude::*;

use crate::dsp::peaks::Track;
use crate::ieee::{Real32, Real64};
use crate::text::{append_number, digits};

verus! {

/// The spectrum is shown up to 1500 hertz, as an IEEE 754 pattern.
pub const SPECTRUM_MAX_HZ: u32 = 0x44bb_8000;

/// Peaks must survive this many frames before being labeled.
pub const MIN_TRACK_AGE: u32 = 8;

pub const TABLE_ROWS: usize = 5;

/// The title of the card: how many microphones are in the beam, and how many are
/// fused beside it.
pub open spec fn title_of(fused: int, beam: int) -> Seq<char> {
    let extra = fused - 1;
    if beam >= 2 {
        "SPECTRUM · beam ×"@ + digits(beam as nat) + " mics"@ + (if extra > 0 {
            " +"@ + digits(extra as nat) + " fused"@
        } else {
            ""@
        }) + " · tracked peaks"@
    } else if extra > 0 {
        "SPECTRUM · fused ×"@ + digits(fused as nat) + " mics · tracked peaks"@
    } else {
        "SPECTRUM · tracked peaks"@
    }
}

/// The title of the card. `fused` counts the microphones in the spectrum, `beam`
/// those in the beam.
pub fn title(fused: usize, beam: usize) -> (t: String)
    requires
        fused >= 1,
    ensures
        t@ == title_of(fused as int, beam as int),
{
    let extra: usize = fused - 1;
    if beam >= 2 {
        let mut t: String = String::from_str("SPECTRUM · beam ×");
        append_number(&mut t, beam as u64);
        t.append(" mics");
        if extra > 0 {
            let mut more: String = String::from_str(" +");
            append_number(&mut more, extra as u64);
            more.append(" fused");
            t.append(more.as_str());
        } else {
            t.append("");
        }
        t.append(" · tracked peaks");
        assert(t@ =~= title_of(fused as int, beam as int));
        t
    } else if extra > 0 {
        let mut t: String = String::from_str("SPECTRUM · fused ×");
        append_number(&mut t, fused as u64);
        t.append(" mics · tracked peaks");
        t
    } else {
        String::from_str("SPECTRUM · tracked peaks")
    }
}

/// The track is old enough, and in view.
pub open spec fn is_labelled(t: Track) -> bool {
    t.age >= MIN_TRACK_AGE && t.freq.below(Real32 { bits: SPECTRUM_MAX_HZ })
}

/// The first labelled tracks among the first `n`, at most `TABLE_ROWS`.
pub open spec fn labelled(tracks: Seq<Track>, n: int) -> Seq<Track>
    decreases n,
{
    if n <= 0 {
        Seq::empty()
    } else {
        let before = labelled(tracks, n - 1);
        if before.len() < TABLE_ROWS && is_labelled(tracks[n - 1]) {
            before.push(tracks[n - 1])
        } else {
            before
        }
    }
}

/// The tracked peaks that are marked and tabulated.
pub fn stable_tracks(tracks: &Vec<Track>) -> (r: Vec<Track>)
    ensures
        r@ == labelled(tracks@, tracks.len() as int),
        r.len() <= TABLE_ROWS,
{
    let mut r: Vec<Track> = Vec::new();
    let mut i: usize = 0;
    while i < tracks.len()
        invariant
            i <= tracks.len(),
            r@ == labelled(tracks@, i as int),
            r.len() <= TABLE_ROWS,
        decreases tracks.len() - i,
    {
        let t: Track = tracks[i];
        if r.len() < TABLE_ROWS && t.age >= MIN_TRACK_AGE && t.freq.less(&Real32::from_bits(SPECTRUM_MAX_HZ)) {
            r.push(t);
        }
        i = i + 1;
    }
    r
}

/// A point of the curve after a frame: it jumps up to a higher level, and else
/// moves to the blend of old and new.
pub open spec fn moved(shown: Real64, level: Real64, blend: Real64) -> Real64 {
    if shown.below(level) {
        level
    } else {
        blend
    }
}

/// The curve after a frame. `levels` holds the new levels, `blends` those mixed
/// with the shown ones.
pub fn attack_decay(shown: &Vec<Real64>, levels: &Vec<Real64>, blends: &Vec<Real64>) -> (r: Vec<Real64>)
    requires
        shown.len() == levels.len(),
        shown.len() == blends.len(),
    ensures
        r@ == Seq::new(shown.len() as nat, |i: int| moved(shown[i], levels[i], blends[i])),
{
    let mut r: Vec<Real64> = Vec::new();
    let mut i: usize = 0;
    while i < shown.len()
        invariant
            i <= shown.len() == levels.len() == blends.len(),
            r@ == Seq::new(i as nat, |k: int| moved(shown[k], levels[k], blends[k])),
        decreases shown.len() - i,
    {
        r.push(if shown[i].less(&levels[i]) { levels[i] } else { blends[i] });
        i = i + 1;
        assert(r@ =~= Seq::new(i as nat, |k: int| moved(shown[k], levels[k], blends[k])));
    }
    r
}

} // verus!
