//! Spectral peak picking and frame-to-frame tracking.
//!
//! Picking finds local maxima above an adaptive threshold (median noise
//! floor + margin). The tracker associates picks across frames by
//! nearest-neighbor in cents, smoothing each track's frequency - the location
//! of a tracked peak is far more accurate and stable than any single frame's
//! pick.

use vstd::prelude::*;

use crate::ieee::Real32;
use crate::order::{descending, is_stable_order, median, stable_order};
use crate::order::{descending_keys, kth_smallest, sorted_positions};
use crate::ring::section;

verus! {

/// A peak must exceed the noise floor by this: 12 decibels, as an IEEE 754 pattern.
pub const MARGIN_DB: u32 = 0x4140_0000;

/// At most this many peaks are picked per frame.
pub const MAX_PEAKS: usize = 16;

/// A peak belongs to a track only if it is nearer than this: 35 cents, as an
/// IEEE 754 pattern.
pub const ASSOC_CENTS: u32 = 0x420c_0000;

/// A track that found no peak in more frames than this in a row is dropped.
pub const MAX_MISSED: u32 = 3;

#[derive(Clone, Copy, Debug, PartialEq, Eq, Structural)]
pub struct Peak {
    pub freq: Real32,
    pub db: Real32,
}

#[derive(Clone, Copy, Debug, PartialEq, Eq, Structural)]
pub struct Track {
    /// Stable identity across frames.
    pub id: u64,
    /// Smoothed frequency - the accurate "location" of this peak.
    pub freq: Real32,
    pub db: Real32,
    /// Frames in which this track found a peak.
    pub age: u32,
    /// Frames in a row in which it found none.
    pub missed: u32,
}

/// How a track and a peak relate.
#[derive(Clone, Copy, Debug, PartialEq, Eq, Structural)]
pub struct Pairing {
    /// Distance of the peak from the track, in cents.
    pub cents: Real32,
    /// The track's frequency smoothed with the peak's.
    pub blended: Real32,
}

/// Frame-to-frame peak association by nearest neighbor in cents.
pub struct Tracker {
    pub tracks: Vec<Track>,
    pub next_id: u64,
}

impl Track {
    /// A track of identity 0 that has not missed a frame.
    pub fn synth(freq: Real32, db: Real32, age: u32) -> (t: Track)
        ensures
            t == (Track { id: 0, freq, db, age, missed: 0 }),
    {
        Track { id: 0, freq, db, age, missed: 0 }
    }
}

/// Peak `i` may go to the track whose pairings are `row`.
pub open spec fn eligible(row: Seq<Pairing>, claimed: Seq<bool>, i: int) -> bool {
    !claimed[i] && row[i].cents.unsigned().below(Real32 { bits: ASSOC_CENTS })
}

/// `i` is the nearest eligible peak, the first of equally near ones.
pub open spec fn is_nearest(row: Seq<Pairing>, claimed: Seq<bool>, i: int) -> bool {
    &&& 0 <= i < row.len()
    &&& eligible(row, claimed, i)
    &&& forall|j: int|
        0 <= j < row.len() && #[trigger] eligible(row, claimed, j) ==> {
            ||| row[i].cents.magnitude() < row[j].cents.magnitude()
            ||| (row[i].cents.magnitude() == row[j].cents.magnitude() && i <= j)
        }
}

/// The peak that a track takes.
pub open spec fn nearest(row: Seq<Pairing>, claimed: Seq<bool>) -> Option<int> {
    if exists|i: int| is_nearest(row, claimed, i) {
        Some(choose|i: int| is_nearest(row, claimed, i))
    } else {
        None
    }
}

/// Which peaks are claimed after the first `t` tracks have chosen, in order.
pub open spec fn claimed_by(pairs: Seq<Vec<Pairing>>, peaks: nat, t: int) -> Seq<bool>
    decreases t,
{
    if t <= 0 {
        Seq::new(peaks, |i: int| false)
    } else {
        let before = claimed_by(pairs, peaks, t - 1);
        match nearest(pairs[t - 1]@, before) {
            Some(i) => before.update(i, true),
            None => before,
        }
    }
}

/// Track `t` after this frame.
pub open spec fn moved(tracks: Seq<Track>, peaks: Seq<Peak>, pairs: Seq<Vec<Pairing>>, t: int) -> Track {
    let old = tracks[t];
    match nearest(pairs[t]@, claimed_by(pairs, peaks.len(), t)) {
        Some(i) => Track {
            id: old.id,
            freq: pairs[t][i].blended,
            db: peaks[i].db,
            age: (old.age + 1) as u32,
            missed: 0,
        },
        None => Track { id: old.id, freq: old.freq, db: old.db, age: old.age, missed: (old.missed + 1) as u32 },
    }
}

/// Those of the first `t` tracks that live on, in order.
pub open spec fn survivors(tracks: Seq<Track>, peaks: Seq<Peak>, pairs: Seq<Vec<Pairing>>, t: int) -> Seq<Track>
    decreases t,
{
    if t <= 0 {
        Seq::empty()
    } else {
        let before = survivors(tracks, peaks, pairs, t - 1);
        let m = moved(tracks, peaks, pairs, t - 1);
        if m.missed <= MAX_MISSED {
            before.push(m)
        } else {
            before
        }
    }
}

/// How many of the first `k` peaks are free.
pub open spec fn free_count(claimed: Seq<bool>, k: int) -> nat
    decreases k,
{
    if k <= 0 {
        0
    } else {
        free_count(claimed, k - 1) + if claimed[k - 1] {
            0nat
        } else {
            1nat
        }
    }
}

/// The tracks started by the free ones among the first `k` peaks.
pub open spec fn newborn(peaks: Seq<Peak>, claimed: Seq<bool>, first_id: u64, k: int) -> Seq<Track>
    decreases k,
{
    if k <= 0 {
        Seq::empty()
    } else {
        let before = newborn(peaks, claimed, first_id, k - 1);
        if claimed[k - 1] {
            before
        } else {
            before.push(
                Track {
                    id: (first_id + before.len()) as u64,
                    freq: peaks[k - 1].freq,
                    db: peaks[k - 1].db,
                    age: 1,
                    missed: 0,
                },
            )
        }
    }
}

/// The tracks after a frame, before they are put in order.
pub open spec fn unordered(tracks: Seq<Track>, peaks: Seq<Peak>, pairs: Seq<Vec<Pairing>>, first_id: u64) -> Seq<Track> {
    survivors(tracks, peaks, pairs, tracks.len() as int) + newborn(
        peaks,
        claimed_by(pairs, peaks.len(), tracks.len() as int),
        first_id,
        peaks.len() as int,
    )
}

/// The keys by which tracks are ordered, strongest first.
pub open spec fn loudness_keys(tracks: Seq<Track>) -> Seq<i64> {
    Seq::new(tracks.len(), |i: int| (-tracks[i].db.total_rank()) as i64)
}

/// `out` holds the tracks `from`, strongest first, equally strong ones in the
/// order in which they stood.
pub open spec fn strongest_first(from: Seq<Track>, out: Seq<Track>) -> bool {
    exists|perm: Seq<usize>|
        #![trigger is_stable_order(loudness_keys(from), perm)]
        is_stable_order(loudness_keys(from), perm) && out == Seq::new(from.len(), |i: int| from[perm[i] as int])
}

impl Tracker {
    /// Identities are in use once and below `next_id`; no track has missed too
    /// many frames.
    pub open spec fn well_formed(&self) -> bool {
        &&& forall|i: int| 0 <= i < self.tracks.len() ==> (#[trigger] self.tracks[i]).id < self.next_id
        &&& forall|i: int| 0 <= i < self.tracks.len() ==> (#[trigger] self.tracks[i]).missed <= MAX_MISSED
        &&& distinct_ids(self.tracks@)
    }

    /// A tracker without tracks.
    pub fn new() -> (r: Tracker)
        ensures
            r.well_formed(),
            r.tracks.len() == 0,
            r.next_id == 0,
    {
        Tracker { tracks: Vec::new(), next_id: 0 }
    }

    /// The tracks, strongest first.
    pub fn tracks(&self) -> (r: &Vec<Track>)
        ensures
            r@ == self.tracks@,
    {
        &self.tracks
    }
}

/// A frame with these peaks makes `after` of `before`.
pub open spec fn associated(peaks: Seq<Peak>, pairs: Seq<Vec<Pairing>>, before: Tracker, after: Tracker) -> bool {
    &&& strongest_first(unordered(before.tracks@, peaks, pairs, before.next_id), after.tracks@)
    &&& after.next_id == before.next_id + free_count(
        claimed_by(pairs, peaks.len(), pairs.len() as int),
        peaks.len() as int,
    )
}

/// `pairs` relate every track to every peak.
pub open spec fn paired<C: Fn(Real32, Real32) -> Real32, B: Fn(Real32, Real32) -> Real32>(
    between: C,
    blend: B,
    tracks: Seq<Track>,
    peaks: Seq<Peak>,
    pairs: Seq<Vec<Pairing>>,
) -> bool {
    &&& pairs.len() == tracks.len()
    &&& forall|t: int|
        0 <= t < tracks.len() ==> paired_with(between, blend, tracks[t].freq, peaks, (#[trigger] pairs[t])@)
}

/// `row` relates a frequency to every peak.
pub open spec fn paired_with<C: Fn(Real32, Real32) -> Real32, B: Fn(Real32, Real32) -> Real32>(
    between: C,
    blend: B,
    freq: Real32,
    peaks: Seq<Peak>,
    row: Seq<Pairing>,
) -> bool {
    &&& row.len() == peaks.len()
    &&& forall|i: int|
        0 <= i < peaks.len() ==> {
            &&& call_ensures(between, (peaks[i].freq, freq), (#[trigger] row[i]).cents)
            &&& call_ensures(blend, (freq, peaks[i].freq), row[i].blended)
        }
}

/// Relates a frequency to every peak.
fn pair_with<C: Fn(Real32, Real32) -> Real32, B: Fn(Real32, Real32) -> Real32>(
    between: &C,
    blend: &B,
    freq: Real32,
    peaks: &Vec<Peak>,
) -> (row: Vec<Pairing>)
    requires
        forall|a: Real32, b: Real32| call_requires(*between, (a, b)),
        forall|a: Real32, b: Real32| call_requires(*blend, (a, b)),
    ensures
        paired_with(*between, *blend, freq, peaks@, row@),
{
    let mut row: Vec<Pairing> = Vec::new();
    let mut i: usize = 0;
    while i < peaks.len()
        invariant
            i <= peaks.len(),
            row.len() == i,
            forall|a: Real32, b: Real32| call_requires(*between, (a, b)),
            forall|a: Real32, b: Real32| call_requires(*blend, (a, b)),
            forall|k: int|
                0 <= k < i ==> {
                    &&& call_ensures(*between, (peaks[k].freq, freq), (#[trigger] row[k]).cents)
                    &&& call_ensures(*blend, (freq, peaks[k].freq), row[k].blended)
                },
        decreases peaks.len() - i,
    {
        let cents: Real32 = between(peaks[i].freq, freq);
        let blended: Real32 = blend(freq, peaks[i].freq);
        row.push(Pairing { cents, blended });
        i = i + 1;
    }
    row
}

/// The peaks that count of a frame: those of one that is not audible do not.
pub open spec fn heard_in(audible: bool, peaks: Seq<Peak>) -> Seq<Peak> {
    if audible {
        peaks
    } else {
        Seq::empty()
    }
}

impl Tracker {
    /// Takes in the peaks of one frame. Each track in turn takes the nearest peak still
    /// free; a track that misses more than `MAX_MISSED` frames in a row ends, and every
    /// free peak starts a track. `between` gives the distance of two frequencies in
    /// cents, and `blend` smooths a track's frequency with a peak's.
    pub fn update<C: Fn(Real32, Real32) -> Real32, B: Fn(Real32, Real32) -> Real32>(
        &mut self,
        peaks: &Vec<Peak>,
        between: C,
        blend: B,
    )
        requires
            old(self).well_formed(),
            forall|t: int| 0 <= t < old(self).tracks.len() ==> (#[trigger] old(self).tracks[t]).age < u32::MAX,
            old(self).next_id + peaks.len() <= u64::MAX,
            forall|a: Real32, b: Real32| call_requires(between, (a, b)),
            forall|a: Real32, b: Real32| call_requires(blend, (a, b)),
        ensures
            final(self).well_formed(),
            exists|pairs: Seq<Vec<Pairing>>| #[trigger]
                paired(between, blend, old(self).tracks@, peaks@, pairs) && associated(
                    peaks@,
                    pairs,
                    *old(self),
                    *final(self),
                ),
    {
        let mut pairs: Vec<Vec<Pairing>> = Vec::new();
        let mut t: usize = 0;
        while t < self.tracks.len()
            invariant
                t <= self.tracks.len(),
                pairs.len() == t,
                forall|a: Real32, b: Real32| call_requires(between, (a, b)),
                forall|a: Real32, b: Real32| call_requires(blend, (a, b)),
                forall|k: int|
                    0 <= k < t ==> paired_with(between, blend, self.tracks[k].freq, peaks@, (#[trigger] pairs[k])@),
            decreases self.tracks.len() - t,
        {
            pairs.push(pair_with(&between, &blend, self.tracks[t].freq, peaks));
            t = t + 1;
        }
        assert(paired(between, blend, self.tracks@, peaks@, pairs@));
        self.associate(peaks, &pairs);
    }

    /// Takes in the peaks of a frame that is audible or not. One that is not has no peaks
    /// to speak of: whatever was found in it is noise.
    pub fn listen<C: Fn(Real32, Real32) -> Real32, B: Fn(Real32, Real32) -> Real32>(
        &mut self,
        audible: bool,
        peaks: &Vec<Peak>,
        between: C,
        blend: B,
    )
        requires
            old(self).well_formed(),
            forall|t: int| 0 <= t < old(self).tracks.len() ==> (#[trigger] old(self).tracks[t]).age < u32::MAX,
            audible ==> old(self).next_id + peaks.len() <= u64::MAX,
            forall|a: Real32, b: Real32| call_requires(between, (a, b)),
            forall|a: Real32, b: Real32| call_requires(blend, (a, b)),
        ensures
            final(self).well_formed(),
            exists|pairs: Seq<Vec<Pairing>>| #[trigger]
                paired(between, blend, old(self).tracks@, heard_in(audible, peaks@), pairs) && associated(
                    heard_in(audible, peaks@),
                    pairs,
                    *old(self),
                    *final(self),
                ),
    {
        let none: Vec<Peak> = Vec::new();
        let heard: &Vec<Peak> = if audible { peaks } else { &none };
        assert(heard@ =~= heard_in(audible, peaks@));
        self.update(heard, between, blend);
    }
}

/// No two tracks share an identity.
pub open spec fn distinct_ids(tracks: Seq<Track>) -> bool {
    forall|i: int, j: int| 0 <= i < j < tracks.len() ==> (#[trigger] tracks[i]).id != (#[trigger] tracks[j]).id
}

proof fn nearest_is(row: Seq<Pairing>, claimed: Seq<bool>, i: int)
    requires
        is_nearest(row, claimed, i),
    ensures
        nearest(row, claimed) == Some(i),
{
    let k = choose|k: int| is_nearest(row, claimed, k);
    assert(eligible(row, claimed, i) && eligible(row, claimed, k));
}

/// The nearest unclaimed peak within reach.
fn nearest_peak(row: &Vec<Pairing>, claimed: &Vec<bool>) -> (r: Option<usize>)
    requires
        row.len() == claimed.len(),
    ensures
        match r {
            Some(i) => i < row.len() && nearest(row@, claimed@) == Some(i as int),
            None => nearest(row@, claimed@) is None,
        },
{
    let mut best: Option<usize> = None;
    let mut i: usize = 0;
    let reach = Real32::from_bits(ASSOC_CENTS);
    while i < row.len()
        invariant
            i <= row.len() == claimed.len(),
            reach.bits == ASSOC_CENTS,
            best is None ==> forall|j: int| 0 <= j < i ==> !#[trigger] eligible(row@, claimed@, j),
            best is Some ==> {
                &&& best->0 < i
                &&& eligible(row@, claimed@, best->0 as int)
                &&& forall|j: int|
                    0 <= j < i && #[trigger] eligible(row@, claimed@, j) ==> {
                        ||| row[best->0 as int].cents.magnitude() < row[j].cents.magnitude()
                        ||| (row[best->0 as int].cents.magnitude() == row[j].cents.magnitude() && best->0 <= j)
                    }
            },
        decreases row.len() - i,
    {
        let d: Real32 = row[i].cents.abs();
        if !claimed[i] && d.less(&reach) {
            assert(eligible(row@, claimed@, i as int));
            match best {
                Some(b) => {
                    if d.order_rank() < row[b].cents.abs().order_rank() {
                        best = Some(i);
                    }
                },
                None => {
                    best = Some(i);
                },
            }
        }
        i = i + 1;
    }
    proof {
        match best {
            Some(b) => {
                assert(is_nearest(row@, claimed@, b as int));
                nearest_is(row@, claimed@, b as int);
            },
            None => {
                assert forall|k: int| !is_nearest(row@, claimed@, k) by {}
            },
        }
    }
    best
}

proof fn newborn_ids(peaks: Seq<Peak>, claimed: Seq<bool>, first_id: u64, k: int)
    requires
        0 <= k <= peaks.len(),
        first_id + peaks.len() <= u64::MAX,
    ensures
        newborn(peaks, claimed, first_id, k).len() == free_count(claimed, k) <= k,
        forall|i: int|
            0 <= i < newborn(peaks, claimed, first_id, k).len() ==> {
                &&& (#[trigger] newborn(peaks, claimed, first_id, k)[i]).id == first_id + i
                &&& newborn(peaks, claimed, first_id, k)[i].missed == 0
            },
    decreases k,
{
    if k > 0 {
        newborn_ids(peaks, claimed, first_id, k - 1);
    }
}

/// Survivors keep the identities of the tracks they were, in order.
pub(crate) proof fn survivor_ids(tracks: Seq<Track>, peaks: Seq<Peak>, pairs: Seq<Vec<Pairing>>, t: int)
    requires
        0 <= t <= tracks.len(),
        distinct_ids(tracks),
    ensures
        distinct_ids(survivors(tracks, peaks, pairs, t)),
        forall|i: int|
            0 <= i < survivors(tracks, peaks, pairs, t).len() ==> (#[trigger] survivors(
                tracks,
                peaks,
                pairs,
                t,
            )[i]).missed <= MAX_MISSED && exists|k: int|
                0 <= k < t && survivors(tracks, peaks, pairs, t)[i].id == (#[trigger] tracks[k]).id,
    decreases t,
{
    if t > 0 {
        survivor_ids(tracks, peaks, pairs, t - 1);
        let before = survivors(tracks, peaks, pairs, t - 1);
        let after = survivors(tracks, peaks, pairs, t);
        let m = moved(tracks, peaks, pairs, t - 1);
        if m.missed <= MAX_MISSED {
            assert(after == before.push(m));
            assert(m.id == tracks[t - 1].id);
            assert forall|i: int, j: int| 0 <= i < j < after.len() implies (#[trigger] after[i]).id != (
            #[trigger] after[j]).id by {
                assert(after[i] == before[i]);
                if j < before.len() {
                    assert(after[j] == before[j]);
                } else {
                    let k = choose|k: int| 0 <= k < t - 1 && before[i].id == (#[trigger] tracks[k]).id;
                    assert(tracks[k].id != tracks[t - 1].id);
                }
            }
            assert forall|i: int| 0 <= i < after.len() implies (#[trigger] after[i]).missed <= MAX_MISSED && exists|
                k: int,
            |
                0 <= k < t && after[i].id == (#[trigger] tracks[k]).id by {
                if i < before.len() {
                    assert(after[i] == before[i]);
                    let k = choose|k: int| 0 <= k < t - 1 && before[i].id == (#[trigger] tracks[k]).id;
                    assert(after[i].id == tracks[k].id);
                } else {
                    assert(after[i].id == tracks[t - 1].id);
                }
            }
        }
    }
}

/// Putting tracks in order keeps them well formed.
proof fn ordering_keeps_ids(from: Seq<Track>, perm: Seq<usize>, out: Seq<Track>, next_id: u64)
    requires
        is_stable_order(loudness_keys(from), perm),
        out == Seq::new(from.len(), |i: int| from[perm[i] as int]),
        distinct_ids(from),
        forall|i: int| 0 <= i < from.len() ==> (#[trigger] from[i]).id < next_id && from[i].missed <= MAX_MISSED,
    ensures
        distinct_ids(out),
        forall|i: int| 0 <= i < out.len() ==> (#[trigger] out[i]).id < next_id && out[i].missed <= MAX_MISSED,
{
    assert forall|i: int, j: int| 0 <= i < j < out.len() implies (#[trigger] out[i]).id != (#[trigger] out[j]).id by {
        let a = perm[i] as int;
        let b = perm[j] as int;
        assert(a != b);
        if a < b {
            assert(from[a].id != from[b].id);
        } else {
            assert(from[b].id != from[a].id);
        }
    }
}

/// The tracks in `from`, strongest first.
fn sort_by_loudness(from: &Vec<Track>) -> (out: Vec<Track>)
    ensures
        strongest_first(from@, out@),
{
    let mut keys: Vec<i64> = Vec::new();
    let mut i: usize = 0;
    while i < from.len()
        invariant
            i <= from.len(),
            keys@ == loudness_keys(from@).take(i as int),
        decreases from.len() - i,
    {
        let rank: i64 = from[i].db.order_rank();
        keys.push(-rank);
        i = i + 1;
        assert(keys@ =~= loudness_keys(from@).take(i as int));
    }
    assert(keys@ =~= loudness_keys(from@));
    let perm: Vec<usize> = stable_order(&keys);
    let mut out: Vec<Track> = Vec::new();
    let mut k: usize = 0;
    while k < perm.len()
        invariant
            k <= perm.len() == from.len(),
            is_stable_order(loudness_keys(from@), perm@),
            out@ == Seq::new(k as nat, |j: int| from@[perm@[j] as int]),
        decreases perm.len() - k,
    {
        out.push(from[perm[k]]);
        k = k + 1;
        assert(out@ =~= Seq::new(k as nat, |j: int| from@[perm@[j] as int]));
    }
    assert(out@ =~= Seq::new(from@.len(), |j: int| from@[perm@[j] as int]));
    out
}

impl Tracker {
    /// Takes in the peaks of one frame. `pairs[t][i]` relates track `t` to peak
    /// `i`.
    pub fn associate(&mut self, peaks: &Vec<Peak>, pairs: &Vec<Vec<Pairing>>)
        requires
            old(self).well_formed(),
            pairs.len() == old(self).tracks.len(),
            forall|t: int| 0 <= t < pairs.len() ==> (#[trigger] pairs[t]).len() == peaks.len(),
            forall|t: int| 0 <= t < pairs.len() ==> (#[trigger] old(self).tracks[t]).age < u32::MAX,
            old(self).next_id + peaks.len() <= u64::MAX,
        ensures
            final(self).well_formed(),
            associated(peaks@, pairs@, *old(self), *final(self)),
    {
        let ghost old_tracks = self.tracks@;
        let ghost n_peaks = peaks@.len();
        let mut claimed: Vec<bool> = Vec::new();
        let mut c: usize = 0;
        while c < peaks.len()
            invariant
                c <= peaks.len(),
                claimed@ == Seq::new(c as nat, |i: int| false),
            decreases peaks.len() - c,
        {
            claimed.push(false);
            c = c + 1;
            assert(claimed@ =~= Seq::new(c as nat, |i: int| false));
        }
        let mut next: Vec<Track> = Vec::new();
        let mut t: usize = 0;
        while t < self.tracks.len()
            invariant
                t <= self.tracks.len() == pairs.len(),
                self.tracks@ == old_tracks,
                n_peaks == peaks@.len(),
                forall|k: int| 0 <= k < pairs.len() ==> (#[trigger] pairs[k]).len() == peaks.len(),
                forall|k: int| 0 <= k < pairs.len() ==> (#[trigger] self.tracks[k]).age < u32::MAX,
                forall|k: int| 0 <= k < pairs.len() ==> (#[trigger] self.tracks[k]).missed <= MAX_MISSED,
                claimed.len() == n_peaks,
                claimed@ == claimed_by(pairs@, n_peaks, t as int),
                next@ == survivors(old_tracks, peaks@, pairs@, t as int),
            decreases self.tracks.len() - t,
        {
            let old_track: Track = self.tracks[t];
            let found: Option<usize> = nearest_peak(&pairs[t], &claimed);
            let track: Track = match found {
                Some(i) => {
                    claimed.set(i, true);
                    Track {
                        id: old_track.id,
                        freq: pairs[t][i].blended,
                        db: peaks[i].db,
                        age: old_track.age + 1,
                        missed: 0,
                    }
                },
                None => Track {
                    id: old_track.id,
                    freq: old_track.freq,
                    db: old_track.db,
                    age: old_track.age,
                    missed: old_track.missed + 1,
                },
            };
            assert(track == moved(old_tracks, peaks@, pairs@, t as int));
            if track.missed <= MAX_MISSED {
                next.push(track);
            }
            t = t + 1;
        }
        let ghost kept = next@;
        let ghost flags = claimed@;
        let ghost first_id = self.next_id;
        let mut k: usize = 0;
        while k < peaks.len()
            invariant
                k <= peaks.len() == claimed.len(),
                claimed@ == flags,
                first_id + peaks.len() <= u64::MAX,
                next@ == kept + newborn(peaks@, flags, first_id, k as int),
                self.next_id == first_id + newborn(peaks@, flags, first_id, k as int).len(),
                self.tracks@ == old_tracks,
            decreases peaks.len() - k,
        {
            proof {
                newborn_ids(peaks@, flags, first_id, k as int);
            }
            if !claimed[k] {
                next.push(Track { id: self.next_id, freq: peaks[k].freq, db: peaks[k].db, age: 1, missed: 0 });
                self.next_id = self.next_id + 1;
            }
            k = k + 1;
            assert(next@ =~= kept + newborn(peaks@, flags, first_id, k as int));
        }
        proof {
            newborn_ids(peaks@, flags, first_id, peaks@.len() as int);
            survivor_ids(old_tracks, peaks@, pairs@, old_tracks.len() as int);
            let born = newborn(peaks@, flags, first_id, peaks@.len() as int);
            assert(next@ == unordered(old_tracks, peaks@, pairs@, first_id));
            assert forall|i: int| 0 <= i < next@.len() implies (#[trigger] next@[i]).id < self.next_id && next@[i].missed
                <= MAX_MISSED by {
                if i < kept.len() {
                    assert(next@[i] == kept[i]);
                    let o = choose|o: int| 0 <= o < old_tracks.len() && kept[i].id == (#[trigger] old_tracks[o]).id;
                    assert(old_tracks[o].id < first_id);
                } else {
                    assert(next@[i] == born[i - kept.len()]);
                }
            }
            assert forall|i: int, j: int| 0 <= i < j < next@.len() implies (#[trigger] next@[i]).id != (
            #[trigger] next@[j]).id by {
                if j < kept.len() {
                    assert(next@[i] == kept[i] && next@[j] == kept[j]);
                } else if i < kept.len() {
                    assert(next@[i] == kept[i] && next@[j] == born[j - kept.len()]);
                    let o = choose|o: int| 0 <= o < old_tracks.len() && kept[i].id == (#[trigger] old_tracks[o]).id;
                    assert(old_tracks[o].id < first_id);
                } else {
                    assert(next@[i] == born[i - kept.len()] && next@[j] == born[j - kept.len()]);
                }
            }
        }
        // Strongest first for display.
        let ordered: Vec<Track> = sort_by_loudness(&next);
        proof {
            let perm = choose|perm: Seq<usize>|
                #![trigger is_stable_order(loudness_keys(next@), perm)]
                is_stable_order(loudness_keys(next@), perm) && ordered@ == Seq::new(
                    next@.len(),
                    |i: int| next@[perm[i] as int],
                );
            ordering_keeps_ids(next@, perm, ordered@, self.next_id);
        }
        self.tracks = ordered;
    }
}

proof fn survivor_is_listed(tracks: Seq<Track>, peaks: Seq<Peak>, pairs: Seq<Vec<Pairing>>, t: int, n: int)
    requires
        0 <= t < n <= tracks.len(),
        moved(tracks, peaks, pairs, t).missed <= MAX_MISSED,
    ensures
        survivors(tracks, peaks, pairs, n).contains(moved(tracks, peaks, pairs, t)),
    decreases n,
{
    let m = moved(tracks, peaks, pairs, t);
    let after = survivors(tracks, peaks, pairs, n);
    let before = survivors(tracks, peaks, pairs, n - 1);
    if t == n - 1 {
        assert(after[before.len() as int] == m);
    } else {
        survivor_is_listed(tracks, peaks, pairs, t, n - 1);
        let i = choose|i: int| 0 <= i < before.len() && before[i] == m;
        assert(after[i] == m);
    }
}

pub(crate) proof fn ordered_holds_the_same(from: Seq<Track>, out: Seq<Track>, m: Track)
    requires
        strongest_first(from, out),
    ensures
        from.contains(m) <==> out.contains(m),
{
    let perm = choose|perm: Seq<usize>|
        #![trigger is_stable_order(loudness_keys(from), perm)]
        is_stable_order(loudness_keys(from), perm) && out == Seq::new(from.len(), |i: int| from[perm[i] as int]);
    if from.contains(m) {
        let i = choose|i: int| 0 <= i < from.len() && from[i] == m;
        order_is_of_machine_size(loudness_keys(from), perm);
        assert(perm.contains(i as usize));
        let k = choose|k: int| 0 <= k < perm.len() && perm[k] == i as usize;
        assert(out[k] == m);
    }
    if out.contains(m) {
        let k = choose|k: int| 0 <= k < out.len() && out[k] == m;
        assert(from[perm[k] as int] == m);
    }
}

/// Positions are machine integers and occur once, so there are not more of them.
proof fn order_is_of_machine_size(keys: Seq<i64>, perm: Seq<usize>)
    requires
        is_stable_order(keys, perm),
    ensures
        keys.len() <= usize::MAX + 1,
{
    assert(perm.no_duplicates()) by {
        assert forall|i: int, j: int| 0 <= i < perm.len() && 0 <= j < perm.len() && i != j implies perm[i] != perm[j] by {
            if i < j {
                assert(crate::order::precedes(keys, perm[i] as int, perm[j] as int));
            } else {
                assert(crate::order::precedes(keys, perm[j] as int, perm[i] as int));
            }
        }
    }
    let ints = perm.map_values(|p: usize| p as int);
    assert(ints.no_duplicates());
    ints.unique_seq_to_set();
    vstd::set_lib::lemma_int_range(0, usize::MAX + 1);
    assert(ints.to_set().subset_of(vstd::set_lib::set_int_range(0, usize::MAX + 1)));
    vstd::set_lib::lemma_len_subset(ints.to_set(), vstd::set_lib::set_int_range(0, usize::MAX + 1));
}

/// A track outlives up to `MAX_MISSED` frames without a peak, and any frame in
/// which it takes one: it is in the new list under its old identity.
pub proof fn track_survives_dropout(
    tracks: Seq<Track>,
    peaks: Seq<Peak>,
    pairs: Seq<Vec<Pairing>>,
    first_id: u64,
    out: Seq<Track>,
    t: int,
)
    requires
        strongest_first(unordered(tracks, peaks, pairs, first_id), out),
        0 <= t < tracks.len(),
        tracks[t].missed < MAX_MISSED || nearest(pairs[t]@, claimed_by(pairs, peaks.len(), t)) is Some,
    ensures
        out.contains(moved(tracks, peaks, pairs, t)),
        moved(tracks, peaks, pairs, t).id == tracks[t].id,
{
    let all = unordered(tracks, peaks, pairs, first_id);
    let m = moved(tracks, peaks, pairs, t);
    survivor_is_listed(tracks, peaks, pairs, t, tracks.len() as int);
    let kept = survivors(tracks, peaks, pairs, tracks.len() as int);
    let i = choose|i: int| 0 <= i < kept.len() && kept[i] == m;
    assert(all[i] == m);
    ordered_holds_the_same(all, out, m);
}

/// A track that has missed `MAX_MISSED` frames and misses another is gone: its
/// identity is not in the new list.
pub proof fn track_ends_after_too_many_misses(
    tracks: Seq<Track>,
    peaks: Seq<Peak>,
    pairs: Seq<Vec<Pairing>>,
    first_id: u64,
    out: Seq<Track>,
    t: int,
    i: int,
)
    requires
        strongest_first(unordered(tracks, peaks, pairs, first_id), out),
        distinct_ids(tracks),
        forall|k: int| 0 <= k < tracks.len() ==> (#[trigger] tracks[k]).id < first_id,
        first_id + peaks.len() <= u64::MAX,
        0 <= t < tracks.len(),
        tracks[t].missed == MAX_MISSED,
        nearest(pairs[t]@, claimed_by(pairs, peaks.len(), t)) is None,
        0 <= i < out.len(),
    ensures
        out[i].id != tracks[t].id,
{
    let all = unordered(tracks, peaks, pairs, first_id);
    let kept = survivors(tracks, peaks, pairs, tracks.len() as int);
    let flags = claimed_by(pairs, peaks.len(), tracks.len() as int);
    let born = newborn(peaks, flags, first_id, peaks.len() as int);
    newborn_ids(peaks, flags, first_id, peaks.len() as int);
    survivors_exclude(tracks, peaks, pairs, t, tracks.len() as int);
    assert(out.contains(out[i]));
    ordered_holds_the_same(all, out, out[i]);
    let k = choose|k: int| 0 <= k < all.len() && all[k] == out[i];
    if k < kept.len() {
        assert(all[k] == kept[k]);
    } else {
        assert(all[k] == born[k - kept.len()]);
        assert(tracks[t].id < first_id);
    }
}

proof fn survivors_exclude(tracks: Seq<Track>, peaks: Seq<Peak>, pairs: Seq<Vec<Pairing>>, t: int, n: int)
    requires
        0 <= t < tracks.len(),
        0 <= n <= tracks.len(),
        distinct_ids(tracks),
        moved(tracks, peaks, pairs, t).missed > MAX_MISSED,
    ensures
        forall|i: int|
            0 <= i < survivors(tracks, peaks, pairs, n).len() ==> (#[trigger] survivors(tracks, peaks, pairs, n)[i]).id
                != tracks[t].id,
    decreases n,
{
    if n > 0 {
        survivors_exclude(tracks, peaks, pairs, t, n - 1);
        let m = moved(tracks, peaks, pairs, n - 1);
        assert(m.id == tracks[n - 1].id);
        if n - 1 < t {
            assert(tracks[n - 1].id != tracks[t].id);
        } else if n - 1 > t {
            assert(tracks[t].id != tracks[n - 1].id);
        }
        let before = survivors(tracks, peaks, pairs, n - 1);
        let after = survivors(tracks, peaks, pairs, n);
        assert forall|i: int| 0 <= i < after.len() implies (#[trigger] after[i]).id != tracks[t].id by {
            if i < before.len() {
                assert(after[i] == before[i]);
            } else {
                assert(after[i] == m);
            }
        }
    }
}

/// Bin `i` is a local maximum of the magnitudes and not below the threshold.
pub open spec fn is_maximum(mags: Seq<Real32>, dbs: Seq<Real32>, threshold: Real32, i: int) -> bool {
    &&& !mags[i].at_most(mags[i - 1])
    &&& !mags[i].below(mags[i + 1])
    &&& !dbs[i].below(threshold)
}

/// The local maxima among the bins `2..n`, in order.
pub open spec fn maxima(mags: Seq<Real32>, dbs: Seq<Real32>, threshold: Real32, n: int) -> Seq<usize>
    decreases n,
{
    if n <= 2 {
        Seq::empty()
    } else {
        let before = maxima(mags, dbs, threshold, n - 1);
        if is_maximum(mags, dbs, threshold, n - 1) {
            before.push((n - 1) as usize)
        } else {
            before
        }
    }
}

/// The levels of some bins.
pub open spec fn levels_at(dbs: Seq<Real32>, bins: Seq<usize>) -> Seq<Real32> {
    Seq::new(bins.len(), |i: int| dbs[bins[i] as int])
}

/// How many bins of a spectrum are searched: those below the frequency limit whose
/// neighbours are there.
pub open spec fn searched(limit: int, bins: int) -> int {
    if bins < 2 {
        0
    } else if limit < bins - 2 {
        limit
    } else {
        bins - 2
    }
}

/// How many bins of a spectrum are searched. `limit` is the frequency limit in bins.
pub fn searched_bins(limit: usize, bins: usize) -> (n: usize)
    ensures
        n == searched(limit as int, bins as int),
{
    if bins < 2 {
        0
    } else if limit < bins - 2 {
        limit
    } else {
        bins - 2
    }
}

/// The bins of the spectral peaks: local maxima among the first `n` bins that reach
/// the threshold, strongest first, at most `MAX_PEAKS`.
pub open spec fn peak_bins(mags: Seq<Real32>, dbs: Seq<Real32>, threshold: Real32, n: int) -> Seq<usize> {
    let all = maxima(mags, dbs, threshold, n);
    let best = sorted_positions(descending_keys(levels_at(dbs, all)));
    let count: nat = if all.len() < MAX_PEAKS {
        all.len()
    } else {
        MAX_PEAKS as nat
    };
    Seq::new(count, |i: int| all[best[i] as int])
}

/// The bins of the spectral peaks. `dbs` holds the levels of the magnitudes in
/// decibels.
pub fn strongest_maxima(mags: &Vec<Real32>, dbs: &Vec<Real32>, n: usize, threshold: Real32) -> (bins: Vec<usize>)
    requires
        mags.len() == dbs.len(),
        2 <= n,
        n + 1 < mags.len(),
    ensures
        bins@ == peak_bins(mags@, dbs@, threshold, n as int),
        forall|k: int| 0 <= k < bins.len() ==> 2 <= (#[trigger] bins[k]) < n,
{
    let mut all: Vec<usize> = Vec::new();
    let mut levels: Vec<Real32> = Vec::new();
    let mut i: usize = 2;
    while i < n
        invariant
            2 <= i <= n,
            n + 1 < mags.len() == dbs.len(),
            all@ == maxima(mags@, dbs@, threshold, i as int),
            levels@ == levels_at(dbs@, all@),
        decreases n - i,
    {
        if !mags[i].less_or_equal(&mags[i - 1]) && !mags[i].less(&mags[i + 1]) && !dbs[i].less(&threshold) {
            all.push(i);
            levels.push(dbs[i]);
            assert(levels@ =~= levels_at(dbs@, all@));
        }
        i = i + 1;
    }
    assert(levels@ =~= levels_at(dbs@, all@));
    let best: Vec<usize> = descending(&levels);
    proof {
        maxima_are_maxima(mags@, dbs@, threshold, n as int);
    }
    let mut bins: Vec<usize> = Vec::new();
    let mut k: usize = 0;
    while k < best.len() && k < MAX_PEAKS
        invariant
            k <= best.len() == all.len(),
            k <= MAX_PEAKS,
            is_stable_order(descending_keys(levels@), best@),
            levels.len() == all.len(),
            forall|j: int| 0 <= j < all.len() ==> 2 <= (#[trigger] all[j]) < n,
            forall|j: int| 0 <= j < bins.len() ==> 2 <= (#[trigger] bins[j]) < n,
            bins@ == Seq::new(k as nat, |i: int| all@[best@[i] as int]),
        decreases best.len() - k,
    {
        bins.push(all[best[k]]);
        k = k + 1;
        assert(bins@ =~= Seq::new(k as nat, |i: int| all@[best@[i] as int]));
    }
    bins
}

/// `dbs` holds the levels of some magnitudes.
pub open spec fn leveled<L: Fn(Real32) -> Real32>(level: L, mags: Seq<Real32>, dbs: Seq<Real32>) -> bool {
    &&& dbs.len() == mags.len()
    &&& forall|i: int| 0 <= i < mags.len() ==> call_ensures(level, (mags[i],), #[trigger] dbs[i])
}

/// The noise floor: the median level of the bins `1..n`.
pub open spec fn noise_floor(dbs: Seq<Real32>, n: int) -> Real32 {
    kth_smallest(dbs.subrange(1, n), (n - 1) / 2)
}

/// The peaks stand in some bins: each at the frequency that `place` gives for its
/// magnitude and those beside it, with the level of its bin.
pub open spec fn located<V: Fn(Real32, Real32, Real32, usize) -> Real32>(
    place: V,
    mags: Seq<Real32>,
    dbs: Seq<Real32>,
    bins: Seq<usize>,
    peaks: Seq<Peak>,
) -> bool {
    &&& peaks.len() == bins.len()
    &&& forall|i: int|
        0 <= i < bins.len() ==> {
            let b = bins[i] as int;
            &&& (#[trigger] peaks[i]).db == dbs[b]
            &&& call_ensures(place, (mags[b - 1], mags[b], mags[b + 1], bins[i]), peaks[i].freq)
        }
}

/// The spectral peaks below the frequency limit, which is `limit` bins: local maxima
/// that reach a threshold, strongest first, at most `MAX_PEAKS`. `level` gives the
/// level of a magnitude, `plus` the sum of two levels, and
/// `place` the frequency of a peak, from its magnitude and those beside it. Fewer
/// than four bins give no peak.
pub fn pick<L: Fn(Real32) -> Real32, T: Fn(Real32, Real32) -> Real32, V: Fn(Real32, Real32, Real32, usize) -> Real32>(
    mags: &Vec<Real32>,
    limit: usize,
    level: L,
    plus: T,
    place: V,
) -> (peaks: Vec<Peak>)
    requires
        forall|m: Real32| call_requires(level, (m,)),
        forall|a: Real32, b: Real32| call_requires(plus, (a, b)),
        forall|a: Real32, b: Real32, c: Real32, k: usize| call_requires(place, (a, b, c, k)),
    ensures
        ({
            let n = searched(limit as int, mags.len() as int);
            if n < 4 {
                peaks.len() == 0
            } else {
                exists|dbs: Seq<Real32>, threshold: Real32| #[trigger]
                    leveled(level, mags@, dbs) && #[trigger] call_ensures(
                        plus,
                        (noise_floor(dbs, n), Real32 { bits: MARGIN_DB }),
                        threshold,
                    ) && located(place, mags@, dbs, peak_bins(mags@, dbs, threshold, n), peaks@)
            }
        }),
{
    let n: usize = searched_bins(limit, mags.len());
    let mut peaks: Vec<Peak> = Vec::new();
    if n < 4 {
        return peaks;
    }
    let mut dbs: Vec<Real32> = Vec::new();
    let mut i: usize = 0;
    while i < mags.len()
        invariant
            i <= mags.len(),
            dbs.len() == i,
            forall|m: Real32| call_requires(level, (m,)),
            forall|k: int| 0 <= k < i ==> call_ensures(level, (mags[k],), #[trigger] dbs[k]),
        decreases mags.len() - i,
    {
        let db: Real32 = level(mags[i]);
        dbs.push(db);
        i = i + 1;
    }
    let quiet: Vec<Real32> = section(&dbs, 1, n - 1);
    assert(quiet@ =~= dbs@.subrange(1, n as int));
    let threshold: Real32 = plus(median(&quiet), Real32::from_bits(MARGIN_DB));
    assert(leveled(level, mags@, dbs@));
    assert(call_ensures(plus, (noise_floor(dbs@, n as int), Real32 { bits: MARGIN_DB }), threshold));
    let bins: Vec<usize> = strongest_maxima(mags, &dbs, n, threshold);
    let mut k: usize = 0;
    while k < bins.len()
        invariant
            k <= bins.len(),
            n + 1 < mags.len() == dbs.len(),
            forall|j: int| 0 <= j < bins.len() ==> 2 <= (#[trigger] bins[j]) < n,
            forall|a: Real32, b: Real32, c: Real32, q: usize| call_requires(place, (a, b, c, q)),
            located(place, mags@, dbs@, bins@.take(k as int), peaks@),
        decreases bins.len() - k,
    {
        let b: usize = bins[k];
        let freq: Real32 = place(mags[b - 1], mags[b], mags[b + 1], b);
        let ghost had = peaks@;
        peaks.push(Peak { freq, db: dbs[b] });
        proof {
            let part = bins@.take(k + 1);
            assert forall|j: int| 0 <= j < part.len() implies ({
                let q = part[j] as int;
                &&& (#[trigger] peaks[j]).db == dbs@[q]
                &&& call_ensures(place, (mags@[q - 1], mags@[q], mags@[q + 1], part[j]), peaks[j].freq)
            }) by {
                if j < k {
                    assert(peaks[j] == had[j]);
                    assert(bins@.take(k as int)[j] == part[j]);
                }
            }
        }
        k = k + 1;
    }
    assert(bins@.take(k as int) =~= bins@);
    peaks
}

proof fn maxima_are_maxima(mags: Seq<Real32>, dbs: Seq<Real32>, threshold: Real32, n: int)
    requires
        n <= usize::MAX,
    ensures
        n >= 0 ==> maxima(mags, dbs, threshold, n).len() <= n,
        forall|k: int|
            0 <= k < maxima(mags, dbs, threshold, n).len() ==> {
                let b = (#[trigger] maxima(mags, dbs, threshold, n)[k]) as int;
                2 <= b < n && is_maximum(mags, dbs, threshold, b)
            },
    decreases n,
{
    if n > 2 {
        maxima_are_maxima(mags, dbs, threshold, n - 1);
        let before = maxima(mags, dbs, threshold, n - 1);
        let now = maxima(mags, dbs, threshold, n);
        assert forall|k: int| 0 <= k < now.len() implies ({
            let b = (#[trigger] now[k]) as int;
            2 <= b < n && is_maximum(mags, dbs, threshold, b)
        }) by {
            if k < before.len() {
                assert(now[k] == before[k]);
            }
        }
    }
}

proof fn every_maximum_is_listed(mags: Seq<Real32>, dbs: Seq<Real32>, threshold: Real32, n: int, bin: int)
    requires
        2 <= bin < n <= usize::MAX,
        is_maximum(mags, dbs, threshold, bin),
    ensures
        maxima(mags, dbs, threshold, n).contains(bin as usize),
    decreases n,
{
    let all = maxima(mags, dbs, threshold, n);
    if bin == n - 1 {
        assert(all.last() == bin as usize);
    } else {
        every_maximum_is_listed(mags, dbs, threshold, n - 1, bin);
        let before = maxima(mags, dbs, threshold, n - 1);
        let k = choose|k: int| 0 <= k < before.len() && before[k] == bin as usize;
        assert(all[k] == bin as usize);
    }
}

/// The peaks that are picked are local maxima that reach the threshold, strongest
/// first, and none that is left out is stronger.
pub proof fn picked_peaks_are_strongest(
    mags: Seq<Real32>,
    dbs: Seq<Real32>,
    threshold: Real32,
    n: int,
    i: int,
    bin: int,
)
    requires
        n <= usize::MAX,
        0 <= i < maxima(mags, dbs, threshold, n).len(),
        2 <= bin < n,
        is_maximum(mags, dbs, threshold, bin),
    ensures
        ({
            let all = maxima(mags, dbs, threshold, n);
            let best = sorted_positions(descending_keys(levels_at(dbs, all)));
            let picked = all[best[i] as int] as int;
            &&& is_maximum(mags, dbs, threshold, picked)
            &&& i > 0 ==> dbs[picked].total_rank() <= dbs[all[best[i - 1] as int] as int].total_rank()
            &&& (forall|j: int| 0 <= j <= i ==> all[#[trigger] best[j] as int] != bin) ==> dbs[bin].total_rank()
                <= dbs[picked].total_rank()
        }),
{
    let all = maxima(mags, dbs, threshold, n);
    let keys = descending_keys(levels_at(dbs, all));
    let order = sorted_positions(keys);
    maxima_are_maxima(mags, dbs, threshold, n);
    crate::order::keys_can_be_ordered(keys);
    every_maximum_is_listed(mags, dbs, threshold, n, bin);
    if i > 0 {
        assert(crate::order::precedes(keys, order[i - 1] as int, order[i] as int));
    }
    let k = choose|k: int| 0 <= k < all.len() && all[k] == bin as usize;
    assert(order.contains(k as usize));
    let j = choose|j: int| 0 <= j < order.len() && order[j] == k as usize;
    if j > i {
        assert(crate::order::precedes(keys, order[i] as int, order[j] as int));
    } else {
        assert(all[order[j] as int] == bin);
    }
}

} // verus!
