//! Which peaks are picked, and which track takes which.

use vstd::prelude::*;

use crate::dsp::peaks::{
    associated, claimed_by, free_count, heard_in, is_maximum, is_nearest, leveled, levels_at, located, loudness_keys, maxima,
    moved, nearest, newborn, noise_floor, paired, peak_bins, pick, searched, survivors, unordered, Pairing,
    Peak, Track, Tracker,
};
use crate::ieee::Real32;
use crate::laws::order::{count_above, count_below, place_in_the_order};
use crate::order::{descending_keys, is_stable_order, keys_can_be_ordered, precedes, sorted_positions};

verus! {

/// A bin is a peak exactly if it is one of the bins from 2 to below `n`, it is above the
/// bin before and not below the one behind, and its level is not below the threshold.
/// The peaks stand in order.
pub proof fn every_peak_is_found(mags: Seq<Real32>, dbs: Seq<Real32>, threshold: Real32, n: int, b: usize)
    requires
        0 <= n <= usize::MAX,
    ensures
        maxima(mags, dbs, threshold, n).contains(b) <==> 2 <= b < n && !mags[b as int].at_most(mags[b - 1])
            && !mags[b as int].below(mags[b + 1]) && !dbs[b as int].below(threshold),
        forall|i: int| 0 <= i < maxima(mags, dbs, threshold, n).len() ==> 2 <= (#[trigger] maxima(
            mags,
            dbs,
            threshold,
            n,
        )[i]) < n,
        forall|i: int, j: int|
            0 <= i < j < maxima(mags, dbs, threshold, n).len() ==> (#[trigger] maxima(mags, dbs, threshold, n)[i]) < (
            #[trigger] maxima(mags, dbs, threshold, n)[j]),
    decreases n,
{
    if n > 2 {
        every_peak_is_found(mags, dbs, threshold, n - 1, b);
        let before = maxima(mags, dbs, threshold, n - 1);
        let now = maxima(mags, dbs, threshold, n);
        if before.contains(b) {
            let i = choose|i: int| 0 <= i < before.len() && before[i] == b;
            assert(now[i] == b);
        }
        if now.contains(b) && !before.contains(b) {
            let i = choose|i: int| 0 <= i < now.len() && now[i] == b;
            if i < before.len() {
                assert(before[i] == b);
            }
        }
        if b == n - 1 && is_maximum(mags, dbs, threshold, n - 1) {
            assert(now[before.len() as int] == b);
        }
        assert forall|i: int| 0 <= i < now.len() implies 2 <= (#[trigger] now[i]) < n by {
            if i < before.len() {
                assert(now[i] == before[i]);
            }
        }
        assert forall|i: int, j: int| 0 <= i < j < now.len() implies (#[trigger] now[i]) < (#[trigger] now[j]) by {
            assert(now[i] == before[i]);
            if j < before.len() {
                assert(now[j] == before[j]);
            } else {
                assert(2 <= before[i] < n - 1);
            }
        }
    }
}

/// Of the peaks the sixteen loudest are picked, all of them if there are fewer, by
/// falling level: none that was left out is louder than one that was picked.
pub proof fn loudest_peaks_are_picked(mags: Seq<Real32>, dbs: Seq<Real32>, threshold: Real32, n: int, b: usize)
    requires
        2 <= n <= usize::MAX,
    ensures
        ({
            let all = maxima(mags, dbs, threshold, n);
            let bins = peak_bins(mags, dbs, threshold, n);
            &&& bins.len() == (if all.len() < 16 {
                all.len()
            } else {
                16
            })
            &&& bins.contains(b) ==> all.contains(b)
            &&& bins.no_duplicates()
            &&& forall|i: int, j: int|
                0 <= i < j < bins.len() ==> dbs[(#[trigger] bins[j]) as int].total_rank() <= dbs[(
                #[trigger] bins[i]) as int].total_rank()
            &&& all.contains(b) && !bins.contains(b) ==> forall|i: int|
                0 <= i < bins.len() ==> dbs[b as int].total_rank() <= dbs[(#[trigger] bins[i]) as int].total_rank()
        }),
{
    let all = maxima(mags, dbs, threshold, n);
    let bins = peak_bins(mags, dbs, threshold, n);
    let levels = levels_at(dbs, all);
    let keys = descending_keys(levels);
    let best = sorted_positions(keys);
    every_peak_is_found(mags, dbs, threshold, n, b);
    maxima_are_few(mags, dbs, threshold, n);
    keys_can_be_ordered(keys);
    assert forall|i: int, j: int| 0 <= i < j < bins.len() implies dbs[(#[trigger] bins[j]) as int].total_rank() <= dbs[(
    #[trigger] bins[i]) as int].total_rank() && bins[i] != bins[j] by {
        assert(precedes(keys, best[i] as int, best[j] as int));
        if best[i] < best[j] {
            assert(all[best[i] as int] < all[best[j] as int]);
        } else {
            assert(all[best[j] as int] < all[best[i] as int]);
        }
    }
    if bins.contains(b) {
        let i = choose|i: int| 0 <= i < bins.len() && bins[i] == b;
        assert(all[best[i] as int] == b);
    }
    if all.contains(b) && !bins.contains(b) {
        let p = choose|p: int| 0 <= p < all.len() && all[p] == b;
        assert(best.contains(p as usize));
        let k = choose|k: int| 0 <= k < best.len() && best[k] == p as usize;
        if k < bins.len() {
            assert(bins[k] == b);
        }
        assert forall|i: int| 0 <= i < bins.len() implies dbs[b as int].total_rank() <= dbs[(
        #[trigger] bins[i]) as int].total_rank() by {
            assert(precedes(keys, best[i] as int, best[k] as int));
        }
    }
}

proof fn maxima_are_few(mags: Seq<Real32>, dbs: Seq<Real32>, threshold: Real32, n: int)
    requires
        2 <= n,
    ensures
        maxima(mags, dbs, threshold, n).len() <= n,
    decreases n,
{
    if n > 2 {
        maxima_are_few(mags, dbs, threshold, n - 1);
    }
}

/// The noise floor is a level in the middle: of the bins from 1 to below `n` at most half
/// lie below it and at most half above. The search ends two bins before the spectrum.
/// Each peak has the level of its bin and the place that its three bins give.
pub proof fn peaks_stand_out_of_the_noise<V: Fn(Real32, Real32, Real32, usize) -> Real32>(
    place: V,
    mags: Seq<Real32>,
    dbs: Seq<Real32>,
    limit: int,
    n: int,
    bins: Seq<usize>,
    peaks: Seq<Peak>,
    i: int,
)
    requires
        0 <= limit,
        2 <= n <= dbs.len() <= usize::MAX,
        located(place, mags, dbs, bins, peaks),
        0 <= i < bins.len(),
    ensures
        ({
            let levels = dbs.subrange(1, n);
            &&& levels.contains(noise_floor(dbs, n))
            &&& count_below(levels, noise_floor(dbs, n), n - 1) <= (n - 1) / 2
            &&& count_above(levels, noise_floor(dbs, n), n - 1) <= n - 2 - (n - 1) / 2
        }),
        searched(limit, mags.len() as int) == (if mags.len() < 2 {
            0
        } else if limit <= mags.len() - 2 {
            limit
        } else {
            mags.len() - 2
        }),
        peaks.len() == bins.len(),
        peaks[i].db == dbs[bins[i] as int],
        call_ensures(
            place,
            (mags[bins[i] - 1], mags[bins[i] as int], mags[bins[i] + 1], bins[i]),
            peaks[i].freq,
        ),
{
    place_in_the_order(dbs.subrange(1, n), (n - 1) / 2);
    assert(peaks[i].db == dbs[bins[i] as int]);
}

/// A track takes the nearest peak that is still free and below 35 cents away, sharp or
/// flat, the first of equally near ones; it takes none exactly if there is none.
pub proof fn nearest_free_peak_is_taken(row: Seq<Pairing>, claimed: Seq<bool>, i: int)
    requires
        row.len() == claimed.len(),
        0 <= i < row.len(),
    ensures
        ({
            let free = !claimed[i] && row[i].cents.unsigned().below(Real32 { bits: 0x420c_0000 });
            match nearest(row, claimed) {
                Some(p) => {
                    &&& 0 <= p < row.len()
                    &&& !claimed[p]
                    &&& row[p].cents.unsigned().below(Real32 { bits: 0x420c_0000 })
                    &&& free ==> row[p].cents.magnitude() <= row[i].cents.magnitude()
                    &&& free && i < p ==> row[p].cents.magnitude() < row[i].cents.magnitude()
                },
                None => !free,
            }
        }),
{
    match nearest(row, claimed) {
        Some(p) => {
            assert(is_nearest(row, claimed, p));
            if !claimed[i] && row[i].cents.unsigned().below(Real32 { bits: 0x420c_0000 }) {
                assert(crate::dsp::peaks::eligible(row, claimed, i));
            }
        },
        None => {
            if !claimed[i] && row[i].cents.unsigned().below(Real32 { bits: 0x420c_0000 }) {
                let p = least_of(row, claimed, i, row.len() as int);
                assert(is_nearest(row, claimed, p));
            }
        },
    }
}

/// The nearest free peak among the first `n`.
proof fn least_of(row: Seq<Pairing>, claimed: Seq<bool>, i: int, n: int) -> (p: int)
    requires
        row.len() == claimed.len(),
        0 <= i < n <= row.len(),
        crate::dsp::peaks::eligible(row, claimed, i),
    ensures
        0 <= p < n,
        crate::dsp::peaks::eligible(row, claimed, p),
        forall|j: int|
            0 <= j < n && #[trigger] crate::dsp::peaks::eligible(row, claimed, j) ==> {
                ||| row[p].cents.magnitude() < row[j].cents.magnitude()
                ||| (row[p].cents.magnitude() == row[j].cents.magnitude() && p <= j)
            },
    decreases n,
{
    if n == i + 1 && (forall|j: int| 0 <= j < i ==> !#[trigger] crate::dsp::peaks::eligible(row, claimed, j)) {
        i
    } else if n == i + 1 {
        let j = choose|j: int| 0 <= j < i && #[trigger] crate::dsp::peaks::eligible(row, claimed, j);
        let p = least_of(row, claimed, j, i);
        if row[i].cents.magnitude() < row[p].cents.magnitude() {
            i
        } else {
            p
        }
    } else {
        let p = least_of(row, claimed, i, n - 1);
        if crate::dsp::peaks::eligible(row, claimed, n - 1) && row[n - 1].cents.magnitude()
            < row[p].cents.magnitude() {
            n - 1
        } else {
            p
        }
    }
}

/// The tracks choose in turn: a peak is claimed after a track's turn exactly if it was
/// before or that track took it, and none is at first.
pub proof fn tracks_choose_in_turn(pairs: Seq<Vec<Pairing>>, peaks: nat, t: int, i: int)
    requires
        0 <= t < pairs.len(),
        0 <= i < peaks,
        claimed_by(pairs, peaks, t).len() == peaks,
        pairs[t].len() == peaks,
    ensures
        !claimed_by(pairs, peaks, 0)[i],
        claimed_by(pairs, peaks, t + 1)[i] <==> claimed_by(pairs, peaks, t)[i] || nearest(
            pairs[t]@,
            claimed_by(pairs, peaks, t),
        ) == Some(i),
        claimed_by(pairs, peaks, t + 1).len() == peaks,
{
    let row = pairs[t]@;
    let before = claimed_by(pairs, peaks, t);
    match nearest(row, before) {
        Some(p) => {
            assert(is_nearest(row, before, p));
        },
        None => {},
    }
}

/// What becomes of a track in its turn. If it takes a peak it moves to the blend with it,
/// has its level, is a frame older and has missed none; otherwise it has missed one more
/// and is else as it was. It lives on unless it has missed more than three in a row.
pub proof fn track_moves_or_misses(tracks: Seq<Track>, peaks: Seq<Peak>, pairs: Seq<Vec<Pairing>>, t: int)
    requires
        0 <= t < tracks.len(),
        tracks[t].age < u32::MAX,
        tracks[t].missed <= 3,
    ensures
        ({
            let old = tracks[t];
            let m = moved(tracks, peaks, pairs, t);
            &&& m.id == old.id
            &&& match nearest(pairs[t]@, claimed_by(pairs, peaks.len(), t)) {
                Some(i) => m.freq == pairs[t][i].blended && m.db == peaks[i].db && m.age == old.age + 1 && m.missed == 0,
                None => m.freq == old.freq && m.db == old.db && m.age == old.age && m.missed == old.missed + 1,
            }
            &&& survivors(tracks, peaks, pairs, 0).len() == 0
            &&& m.missed <= 3 ==> survivors(tracks, peaks, pairs, t + 1) == survivors(tracks, peaks, pairs, t).push(m)
            &&& m.missed > 3 ==> survivors(tracks, peaks, pairs, t + 1) == survivors(tracks, peaks, pairs, t)
        }),
{
}

/// Every peak that no track took starts a track of its own, of age one, under the next
/// identity; and no other does.
pub proof fn free_peaks_start_tracks(peaks: Seq<Peak>, claimed: Seq<bool>, first_id: u64, k: int)
    requires
        0 <= k < peaks.len(),
        first_id + peaks.len() <= u64::MAX,
        newborn(peaks, claimed, first_id, k).len() <= k,
    ensures
        newborn(peaks, claimed, first_id, 0).len() == 0,
        free_count(claimed, 0) == 0,
        claimed[k] ==> newborn(peaks, claimed, first_id, k + 1) == newborn(peaks, claimed, first_id, k) && free_count(
            claimed,
            k + 1,
        ) == free_count(claimed, k),
        !claimed[k] ==> {
            let before = newborn(peaks, claimed, first_id, k);
            let now = newborn(peaks, claimed, first_id, k + 1);
            &&& now.drop_last() == before
            &&& now.len() == before.len() + 1
            &&& now.last().id == first_id + before.len()
            &&& now.last().freq == peaks[k].freq
            &&& now.last().db == peaks[k].db
            &&& now.last().age == 1
            &&& now.last().missed == 0
            &&& free_count(claimed, k + 1) == free_count(claimed, k) + 1
        },
{
    if !claimed[k] {
        let before = newborn(peaks, claimed, first_id, k);
        assert(newborn(peaks, claimed, first_id, k + 1).drop_last() =~= before);
    }
}

/// After a frame there are the tracks that live on and those that start, all of them and
/// no other, the loudest first; the next identity is behind those given. The distances
/// and blends are those of the track with each peak, and the peaks of a frame that is not
/// audible do not count.
pub proof fn tracks_after_a_frame<C: Fn(Real32, Real32) -> Real32, B: Fn(Real32, Real32) -> Real32>(
    between: C,
    blend: B,
    audible: bool,
    found: Seq<Peak>,
    pairs: Seq<Vec<Pairing>>,
    before: Tracker,
    after: Tracker,
    t: int,
    i: int,
    j: int,
)
    requires
        paired(between, blend, before.tracks@, heard_in(audible, found), pairs),
        associated(heard_in(audible, found), pairs, before, after),
    ensures
        audible ==> heard_in(audible, found) == found,
        !audible ==> heard_in(audible, found).len() == 0,
        pairs.len() == before.tracks.len(),
        0 <= t < pairs.len() ==> pairs[t].len() == heard_in(audible, found).len(),
        0 <= t < pairs.len() && 0 <= i < heard_in(audible, found).len() ==> call_ensures(
            between,
            (heard_in(audible, found)[i].freq, before.tracks[t].freq),
            pairs[t][i].cents,
        ) && call_ensures(
            blend,
            (before.tracks[t].freq, heard_in(audible, found)[i].freq),
            pairs[t][i].blended,
        ),
        ({
            let peaks = heard_in(audible, found);
            let claimed = claimed_by(pairs, peaks.len(), pairs.len() as int);
            let kept = survivors(before.tracks@, peaks, pairs, before.tracks.len() as int);
            let new = newborn(peaks, claimed, before.next_id, peaks.len() as int);
            &&& after.tracks.len() == kept.len() + new.len()
            &&& forall|m: Track| #[trigger] after.tracks@.contains(m) <==> kept.contains(m) || new.contains(m)
            &&& 0 <= i < j < after.tracks.len() ==> after.tracks[j].db.total_rank() <= after.tracks[i].db.total_rank()
            &&& after.next_id == before.next_id + free_count(claimed, peaks.len() as int)
        }),
{
    let peaks = heard_in(audible, found);
    let claimed = claimed_by(pairs, peaks.len(), pairs.len() as int);
    let kept = survivors(before.tracks@, peaks, pairs, before.tracks.len() as int);
    let new = newborn(peaks, claimed, before.next_id, peaks.len() as int);
    let all = unordered(before.tracks@, peaks, pairs, before.next_id);
    if 0 <= t < pairs.len() {
        assert(crate::dsp::peaks::paired_with(between, blend, before.tracks[t].freq, peaks, pairs[t]@));
        if 0 <= i < peaks.len() {
            assert(call_ensures(between, (peaks[i].freq, before.tracks[t].freq), pairs[t]@[i].cents));
        }
    }
    assert forall|m: Track| #[trigger] after.tracks@.contains(m) <==> kept.contains(m) || new.contains(m) by {
        crate::dsp::peaks::ordered_holds_the_same(all, after.tracks@, m);
        if kept.contains(m) {
            let k = choose|k: int| 0 <= k < kept.len() && kept[k] == m;
            assert(all[k] == m);
        }
        if new.contains(m) {
            let k = choose|k: int| 0 <= k < new.len() && new[k] == m;
            assert(all[kept.len() + k] == m);
        }
        if all.contains(m) {
            let k = choose|k: int| 0 <= k < all.len() && all[k] == m;
            if k < kept.len() {
                assert(kept[k] == m);
            } else {
                assert(new[k - kept.len()] == m);
            }
        }
    }
    let keys = loudness_keys(all);
    let perm = choose|perm: Seq<usize>|
        #![trigger is_stable_order(keys, perm)]
        is_stable_order(keys, perm) && after.tracks@ == Seq::new(all.len(), |i: int| all[perm[i] as int]);
    if 0 <= i < j < after.tracks.len() {
        assert(precedes(keys, perm[i] as int, perm[j] as int));
    }
}

/// Every bin has its own level.
pub proof fn every_bin_has_its_level<L: Fn(Real32) -> Real32>(level: L, mags: Seq<Real32>, dbs: Seq<Real32>, i: int)
    requires
        leveled(level, mags, dbs),
        0 <= i < mags.len(),
    ensures
        dbs.len() == mags.len(),
        call_ensures(level, (mags[i],), dbs[i]),
{
}

/// The peaks of a spectrum are the loudest of its maxima that stand 12 dB out of the noise;
/// there are none where fewer than four bins are searched.
pub proof fn peaks_are_picked<
    L: Fn(Real32) -> Real32,
    T: Fn(Real32, Real32) -> Real32,
    V: Fn(Real32, Real32, Real32, usize) -> Real32,
>(mags: &Vec<Real32>, limit: usize, level: L, plus: T, place: V, peaks: Vec<Peak>) -> (w: (Seq<Real32>, Real32))
    requires
        call_ensures(pick::<L, T, V>, (mags, limit, level, plus, place), peaks),
    ensures
        ({
            let n = searched(limit as int, mags.len() as int);
            let (dbs, threshold) = w;
            &&& n < 4 ==> peaks.len() == 0
            &&& n >= 4 ==> {
                &&& leveled(level, mags@, dbs)
                &&& call_ensures(plus, (noise_floor(dbs, n), Real32 { bits: 0x4140_0000 }), threshold)
                &&& located(place, mags@, dbs, peak_bins(mags@, dbs, threshold, n), peaks@)
            }
        }),
{
    let n = searched(limit as int, mags.len() as int);
    if n < 4 {
        (Seq::empty(), Real32 { bits: 0 })
    } else {
        choose|dbs: Seq<Real32>, threshold: Real32| #[trigger]
            leveled(level, mags@, dbs) && #[trigger] call_ensures(
                plus,
                (noise_floor(dbs, n), Real32 { bits: 0x4140_0000 }),
                threshold,
            ) && located(place, mags@, dbs, peak_bins(mags@, dbs, threshold, n), peaks@)
    }
}

/// The tracks after a frame are those that its audible peaks make of them.
pub proof fn tracks_listen<C: Fn(Real32, Real32) -> Real32, B: Fn(Real32, Real32) -> Real32>(
    t: &mut Tracker,
    audible: bool,
    peaks: &Vec<Peak>,
    u: &mut Tracker,
    between: C,
    blend: B,
)
    requires
        call_ensures(Tracker::listen::<C, B>, (t, audible, peaks, between, blend), ()),
        call_ensures(Tracker::update::<C, B>, (u, peaks, between, blend), ()),
    ensures
        exists|pairs: Seq<Vec<Pairing>>| #[trigger]
            paired(between, blend, old(t).tracks@, heard_in(audible, peaks@), pairs) && associated(
                heard_in(audible, peaks@),
                pairs,
                *old(t),
                *final(t),
            ),
        exists|pairs: Seq<Vec<Pairing>>| #[trigger]
            paired(between, blend, old(u).tracks@, peaks@, pairs) && associated(peaks@, pairs, *old(u), *final(u)),
{
}

} // verus!
