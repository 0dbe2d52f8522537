//! What becomes of the peaks of a frame.

use vstd::prelude::*;

use crate::dsp::peaks::{
    associated, claimed_by, eligible, free_count, is_nearest, moved, nearest, newborn,
    ordered_holds_the_same, survivor_ids, survivors, track_survives_dropout, unordered, Pairing,
    Peak, Track, Tracker, ASSOC_CENTS,
};
use crate::ieee::Real32;

verus! {

/// The pairings cover all peaks.
pub open spec fn covers(pairs: Seq<Vec<Pairing>>, peaks: nat) -> bool {
    forall|t: int| 0 <= t < pairs.len() ==> (#[trigger] pairs[t]).len() == peaks
}

/// Track `t` takes peak `i`.
pub open spec fn takes(pairs: Seq<Vec<Pairing>>, peaks: nat, t: int, i: int) -> bool {
    0 <= t < pairs.len() && nearest(pairs[t]@, claimed_by(pairs, peaks, t)) == Some(i)
}

/// The track that peak `i` opens where no track takes it.
pub open spec fn opened(peaks: Seq<Peak>, claimed: Seq<bool>, first_id: u64, i: int) -> Track {
    Track {
        id: (first_id + free_count(claimed, i)) as u64,
        freq: peaks[i].freq,
        db: peaks[i].db,
        age: 1,
        missed: 0,
    }
}

proof fn taken_is_nearest(pairs: Seq<Vec<Pairing>>, peaks: nat, t: int, i: int)
    requires
        takes(pairs, peaks, t, i),
    ensures
        is_nearest(pairs[t]@, claimed_by(pairs, peaks, t), i),
        eligible(pairs[t]@, claimed_by(pairs, peaks, t), i),
{
}

proof fn claimed_by_takers(pairs: Seq<Vec<Pairing>>, peaks: nat, n: int, i: int)
    requires
        covers(pairs, peaks),
        0 <= n <= pairs.len(),
        0 <= i < peaks,
    ensures
        claimed_by(pairs, peaks, n).len() == peaks,
        claimed_by(pairs, peaks, n)[i] <==> exists|t: int| t < n && #[trigger] takes(pairs, peaks, t, i),
    decreases n,
{
    if n > 0 {
        claimed_by_takers(pairs, peaks, n - 1, i);
        let before = claimed_by(pairs, peaks, n - 1);
        let now = claimed_by(pairs, peaks, n);
        match nearest(pairs[n - 1]@, before) {
            Some(j) => {
                assert(takes(pairs, peaks, n - 1, j));
                taken_is_nearest(pairs, peaks, n - 1, j);
                assert(0 <= j < peaks);
                if now[i] && j != i {
                    let t = choose|t: int| t < n - 1 && #[trigger] takes(pairs, peaks, t, i);
                    assert(takes(pairs, peaks, t, i));
                }
            },
            None => {
                if now[i] {
                    let t = choose|t: int| t < n - 1 && #[trigger] takes(pairs, peaks, t, i);
                    assert(takes(pairs, peaks, t, i));
                }
            },
        }
        if exists|t: int| t < n && #[trigger] takes(pairs, peaks, t, i) {
            let t = choose|t: int| t < n && #[trigger] takes(pairs, peaks, t, i);
            if t < n - 1 {
                assert(before[i]);
            }
        }
    }
}

proof fn free_grows(claimed: Seq<bool>, i: int, k: int)
    requires
        0 <= i <= k,
    ensures
        free_count(claimed, i) <= free_count(claimed, k) <= free_count(claimed, i) + (k - i),
        i < k && !claimed[i] ==> free_count(claimed, i) < free_count(claimed, k),
    decreases k - i,
{
    if i < k {
        free_grows(claimed, i, k - 1);
    }
}

proof fn newborns_are_free(peaks: Seq<Peak>, claimed: Seq<bool>, first_id: u64, k: int)
    requires
        0 <= k <= peaks.len(),
    ensures
        newborn(peaks, claimed, first_id, k).len() == free_count(claimed, k),
    decreases k,
{
    if k > 0 {
        newborns_are_free(peaks, claimed, first_id, k - 1);
    }
}

proof fn free_peak_opens(peaks: Seq<Peak>, claimed: Seq<bool>, first_id: u64, k: int, i: int)
    requires
        0 <= i < k <= peaks.len(),
        !claimed[i],
    ensures
        free_count(claimed, i) < newborn(peaks, claimed, first_id, k).len(),
        newborn(peaks, claimed, first_id, k)[free_count(claimed, i) as int] == opened(peaks, claimed, first_id, i),
    decreases k,
{
    newborns_are_free(peaks, claimed, first_id, k - 1);
    if i < k - 1 {
        free_peak_opens(peaks, claimed, first_id, k - 1, i);
    }
}

proof fn newborn_was_free(peaks: Seq<Peak>, claimed: Seq<bool>, first_id: u64, k: int, j: int) -> (i: int)
    requires
        0 <= k <= peaks.len(),
        0 <= j < newborn(peaks, claimed, first_id, k).len(),
    ensures
        0 <= i < k,
        !claimed[i],
        newborn(peaks, claimed, first_id, k)[j] == opened(peaks, claimed, first_id, i),
    decreases k,
{
    newborns_are_free(peaks, claimed, first_id, k - 1);
    let before = newborn(peaks, claimed, first_id, k - 1);
    if j < before.len() {
        newborn_was_free(peaks, claimed, first_id, k - 1, j)
    } else {
        k - 1
    }
}

/// Every peak goes one way. Either exactly one old track takes it: the track keeps its
/// identity, moves, and has the peak's level, and the peak is within reach of it. Or no
/// track takes it, and it opens one new track of an identity never used before; then
/// and only then is there a new track of its own.
pub proof fn every_peak_goes_one_way(
    peaks: Seq<Peak>,
    pairs: Seq<Vec<Pairing>>,
    before: Tracker,
    after: Tracker,
    i: int,
)
    requires
        before.well_formed(),
        pairs.len() == before.tracks.len(),
        covers(pairs, peaks.len()),
        before.next_id + peaks.len() <= u64::MAX,
        associated(peaks, pairs, before, after),
        0 <= i < peaks.len(),
    ensures
        ({
            let claimed = claimed_by(pairs, peaks.len(), pairs.len() as int);
            let taken = exists|t: int| #[trigger] takes(pairs, peaks.len(), t, i);
            &&& taken == claimed[i]
            &&& forall|t: int, u: int|
                #[trigger] takes(pairs, peaks.len(), t, i) && #[trigger] takes(pairs, peaks.len(), u, i) ==> t == u
            &&& forall|t: int| #[trigger]
                takes(pairs, peaks.len(), t, i) ==> {
                    let m = moved(before.tracks@, peaks, pairs, t);
                    &&& after.tracks@.contains(m)
                    &&& m.id == before.tracks[t].id
                    &&& m.freq == pairs[t][i].blended
                    &&& m.db == peaks[i].db
                    &&& m.missed == 0
                    &&& pairs[t][i].cents.unsigned().below(Real32 { bits: ASSOC_CENTS })
                }
            &&& !taken ==> {
                &&& after.tracks@.contains(opened(peaks, claimed, before.next_id, i))
                &&& before.next_id <= opened(peaks, claimed, before.next_id, i).id < after.next_id
            }
            &&& forall|j: int|
                0 <= j < after.tracks.len() && (#[trigger] after.tracks[j]).id >= before.next_id ==> exists|k: int|
                    0 <= k < peaks.len() && !(#[trigger] claimed[k]) && after.tracks[j] == opened(
                        peaks,
                        claimed,
                        before.next_id,
                        k,
                    )
            &&& forall|k: int|
                0 <= k < peaks.len() && k != i && !taken && !(#[trigger] claimed[k]) ==> opened(
                    peaks,
                    claimed,
                    before.next_id,
                    k,
                ).id != opened(peaks, claimed, before.next_id, i).id
        }),
{
    let n = peaks.len();
    let claimed = claimed_by(pairs, n, pairs.len() as int);
    let all = unordered(before.tracks@, peaks, pairs, before.next_id);
    let kept = survivors(before.tracks@, peaks, pairs, before.tracks.len() as int);
    let new = newborn(peaks, claimed, before.next_id, n as int);
    claimed_by_takers(pairs, n, pairs.len() as int, i);
    let taken = exists|t: int| #[trigger] takes(pairs, n, t, i);
    if taken {
        let t = choose|t: int| #[trigger] takes(pairs, n, t, i);
        assert(t < pairs.len() && takes(pairs, n, t, i));
    }
    assert forall|t: int, u: int| #[trigger] takes(pairs, n, t, i) && #[trigger] takes(pairs, n, u, i) implies t == u by {
        taken_is_nearest(pairs, n, t, i);
        taken_is_nearest(pairs, n, u, i);
        if t < u {
            claimed_by_takers(pairs, n, u, i);
            assert(claimed_by(pairs, n, u)[i]);
        } else if u < t {
            claimed_by_takers(pairs, n, t, i);
            assert(claimed_by(pairs, n, t)[i]);
        }
    }
    assert forall|t: int| #[trigger] takes(pairs, n, t, i) implies ({
        let m = moved(before.tracks@, peaks, pairs, t);
        &&& after.tracks@.contains(m)
        &&& m.id == before.tracks[t].id
        &&& m.freq == pairs[t][i].blended
        &&& m.db == peaks[i].db
        &&& m.missed == 0
        &&& pairs[t][i].cents.unsigned().below(Real32 { bits: ASSOC_CENTS })
    }) by {
        taken_is_nearest(pairs, n, t, i);
        track_survives_dropout(before.tracks@, peaks, pairs, before.next_id, after.tracks@, t);
    }
    newborns_are_free(peaks, claimed, before.next_id, n as int);
    free_grows(claimed, i, n as int);
    free_grows(claimed, 0, i);
    if !taken {
        assert(!claimed[i]);
        free_peak_opens(peaks, claimed, before.next_id, n as int, i);
        let own = opened(peaks, claimed, before.next_id, i);
        let at = kept.len() + free_count(claimed, i);
        assert(all[at as int] == own);
        ordered_holds_the_same(all, after.tracks@, own);
    }
    survivor_ids(before.tracks@, peaks, pairs, before.tracks.len() as int);
    assert forall|j: int| 0 <= j < after.tracks.len() && (#[trigger] after.tracks[j]).id >= before.next_id implies exists|
        k: int,
    |
        0 <= k < n && !(#[trigger] claimed[k]) && after.tracks[j] == opened(peaks, claimed, before.next_id, k) by {
        let m = after.tracks[j];
        assert(after.tracks@.contains(m));
        ordered_holds_the_same(all, after.tracks@, m);
        let a = choose|a: int| 0 <= a < all.len() && all[a] == m;
        if a < kept.len() {
            assert(kept[a] == m);
            let k = choose|k: int| 0 <= k < before.tracks.len() && kept[a].id == (#[trigger] before.tracks@[k]).id;
            assert(before.tracks[k].id < before.next_id);
        } else {
            assert(new[a - kept.len()] == m);
            let k = newborn_was_free(peaks, claimed, before.next_id, n as int, a - kept.len());
            assert(!claimed[k]);
        }
    }
    assert forall|k: int| 0 <= k < n && k != i && !taken && !(#[trigger] claimed[k]) implies opened(
        peaks,
        claimed,
        before.next_id,
        k,
    ).id != opened(peaks, claimed, before.next_id, i).id by {
        free_grows(claimed, 0, k);
        free_grows(claimed, k, n as int);
        if k < i {
            free_grows(claimed, k, i);
        } else {
            free_grows(claimed, i, k);
        }
    }
}

} // verus!
