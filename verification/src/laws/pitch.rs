//! What the pitch detector measures and chooses.

use vstd::prelude::*;

use crate::ieee::Real32;
use crate::harmonics::{contributed, gathered, harmonic_hi, harmonic_lo, is_genuine, is_top, joined, near};
use crate::harmonics::{harmonic_peak, harmonic_score, mag_near, refine, series, shows, taken_in, Harmonic, REFINED, SCORED};
use crate::order::{is_last_largest, is_maximum_of, keys_can_be_ordered, kth_smallest, order_keys, precedes};
use crate::order::sorted_positions;
use crate::pitch::{agreeing, close_ones, depths, dips_in, distances, estimated, is_mean, is_stable, kept, median_of};
use crate::pitch::{dips, guitar_range, keep_candidates, observed, period_range, refined_to, scored, scored_at, sorted};
use crate::pitch::{Candidate, Detector};
use crate::table::is_table;
use crate::yin::{accumulated, candidates, chosen, difference, freqs_of, normalized, normalized_at, placed, summed_to};

verus! {

/// Candidate `a` is deeper than `b`, or as deep and stands before it.
pub open spec fn deeper(cands: Seq<Candidate>, a: int, b: int) -> bool {
    ||| cands[a].cmndf.total_rank() < cands[b].cmndf.total_rank()
    ||| cands[a].cmndf.total_rank() == cands[b].cmndf.total_rank() && a < b
}

/// What has been kept of the first `k` candidates, deepest first.
spec fn greedy(
    cands: Seq<Candidate>,
    range: (Real32, Real32),
    between: Seq<Vec<Real32>>,
    perm: Seq<usize>,
    r: Seq<usize>,
    k: int,
) -> bool {
    &&& r.len() <= 6
    &&& forall|i: int|
        0 <= i < r.len() ==> {
            let c = #[trigger] r[i];
            &&& c < cands.len()
            &&& range.0.at_most(cands[c as int].freq)
            &&& cands[c as int].freq.at_most(range.1)
            &&& exists|x: int| 0 <= x < k && #[trigger] perm[x] == c
        }
    &&& forall|i: int, j: int|
        0 <= i < j < r.len() ==> {
            &&& deeper(cands, (#[trigger] r[i]) as int, (#[trigger] r[j]) as int)
            &&& (Real32 { bits: 0x4120_0000 }).below(between[r[j] as int][r[i] as int].unsigned())
        }
    &&& forall|x: int|
        0 <= x < k ==> {
            let c = (#[trigger] perm[x]) as int;
            range.0.at_most(cands[c].freq) && cands[c].freq.at_most(range.1) ==> r.contains(perm[x])
                || excluded(cands, between, r, c)
        }
}

/// Candidate `c` has no place among those kept: there are six, all deeper, or one that
/// is deeper is within 10 cents of it.
pub open spec fn excluded(cands: Seq<Candidate>, between: Seq<Vec<Real32>>, r: Seq<usize>, c: int) -> bool {
    ||| r.len() == 6 && forall|i: int| 0 <= i < r.len() ==> deeper(cands, (#[trigger] r[i]) as int, c)
    ||| exists|i: int|
        0 <= i < r.len() && deeper(cands, (#[trigger] r[i]) as int, c) && !(Real32 { bits: 0x4120_0000 }).below(
            between[c][r[i] as int].unsigned(),
        )
}

proof fn kept_so_far(
    cands: Seq<Candidate>,
    range: (Real32, Real32),
    between: Seq<Vec<Real32>>,
    perm: Seq<usize>,
    k: int,
)
    requires
        cands.len() <= usize::MAX,
        perm == sorted_positions(order_keys(depths(cands))),
        0 <= k <= cands.len(),
    ensures
        greedy(cands, range, between, perm, kept(cands, range, between, perm, k), k),
    decreases k,
{
    let keys = order_keys(depths(cands));
    keys_can_be_ordered(keys);
    let r = kept(cands, range, between, perm, k);
    if k > 0 {
        let before = kept(cands, range, between, perm, k - 1);
        kept_so_far(cands, range, between, perm, k - 1);
        let c = perm[k - 1];
        assert(c < cands.len());
        assert forall|i: int| 0 <= i < before.len() implies deeper(cands, (#[trigger] before[i]) as int, c as int) by {
            let x = choose|x: int| 0 <= x < k - 1 && #[trigger] perm[x] == before[i];
            assert(precedes(keys, perm[x] as int, perm[k - 1] as int));
        }
        if r != before {
            assert(r == before.push(c));
            assert forall|i: int| 0 <= i < r.len() implies {
                let c = #[trigger] r[i];
                &&& c < cands.len()
                &&& range.0.at_most(cands[c as int].freq)
                &&& cands[c as int].freq.at_most(range.1)
                &&& exists|x: int| 0 <= x < k && #[trigger] perm[x] == c
            } by {
                if i < before.len() {
                    assert(r[i] == before[i]);
                    let x = choose|x: int| 0 <= x < k - 1 && #[trigger] perm[x] == before[i];
                    assert(perm[x] == r[i]);
                } else {
                    assert(perm[k - 1] == r[i]);
                }
            }
            assert forall|i: int, j: int| 0 <= i < j < r.len() implies {
                &&& deeper(cands, (#[trigger] r[i]) as int, (#[trigger] r[j]) as int)
                &&& (Real32 { bits: 0x4120_0000 }).below(between[r[j] as int][r[i] as int].unsigned())
            } by {
                assert(r[i] == before[i]);
                if j < before.len() {
                    assert(r[j] == before[j]);
                } else {
                    assert(r[j] == c);
                }
            }
        }
        assert forall|x: int| 0 <= x < k implies {
            let q = (#[trigger] perm[x]) as int;
            range.0.at_most(cands[q].freq) && cands[q].freq.at_most(range.1) ==> r.contains(perm[x]) || excluded(
                cands,
                between,
                r,
                q,
            )
        } by {
            let q = perm[x] as int;
            if range.0.at_most(cands[q].freq) && cands[q].freq.at_most(range.1) {
                if x < k - 1 {
                    if before.contains(perm[x]) {
                        let i = choose|i: int| 0 <= i < before.len() && before[i] == perm[x];
                        assert(r[i] == perm[x]);
                    } else {
                        assert(excluded(cands, between, before, q));
                        if before.len() < 6 {
                            let i = choose|i: int|
                                0 <= i < before.len() && deeper(cands, (#[trigger] before[i]) as int, q) && !(Real32 {
                                    bits: 0x4120_0000,
                                }).below(between[q][before[i] as int].unsigned());
                            assert(r[i] == before[i]);
                        }
                    }
                } else if r == before {
                    if before.len() < 6 {
                        assert(exists|i: int|
                            0 <= i < before.len() && !(Real32 { bits: 0x4120_0000 }).below(
                                between[q][(#[trigger] before[i]) as int].unsigned(),
                            ));
                    }
                } else {
                    assert(r[before.len() as int] == perm[x]);
                }
            }
        }
    }
}

/// Which candidates are kept: at most six, deepest first, each at least as high as the
/// range begins and at most as high as it ends, and each more than 10 cents from every
/// one before it. None is left out without reason: a candidate in range that is not
/// among them has six deeper ones before it, or a deeper one within 10 cents. So one
/// that is more than 10 cents from every deeper candidate is kept unless six deeper
/// ones are, and the deepest in range is always the first.
pub proof fn deepest_candidates_in_range_are_kept(
    cands: Seq<Candidate>,
    range: (Real32, Real32),
    between: Seq<Vec<Real32>>,
    r: Seq<usize>,
    c: usize,
)
    requires
        cands.len() <= usize::MAX,
        r == kept(cands, range, between, sorted_positions(order_keys(depths(cands))), cands.len() as int),
        c < cands.len(),
    ensures
        r.len() <= 6,
        forall|i: int|
            0 <= i < r.len() ==> {
                &&& (#[trigger] r[i]) < cands.len()
                &&& range.0.at_most(cands[r[i] as int].freq)
                &&& cands[r[i] as int].freq.at_most(range.1)
            },
        forall|i: int, j: int|
            0 <= i < j < r.len() ==> {
                &&& deeper(cands, (#[trigger] r[i]) as int, (#[trigger] r[j]) as int)
                &&& (Real32 { bits: 0x4120_0000 }).below(between[r[j] as int][r[i] as int].unsigned())
            },
        range.0.at_most(cands[c as int].freq) && cands[c as int].freq.at_most(range.1) ==> r.contains(c) || excluded(
            cands,
            between,
            r,
            c as int,
        ),
        range.0.at_most(cands[c as int].freq) && cands[c as int].freq.at_most(range.1) && (forall|d: int|
            0 <= d < cands.len() && #[trigger] deeper(cands, d, c as int) ==> (Real32 { bits: 0x4120_0000 }).below(
                between[c as int][d].unsigned(),
            )) ==> r.contains(c) || r.len() == 6,
        range.0.at_most(cands[c as int].freq) && cands[c as int].freq.at_most(range.1) && (forall|d: int|
            0 <= d < cands.len() && #[trigger] deeper(cands, d, c as int) ==> !(range.0.at_most(cands[d].freq)
                && cands[d].freq.at_most(range.1))) ==> r.len() > 0 && r[0] == c,
{
    let perm = sorted_positions(order_keys(depths(cands)));
    keys_can_be_ordered(order_keys(depths(cands)));
    kept_so_far(cands, range, between, perm, cands.len() as int);
    assert(perm.contains(c));
    let x = choose|x: int| 0 <= x < perm.len() && perm[x] == c;
    assert(perm[x] == c);
    if range.0.at_most(cands[c as int].freq) && cands[c as int].freq.at_most(range.1) && (forall|d: int|
        0 <= d < cands.len() && #[trigger] deeper(cands, d, c as int) ==> !(range.0.at_most(cands[d].freq)
            && cands[d].freq.at_most(range.1))) {
        if !r.contains(c) {
            assert(excluded(cands, between, r, c as int));
            if r.len() == 6 {
                assert(!deeper(cands, r[0] as int, c as int));
            }
        } else {
            let i = choose|i: int| 0 <= i < r.len() && r[i] == c;
            if i > 0 {
                assert(deeper(cands, r[0] as int, r[i] as int));
            }
        }
    }
}

/// The difference at a shift takes in every pair of samples that far apart, and starts
/// from zero: one more pair is one more call.
pub proof fn every_pair_of_samples_counts<A: Fn(Real32, Real32, Real32) -> Real32>(
    step: A,
    samples: Seq<Real32>,
    tau: int,
    k: nat,
    r: Real32,
)
    requires
        accumulated(step, samples, tau, k, r),
    ensures
        k == 0 ==> r.bits == 0,
        k > 0 ==> exists|m: Real32|
            accumulated(step, samples, tau, (k - 1) as nat, m) && #[trigger] call_ensures(
                step,
                (m, samples[k - 1], samples[k - 1 + tau]),
                r,
            ),
{
}

/// The normalized difference is one without a shift and where the differences so far add
/// up to nothing, else the ratio of the difference to their sum; every difference from
/// the first shift on is in the sum.
pub proof fn differences_are_normalized<P: Fn(Real32, Real32) -> Real32, N: Fn(Real32, usize, Real32) -> Real32>(
    plus: P,
    ratio: N,
    d: Seq<Real32>,
    tau: nat,
    v: Real32,
    s: Real32,
) -> (sum: Real32)
    requires
        normalized_at(plus, ratio, d, tau as int, v),
        summed_to(plus, d, tau, s),
    ensures
        tau == 0 ==> v.bits == 0x3f80_0000 && s.bits == 0,
        tau > 0 ==> exists|m: Real32|
            summed_to(plus, d, (tau - 1) as nat, m) && #[trigger] call_ensures(plus, (m, d[tau as int]), s),
        tau > 0 ==> summed_to(plus, d, tau, sum),
        tau > 0 && (Real32 { bits: 0 }).below(sum) ==> call_ensures(ratio, (d[tau as int], tau as usize, sum), v),
        tau > 0 && !(Real32 { bits: 0 }).below(sum) ==> v.bits == 0x3f80_0000,
{
    if tau == 0 {
        s
    } else {
        choose|sum: Real32| #[trigger]
            summed_to(plus, d, tau, sum) && if (Real32 { bits: 0 }).below(sum) {
                call_ensures(ratio, (d[tau as int], tau as usize, sum), v)
            } else {
                v == (Real32 { bits: 0x3f80_0000 })
            }
    }
}

/// A shift is a dip exactly if it lies in the search, the function is below 0.35 there
/// and not above either neighbour. The dips stand in order.
pub proof fn every_dip_is_found(cmndf: Seq<Real32>, lo: int, hi: int, tau: usize)
    requires
        0 <= lo <= hi <= usize::MAX,
    ensures
        dips_in(cmndf, lo, hi).contains(tau) <==> lo <= tau < hi && cmndf[tau as int].below(
            Real32 { bits: 0x3eb3_3333 },
        ) && cmndf[tau as int].at_most(cmndf[tau - 1]) && cmndf[tau as int].at_most(cmndf[tau + 1]),
        forall|i: int, j: int|
            0 <= i < j < dips_in(cmndf, lo, hi).len() ==> (#[trigger] dips_in(cmndf, lo, hi)[i]) < (
            #[trigger] dips_in(cmndf, lo, hi)[j]),
        forall|i: int| 0 <= i < dips_in(cmndf, lo, hi).len() ==> (#[trigger] dips_in(cmndf, lo, hi)[i]) < hi,
    decreases hi - lo,
{
    if lo < hi {
        every_dip_is_found(cmndf, lo, hi - 1, tau);
        let before = dips_in(cmndf, lo, hi - 1);
        let now = dips_in(cmndf, lo, hi);
        if before.contains(tau) {
            let i = choose|i: int| 0 <= i < before.len() && before[i] == tau;
            assert(now[i] == tau);
        }
        if now.contains(tau) && !before.contains(tau) {
            let i = choose|i: int| 0 <= i < now.len() && now[i] == tau;
            if i < before.len() {
                assert(before[i] == tau);
            }
        }
        if tau == hi - 1 && now.len() > before.len() {
            assert(now[before.len() as int] == tau);
        }
        assert forall|i: int| 0 <= i < now.len() implies (#[trigger] now[i]) < hi by {
            if i < before.len() {
                assert(now[i] == before[i]);
            }
        }
        assert forall|i: int, j: int| 0 <= i < j < now.len() implies (#[trigger] now[i]) < (#[trigger] now[j]) by {
            assert(now[i] == before[i]);
            if j < before.len() {
                assert(now[j] == before[j]);
            } else {
                assert(before[i] < hi - 1);
            }
        }
    }
}

/// A candidate stands at every dip, at the frequency that its three values give and with
/// its depth, and what is chosen of them are the kept ones.
pub proof fn candidates_stand_at_the_dips<V: Fn(Real32, Real32, Real32, usize) -> Real32>(
    place: V,
    cmndf: Seq<Real32>,
    at: Seq<usize>,
    cands: Seq<Candidate>,
    range: (Real32, Real32),
    table: Seq<Vec<Real32>>,
    i: int,
)
    requires
        placed(place, cmndf, at, cands),
        0 <= i < at.len(),
    ensures
        cands.len() == at.len(),
        cands[i].cmndf == cmndf[at[i] as int],
        call_ensures(
            place,
            (cmndf[at[i] - 1], cmndf[at[i] as int], cmndf[at[i] + 1], at[i]),
            cands[i].freq,
        ),
        ({
            let r = kept(cands, range, table, sorted_positions(order_keys(depths(cands))), cands.len() as int);
            &&& chosen(cands, range, table).len() == r.len()
            &&& forall|k: int| 0 <= k < r.len() ==> (#[trigger] chosen(cands, range, table)[k]) == cands[r[k] as int]
        }),
{
    assert(cands[i].cmndf == cmndf[at[i] as int]);
}

/// What is held of the estimates: an estimate comes last, and at most five are held, the
/// newest; a frame without one makes the oldest leave.
pub proof fn newest_five_estimates_are_held(recent: Seq<Real32>, raw: Option<Real32>, i: int)
    requires
        recent.len() <= 5,
        0 <= i < observed(recent, raw).len(),
    ensures
        raw matches Some(f) ==> {
            let after = observed(recent, raw);
            &&& after.len() == (if recent.len() < 5 {
                recent.len() + 1
            } else {
                5
            })
            &&& after.last() == f
            &&& i < after.len() - 1 ==> after[i] == recent[recent.len() - (after.len() - 1) + i]
        },
        raw is None ==> {
            let after = observed(recent, raw);
            &&& after.len() == recent.len() - 1
            &&& after[i] == recent[i + 1]
        },
{
}

/// Every vote within 25 cents of the median, sharp or flat, agrees with it, and no other
/// does: one more vote is one more that agrees exactly if its distance is below 25.
pub proof fn every_close_vote_agrees(values: Seq<Real32>, cents: Seq<Real32>, n: int)
    requires
        0 <= n,
    ensures
        close_ones(values, cents, 0).len() == 0,
        cents[n].unsigned().below(Real32 { bits: 0x41c8_0000 }) ==> close_ones(values, cents, n + 1) == close_ones(
            values,
            cents,
            n,
        ).push(values[n]),
        !cents[n].unsigned().below(Real32 { bits: 0x41c8_0000 }) ==> close_ones(values, cents, n + 1) == close_ones(
            values,
            cents,
            n,
        ),
{
}

/// A pitch is reported exactly if at least three of the held estimates agree: their
/// distances are taken from the estimate in the middle of their order, and the pitch is
/// the mean of those that are below 25 cents.
pub proof fn three_must_agree<C: Fn(Real32, Real32) -> Real32, M: Fn(Vec<Real32>) -> Real32>(
    between: C,
    mean: M,
    recent: Seq<Real32>,
    pitch: Option<Real32>,
) -> (r: (Seq<Real32>, Seq<Real32>))
    requires
        is_stable(between, mean, recent, pitch),
    ensures
        recent.len() < 3 ==> pitch is None,
        recent.len() >= 3 ==> {
            let (votes, cents) = r;
            let close = close_ones(votes, cents, recent.len() as int);
            &&& votes.len() == recent.len()
            &&& forall|i: int| 0 <= i < recent.len() ==> (#[trigger] votes[i]) == kth_smallest(recent, i)
            &&& cents.len() == recent.len()
            &&& forall|i: int|
                0 <= i < recent.len() ==> call_ensures(
                    between,
                    (votes[i], votes[recent.len() as int / 2]),
                    #[trigger] cents[i],
                )
            &&& pitch is Some <==> close.len() >= 3
            &&& pitch matches Some(f) ==> exists|v: Vec<Real32>| #[trigger]
                v@ == close && call_ensures(mean, (v,), f)
        },
{
    if recent.len() < 3 {
        (Seq::empty(), Seq::empty())
    } else {
        let votes = sorted(recent);
        let cents = choose|cents: Seq<Real32>| #[trigger]
            distances(between, votes, median_of(recent), cents) && match pitch {
                Some(f) => agreeing(recent, cents).len() >= 3 && is_mean(mean, agreeing(recent, cents), f),
                None => agreeing(recent, cents).len() < 3,
            };
        (votes, cents)
    }
}

/// Which candidate a frame is taken for: each is scored, with the bonus exactly if there
/// was a pitch and it lies within 80 cents of it; the best score wins, the last of equal
/// ones, unless it is zero or less.
pub proof fn best_score_wins<
    C: Fn(Real32, Real32) -> Real32,
    S: Fn(Candidate, bool) -> Real32,
    R: Fn(Real32) -> Option<Real32>,
>(
    between: C,
    score: S,
    refine: R,
    last: Option<Real32>,
    cands: Seq<Candidate>,
    pitch: Option<Real32>,
    i: int,
) -> (r: (Seq<Real32>, int))
    requires
        estimated(between, score, refine, last, cands, pitch),
        0 <= i < cands.len(),
    ensures
        ({
            let (scores, best) = r;
            &&& scores.len() == cands.len()
            &&& exists|bonus: bool| #[trigger]
                call_ensures(score, (cands[i], bonus), scores[i]) && match last {
                    Some(l) => exists|c: Real32| #[trigger]
                        call_ensures(between, (cands[i].freq, l), c) && bonus == c.unsigned().below(
                            Real32 { bits: 0x42a0_0000 },
                        ),
                    None => !bonus,
                }
            &&& 0 <= best < cands.len()
            &&& scores[i].total_rank() <= scores[best].total_rank()
            &&& i > best ==> scores[i].total_rank() < scores[best].total_rank()
            &&& pitch is Some <==> !scores[best].at_most(Real32 { bits: 0 })
            &&& pitch matches Some(f) ==> refined_to(between, refine, cands[best].freq, f)
        }),
{
    let scores = choose|scores: Seq<Real32>| #[trigger]
        scored(between, score, last, cands, scores) && match pitch {
            Some(f) => exists|k: int| #[trigger]
                is_last_largest(scores, cands.len() as int, k) && !scores[k].at_most(Real32 { bits: 0 }) && refined_to(
                    between,
                    refine,
                    cands[k].freq,
                    f,
                ),
            None => cands.len() == 0 || exists|k: int| #[trigger]
                is_last_largest(scores, cands.len() as int, k) && scores[k].at_most(Real32 { bits: 0 }),
        };
    assert(scored_at(between, score, last, cands[i], scores[i]));
    let best = match pitch {
        Some(f) => choose|k: int| #[trigger]
            is_last_largest(scores, cands.len() as int, k) && !scores[k].at_most(Real32 { bits: 0 }) && refined_to(
                between,
                refine,
                cands[k].freq,
                f,
            ),
        None => choose|k: int| #[trigger]
            is_last_largest(scores, cands.len() as int, k) && scores[k].at_most(Real32 { bits: 0 }),
    };
    (scores, best)
}

/// A refinement is trusted exactly if it lies below 40 cents from the candidate, sharp or
/// flat; otherwise, and where there is none, the candidate stands.
pub proof fn close_refinement_is_trusted<C: Fn(Real32, Real32) -> Real32, R: Fn(Real32) -> Option<Real32>>(
    between: C,
    refine: R,
    best: Real32,
    f: Real32,
) -> (found: Option<Real32>)
    requires
        refined_to(between, refine, best, f),
    ensures
        call_ensures(refine, (best,), found),
        found is None ==> f == best,
        found matches Some(x) ==> exists|c: Real32| #[trigger]
            call_ensures(between, (x, best), c) && (c.unsigned().below(Real32 { bits: 0x4220_0000 }) ==> f == x) && (
            !c.unsigned().below(Real32 { bits: 0x4220_0000 }) ==> f == best),
{
    choose|found: Option<Real32>| #[trigger]
        call_ensures(refine, (best,), found) && match found {
            Some(x) => exists|c: Real32| #[trigger]
                call_ensures(between, (x, best), c) && f == if c.unsigned().below(Real32 { bits: 0x4220_0000 }) {
                    x
                } else {
                    best
                },
            None => f == best,
        }
}

/// The strongest bin around a harmonic counts: of the bins from `lo` to `hi` that there
/// are none is above it.
pub proof fn strongest_bin_counts(mags: Seq<Real32>, lo: int, hi: int, m: Real32, i: int)
    requires
        is_maximum_of(Real32 { bits: 0 }, near(mags, lo, hi), near(mags, lo, hi).len() as int, m),
        0 <= lo,
        lo <= i <= hi,
        i < mags.len(),
        !mags[i].nan(),
    ensures
        mags[i].at_most(m),
        m.bits == 0 || exists|j: int| lo <= j <= hi && j < mags.len() && m == #[trigger] mags[j],
{
    let bins = near(mags, lo, hi);
    assert(bins[i - lo] == mags[i]);
    if m.bits != 0 {
        let j = choose|j: int| 0 <= j < bins.len() && m == #[trigger] bins[j];
        assert(mags[lo + j] == m);
    }
}

/// Every harmonic from the first on is in the score: one more harmonic is one more term,
/// the share of its strongest bin, or zero beyond the limit.
pub proof fn every_harmonic_is_scored<
    B: Fn(usize) -> Option<(usize, usize)>,
    S: Fn(Real32, usize) -> Real32,
    P: Fn(Real32, Real32) -> Real32,
>(mags: Seq<Real32>, band: B, share: S, plus: P, n: nat, total: Real32) -> (r: (
    Real32,
    Real32,
    Option<(usize, usize)>,
    Real32,
))
    requires
        series(mags, band, share, plus, n, total),
    ensures
        n == 0 ==> total.bits == 0,
        n > 0 ==> {
            let (before, term, b, m) = r;
            &&& series(mags, band, share, plus, (n - 1) as nat, before)
            &&& call_ensures(plus, (before, term), total)
            &&& call_ensures(band, (n as usize,), b)
            &&& b is None ==> term.bits == 0
            &&& b matches Some((lo, hi)) ==> call_ensures(share, (m, n as usize), term) && is_maximum_of(
                Real32 { bits: 0 },
                near(mags, lo as int, hi as int),
                near(mags, lo as int, hi as int).len() as int,
                m,
            )
        },
        SCORED == 6,
{
    let zero = Real32 { bits: 0 };
    if n == 0 {
        (zero, zero, None, zero)
    } else {
        let (before, v) = choose|before: Real32, v: Real32|
            series(mags, band, share, plus, (n - 1) as nat, before) && contributed(mags, band, share, n as usize, v)
                && #[trigger] call_ensures(plus, (before, v), total);
        let b = choose|b: Option<(usize, usize)>| #[trigger]
            call_ensures(band, (n as usize,), b) && match b {
                Some((lo, hi)) => exists|m: Real32| #[trigger]
                    call_ensures(share, (m, n as usize), v) && is_maximum_of(
                        zero,
                        near(mags, lo as int, hi as int),
                        near(mags, lo as int, hi as int).len() as int,
                        m,
                    ),
                None => v == zero,
            };
        match b {
            Some((lo, hi)) => {
                let m = choose|m: Real32| #[trigger]
                    call_ensures(share, (m, n as usize), v) && is_maximum_of(
                        zero,
                        near(mags, lo as int, hi as int),
                        near(mags, lo as int, hi as int).len() as int,
                        m,
                    );
                (before, v, b, m)
            },
            None => (before, v, b, zero),
        }
    }
}

/// Where a harmonic is looked for, and when it is there: in the five bins around the one
/// expected that the spectrum has, the outermost left out. The strongest of them that is
/// above zero is a peak exactly if it is above 1e-7 and neither neighbour is above it.
/// Fewer than two bins to search end the series.
pub proof fn genuine_peak_is_found(mags: Seq<Real32>, center: int, found: Harmonic, i: int)
    requires
        mags.len() >= 3,
        0 <= center,
        shows(mags, center, found),
        center - 2 <= i <= center + 2,
        1 <= i <= mags.len() - 2,
    ensures
        found is Beyond <==> (if center >= 3 {
            center - 2
        } else {
            1
        }) >= (if center + 2 < mags.len() - 2 {
            center + 2
        } else {
            mags.len() - 2
        }),
        found matches Harmonic::Peak(p) ==> {
            &&& center - 2 <= p <= center + 2
            &&& 1 <= p <= mags.len() - 2
            &&& (Real32 { bits: 0x33d6_bf95 }).below(mags[p as int])
            &&& !mags[p as int].below(mags[p - 1])
            &&& !mags[p as int].below(mags[p + 1])
            &&& (Real32 { bits: 0 }).below(mags[i]) ==> mags[i].at_most(mags[p as int])
        },
        found is Absent && (Real32 { bits: 0x33d6_bf95 }).below(mags[i]) && !mags[i].below(mags[i - 1]) && !mags[i].below(
            mags[i + 1],
        ) ==> exists|j: int|
            center - 2 <= j <= center + 2 && 1 <= j <= mags.len() - 2 && j != i && mags[i].at_most(#[trigger] mags[j]),
{
    let lo = harmonic_lo(center);
    let hi = harmonic_hi(center, mags.len() as int);
    if found is Absent {
        let p = choose|p: int| #[trigger] is_top(mags, lo, hi + 1, p) && !is_genuine(mags, p);
        assert(is_top(mags, lo, hi + 1, p));
        if (Real32 { bits: 0x33d6_bf95 }).below(mags[i]) && !mags[i].below(mags[i - 1]) && !mags[i].below(mags[i + 1]) {
            assert(mags[i].at_most(mags[p]));
            assert(p != i);
        }
    }
}

/// A harmonic's peak joins the refinement exactly if the pitch it speaks for is below 30
/// cents from the candidate, sharp or flat.
pub proof fn own_harmonics_refine<
    E: Fn(Real32, Real32, Real32, usize, usize) -> Real32,
    C: Fn(Real32, Real32) -> Real32,
    W: Fn((Real32, Real32), Real32, Real32) -> (Real32, Real32),
>(
    mags: Seq<Real32>,
    f0: Real32,
    place: E,
    between: C,
    weigh: W,
    k: usize,
    p: usize,
    before: (Real32, Real32),
    after: (Real32, Real32),
) -> (r: (Real32, Real32))
    requires
        joined(mags, f0, place, between, weigh, k, p, before, after),
    ensures
        call_ensures(place, (mags[p - 1], mags[p as int], mags[p + 1], p, k), r.0),
        call_ensures(between, (r.0, f0), r.1),
        r.1.unsigned().below(Real32 { bits: 0x41f0_0000 }) ==> call_ensures(weigh, (before, mags[p as int], r.0), after),
        !r.1.unsigned().below(Real32 { bits: 0x41f0_0000 }) ==> after == before,
{
    choose|f: Real32, cents: Real32|
        #![trigger call_ensures(between, (f, f0), cents)]
        call_ensures(place, (mags[p - 1], mags[p as int], mags[p + 1], p, k), f) && call_ensures(
            between,
            (f, f0),
            cents,
        ) && if cents.unsigned().below(Real32 { bits: 0x41f0_0000 }) {
            call_ensures(weigh, (before, mags[p as int], f), after)
        } else {
            after == before
        }
}

/// Every harmonic from the first on is in the refinement, up to the first that lies beyond
/// the spectrum: one more harmonic is looked for where it is expected, joins the sums if
/// it peaks there, and else leaves them as they are.
pub proof fn every_harmonic_refines<
    N: Fn(usize) -> usize,
    E: Fn(Real32, Real32, Real32, usize, usize) -> Real32,
    C: Fn(Real32, Real32) -> Real32,
    W: Fn((Real32, Real32), Real32, Real32) -> (Real32, Real32),
>(
    mags: Seq<Real32>,
    f0: Real32,
    center: N,
    place: E,
    between: C,
    weigh: W,
    n: nat,
    sums: (Real32, Real32),
    ended: bool,
) -> (r: (bool, (Real32, Real32), usize, Harmonic))
    requires
        gathered(mags, f0, center, place, between, weigh, n, sums, ended),
    ensures
        n == 0 ==> sums.0.bits == 0 && sums.1.bits == 0 && !ended,
        n > 0 && r.0 ==> ended && gathered(mags, f0, center, place, between, weigh, (n - 1) as nat, sums, true),
        n > 0 && !r.0 ==> {
            let (over, before, c, found) = r;
            &&& gathered(mags, f0, center, place, between, weigh, (n - 1) as nat, before, false)
            &&& call_ensures(center, (n as usize,), c)
            &&& shows(mags, c as int, found)
            &&& ended == (found is Beyond)
            &&& found matches Harmonic::Peak(p) ==> joined(mags, f0, place, between, weigh, n as usize, p, before, sums)
            &&& !(found is Peak) ==> sums == before
        },
        REFINED == 5,
{
    let zero = Real32 { bits: 0 };
    if n == 0 || (ended && gathered(mags, f0, center, place, between, weigh, (n - 1) as nat, sums, true)) {
        (true, (zero, zero), 0, Harmonic::Absent)
    } else {
        let before = choose|before: (Real32, Real32)|
            gathered(mags, f0, center, place, between, weigh, (n - 1) as nat, before, false) && #[trigger] taken_in(
                mags,
                f0,
                center,
                place,
                between,
                weigh,
                n as usize,
                before,
                sums,
                ended,
            );
        let (c, found) = choose|c: usize, found: Harmonic|
            #![trigger call_ensures(center, (n as usize,), c), shows(mags, c as int, found)]
            call_ensures(center, (n as usize,), c) && shows(mags, c as int, found) && ended == (found is Beyond)
                && match found {
                Harmonic::Peak(p) => joined(mags, f0, place, between, weigh, n as usize, p, before, sums),
                _ => sums == before,
            };
        (false, before, c, found)
    }
}

/// Without a candidate there is no pitch.
pub proof fn silence_has_no_pitch<
    C: Fn(Real32, Real32) -> Real32,
    S: Fn(Candidate, bool) -> Real32,
    R: Fn(Real32) -> Option<Real32>,
>(between: C, score: S, refine: R, last: Option<Real32>, cands: Seq<Candidate>, pitch: Option<Real32>)
    requires
        estimated(between, score, refine, last, cands, pitch),
        cands.len() == 0,
    ensures
        pitch is None,
{
}

/// The distances between candidates are those of their frequencies.
pub proof fn candidates_are_measured_by_frequency(cands: Seq<Candidate>, i: int)
    requires
        0 <= i < cands.len(),
    ensures
        freqs_of(cands).len() == cands.len(),
        freqs_of(cands)[i] == cands[i].freq,
{
}

/// What is kept of some candidates: the deepest few in range. Every one that is at least
/// as high as the range begins and at most as high as it ends, and more than 10 cents from
/// every deeper candidate, is kept, unless six deeper ones are; the deepest in range comes
/// first; and nothing else is kept.
pub proof fn candidates_in_range_are_kept(
    cands: &Vec<Candidate>,
    range: (Real32, Real32),
    between: &Vec<Vec<Real32>>,
    r: Vec<usize>,
    c: usize,
)
    requires
        call_ensures(keep_candidates, (cands, range, between), r),
        c < cands.len(),
    ensures
        ({
            let freq = cands[c as int].freq;
            let inside = range.0.at_most(freq) && freq.at_most(range.1);
            let alone = forall|d: int|
                0 <= d < cands.len() && #[trigger] deeper(cands@, d, c as int) ==> (Real32 { bits: 0x4120_0000 }).below(
                    between[c as int][d].unsigned(),
                );
            let first = forall|d: int|
                0 <= d < cands.len() && #[trigger] deeper(cands@, d, c as int) ==> !(range.0.at_most(cands[d].freq)
                    && cands[d].freq.at_most(range.1));
            &&& r.len() <= 6
            &&& r@.contains(c) ==> inside
            &&& inside && !r@.contains(c) ==> excluded(cands@, between@, r@, c as int)
            &&& inside && alone && r.len() < 6 ==> r@.contains(c)
            &&& inside && first ==> r.len() > 0 && r[0] == c
            &&& forall|i: int, j: int|
                0 <= i < j < r.len() ==> deeper(cands@, (#[trigger] r[i]) as int, (#[trigger] r[j]) as int) && (Real32 {
                    bits: 0x4120_0000,
                }).below(between[r[j] as int][r[i] as int].unsigned())
        }),
{
    deepest_candidates_in_range_are_kept(cands@, range, between@, r@, c);
    if r@.contains(c) {
        let i = choose|i: int| 0 <= i < r@.len() && r@[i] == c;
        assert(r@[i] < cands.len());
    }
}

/// The candidates of a window: those kept of one at every dip below 0.35 between the
/// shifts, at the place and with the depth of the dip.
pub proof fn candidates_come_from_the_dips<V: Fn(Real32, Real32, Real32, usize) -> Real32, C: Fn(Real32, Real32) -> Real32>(
    cmndf: &Vec<Real32>,
    lo: usize,
    hi: usize,
    range: (Real32, Real32),
    place: V,
    between: C,
    r: Vec<Candidate>,
) -> (w: (Seq<Candidate>, Seq<Vec<Real32>>))
    requires
        call_ensures(candidates::<V, C>, (cmndf, lo, hi, range, place, between), r),
    ensures
        placed(place, cmndf@, dips_in(cmndf@, lo as int, hi as int), w.0),
        is_table(between, freqs_of(w.0), freqs_of(w.0), w.1),
        r@ == chosen(w.0, range, w.1),
{
    choose|all: Seq<Candidate>, distances: Seq<Vec<Real32>>| #[trigger]
        placed(place, cmndf@, dips_in(cmndf@, lo as int, hi as int), all) && #[trigger] is_table(
            between,
            freqs_of(all),
            freqs_of(all),
            distances,
        ) && r@ == chosen(all, range, distances)
}

/// The difference of a window from itself: one value per shift, zero without one, and else
/// over all pairs of its first half.
pub proof fn differences_are_of_all_pairs<A: Fn(Real32, Real32, Real32) -> Real32>(
    samples: &Vec<Real32>,
    half: usize,
    tau_max: usize,
    step: A,
    d: Vec<Real32>,
    tau: int,
)
    requires
        call_ensures(difference::<A>, (samples, half, tau_max, step), d),
        1 <= tau <= tau_max,
    ensures
        d.len() == tau_max + 1,
        d[0].bits == 0,
        accumulated(step, samples@, tau, half as nat, d[tau]),
{
}

/// The periods that are searched: from 2 samples at least up to below half the window, and
/// there is a search exactly if more than two lie in between.
pub proof fn periods_are_searched(longest: usize, shortest: usize, half: usize, r: Option<(usize, usize)>)
    requires
        half >= 1,
        call_ensures(period_range, (longest, shortest, half), r),
    ensures
        r matches Some((lo, hi)) ==> {
            &&& lo >= 2 && lo >= shortest && (lo == 2 || lo == shortest)
            &&& hi < half && hi <= longest && (hi == half - 1 || hi == longest)
            &&& lo + 2 < hi
        },
        r is None ==> longest <= 4 || half <= 5 || longest <= shortest + 2 || half <= shortest + 3,
{
}

/// A frame is estimated by the best candidate, and then a pitch is reported as the held
/// estimates agree: what is held follows from what was held and the estimate, and the last
/// pitch is the one reported.
pub proof fn frames_are_tracked<C: Fn(Real32, Real32) -> Real32, M: Fn(Vec<Real32>) -> Real32>(
    d: &mut Detector,
    raw: Option<Real32>,
    between: C,
    mean: M,
    pitch: Option<Real32>,
)
    requires
        call_ensures(Detector::track::<C, M>, (d, raw, between, mean), pitch),
    ensures
        final(d).recent@ == observed(old(d).recent@, raw),
        is_stable(between, mean, final(d).recent@, pitch),
        pitch is Some ==> final(d).last == pitch,
        pitch is None ==> final(d).last == old(d).last,
{
}

/// A frame that is not audible is no evidence: the oldest estimate leaves, there is no
/// pitch, and the last one stays. One that is audible is estimated and tracked.
pub proof fn only_audible_frames_are_evidence<
    C: Fn(Real32, Real32) -> Real32,
    S: Fn(Candidate, bool) -> Real32,
    R: Fn(Real32) -> Option<Real32>,
    M: Fn(Vec<Real32>) -> Real32,
>(
    d: &mut Detector,
    audible: bool,
    cands: &Vec<Candidate>,
    between: C,
    score: S,
    refine: R,
    mean: M,
    pitch: Option<Real32>,
)
    requires
        call_ensures(Detector::listen::<C, S, R, M>, (d, audible, cands, between, score, refine, mean), pitch),
    ensures
        !audible ==> pitch is None && final(d).last == old(d).last && final(d).recent@ == observed(
            old(d).recent@,
            None::<Real32>,
        ),
        audible ==> is_stable(between, mean, final(d).recent@, pitch) && exists|raw: Option<Real32>| #[trigger]
            estimated(between, score, refine, old(d).last, cands@, raw) && final(d).recent@ == observed(
                old(d).recent@,
                raw,
            ),
{
}

/// The single-frame estimate is that of the best candidate.
pub proof fn estimate_is_of_the_best<
    C: Fn(Real32, Real32) -> Real32,
    S: Fn(Candidate, bool) -> Real32,
    R: Fn(Real32) -> Option<Real32>,
>(d: &Detector, cands: &Vec<Candidate>, between: C, score: S, refine: R, pitch: Option<Real32>)
    requires
        call_ensures(Detector::estimate::<C, S, R>, (d, cands, between, score, refine), pitch),
    ensures
        estimated(between, score, refine, d.last, cands@, pitch),
{
}

/// A reset forgets everything, and relaxing the oldest estimate.
pub proof fn detector_forgets(d: &mut Detector, e: &mut Detector)
    requires
        call_ensures(Detector::reset, (d,), ()),
        call_ensures(Detector::relax, (e,), ()),
    ensures
        final(d).recent@.len() == 0,
        final(d).last is None,
        final(e).last == old(e).last,
        old(e).recent@.len() == 0 ==> final(e).recent@.len() == 0,
        old(e).recent@.len() > 0 ==> final(e).recent@ == old(e).recent@.skip(1),
{
}

/// The score of a pitch is of its first six harmonics, and its refinement of its first
/// five, which gives a pitch exactly if they weigh more than nothing.
pub proof fn pitch_is_scored_and_refined<
    B: Fn(usize) -> Option<(usize, usize)>,
    S: Fn(Real32, usize) -> Real32,
    P: Fn(Real32, Real32) -> Real32,
    N: Fn(usize) -> usize,
    E: Fn(Real32, Real32, Real32, usize, usize) -> Real32,
    C: Fn(Real32, Real32) -> Real32,
    W: Fn((Real32, Real32), Real32, Real32) -> (Real32, Real32),
    Q: Fn(Real32, Real32) -> Real32,
>(
    mags: &Vec<Real32>,
    band: B,
    share: S,
    plus: P,
    total: Real32,
    f0: Real32,
    center: N,
    place: E,
    between: C,
    weigh: W,
    quotient: Q,
    r: Option<Real32>,
) -> (w: ((Real32, Real32), bool))
    requires
        call_ensures(harmonic_score::<B, S, P>, (mags, band, share, plus), total),
        call_ensures(refine::<N, E, C, W, Q>, (mags, f0, center, place, between, weigh, quotient), r),
    ensures
        series(mags@, band, share, plus, 6, total),
        gathered(mags@, f0, center, place, between, weigh, 5, w.0, w.1),
        r is Some <==> (Real32 { bits: 0 }).below(w.0.1),
        r matches Some(f) ==> call_ensures(quotient, (w.0.0, w.0.1), f),
{
    choose|sums: (Real32, Real32), ended: bool| #[trigger]
        gathered(mags@, f0, center, place, between, weigh, 5, sums, ended) && match r {
            Some(f) => (Real32 { bits: 0 }).below(sums.1) && call_ensures(quotient, sums, f),
            None => !(Real32 { bits: 0 }).below(sums.1),
        }
}

/// Every shift has its normalized difference, the dips of these are all found, and what the
/// spectrum shows of a harmonic is what is reported of it.
pub proof fn measurements_are_complete<P: Fn(Real32, Real32) -> Real32, N: Fn(Real32, usize, Real32) -> Real32>(
    d: &Vec<Real32>,
    plus: P,
    ratio: N,
    r: Vec<Real32>,
    tau: int,
    lo: usize,
    hi: usize,
    at: Vec<usize>,
    center: usize,
    found: Harmonic,
    from: usize,
    to: usize,
    m: Real32,
    range: (Real32, Real32),
)
    requires
        call_ensures(normalized::<P, N>, (d, plus, ratio), r),
        call_ensures(dips, (d, lo, hi), at),
        call_ensures(harmonic_peak, (d, center), found),
        call_ensures(mag_near, (d, from, to), m),
        call_ensures(guitar_range, (), range),
        0 <= tau < d.len(),
    ensures
        r.len() == d.len(),
        normalized_at(plus, ratio, d@, tau, r[tau]),
        at@ == dips_in(d@, lo as int, hi as int),
        shows(d@, center as int, found),
        is_maximum_of(
            Real32 { bits: 0 },
            near(d@, from as int, to as int),
            near(d@, from as int, to as int).len() as int,
            m,
        ),
        range.0.bits == 0x425c_0000 && range.1.bits == 0x4416_0000,
{
}

} // verus!
