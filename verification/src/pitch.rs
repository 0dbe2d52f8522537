//! Pitch detection robust to sympathetic resonance.
//!
//! On a real guitar other strings ring along with the one that is plucked, so
//! the detector
//!  1. collects all dips of the normalized difference function as candidates,
//!  2. scores each candidate by the energy of its harmonic series,
//!  3. refines the winner over its first harmonics,
//!  4. stabilizes across frames: 3 of the last 5 estimates must agree within 25
//!     cents before a pitch is reported.
//!
//! The functions here choose; the values they choose by are measured elsewhere.

use std::collections::VecDeque;

use vstd::prelude::*;

use crate::ieee::Real32;
use crate::order::{ascending, is_last_largest, is_stable_order, last_largest};
use crate::order::{keys_can_be_ordered, kth_smallest, order_keys, sorted_positions};
use crate::ring::{contents, newest};

verus! {

/// Spectrum window.
pub const FFT_LEN: usize = 8192;

/// Window of the difference function (most recent samples).
pub const YIN_LEN: usize = 4096;

/// Guitar fundamentals lie between 55 and 600 hertz, as IEEE 754 patterns: low
/// D2 with some margin, up past a high E string with a cejilla at the 9th fret.
pub const FMIN: u32 = 0x425c_0000;

pub const FMAX: u32 = 0x4416_0000;

/// Ceiling for candidate dips: 0.35, as an IEEE 754 pattern. Loose on purpose:
/// resonance from other strings raises the dip of the true pitch.
pub const CAND_THRESHOLD: u32 = 0x3eb3_3333;

/// Frames must agree within this many cents to count as stable: 25, as an IEEE
/// 754 pattern.
pub const STABLE_CENTS: u32 = 0x41c8_0000;

pub const RECENT_FRAMES: usize = 5;

pub const STABLE_QUORUM: usize = 3;

/// Candidates must be more than this apart: 10 cents, as an IEEE 754 pattern.
pub const DISTINCT_CENTS: u32 = 0x4120_0000;

/// Candidates that are scored.
pub const MAX_CANDIDATES: usize = 6;

/// A candidate this close to the last pitch continues it: 80 cents, as an IEEE
/// 754 pattern.
pub const CONTINUITY_CENTS: u32 = 0x42a0_0000;

/// A refinement this close to the candidate is trusted: 40 cents, as an IEEE 754
/// pattern.
pub const TRUST_CENTS: u32 = 0x4220_0000;

/// What the detector remembers from frame to frame.
pub struct Detector {
    /// Recent raw frame estimates.
    pub recent: VecDeque<Real32>,
    /// Last reported pitch.
    pub last: Option<Real32>,
}

/// The recent estimates after a frame: an estimate joins them, a frame without
/// one makes the oldest leave.
pub open spec fn observed(recent: Seq<Real32>, raw: Option<Real32>) -> Seq<Real32> {
    match raw {
        Some(f) => newest(recent.push(f), RECENT_FRAMES as nat),
        None => relaxed(recent),
    }
}

/// The recent estimates without the oldest.
pub open spec fn relaxed(recent: Seq<Real32>) -> Seq<Real32> {
    if recent.len() == 0 {
        recent
    } else {
        recent.skip(1)
    }
}

/// Values in ascending total order.
pub open spec fn sorted(values: Seq<Real32>) -> Seq<Real32> {
    Seq::new(values.len(), |i: int| kth_smallest(values, i))
}

/// The values whose distance from the median is below `STABLE_CENTS`, in order.
pub open spec fn close_ones(values: Seq<Real32>, cents: Seq<Real32>, n: int) -> Seq<Real32>
    decreases n,
{
    if n <= 0 {
        Seq::empty()
    } else {
        let before = close_ones(values, cents, n - 1);
        if cents[n - 1].unsigned().below(Real32 { bits: STABLE_CENTS }) {
            before.push(values[n - 1])
        } else {
            before
        }
    }
}

impl Detector {
    /// No more estimates are held than count.
    pub open spec fn well_formed(&self) -> bool {
        self.recent@.len() <= RECENT_FRAMES
    }

    /// Nothing has been heard.
    pub fn new() -> (r: Self)
        ensures
            r.well_formed(),
            r.recent@.len() == 0,
            r.last is None,
    {
        Detector { recent: VecDeque::new(), last: None }
    }

    /// Takes in the estimate of a frame. Once there are enough recent ones, gives
    /// them in ascending order; their median is the one in the middle.
    pub fn observe(&mut self, raw: Option<Real32>) -> (votes: Option<Vec<Real32>>)
        requires
            old(self).well_formed(),
        ensures
            final(self).well_formed(),
            final(self).recent@ == observed(old(self).recent@, raw),
            final(self).last == old(self).last,
            match votes {
                Some(v) => final(self).recent@.len() >= STABLE_QUORUM && v@ == sorted(final(self).recent@),
                None => final(self).recent@.len() < STABLE_QUORUM,
            },
    {
        match raw {
            Some(f) => {
                self.recent.push_back(f);
                if self.recent.len() > RECENT_FRAMES {
                    let oldest: Option<Real32> = self.recent.pop_front();
                }
                assert(self.recent@ =~= observed(old(self).recent@, raw));
            },
            None => {
                self.relax();
            },
        }
        if self.recent.len() < STABLE_QUORUM {
            return None;
        }
        let values: Vec<Real32> = contents(&self.recent);
        let perm: Vec<usize> = ascending(&values);
        let mut votes: Vec<Real32> = Vec::new();
        let mut i: usize = 0;
        while i < values.len()
            invariant
                i <= values.len(),
                is_stable_order(order_keys(values@), perm@),
                perm@ == sorted_positions(order_keys(values@)),
                votes@ == sorted(values@).take(i as int),
            decreases values.len() - i,
        {
            votes.push(values[perm[i]]);
            i = i + 1;
            assert(votes@ =~= sorted(values@).take(i as int));
        }
        assert(votes@ =~= sorted(values@));
        Some(votes)
    }

    /// Records a reported pitch.
    pub fn settle(&mut self, stable: Real32)
        ensures
            final(self).recent@ == old(self).recent@,
            final(self).last == Some(stable),
    {
        self.last = Some(stable);
    }

    /// Decays the stabilizer during near-silence (gated frames).
    pub fn relax(&mut self)
        requires
            old(self).well_formed(),
        ensures
            final(self).well_formed(),
            final(self).recent@ == relaxed(old(self).recent@),
            final(self).last == old(self).last,
    {
        let oldest: Option<Real32> = self.recent.pop_front();
        assert(self.recent@ =~= relaxed(old(self).recent@));
    }

    /// Forgets everything.
    pub fn reset(&mut self)
        ensures
            final(self).well_formed(),
            final(self).recent@.len() == 0,
            final(self).last is None,
    {
        self.recent.clear();
        self.last = None;
    }

    /// Whether a candidate continues the last pitch, of which it is `cents` away.
    pub fn continues(&self, cents: &Real32) -> (r: bool)
        ensures
            r == (self.last is Some && cents.unsigned().below(Real32 { bits: CONTINUITY_CENTS })),
    {
        self.last.is_some() && cents.abs().less(&Real32::from_bits(CONTINUITY_CENTS))
    }
}

/// Median-based agreement: those of the votes that are within `STABLE_CENTS` of
/// the median, if they make a quorum. `cents` holds the distances.
pub fn agreement(votes: &Vec<Real32>, cents: &Vec<Real32>) -> (close: Option<Vec<Real32>>)
    requires
        votes.len() == cents.len(),
    ensures
        match close {
            Some(c) => c@ == close_ones(votes@, cents@, votes.len() as int) && c.len() >= STABLE_QUORUM,
            None => close_ones(votes@, cents@, votes.len() as int).len() < STABLE_QUORUM,
        },
{
    let mut close: Vec<Real32> = Vec::new();
    let mut i: usize = 0;
    while i < votes.len()
        invariant
            i <= votes.len() == cents.len(),
            close@ == close_ones(votes@, cents@, i as int),
        decreases votes.len() - i,
    {
        if cents[i].abs().less(&Real32::from_bits(STABLE_CENTS)) {
            close.push(votes[i]);
        }
        i = i + 1;
    }
    if close.len() >= STABLE_QUORUM {
        Some(close)
    } else {
        None
    }
}

/// From a reset on a pitch is reported only once there were as many frames as make a
/// quorum: the first ones report none, whatever was estimated in them.
pub proof fn silence_before_a_quorum<C: Fn(Real32, Real32) -> Real32, M: Fn(Vec<Real32>) -> Real32>(
    between: C,
    mean: M,
    raws: Seq<Option<Real32>>,
    pitch: Option<Real32>,
)
    requires
        raws.len() < STABLE_QUORUM,
        is_stable(between, mean, heard(Seq::empty(), raws), pitch),
    ensures
        pitch is None,
{
    at_most_as_many_as_frames(raws);
}

proof fn at_most_as_many_as_frames(raws: Seq<Option<Real32>>)
    ensures
        heard(Seq::empty(), raws).len() <= raws.len(),
        heard(Seq::empty(), raws).len() <= RECENT_FRAMES,
    decreases raws.len(),
{
    if raws.len() > 0 {
        at_most_as_many_as_frames(raws.drop_last());
    }
}

/// The recent estimates after some frames.
pub open spec fn heard(recent: Seq<Real32>, raws: Seq<Option<Real32>>) -> Seq<Real32>
    decreases raws.len(),
{
    if raws.len() == 0 {
        recent
    } else {
        observed(heard(recent, raws.drop_last()), raws.last())
    }
}

/// Votes that agree are votes, at most all of them: a reported pitch rests on at
/// least a quorum of the recent frames.
pub proof fn agreement_is_among_the_votes(votes: Seq<Real32>, cents: Seq<Real32>, n: int)
    requires
        0 <= n <= votes.len(),
    ensures
        close_ones(votes, cents, n).len() <= n,
        forall|i: int|
            0 <= i < close_ones(votes, cents, n).len() ==> votes.contains(#[trigger] close_ones(votes, cents, n)[i]),
    decreases n,
{
    if n > 0 {
        agreement_is_among_the_votes(votes, cents, n - 1);
        assert(votes.contains(votes[n - 1]));
    }
}

/// A candidate pitch.
#[derive(Clone, Copy, Debug)]
pub struct Candidate {
    pub freq: Real32,
    /// Depth of its dip; lower is better.
    pub cmndf: Real32,
}

/// The periods that are searched, in samples: from `tau_min` to below `tau_max`,
/// if there are enough of them. `longest` and `shortest` are the periods of the
/// lowest and the highest pitch, `half` is half the window.
pub fn period_range(longest: usize, shortest: usize, half: usize) -> (r: Option<(usize, usize)>)
    requires
        half >= 1,
    ensures
        ({
            let tau_max: int = if longest < half - 1 {
                longest as int
            } else {
                half - 1
            };
            let tau_min: int = if shortest > 2 {
                shortest as int
            } else {
                2
            };
            match r {
                Some((lo, hi)) => lo == tau_min && hi == tau_max && tau_min + 2 < tau_max,
                None => tau_max <= tau_min + 2,
            }
        }),
{
    let tau_max: usize = if longest < half - 1 { longest } else { half - 1 };
    let tau_min: usize = if shortest > 2 { shortest } else { 2 };
    if tau_max < 2 || tau_max - 2 <= tau_min {
        return None;
    }
    Some((tau_min, tau_max))
}

/// The function dips at `tau`: it is below the threshold there and not above
/// either neighbour.
pub open spec fn is_dip(cmndf: Seq<Real32>, tau: int) -> bool {
    &&& cmndf[tau].below(Real32 { bits: CAND_THRESHOLD })
    &&& cmndf[tau].at_most(cmndf[tau - 1])
    &&& cmndf[tau].at_most(cmndf[tau + 1])
}

/// The dips from `lo` to below `hi`, in order.
pub open spec fn dips_in(cmndf: Seq<Real32>, lo: int, hi: int) -> Seq<usize>
    decreases hi - lo,
{
    if hi <= lo {
        Seq::empty()
    } else {
        let before = dips_in(cmndf, lo, hi - 1);
        if is_dip(cmndf, hi - 1) {
            before.push((hi - 1) as usize)
        } else {
            before
        }
    }
}

/// Every local minimum below the candidate threshold.
pub fn dips(cmndf: &Vec<Real32>, lo: usize, hi: usize) -> (r: Vec<usize>)
    requires
        1 <= lo <= hi < cmndf.len(),
    ensures
        r@ == dips_in(cmndf@, lo as int, hi as int),
{
    let mut r: Vec<usize> = Vec::new();
    let mut tau: usize = lo;
    while tau < hi
        invariant
            1 <= lo <= tau <= hi < cmndf.len(),
            r@ == dips_in(cmndf@, lo as int, tau as int),
        decreases hi - tau,
    {
        let v: Real32 = cmndf[tau];
        if v.less(&Real32::from_bits(CAND_THRESHOLD)) && v.less_or_equal(&cmndf[tau - 1]) && v.less_or_equal(
            &cmndf[tau + 1],
        ) {
            r.push(tau);
        }
        tau = tau + 1;
    }
    r
}

/// The pitches of a guitar.
pub fn guitar_range() -> (range: (Real32, Real32))
    ensures
        range == (Real32 { bits: FMIN }, Real32 { bits: FMAX }),
{
    (Real32::from_bits(FMIN), Real32::from_bits(FMAX))
}

/// The candidate's pitch lies in a range.
pub open spec fn in_range(c: Candidate, range: (Real32, Real32)) -> bool {
    range.0.at_most(c.freq) && c.freq.at_most(range.1)
}

/// The depths of the candidates' dips.
pub open spec fn depths(cands: Seq<Candidate>) -> Seq<Real32> {
    Seq::new(cands.len(), |i: int| cands[i].cmndf)
}

/// The candidates that are kept of the first `k` in the order `perm`: in range,
/// more than `DISTINCT_CENTS` from all kept before, at most `MAX_CANDIDATES`.
pub open spec fn kept(
    cands: Seq<Candidate>,
    range: (Real32, Real32),
    between: Seq<Vec<Real32>>,
    perm: Seq<usize>,
    k: int,
) -> Seq<usize>
    decreases k,
{
    if k <= 0 {
        Seq::empty()
    } else {
        let before = kept(cands, range, between, perm, k - 1);
        let c = perm[k - 1];
        if before.len() < MAX_CANDIDATES && in_range(cands[c as int], range) && (forall|q: int|
            0 <= q < before.len() ==> (Real32 { bits: DISTINCT_CENTS }).below(between[c as int][(#[trigger] before[q]) as int].unsigned())) {
            before.push(c)
        } else {
            before
        }
    }
}

pub proof fn kept_are_positions(
    cands: Seq<Candidate>,
    range: (Real32, Real32),
    between: Seq<Vec<Real32>>,
    perm: Seq<usize>,
    k: int,
)
    requires
        0 <= k <= perm.len(),
        forall|i: int| 0 <= i < perm.len() ==> (#[trigger] perm[i]) < cands.len(),
    ensures
        kept(cands, range, between, perm, k).len() <= MAX_CANDIDATES,
        forall|q: int|
            0 <= q < kept(cands, range, between, perm, k).len() ==> (#[trigger] kept(cands, range, between, perm, k)[q]) < cands.len(),
    decreases k,
{
    if k > 0 {
        kept_are_positions(cands, range, between, perm, k - 1);
    }
}

/// Keeps the strongest few candidates in range, deepest dip first; drops
/// near-duplicates. `between[i][j]` is the distance of `i` from `j` in cents.
pub fn keep_candidates(cands: &Vec<Candidate>, range: (Real32, Real32), between: &Vec<Vec<Real32>>) -> (r: Vec<
    usize,
>)
    requires
        between.len() == cands.len(),
        forall|i: int| 0 <= i < cands.len() ==> (#[trigger] between[i]).len() == cands.len(),
    ensures
        r@ == kept(cands@, range, between@, sorted_positions(order_keys(depths(cands@))), cands.len() as int),
{
    let mut levels: Vec<Real32> = Vec::new();
    let mut i: usize = 0;
    while i < cands.len()
        invariant
            i <= cands.len(),
            levels@ == depths(cands@).take(i as int),
        decreases cands.len() - i,
    {
        levels.push(cands[i].cmndf);
        i = i + 1;
        assert(levels@ =~= depths(cands@).take(i as int));
    }
    assert(levels@ =~= depths(cands@));
    let perm: Vec<usize> = ascending(&levels);
    let mut r: Vec<usize> = Vec::new();
    let mut k: usize = 0;
    while k < perm.len()
        invariant
            k <= perm.len() == cands.len() == between.len(),
            forall|j: int| 0 <= j < perm.len() ==> (#[trigger] perm[j]) < cands.len(),
            forall|j: int| 0 <= j < cands.len() ==> (#[trigger] between[j]).len() == cands.len(),
            r@ == kept(cands@, range, between@, perm@, k as int),
        decreases perm.len() - k,
    {
        proof {
            kept_are_positions(cands@, range, between@, perm@, k as int);
        }
        let c: usize = perm[k];
        let mut apart: bool = true;
        let mut q: usize = 0;
        while q < r.len()
            invariant
                q <= r.len(),
                c < cands.len() == between.len(),
                forall|j: int| 0 <= j < cands.len() ==> (#[trigger] between[j]).len() == cands.len(),
                forall|j: int| 0 <= j < r.len() ==> (#[trigger] r[j]) < cands.len(),
                apart == (forall|j: int|
                    0 <= j < q ==> (Real32 { bits: DISTINCT_CENTS }).below(between[c as int][(#[trigger] r[j]) as int].unsigned())),
            decreases r.len() - q,
        {
            apart = apart && Real32::from_bits(DISTINCT_CENTS).less(&between[c][r[q]].abs());
            q = q + 1;
        }
        let inside: bool = range.0.less_or_equal(&cands[c].freq) && cands[c].freq.less_or_equal(&range.1);
        if r.len() < MAX_CANDIDATES && inside && apart {
            r.push(c);
        }
        k = k + 1;
    }
    r
}

/// Candidates that are kept are in range and pairwise distinct.
pub proof fn kept_candidates_are_distinct(
    cands: Seq<Candidate>,
    range: (Real32, Real32),
    between: Seq<Vec<Real32>>,
    perm: Seq<usize>,
    k: int,
    a: int,
    b: int,
)
    requires
        0 <= k <= perm.len(),
        0 <= a < b < kept(cands, range, between, perm, k).len(),
    ensures
        in_range(cands[kept(cands, range, between, perm, k)[a] as int], range),
        in_range(cands[kept(cands, range, between, perm, k)[b] as int], range),
        (Real32 { bits: DISTINCT_CENTS }).below(
            between[kept(cands, range, between, perm, k)[b] as int][kept(cands, range, between, perm, k)[a] as int].unsigned(),
        ),
    decreases k,
{
    let before = kept(cands, range, between, perm, k - 1);
    if b < before.len() {
        kept_candidates_are_distinct(cands, range, between, perm, k - 1, a, b);
    } else {
        kept_are_in_range(cands, range, between, perm, k - 1, a);
        assert((Real32 { bits: DISTINCT_CENTS }).below(between[perm[k - 1] as int][before[a] as int].unsigned()));
    }
}

proof fn kept_are_in_range(
    cands: Seq<Candidate>,
    range: (Real32, Real32),
    between: Seq<Vec<Real32>>,
    perm: Seq<usize>,
    k: int,
    a: int,
)
    requires
        0 <= k <= perm.len(),
        0 <= a < kept(cands, range, between, perm, k).len(),
    ensures
        in_range(cands[kept(cands, range, between, perm, k)[a] as int], range),
    decreases k,
{
    if a < kept(cands, range, between, perm, k - 1).len() {
        kept_are_in_range(cands, range, between, perm, k - 1, a);
    }
}

/// The candidate with the best score, if that is positive; the last of several.
pub fn best_candidate(scores: &Vec<Real32>) -> (r: Option<usize>)
    ensures
        match r {
            Some(k) => is_last_largest(scores@, scores.len() as int, k as int) && !scores[k as int].at_most(
                Real32 { bits: 0 },
            ),
            None => scores.len() == 0 || exists|k: int| #[trigger]
                is_last_largest(scores@, scores.len() as int, k) && scores[k].at_most(Real32 { bits: 0 }),
        },
{
    match last_largest(scores) {
        Some(k) => {
            if scores[k].less_or_equal(&Real32::from_bits(0)) {
                assert(is_last_largest(scores@, scores.len() as int, k as int));
                None
            } else {
                Some(k)
            }
        },
        None => None,
    }
}

/// The refined pitch where it is within `TRUST_CENTS` of the candidate, else the
/// candidate; `cents` is their distance.
pub fn trusted(candidate: Real32, refined: Option<Real32>, cents: Real32) -> (r: Real32)
    ensures
        r == match refined {
            Some(f) => if cents.unsigned().below(Real32 { bits: TRUST_CENTS }) {
                f
            } else {
                candidate
            },
            None => candidate,
        },
{
    match refined {
        Some(f) => if cents.abs().less(&Real32::from_bits(TRUST_CENTS)) {
            f
        } else {
            candidate
        },
        None => candidate,
    }
}

/// `cents` holds the distances of some values from `from`.
pub open spec fn distances<C: Fn(Real32, Real32) -> Real32>(
    between: C,
    values: Seq<Real32>,
    from: Real32,
    cents: Seq<Real32>,
) -> bool {
    &&& cents.len() == values.len()
    &&& forall|i: int| 0 <= i < values.len() ==> call_ensures(between, (values[i], from), #[trigger] cents[i])
}

/// Measures the distances of some values from `from`.
fn measure<C: Fn(Real32, Real32) -> Real32>(between: &C, values: &Vec<Real32>, from: Real32) -> (cents: Vec<Real32>)
    requires
        forall|a: Real32, b: Real32| call_requires(*between, (a, b)),
    ensures
        distances(*between, values@, from, cents@),
{
    let mut cents: Vec<Real32> = Vec::new();
    let mut i: usize = 0;
    while i < values.len()
        invariant
            i <= values.len(),
            cents.len() == i,
            forall|a: Real32, b: Real32| call_requires(*between, (a, b)),
            forall|k: int| 0 <= k < i ==> call_ensures(*between, (values[k], from), #[trigger] cents[k]),
        decreases values.len() - i,
    {
        let c: Real32 = between(values[i], from);
        cents.push(c);
        i = i + 1;
    }
    cents
}

/// The median of the recent estimates.
pub open spec fn median_of(recent: Seq<Real32>) -> Real32 {
    sorted(recent)[recent.len() as int / 2]
}

/// The recent estimates that agree with their median, whose distances from it are
/// `cents`.
pub open spec fn agreeing(recent: Seq<Real32>, cents: Seq<Real32>) -> Seq<Real32> {
    close_ones(sorted(recent), cents, recent.len() as int)
}

/// The pitch `f` is a mean of some values.
pub open spec fn is_mean<M: Fn(Vec<Real32>) -> Real32>(mean: M, values: Seq<Real32>, f: Real32) -> bool {
    exists|v: Vec<Real32>| #[trigger] v@ == values && call_ensures(mean, (v,), f)
}

/// Whether a candidate of this frequency continues the last pitch.
pub open spec fn continues_last<C: Fn(Real32, Real32) -> Real32>(
    between: C,
    last: Option<Real32>,
    freq: Real32,
    bonus: bool,
) -> bool {
    match last {
        Some(l) => exists|c: Real32| #[trigger]
            call_ensures(between, (freq, l), c) && bonus == c.unsigned().below(Real32 { bits: CONTINUITY_CENTS }),
        None => !bonus,
    }
}

/// The score of a candidate.
pub open spec fn scored_at<C: Fn(Real32, Real32) -> Real32, S: Fn(Candidate, bool) -> Real32>(
    between: C,
    score: S,
    last: Option<Real32>,
    c: Candidate,
    value: Real32,
) -> bool {
    exists|bonus: bool| #[trigger] call_ensures(score, (c, bonus), value) && continues_last(between, last, c.freq, bonus)
}

/// The scores of all candidates.
pub open spec fn scored<C: Fn(Real32, Real32) -> Real32, S: Fn(Candidate, bool) -> Real32>(
    between: C,
    score: S,
    last: Option<Real32>,
    cands: Seq<Candidate>,
    scores: Seq<Real32>,
) -> bool {
    &&& scores.len() == cands.len()
    &&& forall|i: int| 0 <= i < cands.len() ==> scored_at(between, score, last, cands[i], #[trigger] scores[i])
}

/// The pitch `f` is what the refinement makes of the candidate `best`.
pub open spec fn refined_to<C: Fn(Real32, Real32) -> Real32, R: Fn(Real32) -> Option<Real32>>(
    between: C,
    refine: R,
    best: Real32,
    f: Real32,
) -> bool {
    exists|found: Option<Real32>| #[trigger]
        call_ensures(refine, (best,), found) && match found {
            Some(x) => exists|c: Real32| #[trigger]
                call_ensures(between, (x, best), c) && f == if c.unsigned().below(Real32 { bits: TRUST_CENTS }) {
                    x
                } else {
                    best
                },
            None => f == best,
        }
}

/// `pitch` is what the candidates of a frame come to.
pub open spec fn estimated<
    C: Fn(Real32, Real32) -> Real32,
    S: Fn(Candidate, bool) -> Real32,
    R: Fn(Real32) -> Option<Real32>,
>(between: C, score: S, refine: R, last: Option<Real32>, cands: Seq<Candidate>, pitch: Option<Real32>) -> bool {
    exists|scores: Seq<Real32>| #[trigger]
        scored(between, score, last, cands, scores) && match pitch {
            Some(f) => exists|k: int| #[trigger]
                is_last_largest(scores, cands.len() as int, k) && !scores[k].at_most(Real32 { bits: 0 }) && refined_to(
                    between,
                    refine,
                    cands[k].freq,
                    f,
                ),
            None => cands.len() == 0 || exists|k: int| #[trigger]
                is_last_largest(scores, cands.len() as int, k) && scores[k].at_most(Real32 { bits: 0 }),
        }
}

/// `pitch` is what the recent estimates agree on: the mean of those close to their
/// median, where these make a quorum.
pub open spec fn is_stable<C: Fn(Real32, Real32) -> Real32, M: Fn(Vec<Real32>) -> Real32>(
    between: C,
    mean: M,
    recent: Seq<Real32>,
    pitch: Option<Real32>,
) -> bool {
    if recent.len() < STABLE_QUORUM {
        pitch is None
    } else {
        exists|cents: Seq<Real32>| #[trigger]
            distances(between, sorted(recent), median_of(recent), cents) && match pitch {
                Some(f) => agreeing(recent, cents).len() >= STABLE_QUORUM && is_mean(mean, agreeing(recent, cents), f),
                None => agreeing(recent, cents).len() < STABLE_QUORUM,
            }
    }
}

/// `f` lies between two of some values, or is one of them.
pub open spec fn lies_among(values: Seq<Real32>, f: Real32) -> bool {
    exists|lo: Real32, hi: Real32|
        #![trigger lo.at_most(f), f.at_most(hi)]
        values.contains(lo) && values.contains(hi) && lo.at_most(f) && f.at_most(hi)
}

/// A pitch that is reported lies between the least and the greatest of the estimates
/// that are held, if a mean lies between the values it is of.
pub proof fn stable_pitch_lies_among_the_held<C: Fn(Real32, Real32) -> Real32, M: Fn(Vec<Real32>) -> Real32>(
    between: C,
    mean: M,
    recent: Seq<Real32>,
    f: Real32,
)
    requires
        recent.len() <= RECENT_FRAMES,
        is_stable(between, mean, recent, Some(f)),
        forall|v: Vec<Real32>, r: Real32| v.len() > 0 && #[trigger] call_ensures(mean, (v,), r) ==> lies_among(v@, r),
    ensures
        lies_among(recent, f),
{
    let cents = choose|cents: Seq<Real32>| #[trigger]
        distances(between, sorted(recent), median_of(recent), cents) && agreeing(recent, cents).len() >= STABLE_QUORUM
            && is_mean(mean, agreeing(recent, cents), f);
    let close = agreeing(recent, cents);
    let v = choose|v: Vec<Real32>| #[trigger] v@ == close && call_ensures(mean, (v,), f);
    assert(lies_among(v@, f));
    let (lo, hi) = choose|lo: Real32, hi: Real32|
        #![trigger lo.at_most(f), f.at_most(hi)]
        close.contains(lo) && close.contains(hi) && lo.at_most(f) && f.at_most(hi);
    agreement_is_among_the_votes(sorted(recent), cents, recent.len() as int);
    sorted_are_among(recent, lo);
    sorted_are_among(recent, hi);
}

proof fn sorted_are_among(recent: Seq<Real32>, x: Real32)
    requires
        recent.len() <= RECENT_FRAMES,
        sorted(recent).contains(x),
    ensures
        recent.contains(x),
{
    let keys = order_keys(recent);
    keys_can_be_ordered(keys);
    let i = choose|i: int| 0 <= i < sorted(recent).len() && sorted(recent)[i] == x;
    assert(recent[sorted_positions(keys)[i] as int] == x);
}

impl Detector {
    /// Single-frame estimate: the candidate whose score is best, refined. `score`
    /// rates a candidate and is told whether it continues the last pitch; `between`
    /// measures distances in cents.
    pub fn estimate<
        C: Fn(Real32, Real32) -> Real32,
        S: Fn(Candidate, bool) -> Real32,
        R: Fn(Real32) -> Option<Real32>,
    >(&self, cands: &Vec<Candidate>, between: C, score: S, refine: R) -> (pitch: Option<Real32>)
        requires
            forall|a: Real32, b: Real32| call_requires(between, (a, b)),
            forall|c: Candidate, b: bool| call_requires(score, (c, b)),
            forall|f: Real32| call_requires(refine, (f,)),
        ensures
            estimated(between, score, refine, self.last, cands@, pitch),
    {
        self.estimate_by(cands, &between, score, refine)
    }

    fn estimate_by<
        C: Fn(Real32, Real32) -> Real32,
        S: Fn(Candidate, bool) -> Real32,
        R: Fn(Real32) -> Option<Real32>,
    >(&self, cands: &Vec<Candidate>, between: &C, score: S, refine: R) -> (pitch: Option<Real32>)
        requires
            forall|a: Real32, b: Real32| call_requires(*between, (a, b)),
            forall|c: Candidate, b: bool| call_requires(score, (c, b)),
            forall|f: Real32| call_requires(refine, (f,)),
        ensures
            estimated(*between, score, refine, self.last, cands@, pitch),
    {
        let mut scores: Vec<Real32> = Vec::new();
        let mut i: usize = 0;
        while i < cands.len()
            invariant
                i <= cands.len(),
                scores.len() == i,
                forall|a: Real32, b: Real32| call_requires(*between, (a, b)),
                forall|c: Candidate, b: bool| call_requires(score, (c, b)),
                forall|k: int|
                    0 <= k < i ==> scored_at(*between, score, self.last, cands[k], #[trigger] scores[k]),
            decreases cands.len() - i,
        {
            let c: Candidate = cands[i];
            let bonus: bool = match self.last {
                Some(l) => {
                    let away: Real32 = between(c.freq, l);
                    self.continues(&away)
                },
                None => false,
            };
            assert(continues_last(*between, self.last, c.freq, bonus));
            let value: Real32 = score(c, bonus);
            assert(scored_at(*between, score, self.last, c, value));
            scores.push(value);
            i = i + 1;
        }
        assert(scored(*between, score, self.last, cands@, scores@));
        match best_candidate(&scores) {
            Some(k) => {
                let best: Real32 = cands[k].freq;
                let found: Option<Real32> = refine(best);
                let away: Real32 = match found {
                    Some(x) => between(x, best),
                    None => Real32::from_bits(0),
                };
                let f: Real32 = trusted(best, found, away);
                assert(refined_to(*between, refine, best, f));
                assert(is_last_largest(scores@, cands.len() as int, k as int));
                Some(f)
            },
            None => None,
        }
    }

    /// Takes in the estimate of a frame, and reports a stabilized pitch once enough
    /// frames agree: the mean of those that do.
    pub fn track<C: Fn(Real32, Real32) -> Real32, M: Fn(Vec<Real32>) -> Real32>(
        &mut self,
        raw: Option<Real32>,
        between: C,
        mean: M,
    ) -> (pitch: Option<Real32>)
        requires
            old(self).well_formed(),
            forall|a: Real32, b: Real32| call_requires(between, (a, b)),
            forall|v: Vec<Real32>| call_requires(mean, (v,)),
        ensures
            final(self).well_formed(),
            final(self).recent@ == observed(old(self).recent@, raw),
            final(self).last == (if pitch is Some {
                pitch
            } else {
                old(self).last
            }),
            is_stable(between, mean, final(self).recent@, pitch),
    {
        let votes: Vec<Real32> = match self.observe(raw) {
            Some(v) => v,
            None => return None,
        };
        let cents: Vec<Real32> = measure(&between, &votes, votes[votes.len() / 2]);
        let ghost recent = observed(old(self).recent@, raw);
        assert(distances(between, sorted(recent), median_of(recent), cents@));
        let close: Vec<Real32> = match agreement(&votes, &cents) {
            Some(c) => c,
            None => return None,
        };
        assert(close@ == agreeing(recent, cents@));
        let f: Real32 = mean(close);
        self.settle(f);
        Some(f)
    }

    /// Takes in a frame that is audible or not, with the candidates found in it. One that
    /// is not is no evidence: the oldest estimate leaves, and there is no pitch.
    pub fn listen<
        C: Fn(Real32, Real32) -> Real32,
        S: Fn(Candidate, bool) -> Real32,
        R: Fn(Real32) -> Option<Real32>,
        M: Fn(Vec<Real32>) -> Real32,
    >(
        &mut self,
        audible: bool,
        cands: &Vec<Candidate>,
        between: C,
        score: S,
        refine: R,
        mean: M,
    ) -> (pitch: Option<Real32>)
        requires
            old(self).well_formed(),
            forall|a: Real32, b: Real32| call_requires(between, (a, b)),
            forall|c: Candidate, b: bool| call_requires(score, (c, b)),
            forall|f: Real32| call_requires(refine, (f,)),
            forall|v: Vec<Real32>| call_requires(mean, (v,)),
        ensures
            final(self).well_formed(),
            final(self).last == (if pitch is Some {
                pitch
            } else {
                old(self).last
            }),
            audible ==> {
                &&& exists|raw: Option<Real32>| #[trigger]
                    estimated(between, score, refine, old(self).last, cands@, raw) && final(self).recent@ == observed(
                        old(self).recent@,
                        raw,
                    )
                &&& is_stable(between, mean, final(self).recent@, pitch)
            },
            !audible ==> {
                &&& final(self).recent@ == relaxed(old(self).recent@)
                &&& pitch is None
            },
    {
        if audible {
            let raw: Option<Real32> = self.estimate_by(cands, &between, score, refine);
            assert(estimated(between, score, refine, old(self).last, cands@, raw));
            self.track(raw, between, mean)
        } else {
            self.relax();
            None
        }
    }
}

} // verus!
