//! Candidates for the pitch: where the normalized difference function of a window
//! dips. The arithmetic is the caller's, handed in as functions.

use vstd::prelude::*;

use crate::ieee::Real32;
use crate::order::{order_keys, sorted_positions};
use crate::pitch::{depths, dips, dips_in, keep_candidates, kept, Candidate};
use crate::table::{is_table, table};

verus! {

/// The number one, as an IEEE 754 pattern.
pub const ONE: u32 = 0x3f80_0000;

/// `r` comes from zero by taking in, one after another, the first `k` samples and
/// those `tau` behind them.
pub open spec fn accumulated<A: Fn(Real32, Real32, Real32) -> Real32>(
    step: A,
    samples: Seq<Real32>,
    tau: int,
    k: nat,
    r: Real32,
) -> bool
    decreases k,
{
    if k == 0 {
        r == (Real32 { bits: 0 })
    } else {
        exists|m: Real32|
            accumulated(step, samples, tau, (k - 1) as nat, m) && #[trigger] call_ensures(
                step,
                (m, samples[k - 1], samples[k - 1 + tau]),
                r,
            )
    }
}

/// The difference of a window from itself shifted by `tau`.
fn difference_at<A: Fn(Real32, Real32, Real32) -> Real32>(
    samples: &Vec<Real32>,
    half: usize,
    tau: usize,
    step: &A,
) -> (r: Real32)
    requires
        half + tau <= samples.len(),
        forall|a: Real32, b: Real32, c: Real32| call_requires(*step, (a, b, c)),
    ensures
        accumulated(*step, samples@, tau as int, half as nat, r),
{
    let mut r: Real32 = Real32::from_bits(0);
    let mut k: usize = 0;
    while k < half
        invariant
            k <= half,
            half + tau <= samples.len(),
            forall|a: Real32, b: Real32, c: Real32| call_requires(*step, (a, b, c)),
            accumulated(*step, samples@, tau as int, k as nat, r),
        decreases half - k,
    {
        let ghost m = r;
        r = step(r, samples[k], samples[k + tau]);
        proof {
            let next = (k + 1) as nat;
            assert(accumulated(*step, samples@, tau as int, (next - 1) as nat, m));
            assert(call_ensures(*step, (m, samples@[next - 1], samples@[next - 1 + tau]), r));
        }
        k = k + 1;
    }
    r
}

/// The difference function of a window over its first half, for the shifts up to
/// `tau_max`; it is zero without a shift. `step` takes in one pair of samples.
pub fn difference<A: Fn(Real32, Real32, Real32) -> Real32>(
    samples: &Vec<Real32>,
    half: usize,
    tau_max: usize,
    step: A,
) -> (d: Vec<Real32>)
    requires
        half + tau_max <= samples.len(),
        tau_max < usize::MAX,
        forall|a: Real32, b: Real32, c: Real32| call_requires(step, (a, b, c)),
    ensures
        d.len() == tau_max + 1,
        d[0] == (Real32 { bits: 0 }),
        forall|tau: int|
            1 <= tau <= tau_max ==> accumulated(step, samples@, tau, half as nat, #[trigger] d[tau]),
{
    let mut d: Vec<Real32> = Vec::new();
    d.push(Real32::from_bits(0));
    let mut tau: usize = 1;
    while tau <= tau_max
        invariant
            1 <= tau <= tau_max + 1,
            tau_max < usize::MAX,
            half + tau_max <= samples.len(),
            d.len() == tau,
            d[0] == (Real32 { bits: 0 }),
            forall|a: Real32, b: Real32, c: Real32| call_requires(step, (a, b, c)),
            forall|t: int| 1 <= t < tau ==> accumulated(step, samples@, t, half as nat, #[trigger] d[t]),
        decreases tau_max + 1 - tau,
    {
        let r: Real32 = difference_at(samples, half, tau, &step);
        d.push(r);
        tau = tau + 1;
    }
    d
}

/// `r` is the sum of the differences from shift 1 to shift `tau`, added one after
/// another.
pub open spec fn summed_to<P: Fn(Real32, Real32) -> Real32>(plus: P, d: Seq<Real32>, tau: nat, r: Real32) -> bool
    decreases tau,
{
    if tau == 0 {
        r == (Real32 { bits: 0 })
    } else {
        exists|m: Real32|
            summed_to(plus, d, (tau - 1) as nat, m) && #[trigger] call_ensures(plus, (m, d[tau as int]), r)
    }
}

/// The normalized difference at a shift: the difference over the mean of those up
/// to it, where that is positive, and one elsewhere.
pub open spec fn normalized_at<P: Fn(Real32, Real32) -> Real32, N: Fn(Real32, usize, Real32) -> Real32>(
    plus: P,
    ratio: N,
    d: Seq<Real32>,
    tau: int,
    v: Real32,
) -> bool {
    if tau == 0 {
        v == (Real32 { bits: ONE })
    } else {
        exists|sum: Real32| #[trigger]
            summed_to(plus, d, tau as nat, sum) && if (Real32 { bits: 0 }).below(sum) {
                call_ensures(ratio, (d[tau], tau as usize, sum), v)
            } else {
                v == (Real32 { bits: ONE })
            }
    }
}

/// The cumulative mean normalized difference function. `ratio` relates a difference
/// at a shift to the sum up to it.
pub fn normalized<P: Fn(Real32, Real32) -> Real32, N: Fn(Real32, usize, Real32) -> Real32>(
    d: &Vec<Real32>,
    plus: P,
    ratio: N,
) -> (r: Vec<Real32>)
    requires
        d.len() > 0,
        forall|a: Real32, b: Real32| call_requires(plus, (a, b)),
        forall|a: Real32, t: usize, b: Real32| call_requires(ratio, (a, t, b)),
    ensures
        r.len() == d.len(),
        forall|tau: int| 0 <= tau < d.len() ==> normalized_at(plus, ratio, d@, tau, #[trigger] r[tau]),
{
    let zero: Real32 = Real32::from_bits(0);
    let mut r: Vec<Real32> = Vec::new();
    r.push(Real32::from_bits(ONE));
    let mut sum: Real32 = zero;
    let mut tau: usize = 1;
    while tau < d.len()
        invariant
            1 <= tau <= d.len(),
            zero == (Real32 { bits: 0 }),
            r.len() == tau,
            summed_to(plus, d@, (tau - 1) as nat, sum),
            forall|a: Real32, b: Real32| call_requires(plus, (a, b)),
            forall|a: Real32, t: usize, b: Real32| call_requires(ratio, (a, t, b)),
            forall|t: int| 0 <= t < tau ==> normalized_at(plus, ratio, d@, t, #[trigger] r[t]),
        decreases d.len() - tau,
    {
        let ghost m = sum;
        sum = plus(sum, d[tau]);
        proof {
            assert(call_ensures(plus, (m, d@[tau as int]), sum));
            assert(summed_to(plus, d@, tau as nat, sum));
        }
        let v: Real32 = if zero.less(&sum) {
            ratio(d[tau], tau, sum)
        } else {
            Real32::from_bits(ONE)
        };
        proof {
            let t = tau as int;
            assert(t as usize == tau);
            assert(summed_to(plus, d@, t as nat, sum));
            assert(normalized_at(plus, ratio, d@, t, v));
        }
        r.push(v);
        tau = tau + 1;
    }
    r
}

/// The candidates stand at the dips: each at the frequency that `place` gives for
/// its three values, with the depth of its dip.
pub open spec fn placed<V: Fn(Real32, Real32, Real32, usize) -> Real32>(
    place: V,
    cmndf: Seq<Real32>,
    at: Seq<usize>,
    cands: Seq<Candidate>,
) -> bool {
    &&& cands.len() == at.len()
    &&& forall|i: int|
        0 <= i < at.len() ==> {
            let tau = at[i] as int;
            &&& (#[trigger] cands[i]).cmndf == cmndf[tau]
            &&& call_ensures(place, (cmndf[tau - 1], cmndf[tau], cmndf[tau + 1], at[i]), cands[i].freq)
        }
}

/// The frequencies of some candidates.
pub open spec fn freqs_of(cands: Seq<Candidate>) -> Seq<Real32> {
    cands.map_values(|c: Candidate| c.freq)
}

/// The candidates that are kept, deepest dip first.
pub open spec fn chosen(cands: Seq<Candidate>, range: (Real32, Real32), table: Seq<Vec<Real32>>) -> Seq<Candidate> {
    kept(cands, range, table, sorted_positions(order_keys(depths(cands))), cands.len() as int).map_values(
        |i: usize| cands[i as int],
    )
}

/// Measures the distances between all candidates.
fn tabulate<C: Fn(Real32, Real32) -> Real32>(between: &C, cands: &Vec<Candidate>) -> (t: Vec<Vec<Real32>>)
    requires
        forall|a: Real32, b: Real32| call_requires(*between, (a, b)),
    ensures
        is_table(*between, freqs_of(cands@), freqs_of(cands@), t@),
{
    let mut freqs: Vec<Real32> = Vec::new();
    let mut i: usize = 0;
    while i < cands.len()
        invariant
            i <= cands.len(),
            freqs@ == freqs_of(cands@).take(i as int),
        decreases cands.len() - i,
    {
        freqs.push(cands[i].freq);
        i = i + 1;
        assert(freqs@ =~= freqs_of(cands@).take(i as int));
    }
    assert(freqs@ =~= freqs_of(cands@));
    table(between, &freqs, &freqs)
}

/// The candidates at the dips of a normalized difference function between the
/// shifts `lo` and `hi`: the strongest few in range, without near-duplicates.
/// `place` gives the frequency of a dip from its value and those beside it;
/// `between` measures distances in cents.
pub fn candidates<V: Fn(Real32, Real32, Real32, usize) -> Real32, C: Fn(Real32, Real32) -> Real32>(
    cmndf: &Vec<Real32>,
    lo: usize,
    hi: usize,
    range: (Real32, Real32),
    place: V,
    between: C,
) -> (r: Vec<Candidate>)
    requires
        1 <= lo <= hi < cmndf.len(),
        forall|a: Real32, b: Real32, c: Real32, t: usize| call_requires(place, (a, b, c, t)),
        forall|a: Real32, b: Real32| call_requires(between, (a, b)),
    ensures
        exists|all: Seq<Candidate>, distances: Seq<Vec<Real32>>| #[trigger]
            placed(place, cmndf@, dips_in(cmndf@, lo as int, hi as int), all) && #[trigger] is_table(between, freqs_of(all), freqs_of(all), distances)
                && r@ == chosen(all, range, distances),
{
    let at: Vec<usize> = dips(cmndf, lo, hi);
    proof {
        dips_are_inside(cmndf@, lo as int, hi as int);
    }
    let mut all: Vec<Candidate> = Vec::new();
    let mut i: usize = 0;
    while i < at.len()
        invariant
            i <= at.len(),
            1 <= lo <= hi < cmndf.len(),
            forall|k: int| 0 <= k < at.len() ==> lo <= (#[trigger] at[k]) < hi,
            forall|a: Real32, b: Real32, c: Real32, t: usize| call_requires(place, (a, b, c, t)),
            placed(place, cmndf@, at@.take(i as int), all@),
        decreases at.len() - i,
    {
        let tau: usize = at[i];
        let freq: Real32 = place(cmndf[tau - 1], cmndf[tau], cmndf[tau + 1], tau);
        let ghost had = all@;
        all.push(Candidate { freq, cmndf: cmndf[tau] });
        proof {
            let part = at@.take(i + 1);
            assert forall|k: int| 0 <= k < part.len() implies ({
                let t = part[k] as int;
                &&& (#[trigger] all[k]).cmndf == cmndf@[t]
                &&& call_ensures(place, (cmndf@[t - 1], cmndf@[t], cmndf@[t + 1], part[k]), all[k].freq)
            }) by {
                if k < i {
                    assert(all[k] == had[k]);
                    assert(at@.take(i as int)[k] == part[k]);
                }
            }
        }
        i = i + 1;
    }
    assert(at@.take(i as int) =~= at@);
    let distances: Vec<Vec<Real32>> = tabulate(&between, &all);
    let best: Vec<usize> = keep_candidates(&all, range, &distances);
    let ghost order = sorted_positions(order_keys(depths(all@)));
    proof {
        crate::order::keys_can_be_ordered(order_keys(depths(all@)));
        crate::pitch::kept_are_positions(all@, range, distances@, order, all.len() as int);
    }
    let mut r: Vec<Candidate> = Vec::new();
    let mut k: usize = 0;
    while k < best.len()
        invariant
            k <= best.len(),
            best@ == kept(all@, range, distances@, order, all.len() as int),
            order == sorted_positions(order_keys(depths(all@))),
            forall|q: int| 0 <= q < best.len() ==> (#[trigger] best[q]) < all.len(),
            r@ == chosen(all@, range, distances@).take(k as int),
        decreases best.len() - k,
    {
        r.push(all[best[k]]);
        k = k + 1;
        assert(r@ =~= chosen(all@, range, distances@).take(k as int));
    }
    assert(r@ =~= chosen(all@, range, distances@));
    r
}

proof fn dips_are_inside(cmndf: Seq<Real32>, lo: int, hi: int)
    requires
        0 <= lo,
        hi <= usize::MAX,
    ensures
        forall|k: int| 0 <= k < dips_in(cmndf, lo, hi).len() ==> lo <= (#[trigger] dips_in(cmndf, lo, hi)[k]) < hi,
    decreases hi - lo,
{
    if hi > lo {
        dips_are_inside(cmndf, lo, hi - 1);
        let before = dips_in(cmndf, lo, hi - 1);
        let now = dips_in(cmndf, lo, hi);
        assert forall|k: int| 0 <= k < now.len() implies lo <= (#[trigger] now[k]) < hi by {
            if k < before.len() {
                assert(now[k] == before[k]);
            }
        }
    }
}

} // verus!
