//! The semitone bands of the constant-Q transform.

use vstd::prelude::*;

use crate::ieee::Real32;

verus! {

/// Analysis window.
pub const CQT_LEN: usize = 16384;

/// Semitone bands C2 to C7 inclusive.
pub const MIDI_LO: i32 = 36;

pub const MIDI_HI: i32 = 96;

pub const N_BANDS: usize = 61;

/// Bins of the spectrum.
pub const BINS: usize = 8192;

/// A change of the reference pitch beyond this has the kernels rebuilt: 0.01
/// hertz, as an IEEE 754 pattern.
pub const RETUNE: u32 = 0x3c23_d70a;

/// The note of a band.
pub fn band_midi(band: usize) -> (midi: i32)
    requires
        band < N_BANDS,
    ensures
        midi == MIDI_LO + band,
        MIDI_LO <= midi <= MIDI_HI,
{
    MIDI_LO + band as i32
}

/// The band of a note.
pub fn band_of(midi: i32) -> (band: usize)
    requires
        MIDI_LO <= midi <= MIDI_HI,
    ensures
        midi == MIDI_LO + band,
        band < N_BANDS,
{
    (midi - MIDI_LO) as usize
}

/// Whether the kernels are rebuilt for a reference pitch that differs by `change`
/// from the one they were made for.
pub fn retunes(change: &Real32) -> (r: bool)
    ensures
        r == (Real32 { bits: RETUNE }).below(change.unsigned()),
{
    Real32::from_bits(RETUNE).less(&change.abs())
}

/// The bins under a kernel that reaches from `from` to `to`: the first bin and what
/// lies beyond the spectrum are left out.
pub open spec fn bins_under(from: int, to: int) -> Seq<usize> {
    let lo: int = if from > 1 {
        from
    } else {
        1
    };
    let hi: int = if to < BINS - 1 {
        to
    } else {
        BINS - 1
    };
    Seq::new(
        if lo <= hi {
            (hi - lo + 1) as nat
        } else {
            0
        },
        |i: int| (lo + i) as usize,
    )
}

/// The bins under a kernel.
pub fn kernel_bins(from: usize, to: usize) -> (bins: Vec<usize>)
    ensures
        bins@ == bins_under(from as int, to as int),
        forall|i: int| 0 <= i < bins.len() ==> 1 <= (#[trigger] bins[i]) < BINS,
{
    let lo: usize = if from > 1 { from } else { 1 };
    let hi: usize = if to < BINS - 1 { to } else { BINS - 1 };
    let mut bins: Vec<usize> = Vec::new();
    if lo > hi {
        assert(bins@ =~= bins_under(from as int, to as int));
        return bins;
    }
    let mut b: usize = lo;
    while b <= hi
        invariant
            1 <= lo <= b <= hi + 1,
            hi < BINS,
            bins.len() == b - lo,
            forall|i: int| 0 <= i < bins.len() ==> (#[trigger] bins[i]) == lo + i,
        decreases hi + 1 - b,
    {
        bins.push(b);
        b = b + 1;
    }
    assert(bins@ =~= bins_under(from as int, to as int));
    bins
}

/// `r` is the sum of the first `n` values, added one after another to zero.
pub open spec fn summed<P: Fn(Real32, Real32) -> Real32>(plus: P, values: Seq<Real32>, n: nat, r: Real32) -> bool
    decreases n,
{
    if n == 0 {
        r == (Real32 { bits: 0 })
    } else {
        exists|m: Real32|
            summed(plus, values, (n - 1) as nat, m) && #[trigger] call_ensures(plus, (m, values[n - 1]), r)
    }
}

/// The sum of some values.
fn sum_of<P: Fn(Real32, Real32) -> Real32>(plus: &P, values: &Vec<Real32>) -> (r: Real32)
    requires
        forall|a: Real32, b: Real32| call_requires(*plus, (a, b)),
    ensures
        summed(*plus, values@, values.len() as nat, r),
{
    let mut r: Real32 = Real32::from_bits(0);
    let mut i: usize = 0;
    while i < values.len()
        invariant
            i <= values.len(),
            forall|a: Real32, b: Real32| call_requires(*plus, (a, b)),
            summed(*plus, values@, i as nat, r),
        decreases values.len() - i,
    {
        let ghost m = r;
        r = plus(r, values[i]);
        proof {
            let next = (i + 1) as nat;
            assert(summed(*plus, values@, (next - 1) as nat, m));
            assert(call_ensures(*plus, (m, values@[next - 1]), r));
        }
        i = i + 1;
    }
    r
}

/// `raw` holds the weights of some bins for a note.
pub open spec fn weighed<W: Fn(i32, Real32, usize) -> Real32>(
    weight: W,
    midi: i32,
    a4: Real32,
    bins: Seq<usize>,
    raw: Seq<Real32>,
) -> bool {
    &&& raw.len() == bins.len()
    &&& forall|i: int| 0 <= i < bins.len() ==> call_ensures(weight, (midi, a4, bins[i]), #[trigger] raw[i])
}

/// `kernel` pairs some bins with their weights over the sum of all, where that is
/// positive, else with the weights themselves.
pub open spec fn normalized<D: Fn(Real32, Real32) -> Real32>(
    ratio: D,
    bins: Seq<usize>,
    raw: Seq<Real32>,
    sum: Real32,
    kernel: Seq<(usize, Real32)>,
) -> bool {
    &&& kernel.len() == bins.len()
    &&& forall|i: int|
        0 <= i < bins.len() ==> {
            &&& (#[trigger] kernel[i]).0 == bins[i]
            &&& if (Real32 { bits: 0 }).below(sum) {
                call_ensures(ratio, (raw[i], sum), kernel[i].1)
            } else {
                kernel[i].1 == raw[i]
            }
        }
}

/// `kernel` is the kernel of a note.
pub open spec fn is_kernel<
    R: Fn(i32, Real32) -> (usize, usize),
    W: Fn(i32, Real32, usize) -> Real32,
    P: Fn(Real32, Real32) -> Real32,
    D: Fn(Real32, Real32) -> Real32,
>(reach: R, weight: W, plus: P, ratio: D, midi: i32, a4: Real32, kernel: Seq<(usize, Real32)>) -> bool {
    exists|span: (usize, usize), raw: Seq<Real32>, sum: Real32|
        #![trigger call_ensures(reach, (midi, a4), span), weighed(weight, midi, a4, bins_under(span.0 as int, span.1 as int), raw), summed(plus, raw, raw.len(), sum)]
        {
            &&& call_ensures(reach, (midi, a4), span)
            &&& weighed(weight, midi, a4, bins_under(span.0 as int, span.1 as int), raw)
            &&& summed(plus, raw, raw.len(), sum)
            &&& normalized(ratio, bins_under(span.0 as int, span.1 as int), raw, sum, kernel)
        }
}

/// `kernels` are the kernels of all bands.
pub open spec fn are_kernels<
    R: Fn(i32, Real32) -> (usize, usize),
    W: Fn(i32, Real32, usize) -> Real32,
    P: Fn(Real32, Real32) -> Real32,
    D: Fn(Real32, Real32) -> Real32,
>(reach: R, weight: W, plus: P, ratio: D, a4: Real32, kernels: Seq<Vec<(usize, Real32)>>) -> bool {
    &&& kernels.len() == N_BANDS
    &&& forall|b: int|
        0 <= b < N_BANDS ==> is_kernel(reach, weight, plus, ratio, (MIDI_LO + b) as i32, a4, (#[trigger] kernels[b])@)
}

/// Every kernel lies within the spectrum.
pub open spec fn within_spectrum(kernels: Seq<Vec<(usize, Real32)>>) -> bool {
    forall|b: int, i: int|
        0 <= b < kernels.len() && 0 <= i < kernels[b].len() ==> (#[trigger] kernels[b][i]).0 < BINS
}

/// The kernel of a note.
fn build_kernel<
    R: Fn(i32, Real32) -> (usize, usize),
    W: Fn(i32, Real32, usize) -> Real32,
    P: Fn(Real32, Real32) -> Real32,
    D: Fn(Real32, Real32) -> Real32,
>(reach: &R, weight: &W, plus: &P, ratio: &D, midi: i32, a4: Real32) -> (kernel: Vec<(usize, Real32)>)
    requires
        forall|m: i32, a: Real32| call_requires(*reach, (m, a)),
        forall|m: i32, a: Real32, b: usize| call_requires(*weight, (m, a, b)),
        forall|a: Real32, b: Real32| call_requires(*plus, (a, b)),
        forall|a: Real32, b: Real32| call_requires(*ratio, (a, b)),
    ensures
        is_kernel(*reach, *weight, *plus, *ratio, midi, a4, kernel@),
        forall|i: int| 0 <= i < kernel.len() ==> (#[trigger] kernel[i]).0 < BINS,
{
    let span: (usize, usize) = reach(midi, a4);
    let bins: Vec<usize> = kernel_bins(span.0, span.1);
    let mut raw: Vec<Real32> = Vec::new();
    let mut i: usize = 0;
    while i < bins.len()
        invariant
            i <= bins.len(),
            raw.len() == i,
            forall|m: i32, a: Real32, b: usize| call_requires(*weight, (m, a, b)),
            forall|k: int| 0 <= k < i ==> call_ensures(*weight, (midi, a4, bins[k]), #[trigger] raw[k]),
        decreases bins.len() - i,
    {
        let w: Real32 = weight(midi, a4, bins[i]);
        raw.push(w);
        i = i + 1;
    }
    assert(weighed(*weight, midi, a4, bins_under(span.0 as int, span.1 as int), raw@));
    let sum: Real32 = sum_of(plus, &raw);
    let positive: bool = Real32::from_bits(0).less(&sum);
    let mut kernel: Vec<(usize, Real32)> = Vec::new();
    let mut k: usize = 0;
    while k < bins.len()
        invariant
            k <= bins.len() == raw.len(),
            positive == (Real32 { bits: 0 }).below(sum),
            forall|a: Real32, b: Real32| call_requires(*ratio, (a, b)),
            forall|q: int| 0 <= q < bins.len() ==> 1 <= (#[trigger] bins[q]) < BINS,
            forall|q: int| 0 <= q < k ==> (#[trigger] kernel[q]).0 < BINS,
            normalized(*ratio, bins@.take(k as int), raw@, sum, kernel@),
        decreases bins.len() - k,
    {
        let w: Real32 = if positive {
            ratio(raw[k], sum)
        } else {
            raw[k]
        };
        let ghost had = kernel@;
        kernel.push((bins[k], w));
        proof {
            let part = bins@.take(k + 1);
            assert forall|q: int| 0 <= q < part.len() implies ({
                &&& (#[trigger] kernel[q]).0 == part[q]
                &&& if (Real32 { bits: 0 }).below(sum) {
                    call_ensures(*ratio, (raw@[q], sum), kernel[q].1)
                } else {
                    kernel[q].1 == raw@[q]
                }
            }) by {
                if q < k {
                    assert(kernel[q] == had[q]);
                    assert(bins@.take(k as int)[q] == part[q]);
                }
            }
        }
        k = k + 1;
    }
    assert(bins@.take(k as int) =~= bins@);
    assert(is_kernel(*reach, *weight, *plus, *ratio, midi, a4, kernel@));
    kernel
}

/// The kernels of all bands, for the reference pitch `a4`. `reach` gives the first and
/// the last bin of the kernel of a note, `weight` the weight of a bin in it.
pub fn build_kernels<
    R: Fn(i32, Real32) -> (usize, usize),
    W: Fn(i32, Real32, usize) -> Real32,
    P: Fn(Real32, Real32) -> Real32,
    D: Fn(Real32, Real32) -> Real32,
>(a4: Real32, reach: R, weight: W, plus: P, ratio: D) -> (kernels: Vec<Vec<(usize, Real32)>>)
    requires
        forall|m: i32, a: Real32| call_requires(reach, (m, a)),
        forall|m: i32, a: Real32, b: usize| call_requires(weight, (m, a, b)),
        forall|a: Real32, b: Real32| call_requires(plus, (a, b)),
        forall|a: Real32, b: Real32| call_requires(ratio, (a, b)),
    ensures
        are_kernels(reach, weight, plus, ratio, a4, kernels@),
        within_spectrum(kernels@),
{
    let mut kernels: Vec<Vec<(usize, Real32)>> = Vec::new();
    let mut b: usize = 0;
    while b < N_BANDS
        invariant
            b <= N_BANDS,
            kernels.len() == b,
            forall|m: i32, a: Real32| call_requires(reach, (m, a)),
            forall|m: i32, a: Real32, k: usize| call_requires(weight, (m, a, k)),
            forall|a: Real32, c: Real32| call_requires(plus, (a, c)),
            forall|a: Real32, c: Real32| call_requires(ratio, (a, c)),
            forall|k: int|
                0 <= k < b ==> is_kernel(reach, weight, plus, ratio, (MIDI_LO + k) as i32, a4, (#[trigger] kernels[k])@),
            within_spectrum(kernels@),
        decreases N_BANDS - b,
    {
        let kernel: Vec<(usize, Real32)> = build_kernel(&reach, &weight, &plus, &ratio, band_midi(b), a4);
        let ghost had = kernels@;
        kernels.push(kernel);
        proof {
            assert forall|k: int, i: int|
                0 <= k < kernels.len() && 0 <= i < kernels[k].len() implies (#[trigger] kernels[k][i]).0 < BINS by {
                if k < b {
                    assert(kernels[k] == had[k]);
                    assert(had[k][i].0 < BINS);
                } else {
                    assert(kernels[k] == kernel);
                }
            }
        }
        b = b + 1;
    }
    kernels
}

/// Per-semitone band energies, and the kernels that they are computed with.
pub struct Cqt {
    /// Per band: sparse pairs of a bin and its weight.
    pub kernels: Vec<Vec<(usize, Real32)>>,
    /// Band energies, `MIDI_LO` first.
    pub bands: Vec<Real32>,
    /// The reference pitch that the kernels were made for.
    pub a4: Real32,
}

/// `r` comes from zero by taking in the first `n` bins of a kernel, each with its
/// weight and its magnitude.
pub open spec fn collected<E: Fn(Real32, Real32, Real32) -> Real32>(
    gather: E,
    kernel: Seq<(usize, Real32)>,
    mags: Seq<Real32>,
    n: nat,
    r: Real32,
) -> bool
    decreases n,
{
    if n == 0 {
        r == (Real32 { bits: 0 })
    } else {
        exists|m: Real32|
            collected(gather, kernel, mags, (n - 1) as nat, m) && #[trigger] call_ensures(
                gather,
                (m, kernel[n - 1].1, mags[kernel[n - 1].0 as int]),
                r,
            )
    }
}

/// `v` is the level of the energy under a kernel.
pub open spec fn band_level<E: Fn(Real32, Real32, Real32) -> Real32, L: Fn(Real32) -> Real32>(
    gather: E,
    level: L,
    kernel: Seq<(usize, Real32)>,
    mags: Seq<Real32>,
    v: Real32,
) -> bool {
    exists|energy: Real32|
        collected(gather, kernel, mags, kernel.len(), energy) && #[trigger] call_ensures(level, (energy,), v)
}

impl Cqt {
    /// There is a kernel and a level for every band, and the kernels lie within the
    /// spectrum.
    pub open spec fn well_formed(&self) -> bool {
        &&& self.kernels.len() == N_BANDS
        &&& self.bands.len() == N_BANDS
        &&& within_spectrum(self.kernels@)
    }

    /// Silent bands over the kernels for the reference pitch `a4`.
    pub fn new<
        R: Fn(i32, Real32) -> (usize, usize),
        W: Fn(i32, Real32, usize) -> Real32,
        P: Fn(Real32, Real32) -> Real32,
        D: Fn(Real32, Real32) -> Real32,
    >(a4: Real32, reach: R, weight: W, plus: P, ratio: D) -> (r: Cqt)
        requires
            forall|m: i32, a: Real32| call_requires(reach, (m, a)),
            forall|m: i32, a: Real32, b: usize| call_requires(weight, (m, a, b)),
            forall|a: Real32, b: Real32| call_requires(plus, (a, b)),
            forall|a: Real32, b: Real32| call_requires(ratio, (a, b)),
        ensures
            r.well_formed(),
            r.a4 == a4,
            r.bands@ == Seq::new(N_BANDS as nat, |i: int| Real32 { bits: 0 }),
            are_kernels(reach, weight, plus, ratio, a4, r.kernels@),
    {
        let mut bands: Vec<Real32> = Vec::new();
        let mut i: usize = 0;
        while i < N_BANDS
            invariant
                i <= N_BANDS,
                bands@ == Seq::new(i as nat, |k: int| Real32 { bits: 0 }),
            decreases N_BANDS - i,
        {
            bands.push(Real32::from_bits(0));
            i = i + 1;
            assert(bands@ =~= Seq::new(i as nat, |k: int| Real32 { bits: 0 }));
        }
        Cqt { kernels: build_kernels(a4, reach, weight, plus, ratio), bands, a4 }
    }

    /// Rebuilds the kernels if the reference pitch changed; `minus` gives the change.
    pub fn set_a4<
        M: Fn(Real32, Real32) -> Real32,
        R: Fn(i32, Real32) -> (usize, usize),
        W: Fn(i32, Real32, usize) -> Real32,
        P: Fn(Real32, Real32) -> Real32,
        D: Fn(Real32, Real32) -> Real32,
    >(&mut self, a4: Real32, minus: M, reach: R, weight: W, plus: P, ratio: D)
        requires
            old(self).well_formed(),
            forall|a: Real32, b: Real32| call_requires(minus, (a, b)),
            forall|m: i32, a: Real32| call_requires(reach, (m, a)),
            forall|m: i32, a: Real32, b: usize| call_requires(weight, (m, a, b)),
            forall|a: Real32, b: Real32| call_requires(plus, (a, b)),
            forall|a: Real32, b: Real32| call_requires(ratio, (a, b)),
        ensures
            final(self).well_formed(),
            final(self).bands == old(self).bands,
            exists|change: Real32| #[trigger]
                call_ensures(minus, (old(self).a4, a4), change) && if (Real32 { bits: RETUNE }).below(change.unsigned()) {
                    final(self).a4 == a4 && are_kernels(reach, weight, plus, ratio, a4, final(self).kernels@)
                } else {
                    *final(self) == *old(self)
                },
    {
        let change: Real32 = minus(self.a4, a4);
        assert(call_ensures(minus, (old(self).a4, a4), change));
        if retunes(&change) {
            self.a4 = a4;
            self.kernels = build_kernels(a4, reach, weight, plus, ratio);
        }
    }

    /// Takes in the magnitudes of a spectrum: `gather` adds a bin of a weight and a
    /// magnitude to an energy, and `level` gives the level of an energy.
    pub fn process<E: Fn(Real32, Real32, Real32) -> Real32, L: Fn(Real32) -> Real32>(
        &mut self,
        mags: &Vec<Real32>,
        gather: E,
        level: L,
    )
        requires
            old(self).well_formed(),
            mags.len() >= BINS,
            forall|a: Real32, w: Real32, m: Real32| call_requires(gather, (a, w, m)),
            forall|e: Real32| call_requires(level, (e,)),
        ensures
            final(self).well_formed(),
            final(self).kernels == old(self).kernels,
            final(self).a4 == old(self).a4,
            forall|b: int|
                0 <= b < N_BANDS ==> band_level(
                    gather,
                    level,
                    old(self).kernels[b]@,
                    mags@,
                    #[trigger] final(self).bands[b],
                ),
    {
        let mut bands: Vec<Real32> = Vec::new();
        let mut b: usize = 0;
        while b < N_BANDS
            invariant
                b <= N_BANDS,
                bands.len() == b,
                *self == *old(self),
                self.well_formed(),
                mags.len() >= BINS,
                forall|a: Real32, w: Real32, m: Real32| call_requires(gather, (a, w, m)),
                forall|e: Real32| call_requires(level, (e,)),
                forall|k: int|
                    0 <= k < b ==> band_level(gather, level, self.kernels[k]@, mags@, #[trigger] bands[k]),
            decreases N_BANDS - b,
        {
            let kernel: &Vec<(usize, Real32)> = &self.kernels[b];
            let mut energy: Real32 = Real32::from_bits(0);
            let mut i: usize = 0;
            while i < kernel.len()
                invariant
                    i <= kernel.len(),
                    b < N_BANDS == self.kernels.len(),
                    *kernel == self.kernels[b as int],
                    within_spectrum(self.kernels@),
                    mags.len() >= BINS,
                    forall|a: Real32, w: Real32, m: Real32| call_requires(gather, (a, w, m)),
                    collected(gather, kernel@, mags@, i as nat, energy),
                decreases kernel.len() - i,
            {
                let (bin, w) = kernel[i];
                assert(self.kernels@[b as int][i as int].0 < BINS);
                let ghost m = energy;
                energy = gather(energy, w, mags[bin]);
                proof {
                    let next = (i + 1) as nat;
                    assert(collected(gather, kernel@, mags@, (next - 1) as nat, m));
                    assert(call_ensures(gather, (m, kernel@[next - 1].1, mags@[kernel@[next - 1].0 as int]), energy));
                }
                i = i + 1;
            }
            let v: Real32 = level(energy);
            assert(band_level(gather, level, self.kernels@[b as int]@, mags@, v));
            bands.push(v);
            b = b + 1;
        }
        self.bands = bands;
    }
}

/// The notes from `MIDI_LO` to below `end` that start an octave.
pub open spec fn octave_starts(end: int) -> Seq<i32>
    decreases end - MIDI_LO,
{
    if end <= MIDI_LO {
        Seq::empty()
    } else if (end - 1) % 12 == 0 {
        octave_starts(end - 1).push((end - 1) as i32)
    } else {
        octave_starts(end - 1)
    }
}

/// The notes at which the spectrogram is labelled: every C.
pub fn octave_marks() -> (marks: Vec<i32>)
    ensures
        marks@ == octave_starts(MIDI_HI + 1),
{
    let mut marks: Vec<i32> = Vec::new();
    let mut midi: i32 = MIDI_LO;
    while midi <= MIDI_HI
        invariant
            MIDI_LO <= midi <= MIDI_HI + 1,
            marks@ == octave_starts(midi as int),
        decreases MIDI_HI + 1 - midi,
    {
        if midi % 12 == 0 {
            marks.push(midi);
        }
        midi = midi + 1;
    }
    marks
}

/// Bands and notes correspond one to one, an octave is twelve bands.
pub proof fn octaves_are_twelve_bands_apart(low: int, high: int)
    requires
        0 <= low < N_BANDS,
        0 <= high < N_BANDS,
    ensures
        (MIDI_LO + high) - (MIDI_LO + low) == 12 <==> high - low == 12,
        MIDI_LO + low == MIDI_LO + high <==> low == high,
        MIDI_HI - MIDI_LO + 1 == N_BANDS,
{
}

} // verus!
