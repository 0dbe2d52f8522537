//! Notes, strings, and semitone bands.

use vstd::prelude::*;

use crate::dsp::cqt::{band_midi, octave_marks, Cqt};
use crate::dsp::cqt::{
    are_kernels, band_level, bins_under, collected, is_kernel, normalized, octave_starts, summed, weighed,
};
use crate::ieee::Real32;
use crate::text::numeral;
use crate::tuning::{nearest_note, nearest_string, note_name, targets};
use crate::tuning::{class_name, is_match, is_note_of, is_string_of, note, octave, pitched, target_notes, Match, Tuning};

verus! {

/// The twelve names, one letter each and a sharp for the black keys.
pub open spec fn names() -> Seq<Seq<char>> {
    seq![
        seq!['C'],
        seq!['C', '#'],
        seq!['D'],
        seq!['D', '#'],
        seq!['E'],
        seq!['F'],
        seq!['F', '#'],
        seq!['G'],
        seq!['G', '#'],
        seq!['A'],
        seq!['A', '#'],
        seq!['B'],
    ]
}

/// A note is named by its place in the octave and the number of the octave, in which note
/// 60 is C of the fourth; the octave is counted towards zero. Twelve notes higher a note
/// from 0 on has the same letter and the next number.
pub proof fn notes_are_named_by_octave(midi: int)
    ensures
        note(midi) == names()[midi % 12] + numeral(octave(midi)),
        midi >= 0 ==> octave(midi) == midi / 12 - 1,
        midi < 0 ==> octave(midi) == -((-midi) / 12) - 1,
        midi >= 0 ==> octave(midi + 12) == octave(midi) + 1,
        class_name(midi % 12) == names()[midi % 12],
        forall|i: int, j: int| 0 <= i < j < 12 ==> class_name(i) != class_name(j),
{
    reveal_strlit("C");
    reveal_strlit("C#");
    reveal_strlit("D");
    reveal_strlit("D#");
    reveal_strlit("E");
    reveal_strlit("F");
    reveal_strlit("F#");
    reveal_strlit("G");
    reveal_strlit("G#");
    reveal_strlit("A");
    reveal_strlit("A#");
    reveal_strlit("B");
    assert forall|c: int| 0 <= c < 12 implies #[trigger] class_name(c) == names()[c] by {
        assert(class_name(c) =~= names()[c]);
    }
    assert(class_name(midi % 12) == names()[midi % 12]);
    assert forall|i: int, j: int| 0 <= i < j < 12 implies class_name(i) != class_name(j) by {
        assert(class_name(i) == names()[i] && class_name(j) == names()[j]);
        if names()[i] == names()[j] {
            assert(names()[i][0] == names()[j][0]);
            assert(names()[i].len() == names()[j].len());
        }
    }
}

/// Both tunings have the strings E A D G B E but for two that the second lowers: the 6th
/// by two semitones and the 3rd by one. The cejilla raises every string by its fret.
pub proof fn cejilla_raises_every_string(tuning: Tuning, capo: int, i: int)
    requires
        0 <= capo <= 9,
        0 <= i < 6,
    ensures
        tuning.open().len() == 6,
        target_notes(tuning, capo).len() == 6,
        target_notes(tuning, capo)[i] == tuning.open()[i] + capo,
        Tuning::Standard.open()[i] == 40 + 5 * i - (if i < 4 {
            0int
        } else {
            1int
        }),
        Tuning::Rondena.open()[i] == Tuning::Standard.open()[i] - (if i == 0 {
            2int
        } else if i == 3 {
            1int
        } else {
            0int
        }),
        tuning.other() != tuning,
{
}

/// The string that is read is one of the six, numbered from the highest, and the target
/// of no other is nearer in cents, sharp or flat; of equally near ones it is the lowest.
/// Its target is its open note raised by the cejilla. A first deviation that is no number
/// stands.
pub proof fn nearest_string_is_read<F: Fn(i32) -> Real32, C: Fn(Real32, Real32) -> Real32>(
    freq: Real32,
    tuning: Tuning,
    capo: int,
    pitch: F,
    between: C,
    m: Match,
    i: int,
) -> (r: (Seq<Real32>, Seq<Real32>))
    requires
        0 <= capo <= 9,
        is_string_of(freq, tuning, capo, pitch, between, m),
        0 <= i < 6,
    ensures
        1 <= m.string_no <= 6,
        m.target_midi == tuning.open()[6 - m.string_no] + capo,
        ({
            let (freqs, cents) = r;
            let k = 6 - m.string_no;
            &&& call_ensures(pitch, ((tuning.open()[i] + capo) as i32,), freqs[i])
            &&& call_ensures(between, (freq, freqs[i]), cents[i])
            &&& m.target_freq == freqs[k]
            &&& m.cents == cents[k]
            &&& cents[0].nan() ==> m.string_no == 6
            &&& !cents[0].nan() ==> !cents[k].nan()
            &&& !cents[0].nan() && !cents[i].nan() ==> cents[k].unsigned().bits <= cents[i].unsigned().bits
            &&& !cents[0].nan() && !cents[i].nan() && i < k ==> cents[k].unsigned().bits < cents[i].unsigned().bits
        }),
{
    let (freqs, cents) = choose|freqs: Seq<Real32>, cents: Seq<Real32>| #[trigger]
        pitched(pitch, target_notes(tuning, capo), freqs) && #[trigger] crate::table::is_row(between, freq, freqs, cents)
            && is_match(tuning, capo, freqs, cents, m);
    assert(call_ensures(pitch, (target_notes(tuning, capo)[i],), freqs[i]));
    assert(call_ensures(between, (freq, freqs[i]), cents[i]));
    (freqs, cents)
}

/// The kernel of a band has every bin that the reach spans and the spectrum has, but for
/// the first of the spectrum, in order; each has its weight, over the sum of all where
/// that is above zero.
pub proof fn kernel_spans_its_reach<
    R: Fn(i32, Real32) -> (usize, usize),
    W: Fn(i32, Real32, usize) -> Real32,
    P: Fn(Real32, Real32) -> Real32,
    D: Fn(Real32, Real32) -> Real32,
>(
    reach: R,
    weight: W,
    plus: P,
    ratio: D,
    a4: Real32,
    kernels: Seq<Vec<(usize, Real32)>>,
    b: int,
    i: int,
) -> (r: ((usize, usize), Seq<Real32>, Real32))
    requires
        are_kernels(reach, weight, plus, ratio, a4, kernels),
        0 <= b < 61,
        0 <= i < kernels[b].len(),
    ensures
        kernels.len() == 61,
        ({
            let (span, raw, sum) = r;
            let kernel = kernels[b];
            let lo: int = if span.0 > 1 {
                span.0 as int
            } else {
                1
            };
            let hi: int = if span.1 < 8191 {
                span.1 as int
            } else {
                8191
            };
            &&& call_ensures(reach, ((36 + b) as i32, a4), span)
            &&& lo <= hi ==> kernel.len() == hi - lo + 1
            &&& lo > hi ==> kernel.len() == 0
            &&& kernel[i].0 == lo + i
            &&& raw.len() == kernel.len()
            &&& call_ensures(weight, ((36 + b) as i32, a4, kernel[i].0), raw[i])
            &&& summed(plus, raw, raw.len(), sum)
            &&& (Real32 { bits: 0 }).below(sum) ==> call_ensures(ratio, (raw[i], sum), kernel[i].1)
            &&& !(Real32 { bits: 0 }).below(sum) ==> kernel[i].1 == raw[i]
        }),
{
    let kernel = kernels[b]@;
    let midi = (36 + b) as i32;
    assert(is_kernel(reach, weight, plus, ratio, midi, a4, kernel));
    let (span, raw, sum) = choose|span: (usize, usize), raw: Seq<Real32>, sum: Real32|
        #![trigger call_ensures(reach, (midi, a4), span), weighed(weight, midi, a4, bins_under(span.0 as int, span.1 as int), raw), summed(plus, raw, raw.len(), sum)]
        {
            &&& call_ensures(reach, (midi, a4), span)
            &&& weighed(weight, midi, a4, bins_under(span.0 as int, span.1 as int), raw)
            &&& summed(plus, raw, raw.len(), sum)
            &&& normalized(ratio, bins_under(span.0 as int, span.1 as int), raw, sum, kernel)
        };
    let bins = bins_under(span.0 as int, span.1 as int);
    assert(kernel[i].0 == bins[i]);
    assert(call_ensures(weight, (midi, a4, bins[i]), raw[i]));
    (span, raw, sum)
}

/// Every weight is in the sum: one more is added by one more call, from zero on.
pub proof fn every_weight_is_summed<P: Fn(Real32, Real32) -> Real32>(plus: P, values: Seq<Real32>, n: nat, r: Real32)
    requires
        summed(plus, values, n, r),
    ensures
        n == 0 ==> r.bits == 0,
        n > 0 ==> exists|m: Real32|
            summed(plus, values, (n - 1) as nat, m) && #[trigger] call_ensures(plus, (m, values[n - 1]), r),
{
}

/// The energy of a band takes in every bin of its kernel, with its weight, from zero on;
/// its level is that of this energy.
pub proof fn every_bin_of_a_kernel_counts<E: Fn(Real32, Real32, Real32) -> Real32, L: Fn(Real32) -> Real32>(
    gather: E,
    level: L,
    kernel: Seq<(usize, Real32)>,
    mags: Seq<Real32>,
    n: nat,
    r: Real32,
    v: Real32,
)
    requires
        collected(gather, kernel, mags, n, r),
        band_level(gather, level, kernel, mags, v),
    ensures
        n == 0 ==> r.bits == 0,
        n > 0 ==> exists|m: Real32|
            collected(gather, kernel, mags, (n - 1) as nat, m) && #[trigger] call_ensures(
                gather,
                (m, kernel[n - 1].1, mags[kernel[n - 1].0 as int]),
                r,
            ),
        exists|e: Real32|
            collected(gather, kernel, mags, kernel.len(), e) && #[trigger] call_ensures(level, (e,), v),
{
}

/// A note is marked exactly if an octave starts with it: the C among the notes from 36 on.
pub proof fn every_octave_is_marked(end: int, midi: i32)
    requires
        36 <= end <= 97,
    ensures
        octave_starts(end).contains(midi) <==> 36 <= midi < end && midi % 12 == 0,
    decreases end,
{
    if end > 36 {
        every_octave_is_marked(end - 1, midi);
        let before = octave_starts(end - 1);
        let now = octave_starts(end);
        if before.contains(midi) {
            let i = choose|i: int| 0 <= i < before.len() && before[i] == midi;
            assert(now[i] == midi);
        }
        if now.contains(midi) && !before.contains(midi) {
            let i = choose|i: int| 0 <= i < now.len() && now[i] == midi;
            if i < before.len() {
                assert(before[i] == midi);
            }
        }
        if midi == end - 1 && midi % 12 == 0 {
            assert(now[before.len() as int] == midi);
        }
    }
}

/// A note stands for no string, and its deviation is that of the pitch from the pitch of
/// the nearest note.
pub proof fn nearest_note_is_read<N: Fn(Real32) -> i32, F: Fn(i32) -> Real32, C: Fn(Real32, Real32) -> Real32>(
    freq: Real32,
    round: N,
    pitch: F,
    between: C,
    m: Match,
)
    requires
        is_note_of(freq, round, pitch, between, m),
    ensures
        m.string_no == 0,
        call_ensures(round, (freq,), m.target_midi),
        call_ensures(pitch, (m.target_midi,), m.target_freq),
        call_ensures(between, (freq, m.target_freq), m.cents),
{
}

/// Strings, notes, names and targets are what the laws above say, for a pitch and a capo.
pub proof fn pitches_are_read<N: Fn(Real32) -> i32, F: Fn(i32) -> Real32, C: Fn(Real32, Real32) -> Real32>(
    freq: Real32,
    tuning: Tuning,
    capo: i32,
    round: N,
    pitch: F,
    between: C,
    string: Match,
    nearest: Match,
    midi: i32,
    name: String,
    notes: Vec<i32>,
    open: [i32; 6],
    other: Tuning,
)
    requires
        call_ensures(nearest_string::<F, C>, (freq, tuning, capo, pitch, between), string),
        call_ensures(nearest_note::<N, F, C>, (freq, round, pitch, between), nearest),
        call_ensures(note_name, (midi,), name),
        call_ensures(targets, (tuning, capo), notes),
        call_ensures(Tuning::open_strings, (tuning,), open),
        call_ensures(Tuning::toggle, (tuning,), other),
    ensures
        is_string_of(freq, tuning, capo as int, pitch, between, string),
        is_note_of(freq, round, pitch, between, nearest),
        name@ == note(midi as int),
        notes@ == target_notes(tuning, capo as int),
        open@ == tuning.open(),
        other != tuning,
{
}

/// The bands of a spectrum: one level per kernel; the kernels are those of the reference
/// pitch, built anew exactly if it moved by more than 0.01 hertz, either way.
pub proof fn bands_follow_the_reference<
    M: Fn(Real32, Real32) -> Real32,
    R: Fn(i32, Real32) -> (usize, usize),
    W: Fn(i32, Real32, usize) -> Real32,
    P: Fn(Real32, Real32) -> Real32,
    D: Fn(Real32, Real32) -> Real32,
    E: Fn(Real32, Real32, Real32) -> Real32,
    L: Fn(Real32) -> Real32,
>(
    c: &mut Cqt,
    a4: Real32,
    minus: M,
    reach: R,
    weight: W,
    plus: P,
    ratio: D,
    d: &mut Cqt,
    mags: &Vec<Real32>,
    gather: E,
    level: L,
    b: int,
)
    requires
        call_ensures(
            Cqt::set_a4::<M, R, W, P, D>,
            (c, a4, minus, reach, weight, plus, ratio),
            (),
        ),
        call_ensures(Cqt::process::<E, L>, (d, mags, gather, level), ()),
        0 <= b < 61,
    ensures
        exists|change: Real32| #[trigger]
            call_ensures(minus, (old(c).a4, a4), change) && ((Real32 { bits: 0x3c23_d70a }).below(change.unsigned())
                ==> final(c).a4 == a4 && are_kernels(reach, weight, plus, ratio, a4, final(c).kernels@)) && (!(Real32 {
                bits: 0x3c23_d70a,
            }).below(change.unsigned()) ==> *final(c) == *old(c)),
        band_level(gather, level, old(d).kernels[b]@, mags@, final(d).bands[b]),
        final(d).kernels == old(d).kernels,
{
}

/// A bank of bands starts with the kernels of its reference pitch, and the octaves that are
/// marked are all there are.
pub proof fn bands_start_with_their_kernels<
    R: Fn(i32, Real32) -> (usize, usize),
    W: Fn(i32, Real32, usize) -> Real32,
    P: Fn(Real32, Real32) -> Real32,
    D: Fn(Real32, Real32) -> Real32,
>(a4: Real32, reach: R, weight: W, plus: P, ratio: D, c: Cqt, marks: Vec<i32>, band: usize, midi: i32)
    requires
        call_ensures(Cqt::new::<R, W, P, D>, (a4, reach, weight, plus, ratio), c),
        call_ensures(octave_marks, (), marks),
        call_ensures(band_midi, (band,), midi),
    ensures
        c.a4 == a4,
        are_kernels(reach, weight, plus, ratio, a4, c.kernels@),
        marks@ == octave_starts(97),
        midi == 36 + band,
{
}

} // verus!
