//! Tunings, note names, and which string is meant.

use vstd::prelude::*;

use crate::ieee::Real32;
use crate::table::{is_row, row};
use crate::text::{append_integer, numeral};

verus! {

/// Tunings used in flamenco guitar.
///
/// Standard (E A D G B E) covers the vast majority of flamenco playing:
/// "por medio" and "por arriba" are left-hand positions, not tunings.
/// Rondena is the one true scordatura of the repertoire: 6th down to D,
/// 3rd down to F#.
#[derive(Clone, Copy, Debug, PartialEq, Eq, Structural)]
pub enum Tuning {
    Standard,
    Rondena,
}

/// Strings of a guitar.
pub const STRINGS: usize = 6;

impl Tuning {
    /// Open-string MIDI note numbers, 6th string first.
    pub open spec fn open(self) -> Seq<i32> {
        match self {
            // E2 A2 D3 G3 B3 E4
            Tuning::Standard => seq![40i32, 45, 50, 55, 59, 64],
            // D2 A2 D3 F#3 B3 E4
            Tuning::Rondena => seq![38i32, 45, 50, 54, 59, 64],
        }
    }

    /// The other tuning.
    pub open spec fn other(self) -> Tuning {
        match self {
            Tuning::Standard => Tuning::Rondena,
            Tuning::Rondena => Tuning::Standard,
        }
    }

    /// Open-string MIDI note numbers, 6th string first.
    pub fn open_strings(self) -> (r: [i32; 6])
        ensures
            r@ == self.open(),
    {
        let r: [i32; 6] = match self {
            Tuning::Standard => [40, 45, 50, 55, 59, 64],
            Tuning::Rondena => [38, 45, 50, 54, 59, 64],
        };
        assert(r@ =~= self.open());
        r
    }

    /// The other tuning.
    pub fn toggle(self) -> (r: Self)
        ensures
            r == self.other(),
    {
        match self {
            Tuning::Standard => Tuning::Rondena,
            Tuning::Rondena => Tuning::Standard,
        }
    }
}

/// Toggling twice gives the tuning back.
pub proof fn toggle_undoes_itself(t: Tuning)
    ensures
        t.other().other() == t,
        t.other() != t,
{
}

/// Open strings rise from the 6th to the 1st in either tuning, and the two
/// tunings differ in the 6th and the 3rd string alone.
pub proof fn strings_rise(t: Tuning, i: int, j: int)
    requires
        0 <= i < j < STRINGS,
    ensures
        t.open().len() == STRINGS,
        t.open()[i] < t.open()[j],
        t.open()[i] == t.other().open()[i] <==> (i != 0 && i != 3),
{
}

/// The name of a pitch class, C first.
pub open spec fn class_name(class: int) -> Seq<char> {
    if class == 0 {
        "C"@
    } else if class == 1 {
        "C#"@
    } else if class == 2 {
        "D"@
    } else if class == 3 {
        "D#"@
    } else if class == 4 {
        "E"@
    } else if class == 5 {
        "F"@
    } else if class == 6 {
        "F#"@
    } else if class == 7 {
        "G"@
    } else if class == 8 {
        "G#"@
    } else if class == 9 {
        "A"@
    } else if class == 10 {
        "A#"@
    } else {
        "B"@
    }
}

/// The name of a pitch class, C first.
pub fn pitch_class(class: usize) -> (name: &'static str)
    requires
        class < 12,
    ensures
        name@ == class_name(class as int),
{
    if class == 0 {
        "C"
    } else if class == 1 {
        "C#"
    } else if class == 2 {
        "D"
    } else if class == 3 {
        "D#"
    } else if class == 4 {
        "E"
    } else if class == 5 {
        "F"
    } else if class == 6 {
        "F#"
    } else if class == 7 {
        "G"
    } else if class == 8 {
        "G#"
    } else if class == 9 {
        "A"
    } else if class == 10 {
        "A#"
    } else {
        "B"
    }
}

/// The octave number that goes with a note: twelve notes to an octave, rounded
/// towards zero, the note 12 being in octave zero.
pub open spec fn octave(midi: int) -> int {
    if midi >= 0 {
        midi / 12 - 1
    } else {
        -((-midi) / 12) - 1
    }
}

/// The name of a note: its pitch class and its octave.
pub open spec fn note(midi: int) -> Seq<char> {
    class_name(midi % 12) + numeral(octave(midi))
}

/// The pitch class of a note, C being zero.
pub fn class_of(midi: i32) -> (class: usize)
    ensures
        class == midi % 12,
        class < 12,
{
    if midi >= 0 {
        (midi % 12) as usize
    } else {
        // -1 belongs to class 11, -12 to class 0.
        let below: i64 = (-(midi as i64 + 1)) % 12;
        (11 - below) as usize
    }
}

/// The name of a note, such as `F#3`.
pub fn note_name(midi: i32) -> (name: String)
    ensures
        name@ == note(midi as int),
{
    let class: &str = pitch_class(class_of(midi));
    let number: i64 = if midi >= 0 {
        midi as i64 / 12 - 1
    } else {
        -((-(midi as i64)) / 12) - 1
    };
    let mut name: String = String::from_str(class);
    append_integer(&mut name, number);
    name
}

/// Notes an octave apart share their pitch class, and from the note zero up
/// their octave numbers follow each other.
pub proof fn octaves_share_names(midi: int)
    ensures
        class_name(midi % 12) == class_name((midi + 12) % 12),
        midi >= 0 ==> octave(midi + 12) == octave(midi) + 1,
{
}

/// Which target a played pitch belongs to.
#[derive(Clone, Copy, Debug)]
pub struct Match {
    /// String number, 1 (high E) to 6 (low E/D); 0 where no string is meant.
    pub string_no: usize,
    /// Target note (after capo shift).
    pub target_midi: i32,
    pub target_freq: Real32,
    /// Deviation of the played pitch from the target, in cents.
    pub cents: Real32,
}

/// The target notes with a capo, 6th string first.
pub open spec fn target_notes(tuning: Tuning, capo: int) -> Seq<i32> {
    Seq::new(STRINGS as nat, |i: int| (tuning.open()[i] + capo) as i32)
}

/// The target notes with a capo, 6th string first.
pub fn targets(tuning: Tuning, capo: i32) -> (r: Vec<i32>)
    requires
        capo <= i32::MAX - 64,
    ensures
        r@ == target_notes(tuning, capo as int),
{
    let open: [i32; 6] = tuning.open_strings();
    let mut r: Vec<i32> = Vec::new();
    let mut i: usize = 0;
    while i < STRINGS
        invariant
            i <= STRINGS,
            open@ == tuning.open(),
            capo <= i32::MAX - 64,
            r@ == Seq::new(i as nat, |k: int| (tuning.open()[k] + capo) as i32),
        decreases STRINGS - i,
    {
        assert(38 <= open[i as int] <= 64);
        r.push(open[i] + capo);
        i = i + 1;
        assert(r@ =~= Seq::new(i as nat, |k: int| (tuning.open()[k] + capo) as i32));
    }
    r
}

/// Among the first `n` deviations the one at `k` is nearest to zero, the first
/// of several; deviations that are not numbers count only where the first is
/// one, which then stands.
pub open spec fn is_nearest(cents: Seq<Real32>, n: int, k: int) -> bool {
    &&& 0 <= k < n
    &&& cents[0].nan() ==> k == 0
    &&& !cents[0].nan() ==> {
        &&& !cents[k].nan()
        &&& forall|j: int|
            0 <= j < n && !(#[trigger] cents[j]).nan() ==> {
                &&& cents[k].magnitude() <= cents[j].magnitude()
                &&& j < k ==> cents[k].magnitude() < cents[j].magnitude()
            }
    }
}

/// `m` is the string whose target is nearest. For each string, 6th first, `freqs` holds
/// the target pitch and `cents` the deviation from it.
pub open spec fn is_match(tuning: Tuning, capo: int, freqs: Seq<Real32>, cents: Seq<Real32>, m: Match) -> bool {
    &&& 1 <= m.string_no <= STRINGS
    &&& is_nearest(cents, STRINGS as int, STRINGS - m.string_no)
    &&& m.target_midi == tuning.open()[STRINGS - m.string_no] + capo
    &&& m.target_freq == freqs[STRINGS - m.string_no]
    &&& m.cents == cents[STRINGS - m.string_no]
}

/// The string whose target is nearest, given the targets and the deviations from them.
pub fn match_string(tuning: Tuning, capo: i32, freqs: &Vec<Real32>, cents: &Vec<Real32>) -> (m: Match)
    requires
        capo <= i32::MAX - 64,
        freqs.len() == STRINGS,
        cents.len() == STRINGS,
    ensures
        is_match(tuning, capo as int, freqs@, cents@, m),
{
    let mut best: usize = 0;
    let mut i: usize = 1;
    while i < STRINGS
        invariant
            1 <= i <= STRINGS,
            cents.len() == STRINGS,
            is_nearest(cents@, i as int, best as int),
        decreases STRINGS - i,
    {
        if cents[i].abs().less(&cents[best].abs()) {
            best = i;
        }
        i = i + 1;
    }
    let open: [i32; 6] = tuning.open_strings();
    Match {
        string_no: STRINGS - best,
        target_midi: open[best] + capo,
        target_freq: freqs[best],
        cents: cents[best],
    }
}

/// `freqs` holds the pitches of some notes.
pub open spec fn pitched<F: Fn(i32) -> Real32>(pitch: F, notes: Seq<i32>, freqs: Seq<Real32>) -> bool {
    &&& freqs.len() == notes.len()
    &&& forall|i: int| 0 <= i < notes.len() ==> call_ensures(pitch, (notes[i],), #[trigger] freqs[i])
}

/// `m` is the string whose target pitch is closest to `freq`.
pub open spec fn is_string_of<F: Fn(i32) -> Real32, C: Fn(Real32, Real32) -> Real32>(
    freq: Real32,
    tuning: Tuning,
    capo: int,
    pitch: F,
    between: C,
    m: Match,
) -> bool {
    exists|freqs: Seq<Real32>, cents: Seq<Real32>| #[trigger]
        pitched(pitch, target_notes(tuning, capo), freqs) && #[trigger] is_row(between, freq, freqs, cents) && is_match(
            tuning,
            capo,
            freqs,
            cents,
            m,
        )
}

/// Finds the string (with `capo` semitones added per the cejilla) whose target pitch is
/// closest to `freq`. `pitch` gives the pitch of a note, and `between` the distance of
/// two pitches in cents.
pub fn nearest_string<F: Fn(i32) -> Real32, C: Fn(Real32, Real32) -> Real32>(
    freq: Real32,
    tuning: Tuning,
    capo: i32,
    pitch: F,
    between: C,
) -> (m: Match)
    requires
        capo <= i32::MAX - 64,
        forall|n: i32| call_requires(pitch, (n,)),
        forall|a: Real32, b: Real32| call_requires(between, (a, b)),
    ensures
        is_string_of(freq, tuning, capo as int, pitch, between, m),
{
    let notes: Vec<i32> = targets(tuning, capo);
    let mut freqs: Vec<Real32> = Vec::new();
    let mut i: usize = 0;
    while i < notes.len()
        invariant
            i <= notes.len(),
            freqs.len() == i,
            forall|n: i32| call_requires(pitch, (n,)),
            forall|k: int| 0 <= k < i ==> call_ensures(pitch, (notes[k],), #[trigger] freqs[k]),
        decreases notes.len() - i,
    {
        let f: Real32 = pitch(notes[i]);
        freqs.push(f);
        i = i + 1;
    }
    assert(pitched(pitch, target_notes(tuning, capo as int), freqs@));
    let cents: Vec<Real32> = row(&between, freq, &freqs);
    match_string(tuning, capo, &freqs, &cents)
}

/// The nearest string is determined by the deviations.
pub proof fn nearest_is_unique(cents: Seq<Real32>, n: int, a: int, b: int)
    requires
        is_nearest(cents, n, a),
        is_nearest(cents, n, b),
    ensures
        a == b,
{
}

/// How far a pitch lies above the target of string `i` (6th first), in hundredths of a
/// cent, if it is `d` above the target of string `s`.
pub open spec fn deviation(tuning: Tuning, s: int, d: int, i: int) -> int {
    d + 10000 * (tuning.open()[s] - tuning.open()[i])
}

/// Two numbers are no further apart than `e`.
pub open spec fn within(a: int, b: int, e: int) -> bool {
    -e <= a - b <= e
}

/// `value` gives the size of numbers, in hundredths of a cent: of two numbers the one
/// whose value lies further from zero is further from zero.
pub open spec fn is_scale(value: spec_fn(Real32) -> int) -> bool {
    forall|a: Real32, b: Real32|
        !a.nan() && !b.nan() && -size(value(a)) < #[trigger] value(b) < size(#[trigger] value(a)) ==> b.magnitude()
            < a.magnitude()
}

/// The distance from zero.
pub open spec fn size(x: int) -> int {
    if x < 0 {
        -x
    } else {
        x
    }
}

/// A string that is detuned by up to 150 cents, sharp or flat, is read back as that
/// string, and with its deviation, for every cejilla and every reference pitch: the
/// strings are at least four semitones apart. The deviation is read back as well as it is
/// measured: if pitches and distances are measured to within `e`, some amount below half
/// a semitone, it is right to within `e`. `s` counts the strings from the 6th on; the
/// detuning `d` and `e` are in hundredths of a cent.
pub proof fn detuned_string_is_read_back<F: Fn(i32) -> Real32, C: Fn(Real32, Real32) -> Real32>(
    freq: Real32,
    tuning: Tuning,
    capo: int,
    pitch: F,
    between: C,
    value: spec_fn(Real32) -> int,
    s: int,
    d: int,
    e: int,
    m: Match,
)
    requires
        is_string_of(freq, tuning, capo, pitch, between, m),
        0 <= s < STRINGS,
        -15000 <= d <= 15000,
        0 <= e < 5000,
        is_scale(value),
        forall|i: int, f: Real32, c: Real32|
            0 <= i < STRINGS && #[trigger] call_ensures(pitch, (target_notes(tuning, capo)[i],), f)
                && #[trigger] call_ensures(between, (freq, f), c) ==> !c.nan() && within(
                value(c),
                deviation(tuning, s, d, i),
                e,
            ),
    ensures
        m.string_no == STRINGS - s,
        m.target_midi == tuning.open()[s] + capo,
        within(value(m.cents), d, e),
{
    let notes = target_notes(tuning, capo);
    let (freqs, cents) = choose|freqs: Seq<Real32>, cents: Seq<Real32>| #[trigger]
        pitched(pitch, notes, freqs) && #[trigger] is_row(between, freq, freqs, cents) && is_match(
            tuning,
            capo,
            freqs,
            cents,
            m,
        );
    assert forall|i: int| 0 <= i < STRINGS implies !(#[trigger] cents[i]).nan() && within(
        value(cents[i]),
        deviation(tuning, s, d, i),
        e,
    ) by {
        assert(call_ensures(pitch, (notes[i],), freqs[i]));
        assert(call_ensures(between, (freq, freqs[i]), cents[i]));
    }
    let k = STRINGS - m.string_no;
    assert(deviation(tuning, s, d, s) == d);
    assert(!cents[k].nan() && !cents[s].nan());
    if k != s {
        let far = deviation(tuning, s, d, k);
        assert(far >= 25000 || far <= -25000);
        assert(-size(value(cents[k])) < value(cents[s]) < size(value(cents[k])));
        assert(cents[s].magnitude() < cents[k].magnitude());
    }
}

/// `m` is the nearest note of the chromatic scale, which stands for no string.
pub open spec fn is_note_of<N: Fn(Real32) -> i32, F: Fn(i32) -> Real32, C: Fn(Real32, Real32) -> Real32>(
    freq: Real32,
    round: N,
    pitch: F,
    between: C,
    m: Match,
) -> bool {
    &&& m.string_no == 0
    &&& call_ensures(round, (freq,), m.target_midi)
    &&& call_ensures(pitch, (m.target_midi,), m.target_freq)
    &&& call_ensures(between, (freq, m.target_freq), m.cents)
}

/// The match of a pitch with the nearest note of the chromatic scale, which stands for no
/// string. `round` gives that note, `pitch` its pitch, and `between` the distance of two
/// pitches in cents.
pub fn nearest_note<N: Fn(Real32) -> i32, F: Fn(i32) -> Real32, C: Fn(Real32, Real32) -> Real32>(
    freq: Real32,
    round: N,
    pitch: F,
    between: C,
) -> (m: Match)
    requires
        call_requires(round, (freq,)),
        forall|n: i32| call_requires(pitch, (n,)),
        forall|a: Real32, b: Real32| call_requires(between, (a, b)),
    ensures
        is_note_of(freq, round, pitch, between, m),
{
    let target_midi: i32 = round(freq);
    let target_freq: Real32 = pitch(target_midi);
    let cents: Real32 = between(freq, target_freq);
    Match { string_no: 0, target_midi, target_freq, cents }
}

} // verus!
