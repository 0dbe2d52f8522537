//! Tuner strip: verdict, cents bar, string badges and the duet of two strings.

use vstd::prelude::*;

use crate::gui::state::Reading;
use crate::ieee::Real32;
use crate::order::{descending, descending_keys, is_maximum_of, is_stable_order, maximum_of, sorted_positions};
use crate::text::{append_integer, append_number, digits, numeral};
use crate::tuning::{note, note_name, Match, Tuning, STRINGS};

verus! {

/// Deviation considered "in tune": 3 cents, as an IEEE 754 pattern.
pub const IN_TUNE_CENTS: u32 = 0x4040_0000;

/// Deviation up to which a string is close: 15 cents, as an IEEE 754 pattern.
pub const CLOSE_CENTS: u32 = 0x4170_0000;

/// The bar reaches this many cents to either side.
pub const SPAN: i32 = 50;

/// How well something is in tune.
#[derive(Clone, Copy, Debug, PartialEq, Eq, Structural)]
pub enum Zone {
    Green,
    Gold,
    Red,
}

/// Green within the in-tune window, amber up to 15 cents, red beyond.
pub open spec fn zone_of(cents: Real32) -> Zone {
    if cents.unsigned().at_most(Real32 { bits: IN_TUNE_CENTS }) {
        Zone::Green
    } else if cents.unsigned().at_most(Real32 { bits: CLOSE_CENTS }) {
        Zone::Gold
    } else {
        Zone::Red
    }
}

/// Green within the in-tune window, amber up to 15 cents, red beyond.
pub fn zone(cents: &Real32) -> (z: Zone)
    ensures
        z == zone_of(*cents),
{
    let c: Real32 = cents.abs();
    if c.less_or_equal(&Real32::from_bits(IN_TUNE_CENTS)) {
        Zone::Green
    } else if c.less_or_equal(&Real32::from_bits(CLOSE_CENTS)) {
        Zone::Gold
    } else {
        Zone::Red
    }
}

/// The zone does not depend on the direction, and a larger deviation is never in
/// a better zone.
pub proof fn zones_grow_outwards(a: Real32, b: Real32)
    requires
        !a.nan(),
        !b.nan(),
        a.magnitude() <= b.magnitude(),
    ensures
        zone_of(a) == zone_of(a.unsigned()),
        zone_of(b) is Green ==> zone_of(a) is Green,
        zone_of(a) is Red ==> zone_of(b) is Red,
{
}

/// What the player is told.
#[derive(Clone, Copy, Debug, PartialEq, Eq, Structural)]
pub enum Verdict {
    InTune,
    TuneDown,
    TuneUp,
}

/// What the player is told of a deviation: it is in tune, or too high and to be
/// tuned down, or to be tuned up.
pub open spec fn verdict_of(cents: Real32) -> Verdict {
    if cents.unsigned().at_most(Real32 { bits: IN_TUNE_CENTS }) {
        Verdict::InTune
    } else if (Real32 { bits: 0 }).below(cents) {
        Verdict::TuneDown
    } else {
        Verdict::TuneUp
    }
}

/// The verdict on a reading.
pub fn verdict(reading: &Option<Reading>) -> (v: Option<Verdict>)
    ensures
        v == match reading {
            Some(r) => Some(verdict_of(r.cents)),
            None => None,
        },
{
    match reading {
        Some(r) => {
            if r.cents.abs().less_or_equal(&Real32::from_bits(IN_TUNE_CENTS)) {
                Some(Verdict::InTune)
            } else if Real32::from_bits(0).less(&r.cents) {
                Some(Verdict::TuneDown)
            } else {
                Some(Verdict::TuneUp)
            }
        },
        None => None,
    }
}

/// The player is told "in tune" exactly in the green zone, and otherwise to move
/// towards the target.
pub proof fn verdict_agrees_with_the_zone(cents: Real32)
    requires
        !cents.nan(),
    ensures
        verdict_of(cents) is InTune <==> zone_of(cents) is Green,
        verdict_of(cents) is TuneDown ==> (Real32 { bits: 0 }).below(cents),
        verdict_of(cents) is TuneUp ==> cents.below(Real32 { bits: 0 }),
{
}

/// A mark on the cents bar.
pub struct Tick {
    pub cents: i32,
    /// The middle mark spans the bar.
    pub tall: bool,
    pub label: Option<String>,
}

/// An integer with its sign, zero without.
pub open spec fn signed(i: int) -> Seq<char> {
    if i > 0 {
        "+"@ + numeral(i)
    } else {
        numeral(i)
    }
}

/// Mark `k` of the bar.
pub open spec fn tick_at(k: int) -> int {
    10 * k - SPAN
}

/// Scale marks every 10 cents; the ends and the middle are labelled.
pub fn ticks() -> (marks: Vec<Tick>)
    ensures
        marks.len() == 11,
        forall|k: int|
            0 <= k < 11 ==> {
                let m = #[trigger] marks[k];
                &&& m.cents == tick_at(k)
                &&& m.tall == (m.cents == 0)
                &&& match m.label {
                    Some(l) => m.cents as int % 50 == 0 && l@ == signed(m.cents as int),
                    None => m.cents as int % 50 != 0,
                }
            },
{
    let mut marks: Vec<Tick> = Vec::new();
    let mut k: i32 = 0;
    while k < 11
        invariant
            0 <= k <= 11,
            marks.len() == k,
            forall|j: int|
                0 <= j < k ==> {
                    let m = #[trigger] marks[j];
                    &&& m.cents == tick_at(j)
                    &&& m.tall == (m.cents == 0)
                    &&& match m.label {
                        Some(l) => m.cents as int % 50 == 0 && l@ == signed(m.cents as int),
                        None => m.cents as int % 50 != 0,
                    }
                },
        decreases 11 - k,
    {
        let cents: i32 = 10 * k - SPAN;
        let label: Option<String> = if k == 0 || k == 5 || k == 10 {
            let mut l: String = String::new();
            proof {
                reveal_strlit("+");
            }
            if cents > 0 {
                l.append("+");
            }
            append_integer(&mut l, cents as i64);
            assert(l@ =~= signed(cents as int));
            Some(l)
        } else {
            None
        };
        marks.push(Tick { cents, tall: cents == 0, label });
        k = k + 1;
    }
    marks
}

/// A string that the separator hears ringing.
#[derive(Clone, Copy, Debug)]
pub struct Voice {
    pub target: Match,
    /// Its level relative to the loudest.
    pub level: Real32,
}

/// The level of the loudest source, zero if none sounds.
pub fn loudest_source(levels: &Vec<Real32>) -> (loudest: Real32)
    ensures
        is_maximum_of(Real32 { bits: 0 }, levels@, levels.len() as int, loudest),
{
    maximum_of(Real32::from_bits(0), levels)
}

/// A source has faded at this part of the loudest level: 0.1, as an IEEE 754 pattern.
pub const FADED: u32 = 0x3dcc_cccd;

/// The voices among the first `n` whose level is above `floor`.
pub open spec fn sounding(levels: Seq<Real32>, voices: Seq<Voice>, floor: Real32, n: int) -> Seq<Voice>
    decreases n,
{
    if n <= 0 {
        Seq::empty()
    } else {
        let before = sounding(levels, voices, floor, n - 1);
        if floor.below(levels[n - 1]) {
            before.push(voices[n - 1])
        } else {
            before
        }
    }
}

/// The relative levels of voices.
pub open spec fn voice_levels(voices: Seq<Voice>) -> Seq<Real32> {
    Seq::new(voices.len(), |i: int| voices[i].level)
}

/// Voices by descending level, equal ones as they stand.
pub open spec fn loudest_first(voices: Seq<Voice>) -> Seq<Voice> {
    Seq::new(
        voices.len(),
        |i: int| voices[sorted_positions(descending_keys(voice_levels(voices)))[i] as int],
    )
}

/// Sources that are genuinely sounding (a seeded source whose string has faded
/// reads near-zero level), loudest first. `levels` holds the sources' levels,
/// `loudest` the largest; `voices` is what each source would be shown as. A level counts
/// if it is above the part `FADED` of the loudest, which `part` gives.
pub fn duet_voices<P: Fn(Real32, Real32) -> Real32>(
    levels: &Vec<Real32>,
    loudest: Real32,
    voices: &Vec<Voice>,
    part: P,
) -> (r: Vec<Voice>)
    requires
        levels.len() == voices.len(),
        forall|a: Real32, b: Real32| call_requires(part, (a, b)),
    ensures
        if loudest.at_most(Real32 { bits: 0 }) {
            r.len() == 0
        } else {
            exists|floor: Real32| #[trigger]
                call_ensures(part, (loudest, Real32 { bits: FADED }), floor) && r@ == loudest_first(
                    sounding(levels@, voices@, floor, levels.len() as int),
                )
        },
{
    if loudest.less_or_equal(&Real32::from_bits(0)) {
        return Vec::new();
    }
    let floor: Real32 = part(loudest, Real32::from_bits(FADED));
    let mut heard: Vec<Voice> = Vec::new();
    let mut relative: Vec<Real32> = Vec::new();
    let mut i: usize = 0;
    while i < levels.len()
        invariant
            i <= levels.len() == voices.len(),
            heard@ == sounding(levels@, voices@, floor, i as int),
            relative@ == voice_levels(heard@),
        decreases levels.len() - i,
    {
        if floor.less(&levels[i]) {
            heard.push(voices[i]);
            relative.push(voices[i].level);
            assert(relative@ =~= voice_levels(heard@));
        }
        i = i + 1;
    }
    let order: Vec<usize> = descending(&relative);
    let mut r: Vec<Voice> = Vec::new();
    let mut k: usize = 0;
    while k < order.len()
        invariant
            k <= order.len() == heard.len(),
            relative@ == voice_levels(heard@),
            is_stable_order(descending_keys(relative@), order@),
            order@ == sorted_positions(descending_keys(relative@)),
            r@ == loudest_first(heard@).take(k as int),
        decreases order.len() - k,
    {
        r.push(heard[order[k]]);
        k = k + 1;
        assert(r@ =~= loudest_first(heard@).take(k as int));
    }
    assert(r@ =~= loudest_first(heard@));
    r
}

/// The voices that get a needle of their own beside that of the reading: those
/// on another string, among the first `n`.
pub open spec fn other_voices(string_no: usize, voices: Seq<Voice>, n: int) -> Seq<Voice>
    decreases n,
{
    if n <= 0 {
        Seq::empty()
    } else {
        let before = other_voices(string_no, voices, n - 1);
        if voices[n - 1].target.string_no == string_no {
            before
        } else {
            before.push(voices[n - 1])
        }
    }
}

/// The voices that get a needle of their own.
pub fn second_needles(reading: &Option<Reading>, voices: &Vec<Voice>) -> (r: Vec<Voice>)
    ensures
        r@ == match reading {
            Some(x) => other_voices(x.string_no, voices@, voices.len() as int),
            None => Seq::<Voice>::empty(),
        },
{
    let mut r: Vec<Voice> = Vec::new();
    if let Some(x) = reading {
        let mut i: usize = 0;
        while i < voices.len()
            invariant
                i <= voices.len(),
                r@ == other_voices(x.string_no, voices@, i as int),
            decreases voices.len() - i,
        {
            if voices[i].target.string_no != x.string_no {
                r.push(voices[i]);
            }
            i = i + 1;
        }
    }
    r
}

/// The first voice at or behind `from` on a string.
pub open spec fn voice_on(voices: Seq<Voice>, string_no: usize, from: int) -> Option<Voice>
    decreases voices.len() - from,
{
    if from >= voices.len() {
        None
    } else if voices[from].target.string_no == string_no {
        Some(voices[from])
    } else {
        voice_on(voices, string_no, from + 1)
    }
}

/// The first voice on a string.
fn find_voice(voices: &Vec<Voice>, string_no: usize) -> (r: Option<Voice>)
    ensures
        r == voice_on(voices@, string_no, 0),
{
    let mut i: usize = 0;
    while i < voices.len()
        invariant
            i <= voices.len(),
            voice_on(voices@, string_no, 0) == voice_on(voices@, string_no, i as int),
        decreases voices.len() - i,
    {
        if voices[i].target.string_no == string_no {
            return Some(voices[i]);
        }
        i = i + 1;
    }
    None
}

/// How a string is shown.
pub struct Badge {
    pub string_no: usize,
    /// It is the one being plucked.
    pub active: bool,
    /// It rings along in a duet, so well in tune.
    pub duet: Option<Zone>,
    pub label: String,
}

/// The label of a badge: string number and target note; tight badges drop the
/// space around the separator.
pub open spec fn badge_label(string_no: int, midi: int, compact: bool) -> Seq<char> {
    digits(string_no as nat) + (if compact {
        "·"@
    } else {
        " · "@
    }) + note(midi)
}

/// Badge `i` is that of the string `6 - i`.
pub open spec fn is_badge(
    b: Badge,
    i: int,
    tuning: Tuning,
    capo: int,
    active: Option<usize>,
    voices: Seq<Voice>,
    compact: bool,
) -> bool {
    &&& b.string_no == STRINGS - i
    &&& b.active == (active == Some(b.string_no))
    &&& b.duet == (if b.active {
        None
    } else {
        match voice_on(voices, b.string_no, 0) {
            Some(v) => Some(zone_of(v.target.cents)),
            None => None,
        }
    })
    &&& b.label@ == badge_label(STRINGS - i, tuning.open()[i] + capo, compact)
}

/// The strings with capo-shifted targets, 6th first: the one being plucked lights
/// up, those of a duet are outlined.
pub fn badges(
    tuning: Tuning,
    capo: i32,
    active: Option<usize>,
    voices: &Vec<Voice>,
    compact: bool,
) -> (r: Vec<Badge>)
    requires
        capo <= i32::MAX - 64,
    ensures
        r.len() == STRINGS,
        forall|i: int| 0 <= i < STRINGS ==> is_badge(#[trigger] r[i], i, tuning, capo as int, active, voices@, compact),
{
    let open: [i32; 6] = tuning.open_strings();
    let mut r: Vec<Badge> = Vec::new();
    let mut i: usize = 0;
    while i < STRINGS
        invariant
            i <= STRINGS,
            open@ == tuning.open(),
            capo <= i32::MAX - 64,
            r.len() == i,
            forall|k: int| 0 <= k < i ==> is_badge(#[trigger] r[k], k, tuning, capo as int, active, voices@, compact),
        decreases STRINGS - i,
    {
        let string_no: usize = STRINGS - i;
        let is_active: bool = match active {
            Some(no) => no == string_no,
            None => false,
        };
        let duet: Option<Zone> = if is_active {
            None
        } else {
            match find_voice(voices, string_no) {
                Some(v) => Some(zone(&v.target.cents)),
                None => None,
            }
        };
        assert(38 <= open[i as int] <= 64);
        let name: String = note_name(open[i] + capo);
        let mut label: String = String::new();
        append_number(&mut label, string_no as u64);
        label.append(if compact { "·" } else { " · " });
        label.append(name.as_str());
        assert(label@ =~= badge_label(STRINGS - i, tuning.open()[i as int] + capo, compact));
        r.push(Badge { string_no, active: is_active, duet, label });
        i = i + 1;
    }
    r
}

/// At most one badge is lit, and it is not outlined as well.
pub proof fn one_string_lights_up(
    a: Badge,
    b: Badge,
    i: int,
    j: int,
    tuning: Tuning,
    capo: int,
    active: Option<usize>,
    voices: Seq<Voice>,
    compact: bool,
)
    requires
        0 <= i < STRINGS,
        0 <= j < STRINGS,
        is_badge(a, i, tuning, capo, active, voices, compact),
        is_badge(b, j, tuning, capo, active, voices, compact),
        a.active,
        b.active,
    ensures
        i == j,
        a.duet is None,
{
}

/// The note that is read out.
pub fn readout(reading: &Option<Reading>) -> (r: Option<(String, Zone)>)
    ensures
        match reading {
            Some(x) => r matches Some((name, z)) && name@ == note(x.target_midi as int) && z == zone_of(x.cents),
            None => r is None,
        },
{
    match reading {
        Some(x) => Some((note_name(x.target_midi), zone(&x.cents))),
        None => None,
    }
}

/// The label of a duet pill: string number and target note.
pub fn voice_label(voice: &Voice) -> (label: String)
    ensures
        label@ == badge_label(voice.target.string_no as int, voice.target.target_midi as int, false),
{
    let mut label: String = String::new();
    append_number(&mut label, voice.target.string_no as u64);
    label.append(" · ");
    let name: String = note_name(voice.target.target_midi);
    label.append(name.as_str());
    assert(label@ =~= badge_label(voice.target.string_no as int, voice.target.target_midi as int, false));
    label
}

} // verus!
