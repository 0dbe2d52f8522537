//! The tuner from frame to frame: mode, tuning and cejilla, the current reading
//! with its hold, the pitch history, and which samples go where.

use std::collections::VecDeque;

use vstd::prelude::*;

use crate::audio::RING_LEN;
use crate::dsp::vibrato::Point;
use crate::ieee::{Real32, Real64};
use crate::order::{is_maximum_of, maximum_of};
use crate::pitch::FFT_LEN;
use crate::ring::{contents, keep_newest, newest, section, Ring};
use crate::tuning::{is_note_of, is_string_of, nearest_note, nearest_string, Match, Tuning};

verus! {

/// Input quieter than this does not count (noise gate): 0.004, as an IEEE 754
/// pattern. Low enough for built-in laptop microphones; the detector itself
/// rejects unpitched noise.
pub const RMS_GATE: u32 = 0x3b83_126f;

/// Frames the display holds after the note has decayed.
pub const HOLD_FRAMES: u32 = 12;

/// Seconds that the history goes back: 12, as an IEEE 754 pattern.
pub const HISTORY_SECS: u64 = 0x4028_0000_0000_0000;

/// Envelope points kept for the visibility graph.
pub const ENVELOPE_LEN: usize = 256;

/// Highest cejilla fret.
pub const MAX_CAPO: i32 = 9;

/// The value that marks a gap in the history: not a number, as an IEEE 754
/// pattern.
pub const GAP: u64 = 0x7ff8_0000_0000_0000;

/// What is listened to.
#[derive(Clone, Copy, Debug, PartialEq, Eq, Structural)]
pub enum Mode {
    Guitar,
    Voice,
}

/// A detected pitch and its target.
#[derive(Clone, Copy, Debug, PartialEq, Eq, Structural)]
pub struct Reading {
    pub freq: Real32,
    /// 1 to 6 in guitar mode; 0 in voice mode (no string).
    pub string_no: usize,
    pub target_midi: i32,
    pub target_freq: Real32,
    pub cents: Real32,
}

impl Reading {
    /// The reading of a pitch that matches a target.
    pub open spec fn from_match(freq: Real32, m: Match) -> Reading {
        Reading {
            freq,
            string_no: m.string_no,
            target_midi: m.target_midi,
            target_freq: m.target_freq,
            cents: m.cents,
        }
    }

    /// The reading of a pitch that matches a target.
    pub fn new(freq: Real32, m: &Match) -> (r: Reading)
        ensures
            r == Reading::from_match(freq, *m),
    {
        Reading {
            freq,
            string_no: m.string_no,
            target_midi: m.target_midi,
            target_freq: m.target_freq,
            cents: m.cents,
        }
    }
}

/// A key with a meaning.
#[derive(Clone, Copy, Debug, PartialEq, Eq, Structural)]
pub enum Key {
    T,
    Up,
    Down,
}

/// The tuner's state between frames.
pub struct TunerState {
    pub mode: Mode,
    pub tuning: Tuning,
    /// Cejilla fret.
    pub capo: i32,
    pub reading: Option<Reading>,
    /// Frames left before a reading that is no longer heard disappears.
    pub hold: u32,
    /// Deviation over time; rows that are not numbers break the line.
    pub history: VecDeque<Point>,
    /// Level over the last frames.
    pub envelope: VecDeque<Real32>,
    /// Samples already handed to the separator.
    pub sep_total: u64,
}

/// The part of the state that listening changes.
pub struct Display {
    pub reading: Option<Reading>,
    pub hold: u32,
    pub history: Seq<Point>,
}

/// What was heard in a frame: the reading, and its deviation for the history.
pub struct Heard {
    pub reading: Reading,
    pub cents: Real64,
}

/// The display after a frame in which `heard` was detected, at time `now`.
pub open spec fn shown(d: Display, heard: Option<Heard>, now: Real64) -> Display {
    match heard {
        Some(h) => Display {
            reading: Some(h.reading),
            hold: HOLD_FRAMES,
            history: d.history.push(Point { time: now, cents: h.cents }),
        },
        None => if d.hold > 0 {
            Display { hold: (d.hold - 1) as u32, ..d }
        } else if d.reading is Some {
            // Break the history line while silent.
            Display {
                reading: None,
                hold: 0,
                history: d.history.push(Point { time: now, cents: Real64 { bits: GAP } }),
            }
        } else {
            d
        },
    }
}

/// The history without its oldest points that lie before `from`.
pub open spec fn since(history: Seq<Point>, from: Real64) -> Seq<Point>
    decreases history.len(),
{
    if history.len() > 0 && history[0].time.below(from) {
        since(history.skip(1), from)
    } else {
        history
    }
}

/// A frame in which `heard` was detected, at time `now`, makes `after` of `before`: it is
/// shown, and points of the history that lie more than `HISTORY_SECS` back go.
pub open spec fn passes<M: Fn(Real64, Real64) -> Real64>(
    minus: M,
    before: Display,
    heard: Option<Heard>,
    now: Real64,
    after: Display,
) -> bool {
    let next = shown(before, heard, now);
    exists|from: Real64| #[trigger]
        call_ensures(minus, (now, Real64 { bits: HISTORY_SECS }), from) && after == (Display {
            history: since(next.history, from),
            ..next
        })
}

impl TunerState {
    /// The cejilla is on a fret there is, a reading is held no longer than it
    /// may be, and the envelope is within bounds.
    pub open spec fn well_formed(&self) -> bool {
        &&& 0 <= self.capo <= MAX_CAPO
        &&& self.hold <= HOLD_FRAMES
        &&& self.envelope@.len() <= ENVELOPE_LEN
    }

    /// What listening changes.
    pub open spec fn display(&self) -> Display {
        Display { reading: self.reading, hold: self.hold, history: self.history@ }
    }

    /// The settings are the same.
    pub open spec fn same_settings(&self, other: &TunerState) -> bool {
        &&& self.mode == other.mode
        &&& self.tuning == other.tuning
        &&& self.capo == other.capo
    }

    /// A tuner that has heard nothing: guitar, standard tuning, no cejilla.
    pub fn new() -> (r: Self)
        ensures
            r.well_formed(),
            r.mode == Mode::Guitar,
            r.tuning == Tuning::Standard,
            r.capo == 0,
            r.reading is None,
            r.hold == 0,
            r.history@.len() == 0,
            r.envelope@.len() == 0,
            r.sep_total == 0,
    {
        TunerState {
            mode: Mode::Guitar,
            tuning: Tuning::Standard,
            capo: 0,
            reading: None,
            hold: 0,
            history: VecDeque::new(),
            envelope: VecDeque::new(),
            sep_total: 0,
        }
    }

    /// What a pitch is aimed at: the nearest string of the guitar, or the nearest note of
    /// a voice. `round` gives the note nearest to a pitch, `pitch` the pitch of a note,
    /// and `between` the distance of two pitches in cents.
    pub fn aim<N: Fn(Real32) -> i32, F: Fn(i32) -> Real32, C: Fn(Real32, Real32) -> Real32>(
        &self,
        freq: Real32,
        round: N,
        pitch: F,
        between: C,
    ) -> (m: Match)
        requires
            self.well_formed(),
            call_requires(round, (freq,)),
            forall|n: i32| call_requires(pitch, (n,)),
            forall|a: Real32, b: Real32| call_requires(between, (a, b)),
        ensures
            match self.mode {
                Mode::Guitar => is_string_of(freq, self.tuning, self.capo as int, pitch, between, m),
                Mode::Voice => is_note_of(freq, round, pitch, between, m),
            },
    {
        match self.mode {
            Mode::Guitar => nearest_string(freq, self.tuning, self.capo, pitch, between),
            Mode::Voice => nearest_note(freq, round, pitch, between),
        }
    }

    /// Takes note of what a frame at time `now` brought. Points of the history
    /// that lie more than `HISTORY_SECS` back go; `minus` gives the time that long
    /// before another.
    pub fn hear<M: Fn(Real64, Real64) -> Real64>(&mut self, heard: &Option<Heard>, now: Real64, minus: M)
        requires
            old(self).well_formed(),
            forall|a: Real64, b: Real64| call_requires(minus, (a, b)),
        ensures
            final(self).well_formed(),
            final(self).same_settings(old(self)),
            final(self).envelope@ == old(self).envelope@,
            final(self).sep_total == old(self).sep_total,
            passes(minus, old(self).display(), *heard, now, final(self).display()),
    {
        match heard {
            Some(h) => {
                self.history.push_back(Point { time: now, cents: h.cents });
                self.reading = Some(h.reading);
                self.hold = HOLD_FRAMES;
            },
            None => {
                if self.hold > 0 {
                    self.hold = self.hold - 1;
                } else {
                    if self.reading.is_some() {
                        self.history.push_back(Point { time: now, cents: Real64::from_bits(GAP) });
                    }
                    self.reading = None;
                }
            },
        }
        let ghost after = shown(old(self).display(), *heard, now);
        assert(self.history@ == after.history);
        let from: Real64 = minus(now, Real64::from_bits(HISTORY_SECS));
        assert(call_ensures(minus, (now, Real64 { bits: HISTORY_SECS }), from));
        self.prune(from);
    }

    /// Drops the oldest points of the history that lie before `from`.
    fn prune(&mut self, from: Real64)
        ensures
            final(self).history@ == since(old(self).history@, from),
            final(self).same_settings(old(self)),
            final(self).reading == old(self).reading,
            final(self).hold == old(self).hold,
            final(self).envelope@ == old(self).envelope@,
            final(self).sep_total == old(self).sep_total,
    {
        let ghost before = self.history@;
        let ghost kept = *self;
        while self.history.len() > 0 && self.history[0].time.less(&from)
            invariant
                since(before, from) == since(self.history@, from),
                self.same_settings(&kept),
                self.reading == kept.reading,
                self.hold == kept.hold,
                self.envelope@ == kept.envelope@,
                self.sep_total == kept.sep_total,
            decreases self.history.len(),
        {
            let ghost had = self.history@;
            let oldest: Option<Point> = self.history.pop_front();
            assert(self.history@ =~= had.skip(1));
        }
    }

    /// Adds a level to the envelope, and gives the whole envelope.
    pub fn push_envelope(&mut self, drive: Real32) -> (envelope: Vec<Real32>)
        requires
            old(self).well_formed(),
        ensures
            final(self).well_formed(),
            final(self).same_settings(old(self)),
            final(self).display() == old(self).display(),
            final(self).sep_total == old(self).sep_total,
            final(self).envelope@ == newest(old(self).envelope@.push(drive), ENVELOPE_LEN as nat),
            envelope@ == final(self).envelope@,
    {
        self.envelope.push_back(drive);
        keep_newest(&mut self.envelope, ENVELOPE_LEN);
        contents(&self.envelope)
    }

    /// Switches the mode. True if it was another: the history and the reading are
    /// then gone, and the detector listens in another range.
    pub fn set_mode(&mut self, mode: Mode) -> (changed: bool)
        requires
            old(self).well_formed(),
        ensures
            final(self).well_formed(),
            changed == (old(self).mode != mode),
            final(self).mode == mode,
            final(self).tuning == old(self).tuning,
            final(self).capo == old(self).capo,
            final(self).hold == old(self).hold,
            final(self).envelope@ == old(self).envelope@,
            final(self).sep_total == old(self).sep_total,
            !changed ==> final(self).display() == old(self).display(),
            changed ==> final(self).history@.len() == 0 && final(self).reading is None,
    {
        if self.mode != mode {
            self.mode = mode;
            self.history.clear();
            self.reading = None;
            true
        } else {
            false
        }
    }

    /// Chooses a tuning. The detector starts afresh.
    pub fn set_tuning(&mut self, tuning: Tuning)
        requires
            old(self).well_formed(),
        ensures
            final(self).well_formed(),
            final(self).tuning == tuning,
            final(self).mode == old(self).mode,
            final(self).capo == old(self).capo,
            final(self).display() == old(self).display(),
            final(self).envelope@ == old(self).envelope@,
            final(self).sep_total == old(self).sep_total,
    {
        self.tuning = tuning;
    }

    /// The fret nearest to `fret` that there is.
    pub open spec fn clamped(fret: int) -> int {
        if fret < 0 {
            0
        } else if fret > MAX_CAPO {
            MAX_CAPO as int
        } else {
            fret
        }
    }

    /// Puts the cejilla on a fret, or the nearest there is.
    pub fn set_capo(&mut self, fret: i32)
        requires
            old(self).well_formed(),
        ensures
            final(self).well_formed(),
            final(self).capo == TunerState::clamped(fret as int),
            final(self).mode == old(self).mode,
            final(self).tuning == old(self).tuning,
            final(self).display() == old(self).display(),
            final(self).envelope@ == old(self).envelope@,
            final(self).sep_total == old(self).sep_total,
    {
        self.capo = if fret < 0 {
            0
        } else if fret > MAX_CAPO {
            MAX_CAPO
        } else {
            fret
        };
    }

    /// The settings after a key: `t` toggles the tuning of a guitar, the arrows
    /// move the cejilla.
    pub open spec fn pressed(mode: Mode, tuning: Tuning, capo: int, key: Key) -> (Tuning, int) {
        match key {
            Key::T => (if mode == Mode::Guitar {
                tuning.other()
            } else {
                tuning
            }, capo),
            Key::Up => (tuning, TunerState::clamped(capo + 1)),
            Key::Down => (tuning, TunerState::clamped(capo - 1)),
        }
    }

    /// Reacts to a key. True if the detector has to start afresh.
    pub fn press(&mut self, key: Key) -> (restart: bool)
        requires
            old(self).well_formed(),
        ensures
            final(self).well_formed(),
            restart == (key == Key::T && old(self).mode == Mode::Guitar),
            (final(self).tuning, final(self).capo as int) == TunerState::pressed(
                old(self).mode,
                old(self).tuning,
                old(self).capo as int,
                key,
            ),
            final(self).mode == old(self).mode,
            final(self).display() == old(self).display(),
            final(self).envelope@ == old(self).envelope@,
            final(self).sep_total == old(self).sep_total,
    {
        match key {
            Key::T => {
                if self.mode == Mode::Guitar {
                    self.tuning = self.tuning.toggle();
                    true
                } else {
                    false
                }
            },
            Key::Up => {
                self.set_capo(self.capo + 1);
                false
            },
            Key::Down => {
                self.set_capo(self.capo - 1);
                false
            },
        }
    }

    /// What the two-string separator is fed in a frame: the pitch it is seeded
    /// with, and how many of the newest samples arrived since the last frame, at
    /// most a whole window. Nothing where there is no guitar string to be heard.
    /// `total` counts the samples that ever arrived.
    pub fn separate(&mut self, audible: bool, total: u64) -> (input: Option<(Real32, usize)>)
        requires
            old(self).well_formed(),
            old(self).sep_total <= total,
        ensures
            final(self).well_formed(),
            final(self).same_settings(old(self)),
            final(self).display() == old(self).display(),
            final(self).envelope@ == old(self).envelope@,
            final(self).sep_total == total,
            match input {
                Some((primary, fresh)) => {
                    &&& old(self).mode == Mode::Guitar
                    &&& audible
                    &&& old(self).reading matches Some(r)
                    &&& primary == r.freq
                    &&& fresh == (if total - old(self).sep_total < RING_LEN {
                        total - old(self).sep_total
                    } else {
                        RING_LEN as int
                    })
                },
                None => old(self).mode != Mode::Guitar || !audible || old(self).reading is None,
            },
    {
        let arrived: u64 = total - self.sep_total;
        self.sep_total = total;
        let fresh: usize = if arrived < RING_LEN as u64 { arrived as usize } else { RING_LEN };
        if self.mode == Mode::Guitar && audible {
            match self.reading {
                Some(r) => Some((r.freq, fresh)),
                None => None,
            }
        } else {
            None
        }
    }
}

/// Moving the cejilla up and down again, or down and up, brings it back unless it
/// was stopped at the last fret; it never leaves the frets there are.
pub proof fn cejilla_moves_are_undone(mode: Mode, tuning: Tuning, capo: int)
    requires
        0 <= capo <= MAX_CAPO,
    ensures
        ({
            let (t, up) = TunerState::pressed(mode, tuning, capo, Key::Up);
            let (u, down) = TunerState::pressed(mode, tuning, capo, Key::Down);
            &&& t == tuning && u == tuning
            &&& 0 <= up <= MAX_CAPO && 0 <= down <= MAX_CAPO
            &&& capo < MAX_CAPO ==> TunerState::pressed(mode, t, up, Key::Down) == (tuning, capo)
            &&& capo > 0 ==> TunerState::pressed(mode, u, down, Key::Up) == (tuning, capo)
        }),
{
}

/// The level that drives everything: the loudest of the microphones. `level` is
/// the local one, `remote` those of the phones.
fn drive_level(level: Real32, remote: &Vec<Real32>) -> (drive: Real32)
    ensures
        is_maximum_of(level, remote@, remote.len() as int, drive),
{
    maximum_of(level, remote)
}

/// Whether something is sounding.
fn is_audible(filled: bool, drive: &Real32) -> (r: bool)
    ensures
        r == (filled && (Real32 { bits: RMS_GATE }).below(*drive)),
{
    filled && Real32::from_bits(RMS_GATE).less(drive)
}

/// What happens in a frame.
pub struct FramePlan {
    /// The level that drives the envelope.
    pub drive: Real32,
    /// Spectra, bands and peak tracks are brought up to date; only with a full
    /// window.
    pub analyze: bool,
    /// Something is sounding: peaks are followed, pitch classes folded and the pitch
    /// tracked. Otherwise tracks miss a frame, the classes fade and the detector
    /// relaxes.
    pub sounding: bool,
}

/// Plans a frame. `filled` says whether there is a full window, `level` is its
/// level, zero without one, and `remote` holds the levels of the phones.
pub fn plan_frame(filled: bool, level: Real32, remote: &Vec<Real32>) -> (plan: FramePlan)
    ensures
        is_maximum_of(level, remote@, remote.len() as int, plan.drive),
        plan.analyze == filled,
        plan.sounding == (filled && (Real32 { bits: RMS_GATE }).below(plan.drive)),
{
    let drive: Real32 = drive_level(level, remote);
    FramePlan { drive, analyze: filled, sounding: is_audible(filled, &drive) }
}

/// The analysis window, once the queue has filled.
pub fn full_window<T: Copy>(ring: &Ring<T>) -> (window: Option<Vec<T>>)
    ensures
        match window {
            Some(w) => ring.buf@.len() >= RING_LEN && w@ == ring.buf@.take(RING_LEN as int),
            None => ring.buf@.len() < RING_LEN,
        },
{
    if ring.buf.len() < RING_LEN {
        return None;
    }
    let all: Vec<T> = contents(&ring.buf);
    let w: Vec<T> = section(&all, 0, RING_LEN);
    assert(w@ =~= ring.buf@.take(RING_LEN as int));
    Some(w)
}

/// Analysis windows: the coherent beam when one exists (it already contains the
/// local microphone), otherwise the newest part of the local window; plus the
/// tails of any phones not in the beam.
pub fn analysis_streams<T: Copy>(beam: &Option<Vec<T>>, window: &Vec<T>, extra_tails: &Vec<Vec<T>>) -> (streams: Vec<
    Vec<T>,
>)
    requires
        window.len() == RING_LEN,
    ensures
        streams.len() == extra_tails.len() + 1,
        streams[0]@ == match beam {
            Some(b) => b@,
            None => window@.skip(RING_LEN - FFT_LEN),
        },
        forall|i: int| 0 <= i < extra_tails.len() ==> (#[trigger] streams[i + 1])@ == extra_tails[i]@,
{
    let mut streams: Vec<Vec<T>> = Vec::new();
    match beam {
        Some(b) => {
            let all: Vec<T> = section(b, 0, b.len());
            assert(all@ =~= b@);
            streams.push(all);
        },
        None => {
            let tail: Vec<T> = section(window, RING_LEN - FFT_LEN, FFT_LEN);
            assert(tail@ =~= window@.skip(RING_LEN - FFT_LEN));
            streams.push(tail);
        },
    }
    let ghost first = streams[0]@;
    let mut i: usize = 0;
    while i < extra_tails.len()
        invariant
            i <= extra_tails.len(),
            streams.len() == i + 1,
            streams[0]@ == first,
            forall|k: int| 0 <= k < i ==> (#[trigger] streams[k + 1])@ == extra_tails[k]@,
        decreases extra_tails.len() - i,
    {
        let tail: Vec<T> = section(&extra_tails[i], 0, extra_tails[i].len());
        assert(tail@ =~= extra_tails[i as int]@);
        let ghost before = streams@;
        streams.push(tail);
        proof {
            assert(streams[0] == before[0]);
            assert forall|k: int| 0 <= k < i + 1 implies (#[trigger] streams[k + 1])@ == extra_tails[k]@ by {
                if k < i {
                    assert(streams[k + 1] == before[k + 1]);
                }
            }
        }
        i = i + 1;
    }
    streams
}

/// The seeds of the separator: the detected pitch, and a second string if there
/// is one.
pub fn seeds(primary: Real32, second: Option<Real32>) -> (r: Vec<Real32>)
    ensures
        r@ == match second {
            Some(f) => seq![primary, f],
            None => seq![primary],
        },
{
    let mut r: Vec<Real32> = Vec::new();
    r.push(primary);
    if let Some(f) = second {
        r.push(f);
    }
    r
}

} // verus!
