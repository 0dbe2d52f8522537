//! What the window shows.

use vstd::prelude::*;

use crate::dsp::peaks::Track;
use crate::dsp::vibrato::Point;
use crate::dsp::chroma::is_chord_of;
use crate::gui::analysis::{degree_label, finished, first_rise, history_lines, key_line, lines_of, wave_points};
use crate::gui::controls::{is_compact, is_narrow, listed, more_phones, phone_status};
use crate::gui::harmony::{blended, faded, Harmony};
use crate::gui::layout::{all_panels, height_of, laid_out, panels_without_phones, Panel, Row};
use crate::gui::layout::{dashboard, dashboard_without_phones, row_starts, row_starts_without_phones};
use crate::gui::scope::{correlates, enough, paired, phase_of, phase_zone, phone_levels, ScopePhone};
use crate::gui::spectrogram::{heat_step_of, scrolled, shaded, Spectrogram};
use crate::gui::spectrum::{attack_decay, labelled, moved, stable_tracks, title, title_of};
use crate::gui::state::{analysis_streams, full_window, plan_frame, seeds, FramePlan};
use crate::gui::state::{passes, shown, since, Display, Heard, Key, Mode, Reading, TunerState};
use crate::gui::tuner::{badges, duet_voices, readout, second_needles, ticks, verdict, voice_label, zone, Tick};
use crate::gui::tuner::{
    is_badge, loudest_first, other_voices, signed, sounding, tick_at, verdict_of, voice_levels, voice_on,
    zone_of, Badge, Verdict, Voice, Zone,
};
use crate::ieee::{Real32, Real64};
use crate::order::{descending_keys, keys_can_be_ordered, precedes, sorted_positions};
use crate::ring::{newest, Ring};
use crate::text::digits;
use crate::tuning::{is_note_of, is_string_of, note, Match, Tuning};

verus! {

/// The zones of the bar: green up to 3 cents on either side, gold up to 15, red beyond and
/// for what is no number. In the green nothing is to be done; a sharp string is to be
/// tuned down, a flat one up.
pub proof fn zones_and_verdicts(cents: Real32)
    ensures
        zone_of(cents) == Zone::Green <==> cents.unsigned().at_most(Real32 { bits: 0x4040_0000 }),
        zone_of(cents) == Zone::Gold <==> !cents.unsigned().at_most(Real32 { bits: 0x4040_0000 })
            && cents.unsigned().at_most(Real32 { bits: 0x4170_0000 }),
        zone_of(cents) == Zone::Red <==> !cents.unsigned().at_most(Real32 { bits: 0x4170_0000 }),
        verdict_of(cents) == Verdict::InTune <==> cents.unsigned().at_most(Real32 { bits: 0x4040_0000 }),
        verdict_of(cents) == Verdict::TuneDown <==> !cents.unsigned().at_most(Real32 { bits: 0x4040_0000 }) && (Real32 {
            bits: 0,
        }).below(cents),
        verdict_of(cents) == Verdict::TuneUp <==> !cents.unsigned().at_most(Real32 { bits: 0x4040_0000 }) && !(Real32 {
            bits: 0,
        }).below(cents),
{
}

/// The marks of the bar stand ten cents apart, from 50 flat to 50 sharp.
pub proof fn marks_are_ten_cents_apart(k: int)
    ensures
        tick_at(0) == -50,
        tick_at(k + 1) == tick_at(k) + 10,
{
}

/// A source is a voice exactly if its level is above the floor: one more source is one
/// more voice if it is. They are shown by falling level, each once.
pub proof fn audible_sources_are_voices(levels: Seq<Real32>, voices: Seq<Voice>, floor: Real32, n: int, i: int, j: int)
    requires
        0 <= n,
        voices.len() <= usize::MAX,
        0 <= i < j < voices.len(),
    ensures
        sounding(levels, voices, floor, 0).len() == 0,
        floor.below(levels[n]) ==> sounding(levels, voices, floor, n + 1) == sounding(levels, voices, floor, n).push(
            voices[n],
        ),
        !floor.below(levels[n]) ==> sounding(levels, voices, floor, n + 1) == sounding(levels, voices, floor, n),
        loudest_first(voices).len() == voices.len(),
        loudest_first(voices)[j].level.total_rank() <= loudest_first(voices)[i].level.total_rank(),
        voices.contains(loudest_first(voices)[i]),
        loudest_first(voices).contains(voices[i]),
{
    let keys = descending_keys(voice_levels(voices));
    let perm = sorted_positions(keys);
    keys_can_be_ordered(keys);
    assert(precedes(keys, perm[i] as int, perm[j] as int));
    assert(loudest_first(voices)[i] == voices[perm[i] as int]);
    assert(perm.contains(i as usize));
    let k = choose|k: int| 0 <= k < perm.len() && perm[k] == i as usize;
    assert(loudest_first(voices)[k] == voices[i]);
}

/// A voice has a needle of its own exactly if it is on another string than the reading.
pub proof fn other_strings_have_needles(string_no: usize, voices: Seq<Voice>, n: int)
    requires
        0 <= n,
    ensures
        other_voices(string_no, voices, 0).len() == 0,
        voices[n].target.string_no != string_no ==> other_voices(string_no, voices, n + 1) == other_voices(
            string_no,
            voices,
            n,
        ).push(voices[n]),
        voices[n].target.string_no == string_no ==> other_voices(string_no, voices, n + 1) == other_voices(
            string_no,
            voices,
            n,
        ),
{
}

/// The voice on a string is the first that is.
pub proof fn first_voice_on_a_string(voices: Seq<Voice>, string_no: usize, from: int, i: int)
    requires
        0 <= from <= i < voices.len(),
    ensures
        match voice_on(voices, string_no, from) {
            Some(v) => v.target.string_no == string_no && exists|k: int|
                from <= k < voices.len() && v == #[trigger] voices[k] && forall|j: int|
                    from <= j < k ==> (#[trigger] voices[j]).target.string_no != string_no,
            None => voices[i].target.string_no != string_no,
        },
    decreases voices.len() - from,
{
    if voices[from].target.string_no == string_no {
        assert(voice_on(voices, string_no, from) == Some(voices[from]));
    } else if from + 1 < voices.len() {
        first_voice_on_a_string(voices, string_no, from + 1, if i > from {
            i
        } else {
            from + 1
        });
        if voice_on(voices, string_no, from + 1) is Some {
            let v = voice_on(voices, string_no, from + 1)->0;
            let k = choose|k: int|
                from + 1 <= k < voices.len() && v == #[trigger] voices[k] && forall|j: int|
                    from + 1 <= j < k ==> (#[trigger] voices[j]).target.string_no != string_no;
            assert(v == voices[k]);
        }
    } else {
        assert(voice_on(voices, string_no, from + 1) is None);
    }
}

/// There is a badge for every string, the 6th first, named by its number and its target
/// with the cejilla. The string that is read is lit; another one shows the zone of the
/// voice on it, if there is one.
pub proof fn badges_show_the_strings(
    b: Badge,
    i: int,
    tuning: Tuning,
    capo: int,
    active: Option<usize>,
    voices: Seq<Voice>,
    compact: bool,
)
    requires
        0 <= i < 6,
        is_badge(b, i, tuning, capo, active, voices, compact),
    ensures
        b.string_no == 6 - i,
        b.active <==> active == Some(b.string_no),
        b.active ==> b.duet is None,
        !b.active ==> (b.duet is Some <==> voice_on(voices, b.string_no, 0) is Some),
        b.duet matches Some(z) ==> z == zone_of(voice_on(voices, b.string_no, 0)->0.target.cents),
        b.label@ == digits((6 - i) as nat) + (if compact {
            "·"@
        } else {
            " · "@
        }) + note(tuning.open()[i] + capo),
{
}

/// Of the tracks the first five are labelled that were seen eight times or more and lie
/// below 1500 hertz: one more track is labelled exactly if it is such a one and there is
/// room.
pub proof fn old_tracks_are_labelled(tracks: Seq<Track>, n: int)
    requires
        0 <= n,
    ensures
        labelled(tracks, 0).len() == 0,
        ({
            let before = labelled(tracks, n);
            let taken = before.len() < 5 && tracks[n].age >= 8 && tracks[n].freq.below(Real32 { bits: 0x44bb_8000 });
            &&& taken ==> labelled(tracks, n + 1) == before.push(tracks[n])
            &&& !taken ==> labelled(tracks, n + 1) == before
        }),
{
}

/// The curve jumps to a level above it, and otherwise glides to the blend.
pub proof fn curve_attacks_at_once(shown: Real64, level: Real64, blend: Real64)
    ensures
        shown.below(level) ==> moved(shown, level, blend) == level,
        !shown.below(level) ==> moved(shown, level, blend) == blend,
{
}

/// The history is drawn in lines: a point that is a number goes on with the line, a gap
/// ends it, and of the lines those of two points or more are drawn.
pub proof fn points_make_lines(history: Seq<Point>, n: int)
    requires
        0 <= n,
    ensures
        lines_of(history, 0).done.len() == 0 && lines_of(history, 0).open.len() == 0,
        ({
            let before = lines_of(history, n);
            let after = lines_of(history, n + 1);
            let done = if before.open.len() >= 2 {
                before.done.push(before.open)
            } else {
                before.done
            };
            &&& finished(before) == done
            &&& history[n].cents.nan() ==> after.done == done && after.open.len() == 0
            &&& !history[n].cents.nan() ==> after.done == before.done && after.open == before.open.push(history[n])
        }),
{
}

/// The waveform is anchored where it first rises through zero: at a sample that is zero or
/// less with one above zero behind it, and none before is such a one.
pub proof fn wave_is_anchored_at_a_rise(samples: Seq<Real32>, from: int, end: int, i: int)
    requires
        0 <= from <= i,
        i + 1 < end,
    ensures
        match first_rise(samples, from, end) {
            Some(k) => {
                &&& from <= k && k + 1 < end
                &&& samples[k].at_most(Real32 { bits: 0 })
                &&& (Real32 { bits: 0 }).below(samples[k + 1])
                &&& i < k ==> !(samples[i].at_most(Real32 { bits: 0 }) && (Real32 { bits: 0 }).below(samples[i + 1]))
            },
            None => !(samples[i].at_most(Real32 { bits: 0 }) && (Real32 { bits: 0 }).below(samples[i + 1])),
        },
    decreases end - from,
{
    let here = samples[from].at_most(Real32 { bits: 0 }) && (Real32 { bits: 0 }).below(samples[from + 1]);
    if !here {
        if from < i {
            wave_is_anchored_at_a_rise(samples, from + 1, end, i);
        } else if from + 2 < end {
            wave_is_anchored_at_a_rise(samples, from + 1, end, from + 1);
        } else {
            assert(first_rise(samples, from + 1, end) is None);
        }
    }
}

/// The scope pairs the last samples of both, up to 2048, sample by sample from the end;
/// it needs more than 256. Above 0.4 the phase is green, above -0.2 gold, else red.
pub proof fn scope_pairs_the_newest<T>(window: Seq<T>, samples: Seq<T>, i: int, n: nat, r: Real32)
    requires
        window.len() >= 2048,
        0 <= i < paired(window, samples).len(),
    ensures
        ({
            let k = if samples.len() < 2048 {
                samples.len() as int
            } else {
                2048
            };
            &&& paired(window, samples).len() == k
            &&& paired(window, samples)[i] == (window[window.len() - k + i], samples[samples.len() - k + i])
        }),
        enough(n) <==> n > 256,
        phase_of(r) == Zone::Green <==> (Real32 { bits: 0x3ecc_cccd }).below(r),
        phase_of(r) == Zone::Gold <==> !(Real32 { bits: 0x3ecc_cccd }).below(r) && (Real32 { bits: 0xbe4c_cccd }).below(
            r,
        ),
        phase_of(r) == Zone::Red <==> !(Real32 { bits: 0xbe4c_cccd }).below(r),
{
    let right = crate::ring::newest(samples, 2048);
    let left = crate::ring::newest(window, right.len());
    assert(paired(window, samples)[i] == (left[i], right[i]));
}

/// A new column stands at the right and every other moves one to the left; the highest
/// band is on top. Every band has the shade of its level, or all the quiet one in a frame
/// that is not audible.
pub proof fn columns_are_shaded_and_scroll<P, S: Fn(Real32) -> P>(
    shade: S,
    quiet: P,
    audible: bool,
    bands: Seq<Real32>,
    column: Seq<P>,
    before: Seq<P>,
    after: Seq<P>,
    row: int,
    col: int,
    t: Real32,
)
    requires
        bands.len() == 61,
        shaded(shade, quiet, audible, bands, column),
        scrolled(before, after, column),
        0 <= row < 61,
        0 <= col < 480,
    ensures
        column.len() == 61,
        audible ==> call_ensures(shade, (bands[row],), column[row]),
        !audible ==> column[row] == quiet,
        col < 479 ==> after[row * 480 + col] == before[row * 480 + col + 1],
        col == 479 ==> after[row * 480 + col] == column[60 - row],
        heat_step_of(t) == 0 <==> t.at_most(Real32 { bits: 0x3eb3_3333 }),
        heat_step_of(t) <= 1 <==> t.at_most(Real32 { bits: 0x3f1e_b852 }),
        heat_step_of(t) <= 2 <==> t.at_most(Real32 { bits: 0x3f59_999a }),
        heat_step_of(t) <= 3 <==> t.at_most(Real32 { bits: 0x3f80_0000 }),
        0 <= heat_step_of(t) <= 4,
{
    assert(crate::gui::spectrogram::color_at(after, row, col) == after[row * 480 + col]);
    assert(column[row] == column[row]);
}

/// A detected pitch is shown at once, held for 12 frames and put in the history with its
/// time. A frame without one counts the hold down; the first without a hold takes the
/// reading away and marks the gap, and one without a reading changes nothing.
pub proof fn readings_are_shown_and_held(d: Display, heard: Option<Heard>, now: Real64)
    ensures
        heard matches Some(h) ==> {
            let after = shown(d, heard, now);
            &&& after.reading == Some(h.reading)
            &&& after.hold == 12
            &&& after.history == d.history.push(Point { time: now, cents: h.cents })
        },
        heard is None && d.hold > 0 ==> {
            let after = shown(d, heard, now);
            &&& after.reading == d.reading
            &&& after.hold == d.hold - 1
            &&& after.history == d.history
        },
        heard is None && d.hold == 0 && d.reading is Some ==> {
            let after = shown(d, heard, now);
            &&& after.reading is None
            &&& after.hold == 0
            &&& after.history.drop_last() == d.history
            &&& after.history.len() == d.history.len() + 1
            &&& after.history.last().time == now
            &&& after.history.last().cents.nan()
        },
        heard is None && d.hold == 0 && d.reading is None ==> shown(d, heard, now) == d,
{
    if heard is None && d.hold == 0 && d.reading is Some {
        assert(shown(d, heard, now).history.drop_last() =~= d.history);
    }
}

/// After a frame the history has lost its oldest points, those before the time 12 seconds
/// earlier, and no other.
pub proof fn old_points_go<M: Fn(Real64, Real64) -> Real64>(
    minus: M,
    before: Display,
    heard: Option<Heard>,
    now: Real64,
    after: Display,
) -> (from: Real64)
    requires
        passes(minus, before, heard, now, after),
    ensures
        call_ensures(minus, (now, Real64 { bits: 0x4028_0000_0000_0000 }), from),
        after.reading == shown(before, heard, now).reading,
        after.hold == shown(before, heard, now).hold,
        ({
            let all = shown(before, heard, now).history;
            let gone = all.len() - after.history.len();
            &&& 0 <= gone
            &&& after.history == all.skip(gone)
            &&& forall|i: int| 0 <= i < gone ==> (#[trigger] all[i]).time.below(from)
            &&& after.history.len() > 0 ==> !after.history[0].time.below(from)
        }),
{
    let next = shown(before, heard, now);
    let from = choose|from: Real64| #[trigger]
        call_ensures(minus, (now, Real64 { bits: 0x4028_0000_0000_0000 }), from) && after == (Display {
            history: since(next.history, from),
            ..next
        });
    old_ones_go(next.history, from);
    from
}

proof fn old_ones_go(all: Seq<Point>, from: Real64)
    ensures
        since(all, from).len() <= all.len(),
        since(all, from) == all.skip(all.len() - since(all, from).len()),
        forall|i: int| 0 <= i < all.len() - since(all, from).len() ==> (#[trigger] all[i]).time.below(from),
        since(all, from).len() > 0 ==> !since(all, from)[0].time.below(from),
    decreases all.len(),
{
    if all.len() > 0 && all[0].time.below(from) {
        let rest = all.skip(1);
        old_ones_go(rest, from);
        let kept = since(all, from);
        assert(kept =~= all.skip(all.len() - kept.len()));
        assert forall|i: int| 0 <= i < all.len() - kept.len() implies (#[trigger] all[i]).time.below(from) by {
            if i > 0 {
                assert(rest[i - 1] == all[i]);
            }
        }
    } else {
        assert(all.skip(0) =~= all);
    }
}

/// A reading has the pitch and everything of its target.
pub proof fn reading_is_of_its_target(freq: Real32, m: Match)
    ensures
        ({
            let r = Reading::from_match(freq, m);
            r.freq == freq && r.string_no == m.string_no && r.target_midi == m.target_midi && r.target_freq
                == m.target_freq && r.cents == m.cents
        }),
{
}

/// The keys: `t` changes the tuning of a guitar, up and down move the cejilla by one fret
/// between 0 and 9, and a fret that there is not becomes the nearest there is.
pub proof fn keys_move_one_step(mode: Mode, tuning: Tuning, capo: int, fret: int)
    requires
        0 <= capo <= 9,
    ensures
        TunerState::pressed(mode, tuning, capo, Key::T).1 == capo,
        TunerState::pressed(mode, tuning, capo, Key::T).0 == tuning <==> mode != Mode::Guitar,
        TunerState::pressed(mode, tuning, capo, Key::Up) == (tuning, if capo < 9 {
            capo + 1
        } else {
            9
        }),
        TunerState::pressed(mode, tuning, capo, Key::Down) == (tuning, if capo > 0 {
            capo - 1
        } else {
            0
        }),
        0 <= TunerState::clamped(fret) <= 9,
        0 <= fret <= 9 ==> TunerState::clamped(fret) == fret,
        fret < 0 ==> TunerState::clamped(fret) == 0,
        fret > 9 ==> TunerState::clamped(fret) == 9,
{
}

/// Every class glides or fades, each by itself.
pub proof fn every_class_glides_or_fades<B: Fn(Real32, Real32) -> Real32, F: Fn(Real32) -> Real32>(
    blend: B,
    fade: F,
    classes: Seq<Real32>,
    fresh: Seq<Real32>,
    next: Seq<Real32>,
    dim: Seq<Real32>,
    i: int,
)
    requires
        blended(blend, classes, fresh, next),
        faded(fade, classes, dim),
        0 <= i < classes.len(),
    ensures
        next.len() == classes.len(),
        dim.len() == classes.len(),
        call_ensures(blend, (classes[i], fresh[i]), next[i]),
        call_ensures(fade, (classes[i],), dim[i]),
{
}

/// Spectra are 310 pixels high, pitch classes and scope 230, the others 180; a row is as
/// high as its cards.
pub proof fn rows_are_as_high_as_their_cards(panels: Seq<Panel>, starts: Seq<usize>, rows: Seq<Row>, r: int, k: int)
    requires
        laid_out(panels, starts, rows),
        0 <= r < rows.len(),
        0 <= k < rows[r].panels.len(),
        starts[r] <= starts[r + 1] <= panels.len(),
    ensures
        rows.len() + 1 == starts.len(),
        rows[r].panels.len() == starts[r + 1] - starts[r],
        rows[r].panels[k] == panels[starts[r] + k],
        rows[r].height == (match rows[r].panels[k] {
            Panel::Spectrum | Panel::Spectrogram => 310u32,
            Panel::Chroma | Panel::Scope => 230u32,
            _ => 180u32,
        }),
{
    assert(rows[r].panels@ == panels.subrange(starts[r] as int, starts[r + 1] as int));
    assert(height_of(rows[r].panels[k]) == rows[r].height);
}

/// On a wide screen the spectra stand side by side, under them pitch classes and scope,
/// and under these history, waveform and texture; on a narrow one each has its own row.
/// Where there are no phones the scope is left out.
pub proof fn cards_stand_in_their_rows(rows: Seq<Row>, narrow: bool, phones: bool)
    requires
        phones ==> laid_out(all_panels(), row_starts(narrow), rows),
        !phones ==> laid_out(panels_without_phones(), row_starts_without_phones(narrow), rows),
    ensures
        !narrow ==> {
            &&& rows.len() == 3
            &&& rows[0].panels@ == seq![Panel::Spectrum, Panel::Spectrogram]
            &&& rows[1].panels@ == (if phones {
                seq![Panel::Chroma, Panel::Scope]
            } else {
                seq![Panel::Chroma]
            })
            &&& rows[2].panels@ == seq![Panel::History, Panel::Waveform, Panel::Visibility]
        },
        narrow ==> {
            let order = if phones {
                seq![
                    Panel::Spectrum,
                    Panel::Spectrogram,
                    Panel::Chroma,
                    Panel::Scope,
                    Panel::History,
                    Panel::Waveform,
                    Panel::Visibility,
                ]
            } else {
                seq![
                    Panel::Spectrum,
                    Panel::Spectrogram,
                    Panel::Chroma,
                    Panel::History,
                    Panel::Waveform,
                    Panel::Visibility,
                ]
            };
            &&& rows.len() == order.len()
            &&& forall|r: int| 0 <= r < rows.len() ==> (#[trigger] rows[r]).panels@ == seq![order[r]]
        },
{
    if !narrow {
        let (a, b, c) = (rows[0], rows[1], rows[2]);
        assert(a.panels@ =~= seq![Panel::Spectrum, Panel::Spectrogram]);
        if phones {
            assert(b.panels@ =~= seq![Panel::Chroma, Panel::Scope]);
        } else {
            assert(b.panels@ =~= seq![Panel::Chroma]);
        }
        assert(c.panels@ =~= seq![Panel::History, Panel::Waveform, Panel::Visibility]);
    } else {
        let order = if phones {
            all_panels()
        } else {
            panels_without_phones()
        };
        assert forall|r: int| 0 <= r < rows.len() implies (#[trigger] rows[r]).panels@ == seq![order[r]] by {
            assert(rows[r].panels@ =~= seq![order[r]]);
        }
    }
}

/// The title counts the microphones: those of the beam from two on, and those that are
/// fused beside it; or all that are fused, if there is more than one.
pub proof fn title_counts_the_microphones(fused: int, beam: int)
    requires
        fused >= 1,
        beam >= 0,
    ensures
        beam >= 2 && fused == 1 ==> title_of(fused, beam) == "SPECTRUM · beam ×"@ + digits(beam as nat) + " mics"@ + ""@
            + " · tracked peaks"@,
        beam >= 2 && fused > 1 ==> title_of(fused, beam) == "SPECTRUM · beam ×"@ + digits(beam as nat) + " mics"@ + (
        " +"@ + digits((fused - 1) as nat) + " fused"@) + " · tracked peaks"@,
        beam < 2 && fused > 1 ==> title_of(fused, beam) == "SPECTRUM · fused ×"@ + digits(fused as nat)
            + " mics · tracked peaks"@,
        beam < 2 && fused == 1 ==> title_of(fused, beam) == "SPECTRUM · tracked peaks"@,
{
}

/// A sharp mark has a plus, and the phones are ranked by their own levels.
pub proof fn marks_are_signed<T>(i: int, phones: Seq<ScopePhone<T>>, k: int)
    requires
        0 <= k < phones.len(),
    ensures
        i > 0 ==> signed(i) == "+"@ + digits(i as nat),
        i == 0 ==> signed(i) == digits(0),
        i < 0 ==> signed(i) == seq!['-'] + digits((-i) as nat),
        phone_levels(phones).len() == phones.len(),
        phone_levels(phones)[k] == phones[k].level,
{
}

/// What happens in a frame: the loudest microphone drives it; it is analyzed exactly if the
/// window is full, and something sounds exactly if it is and the drive is above 0.004. The
/// window is full with 16384 samples, of which all are taken.
pub proof fn frames_are_planned<T: Copy>(
    filled: bool,
    level: Real32,
    remote: &Vec<Real32>,
    plan: FramePlan,
    i: int,
    ring: &Ring<T>,
    window: Option<Vec<T>>,
)
    requires
        call_ensures(plan_frame, (filled, level, remote), plan),
        call_ensures(full_window::<T>, (ring,), window),
        0 <= i < remote.len(),
    ensures
        plan.analyze == filled,
        plan.sounding == (filled && (Real32 { bits: 0x3b83_126f }).below(plan.drive)),
        !level.nan() ==> level.at_most(plan.drive),
        !remote[i].nan() ==> remote[i].at_most(plan.drive),
        plan.drive == level || exists|k: int| 0 <= k < remote.len() && plan.drive == #[trigger] remote@[k],
        window is Some <==> ring.buf@.len() >= 16384,
        window matches Some(w) ==> w@ == ring.buf@.take(16384),
{
    assert(remote@[i] == remote[i]);
}

/// What is analyzed: the beam where there is one, else the newest 8192 samples of the local
/// window, and behind it every tail of a phone that is not in the beam.
pub proof fn beam_or_window_is_analyzed<T: Copy>(
    beam: &Option<Vec<T>>,
    window: &Vec<T>,
    tails: &Vec<Vec<T>>,
    streams: Vec<Vec<T>>,
    i: int,
    primary: Real32,
    second: Option<Real32>,
    r: Vec<Real32>,
)
    requires
        window.len() == 16384,
        call_ensures(analysis_streams::<T>, (beam, window, tails), streams),
        call_ensures(seeds, (primary, second), r),
        0 <= i < tails.len(),
    ensures
        streams.len() == tails.len() + 1,
        beam matches Some(b) ==> streams[0]@ == b@,
        beam is None ==> streams[0]@ == window@.subrange(8192, 16384),
        streams[i + 1]@ == tails[i]@,
        r@ == (match second {
            Some(f) => seq![primary, f],
            None => seq![primary],
        }),
{
    assert(window@.skip(8192) =~= window@.subrange(8192, 16384));
}

/// What the tuner does with a frame: it is shown, and no setting changes. A pitch is aimed
/// at a string of the guitar, or at a note of the voice.
pub proof fn tuner_hears_and_aims<
    M: Fn(Real64, Real64) -> Real64,
    N: Fn(Real32) -> i32,
    F: Fn(i32) -> Real32,
    C: Fn(Real32, Real32) -> Real32,
>(
    s: &mut TunerState,
    heard: &Option<Heard>,
    now: Real64,
    minus: M,
    a: &TunerState,
    freq: Real32,
    round: N,
    pitch: F,
    between: C,
    m: Match,
    e: &mut TunerState,
    drive: Real32,
    envelope: Vec<Real32>,
)
    requires
        call_ensures(TunerState::hear::<M>, (s, heard, now, minus), ()),
        call_ensures(TunerState::aim::<N, F, C>, (a, freq, round, pitch, between), m),
        call_ensures(TunerState::push_envelope, (e, drive), envelope),
    ensures
        passes(minus, old(s).display(), *heard, now, final(s).display()),
        final(s).mode == old(s).mode && final(s).tuning == old(s).tuning && final(s).capo == old(s).capo,
        a.mode == Mode::Guitar ==> is_string_of(freq, a.tuning, a.capo as int, pitch, between, m),
        a.mode == Mode::Voice ==> is_note_of(freq, round, pitch, between, m),
        final(e).envelope@ == newest(old(e).envelope@.push(drive), 256),
        envelope@ == final(e).envelope@,
        final(s).display().history == final(s).history@ && final(s).display().reading == final(s).reading
            && final(s).display().hold == final(s).hold,
{
}

/// What the controls do: each changes its own setting. Another mode takes the reading and
/// the history away; a key starts the detector afresh exactly if it changed the tuning.
pub proof fn controls_change_one_setting(
    a: &mut TunerState,
    mode: Mode,
    changed: bool,
    b: &mut TunerState,
    tuning: Tuning,
    c: &mut TunerState,
    fret: i32,
    d: &mut TunerState,
    key: Key,
    restart: bool,
)
    requires
        call_ensures(TunerState::set_mode, (a, mode), changed),
        call_ensures(TunerState::set_tuning, (b, tuning), ()),
        call_ensures(TunerState::set_capo, (c, fret), ()),
        call_ensures(TunerState::press, (d, key), restart),
    ensures
        changed == (old(a).mode != mode),
        final(a).mode == mode && final(a).tuning == old(a).tuning && final(a).capo == old(a).capo,
        changed ==> final(a).reading is None && final(a).history@.len() == 0,
        !changed ==> final(a).reading == old(a).reading && final(a).history@ == old(a).history@,
        final(b).tuning == tuning && final(b).mode == old(b).mode && final(b).capo == old(b).capo,
        final(b).reading == old(b).reading,
        final(c).capo == (if fret < 0 {
            0
        } else if fret > 9 {
            9
        } else {
            fret as int
        }),
        final(c).mode == old(c).mode && final(c).tuning == old(c).tuning && final(c).reading == old(c).reading,
        restart == (key == Key::T && old(d).mode == Mode::Guitar),
        restart == (final(d).tuning != old(d).tuning),
        key == Key::T ==> final(d).capo == old(d).capo,
        key == Key::Up ==> final(d).capo == TunerState::clamped(old(d).capo + 1),
        key == Key::Down ==> final(d).capo == TunerState::clamped(old(d).capo - 1),
        final(d).mode == old(d).mode,
{
    let before = (old(b).display(), old(c).display(), old(a).display());
    assert(final(b).display().reading == final(b).reading);
    assert(final(c).display().reading == final(c).reading);
}

/// The separator is fed exactly if a guitar string sounds and is read, with the pitch that
/// is read and the samples that arrived since, at most a whole window; they are counted in
/// any case.
pub proof fn separator_is_fed_what_arrived(s: &mut TunerState, audible: bool, total: u64, input: Option<(Real32, usize)>)
    requires
        old(s).sep_total <= total,
        call_ensures(TunerState::separate, (s, audible, total), input),
    ensures
        final(s).sep_total == total,
        input is Some <==> old(s).mode == Mode::Guitar && audible && old(s).reading is Some,
        input matches Some((primary, fresh)) ==> {
            &&& primary == old(s).reading->0.freq
            &&& fresh <= 16384
            &&& fresh <= total - old(s).sep_total
            &&& fresh == 16384 || fresh == total - old(s).sep_total
        },
{
}

/// What is shown of the harmony: while something sounds the classes glide, the chord is
/// looked for in them, and the key takes in the frame; in silence the classes fade, there
/// is no chord, and the key stays.
pub proof fn harmony_listens<
    B: Fn(Real32, Real32) -> Real32,
    F: Fn(Real32) -> Real32,
    N: Fn(Vec<Real32>) -> Real32,
    D: Fn(Real32, Real32, bool) -> Real32,
    S: Fn(Real32, Real32) -> Real32,
    M: Fn(Real32, Real32) -> Real32,
    A: Fn(Real32, Real32) -> Real32,
    E: Fn(Vec<Real32>) -> Real32,
    C: Fn(Vec<Real32>, Real32, bool) -> Real32,
>(
    h: &mut Harmony,
    audible: bool,
    fresh: &Vec<Real32>,
    blend: B,
    fade: F,
    norm: N,
    dot: D,
    score: S,
    minus: M,
    smooth: A,
    mean: E,
    correlate: C,
)
    requires
        call_ensures(
            Harmony::listen::<B, F, N, D, S, M, A, E, C>,
            (h, audible, fresh, blend, fade, norm, dot, score, minus, smooth, mean, correlate),
            (),
        ),
    ensures
        audible ==> {
            &&& blended(blend, old(h).classes@, fresh@, final(h).classes@)
            &&& is_chord_of(norm, dot, score, minus, final(h).classes@, final(h).chord)
            &&& old(h).keys.updated(smooth, fresh@, final(h).keys)
            &&& final(h).keys.is_key(mean, correlate, final(h).key)
        },
        !audible ==> {
            &&& faded(fade, old(h).classes@, final(h).classes@)
            &&& final(h).chord is None
            &&& final(h).keys == old(h).keys
            &&& final(h).key == old(h).key
        },
{
}

/// What the tuner's strip shows of a reading and of the voices.
pub proof fn strip_shows_reading_and_voices<P: Fn(Real32, Real32) -> Real32>(
    cents: &Real32,
    z: Zone,
    reading: &Option<Reading>,
    v: Option<Verdict>,
    levels: &Vec<Real32>,
    loudest: Real32,
    voices: &Vec<Voice>,
    part: P,
    shown: Vec<Voice>,
    needles: Vec<Voice>,
    tuning: Tuning,
    capo: i32,
    active: Option<usize>,
    compact: bool,
    strings: Vec<Badge>,
    i: int,
    out: Option<(String, Zone)>,
)
    requires
        call_ensures(zone, (cents,), z),
        call_ensures(verdict, (reading,), v),
        call_ensures(duet_voices::<P>, (levels, loudest, voices, part), shown),
        call_ensures(second_needles, (reading, voices), needles),
        call_ensures(badges, (tuning, capo, active, voices, compact), strings),
        call_ensures(readout, (reading,), out),
        0 <= i < 6,
    ensures
        z == zone_of(*cents),
        v is Some <==> reading is Some,
        v matches Some(x) ==> x == verdict_of(reading->0.cents),
        loudest.at_most(Real32 { bits: 0 }) ==> shown.len() == 0,
        !loudest.at_most(Real32 { bits: 0 }) ==> exists|floor: Real32| #[trigger]
            call_ensures(part, (loudest, Real32 { bits: 0x3dcc_cccd }), floor) && shown@ == loudest_first(
                sounding(levels@, voices@, floor, levels.len() as int),
            ),
        reading is None ==> needles.len() == 0,
        reading matches Some(x) ==> needles@ == other_voices(x.string_no, voices@, voices.len() as int),
        strings.len() == 6,
        is_badge(strings[i], i, tuning, capo as int, active, voices@, compact),
        out is Some <==> reading is Some,
        out matches Some((name, zone)) ==> name@ == note(reading->0.target_midi as int) && zone == zone_of(
            reading->0.cents,
        ),
{
}

/// What the cards show: labelled tracks, the curve, the lines of the history, and the
/// waveform, of which every eighth of 4096 samples is drawn from the rise on.
pub proof fn cards_show_what_is_measured(
    tracks: &Vec<Track>,
    labels: Vec<Track>,
    curve: &Vec<Real64>,
    levels: &Vec<Real64>,
    blends: &Vec<Real64>,
    next: Vec<Real64>,
    history: &Vec<Point>,
    lines: Vec<Vec<Point>>,
    window: &Vec<Real32>,
    points: Vec<Real32>,
    i: int,
    k: int,
    fused: usize,
    beam: usize,
    t: String,
)
    requires
        curve.len() == levels.len() && curve.len() == blends.len(),
        window.len() >= 8192,
        call_ensures(stable_tracks, (tracks,), labels),
        call_ensures(attack_decay, (curve, levels, blends), next),
        call_ensures(history_lines, (history,), lines),
        call_ensures(wave_points, (window,), points),
        call_ensures(title, (fused, beam), t),
        0 <= i < curve.len(),
        0 <= k < 512,
    ensures
        labels@ == labelled(tracks@, tracks.len() as int),
        next.len() == curve.len(),
        next[i] == moved(curve[i], levels[i], blends[i]),
        lines.len() == finished(lines_of(history@, history.len() as int)).len(),
        forall|j: int| 0 <= j < lines.len() ==> (#[trigger] lines[j])@ == finished(lines_of(history@, history.len() as int))[j],
        ({
            let tail = window@.subrange(window.len() - 8192, window.len() as int);
            let at: int = match first_rise(tail, 0, 4096) {
                Some(r) => r,
                None => 0,
            };
            &&& points.len() == 512
            &&& points[k] == tail[at + 8 * k]
        }),
        t@ == title_of(fused as int, beam as int),
{
    let all = crate::gui::beam::views(lines@);
    assert forall|j: int| 0 <= j < lines.len() implies (#[trigger] lines[j])@ == finished(
        lines_of(history@, history.len() as int),
    )[j] by {
        assert(all[j] == lines[j]@);
    }
    assert(all.len() == lines.len());
    assert(window@.skip(window.len() - 8192) =~= window@.subrange(window.len() - 8192, window.len() as int));
}

/// The picture takes in one column per frame, and the dashboard stands as it should.
pub proof fn pictures_and_rows_are_as_they_should<P: Copy, S: Fn(Real32) -> P>(
    s: &mut Spectrogram<P>,
    bands: &Vec<Real32>,
    audible: bool,
    quiet: P,
    shade: S,
    narrow: bool,
    rows: Vec<Row>,
    bare: Vec<Row>,
)
    requires
        call_ensures(Spectrogram::<P>::push::<S>, (s, bands, audible, quiet, shade), ()),
        call_ensures(dashboard, (narrow,), rows),
        call_ensures(dashboard_without_phones, (narrow,), bare),
    ensures
        exists|column: Seq<P>| #[trigger]
            shaded(shade, quiet, audible, bands@, column) && scrolled(old(s).pixels@, final(s).pixels@, column),
        laid_out(all_panels(), row_starts(narrow), rows@),
        laid_out(panels_without_phones(), row_starts_without_phones(narrow), bare@),
{
}

/// The phase has its zone, and there is a correlation exactly if there are two pairs or more
/// and both sides vary by more than 1e-12.
pub proof fn phases_are_of_what_varies(
    r: &Real32,
    z: Zone,
    n: usize,
    left: &Real32,
    right: &Real32,
    both: bool,
)
    requires
        call_ensures(phase_zone, (r,), z),
        call_ensures(correlates, (n, left, right), both),
    ensures
        z == phase_of(*r),
        both == (n >= 2 && !left.at_most(Real32 { bits: 0x2b8c_bccc }) && !right.at_most(Real32 { bits: 0x2b8c_bccc })),
{
}

/// What the controls list: at most four phones, the last first, and how many more there
/// are; the beam from two microphones on. A narrow window has less than 700 points, a
/// compact badge less than 54.
pub proof fn controls_list_the_phones(
    width: &Real32,
    narrow: bool,
    compact: bool,
    phones: usize,
    order: Vec<usize>,
    more: Option<String>,
    mics: usize,
    status: (String, bool),
    i: int,
)
    requires
        call_ensures(is_narrow, (width,), narrow),
        call_ensures(is_compact, (width,), compact),
        call_ensures(listed, (phones,), order),
        call_ensures(more_phones, (phones,), more),
        call_ensures(phone_status, (phones, mics), status),
    ensures
        narrow == width.below(Real32 { bits: 0x442f_0000 }),
        compact == width.below(Real32 { bits: 0x4258_0000 }),
        order.len() == (if phones < 4 {
            phones as int
        } else {
            4
        }),
        0 <= i < order.len() ==> order[i] + i == order.len() - 1,
        more is Some <==> phones > 4,
        more matches Some(t) ==> t@ == "+"@ + digits((phones - 4) as nat) + " more"@,
        status.1 == (mics >= 2),
        mics >= 2 ==> status.0@ == "beamforming ×"@ + digits(mics as nat),
        mics < 2 ==> status.0@ == digits(phones as nat) + " phone mic(s) · seeking lock"@,
{
}

/// What is written on the cards.
pub proof fn labels_say_what_is_shown(
    degree: usize,
    label: String,
    key: &Option<String>,
    line: String,
    voice: &Voice,
    name: String,
    marks: Vec<Tick>,
    k: int,
)
    requires
        degree < 10,
        call_ensures(degree_label, (degree,), label),
        call_ensures(key_line, (key,), line),
        call_ensures(voice_label, (voice,), name),
        call_ensures(ticks, (), marks),
        0 <= k < 11,
    ensures
        degree < 9 ==> label@ == digits(degree as nat),
        degree == 9 ==> label@ == digits(9) + "+"@,
        key matches Some(x) ==> line@ == "key: "@ + x@,
        key is None ==> line@ == "key: listening…"@,
        name@ == digits(voice.target.string_no as nat) + " · "@ + note(voice.target.target_midi as int),
        marks.len() == 11,
        marks[k].cents == 10 * k - 50,
        marks[k].tall == (k == 5),
        marks[k].label is Some <==> k == 0 || k == 5 || k == 10,
        marks[k].label matches Some(l) ==> l@ == signed(10 * k - 50),
{
    assert(marks[k].cents == tick_at(k));
}

} // verus!
