use flamenco_tuner::dsp::vibrato::Point;
use flamenco_tuner::gui::analysis::{
    degree_label, history_lines, key_line, trigger_point, wave_points, WAVE_VIEW,
};
use flamenco_tuner::gui::controls::{
    device_label, is_compact, is_narrow, listed, more_phones, phone_status,
};
use flamenco_tuner::gui::harmony::Harmony;
use flamenco_tuner::gui::layout::{dashboard, dashboard_without_phones, Panel};
use flamenco_tuner::gui::scope::{correlates, phase_zone, stereo_pairs, unavailable, ScopePhone};
use flamenco_tuner::gui::spectrogram::{heat_step, Spectrogram, COLS};
use flamenco_tuner::gui::spectrum::{attack_decay, title};
use flamenco_tuner::gui::state::{
    analysis_streams, plan_frame, seeds, Heard, Key, Mode, Reading, TunerState,
    ENVELOPE_LEN, HOLD_FRAMES,
};
use flamenco_tuner::gui::tuner::{
    badges, duet_voices, loudest_source, readout, second_needles, ticks, verdict, voice_label, zone,
    Verdict, Voice, Zone,
};
use flamenco_tuner::ieee::{Real32, Real64};
use flamenco_tuner::tuning::{Match, Tuning};

fn real32(v: f32) -> Real32 {
    Real32::from_bits(v.to_bits())
}

fn real64(v: f64) -> Real64 {
    Real64::from_bits(v.to_bits())
}

fn minus64(a: Real64, b: Real64) -> Real64 {
    real64(f64::from_bits(a.bits) - f64::from_bits(b.bits))
}

fn reals(values: &[f32]) -> Vec<Real32> {
    values.iter().map(|&v| real32(v)).collect()
}

fn target(string_no: usize, midi: i32, cents: f32) -> Match {
    Match {
        string_no,
        target_midi: midi,
        target_freq: real32(100.0),
        cents: real32(cents),
    }
}

fn heard(cents: f32) -> Option<Heard> {
    Some(Heard {
        reading: Reading::new(real32(110.0), &target(5, 45, cents)),
        cents: real64(cents as f64),
    })
}

fn rows(state: &TunerState) -> Vec<(f64, f64)> {
    state
        .history
        .iter()
        .map(|p| (f64::from_bits(p.time.bits), f64::from_bits(p.cents.bits)))
        .collect()
}

#[test]
fn reading_is_held_and_then_ends() {
    let mut state = TunerState::new();
    state.hear(&heard(2.0), real64(0.0), minus64);
    assert_eq!(state.hold, HOLD_FRAMES);
    for k in 1..=12 {
        state.hear(&None, real64(k as f64 * 0.5), minus64);
        assert!(state.reading.is_some());
        assert_eq!(rows(&state).len(), 1);
    }
    state.hear(&None, real64(6.5), minus64);
    assert!(state.reading.is_none());
    let after = rows(&state);
    assert_eq!(after.len(), 2);
    assert_eq!(after[1].0, 6.5);
    assert!(after[1].1.is_nan());
    // More silence adds nothing.
    state.hear(&None, real64(7.0), minus64);
    assert_eq!(rows(&state).len(), 2);
}

#[test]
fn history_is_recent() {
    let mut state = TunerState::new();
    for k in 0..30 {
        let now = k as f64;
        state.hear(&heard(k as f32), real64(now), minus64);
    }
    let times: Vec<f64> = rows(&state).iter().map(|r| r.0).collect();
    assert_eq!(times.len(), 13);
    assert_eq!((times[0], times[12]), (17.0, 29.0));
    assert_eq!(rows(&state)[12].1, 29.0);
}

#[test]
fn keys_change_the_settings() {
    let mut state = TunerState::new();
    assert!(state.press(Key::T));
    assert_eq!(state.tuning, Tuning::Rondena);
    assert!(state.press(Key::T));
    assert_eq!(state.tuning, Tuning::Standard);
    for fret in 1..=9 {
        assert!(!state.press(Key::Up));
        assert_eq!(state.capo, fret);
    }
    state.press(Key::Up);
    assert_eq!(state.capo, 9);
    state.press(Key::Down);
    assert_eq!(state.capo, 8);
    state.set_capo(-3);
    assert_eq!(state.capo, 0);
    state.press(Key::Down);
    assert_eq!(state.capo, 0);
    state.set_capo(99);
    assert_eq!(state.capo, 9);

    // Singers have no tuning to toggle.
    state.hear(&heard(1.0), real64(0.0), minus64);
    assert!(!state.set_mode(Mode::Guitar));
    assert!(state.reading.is_some());
    assert!(state.set_mode(Mode::Voice));
    assert!(state.reading.is_none());
    assert_eq!(state.history.len(), 0);
    assert!(!state.press(Key::T));
    assert_eq!(state.tuning, Tuning::Standard);
    state.set_tuning(Tuning::Rondena);
    assert_eq!(state.tuning, Tuning::Rondena);
}

#[test]
fn separator_is_fed_each_sample_once() {
    let mut state = TunerState::new();
    assert_eq!(state.separate(true, 1000), None); // no reading yet
    state.hear(&heard(0.0), real64(0.0), minus64);
    assert_eq!(state.separate(true, 1500), Some((real32(110.0), 500)));
    assert_eq!(state.separate(true, 1500), Some((real32(110.0), 0)));
    assert_eq!(state.separate(false, 1600), None);
    assert_eq!(state.separate(true, 1700), Some((real32(110.0), 100)));
    assert_eq!(state.separate(true, 100_000), Some((real32(110.0), 16384)));
    state.mode = Mode::Voice;
    assert_eq!(state.separate(true, 100_001), None);
    assert_eq!(seeds(real32(1.0), None), reals(&[1.0]));
    assert_eq!(seeds(real32(1.0), Some(real32(2.0))), reals(&[1.0, 2.0]));
}

#[test]
fn envelope_is_bounded() {
    let mut state = TunerState::new();
    for k in 0..300 {
        let env = state.push_envelope(real32(k as f32));
        assert_eq!(env.len(), (k + 1).min(ENVELOPE_LEN));
        assert_eq!(env[env.len() - 1], real32(k as f32));
    }
    assert_eq!(state.push_envelope(real32(0.0))[0], real32(45.0));
}

#[test]
fn loudest_microphone_drives() {
    let plan = plan_frame(true, real32(0.01), &reals(&[0.002, 0.3, f32::NAN]));
    assert_eq!(plan.drive, real32(0.3));
    assert!(plan.analyze && plan.sounding);
    assert_eq!(plan_frame(true, real32(0.5), &Vec::new()).drive, real32(0.5));
    assert!(plan_frame(true, real32(0.0041), &Vec::new()).sounding);
    assert!(!plan_frame(true, real32(0.004), &Vec::new()).sounding);
    let quiet = plan_frame(false, real32(0.0), &reals(&[1.0]));
    assert!(!quiet.analyze && !quiet.sounding);
    assert_eq!(quiet.drive, real32(1.0));
}

#[test]
fn every_card_has_its_place() {
    let wide = dashboard(false);
    let panels: Vec<Vec<Panel>> = wide.iter().map(|r| r.panels.clone()).collect();
    assert_eq!(
        panels,
        vec![
            vec![Panel::Spectrum, Panel::Spectrogram],
            vec![Panel::Chroma, Panel::Scope],
            vec![Panel::History, Panel::Waveform, Panel::Visibility],
        ]
    );
    let heights: Vec<u32> = wide.iter().map(|r| r.height).collect();
    assert_eq!(heights, vec![310, 230, 180]);
    let narrow = dashboard(true);
    assert!(narrow.iter().all(|r| r.panels.len() == 1));
    let heights: Vec<u32> = narrow.iter().map(|r| r.height).collect();
    assert_eq!(heights, vec![310, 310, 230, 230, 180, 180, 180]);
    assert_eq!(narrow[3].panels[0], Panel::Scope);
}

#[test]
fn browser_shows_no_scope() {
    let rows: Vec<(Vec<Panel>, u32)> =
        dashboard_without_phones(false).into_iter().map(|r| (r.panels, r.height)).collect();
    assert_eq!(
        rows,
        vec![
            (vec![Panel::Spectrum, Panel::Spectrogram], 310),
            (vec![Panel::Chroma], 230),
            (vec![Panel::History, Panel::Waveform, Panel::Visibility], 180),
        ]
    );
    let rows: Vec<(Vec<Panel>, u32)> =
        dashboard_without_phones(true).into_iter().map(|r| (r.panels, r.height)).collect();
    assert_eq!(
        rows,
        vec![
            (vec![Panel::Spectrum], 310),
            (vec![Panel::Spectrogram], 310),
            (vec![Panel::Chroma], 230),
            (vec![Panel::History], 180),
            (vec![Panel::Waveform], 180),
            (vec![Panel::Visibility], 180),
        ]
    );
}

#[test]
fn streams_start_with_the_beam() {
    let window: Vec<u32> = (0..16384).collect();
    let tails = vec![vec![7u32], vec![8]];
    let streams = analysis_streams(&None, &window, &tails);
    assert_eq!(streams.len(), 3);
    assert_eq!((streams[0][0], streams[0].len()), (8192, 8192));
    assert_eq!((&streams[1], &streams[2]), (&vec![7], &vec![8]));
    let streams = analysis_streams(&Some(vec![1, 2]), &window, &Vec::new());
    assert_eq!(streams, vec![vec![1, 2]]);
}

#[test]
fn zones_and_verdicts() {
    for (cents, z) in [
        (0.0, Zone::Green),
        (3.0, Zone::Green),
        (-3.0, Zone::Green),
        (3.1, Zone::Gold),
        (-15.0, Zone::Gold),
        (15.1, Zone::Red),
        (-50.0, Zone::Red),
        (f32::NAN, Zone::Red),
    ] {
        assert_eq!(zone(&real32(cents)), z);
    }
    let of = |cents: f32| {
        verdict(&Some(Reading::new(real32(110.0), &target(5, 45, cents))))
    };
    assert_eq!(of(-3.0), Some(Verdict::InTune));
    assert_eq!(of(4.0), Some(Verdict::TuneDown));
    assert_eq!(of(-4.0), Some(Verdict::TuneUp));
    assert_eq!(verdict(&None), None);
    let shown = readout(&Some(Reading::new(real32(110.0), &target(5, 45, 10.0))));
    assert_eq!(shown, Some(("A2".to_string(), Zone::Gold)));
    assert_eq!(readout(&None), None);
}

#[test]
fn bar_is_marked_every_ten_cents() {
    let marks = ticks();
    let cents: Vec<i32> = marks.iter().map(|m| m.cents).collect();
    assert_eq!(cents, vec![-50, -40, -30, -20, -10, 0, 10, 20, 30, 40, 50]);
    let labels: Vec<(i32, String)> = marks
        .iter()
        .filter_map(|m| m.label.clone().map(|l| (m.cents, l)))
        .collect();
    assert_eq!(
        labels,
        vec![(-50, "-50".to_string()), (0, "0".to_string()), (50, "+50".to_string())]
    );
    assert_eq!(marks.iter().filter(|m| m.tall).count(), 1);
    assert!(marks[5].tall);
}

fn voice(string_no: usize, midi: i32, cents: f32, level: f32) -> Voice {
    Voice {
        target: target(string_no, midi, cents),
        level: real32(level),
    }
}

#[test]
fn faded_strings_are_no_voices() {
    let levels = reals(&[0.2, 0.02, 0.4]);
    let part = |a: Real32, b: Real32| real32(f32::from_bits(a.bits) * f32::from_bits(b.bits));
    let loudest = loudest_source(&levels);
    assert_eq!(loudest, real32(0.4));
    let all = vec![voice(5, 45, 0.0, 0.5), voice(4, 50, 0.0, 0.05), voice(3, 55, 0.0, 1.0)];
    let voices = duet_voices(&levels, loudest, &all, part);
    let strings: Vec<usize> = voices.iter().map(|v| v.target.string_no).collect();
    assert_eq!(strings, vec![3, 5]);
    assert!(duet_voices(&reals(&[0.0]), real32(0.0), &all[..1].to_vec(), part).is_empty());
    assert_eq!(loudest_source(&Vec::new()), real32(0.0));

    let reading = Some(Reading::new(real32(110.0), &target(5, 45, 0.0)));
    let needles = second_needles(&reading, &voices);
    assert_eq!(needles.len(), 1);
    assert_eq!(needles[0].target.string_no, 3);
    assert!(second_needles(&None, &voices).is_empty());
    assert_eq!(voice_label(&voices[0]), "3 · G3");
}

#[test]
fn strings_light_up() {
    let voices = vec![voice(5, 45, 0.0, 1.0), voice(4, 50, 20.0, 0.5), voice(4, 50, 0.0, 0.4)];
    let b = badges(Tuning::Standard, 0, Some(5), &voices, false);
    let labels: Vec<&str> = b.iter().map(|x| x.label.as_str()).collect();
    assert_eq!(labels, vec!["6 · E2", "5 · A2", "4 · D3", "3 · G3", "2 · B3", "1 · E4"]);
    assert!(b[1].active && b[1].duet.is_none());
    assert_eq!((b[2].active, b[2].duet), (false, Some(Zone::Red)));
    assert_eq!((b[0].active, b[0].duet), (false, None));
    let b = badges(Tuning::Rondena, 2, None, &Vec::new(), true);
    assert_eq!(b[0].label, "6·E2");
    assert_eq!(b[3].label, "3·G#3");
    assert!(b.iter().all(|x| !x.active));
}

#[test]
fn spectrum_titles() {
    assert_eq!(title(1, 0), "SPECTRUM · tracked peaks");
    assert_eq!(title(3, 0), "SPECTRUM · fused ×3 mics · tracked peaks");
    assert_eq!(title(1, 2), "SPECTRUM · beam ×2 mics · tracked peaks");
    assert_eq!(title(12, 3), "SPECTRUM · beam ×3 mics +11 fused · tracked peaks");
}

#[test]
fn curve_attacks_fast_and_decays_slowly() {
    let d = |v: &[f64]| v.iter().map(|&x| real64(x)).collect::<Vec<Real64>>();
    let moved = attack_decay(&d(&[-90.0, -20.0, -20.0]), &d(&[-30.0, -20.0, -60.0]), &d(&[1.0, 2.0, 3.0]));
    assert_eq!(moved, d(&[-30.0, 2.0, 3.0]));
}

#[test]
fn spectrogram_scrolls_left() {
    let mut s = Spectrogram::new(0u32);
    for frame in 1..=3u32 {
        let bands = (0..61).map(|band| Real32::from_bits(frame * 1000 + band)).collect();
        s.push(&bands, true, 7, |b| b.bits);
    }
    for row in 0..61usize {
        let band = 60 - row as u32;
        let at = |ago: usize| s.pixels[row * COLS + COLS - 1 - ago];
        assert_eq!(at(0), 3000 + band);
        assert_eq!(at(1), 2000 + band);
        assert_eq!(at(2), 1000 + band);
        assert_eq!(at(3), 0);
    }
    // A pause is a gap.
    s.push(&vec![real32(1.0); 61], false, 7, |b| b.bits);
    assert!((0..61).all(|row| s.pixels[row * COLS + COLS - 1] == 7));
    assert_eq!(s.pixels[COLS - 2], 3060);
    for (t, step) in [(0.0, 0), (0.35, 0), (0.36, 1), (0.62, 1), (0.7, 2), (0.86, 3), (1.0, 3), (f32::NAN, 4)] {
        assert_eq!(heat_step(&real32(t)), step);
    }
}

#[test]
fn scope_pairs_the_loudest_phone() {
    let window: Vec<u32> = (0..16384).collect();
    let phone = |level: f32, n: u32| ScopePhone {
        level: real32(level),
        samples: (0..n).map(|k| 100_000 + k).collect(),
    };
    let stereo: Vec<(u32, u32)> = (0..3000).map(|k| (k, k)).collect();
    let pairs = stereo_pairs(&window, &vec![phone(0.1, 5000), phone(0.2, 300)], &None).unwrap();
    assert_eq!(pairs.len(), 300);
    assert_eq!((pairs[0], pairs[299]), ((16084, 100_000), (16383, 100_299)));
    let pairs = stereo_pairs(&window, &vec![phone(0.1, 5000)], &None).unwrap();
    assert_eq!((pairs.len(), pairs[0]), (2048, (16384 - 2048, 100_000 + 5000 - 2048)));
    // A phone with too little is passed over for a stereo device.
    let pairs = stereo_pairs(&window, &vec![phone(0.1, 256)], &Some(stereo.clone())).unwrap();
    assert_eq!((pairs.len(), pairs[0]), (2048, (952, 952)));
    assert!(stereo_pairs(&window, &vec![phone(0.1, 256)], &None).is_none());
    assert!(stereo_pairs(&window, &Vec::new(), &Some(stereo[..256].to_vec())).is_none());

    assert_eq!(phase_zone(&real32(0.41)), Zone::Green);
    assert_eq!(phase_zone(&real32(0.4)), Zone::Gold);
    assert_eq!(phase_zone(&real32(-0.19)), Zone::Gold);
    assert_eq!(phase_zone(&real32(-0.2)), Zone::Red);
    assert!(correlates(2, &real32(1.0), &real32(1.0)));
    assert!(!correlates(1, &real32(1.0), &real32(1.0)));
    assert!(!correlates(9, &real32(1e-12), &real32(1.0)));
    assert!(!correlates(9, &real32(1.0), &real32(0.0)));
    assert_eq!(unavailable("no LAN address found"), "phone mic unavailable: no LAN address found");
}

#[test]
fn history_is_drawn_in_lines() {
    let at = |t: f64, c: f64| Point { time: real64(t), cents: real64(c) };
    let gap = f64::NAN;
    let history = vec![
        at(0.0, gap),
        at(1.0, 1.0),
        at(2.0, 2.0),
        at(3.0, gap),
        at(4.0, 4.0), // alone
        at(5.0, gap),
        at(6.0, 6.0),
        at(7.0, 7.0),
        at(8.0, 8.0),
    ];
    let lines = history_lines(&history);
    assert_eq!(lines, vec![history[1..3].to_vec(), history[6..9].to_vec()]);
    assert!(history_lines(&Vec::new()).is_empty());
}

#[test]
fn waveform_is_anchored_at_a_rise() {
    let mut tail = vec![real32(-1.0); WAVE_VIEW * 2];
    assert_eq!(trigger_point(&tail), 0);
    tail[WAVE_VIEW] = real32(1.0); // too late
    assert_eq!(trigger_point(&tail), 0);
    tail[101] = real32(0.5);
    assert_eq!(trigger_point(&tail), 100);
    tail[100] = real32(0.0);
    assert_eq!(trigger_point(&tail), 100);
    let mut window = vec![real32(9.0); 10];
    window.extend(tail);
    let points = wave_points(&window);
    assert_eq!(points.len(), WAVE_VIEW / 8);
    assert_eq!(points[0], real32(0.0));
    assert_eq!(points[1], real32(-1.0));
}

#[test]
fn labels_and_lines() {
    assert_eq!(degree_label(0), "0");
    assert_eq!(degree_label(8), "8");
    assert_eq!(degree_label(9), "9+");
    assert_eq!(key_line(&None), "key: listening…");
    assert_eq!(key_line(&Some("A major".to_string())), "key: A major");
    assert_eq!(listed(2), vec![1, 0]);
    assert_eq!(listed(9), vec![3, 2, 1, 0]);
    assert_eq!(more_phones(4), None);
    assert_eq!(more_phones(15), Some("+11 more".to_string()));
    assert_eq!(phone_status(3, 0), ("3 phone mic(s) · seeking lock".to_string(), false));
    assert_eq!(phone_status(3, 4), ("beamforming ×4".to_string(), true));
    assert_eq!(device_label("Built-in", 2), "Built-in (2 ch)");
    assert!(is_narrow(&real32(699.9)));
    assert!(!is_narrow(&real32(700.0)));
    assert!(is_compact(&real32(53.9)));
    assert!(!is_compact(&real32(54.0)));
}

#[test]
fn harmony_glides_and_fades() {
    let float = |r: Real32| f32::from_bits(r.bits);
    let mut harmony = Harmony::new(real32(0.0));
    // C, E and G.
    let mut fresh = vec![real32(0.0); 12];
    for class in [0, 4, 7] {
        fresh[class] = real32(1.0);
    }
    let listen = |harmony: &mut Harmony, audible: bool| {
        harmony.listen(
            audible,
            &fresh,
            |c, f| real32(float(c) * 0.5 + float(f) * 0.5),
            |c| real32(float(c) * 0.25),
            |v| real32(v.iter().map(|&x| float(x) * float(x)).sum::<f32>().sqrt()),
            |dot, c, member| real32(float(dot) + if member { float(c) } else { 0.0 }),
            |dot, norm| real32(float(dot) / (float(norm) * 3.0f32.sqrt())),
            |a, b| real32(float(a) - float(b)),
            |_, c| c,
            |v| real32(v.iter().map(|&x| float(x)).sum::<f32>() / 12.0),
            |classes, mean, minor| {
                assert_eq!(mean, real32(0.25));
                real32(if float(classes[0]) == 1.0 && float(classes[4]) == 1.0 && !minor { 0.9 } else { 0.0 })
            },
        )
    };
    listen(&mut harmony, true);
    assert_eq!(harmony.classes[4], real32(0.5));
    listen(&mut harmony, true);
    assert_eq!((harmony.classes[4], harmony.classes[5]), (real32(0.75), real32(0.0)));
    assert_eq!(harmony.chord.as_ref().map(|c| c.name.as_str()), Some("C"));
    assert_eq!((harmony.keys.frames, &harmony.key), (2, &None));
    // Silence fades the classes and ends the chord; the key does not hear it.
    listen(&mut harmony, false);
    assert_eq!(harmony.classes[4], real32(0.1875));
    assert!(harmony.chord.is_none());
    assert_eq!(harmony.keys.frames, 2);
    for _ in 0..38 {
        listen(&mut harmony, true);
    }
    assert_eq!(harmony.key.as_deref(), Some("C major"));
    listen(&mut harmony, false);
    assert_eq!((harmony.keys.frames, harmony.key.as_deref()), (40, Some("C major")));
}

#[test]
fn pitches_are_aimed_at_strings_or_notes() {
    let mut state = TunerState::new();
    let float = |r: Real32| f32::from_bits(r.bits);
    let aim = |state: &TunerState, freq: f32| {
        let m = state.aim(
            real32(freq),
            |f| (69.0 + 12.0 * (float(f) / 440.0).log2()).round() as i32,
            |midi| real32(440.0 * 2.0f32.powf((midi - 69) as f32 / 12.0)),
            |a, b| real32(1200.0 * (float(a) / float(b)).log2()),
        );
        (m.string_no, m.target_midi)
    };
    assert_eq!(aim(&state, 123.47), (5, 45));
    state.set_capo(2);
    assert_eq!(aim(&state, 123.47), (5, 47));
    state.set_mode(Mode::Voice);
    assert_eq!(aim(&state, 130.8), (0, 48));
}
