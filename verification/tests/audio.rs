use flamenco_tuner::audio::{
    frames, stereo_pair, Capture, FilterChain, FilterConfig, FilterControl, Playback, RING_LEN,
    STEREO_RING_LEN,
};
use flamenco_tuner::dsp::filter::Biquad;
use flamenco_tuner::gui::state::full_window;
use flamenco_tuner::ieee::Real32;
use flamenco_tuner::ring::{section, tail_of, Ring};

const BUTTERWORTH_Q: f32 = std::f32::consts::FRAC_1_SQRT_2;

fn real32(v: f32) -> Real32 {
    Real32::from_bits(v.to_bits())
}

fn lowpass(sample_rate: f32, cutoff: f32, q: f32) -> Biquad<f32> {
    let w0 = 2.0 * std::f32::consts::PI * (cutoff / sample_rate).clamp(1e-5, 0.49);
    let (sin, cos) = w0.sin_cos();
    let alpha = sin / (2.0 * q);
    let a0 = 1.0 + alpha;
    Biquad::at_rest(
        [(1.0 - cos) / 2.0 / a0, (1.0 - cos) / a0, (1.0 - cos) / 2.0 / a0],
        [-2.0 * cos / a0, (1.0 - alpha) / a0],
        0.0,
    )
}

fn highpass(sample_rate: f32, cutoff: f32, q: f32) -> Biquad<f32> {
    let w0 = 2.0 * std::f32::consts::PI * (cutoff / sample_rate).clamp(1e-5, 0.49);
    let (sin, cos) = w0.sin_cos();
    let alpha = sin / (2.0 * q);
    let a0 = 1.0 + alpha;
    Biquad::at_rest(
        [(1.0 + cos) / 2.0 / a0, -(1.0 + cos) / a0, (1.0 + cos) / 2.0 / a0],
        [-2.0 * cos / a0, (1.0 - alpha) / a0],
        0.0,
    )
}

fn run(f: &mut Biquad<f32>, x: f32) -> f32 {
    let y = f.b0 * x + f.b1 * f.x1 + f.b2 * f.x2 - f.a1 * f.y1 - f.a2 * f.y2;
    f.remember(x, y);
    y
}

/// Steady-state gain of a filter at `freq`: run a sine through and
/// compare RMS after the transient settles.
fn gain_at(mut filter: Biquad<f32>, freq: f32, sr: f32) -> f32 {
    let n = 48000;
    let settle = n / 2;
    let mut in_sq = 0.0f64;
    let mut out_sq = 0.0f64;
    for i in 0..n {
        let x = (2.0 * std::f32::consts::PI * freq * i as f32 / sr).sin();
        let y = run(&mut filter, x);
        if i >= settle {
            in_sq += (x as f64) * (x as f64);
            out_sq += (y as f64) * (y as f64);
        }
    }
    (out_sq / in_sq).sqrt() as f32
}

fn db(gain: f32) -> f32 {
    20.0 * gain.log10()
}

#[test]
fn lowpass_response() {
    let sr = 48000.0;
    let fc = 1000.0;
    let make = || lowpass(sr, fc, BUTTERWORTH_Q);
    // Passband flat within 0.5 dB.
    assert!(db(gain_at(make(), 100.0, sr)).abs() < 0.5);
    // −3 dB at cutoff (±0.5 dB).
    assert!((db(gain_at(make(), fc, sr)) + 3.0).abs() < 0.5);
    // ~−12 dB/octave rolloff: one octave above ≈ −12 dB, two ≈ −24 dB.
    assert!(db(gain_at(make(), 2.0 * fc, sr)) < -10.0);
    assert!(db(gain_at(make(), 4.0 * fc, sr)) < -22.0);
}

#[test]
fn highpass_response() {
    let sr = 48000.0;
    let fc = 200.0;
    let make = || highpass(sr, fc, BUTTERWORTH_Q);
    assert!(db(gain_at(make(), 2000.0, sr)).abs() < 0.5);
    assert!((db(gain_at(make(), fc, sr)) + 3.0).abs() < 0.5);
    assert!(db(gain_at(make(), fc / 2.0, sr)) < -10.0);
    assert!(db(gain_at(make(), fc / 4.0, sr)) < -22.0);
}

#[test]
fn a_section_remembers_two_samples() {
    let mut f = Biquad::at_rest([1, 2, 3], [4, 5], 0);
    f.remember(10, 20);
    f.remember(11, 21);
    assert_eq!((f.x1, f.x2, f.y1, f.y2), (11, 10, 21, 20));
    assert_eq!((f.b0, f.b1, f.b2, f.a1, f.a2), (1, 2, 3, 4, 5));
}

#[test]
fn settings_start_switched_off() {
    let cfg = FilterConfig::default();
    assert!(!cfg.hp_enabled && !cfg.lp_enabled);
    assert_eq!(cfg.hp_cutoff, real32(80.0));
    assert_eq!(cfg.lp_cutoff, real32(8000.0));
}

#[test]
fn only_changes_are_news() {
    let mut control = FilterControl::new();
    let mut chain: FilterChain<char> = FilterChain::new();
    assert!(chain.is_stale(&control));
    chain.sync(&control, 'h', 'l');
    assert!(!chain.is_stale(&control));
    assert_eq!((chain.hp, chain.lp), (None, None));

    let same = control.filter_config();
    control.set_filter_config(same);
    assert_eq!(control.version, 1);

    let mut cfg = control.filter_config();
    cfg.hp_enabled = true;
    control.set_filter_config(cfg);
    assert_eq!(control.version, 2);
    assert!(chain.is_stale(&control));
    chain.sync(&control, 'h', 'l');
    assert_eq!((chain.hp, chain.lp), (Some(['h'; 3]), None));
    // Running filters are not rebuilt.
    chain.sync(&control, 'x', 'y');
    assert_eq!(chain.hp, Some(['h'; 3]));

    cfg.hp_enabled = false;
    cfg.lp_enabled = true;
    control.set_filter_config(cfg);
    chain.sync(&control, 'h', 'l');
    assert_eq!((chain.hp, chain.lp), (None, Some(['l'; 3])));

    // Cutoffs are compared as numbers: nothing equals one that is none.
    cfg.lp_cutoff = real32(f32::NAN);
    control.set_filter_config(cfg);
    control.set_filter_config(cfg);
    assert_eq!(control.version, 5);
    cfg.lp_cutoff = real32(0.0);
    control.set_filter_config(cfg);
    cfg.lp_cutoff = real32(-0.0);
    control.set_filter_config(cfg);
    assert_eq!(control.version, 6);
    control.version = u64::MAX;
    cfg.lp_enabled = false;
    control.set_filter_config(cfg);
    assert_eq!(control.version, 0);
}

#[test]
fn signal_paths_have_filters_of_their_own() {
    let mut control = FilterControl::new();
    let mut chain: FilterChain<i32> = FilterChain::new();
    // A filter that adds up what it hears.
    let step = |f: i32, x: i32| (f + x, f + x);
    assert_eq!(chain.process(0, 5, step), 5);
    let mut cfg = control.filter_config();
    cfg.hp_enabled = true;
    cfg.lp_enabled = true;
    control.set_filter_config(cfg);
    chain.sync(&control, 100, 1000);
    // High-pass first, then low-pass.
    assert_eq!(chain.process(1, 5, step), 1105);
    assert_eq!(chain.hp, Some([100, 105, 100]));
    assert_eq!(chain.lp, Some([1000, 1105, 1000]));
    assert_eq!(chain.process(1, 1, step), 1105 + 106);
    assert_eq!(chain.process(2, 1, step), 1101);
}

#[test]
fn samples_are_cut_into_frames() {
    assert_eq!(frames(&vec![1, 2, 3, 4, 5], 2), vec![vec![1, 2], vec![3, 4], vec![5]]);
    assert_eq!(frames(&vec![1, 2], 1), vec![vec![1], vec![2]]);
    assert_eq!(frames(&Vec::<i32>::new(), 2), Vec::<Vec<i32>>::new());
    for n in 0..20usize {
        for channels in 1..6usize {
            let data: Vec<usize> = (0..n).collect();
            let expected: Vec<Vec<usize>> = data.chunks(channels).map(|c| c.to_vec()).collect();
            assert_eq!(frames(&data, channels), expected);
        }
    }
    assert_eq!(stereo_pair(&vec![1, 2, 3]), (1, 2));
    assert_eq!(stereo_pair(&vec![7]), (7, 7));
}

#[test]
fn capture_keeps_the_newest() {
    let mut mono: Capture<u32> = Capture::new(1);
    assert!(mono.stereo.is_none());
    mono.ingest(&vec![1, 2, 3], &Vec::new());
    assert_eq!((mono.mono.buf.len(), mono.mono.total), (3, 3));
    assert!(full_window(&mono.mono).is_none());

    let mut both: Capture<u32> = Capture::new(2);
    for block in 0..20u32 {
        let samples: Vec<u32> = (block * 1000..(block + 1) * 1000).collect();
        let pairs = samples.iter().map(|&s| (s, s + 1)).collect();
        both.ingest(&samples, &pairs);
    }
    assert_eq!(both.mono.total, 20_000);
    let window = full_window(&both.mono).unwrap();
    assert_eq!(window.len(), RING_LEN);
    assert_eq!(window[RING_LEN - 1], 19_999);
    assert_eq!(window[0] as usize, 20_000 - RING_LEN);
    let stereo = both.stereo.unwrap();
    assert_eq!(stereo.len(), STEREO_RING_LEN);
    assert_eq!(stereo.back(), Some(&(19_999, 20_000)));
}

#[test]
fn bursts_do_not_matter() {
    let all: Vec<u32> = (0..50).collect();
    let mut whole: Ring<u32> = Ring::new();
    whole.take_in(&all, 16);
    let mut parts: Ring<u32> = Ring::new();
    for chunk in all.chunks(7) {
        parts.take_in(&chunk.to_vec(), 16);
    }
    assert_eq!(whole.snapshot(), parts.snapshot());
    assert_eq!(tail_of(&all, 3), vec![47, 48, 49]);
    assert_eq!(tail_of(&all, 99).len(), 50);
    assert_eq!(section(&all, 10, 2), vec![10, 11]);
}

#[test]
fn playback_ends_in_silence() {
    let mut p = Playback { samples: vec![3, 4], pos: 0, silence: 0 };
    let heard: Vec<i32> = (0..4).map(|_| p.next_sample()).collect();
    assert_eq!(heard, vec![3, 4, 0, 0]);
}
