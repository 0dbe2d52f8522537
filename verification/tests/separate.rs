use std::f32::consts::{PI, TAU};

use flamenco_tuner::dsp::bank::{Gain, Motion, Pull, Repair};
use flamenco_tuner::dsp::drift::{refine_source, Refinement};
use flamenco_tuner::dsp::duet::pick_second as second_of;
use flamenco_tuner::dsp::peaks::Track;
use flamenco_tuner::dsp::separate::{strongest_db, Separator as Bank, Source, HARMONICS, SUB};
use flamenco_tuner::ieee::Real32;

const SR: f32 = 48000.0;

fn real32(v: f32) -> Real32 {
    Real32::from_bits(v.to_bits())
}

fn float(r: Real32) -> f32 {
    f32::from_bits(r.bits)
}

fn cents_between(a: f32, b: f32) -> f32 {
    1200.0 * (a / b).log2()
}

fn cents(a: Real32, b: Real32) -> Real32 {
    real32(cents_between(float(a), float(b)))
}

fn wrap(a: f32) -> f32 {
    let mut a = a % TAU;
    if a > PI {
        a -= TAU;
    } else if a < -PI {
        a += TAU;
    }
    a
}

fn next_phase(c: f32, s: f32, theta: f32) -> f32 {
    wrap(s.atan2(c) + (SUB as f32 * theta) % TAU)
}

fn energy(c: f32, s: f32) -> Real32 {
    real32(c * c + s * s)
}

fn weigh(sums: (Real32, Real32), a2: Real32, phasor: (f32, f32, f32), m: usize) -> (Real32, Real32) {
    let (c, s, reference) = phasor;
    let drift = wrap(s.atan2(c) - reference) / (m as f32 + 1.0);
    (
        real32(float(sums.0) + float(a2) * drift),
        real32(float(sums.1) + float(a2)),
    )
}

fn tune(source: Source, num: Real32, den: Real32) -> Real32 {
    let dt = SUB as f32 / SR;
    let df = 0.08 * (float(num) / float(den)) / (TAU * dt);
    real32(float(source.freq) + df)
}

fn shift(seed: Real32, cents: Real32) -> Real32 {
    real32(float(seed) * 2.0f32.powf(float(cents) / 1200.0))
}

fn refine(source: Source, phasors: Vec<(f32, f32, f32)>) -> Option<Real32> {
    refine_source(source, &phasors, &Refinement { energy, weigh, tune, shift })
}

struct Reading {
    freq: f32,
    amps: Vec<f32>,
    level: f32,
}

struct Separator {
    decay: f32,
    bank: Bank<f32>,
}

impl Separator {
    fn new() -> Self {
        Separator {
            decay: (-1.0 / (2.0 * SR)).exp(),
            bank: Bank::new(0.0, 1.0, 0.25),
        }
    }

    fn set_sources(&mut self, freqs: &[f32]) -> bool {
        self.bank.set_sources(
            &freqs.iter().map(|&f| real32(f)).collect(),
            cents,
            |f, m| TAU * float(f) * m as f32 / SR,
            |th: f32| (th.cos(), th.sin()),
            next_phase,
        )
    }

    fn process(&mut self, samples: &[f32]) {
        let d = self.decay;
        self.bank.process(
            &samples.to_vec(),
            &Motion {
                turn: |(c, s), a, b| (d * (c * a - s * b), d * (s * a + c * b)),
                raise: |v| v + 1e-10,
            },
            &Gain {
                noise: 1e-4,
                plus: |a, b| a + b,
                innovation: |y, predicted| y - predicted,
                invert: |variance| 1.0 / variance,
                power: |res2, innov| res2 * 0.999 + innov * innov * (1.0 - 0.999),
                correct: |x, h, inv, innov| x + h * inv * innov,
                shrink: |p, hi, hj, inv| p - hi * inv * hj,
            },
            &Pull {
                refine: Refinement { energy, weigh, tune, shift },
                angle: |f, m| TAU * float(f) * m as f32 / SR,
                direction: |th: f32| (th.cos(), th.sin()),
                phase: next_phase,
            },
            &Repair {
                average: |a, b| 0.5 * (a + b),
                floor: |v: f32| v.max(0.0),
            },
        );
    }

    fn readings(&self) -> Vec<Reading> {
        self.bank
            .readings(
                |c: f32, s: f32| real32((c.powi(2) + s.powi(2)).sqrt()),
                |amps| {
                    let sum: f32 = amps.iter().map(|&a| float(a) * float(a)).sum();
                    real32((sum / 2.0).sqrt())
                },
            )
            .into_iter()
            .map(|r| Reading {
                freq: float(r.freq),
                amps: r.amps.into_iter().map(float).collect(),
                level: float(r.level),
            })
            .collect()
    }

    fn residual_rms(&self) -> f32 {
        self.bank.res2.sqrt()
    }
}

fn pick_second(primary: f32, tracks: &[Track], range: (f32, f32)) -> Option<f32> {
    second_of(
        real32(primary),
        &tracks.to_vec(),
        (real32(range.0), real32(range.1)),
        |f, k| real32(float(f) * k as f32),
        cents,
        |f, part| real32(float(f) * float(part)),
        |a, b| real32(float(a) - float(b)),
    )
    .map(float)
}

/// A plucked-string-like tone: fundamental plus decaying harmonics.
fn string_tone(freq: f32, amp: f32, phase: f32, sr: f32, n: usize) -> Vec<f32> {
    let harmonics = [1.0f32, 0.45, 0.25, 0.12, 0.06];
    (0..n)
        .map(|i| {
            let t = i as f32 / sr;
            harmonics
                .iter()
                .enumerate()
                .map(|(k, &h)| {
                    amp * h * (2.0 * std::f32::consts::PI * freq * (k + 1) as f32 * t + phase).sin()
                })
                .sum()
        })
        .collect()
}

fn mix(a: &[f32], b: &[f32]) -> Vec<f32> {
    a.iter().zip(b).map(|(x, y)| x + y).collect()
}

fn rms(samples: &[f32]) -> f32 {
    let sum: f32 = samples.iter().map(|s| s * s).sum();
    (sum / samples.len() as f32).sqrt()
}

fn synth(freq: f32, db: f32, age: u32) -> Track {
    Track::synth(real32(freq), real32(db), age)
}

#[test]
fn separates_two_strings() {
    // A2 + D3 ringing together (their 4th/3rd partials nearly collide
    // at 440 Hz). string_tone's harmonic profile is [1, .45, .25, ...].
    let n = 24000;
    let a2 = string_tone(110.0, 0.5, 0.0, SR, n);
    let d3 = string_tone(146.83, 0.35, 1.2, SR, n);
    let mixed = mix(&a2, &d3);

    let mut sep = Separator::new();
    sep.set_sources(&[110.0, 146.83]);
    sep.process(&mixed);

    let r = sep.readings();
    assert_eq!(r.len(), 2);
    assert!(
        (r[0].amps[0] - 0.5).abs() < 0.05,
        "A2 fundamental {} vs 0.5",
        r[0].amps[0]
    );
    assert!(
        (r[1].amps[0] - 0.35).abs() < 0.035,
        "D3 fundamental {} vs 0.35",
        r[1].amps[0]
    );
    assert!(
        (r[0].amps[1] - 0.5 * 0.45).abs() < 0.04,
        "A2 2nd harmonic {} vs {}",
        r[0].amps[1],
        0.5 * 0.45
    );

    let in_rms = rms(&mixed[n - 4096..]);
    assert!(
        sep.residual_rms() < 0.1 * in_rms,
        "residual {} vs input {}",
        sep.residual_rms(),
        in_rms
    );
}

#[test]
fn refines_a_detuned_seed_sub_cent() {
    // True string 6 cents sharp of the seed; the phase servo must
    // converge to it within a cent.
    let truth = 110.0 * 2.0f32.powf(6.0 / 1200.0);
    let tone = string_tone(truth, 0.4, 0.7, SR, 48000);
    let mut sep = Separator::new();
    sep.set_sources(&[110.0]);
    sep.process(&tone);
    let f = sep.readings()[0].freq;
    let err = cents_between(f, truth);
    assert!(
        err.abs() < 1.0,
        "refined {f} Hz, truth {truth} ({err:+.2}¢)"
    );
}

#[test]
fn silent_source_stays_silent() {
    // Two sources seeded, only one sounding: the filter must not
    // hallucinate energy into the silent one.
    let a2 = string_tone(110.0, 0.5, 0.0, SR, 16384);
    let mut sep = Separator::new();
    sep.set_sources(&[110.0, 146.83]);
    sep.process(&a2);
    let r = sep.readings();
    assert!(
        r[1].level < 0.1 * r[0].level,
        "silent source level {} vs active {}",
        r[1].level,
        r[0].level
    );
}

#[test]
fn tracks_a_decaying_string() {
    let tone = string_tone(110.0, 0.5, 0.0, SR, 48000);
    let decaying: Vec<f32> = tone
        .iter()
        .enumerate()
        .map(|(i, &v)| v * (-2.0 * i as f32 / SR).exp())
        .collect();
    let mut sep = Separator::new();
    sep.set_sources(&[110.0]);
    sep.process(&decaying[..24000]);
    let mid = sep.readings()[0].level;
    sep.process(&decaying[24000..]);
    let end = sep.readings()[0].level;
    // True amplitude ratio over the second half is e^-1 ≈ 0.37.
    assert!(
        end < 0.55 * mid && end > 0.2 * mid,
        "decay not tracked: mid {mid}, end {end}"
    );
}

#[test]
fn reseeding_with_jitter_keeps_state() {
    let tone = string_tone(110.0, 0.5, 0.0, SR, 16384);
    let mut sep = Separator::new();
    sep.set_sources(&[110.0]);
    sep.process(&tone[..8192]);
    let before = sep.readings()[0].amps[0];
    // Detector jitter: ±a few cents must not reset the filter.
    sep.set_sources(&[110.0 * 2.0f32.powf(4.0 / 1200.0)]);
    let after = sep.readings()[0].amps[0];
    assert!(
        (before - after).abs() < 1e-6,
        "state lost on jittered reseed: {before} vs {after}"
    );
}

#[test]
fn a_string_that_joins_leaves_the_other_alone() {
    let tone = string_tone(110.0, 0.5, 0.0, SR, 8192);
    let mut sep = Separator::new();
    assert!(sep.set_sources(&[110.0]));
    sep.process(&tone);
    let before = sep.readings();
    // A second string is new; the first goes on with its phasors.
    assert!(sep.set_sources(&[110.0, 146.83]));
    let after = sep.readings();
    assert_eq!(after.len(), 2);
    assert_eq!(after[0].amps, before[0].amps);
    assert_eq!(after[0].freq, before[0].freq);
    assert_eq!(after[1].amps, [0.0; HARMONICS]);
    assert_eq!(after[1].freq, 146.83);
    // The covariance starts afresh.
    for i in 0..20 {
        for j in 0..20 {
            assert_eq!(sep.bank.p[i][j], if i == j { 0.25 } else { 0.0 });
        }
    }
    // Exchanged seeds are the same strings.
    assert!(!sep.set_sources(&[146.83, 110.0]));
    assert_eq!(sep.bank.sources[0].seed, real32(110.0));
    // The string that remains keeps its state when the other leaves.
    assert!(sep.set_sources(&[146.83]));
    assert_eq!(sep.readings().len(), 1);
    assert_eq!(sep.readings()[0].freq, 146.83);
    sep.bank.clear();
    assert!(sep.readings().is_empty());
}

#[test]
fn seeds_are_positive_apart_and_few() {
    let mut sep = Separator::new();
    // Zero, negative and missing frequencies are no seeds, nor is a near one.
    sep.set_sources(&[0.0, -110.0, f32::NAN, 110.0, 112.0, 146.83, 196.0]);
    let seeds: Vec<f32> = sep.bank.sources.iter().map(|s| float(s.seed)).collect();
    assert_eq!(seeds, vec![110.0, 146.83]);
    sep.set_sources(&[]);
    assert!(sep.bank.sources.is_empty());
}

#[test]
fn covariance_stays_symmetric() {
    let tone = string_tone(110.0, 0.5, 0.3, SR, 1024);
    let mut sep = Separator::new();
    sep.set_sources(&[110.0, 146.83]);
    sep.process(&tone); // ends at a sub-block boundary
    assert_eq!(sep.bank.sub_fill, 0);
    for i in 0..20 {
        assert!(sep.bank.p[i][i] >= 0.0);
        for j in 0..20 {
            assert_eq!(sep.bank.p[i][j], sep.bank.p[j][i]);
        }
    }
}

#[test]
fn second_string_picker_rejects_harmonics() {
    let range = (55.0, 600.0);
    // 220 is A2's 2nd harmonic; 146.8 is a genuine D3.
    let tracks = [synth(220.0, -18.0, 5), synth(146.8, -24.0, 5)];
    let pick = pick_second(110.0, &tracks, range).expect("no second string");
    assert!((pick - 146.8).abs() < 0.1, "picked {pick}");

    // Only harmonics of the primary → nothing to pick.
    let harmonics_only = [synth(220.0, -18.0, 5), synth(330.0, -22.0, 5)];
    assert!(pick_second(110.0, &harmonics_only, range).is_none());

    // The secondary's own octave partial is stronger than its
    // fundamental — the picker must still return the fundamental.
    let with_partial = [
        synth(293.66, -15.0, 5),
        synth(146.83, -20.0, 5),
    ];
    let pick = pick_second(110.0, &with_partial, range).expect("no second string");
    assert!((pick - 146.83).abs() < 0.1, "picked {pick}");

    // Young tracks don't qualify.
    let young = [synth(146.8, -20.0, 1)];
    assert!(pick_second(110.0, &young, range).is_none());
}

#[test]
fn second_string_is_in_range_and_loud() {
    let range = (55.0, 600.0);
    assert!(pick_second(110.0, &[synth(50.0, -20.0, 5)], range).is_none());
    assert!(pick_second(110.0, &[synth(700.0, -20.0, 5)], range).is_none());
    // More than 30 dB below the strongest track is too quiet.
    let quiet = [synth(220.0, 0.0, 5), synth(146.8, -30.0, 5)];
    assert!(pick_second(110.0, &quiet, range).is_none());
    let loud = [synth(220.0, 0.0, 5), synth(146.8, -29.5, 5)];
    assert_eq!(pick_second(110.0, &loud, range), Some(146.8));
    // Of equally strong ones the last is taken.
    let two = [synth(146.8, -10.0, 5), synth(196.0, -10.0, 5)];
    assert_eq!(pick_second(110.0, &two, range), Some(196.0));
    assert_eq!(float(strongest_db(&Vec::new())), f32::NEG_INFINITY);
}

#[test]
fn silent_source_keeps_its_fundamental() {
    let source = Source { seed: real32(110.0), freq: real32(111.0) };
    assert_eq!(refine(source, vec![(0.0, 0.0, 0.0); HARMONICS]), None);
    // A phasor that is where it was expected leaves the fundamental as it is.
    let mut phasors = vec![(0.0, 0.0, 0.0); HARMONICS];
    phasors[0] = (0.5, 0.0, 0.0);
    assert_eq!(refine(source, phasors), Some(real32(111.0)));
}

#[test]
fn bank_without_sources_stays_silent() {
    let mut sep = Separator::new();
    sep.process(&[0.5; 100]);
    assert!(sep.readings().is_empty());
    assert_eq!(sep.bank.sub_fill, 0);
    assert_eq!(sep.residual_rms(), 0.0);
    // With one, samples are counted up to the end of a sub-block.
    sep.set_sources(&[110.0]);
    sep.process(&vec![0.5; SUB + 3]);
    assert_eq!(sep.bank.sub_fill, 3);
    assert!(sep.residual_rms() > 0.0);
}

#[test]
fn blocks_do_not_matter() {
    let tone = string_tone(110.0, 0.4, 0.3, SR, 3 * SUB + 7);
    let run = |blocks: &[&[f32]]| {
        let mut sep = Separator::new();
        sep.set_sources(&[110.0, 146.83]);
        for block in blocks {
            sep.process(block);
        }
        (sep.bank.x, sep.bank.p, sep.bank.sub_fill, sep.bank.res2)
    };
    let whole = run(&[&tone[..]]);
    assert_eq!(whole, run(&[&tone[..SUB + 5], &tone[SUB + 5..]]));
    assert_eq!(whole, run(&[&tone[..1], &[], &tone[1..]]));
}

#[test]
fn fundamental_stays_near_its_seed() {
    let ratio = |cents: f32| 2.0f32.powf(cents / 1200.0);
    let bounded = |seed: f32, freq: f32, pull: f32| {
        let mut phasors = vec![(0.0, 0.0, 0.0); HARMONICS];
        phasors[0] = (0.5, 0.0, pull);
        let source = Source { seed: real32(seed), freq: real32(freq) };
        float(refine(source, phasors).unwrap())
    };
    // However far the phases pull, 80 cents are the bound.
    assert_eq!(bounded(110.0, 120.0, 0.0), 110.0 * ratio(80.0));
    assert_eq!(bounded(110.0, 100.0, 0.0), 110.0 * ratio(-80.0));
    assert_eq!(bounded(110.0, 110.0 * ratio(79.9), -1.0), 110.0 * ratio(80.0));
    let inside = bounded(110.0, 110.0, -0.1);
    assert!(inside > 110.0 && inside < 110.0 * ratio(80.0));
    let mut sep = Separator::new();
    sep.set_sources(&[110.0]);
    sep.process(&string_tone(125.0, 0.4, 0.0, SR, 48000));
    let freq = float(sep.bank.sources[0].freq);
    assert!(freq <= 110.0 * ratio(80.0) && freq >= 110.0 * ratio(-80.0), "got {freq}");
    assert_eq!(sep.bank.sources[0].seed, real32(110.0));
}
