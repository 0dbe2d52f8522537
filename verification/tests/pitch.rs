use std::sync::Arc;

use flamenco_tuner::ieee::Real32;
use flamenco_tuner::harmonics::{
    harmonic_peak, harmonic_score, mag_near, own_harmonic, refine, Harmonic,
};
use flamenco_tuner::pitch::{
    agreement, best_candidate, dips, guitar_range, keep_candidates, period_range, trusted,
    Candidate, Detector as Votes, FFT_LEN, RECENT_FRAMES, YIN_LEN,
};
use flamenco_tuner::yin;
use rustfft::num_complex::Complex;
use rustfft::{Fft, FftPlanner};

const FMIN: f32 = 55.0;
const FMAX: f32 = 600.0;

fn real32(v: f32) -> Real32 {
    Real32::from_bits(v.to_bits())
}

fn float(r: Real32) -> f32 {
    f32::from_bits(r.bits)
}

fn reals(values: &[f32]) -> Vec<Real32> {
    values.iter().map(|&v| real32(v)).collect()
}

fn cents_between(a: f32, b: f32) -> f32 {
    1200.0 * (a / b).log2()
}

fn vertex(a: f32, b: f32, c: f32) -> f32 {
    let denom = a - 2.0 * b + c;
    if denom.abs() > f32::EPSILON {
        (0.5 * (a - c) / denom).clamp(-0.5, 0.5)
    } else {
        0.0
    }
}

struct Detector {
    sample_rate: f32,
    fft: Arc<dyn Fft<f32>>,
    mags: Vec<f32>,
    votes: Votes,
}

impl Detector {
    fn new(sample_rate: f32) -> Self {
        Detector {
            sample_rate,
            fft: FftPlanner::new().plan_fft_forward(FFT_LEN),
            mags: vec![0.0; FFT_LEN / 2],
            votes: Votes::new(),
        }
    }

    fn bin_hz(&self) -> f32 {
        self.sample_rate / FFT_LEN as f32
    }

    fn analyze_spectrum(&mut self, samples: &[f32]) {
        let mean = samples.iter().sum::<f32>() / samples.len() as f32;
        let mut buf: Vec<Complex<f32>> = samples
            .iter()
            .enumerate()
            .map(|(i, &s)| {
                let x = i as f32 / (FFT_LEN - 1) as f32;
                let w = 0.5 - 0.5 * (2.0 * std::f32::consts::PI * x).cos();
                Complex::new((s - mean) * w, 0.0)
            })
            .collect();
        self.fft.process(&mut buf);
        let norm = 4.0 / FFT_LEN as f32;
        for (m, b) in self.mags.iter_mut().zip(&buf) {
            *m = b.norm() * norm;
        }
    }

    fn track(&mut self, samples: &[f32]) -> Option<f32> {
        let raw = self.estimate(&samples[samples.len() - YIN_LEN..]);
        self.votes.track(raw, cents, mean).map(float)
    }

    fn estimate(&self, samples: &[f32]) -> Option<Real32> {
        let mags = reals(&self.mags);
        let candidates = yin_candidates(samples, self.sample_rate);
        self.votes.estimate(
            &candidates,
            cents,
            |c, continues| {
                let score = self.harmonic_score(&mags, float(c.freq)) * (1.2 - float(c.cmndf));
                real32(if continues { score * 1.3 } else { score })
            },
            |f| self.refine(&mags, float(f)).map(real32),
        )
    }

    fn harmonic_score(&self, mags: &Vec<Real32>, f: f32) -> f32 {
        float(harmonic_score(
            mags,
            |k| {
                let fk = f * k as f32;
                let bin = fk / self.bin_hz();
                (fk < self.sample_rate * 0.45).then(|| {
                    ((bin - 1.5).ceil().max(0.0) as usize, (bin + 1.5).floor() as usize)
                })
            },
            |m, k| real32(float(m) / k as f32),
            |a, b| real32(float(a) + float(b)),
        ))
    }

    fn refine(&self, mags: &Vec<Real32>, f0: f32) -> Option<f32> {
        let bin_hz = self.bin_hz();
        refine(
            mags,
            real32(f0),
            |k| (f0 * k as f32 / bin_hz).round() as usize,
            |a, b, c, bin, k| {
                let delta = vertex(
                    float(a).max(1e-12).ln(),
                    float(b).ln(),
                    float(c).max(1e-12).ln(),
                );
                real32((bin as f32 + delta) * bin_hz / k as f32)
            },
            cents,
            |(num, den), m, f| {
                (real32(float(num) + float(m) * float(f)), real32(float(den) + float(m)))
            },
            |num, den| real32(float(num) / float(den)),
        )
        .map(float)
    }
}

fn cents(a: Real32, b: Real32) -> Real32 {
    real32(cents_between(float(a), float(b)))
}

fn mean(values: Vec<Real32>) -> Real32 {
    let sum: f32 = values.iter().map(|&f| float(f)).sum();
    real32(sum / values.len() as f32)
}

fn yin_candidates(samples: &[f32], sample_rate: f32) -> Vec<Candidate> {
    let n = samples.len();
    let w = n / 2;
    let Some((tau_min, tau_max)) =
        period_range((sample_rate / FMIN) as usize, (sample_rate / FMAX) as usize, w)
    else {
        return Vec::new();
    };
    let mean = samples.iter().sum::<f32>() / n as f32;
    let s: Vec<Real32> = samples.iter().map(|&x| real32(x - mean)).collect();
    let d = yin::difference(&s, w, tau_max, |sum, a, b| {
        let delta = float(a) - float(b);
        real32(float(sum) + delta * delta)
    });
    let cmndf = yin::normalized(
        &d,
        |a, b| real32(float(a) + float(b)),
        |d, tau, running| real32(float(d) * tau as f32 / float(running)),
    );
    yin::candidates(
        &cmndf,
        tau_min,
        tau_max,
        guitar_range(),
        |a, b, c, tau| real32(sample_rate / (tau as f32 + vertex(float(a), float(b), float(c)))),
        cents,
    )
}

/// A plucked-string-like tone: fundamental plus decaying harmonics.
fn string_tone(freq: f32, amp: f32, phase: f32, sr: f32, n: usize) -> Vec<f32> {
    let harmonics = [1.0f32, 0.45, 0.25, 0.12, 0.06];
    (0..n)
        .map(|i| {
            let t = i as f32 / sr;
            harmonics
                .iter()
                .enumerate()
                .map(|(k, &h)| {
                    amp * h * (2.0 * std::f32::consts::PI * freq * (k + 1) as f32 * t + phase).sin()
                })
                .sum()
        })
        .collect()
}

fn mix(a: &[f32], b: &[f32]) -> Vec<f32> {
    a.iter().zip(b).map(|(x, y)| x + y).collect()
}

/// Feed the same frame until the stabilizer reports.
fn detect(samples: &[f32]) -> Option<f32> {
    let mut det = Detector::new(48000.0);
    let mut out = None;
    for _ in 0..RECENT_FRAMES {
        det.analyze_spectrum(samples);
        out = det.track(samples);
    }
    out
}

fn assert_cents(detected: f32, target: f32, tol: f32, label: &str) {
    let cents = cents_between(detected, target);
    assert!(
        cents.abs() < tol,
        "{label}: detected {detected:.2} Hz, target {target:.2} Hz ({cents:+.1} cents, tol ±{tol})"
    );
}

#[test]
fn pure_strings_within_a_cent_and_a_half() {
    // E2, A2, D3, G3, B3, E4, plus rondeña low D2
    for target in [82.41, 110.0, 146.83, 196.0, 246.94, 329.63, 73.42] {
        let samples = string_tone(target, 0.5, 0.0, 48000.0, FFT_LEN);
        let f = detect(&samples).expect("no pitch detected");
        assert_cents(f, target, 1.5, "pure string");
    }
}

#[test]
fn a_string_with_sympathetic_low_e() {
    // Pluck A2; the open E2 rings along at 30% amplitude.
    let a2 = string_tone(110.0, 0.5, 0.0, 48000.0, FFT_LEN);
    let e2 = string_tone(82.41, 0.15, 1.1, 48000.0, FFT_LEN);
    let f = detect(&mix(&a2, &e2)).expect("no pitch detected");
    assert_cents(f, 110.0, 3.0, "A2 with E2 resonance");
}

#[test]
fn low_e_with_sympathetic_a() {
    // Pluck E2; the A2 string rings along.
    let e2 = string_tone(82.41, 0.5, 0.3, 48000.0, FFT_LEN);
    let a2 = string_tone(110.0, 0.15, 2.0, 48000.0, FFT_LEN);
    let f = detect(&mix(&e2, &a2)).expect("no pitch detected");
    assert_cents(f, 82.41, 3.0, "E2 with A2 resonance");
}

#[test]
fn detuned_a_string_with_resonance_reads_the_detune() {
    // A2 tuned 25 cents flat, E2 ringing along: the tuner must report
    // the detuned pitch, not snap to the nominal note.
    let flat_a = 110.0 * 2.0f32.powf(-25.0 / 1200.0);
    let a2 = string_tone(flat_a, 0.5, 0.0, 48000.0, FFT_LEN);
    let e2 = string_tone(82.41, 0.15, 0.8, 48000.0, FFT_LEN);
    let f = detect(&mix(&a2, &e2)).expect("no pitch detected");
    assert_cents(f, flat_a, 4.0, "detuned A2 with E2 resonance");
}

#[test]
fn strong_second_harmonic_is_not_an_octave_error() {
    // Some plucks ring with the 2nd harmonic louder than the fundamental.
    let n = FFT_LEN;
    let sr = 48000.0;
    let samples: Vec<f32> = (0..n)
        .map(|i| {
            let t = i as f32 / sr;
            let w = 2.0 * std::f32::consts::PI * 110.0 * t;
            0.3 * w.sin() + 0.5 * (2.0 * w).sin() + 0.2 * (3.0 * w).sin()
        })
        .collect();
    let f = detect(&samples).expect("no pitch detected");
    assert_cents(f, 110.0, 3.0, "dominant 2nd harmonic");
}

#[test]
fn rejects_silence_and_noise() {
    assert!(detect(&vec![0.0; FFT_LEN]).is_none());
    // Deterministic pseudo-noise
    let mut x = 12345u32;
    let noise: Vec<f32> = (0..FFT_LEN)
        .map(|_| {
            x = x.wrapping_mul(1664525).wrapping_add(1013904223);
            (x as f32 / u32::MAX as f32) - 0.5
        })
        .collect();
    assert!(detect(&noise).is_none());
}

#[test]
fn three_of_five_frames_must_agree() {
    let mut votes = Votes::new();
    let mut report = |raw: Option<f32>| votes.track(raw.map(real32), cents, mean).map(float);
    assert_eq!(report(Some(110.0)), None);
    assert_eq!(report(Some(110.5)), None);
    assert_eq!(report(Some(111.0)), Some(110.5));
    assert_eq!(report(Some(300.0)), Some(110.5));
    assert_eq!(report(Some(301.0)), Some(110.5));
    // Only the last five frames count: the other pitch has the majority now.
    assert_eq!(report(Some(302.0)), Some(301.0));
    // A frame without an estimate makes the oldest leave.
    assert_eq!(report(None), Some(301.0));
    assert_eq!(report(None), Some(301.0));
    assert_eq!(report(None), None);
    assert_eq!(votes.last, Some(real32(301.0)));
}

#[test]
fn frames_that_disagree_report_nothing() {
    let mut votes = Votes::new();
    for f in [110.0f32, 220.0, 330.0, 440.0, 550.0] {
        assert_eq!(votes.track(Some(real32(f)), cents, mean), None);
    }
    let v = reals(&[1.0, 2.0, 3.0, 4.0]);
    assert_eq!(agreement(&v, &reals(&[-25.0, 24.9, 0.0, 25.1])), None);
    assert_eq!(
        agreement(&v, &reals(&[-24.9, 24.9, 0.0, 25.1])),
        Some(reals(&[1.0, 2.0, 3.0]))
    );
    let mut votes = Votes::new();
    votes.observe(Some(real32(3.0)));
    votes.observe(Some(real32(1.0)));
    assert_eq!(votes.observe(Some(real32(2.0))), Some(reals(&[1.0, 2.0, 3.0])));
}

#[test]
fn candidate_that_continues_gets_the_bonus() {
    let mut votes = Votes::new();
    let c = |freq: f32| Candidate { freq: real32(freq), cmndf: real32(0.1) };
    let cands = vec![c(110.0), c(220.0)];
    let score = |c: Candidate, continues: bool| {
        let s = if float(c.freq) > 200.0 { 1.0 } else { 0.9 };
        real32(if continues { s * 1.3 } else { s })
    };
    assert_eq!(votes.estimate(&cands, cents, score, |_| None), Some(real32(220.0)));
    votes.settle(real32(111.0));
    assert_eq!(votes.estimate(&cands, cents, score, |_| None), Some(real32(110.0)));
    // A refinement close by is trusted, one far away is not.
    let near = |f: Real32| Some(real32(float(f) * 1.01));
    let far = |f: Real32| Some(real32(float(f) * 1.1));
    assert_eq!(votes.estimate(&cands, cents, score, near), Some(real32(110.0 * 1.01)));
    assert_eq!(votes.estimate(&cands, cents, score, far), Some(real32(110.0)));
    // Nothing to choose from, or nothing worth it.
    assert_eq!(votes.estimate(&Vec::new(), cents, score, near), None);
    assert_eq!(votes.estimate(&cands, cents, |_, _| real32(0.0), near), None);
}

#[test]
fn detector_forgets() {
    let mut votes = Votes::new();
    for _ in 0..3 {
        votes.observe(Some(real32(110.0)));
    }
    votes.settle(real32(110.0));
    assert!(votes.continues(&real32(-79.9)));
    assert!(!votes.continues(&real32(80.0)));
    votes.relax();
    assert_eq!(votes.recent.len(), 2);
    votes.reset();
    assert_eq!(votes.recent.len(), 0);
    assert!(!votes.continues(&real32(0.0)));
    votes.relax();
    assert_eq!(votes.recent.len(), 0);
}

#[test]
fn difference_function_of_a_square_wave() {
    // Period 4: the difference vanishes at shifts of 4 and is largest at 2.
    let s: Vec<Real32> = (0..16).map(|i| real32(if i % 4 < 2 { 1.0 } else { -1.0 })).collect();
    let d = yin::difference(&s, 8, 5, |sum, a, b| {
        let delta = float(a) - float(b);
        real32(float(sum) + delta * delta)
    });
    let values: Vec<f32> = d.iter().map(|&v| float(v)).collect();
    assert_eq!(values, vec![0.0, 16.0, 32.0, 16.0, 0.0, 16.0]);
    let plus = |a, b| real32(float(a) + float(b));
    let ratio = |d, tau: usize, sum| real32(float(d) * tau as f32 / float(sum));
    let n: Vec<f32> = yin::normalized(&d, plus, ratio).iter().map(|&v| float(v)).collect();
    assert_eq!(n, vec![1.0, 1.0, 64.0 / 48.0, 48.0 / 64.0, 0.0, 1.0]);
    // Silence is one everywhere.
    let silence = yin::normalized(&vec![real32(0.0); 3], plus, ratio);
    assert_eq!(silence, vec![real32(1.0); 3]);
}

#[test]
fn dips_are_deep_local_minima() {
    let f = reals(&[1.0, 1.0, 0.3, 0.3, 0.9, 0.4, 0.9, 0.1, 0.0, 1.0]);
    assert_eq!(dips(&f, 2, 9), vec![2, 3, 8]);
    assert_eq!(dips(&f, 2, 8), vec![2, 3]);
    assert_eq!(period_range(872, 80, 2048), Some((80, 872)));
    assert_eq!(period_range(872, 1, 100), Some((2, 99)));
    assert_eq!(period_range(82, 80, 2048), None);
}

#[test]
fn candidates_are_distinct_and_few() {
    let c = |freq: f32, cmndf: f32| Candidate { freq: real32(freq), cmndf: real32(cmndf) };
    let cands = vec![
        c(110.0, 0.2),
        c(110.3, 0.1), // within 10 cents of the first, and better
        c(54.0, 0.0),  // below the range
        c(601.0, 0.0), // above it
        c(220.0, 0.3),
    ];
    let between = |cands: &Vec<Candidate>| -> Vec<Vec<Real32>> {
        cands
            .iter()
            .map(|a| {
                cands
                    .iter()
                    .map(|b| real32(cents_between(float(a.freq), float(b.freq))))
                    .collect()
            })
            .collect()
    };
    assert_eq!(keep_candidates(&cands, guitar_range(), &between(&cands)), vec![1, 4]);
    let many: Vec<Candidate> = (0..9).map(|i| c(100.0 + 20.0 * i as f32, 0.3)).collect();
    assert_eq!(
        keep_candidates(&many, guitar_range(), &between(&many)),
        vec![0, 1, 2, 3, 4, 5]
    );
}

#[test]
fn best_score_must_be_positive() {
    assert_eq!(best_candidate(&reals(&[0.5, 0.7, 0.7, 0.1])), Some(2));
    assert_eq!(best_candidate(&reals(&[0.0, -1.0])), None);
    assert_eq!(best_candidate(&Vec::new()), None);
    let (a, b) = (real32(110.0), real32(111.0));
    assert_eq!(trusted(a, Some(b), real32(39.9)), b);
    assert_eq!(trusted(a, Some(b), real32(-40.0)), a);
    assert_eq!(trusted(a, None, real32(0.0)), a);
    assert!(own_harmonic(&real32(-29.9)));
    assert!(!own_harmonic(&real32(30.0)));
}

#[test]
fn harmonics_are_genuine_peaks() {
    let mut mags = vec![0.0f32; 64];
    mags[20] = 0.5;
    assert_eq!(harmonic_peak(&reals(&mags), 22), Harmonic::Peak(20));
    assert_eq!(harmonic_peak(&reals(&mags), 30), Harmonic::Absent);
    assert_eq!(harmonic_peak(&reals(&mags), 70), Harmonic::Beyond);
    // The slope of a neighbour is no peak.
    mags[17] = 0.9;
    mags[18] = 0.7;
    assert_eq!(harmonic_peak(&reals(&mags), 20), Harmonic::Absent);
    mags[40] = 1e-7;
    assert_eq!(harmonic_peak(&reals(&mags), 40), Harmonic::Absent);
    assert_eq!(float(mag_near(&reals(&mags), 17, 20)), 0.9);
    assert_eq!(float(mag_near(&reals(&[-1.0, f32::NAN]), 0, 1)), 0.0);
}

#[test]
fn bins_beyond_the_spectrum_hold_nothing() {
    let mags = reals(&[0.1, 0.2, 0.3]);
    assert_eq!(float(mag_near(&mags, 1, 9)), 0.3);
    assert_eq!(float(mag_near(&mags, 5, 9)), 0.0);
    assert_eq!(harmonic_peak(&mags, usize::MAX), Harmonic::Beyond);
}

#[test]
fn score_weighs_six_harmonics() {
    let mags = reals(&[0.0, 1.0, 1.0, 1.0, 1.0, 1.0, 1.0, 1.0]);
    let share = |m: Real32, k: usize| real32(float(m) / k as f32);
    let plus = |a: Real32, b: Real32| real32(float(a) + float(b));
    let all = harmonic_score(&mags, |k| Some((k, k)), share, plus);
    assert!((float(all) - 2.45).abs() < 1e-6);
    // Those beyond the limit add nothing.
    let low = harmonic_score(&mags, |k| (k < 3).then_some((k, k)), share, plus);
    assert_eq!(low, real32(1.5));
}

#[test]
fn refinement_weighs_its_own_harmonics() {
    let mut mags = vec![0.0f32; 64];
    mags[10] = 0.5;
    mags[20] = 0.25;
    mags[31] = 1.0;
    // The third peak speaks for another pitch: it is 57 cents off.
    let asked = |mags: &[f32], f0: f32| {
        refine(
            &reals(mags),
            real32(f0),
            |k| (f0 * k as f32).round() as usize,
            |_, _, _, bin, k| real32(bin as f32 / k as f32),
            cents,
            |(num, den), m, f| {
                (real32(float(num) + float(m) * float(f)), real32(float(den) + float(m)))
            },
            |num, den| real32(float(num) / float(den)),
        )
        .map(float)
    };
    assert_eq!(asked(&mags, 10.0), Some(10.0));
    mags[20] = 0.0;
    mags[10] = 0.0;
    assert_eq!(asked(&mags, 10.0), None);
    // The first harmonic beyond the spectrum ends the series.
    assert_eq!(asked(&mags, 70.0), None);
}

#[test]
fn inaudible_frames_are_no_evidence() {
    let mut votes = Votes::new();
    let cands = vec![Candidate { freq: real32(110.0), cmndf: real32(0.1) }];
    let mut frame = |audible: bool| {
        votes
            .listen(audible, &cands, cents, |_, _| real32(1.0), |_| None, mean)
            .map(float)
    };
    assert_eq!((frame(true), frame(true), frame(true)), (None, None, Some(110.0)));
    // Silence is reported at once, and wears the evidence off.
    assert_eq!(frame(false), None);
    assert_eq!(frame(true), Some(110.0));
    assert_eq!((frame(false), frame(false)), (None, None));
    assert_eq!(frame(true), None);
    assert_eq!(votes.recent.len(), 2);
    assert_eq!(votes.last, Some(real32(110.0)));
}

#[test]
fn stable_pitch_lies_among_the_held() {
    let mut votes = Votes::new();
    for f in [110.0f32, 110.7, 109.8, 110.2, 220.0, 110.4, 109.9] {
        if let Some(p) = votes.track(Some(real32(f)), cents, mean) {
            let held: Vec<f32> = votes.recent.iter().map(|&f| float(f)).collect();
            assert!(held.iter().any(|&h| h <= float(p)) && held.iter().any(|&h| h >= float(p)));
            assert!(float(p) < 111.0, "the octave took part: {}", float(p));
        }
    }
}
