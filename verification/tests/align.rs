use std::f32::consts::PI;

use flamenco_tuner::dsp::align::{
    confident, find_delay, find_peak, pad, read_aligned as read_window, whiten, Correction, Servo,
    CFFT, CORR_LEN, REF_AGE,
};
use flamenco_tuner::audio::RING_LEN;
use flamenco_tuner::gui::beam::{
    beam_age, beam_window, combine, measure, reference_window, snapshot_tail, Measure, Measurement,
    PhoneFrame, ServoBank,
};
use flamenco_tuner::gui::fusion::{build_beam, step_phones, Part, Phone};
use flamenco_tuner::ieee::{Real32, Real64};
use rustfft::num_complex::Complex;
use rustfft::FftPlanner;

const SEARCH: (f32, f32) = (-4090.0, 8000.0);
const MIN_CONFIDENCE: f32 = 1.3;

fn real32(v: f32) -> Real32 {
    Real32::from_bits(v.to_bits())
}

fn real64(v: f64) -> Real64 {
    Real64::from_bits(v.to_bits())
}

fn float(r: Real32) -> f32 {
    f32::from_bits(r.bits)
}

fn float64(r: Real64) -> f64 {
    f64::from_bits(r.bits)
}

struct DelayEstimate {
    lag: f32,
    confidence: f32,
}

/// Whitened cross-correlation of two windows, and its peak.
fn estimate(reference: &[f32], delayed: &[f32], lo: f32, hi: f32) -> Option<DelayEstimate> {
    let mut planner = FftPlanner::new();
    let (fwd, inv) = (planner.plan_fft_forward(CFFT), planner.plan_fft_inverse(CFFT));
    let zero = Complex::new(0.0, 0.0);
    let window = |v: f32, i: usize| {
        let x = i as f32 / (CORR_LEN - 1) as f32;
        Complex::new(v * (0.5 - 0.5 * (2.0 * PI * x).cos()), 0.0)
    };
    let mut x = pad(&reference.to_vec(), zero, window);
    let mut y = pad(&delayed.to_vec(), zero, window);
    fwd.process(&mut x);
    fwd.process(&mut y);
    let mut r = whiten(
        &x,
        &y,
        zero,
        |c: Complex<f32>| real32(c.norm()),
        |max| real32(3e-3 * float(max)),
        |a, b| a.conj() * b,
        |p, n| p / float(n),
    );
    inv.process(&mut r);
    let lo = lo.max(-(CORR_LEN as f32) + 2.0).ceil() as i64;
    let hi = hi.min(CORR_LEN as f32 - 2.0).floor() as i64;
    find_delay(
        &r.iter().map(|c| real32(c.re)).collect(),
        lo,
        hi,
        |peak, runner| real32(float(peak) / float(runner)),
        |best, a, b, d| {
            let (a, b, d) = (float(a), float(b), float(d));
            let denom = a - 2.0 * b + d;
            let delta = if denom.abs() > f32::EPSILON {
                (0.5 * (a - d) / denom).clamp(-0.5, 0.5)
            } else {
                0.0
            };
            real32(best as f32 + delta)
        },
    )
    .map(|d| DelayEstimate { lag: float(d.lag), confidence: float(d.confidence) })
}

fn correction(servo: &Servo, t: f64, measured: f64) -> Correction {
    let t0 = servo.last.map_or(t, float64);
    let dt = (t - t0).max(1e-3);
    let predicted = float64(servo.offset) + float64(servo.rate) * dt;
    let e = measured - predicted;
    Correction {
        dt: real64(dt),
        error: real64(e),
        offset: real64(predicted + 0.35 * e),
        rate: real64((float64(servo.rate) + 0.05 * e / dt).clamp(-25.0, 25.0)),
        quality: real32((float(servo.quality) + 0.15).min(1.0)),
    }
}

fn update(servo: &mut Servo, t: f64, measured: f64) {
    let c = correction(servo, t, measured);
    servo.update(real64(t), real64(measured), &c);
}

fn offset_at(servo: &Servo, t: f64) -> Option<f64> {
    servo
        .offset_at(real64(t), &|offset, rate, t0, t| {
            real64(float64(offset) + float64(rate) * (float64(t) - float64(t0)))
        })
        .map(float64)
}

fn drift_ppm(servo: &Servo, sample_rate: f32) -> f64 {
    float64(servo.rate) / sample_rate as f64 * 1e6
}

fn read_aligned(
    snapshot: &Vec<f32>,
    snap_total: u64,
    mac_total: u64,
    offset: f64,
    age_end: usize,
    len: usize,
) -> Option<Vec<f32>> {
    let whole = offset.floor();
    let f = (offset - whole) as f32;
    read_window(snapshot, snap_total, mac_total, whole as i64, age_end, len, |a, b| {
        a * (1.0 - f) + b * f
    })
}

/// Deterministic broadband-ish test signal: LCG noise smoothed a touch
/// so fractional-delay interpolation is meaningful.
fn noise(seed: u32, n: usize) -> Vec<f32> {
    let mut x = seed;
    let raw: Vec<f32> = (0..n + 2)
        .map(|_| {
            x = x.wrapping_mul(1664525).wrapping_add(1013904223);
            (x as f32 / u32::MAX as f32) - 0.5
        })
        .collect();
    raw.windows(3).map(|w| (w[0] + w[1] + w[2]) / 3.0).collect()
}

/// `n` samples of `source` read at fractional positions start, start+1, …
fn frac_window(source: &[f32], start: f32, n: usize) -> Vec<f32> {
    (0..n)
        .map(|i| {
            let p = start + i as f32;
            let p0 = p.floor();
            let f = p - p0;
            let p0 = p0 as usize;
            source[p0] * (1.0 - f) + source[p0 + 1] * f
        })
        .collect()
}

#[test]
fn correlator_finds_known_delay() {
    let src = noise(7, 40000);
    let d = 1234.4f32;
    let x = &src[20000..20000 + CORR_LEN];
    // y(i) = src(20000 + i − d) = x(i − d) → lag = d.
    let y = frac_window(&src, 20000.0 - d, CORR_LEN);
    let est = estimate(x, &y, -200.0, 4000.0).expect("no estimate");
    assert!((est.lag - d).abs() < 0.3, "lag {} expected {}", est.lag, d);
    assert!(est.confidence > MIN_CONFIDENCE, "confidence {}", est.confidence);
}

#[test]
fn correlator_is_never_confidently_wrong_on_periodic_tones() {
    // A sustained tone correlates at every period (comb ambiguity).
    // If confidence clears the threshold, the lag must be the true one —
    // a wrong comb peak must score below it.
    let sr = 48000.0;
    for true_lag in [300usize, 1100, 2500] {
        let tone: Vec<f32> = (0..CORR_LEN + 3000)
            .map(|i| (2.0 * PI * 110.0 * i as f32 / sr).sin())
            .collect();
        let x = &tone[2800..2800 + CORR_LEN];
        let y = &tone[2800 - true_lag..2800 - true_lag + CORR_LEN];
        if let Some(est) = estimate(x, y, -200.0, 4000.0) {
            if confident(&real32(est.confidence)) {
                assert!(
                    (est.lag - true_lag as f32).abs() < 2.0,
                    "confident ({:.2}) but wrong: lag {} expected {}",
                    est.confidence,
                    est.lag,
                    true_lag
                );
            }
        }
    }
}

#[test]
fn servo_tracks_offset_and_drift() {
    // O(t) = 100 + 2.4t (50 ppm at 48 kHz) with ±0.5-sample noise,
    // measured 4×/s for 10 s, then 15 s of silence.
    let mut servo = Servo::default();
    let mut x = 99u32;
    let mut rand = move || {
        x = x.wrapping_mul(1664525).wrapping_add(1013904223);
        (x as f64 / u32::MAX as f64) - 0.5
    };
    let mut t = 0.0;
    while t < 10.0 {
        update(&mut servo, t, 100.0 + 2.4 * t + rand());
        t += 0.25;
    }
    assert!(servo.locked());
    let p10 = offset_at(&servo, 10.0).unwrap();
    assert!((p10 - 124.0).abs() < 2.0, "offset at t=10: {p10}");
    let drift = drift_ppm(&servo, 48000.0);
    assert!((drift - 50.0).abs() < 15.0, "drift {drift} ppm");
    // Extrapolation through silence.
    let p25 = offset_at(&servo, 25.0).unwrap();
    assert!((p25 - 160.0).abs() < 10.0, "offset at t=25: {p25}");
}

#[test]
fn servo_survives_isolated_false_peak() {
    let mut servo = Servo::default();
    for i in 0..20 {
        update(&mut servo, i as f64 * 0.25, 500.0);
    }
    update(&mut servo, 5.25, 1200.0); // comb peak one period off
    let p = offset_at(&servo, 5.5).unwrap();
    assert!((p - 500.0).abs() < 2.0, "false peak moved the lock: {p}");
}

#[test]
fn persistent_peak_takes_the_lock() {
    let mut servo = Servo::new();
    update(&mut servo, 0.0, 500.0);
    assert!(servo.locked());
    for i in 1..=3u32 {
        update(&mut servo, i as f64, 1200.0);
        assert_eq!(servo.outliers, i);
        assert_eq!(float64(servo.offset), 500.0);
        assert_eq!(servo.last, Some(real64(0.0)));
    }
    update(&mut servo, 4.0, 1200.0);
    assert_eq!(float64(servo.offset), 1200.0);
    assert_eq!(float64(servo.rate), 0.0);
    assert_eq!(servo.last, Some(real64(4.0)));
    assert_eq!(servo.outliers, 0);
    assert!(servo.locked());
}

#[test]
fn quality_decides_the_lock() {
    let mut servo = Servo::new();
    assert!(!servo.locked());
    update(&mut servo, 0.0, 10.0);
    servo.miss(real32(0.3));
    assert!(servo.locked());
    servo.miss(real32(0.299));
    assert!(!servo.locked());
    assert_eq!(float64(servo.offset), 10.0);
    // Unlocked, a far measurement is no outlier; a rate learns only close by.
    update(&mut servo, 5.0, 1010.0);
    assert_eq!(float64(servo.offset), 10.0 + 0.35 * 1000.0);
    assert_eq!(float64(servo.rate), 0.0);
    servo.miss(real32(0.0));
    update(&mut servo, 6.0, 360.0 + 100.0);
    assert_eq!(float64(servo.rate), 5.0);
}

#[test]
fn aligned_delay_and_sum_improves_snr() {
    // Mac hears the source clean-ish; three phones hear it with
    // different latencies/offsets and independent noise. After
    // measurement + aligned summation, the residual error vs the clean
    // source must drop well below a single noisy stream's.
    let n_src = 60000;
    let src = noise(3, n_src);
    let mac_total = 50000u64;
    let mac_ring = &src[50000 - 16384..50000];

    let mut aligned: Vec<Vec<f32>> = Vec::new();
    let age_end = 5000;
    let want = 4096;
    let clean = &mac_ring[16384 - age_end - want..16384 - age_end];

    for (i, true_delay) in [803.3f32, 2241.7, 411.9].into_iter().enumerate() {
        let noise_i = noise(100 + i as u32, 16384);
        // Phone stream: 49000 samples received; sample p holds
        // src(p − delay) → offset O = +delay. Only the ring snapshot
        // (last 16384 samples) is materialized, plus the phone's own noise.
        let snap_total = 49000u64;
        let snap: Vec<f32> = frac_window(&src, (49000 - 16384) as f32 - true_delay, 16384)
            .iter()
            .zip(&noise_i)
            .map(|(&s, &m)| s + 0.5 * m)
            .collect();

        // Measure: Mac window at REF_AGE vs phone tail.
        let x = reference_window(&mac_ring.to_vec());
        let y = snapshot_tail(&snap);
        let est = estimate(&x, &y, SEARCH.0, SEARCH.1).expect("no estimate");
        assert!(est.confidence > MIN_CONFIDENCE);
        let dtot = snap_total as i64 - mac_total as i64;
        let offset = dtot as f64 + REF_AGE as f64 + est.lag as f64;
        let w = read_aligned(&snap, snap_total, mac_total, offset, age_end, want)
            .expect("aligned read out of range");
        aligned.push(w);
    }

    let single_err = rms_diff(&aligned[0], clean);
    let beam: Vec<f32> = (0..want)
        .map(|i| aligned.iter().map(|w| w[i]).sum::<f32>() / aligned.len() as f32)
        .collect();
    let beam_err = rms_diff(&beam, clean);
    assert!(
        beam_err < single_err * 0.75,
        "beam err {beam_err} vs single {single_err}"
    );
}

fn rms_diff(a: &[f32], b: &[f32]) -> f32 {
    let s: f32 = a.iter().zip(b).map(|(x, y)| (x - y) * (x - y)).sum();
    (s / a.len() as f32).sqrt()
}

#[test]
fn peak_and_runner_up() {
    let mut r = vec![real32(0.0); CFFT];
    r[100] = real32(2.0);
    r[101] = real32(2.0); // the last of equal peaks counts
    r[102] = real32(1.5);
    r[160] = real32(1.9); // within the guard
    r[CFFT - 50] = real32(1.25); // lag -50
    r[CFFT - 300] = real32(9.0); // outside the search
    let p = find_peak(&r, -200, 400).unwrap();
    assert_eq!(p.best, 101);
    assert_eq!((float(p.before), float(p.peak), float(p.after)), (2.0, 2.0, 1.5));
    assert_eq!(float(p.runner), 1.25);
    assert!(p.contested);
    // Nothing positive, or an empty range, is no peak.
    assert!(find_peak(&r, -200, -100).is_none());
    assert!(find_peak(&r, 100, 100).is_none());
    let alone = find_peak(&r, 90, 110).unwrap();
    assert_eq!(float(alone.runner), f32::MIN);
    assert!(!alone.contested);
}

#[test]
fn reads_stay_inside_the_snapshot() {
    let snap = vec![10, 20, 30];
    let sum = |a: i32, b: i32| a + b;
    // Both streams end together: the last sample has no neighbour yet.
    assert_eq!(read_window(&snap, 103, 103, 0, 1, 2, sum), Some(vec![30, 50]));
    assert_eq!(read_window(&snap, 103, 103, 0, 0, 1, sum), None);
    assert_eq!(read_window(&snap, 103, 103, -1, 0, 2, sum), Some(vec![30, 50]));
    assert_eq!(read_window(&snap, 103, 103, 0, 2, 2, sum), None);
    // The phone is two samples ahead.
    assert_eq!(read_window(&snap, 105, 103, 1, 0, 2, sum), Some(vec![30, 50]));
    assert_eq!(read_window(&snap, 0, u64::MAX, i64::MAX, 0, 1, sum), None);
    assert_eq!(read_window(&snap, u64::MAX, 0, i64::MIN, 9, 1, sum), None);
    assert_eq!(read_window(&snap, 103, 103, 0, 0, 0, sum), Some(Vec::new()));
    assert_eq!(read_window(&Vec::<i32>::new(), 0, 0, 0, 0, 1, sum), None);
}

#[test]
fn phones_are_measured_when_they_can_be() {
    let loud = real32(0.01);
    let quiet = real32(0.004);
    assert_eq!(measure(CORR_LEN - 1, &loud, &loud), Measure::Skip);
    assert_eq!(measure(CORR_LEN, &loud, &loud), Measure::Search);
    assert_eq!(measure(CORR_LEN, &loud, &quiet), Measure::Miss);
    assert_eq!(measure(CORR_LEN, &quiet, &loud), Measure::Miss);
}

#[test]
fn servos_belong_to_phones() {
    let mut bank = ServoBank::new();
    let fresh = bank.servo(1);
    assert!(!fresh.locked());
    let found = |confidence: f32| {
        Some(Measurement {
            confidence: real32(confidence),
            offset: real64(77.0),
            correction: correction(&fresh, 1.0, 77.0),
        })
    };
    bank.conclude(1, real64(1.0), &found(1.3), real32(0.0));
    bank.conclude(2, real64(1.0), &found(1.29), real32(0.0));
    bank.conclude(3, real64(1.0), &None, real32(0.0));
    assert!(bank.servo(1).locked());
    assert_eq!(float64(bank.servo(1).offset), 77.0);
    assert!(!bank.servo(2).locked());
    assert!(!bank.servo(3).locked());
    bank.retain(&vec![2, 1, 9]);
    assert_eq!(bank.servos.len(), 2);
    assert!(bank.servo(1).locked());
    bank.retain(&vec![2]);
    assert!(!bank.servo(1).locked());
}

#[test]
fn phones_go_into_the_beam_or_beside_it() {
    assert_eq!(beam_age(0), 256);
    assert_eq!(beam_age(128), 256);
    assert_eq!(beam_age(1000), 1128);
    assert_eq!(beam_age(100_000), 8192);
    let window: Vec<usize> = (0..16384).collect();
    let part = beam_window(&window, 1128);
    assert_eq!((part[0], part.len()), (16384 - 1128 - 8192, 8192));
    let reference = reference_window(&window);
    assert_eq!((reference[0], reference.len()), (4096, 8192));

    let snap: Vec<usize> = (0..9000).collect();
    let frame = |window: Option<Vec<usize>>| PhoneFrame { snap: snap.clone(), window };
    let c = combine(&vec![frame(Some(vec![1])), frame(None), frame(Some(vec![2]))]);
    assert_eq!(c.aligned, vec![vec![1], vec![2]]);
    assert_eq!(c.extras.len(), 1);
    assert_eq!((c.extras[0][0], c.extras[0].len()), (9000 - 8192, 8192));
    assert_eq!(c.beam_mics, 3);
    let c = combine(&vec![frame(None)]);
    assert_eq!((c.aligned.len(), c.beam_mics), (0, 0));
}

#[test]
fn offset_is_unknown_before_a_measurement() {
    assert_eq!(offset_at(&Servo::default(), 1.0), None);
    let servo = Servo {
        offset: real64(10.0),
        rate: real64(2.0),
        last: Some(real64(3.0)),
        ..Servo::default()
    };
    assert_eq!(offset_at(&servo, 5.0), Some(14.0));
}

#[test]
fn lone_peak_is_certain() {
    let mut r = vec![real32(0.0); CFFT];
    r[100] = real32(0.5);
    let delay = |r: &Vec<Real32>| {
        find_delay(
            r,
            -200,
            4000,
            |a, b| real32(float(a) / float(b)),
            |best, _, _, _| real32(best as f32),
        )
        .map(|d| (float(d.lag), float(d.confidence)))
    };
    assert_eq!(delay(&r), Some((100.0, 99.0)));
    // A competitor makes it less so.
    r[1000] = real32(0.25);
    assert_eq!(delay(&r), Some((100.0, 2.0)));
    r[1000] = real32(1e-9);
    assert_eq!(delay(&r), Some((100.0, 99.0)));
    assert_eq!(delay(&vec![real32(0.0); CFFT]), None);
}

#[test]
fn windows_are_padded_with_silence() {
    let padded = pad(&vec![2.0f32, 3.0], -1.0f32, |v, i| v * i as f32);
    assert_eq!(padded.len(), CFFT);
    assert_eq!(padded[..4], [0.0, 3.0, -1.0, -1.0]);
}

#[test]
fn bins_of_little_energy_are_not_whitened() {
    let x = vec![10.0f32, -4.0, 0.01, 5.0, 1e-20];
    let y = vec![3.0f32, 2.0, 2.0, 0.001, 1e-20];
    let size = |c: f32| real32(c.abs());
    let unit = |p: f32, n: Real32| p / float(n);
    let w = whiten(&x, &y, 0.0, size, |max| real32(0.003 * float(max)), |a, b| a * b, unit);
    assert_eq!(w, vec![1.0, -1.0, 0.0, 0.0, 0.0]);
    // Without a floor the tiny product still counts for nothing.
    let w = whiten(&x, &y, 0.0, size, |_| real32(0.0), |a, b| a * b, unit);
    assert_eq!(w, vec![1.0, -1.0, 1.0, 1.0, 0.0]);
}

#[test]
fn locked_phones_join_the_beam() {
    // The loud phone is measured and locks, the quiet one misses, the new one has not
    // sent enough to take part.
    let window: Vec<f32> = (0..RING_LEN).map(|i| i as f32).collect();
    let phone = |id: u64, value: f32, len: usize| Phone {
        id,
        snap: vec![value; len],
        snap_total: 100 * id,
    };
    let phones = vec![phone(1, 0.5, CORR_LEN), phone(2, 0.0, CORR_LEN + 1), phone(3, 0.5, 10)];
    let mut bank = ServoBank::new();
    bank.servos.insert(9, Servo::default());
    let step = |bank: &mut ServoBank, now: f64| {
        step_phones(
            bank,
            &phones,
            &window,
            real64(now),
            |v: Vec<f32>| real32(v.iter().fold(0.0f32, |m, x| m.max(*x))),
            |servo, known, mac_ref, tail, total| {
                assert_eq!(mac_ref[0], (RING_LEN - REF_AGE - CORR_LEN) as f32);
                assert_eq!((tail.len(), tail[0], total), (CORR_LEN, 0.5, 100));
                let expected = if servo.locked() { Part::Locked(real64(7.0)) } else { Part::Unlocked };
                assert_eq!(known, expected);
                Some(Measurement {
                    confidence: real32(5.0),
                    offset: real64(7.0),
                    correction: correction(&servo, now, 7.0),
                })
            },
            |_| real32(0.125),
            |offset, _, _, _| offset,
        )
    };
    let parts = step(&mut bank, 1.0);
    assert_eq!(parts, vec![Part::Locked(real64(7.0)), Part::Unlocked, Part::Absent]);
    assert!(!bank.servos.contains_key(&9));
    assert_eq!(bank.servos[&1].offset, real64(7.0));
    assert_eq!(bank.servos[&2].quality, real32(0.125));
    assert_eq!(bank.servos[&3].quality, real32(0.125));
    let parts = step(&mut bank, 2.0);

    let beam = build_beam(
        &phones,
        &parts,
        &window,
        |offset, total| real64(float64(offset) + total as f64 + 293.0),
        |lag| float64(lag) as usize,
        |snap, total, offset, age| {
            assert_eq!((snap.len(), total, offset), (CORR_LEN, 100, real64(7.0)));
            // 400 samples behind, and the slack.
            assert_eq!(age, 528);
            Some(vec![2.0; 8192])
        },
        |v, mics| v / mics as f32,
        |a, b| a + b,
    );
    assert_eq!(beam.mics, 2);
    let sum = beam.beam.expect("no beam");
    assert_eq!(sum.len(), 8192);
    assert_eq!(sum[3], (RING_LEN - 528 - 8192 + 3) as f32 / 2.0 + 1.0);
    assert_eq!(beam.extras, vec![vec![0.0; 8192]]);
    // A phone whose audio cannot be read counts beside the beam.
    let none = build_beam(
        &phones,
        &parts,
        &window,
        |_, _| real64(f64::NAN),
        |lag| float64(lag) as usize,
        |_, _, _, age| {
            assert_eq!(age, 256);
            None
        },
        |v: f32, _| v,
        |a, b| a + b,
    );
    assert_eq!((none.mics, none.beam, none.extras.len()), (0, None, 2));
}

#[test]
fn counters_matter_by_their_difference() {
    let snap: Vec<f32> = noise(5, 64);
    for d in [0u64, 1, 1 << 40] {
        let w = read_aligned(&snap, 1000 + d, 990 + d, 3.25, 4, 20);
        assert_eq!(w, read_aligned(&snap, 1000, 990, 3.25, 4, 20));
        let w = w.expect("inside the snapshot");
        // The youngest sample: 990 - 1 - 4 + 3 - 1000 + 64 = 52, and a quarter.
        assert_eq!(w[19], snap[52] * 0.75 + snap[53] * 0.25);
    }
}
