use flamenco_tuner::dsp::vibrato::{
    analyze as analyze_points, crossings, judge, last_voiced, percentile_span, voiced, Point,
    Vibrato,
};
use flamenco_tuner::ieee::{Real32, Real64};

fn real32(v: f32) -> Real32 {
    Real32::from_bits(v.to_bits())
}

fn real64(v: f64) -> Real64 {
    Real64::from_bits(v.to_bits())
}

fn float(r: Real32) -> f32 {
    f32::from_bits(r.bits)
}

fn float64(r: Real64) -> f64 {
    f64::from_bits(r.bits)
}

fn analyze(history: &[[f64; 2]], window_secs: f64) -> Option<Vibrato> {
    let history: Vec<Point> = history
        .iter()
        .map(|p| Point { time: real64(p[0]), cents: real64(p[1]) })
        .collect();
    analyze_points(
        &history,
        |end| real64(float64(end) - window_secs),
        |first, last| real32((float64(last) - float64(first)) as f32),
        |pts| {
            let mean = pts.iter().map(|p| float64(p.cents)).sum::<f64>() / pts.len() as f64;
            (real64(mean), real32(mean as f32))
        },
        |cents, mean| real32((float64(cents) - float64(mean)) as f32),
        |lo, hi| real32((float(hi) - float(lo)) / 2.0),
        |crossings, duration| real32(crossings as f32 / 2.0 / float(duration)),
    )
}

#[test]
fn measures_synthetic_vibrato() {
    // 6 Hz, ±40 cents, sampled at 20 fps for 3 s, centered +5 cents.
    let history: Vec<[f64; 2]> = (0..60)
        .map(|i| {
            let t = i as f64 / 20.0;
            [t, 5.0 + 40.0 * (2.0 * std::f64::consts::PI * 6.0 * t).sin()]
        })
        .collect();
    let v = analyze(&history, 3.0).expect("vibrato not detected");
    let (rate, depth, mean) = (float(v.rate_hz), float(v.depth_cents), float(v.mean_cents));
    assert!((rate - 6.0).abs() < 0.5, "rate {}", rate);
    assert!((depth - 40.0).abs() / 40.0 < 0.15, "depth {}", depth);
    assert!((mean - 5.0).abs() < 3.0, "mean {}", mean);
}

#[test]
fn steady_tone_is_not_vibrato() {
    let history: Vec<[f64; 2]> = (0..60).map(|i| [i as f64 / 20.0, 2.0]).collect();
    assert!(analyze(&history, 3.0).is_none());
}

#[test]
fn gaps_are_ignored() {
    let mut history: Vec<[f64; 2]> = (0..60)
        .map(|i| {
            let t = i as f64 / 20.0;
            [t, 30.0 * (2.0 * std::f64::consts::PI * 5.0 * t).sin()]
        })
        .collect();
    history.insert(30, [1.5, f64::NAN]);
    let v = analyze(&history, 3.0).expect("vibrato not detected through gap");
    assert!((float(v.rate_hz) - 5.0).abs() < 0.6);
}

#[test]
fn recent_voiced_points_count() {
    let at = |t: f64, c: f64| Point { time: real64(t), cents: real64(c) };
    let mut history: Vec<Point> = (0..20).map(|i| at(i as f64, i as f64)).collect();
    history.push(at(20.0, f64::NAN));
    assert_eq!(last_voiced(&history), Some(real64(19.0)));
    assert_eq!(voiced(&history, real64(8.0)).unwrap().len(), 12);
    assert!(voiced(&history, real64(8.5)).is_none());
    assert_eq!(last_voiced(&vec![at(1.0, f64::NAN)]), None);
}

#[test]
fn crossings_and_percentiles() {
    let values: Vec<Real32> = [1.0, 0.0, -0.0, -1.0, 2.0, -3.0].iter().map(|&v| real32(v)).collect();
    assert_eq!(crossings(&values), 3);
    assert_eq!(crossings(&Vec::new()), 0);
    let ramp: Vec<Real32> = (0..100).rev().map(|i| real32(i as f32)).collect();
    assert_eq!(percentile_span(&ramp), (real32(5.0), real32(95.0)));
}

#[test]
fn vibrato_is_long_deep_and_fast() {
    let v = |d: f32, r: f32, c: f32| judge(real32(d), real32(r), real32(c), real32(0.0)).is_some();
    assert!(v(0.5, 1.0, 5.0));
    assert!(!v(0.49, 1.0, 5.0));
    assert!(!v(0.5, 0.99, 5.0));
    assert!(!v(0.5, 1.0, 4.99));
}

#[test]
fn short_or_silent_history_has_no_vibrato() {
    assert!(analyze(&[], 3.0).is_none());
    assert!(analyze(&[[0.0, f64::NAN]], 3.0).is_none());
    let wave = |n: usize, step: f64| -> Vec<[f64; 2]> {
        (0..n).map(|i| [i as f64 * step, if i % 2 == 0 { 20.0 } else { -20.0 }]).collect()
    };
    // Too few points, and too short a time.
    assert!(analyze(&wave(11, 0.1), 3.0).is_none());
    assert!(analyze(&wave(12, 0.01), 3.0).is_none());
    // Eleven crossings in 1.1 seconds, 20 cents to either side.
    let v = analyze(&wave(12, 0.1), 3.0).expect("vibrato");
    assert!((float(v.rate_hz) - 5.0).abs() < 1e-4);
    assert_eq!(v.depth_cents, real32(20.0));
    assert_eq!(v.mean_cents, real32(0.0));
    // Only the window counts.
    assert!(analyze(&wave(12, 0.1), 1.0).is_none());
}

#[test]
fn older_points_do_not_matter() {
    let recent: Vec<[f64; 2]> = (0..60)
        .map(|i| {
            let t = 10.0 + i as f64 / 20.0;
            [t, 30.0 * (2.0 * std::f64::consts::PI * 5.0 * t).sin()]
        })
        .collect();
    let numbers = |v: Vibrato| (v.rate_hz.bits, v.depth_cents.bits, v.mean_cents.bits);
    let alone = numbers(analyze(&recent, 3.0).expect("vibrato not detected"));
    let mut longer: Vec<[f64; 2]> = (0..50).map(|i| [i as f64 / 20.0, 400.0 * i as f64]).collect();
    longer.push([4.0, f64::NAN]);
    longer.extend(&recent);
    assert_eq!(numbers(analyze(&longer, 3.0).expect("vibrato lost")), alone);
}
