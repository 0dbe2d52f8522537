use flamenco_tuner::dsp::peaks::{
    pick as pick_peaks, searched_bins, strongest_maxima, Peak, Tracker,
};
use flamenco_tuner::gui::spectrum::stable_tracks;
use flamenco_tuner::ieee::Real32;
use flamenco_tuner::order::{ascending, descending, last_largest, maximum_of, median, stable_order};

fn real32(v: f32) -> Real32 {
    Real32::from_bits(v.to_bits())
}

fn float(r: Real32) -> f32 {
    f32::from_bits(r.bits)
}

fn reals(values: &[f32]) -> Vec<Real32> {
    values.iter().map(|&v| real32(v)).collect()
}

fn cents_between(a: f32, b: f32) -> f32 {
    1200.0 * (a / b).log2()
}

fn pick(mags: &[f32], bin_hz: f32, max_freq: f32) -> Vec<Peak> {
    pick_peaks(
        &reals(mags),
        (max_freq / bin_hz) as usize,
        |m| real32(20.0 * (float(m) + 1e-12).log10()),
        |floor, margin| real32(float(floor) + float(margin)),
        |a, b, c, bin| {
            let (a, b, c) = (
                (float(a) + 1e-12).ln(),
                (float(b) + 1e-12).ln(),
                (float(c) + 1e-12).ln(),
            );
            let denom = a - 2.0 * b + c;
            let delta = if denom.abs() > f32::EPSILON {
                (0.5 * (a - c) / denom).clamp(-0.5, 0.5)
            } else {
                0.0
            };
            real32((bin as f32 + delta) * bin_hz)
        },
    )
}

fn update(tracker: &mut Tracker, peaks: &Vec<Peak>) {
    tracker.update(
        peaks,
        |a, b| real32(cents_between(float(a), float(b))),
        |track, peak| real32(float(track) * (1.0 - 0.35) + float(peak) * 0.35),
    );
}

/// Hann-windowed FFT magnitudes of a sum of sines.
fn spectrum_of(freqs: &[(f32, f32)], sr: f32, n: usize) -> (Vec<f32>, f32) {
    let mut buf: Vec<rustfft::num_complex::Complex<f32>> = (0..n)
        .map(|i| {
            let t = i as f32 / sr;
            let w = 0.5 - 0.5 * (2.0 * std::f32::consts::PI * i as f32 / (n - 1) as f32).cos();
            let s: f32 = freqs
                .iter()
                .map(|&(f, a)| a * (2.0 * std::f32::consts::PI * f * t).sin())
                .sum();
            rustfft::num_complex::Complex::new(s * w, 0.0)
        })
        .collect();
    rustfft::FftPlanner::new()
        .plan_fft_forward(n)
        .process(&mut buf);
    let mags: Vec<f32> = buf[..n / 2]
        .iter()
        .map(|c| c.norm() * 4.0 / n as f32)
        .collect();
    (mags, sr / n as f32)
}

#[test]
fn picks_two_tones() {
    let (mags, bin_hz) = spectrum_of(&[(440.0, 0.5), (660.0, 0.3)], 48000.0, 8192);
    let peaks = pick(&mags, bin_hz, 1500.0);
    assert!(peaks.len() >= 2, "found {} peaks", peaks.len());
    let (first, second) = (float(peaks[0].freq), float(peaks[1].freq));
    assert!((first - 440.0).abs() < 1.0, "got {}", first);
    assert!((second - 660.0).abs() < 1.0, "got {}", second);
}

#[test]
fn tracker_follows_a_glide() {
    let mut tracker = Tracker::new();
    let mut freq = 440.0;
    let mut id = None;
    for _ in 0..20 {
        freq *= 1.005; // ~8.6 cents per frame, well within association range
        let (mags, bin_hz) = spectrum_of(&[(freq, 0.5)], 48000.0, 8192);
        update(&mut tracker, &pick(&mags, bin_hz, 1500.0));
        let t = tracker.tracks().first().expect("track lost");
        match id {
            None => id = Some(t.id),
            Some(id) => assert_eq!(t.id, id, "track identity changed mid-glide"),
        }
    }
    let t = tracker.tracks()[0];
    // EMA lags a moving target; it must stay within ~25 cents of truth.
    assert!(
        cents_between(float(t.freq), freq).abs() < 25.0,
        "track at {} vs true {freq}",
        float(t.freq)
    );
    assert!(t.age >= 19);
}

#[test]
fn track_survives_dropout() {
    let mut tracker = Tracker::new();
    let (mags, bin_hz) = spectrum_of(&[(440.0, 0.5)], 48000.0, 8192);
    let peaks = pick(&mags, bin_hz, 1500.0);
    for _ in 0..5 {
        update(&mut tracker, &peaks);
    }
    let id = tracker.tracks()[0].id;
    update(&mut tracker, &Vec::new()); // 2-frame dropout
    update(&mut tracker, &Vec::new());
    update(&mut tracker, &peaks);
    assert_eq!(tracker.tracks()[0].id, id, "track did not survive dropout");
    // 4 more missed frames kills it.
    for _ in 0..5 {
        update(&mut tracker, &Vec::new());
    }
    assert!(tracker.tracks().is_empty());
}

#[test]
fn track_ends_with_the_fourth_miss() {
    let mut tracker = Tracker::new();
    let peak = vec![Peak { freq: real32(440.0), db: real32(-20.0) }];
    update(&mut tracker, &peak);
    for _ in 0..3 {
        update(&mut tracker, &Vec::new());
        assert_eq!(tracker.tracks().len(), 1);
    }
    update(&mut tracker, &Vec::new());
    assert!(tracker.tracks().is_empty());
    // The next track has another identity.
    update(&mut tracker, &peak);
    assert_eq!(tracker.tracks()[0].id, 1);
}

#[test]
fn nearest_peak_is_taken_and_others_are_new() {
    let mut tracker = Tracker::new();
    update(&mut tracker, &vec![Peak { freq: real32(440.0), db: real32(-20.0) }]);
    // 441 is nearer than 438; 500 is out of reach.
    update(
        &mut tracker,
        &vec![
            Peak { freq: real32(438.0), db: real32(-10.0) },
            Peak { freq: real32(441.0), db: real32(-30.0) },
            Peak { freq: real32(500.0), db: real32(-5.0) },
        ],
    );
    let tracks = tracker.tracks();
    let ids: Vec<u64> = tracks.iter().map(|t| t.id).collect();
    // Strongest first: 500, 438, then the old track.
    assert_eq!(ids, vec![2, 1, 0]);
    assert_eq!(tracks[2].age, 2);
    assert_eq!(tracks[2].freq, real32(440.0 * (1.0 - 0.35) + 441.0 * 0.35));
    assert_eq!(tracks[2].db, real32(-30.0));
}

#[test]
fn peaks_are_few_and_strongest_first() {
    // A comb of 30 peaks, growing upwards.
    let mags: Vec<f32> = (0..128)
        .map(|i| if i % 4 == 2 { i as f32 } else { 1e-6 })
        .collect();
    let dbs: Vec<f32> = mags.iter().map(|m| 20.0 * m.log10()).collect();
    let bins = strongest_maxima(&reals(&mags), &reals(&dbs), 126, real32(-60.0));
    assert_eq!(bins.len(), 16);
    assert_eq!(bins[0], 122);
    assert_eq!(bins[15], 62);
    // A plateau is found at its left end; what is below the threshold is not.
    let plateau = [0.0, 0.0, 1.0, 1.0, 0.0, 0.5, 0.0, 0.0];
    let bins = strongest_maxima(&reals(&plateau), &reals(&plateau), 6, real32(0.6));
    assert_eq!(bins, vec![2]);
    // Too few bins show nothing.
    let spike = [0.001, 0.001, 1.0, 0.001, 0.001, 0.001, 0.001, 0.001];
    assert_eq!(pick(&spike, 1.0, 3.0).len(), 0);
    assert_eq!(pick(&spike, 1.0, 4.0).len(), 1);
    assert_eq!(pick(&spike, 1.0, 4.0)[0].freq, real32(2.0));
    assert_eq!(searched_bins(10, 8), 6);
    assert_eq!(searched_bins(3, 8), 3);
    assert_eq!(searched_bins(3, 1), 0);
}

#[test]
fn labelled_tracks_are_old_and_in_view() {
    let track = |freq: f32, age: u32| flamenco_tuner::dsp::peaks::Track::synth(real32(freq), real32(0.0), age);
    let mut tracks = vec![track(100.0, 7), track(200.0, 8), track(1500.0, 9), track(1499.0, 9)];
    for k in 0..6 {
        tracks.push(track(300.0 + k as f32, 20));
    }
    let freqs: Vec<f32> = stable_tracks(&tracks).iter().map(|t| float(t.freq)).collect();
    assert_eq!(freqs, vec![200.0, 1499.0, 300.0, 301.0, 302.0]);
}

#[test]
fn orders_agree_with_the_standard_library() {
    let values = [
        3.0,
        -0.0,
        0.0,
        f32::NAN,
        -f32::NAN,
        f32::INFINITY,
        f32::NEG_INFINITY,
        3.0,
        -7.5,
        1e-40,
        -1e-40,
    ];
    let mut expected: Vec<usize> = (0..values.len()).collect();
    expected.sort_by(|&a, &b| values[a].total_cmp(&values[b]));
    assert_eq!(ascending(&reals(&values)), expected);
    let mut expected: Vec<usize> = (0..values.len()).collect();
    expected.sort_by(|&a, &b| values[b].total_cmp(&values[a]));
    assert_eq!(descending(&reals(&values)), expected);
    for a in values {
        for b in values {
            assert_eq!(real32(a).less(&real32(b)), a < b);
            assert_eq!(real32(a).less_or_equal(&real32(b)), a <= b);
            assert_eq!(real32(a).equals(&real32(b)), a == b);
        }
        assert_eq!(real32(a).abs().bits, a.abs().to_bits());
        assert_eq!(real32(a).is_nan(), a.is_nan());
    }
    assert_eq!(stable_order(&vec![2, 1, 2, 1]), vec![1, 3, 0, 2]);
    assert_eq!(float(median(&reals(&[5.0, 1.0, 3.0, 4.0]))), 4.0);
    assert_eq!(last_largest(&reals(&[1.0, 7.0, 7.0, 2.0])), Some(2));
    assert_eq!(last_largest(&Vec::new()), None);
    assert_eq!(float(maximum_of(real32(0.5), &reals(&[f32::NAN, 0.25, 2.0]))), 2.0);
    assert_eq!(float(maximum_of(real32(f32::NAN), &reals(&[-2.0]))), -2.0);
}

#[test]
fn every_peak_goes_one_way() {
    let mut tracker = Tracker::new();
    let peak = |f: f32, db: f32| Peak { freq: real32(f), db: real32(db) };
    update(&mut tracker, &vec![peak(440.0, -20.0), peak(441.0, -21.0)]);
    let old: Vec<u64> = tracker.tracks().iter().map(|t| t.id).collect();
    // Three peaks near two tracks: two are taken, one opens a track.
    let peaks = vec![peak(440.2, -10.0), peak(440.4, -11.0), peak(440.6, -12.0)];
    update(&mut tracker, &peaks);
    let tracks = tracker.tracks();
    assert_eq!(tracks.len(), 3);
    let mut levels: Vec<Real32> = tracks.iter().map(|t| t.db).collect();
    levels.sort_by(|a, b| float(*b).total_cmp(&float(*a)));
    assert_eq!(levels, reals(&[-10.0, -11.0, -12.0]));
    assert_eq!(tracks.iter().filter(|t| old.contains(&t.id)).count(), 2);
    assert_eq!(tracks.iter().filter(|t| t.age == 1).count(), 1);
}

#[test]
fn inaudible_frames_have_no_peaks() {
    let blend = |track: Real32, peak: Real32| real32(float(track) * 0.65 + float(peak) * 0.35);
    let cents = |a: Real32, b: Real32| real32(cents_between(float(a), float(b)));
    let peaks = vec![Peak { freq: real32(440.0), db: real32(-20.0) }];
    let mut tracker = Tracker::new();
    tracker.listen(false, &peaks, cents, blend);
    assert!(tracker.tracks().is_empty());
    tracker.listen(true, &peaks, cents, blend);
    assert_eq!((tracker.tracks()[0].age, tracker.tracks()[0].missed), (1, 0));
    tracker.listen(false, &peaks, cents, blend);
    assert_eq!((tracker.tracks()[0].age, tracker.tracks()[0].missed), (1, 1));
}
