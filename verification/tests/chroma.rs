use flamenco_tuner::dsp::chroma::{
    band_class, correlation, detect_chord as match_chord, dominant as dominant_class,
    fold as fold_bands, name_chord, name_key, rank_chords, sounds, triad, Chord, KeyEstimator,
    CHORDS,
};
use flamenco_tuner::dsp::cqt::{
    band_of, kernel_bins, octave_marks, retunes, Cqt, BINS, CQT_LEN, N_BANDS,
};
use flamenco_tuner::ieee::Real32;
use rustfft::num_complex::Complex;
use rustfft::FftPlanner;

fn real32(v: f32) -> Real32 {
    Real32::from_bits(v.to_bits())
}

fn reals(values: &[f32]) -> Vec<Real32> {
    values.iter().map(|&v| real32(v)).collect()
}

fn float(r: Real32) -> f32 {
    f32::from_bits(r.bits)
}

fn plus(a: Real32, b: Real32) -> Real32 {
    real32(float(a) + float(b))
}

fn minus(a: Real32, b: Real32) -> Real32 {
    real32(float(a) - float(b))
}

fn ratio(a: Real32, b: Real32) -> Real32 {
    real32(float(a) / float(b))
}

const BIN_HZ: f32 = 48000.0 / CQT_LEN as f32;

/// Center and width of the kernel of a note.
fn shape(midi: i32, a4: Real32) -> (f32, f32) {
    let fc = float(a4) * 2.0f32.powf((midi - 69) as f32 / 12.0);
    (fc, ((fc * 0.059_463) / 2.355).max(BIN_HZ * 0.8))
}

fn reach(midi: i32, a4: Real32) -> (usize, usize) {
    let (fc, sigma) = shape(midi, a4);
    let lo = ((fc - 3.0 * sigma) / BIN_HZ).floor().max(1.0) as usize;
    let hi = ((fc + 3.0 * sigma) / BIN_HZ).ceil() as usize;
    (lo, hi)
}

fn weight(midi: i32, a4: Real32, bin: usize) -> Real32 {
    let (fc, sigma) = shape(midi, a4);
    let d = (bin as f32 * BIN_HZ - fc) / sigma;
    real32((-0.5 * d * d).exp())
}

fn new_cqt(a4: f32) -> Cqt {
    Cqt::new(real32(a4), reach, weight, plus, ratio)
}

fn process(cqt: &mut Cqt, samples: &[f32]) {
    let mean = samples.iter().sum::<f32>() / samples.len() as f32;
    let mut buf: Vec<Complex<f32>> = samples
        .iter()
        .enumerate()
        .map(|(i, &s)| {
            let x = i as f32 / (CQT_LEN - 1) as f32;
            let w = 0.5 - 0.5 * (2.0 * std::f32::consts::PI * x).cos();
            Complex::new((s - mean) * w, 0.0)
        })
        .collect();
    FftPlanner::new().plan_fft_forward(CQT_LEN).process(&mut buf);
    let norm = 4.0 / CQT_LEN as f32;
    let mags: Vec<Real32> = buf[..BINS].iter().map(|c| real32(c.norm() * norm)).collect();
    cqt.process(
        &mags,
        |e, w, m| real32(float(e) + float(w) * float(m) * float(m)),
        |e| real32(float(e).sqrt()),
    );
}

fn fold(bands: &Vec<Real32>) -> Vec<Real32> {
    fold_bands(
        bands,
        |sum, b| real32(float(sum) + float(b) * float(b)),
        |c, max| real32((float(c) / float(max)).sqrt()),
    )
}

fn detect_chord(chroma: &Vec<Real32>) -> Option<Chord> {
    match_chord(
        chroma,
        |v| real32(v.iter().map(|&x| float(x) * float(x)).sum::<f32>().sqrt()),
        |dot, c, member| real32(float(dot) + float(c) * if member { 1.0 } else { 0.0 }),
        |dot, norm| real32(float(dot) / (float(norm) * 3.0f32.sqrt())),
        minus,
    )
}

const MAJOR_PROFILE: [f32; 12] = [
    6.35, 2.23, 3.48, 2.33, 4.38, 4.09, 2.52, 5.19, 2.39, 3.66, 2.29, 2.88,
];
const MINOR_PROFILE: [f32; 12] = [
    6.33, 2.68, 3.52, 5.38, 2.60, 3.53, 2.54, 4.75, 3.98, 2.69, 3.34, 3.17,
];

fn update(est: &mut KeyEstimator<Real32>, chroma: &Vec<Real32>) {
    let alpha = 1.0 / 200.0;
    est.update(chroma, |a, c| real32(float(a) * (1.0 - alpha) + float(c) * alpha));
}

fn mean(values: Vec<Real32>) -> Real32 {
    real32(values.iter().map(|&c| float(c)).sum::<f32>() / 12.0)
}

fn correlate(classes: Vec<Real32>, mean: Real32, minor: bool) -> Real32 {
    let profile = if minor { &MINOR_PROFILE } else { &MAJOR_PROFILE };
    let pm = profile.iter().sum::<f32>() / 12.0;
    correlation(
        &classes,
        |(num, cd, pd), class, i| {
            let (c, p) = (float(class) - float(mean), profile[i] - pm);
            (
                real32(float(num) + c * p),
                real32(float(cd) + c * c),
                real32(float(pd) + p * p),
            )
        },
        |num, cd, pd| real32(float(num) / (float(cd) * float(pd)).sqrt()),
    )
}

fn estimate(est: &KeyEstimator<Real32>) -> Option<String> {
    est.estimate(mean, correlate)
}

fn chroma_of(freqs: &[f32]) -> Vec<Real32> {
    let sr = 48000.0;
    let samples: Vec<f32> = (0..CQT_LEN)
        .map(|i| {
            let t = i as f32 / sr;
            freqs
                .iter()
                .map(|&f| 0.3 * (2.0 * std::f32::consts::PI * f * t).sin())
                .sum()
        })
        .collect();
    let mut cqt = new_cqt(440.0);
    process(&mut cqt, &samples);
    fold(&cqt.bands)
}

#[test]
fn a_major_triad_recognized() {
    // A3, C#4, E4 — pure sines so harmonics don't blur the classes.
    let chroma = chroma_of(&[220.0, 277.18, 329.63]);
    assert!(float(chroma[9]) > 0.7, "A class weak: {chroma:?}");
    assert!(float(chroma[1]) > 0.7, "C# class weak: {chroma:?}");
    assert!(float(chroma[4]) > 0.7, "E class weak: {chroma:?}");
    let chord = detect_chord(&chroma).expect("no chord detected");
    assert_eq!(chord.name, "A");
}

#[test]
fn a_minor_triad_recognized() {
    // A3, C4, E4.
    let chroma = chroma_of(&[220.0, 261.63, 329.63]);
    let chord = detect_chord(&chroma).expect("no chord detected");
    assert_eq!(chord.name, "Am");
}

#[test]
fn single_note_is_not_a_chord() {
    let chroma = chroma_of(&[220.0]);
    assert!(
        detect_chord(&chroma).is_none(),
        "single note misread as chord"
    );
}

#[test]
fn key_estimator_finds_c_major() {
    let mut est = KeyEstimator::new(real32(0.0));
    // Alternate C-major scale-degree triads for a while.
    let c = chroma_of(&[261.63, 329.63, 392.0]); // C E G
    let f = chroma_of(&[349.23, 440.0, 523.25]); // F A C
    let g = chroma_of(&[392.0, 493.88, 587.33]); // G B D
    for _ in 0..40 {
        update(&mut est, &c);
        update(&mut est, &f);
        update(&mut est, &g);
    }
    let key = estimate(&est).expect("no key estimate");
    assert_eq!(key, "C major");
}

fn tone(freq: f32, sr: f32) -> Vec<f32> {
    (0..CQT_LEN)
        .map(|i| (2.0 * std::f32::consts::PI * freq * i as f32 / sr).sin() * 0.5)
        .collect()
}

fn dominant(cqt: &Cqt) -> usize {
    cqt.bands
        .iter()
        .enumerate()
        .max_by(|a, b| float(*a.1).total_cmp(&float(*b.1)))
        .unwrap()
        .0
}

#[test]
fn a4_lands_in_band_69() {
    let mut cqt = new_cqt(440.0);
    process(&mut cqt, &tone(440.0, 48000.0));
    assert_eq!(dominant(&cqt), band_of(69));
}

#[test]
fn octaves_are_twelve_bands_apart() {
    let mut cqt = new_cqt(440.0);
    process(&mut cqt, &tone(220.0, 48000.0));
    let a3 = dominant(&cqt);
    process(&mut cqt, &tone(440.0, 48000.0));
    let a4 = dominant(&cqt);
    assert_eq!(a4 - a3, 12);
    assert_eq!(a3, band_of(57));
}

#[test]
fn semitone_neighbors_separate() {
    let mut cqt = new_cqt(440.0);
    process(&mut cqt, &tone(440.0, 48000.0));
    let a4 = float(cqt.bands[band_of(69)]);
    let a_sharp = float(cqt.bands[band_of(70)]);
    let ratio_db = 20.0 * (a4 / a_sharp.max(1e-12)).log10();
    assert!(ratio_db > 6.0, "only {ratio_db:.1} dB separation");
}

#[test]
fn triads_have_a_root_a_third_and_a_fifth() {
    let members = |chord: usize| -> Vec<usize> {
        let t = triad(chord);
        (0..12).filter(|&c| t[c]).collect()
    };
    assert_eq!(members(0), vec![0, 4, 7]); // C
    assert_eq!(members(1), vec![0, 3, 7]); // Cm
    assert_eq!(members(18), vec![1, 4, 9]); // A
    assert_eq!(members(23), vec![2, 6, 11]); // Bm
}

#[test]
fn rival_has_another_root() {
    let mut scores = vec![0.1f32; CHORDS];
    scores[18] = 0.9; // A
    scores[19] = 0.8; // Am
    scores[5] = 0.5; // Dm
    assert_eq!(rank_chords(&reals(&scores)), (18, 5));
    // Of equal scores the first counts.
    assert_eq!(rank_chords(&reals(&[0.5; CHORDS])), (0, 2));
}

#[test]
fn chords_need_score_and_margin() {
    let name = |score: f32, margin: f32| {
        name_chord(19, real32(score), real32(margin)).map(|c| c.name)
    };
    assert_eq!(name(0.62, 0.05), Some("Am".to_string()));
    assert_eq!(name(0.61, 0.05), None);
    assert_eq!(name(0.9, 0.04), None);
    assert_eq!(
        name_chord(12, real32(0.9), real32(0.5)).map(|c| (c.name, c.confidence)),
        Some(("F#".to_string(), real32(0.9)))
    );
    assert!(!sounds(&real32(9e-7)));
    assert!(sounds(&real32(1e-6)));
}

#[test]
fn keys_need_evidence() {
    let mut est = KeyEstimator::new(0u8);
    let chroma: Vec<u8> = (0..12).collect();
    for _ in 0..39 {
        est.update(&chroma, |_, c| c + 1);
    }
    // Lets F# minor win: its root is class 6.
    let least = |classes: Vec<u8>| *classes.iter().min().unwrap();
    let correlate = |classes: Vec<u8>, mean: u8, minor: bool| {
        assert_eq!((classes.len(), mean), (12, 1));
        real32(if classes[0] == 7 && classes[11] == 6 && minor { 0.7 } else { 0.1 })
    };
    assert_eq!(est.estimate(least, correlate), None);
    est.update(&chroma, |a, c| if a == c + 1 { a } else { 99 });
    assert_eq!(est.avg, (1..13).collect::<Vec<u8>>());
    assert_eq!(est.estimate(least, correlate), Some("F# minor".to_string()));
    assert_eq!(est.estimate(least, |_, _, _| real32(0.5)), None);
}

#[test]
fn first_of_equally_good_keys_is_named() {
    let mut r = vec![0.1f32; CHORDS];
    r[13] = 0.7;
    r[20] = 0.7;
    assert_eq!(name_key(&reals(&r)), Some("F# minor".to_string()));
    r[18] = 0.71;
    assert_eq!(name_key(&reals(&r)), Some("A major".to_string()));
    assert_eq!(name_key(&reals(&[0.5; CHORDS])), None);
}

#[test]
fn flat_classes_correlate_with_nothing() {
    let take = |(n, c, p): (Real32, Real32, Real32), class: f32, i: usize| {
        let q = i as f32 - 5.5;
        (
            real32(float(n) + class * q),
            real32(float(c) + class * class),
            real32(float(p) + q * q),
        )
    };
    let quotient = |n, c, p| real32(float(n) / (float(c) * float(p)).sqrt());
    assert_eq!(correlation(&vec![0.0f32; 12], take, quotient), real32(0.0));
    let rising: Vec<f32> = (0..12).map(|i| i as f32 - 5.5).collect();
    assert_eq!(correlation(&rising, take, quotient), real32(1.0));
}

#[test]
fn silence_folds_to_zero() {
    assert_eq!(fold(&vec![real32(0.0); N_BANDS]), vec![real32(0.0); 12]);
    assert!(detect_chord(&vec![real32(0.0); 12]).is_none());
    // The octaves of A, and half as much of one E.
    let mut bands = vec![0.0f32; N_BANDS];
    bands[9] = 3.0;
    bands[21] = 4.0;
    bands[28] = 2.5;
    let chroma = fold(&reals(&bands));
    assert_eq!(chroma[9], real32(1.0));
    assert_eq!(chroma[4], real32(0.5));
    assert_eq!(chroma[0], real32(0.0));
    // Whatever sounds in other classes, and in which octave.
    bands[9] = 5.0;
    bands[21] = 0.0;
    bands[1] = 2.5;
    let other = fold(&reals(&bands));
    assert_eq!((other[9], other[4]), (chroma[9], chroma[4]));
}

#[test]
fn kernels_follow_the_reference_pitch() {
    let mut cqt = new_cqt(440.0);
    assert_eq!(cqt.bands, vec![real32(0.0); N_BANDS]);
    let sum: f32 = cqt.kernels[33].iter().map(|&(_, w)| float(w)).sum();
    assert!((sum - 1.0).abs() < 1e-5);
    let before = cqt.kernels[33].clone();
    cqt.set_a4(real32(440.005), minus, reach, weight, plus, ratio);
    assert_eq!(cqt.a4, real32(440.0));
    assert_eq!(cqt.kernels[33], before);
    cqt.set_a4(real32(415.0), minus, reach, weight, plus, ratio);
    assert_eq!(cqt.a4, real32(415.0));
    assert!(cqt.kernels[33][0].0 < before[0].0);
    process(&mut cqt, &tone(415.0, 48000.0));
    assert_eq!(dominant(&cqt), band_of(69));
}

#[test]
fn dominant_class_is_strong() {
    let mut chroma = [0.0f32; 12];
    assert_eq!(dominant_class(&reals(&chroma)), None);
    chroma[3] = 0.2;
    assert_eq!(dominant_class(&reals(&chroma)), None);
    chroma[3] = 0.3;
    chroma[7] = 0.3;
    assert_eq!(dominant_class(&reals(&chroma)), Some(7));
}

#[test]
fn bands_and_kernels() {
    assert_eq!(octave_marks(), vec![36, 48, 60, 72, 84, 96]);
    assert_eq!(band_class(0), 0);
    assert_eq!(band_class(33), 9);
    assert_eq!(kernel_bins(0, 3), vec![1, 2, 3]);
    assert_eq!(kernel_bins(8190, 9000), vec![8190, 8191]);
    assert_eq!(kernel_bins(9000, 9001), vec![]);
    assert!(!retunes(&real32(0.01)));
    assert!(retunes(&real32(-0.02)));
}
