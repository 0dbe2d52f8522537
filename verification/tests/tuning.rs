use flamenco_tuner::ieee::Real32;
use flamenco_tuner::text::{append_integer, chars_of, find, trim};
use flamenco_tuner::tuning::{
    match_string, nearest_note, nearest_string, note_name, targets, Match, Tuning,
};

fn real32(v: f32) -> Real32 {
    Real32::from_bits(v.to_bits())
}

fn float(r: Real32) -> f32 {
    f32::from_bits(r.bits)
}

fn cents(a: Real32, b: Real32) -> Real32 {
    real32(1200.0 * (float(a) / float(b)).log2())
}

fn pitch(midi: i32, a4: f32) -> Real32 {
    real32(a4 * 2.0f32.powf((midi - 69) as f32 / 12.0))
}

fn nearest(freq: f32, tuning: Tuning, capo: i32, a4: f32) -> Match {
    nearest_string(real32(freq), tuning, capo, |midi| pitch(midi, a4), cents)
}

#[test]
fn open_strings_of_the_tunings() {
    assert_eq!(Tuning::Standard.open_strings(), [40, 45, 50, 55, 59, 64]);
    assert_eq!(Tuning::Rondena.open_strings(), [38, 45, 50, 54, 59, 64]);
}

#[test]
fn toggling_twice_gives_the_tuning_back() {
    assert_eq!(Tuning::Standard.toggle(), Tuning::Rondena);
    assert_eq!(Tuning::Standard.toggle().toggle(), Tuning::Standard);
    assert_eq!(Tuning::Rondena.toggle().toggle(), Tuning::Rondena);
}

#[test]
fn notes_are_named() {
    assert_eq!(note_name(69), "A4");
    assert_eq!(note_name(60), "C4");
    assert_eq!(note_name(40), "E2");
    assert_eq!(note_name(54), "F#3");
    assert_eq!(note_name(0), "C-1");
    assert_eq!(note_name(11), "B-1");
    assert_eq!(note_name(-1), "B-1");
    assert_eq!(note_name(-12), "C-2");
    assert_eq!(note_name(127), "G9");
    assert_eq!(note_name(i32::MAX), "G178956969");
    assert_eq!(note_name(i32::MIN), "E-178956971");
}

#[test]
fn all_names_agree_with_the_formula() {
    let names = ["C", "C#", "D", "D#", "E", "F", "F#", "G", "G#", "A", "A#", "B"];
    for midi in -200..=200i32 {
        let expected = format!("{}{}", names[midi.rem_euclid(12) as usize], midi / 12 - 1);
        assert_eq!(note_name(midi), expected);
    }
}

#[test]
fn numerals_are_those_of_the_standard_library() {
    for i in [0, 7, 10, -1, 99, -100, 12345, i64::MAX, i64::MIN] {
        let mut s = String::from("n = ");
        append_integer(&mut s, i);
        assert_eq!(s, format!("n = {i}"));
    }
}

#[test]
fn nearest_strings() {
    let m = nearest(110.0, Tuning::Standard, 0, 440.0);
    assert_eq!((m.string_no, m.target_midi), (5, 45));
    let m = nearest(73.42, Tuning::Rondena, 0, 440.0);
    assert_eq!((m.string_no, m.target_midi), (6, 38));
    // With the cejilla at the 2nd fret the fifth string sounds B2.
    let m = nearest(123.47, Tuning::Standard, 2, 440.0);
    assert_eq!((m.string_no, m.target_midi), (5, 47));
    assert!(f32::from_bits(m.cents.bits).abs() < 0.1);
    assert_eq!(targets(Tuning::Rondena, 2), vec![40, 47, 52, 56, 61, 66]);
    let m = nearest(1000.0, Tuning::Standard, 9, 440.0);
    assert_eq!((m.string_no, m.target_midi), (1, 73));
}

#[test]
fn first_of_equally_near_strings_wins() {
    let freqs = vec![real32(1.0); 6];
    let cents = |v: [f32; 6]| v.iter().map(|&c| real32(c)).collect::<Vec<Real32>>();
    let no = |v: [f32; 6]| match_string(Tuning::Standard, 0, &freqs, &cents(v)).string_no;
    assert_eq!(no([5.0, -5.0, 5.0, 6.0, 7.0, 8.0]), 6);
    assert_eq!(no([9.0, -5.0, 5.0, 6.0, 7.0, 8.0]), 5);
    assert_eq!(no([9.0, 8.0, 7.0, 6.0, 5.0, -0.0]), 1);
    // A deviation that is no number is passed over, except as the first.
    assert_eq!(no([9.0, f32::NAN, 7.0, 6.0, 5.0, 4.0]), 1);
    assert_eq!(no([f32::NAN, 1.0, 1.0, 1.0, 1.0, 1.0]), 6);
}

#[test]
fn notes_stand_for_no_string() {
    let m = nearest_note(
        real32(439.0),
        |f| (69.0 + 12.0 * (float(f) / 440.0).log2()).round() as i32,
        |midi| pitch(midi, 440.0),
        cents,
    );
    assert_eq!((m.string_no, m.target_midi), (0, 69));
    assert_eq!(m.cents, cents(real32(439.0), real32(440.0)));
    assert_eq!(m.target_freq, real32(440.0));
}

#[test]
fn searching_and_trimming() {
    let hay = chars_of("ababcab");
    assert_eq!(find(&hay, "abc", 0), Some(2));
    assert_eq!(find(&hay, "ab", 1), Some(2));
    assert_eq!(find(&hay, "ab", 3), Some(5));
    assert_eq!(find(&hay, "ac", 0), None);
    assert_eq!(find(&hay, "", 7), Some(7));
    let spaced = chars_of(" \u{a0}x y\u{2003}");
    assert_eq!(trim(&spaced, 0, 6), (2, 5));
    assert_eq!(trim(&spaced, 0, 2), (2, 2));
}

#[test]
fn detuned_strings_are_read_back() {
    for tuning in [Tuning::Standard, Tuning::Rondena] {
        for capo in 0..10 {
            for (i, midi) in targets(tuning, capo).into_iter().enumerate() {
                for d in [-149.0f32, -60.0, -1.5, 0.0, 3.0, 99.0, 149.0] {
                    let freq = float(pitch(midi, 442.0)) * 2.0f32.powf(d / 1200.0);
                    let m = nearest(freq, tuning, capo, 442.0);
                    assert_eq!((m.string_no, m.target_midi), (6 - i, midi));
                    assert!((float(m.cents) - d).abs() < 0.05, "{} for {d}", float(m.cents));
                }
            }
        }
    }
}
