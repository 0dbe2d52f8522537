# Flamenco Tuner

A tuner and audio analyzer for flamenco guitar: the decisions in Verus, the
sound and the window in ordinary Rust around them.

- **Tuner** — note readout, a ±50-cent bar with a highlighted in-tune zone, and
  tune up/down guidance. Green within ±3¢, amber to ±15¢, red beyond.
- **Spectrum** — live spectrum with tracked peaks, and markers for the target.
- **Pitch history** — the last 12 seconds of deviation in cents.
- **Waveform**, **spectrogram**, **chromagram** with chord and key, **vector
  scope**, and a texture measure of the level.
- **Strings** — all six strings with capo-shifted targets; the one you're
  plucking lights up, and two that ring together are read separately.
- **Phones** can join as extra microphones: each is time-aligned and summed into
  a beam, or fused into the spectrum where it cannot be.

Standard tuning E A D G B E and Rondeña D A D F# B E, cejilla on frets 0 to 9,
A4 from 415 to 466 Hz. Keys: `t` toggles the tuning, `↑` and `↓` move the
cejilla.

## Layout

- `src/` is the library. It decides, by functions with contracts that Verus
  proves: which candidate pitch wins, which tracks survive, when a reading
  disappears, what a silent frame changes, how queues, matrices and lists are
  walked. Where a step computes with samples, its arithmetic is a function that
  the caller hands in, and the contract says which calls the result came from.
  Properties that span several functions stand beside them as public proof
  functions, the longer ones in files of their own: `dsp/fates.rs`,
  `dsp/invariance.rs`, `dsp/replay.rs`, `gui/timeline.rs`, `resample.rs` and
  `service.rs`.
- `app/` is the program: capture with cpal, the phone service with axum, the
  window with egui, and floating-point arithmetic. The formulas stand there with
  the numbers in them: windows and spectra, how fast averages follow, the weights
  of a score, the gains of the servos, the noise of the filter model, colors and
  sizes on the screen.
- `tests/` exercise the library with real signals.

Numbers enter the library as bit patterns (`ieee::Real32`), so comparisons are
exact, including those with zeros of either sign and with values that are not
numbers.

Two outside functions are believed without proof: `qrcode::QrCode::new` behind
`qr::qr_image`, and `rcgen::generate_simple_self_signed` behind
`identity::new_identity`.
