//! The reasoning behind a flamenco tuner, apart from its arithmetic on samples.
//!
//! Samples, frequencies and levels are floating-point quantities that the
//! program measures elsewhere. What happens to them here is moving, ordering,
//! comparing and counting: a value is carried as it came (a type parameter),
//! or held as the bit pattern of an IEEE 754 number, by which it is ordered
//! exactly ([`ieee::Real32`]), or handed to a function of the caller's whose
//! calls a contract names.
//!
//! - [`tuning`], [`yin`], [`harmonics`], [`pitch`]: notes, strings, and which
//!   pitch is reported.
//! - [`dsp`]: peaks and their tracks, two-string separation, alignment of
//!   several microphones, semitone bands, chords and keys, vibrato, visibility
//!   graphs.
//! - [`audio`], [`remote`], [`ring`]: capture, phones, and the queues they fill.
//! - [`stream`]: what the messages of a phone do.
//! - [`resample`], [`service`]: what holds of phone streams and of the list of
//!   phones in the long run.
//! - [`identity`], [`qr`]: how phones find and trust the service.
//! - [`gui`]: what the window shows and reacts to.
//! - [`laws`]: what all of these are for, said of their inputs and results.
//! - [`ieee`], [`order`], [`table`], [`text`]: comparisons, stable order,
//!   distances, numerals.

pub mod audio;
pub mod dsp;
pub mod gui;
pub mod harmonics;
pub mod identity;
pub mod ieee;
pub mod laws;
pub mod order;
pub mod pitch;
pub mod qr;
pub mod remote;
pub mod resample;
pub mod ring;
pub mod service;
pub mod stream;
pub mod table;
pub mod text;
pub mod tuning;
pub mod yin;
