//! What the tuner's window shows and reacts to, apart from drawing it.

pub mod analysis;
pub mod beam;
pub mod controls;
pub mod fusion;
pub mod harmony;
pub mod layout;
pub mod scope;
pub mod spectrogram;
pub mod spectrum;
pub mod state;
pub mod timeline;
pub mod tuner;
