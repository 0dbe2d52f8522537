//! Decisions of the signal-processing chain.

pub mod align;
pub mod bank;
pub mod chroma;
pub mod cqt;
pub mod drift;
pub mod duet;
pub mod fates;
pub mod filter;
pub mod invariance;
pub mod kalman;
pub mod peaks;
pub mod replay;
pub mod separate;
pub mod vibrato;
pub mod visibility;
