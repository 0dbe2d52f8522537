//! What the operations are for, said of their inputs and results alone: in numbers that
//! are compared, in positions, and in how two results relate.

pub mod align;
pub mod audio;
pub mod bank;
pub mod beam;
pub mod chroma;
pub mod gui;
pub mod numbers;
pub mod order;
pub mod peaks;
pub mod pitch;
pub mod separate;
pub mod tuning;
pub mod vibrato;
pub mod visibility;
