//! Waveform plotting support: a level-of-detail pyramid of min/max spans over
//! single-precision samples, and the pointer-interaction rules of the plot.

pub mod curve;
pub mod error;
pub mod lod;
pub mod sample;
pub mod state;
pub mod viewport;
