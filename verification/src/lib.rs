//! Trend segmentation and spike detection over daily metric samples.
//!
//! All quantities are fixed-point integers counted in millionths of a unit
//! (see [`util::UNIT`]), so every rounding step is part of the stated
//! contracts and every function returns the same answer on every machine.

pub mod util;
pub mod series;
pub mod root;
pub mod fit;
pub mod line_laws;
pub mod extend;
pub mod trend_laws;
pub mod spikes;
pub mod analysis;
