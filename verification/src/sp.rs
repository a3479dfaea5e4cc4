//! SciPy-style statistics and signal processing.
pub mod signal;
pub mod stats;
