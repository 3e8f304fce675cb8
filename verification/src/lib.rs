//! Pitch estimation for one frame of audio, as a verified core.
//!
//! The estimator works on the autocorrelation of a frame: it derives the band of
//! lags that corresponds to 60 Hz to 1200 Hz, picks the strongest strict local
//! maximum inside that band and hands back the three samples around it, from which
//! the host refines the lag and computes the frequency.
//!
//! Sample values never appear as machine reals here. Every sample is the 32-bit
//! pattern of an IEEE 754 single-precision number, and each contract speaks of the
//! exact number that the pattern denotes. The Fourier transforms and the arithmetic
//! on samples belong to the host.

pub mod binary32;
pub mod band;
pub mod peak;
pub mod detector;

pub use detector::PitchDetector;
