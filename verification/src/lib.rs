//! Two-source audio capture, mixing and WAV encoding, verified.
//!
//! A recording session takes samples from a microphone and from the
//! system's audio output, keeps both tracks, and on stop hands back three
//! WAV files: microphone, system, and the mix of both. Samples are the bit
//! patterns of single-precision numbers; every step on them is defined and
//! proved on integers.
pub mod binary32;
pub mod capture;
pub mod devices;
pub mod mix;
pub mod order;
pub mod proxy;
pub mod recorder;
pub mod rounding;
pub mod sample;
pub mod session;
pub mod wav;
