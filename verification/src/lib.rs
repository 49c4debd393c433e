//! Verified core of the PhonoPaper audio-as-image format.
//!
//! PhonoPaper prints audio as a grayscale spectrogram framed by two marker
//! bands of black and white stripes.  This crate holds the integer logic of
//! the format: the stripe layout, marker-band detection, cluster selection
//! across sampled columns, the byte-level readers for the SVG and PDF
//! containers, the WAV framing, and the deterministic random generator used
//! to synthesise training sheets.

pub mod bytes;
pub mod calibration;
pub mod cli;
pub mod decode;
pub mod error;
pub mod format;
pub mod markers;
pub mod nn;
pub mod raster;
pub mod render;
pub mod rng;
pub mod spectrogram;
pub mod vector;
pub mod wav;
