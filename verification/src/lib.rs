//! Media signal acquisition and synchronization engine.
//!
//! Turns raw external signals — a spectrum analyzer's binary stream, a
//! decoder's PCM output, a timestamped lyric file, and an image's pixels —
//! into structured, time-addressable data for a rendering layer.

pub mod cava;
pub mod color_extractor;
pub mod lyrics;
pub mod text;
pub mod waveform;
