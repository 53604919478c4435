//! Real-time audio analysis core of a tuner: a bounded sample channel between
//! a capture callback and a processing stage, and an analyzer that turns a
//! window of samples into loudness, fundamental frequency and musical note.
//!
//! All arithmetic is integer fixed point. A sample is an `i16` whose full
//! scale (32767) stands for an amplitude of 1.0; loudness is reported on the
//! same scale, frequencies in millihertz.

pub mod audio_bridge;
pub mod backend;
pub mod dsp;
pub mod engine;
pub mod level;
pub mod note;
pub mod pitch;
pub mod ring;
pub mod ring_reader;
pub mod session;
pub mod visualizer;
