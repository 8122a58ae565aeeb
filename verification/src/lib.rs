//! Verified core of a real-time voice pipeline.
//!
//! The pipeline is a chain of stages joined by lock-free rings of mono
//! samples: capture, resampling to 48 kHz, noise suppression, resampling to
//! the playback rate, playback; or, between two peers, encoding and decoding
//! in place of the direct path. This crate holds what those stages decide
//! and move, with contracts that Verus proves:
//!
//! - `layout`: interleaved and planar buffers, and that each transform undoes
//!   the other;
//! - `ring_model`: a ring as a bounded queue under the drop-newest policy,
//!   and the laws of that queue;
//! - `ring`: the two ends of a ring of the `ringbuf` crate, with the policies
//!   for a full and for a drained ring;
//! - `frame`: taking a whole frame from a ring and pushing one to a ring;
//! - `playback`: filling a device buffer from a ring, one sample to every
//!   channel of a frame, silence on underrun;
//! - `denoise`, `resample`, `codec`: the frame sizes, rates and layouts of
//!   the processing stages, and the discarded first frame of the suppressor;
//! - `lifecycle`: the states that a stage goes through;
//! - `stream`: relations between sample streams that the contracts use.
//!
//! Samples cross the rings as the bit patterns of 32-bit floats. Arithmetic
//! on samples, and the resampler, suppressor and codec themselves, work on
//! floats and are called by the program around this crate.

pub mod codec;
pub mod denoise;
pub mod frame;
pub mod layout;
pub mod lifecycle;
pub mod playback;
pub mod resample;
pub mod ring;
pub mod ring_model;
pub mod stream;
