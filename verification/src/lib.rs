//! Per-speaker voice-channel reconstruction for game-session recordings.
//!
//! The library turns a stream of checksummed, bit-packed voice packets into
//! time-aligned audio tracks per speaker: it validates packet integrity,
//! parses the packet format, drives a per-speaker codec decoder that conceals
//! lost frames, groups frames into clips, and lays the clips out on a common
//! sample timeline.  A small companion module aggregates the results of
//! parsing many recordings in a batch.

pub mod batch;
pub mod bytes;
pub mod inputs;
pub mod output;
pub mod packet;
pub mod session;
pub mod speaker;
pub mod timeline;

use vstd::prelude::*;

verus! {

/// Number of decoded samples in one audio frame (20 ms at 24 kHz).
pub const FRAME_SIZE: usize = 480;

/// Fixed audio sample rate of every voice stream, in hertz.
pub const SAMPLE_RATE: u32 = 24000;

/// Number of audio samples spanned by one simulation tick.
///
/// The simulation runs at 200/3 ticks per second and audio at 24000
/// samples per second, so one tick covers exactly 24000 / (200/3) = 360
/// samples; the ratio is exact, which lets all timeline arithmetic be
/// carried out in integers.
pub const SAMPLES_PER_TICK: u32 = 360;

} // verus!
