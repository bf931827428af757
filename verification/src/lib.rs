//! Core of a real-time audio streaming engine.
//!
//! A queue of tracks feeds a scheduler; a loading pool decodes and caches
//! samples per track; a playback tick pulls scheduled sample ranges from the
//! pool, serializes them little-endian, and broadcasts the bytes to
//! ring-buffered consumers. A fixed chunk of samples is produced per tick,
//! with silence filling any underrun.

use vstd::prelude::*;

pub mod buffering;
pub mod pool;
pub mod queue;
pub mod reader;
pub mod scheduler;
pub mod system;
pub mod sample;

pub use buffering::AudioBufferConsumer;
pub use buffering::BufferRegistry;
pub use pool::Pool;
pub use pool::TrackId;
pub use queue::Queue;
pub use queue::QueueEvent;
pub use queue::QueuePosition;
pub use queue::Track;
pub use reader::SampleReader;
pub use reader::VecSampleReader;
pub use sample::raw_samples_from_bytes;
pub use sample::serialize_samples;
pub use sample::Sample;
pub use scheduler::Scheduler;
pub use scheduler::Segment;
pub use system::tick_sleep_micros;
pub use system::AudioSystem;
pub use system::Input;

verus! {

/// Frames per second of the fixed-rate stream.
pub const SAMPLE_RATE: usize = 44100;

/// Interleaved stereo.
pub const CHANNEL_COUNT: usize = 2;

/// Bytes in one serialized sample (32-bit float).
pub const SAMPLE_IN_BYTES: usize = 4;

/// Channel-samples per second: both channels counted.
pub const SAMPLES_PER_SEC: usize = SAMPLE_RATE * CHANNEL_COUNT;

/// Samples produced by one playback tick (100 ms worth).
pub const STREAM_CHUNK_SIZE: usize = SAMPLES_PER_SEC / 10;

/// How many upcoming tracks the scheduler watches.
pub const LOOKAHEAD: usize = 3;

/// Below this many samples ahead, a track asks for more (10 s).
pub const PRELOAD_THRESHOLD: usize = SAMPLES_PER_SEC * 10;

/// A preload request tops a track up to this many samples ahead (30 s).
pub const PRELOAD_TARGET: usize = SAMPLES_PER_SEC * 30;

/// Byte capacity of a consumer ring buffer: eight ticks' worth of stream, so
/// a consumer that drains between ticks loses nothing.
pub const CONSUMER_RING_SIZE: usize = STREAM_CHUNK_SIZE * SAMPLE_IN_BYTES * 8;

/// Microseconds in one playback tick.
pub const STREAM_TICK_MICROS: u64 = 100000;

/// MIME type of the emitted byte stream.
pub const PCM_MIME: &'static str = "audio/pcm;rate=44100;encoding=float;bits=32";

} // verus!
