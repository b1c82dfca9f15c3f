//! Downsampling engine that turns decoded audio into a short waveform summary.
//!
//! Samples of every supported format are carried as integers: integer formats
//! as their own values, floating-point formats as fixed-point values with
//! `FLOAT_UNIT` standing for full scale. An amplitude is a pair
//! `(level, full)` with `level <= full`, meaning `level / full`.
//!
//! A [`Session`] holds one accumulator and one writer per enabled channel. It
//! is fed decoded frames, planar or packed, and reports the values that each
//! channel's array gains; [`render_levels`] writes them as decimal text and
//! [`reserve_array`] lays out each array's reserved room in the document.
pub mod format;
pub mod bucket;
pub mod channels;
pub mod derive;
pub mod writer;
pub mod error;
pub mod session;
pub mod timing;
pub mod config;
pub mod render;

pub use format::{Layout, SampleFormat, SampleKind, FLOAT_UNIT};
pub use bucket::SampleBuffer;
pub use channels::{Channel, Channels};
pub use config::{Config, FfAudio2JsonBuilder, DEFAULT_PRECISION, DEFAULT_SAMPLES};
pub use derive::MAX_SOURCE_CHANNELS;
pub use error::Error;
pub use render::{render_amplitude, render_levels};
pub use session::{LaneOutput, Session};
pub use timing::{bucket_capacity, estimated_total_samples, reserved_width};
pub use writer::{reserve_array, Accept, ChannelWriter};
