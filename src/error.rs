//! Errors reported by the engine.
use vstd::prelude::*;
use crate::format::{Layout, SampleFormat};

verus! {

/// Errors that can occur when setting up a decode session.
#[derive(Clone, Copy, Debug, PartialEq, Eq, Structural)]
pub enum Error {
    /// No reduction is defined for this sample format and channel count.
    UnsupportedFormat {
        /// The sample format.
        format: SampleFormat,
        /// The layout of the channels.
        layout: Layout,
        /// The number of source channels.
        channels: u16,
    },
}

} // verus!
