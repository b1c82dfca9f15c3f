//! Sample formats, physical layouts and the normalization of raw samples.
use vstd::prelude::*;

verus! {

/// Fixed-point value of full scale (`1.0`) for floating-point sample formats.
pub const FLOAT_UNIT: u64 = 4294967296;

/// Numeric representation of a sample.
#[derive(Clone, Copy, Debug, PartialEq, Eq, Structural)]
pub enum SampleKind {
    Signed,
    Unsigned,
    Float,
}

/// A sample format: bit width and representation.
#[derive(Clone, Copy, Debug, PartialEq, Eq, Structural)]
pub struct SampleFormat {
    pub kind: SampleKind,
    pub bits: u32,
}

/// How the channels of one frame are laid out.
#[derive(Clone, Copy, Debug, PartialEq, Eq, Structural)]
pub enum Layout {
    /// Each source channel occupies one contiguous run of samples.
    Planar,
    /// Each frame position holds one value per channel, interleaved.
    Packed,
}

/// The formats this engine knows how to normalize.
pub open spec fn format_supported(f: SampleFormat) -> bool {
    match f.kind {
        SampleKind::Unsigned => f.bits == 8,
        SampleKind::Signed => f.bits == 16 || f.bits == 32,
        SampleKind::Float => f.bits == 32 || f.bits == 64,
    }
}

/// The raw value that stands for amplitude `1.0` in a supported format.
pub open spec fn unit_of(f: SampleFormat) -> nat {
    match f.kind {
        SampleKind::Unsigned => 255,
        SampleKind::Signed => if f.bits == 16 { 32767 } else { 2147483647 },
        SampleKind::Float => FLOAT_UNIT as nat,
    }
}

/// Magnitude of a raw value, clamped to full scale: the amplitude of `v`
/// is `level_of(v, full) / full`.
pub open spec fn level_of(v: int, full: nat) -> nat {
    let m = if v < 0 { -v } else { v };
    if m > full { full } else { m as nat }
}

impl SampleFormat {
    /// Whether samples of this format can be normalized.
    pub fn is_supported(&self) -> (r: bool)
        ensures
            r == format_supported(*self),
    {
        match self.kind {
            SampleKind::Unsigned => self.bits == 8,
            SampleKind::Signed => self.bits == 16 || self.bits == 32,
            SampleKind::Float => self.bits == 32 || self.bits == 64,
        }
    }

    /// The raw value that stands for full scale.
    pub fn unit(&self) -> (r: u64)
        requires
            format_supported(*self),
        ensures
            r as nat == unit_of(*self),
            r > 0,
    {
        match self.kind {
            SampleKind::Unsigned => 255,
            SampleKind::Signed => if self.bits == 16 { 32767 } else { 2147483647 },
            SampleKind::Float => FLOAT_UNIT,
        }
    }
}

/// Normalized magnitude of `v` against full scale `full`.
pub fn level(v: i128, full: u128) -> (r: u128)
    requires
        full <= i128::MAX,
    ensures
        r as nat == level_of(v as int, full as nat),
        r <= full,
{
    let m: u128 = if v < 0 {
        if v == i128::MIN { full } else { (-v) as u128 }
    } else {
        v as u128
    };
    if m > full { full } else { m }
}

} // verus!
