//! Settings of a waveform run, and their builder with defaults and validation.
use vstd::prelude::*;
use crate::channels::Channel;

verus! {

/// Default number of values per channel.
pub const DEFAULT_SAMPLES: u32 = 800;

/// Default number of decimals of each value.
pub const DEFAULT_PRECISION: usize = 6;

/// Validated settings of a waveform run.
pub struct Config {
    /// Number of values to generate per channel.
    pub samples: u32,
    /// Use a logarithmic (decibel) scale instead of a linear one.
    pub db_scale: bool,
    /// Decimals of each value.
    pub precision: usize,
    /// Leave out the generator banner.
    pub no_header: bool,
    /// Channels to compute; never empty.
    pub channels: Vec<Channel>,
}

/// The channels computed when none are given: left and right.
pub open spec fn default_channels() -> Seq<Channel> {
    seq![Channel::Left, Channel::Right]
}

/// Builder of a [`Config`]: every setting left out takes its default.
pub struct FfAudio2JsonBuilder {
    pub samples: Option<u32>,
    pub db_scale: Option<bool>,
    pub precision: Option<usize>,
    pub no_header: Option<bool>,
    pub channels: Option<Vec<Channel>>,
}

impl FfAudio2JsonBuilder {
    /// A builder with no setting given.
    pub fn new() -> (r: FfAudio2JsonBuilder)
        ensures
            r.samples is None,
            r.db_scale is None,
            r.precision is None,
            r.no_header is None,
            r.channels is None,
    {
        FfAudio2JsonBuilder { samples: None, db_scale: None, precision: None, no_header: None, channels: None }
    }

    /// Sets the number of values per channel.
    pub fn samples(self, v: u32) -> (r: FfAudio2JsonBuilder)
        ensures
            r == (FfAudio2JsonBuilder { samples: Some(v), ..self }),
    {
        FfAudio2JsonBuilder { samples: Some(v), ..self }
    }

    /// Chooses between a decibel and a linear scale.
    pub fn db_scale(self, v: bool) -> (r: FfAudio2JsonBuilder)
        ensures
            r == (FfAudio2JsonBuilder { db_scale: Some(v), ..self }),
    {
        FfAudio2JsonBuilder { db_scale: Some(v), ..self }
    }

    /// Sets the number of decimals.
    pub fn precision(self, v: usize) -> (r: FfAudio2JsonBuilder)
        ensures
            r == (FfAudio2JsonBuilder { precision: Some(v), ..self }),
    {
        FfAudio2JsonBuilder { precision: Some(v), ..self }
    }

    /// Leaves out, or keeps, the generator banner.
    pub fn no_header(self, v: bool) -> (r: FfAudio2JsonBuilder)
        ensures
            r == (FfAudio2JsonBuilder { no_header: Some(v), ..self }),
    {
        FfAudio2JsonBuilder { no_header: Some(v), ..self }
    }

    /// Sets the channels to compute.
    pub fn channels(self, v: Vec<Channel>) -> (r: FfAudio2JsonBuilder)
        ensures
            r == (FfAudio2JsonBuilder { channels: Some(v), ..self }),
    {
        FfAudio2JsonBuilder { channels: Some(v), ..self }
    }

    /// Refuses an empty channel selection.
    pub fn validate(&self) -> (r: Result<(), String>)
        ensures
            r is Err <==> (self.channels matches Some(c) && c@.len() == 0),
            r matches Err(m) ==> m@ == "At least one channel must be specified"@,
    {
        match &self.channels {
            Some(c) => {
                if c.len() == 0 {
                    return Err("At least one channel must be specified".to_owned());
                }
            },
            None => {},
        }
        Ok(())
    }

    /// The settings, with defaults for what was left out, if they are valid.
    pub fn build(self) -> (r: Result<Config, String>)
        ensures
            r is Err <==> (self.channels matches Some(c) && c@.len() == 0),
            r matches Err(m) ==> m@ == "At least one channel must be specified"@,
            r matches Ok(c) ==> {
                &&& c.samples == (match self.samples { Some(v) => v, None => DEFAULT_SAMPLES })
                &&& c.db_scale == (match self.db_scale { Some(v) => v, None => false })
                &&& c.precision == (match self.precision { Some(v) => v, None => DEFAULT_PRECISION })
                &&& c.no_header == (match self.no_header { Some(v) => v, None => false })
                &&& c.channels@ == (match self.channels { Some(v) => v@, None => default_channels() })
                &&& c.channels@.len() > 0
            },
    {
        match self.validate() {
            Err(m) => return Err(m),
            Ok(()) => {},
        }
        let samples = match self.samples { Some(v) => v, None => DEFAULT_SAMPLES };
        let db_scale = match self.db_scale { Some(v) => v, None => false };
        let precision = match self.precision { Some(v) => v, None => DEFAULT_PRECISION };
        let no_header = match self.no_header { Some(v) => v, None => false };
        let channels = match self.channels {
            Some(v) => v,
            None => {
                let d = vec![Channel::Left, Channel::Right];
                proof {
                    assert(d@ =~= default_channels());
                }
                d
            },
        };
        Ok(Config { samples, db_scale, precision, no_header, channels })
    }
}

} // verus!
