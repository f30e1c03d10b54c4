//! Port metadata: direction, channel count and sample format.

use vstd::prelude::*;

verus! {

/// Whether a port receives or produces audio.
#[derive(Debug, Clone, Copy, PartialEq, Eq, Hash, Structural)]
pub enum PortDirection {
    /// The port consumes audio from an upstream node.
    Input,
    /// The port produces audio for a downstream node.
    Output,
}

/// Numeric representation of a single sample.
#[derive(Debug, Clone, Copy, PartialEq, Eq, Hash, Structural)]
pub enum SampleFormat {
    /// 32-bit float, the default sample format.
    F32,
    /// 64-bit float.
    F64,
    /// 16-bit signed integer.
    I16,
    /// 32-bit signed integer.
    I32,
}

/// Static description of an audio port on a node.
#[derive(Debug, Clone, Copy, PartialEq, Eq, Structural)]
pub struct PortDescriptor {
    /// Whether this port is an input or an output.
    pub direction: PortDirection,
    /// Number of channels carried by the port.
    pub channels: u16,
    /// Numeric format of each sample.
    pub sample_format: SampleFormat,
}

impl PortDescriptor {
    /// Creates a descriptor from its raw fields.
    #[must_use]
    pub fn new(direction: PortDirection, channels: u16, sample_format: SampleFormat) -> (r: Self)
        ensures
            r == (PortDescriptor { direction, channels, sample_format }),
    {
        PortDescriptor { direction, channels, sample_format }
    }

    /// Describes an input port.
    #[must_use]
    pub fn input(channels: u16, sample_format: SampleFormat) -> (r: Self)
        ensures
            r == (PortDescriptor { direction: PortDirection::Input, channels, sample_format }),
    {
        PortDescriptor::new(PortDirection::Input, channels, sample_format)
    }

    /// Describes an output port.
    #[must_use]
    pub fn output(channels: u16, sample_format: SampleFormat) -> (r: Self)
        ensures
            r == (PortDescriptor { direction: PortDirection::Output, channels, sample_format }),
    {
        PortDescriptor::new(PortDirection::Output, channels, sample_format)
    }
}

} // verus!
