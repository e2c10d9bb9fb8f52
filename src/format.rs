use vstd::prelude::*;

verus! {

/// The channel count of a PCM stream; only mono is supported.
#[derive(Debug, Clone, Copy, PartialEq, Eq, Structural, PartialOrd, Ord, Hash)]
pub enum Channels {
    One,
}

impl Channels {
    pub open spec fn value(self) -> u16 {
        match self {
            Channels::One => 1,
        }
    }

    pub fn from_u16(value: u16) -> (r: Option<Self>)
        ensures
            r matches Some(c) ==> c.value() == value,
            r is None <==> value != 1,
            forall|c: Channels| c.value() == value ==> r == Some(c),
    {
        match value {
            1 => Some(Channels::One),
            _ => None,
        }
    }

    pub fn as_u16(&self) -> (r: u16)
        ensures
            r == self.value(),
    {
        match self {
            Channels::One => 1,
        }
    }
}

/// The sample depth of a PCM stream.
#[derive(Debug, Clone, Copy, PartialEq, Eq, Structural, PartialOrd, Ord, Hash)]
pub enum BitsPerSample {
    Eight,
    Sixteen,
}

/// Bytes per sample frame: the bytes of one sample times the channel count.
pub open spec fn block_align_of(bits: BitsPerSample, channels: Channels) -> u16 {
    (bits.bytes() * channels.value()) as u16
}

impl BitsPerSample {
    pub open spec fn value(self) -> u16 {
        match self {
            BitsPerSample::Eight => 8,
            BitsPerSample::Sixteen => 16,
        }
    }

    /// Bytes taken by one sample of one channel.
    pub open spec fn bytes(self) -> u16 {
        match self {
            BitsPerSample::Eight => 1,
            BitsPerSample::Sixteen => 2,
        }
    }

    pub fn from_u16(value: u16) -> (r: Option<Self>)
        ensures
            r matches Some(b) ==> b.value() == value,
            r is None <==> (value != 8 && value != 16),
            forall|b: BitsPerSample| b.value() == value ==> r == Some(b),
    {
        match value {
            8 => Some(BitsPerSample::Eight),
            16 => Some(BitsPerSample::Sixteen),
            _ => None,
        }
    }

    pub fn as_u16(&self) -> (r: u16)
        ensures
            r == self.value(),
    {
        match self {
            BitsPerSample::Eight => 8,
            BitsPerSample::Sixteen => 16,
        }
    }

    pub fn block_align(&self, channels: Channels) -> (r: u16)
        ensures
            r == block_align_of(*self, channels),
    {
        match channels {
            Channels::One => match self {
                BitsPerSample::Eight => 1,
                BitsPerSample::Sixteen => 2,
            },
        }
    }
}

/// The sample rate of a PCM stream, one of the supported rates.
#[derive(Debug, Clone, Copy, PartialEq, Eq, Structural, PartialOrd, Ord, Hash)]
pub enum SamplesPerSec {
    Hz11025,
    Hz22000,
    Hz22040,
    Hz22050,
    Hz44100,
}

pub open spec fn is_supported_rate(value: u32) -> bool {
    value == 11025 || value == 22000 || value == 22040 || value == 22050 || value == 44100
}

impl SamplesPerSec {
    pub open spec fn value(self) -> u32 {
        match self {
            SamplesPerSec::Hz11025 => 11025,
            SamplesPerSec::Hz22000 => 22000,
            SamplesPerSec::Hz22040 => 22040,
            SamplesPerSec::Hz22050 => 22050,
            SamplesPerSec::Hz44100 => 44100,
        }
    }

    pub fn from_u32(value: u32) -> (r: Option<Self>)
        ensures
            r matches Some(s) ==> s.value() == value,
            r is None <==> !is_supported_rate(value),
            forall|s: SamplesPerSec| s.value() == value ==> r == Some(s),
    {
        match value {
            11025 => Some(SamplesPerSec::Hz11025),
            22000 => Some(SamplesPerSec::Hz22000),
            22040 => Some(SamplesPerSec::Hz22040),
            22050 => Some(SamplesPerSec::Hz22050),
            44100 => Some(SamplesPerSec::Hz44100),
            _ => None,
        }
    }

    pub fn as_u32(&self) -> (r: u32)
        ensures
            r == self.value(),
            is_supported_rate(r),
    {
        match self {
            SamplesPerSec::Hz11025 => 11025,
            SamplesPerSec::Hz22000 => 22000,
            SamplesPerSec::Hz22040 => 22040,
            SamplesPerSec::Hz22050 => 22050,
            SamplesPerSec::Hz44100 => 44100,
        }
    }
}

/// A mono PCM format descriptor. Block align and average bytes per second are derived.
#[derive(Debug, Clone, Copy, PartialEq, Eq, Structural)]
pub struct Format {
    pub channels: Channels,
    pub samples_per_sec: SamplesPerSec,
    pub bits_per_sample: BitsPerSample,
}

impl Format {
    pub open spec fn block_align(self) -> u16 {
        block_align_of(self.bits_per_sample, self.channels)
    }

    pub open spec fn avg_bytes_per_sec(self) -> u32 {
        (self.samples_per_sec.value() * self.block_align()) as u32
    }
}

} // verus!
