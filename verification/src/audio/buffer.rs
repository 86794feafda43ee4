//! Planar audio in memory.
use vstd::prelude::*;

verus! {

/// The sample format of a delivered file.
#[derive(Clone, Copy, Debug, PartialEq, Eq, Structural)]
pub enum OutputSampleFormat {
    S16,
    S24,
    F32,
}

impl OutputSampleFormat {
    /// The width of a sample in bits.
    pub open spec fn bits(self) -> u16 {
        match self {
            OutputSampleFormat::S16 => 16,
            OutputSampleFormat::S24 => 24,
            OutputSampleFormat::F32 => 32,
        }
    }

    /// The largest code of the quantization grid, for the integer formats.
    pub open spec fn grid_max(self) -> Option<int> {
        match self {
            OutputSampleFormat::S16 => Some(32_767),
            OutputSampleFormat::S24 => Some(8_388_607),
            OutputSampleFormat::F32 => None,
        }
    }

    /// The width of a sample in bits.
    pub fn bits_per_sample(self) -> (r: u16)
        ensures
            r == self.bits(),
    {
        match self {
            OutputSampleFormat::S16 => 16,
            OutputSampleFormat::S24 => 24,
            OutputSampleFormat::F32 => 32,
        }
    }

    /// The quantization grid `(max, min_i, max_i)`, or `None` for f32, which is not
    /// quantized. Full scale maps to `max`, and the codes run from `min_i` to `max_i`. The
    /// grid is symmetric, so quantizing introduces no DC bias at full scale.
    pub fn int_grid(self) -> (r: Option<(i32, i32, i32)>)
        ensures
            r is Some <==> self.grid_max() is Some,
            r matches Some(g) ==> g.0 == self.grid_max()->0 && g.2 == g.0 && g.1 == -g.0,
    {
        match self {
            OutputSampleFormat::S16 => Some((32_767, -32_767, 32_767)),
            OutputSampleFormat::S24 => Some((8_388_607, -8_388_607, 8_388_607)),
            OutputSampleFormat::F32 => None,
        }
    }
}

/// Where a buffer was read from.
#[derive(Debug, Clone)]
pub struct SourceInfo {
    pub path: String,
    pub channels: usize,
    pub sample_rate: u32,
    pub codec: String,
}

/// Planar audio: one sequence of samples per channel, all equally long.
#[derive(Debug, Clone)]
pub struct AudioBuffer<S> {
    pub channels: Vec<Vec<S>>,
    pub sample_rate: u32,
    pub src_info: SourceInfo,
    pub out_format: OutputSampleFormat,
}

/// The samples of planar channels.
pub open spec fn planar<S>(channels: Seq<Vec<S>>) -> Seq<Seq<S>> {
    Seq::new(channels.len(), |c: int| channels[c]@)
}

/// Every channel has `frames` samples.
pub open spec fn rectangular<S>(channels: Seq<Seq<S>>, frames: nat) -> bool {
    forall|c: int| 0 <= c < channels.len() ==> (#[trigger] channels[c]).len() == frames
}

impl<S> AudioBuffer<S> {
    /// The samples, channel by channel.
    pub open spec fn samples(self) -> Seq<Seq<S>> {
        planar(self.channels@)
    }

    /// The number of samples in the first channel.
    pub open spec fn frames(self) -> nat {
        if self.channels@.len() == 0 {
            0
        } else {
            self.channels@[0]@.len()
        }
    }

    /// All channels are equally long.
    pub open spec fn well_formed(self) -> bool {
        rectangular(self.samples(), self.frames())
    }

    /// The number of frames.
    pub fn frame_len(&self) -> (r: usize)
        ensures
            r == self.frames(),
    {
        if self.channels.len() == 0 {
            0
        } else {
            self.channels[0].len()
        }
    }

    /// The number of channels.
    pub fn channels_count(&self) -> (r: usize)
        ensures
            r == self.channels@.len(),
    {
        self.channels.len()
    }
}

/// The grid of an integer format uses its whole width: `max` is the largest code that the
/// width can hold.
pub proof fn law_grid_uses_the_whole_width(format: OutputSampleFormat)
    ensures
        format.grid_max() matches Some(max) ==> 2 * (max + 1) == vstd::arithmetic::power2::pow2(
            format.bits() as nat,
        ),
{
    vstd::arithmetic::power2::lemma2_to64();
}

/// Every channel has as many samples as the buffer has frames.
pub proof fn law_channels_have_the_same_frames<S>(b: AudioBuffer<S>, c: int)
    requires
        b.well_formed(),
    ensures
        0 <= c < b.channels@.len() ==> b.samples()[c].len() == b.frames() && b.channels@[c]@.len()
            == b.frames(),
        b.channels@.len() == 0 ==> b.frames() == 0,
{
}

/// The formats take 16, 24 and 32 bits. Only the integer ones have a grid.
pub proof fn law_bits_of_the_formats(format: OutputSampleFormat)
    ensures
        format == OutputSampleFormat::S16 <==> format.bits() == 16,
        format == OutputSampleFormat::S24 <==> format.bits() == 24,
        format == OutputSampleFormat::F32 <==> format.bits() == 32,
        format.grid_max() is None <==> format == OutputSampleFormat::F32,
{
}

} // verus!
