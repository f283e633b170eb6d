//! Borrowed PCM audio blocks.
//!
//! Audio moves as fixed-size interleaved blocks over caller-owned memory. A
//! [`PcmBlock`] is validated on construction so that its length is a whole,
//! non-zero number of sample frames.

use vstd::prelude::*;

use crate::bytes::{decode16, encode16};
use crate::esp_core::error::{Error, Result};
use crate::esp_core::time::Micros;

verus! {

/// `rusty_esp_core::pcm::as_i16`: the buffer viewed as 16-bit samples in
/// place. Where there is a view, it is of an even number of bytes and holds
/// their little-endian samples. Whether there is one also depends on where the
/// buffer lies and on the machine's byte order, so nothing is said of that.
#[verifier::external_body]
pub(crate) fn as_i16(bytes: &[u8]) -> (r: Option<&[i16]>)
    ensures
        r matches Some(samples) ==> bytes@.len() % 2 == 0 && samples@ == decode16(bytes@),
{
    rusty_esp_core::pcm::as_i16(bytes)
}

/// `rusty_esp_core::pcm::as_i16_mut`: the same for a buffer being written. The
/// samples that the view holds in the end are the buffer's in the end; where
/// there is no view, the buffer is untouched.
#[verifier::external_body]
pub(crate) fn as_i16_mut(bytes: &mut [u8]) -> (r: Option<&mut [i16]>)
    ensures
        match r {
            Some(samples) => {
                &&& old(bytes)@.len() % 2 == 0
                &&& samples@ == decode16(old(bytes)@)
                &&& final(samples)@.len() == samples@.len() ==> final(bytes)@ == encode16(
                    final(samples)@,
                )
            },
            None => final(bytes)@ == old(bytes)@,
        },
{
    rusty_esp_core::pcm::as_i16_mut(bytes)
}

/// Sample encoding of one channel value.
#[derive(Debug, Clone, Copy, PartialEq, Eq, Hash, Structural)]
pub enum SampleFormat {
    /// Signed 16-bit little-endian.
    I16,
    /// Signed 24-bit in the top bits of a 32-bit little-endian word.
    I24In32,
    /// Signed 32-bit little-endian.
    I32,
    /// IEEE 754 binary32 little-endian.
    F32,
}

impl SampleFormat {
    /// Bytes per single-channel sample.
    pub open spec fn width(self) -> nat {
        match self {
            SampleFormat::I16 => 2,
            SampleFormat::I24In32 => 4,
            SampleFormat::I32 => 4,
            SampleFormat::F32 => 4,
        }
    }

    /// Bytes per single-channel sample.
    pub fn bytes(self) -> (r: usize)
        ensures
            r == self.width(),
    {
        match self {
            SampleFormat::I16 => 2,
            SampleFormat::I24In32 => 4,
            SampleFormat::I32 => 4,
            SampleFormat::F32 => 4,
        }
    }
}

/// Rate, channel count and sample encoding.
#[derive(Debug, Clone, Copy, PartialEq, Eq, Hash, Structural)]
pub struct PcmFormat {
    /// Frames per second.
    pub sample_rate_hz: u32,
    /// Interleaved channels per frame (1 = mono, 2 = stereo).
    pub channels: u8,
    /// Encoding of each channel value.
    pub sample: SampleFormat,
}

impl PcmFormat {
    /// 16 kHz mono 16-bit: the voice default.
    pub open spec fn voice() -> PcmFormat {
        PcmFormat { sample_rate_hz: 16_000, channels: 1, sample: SampleFormat::I16 }
    }

    /// 48 kHz stereo 16-bit: the media default.
    pub open spec fn media() -> PcmFormat {
        PcmFormat { sample_rate_hz: 48_000, channels: 2, sample: SampleFormat::I16 }
    }

    /// 16 kHz mono 16-bit: the voice default.
    pub fn pcm16_16k_mono() -> (r: PcmFormat)
        ensures
            r == PcmFormat::voice(),
    {
        PcmFormat { sample_rate_hz: 16_000, channels: 1, sample: SampleFormat::I16 }
    }

    /// 48 kHz stereo 16-bit: the media default.
    pub fn pcm16_48k_stereo() -> (r: PcmFormat)
        ensures
            r == PcmFormat::media(),
    {
        PcmFormat { sample_rate_hz: 48_000, channels: 2, sample: SampleFormat::I16 }
    }

    /// Bytes in one frame (one sample of every channel).
    pub open spec fn frame_width(self) -> nat {
        self.sample.width() * (self.channels as nat)
    }

    /// The format for a rate, a channel count and an encoding, or the refusal
    /// of a zero rate or zero channels.
    pub open spec fn checked(
        sample_rate_hz: u32,
        channels: u8,
        sample: SampleFormat,
    ) -> Result<PcmFormat> {
        if sample_rate_hz == 0 || channels == 0 {
            Err(Error::InvalidGeometry)
        } else {
            Ok(PcmFormat { sample_rate_hz, channels, sample })
        }
    }

    /// Build a format, rejecting a zero rate or zero channels.
    pub fn new(sample_rate_hz: u32, channels: u8, sample: SampleFormat) -> (r: Result<Self>)
        ensures
            r == PcmFormat::checked(sample_rate_hz, channels, sample),
    {
        if sample_rate_hz == 0 || channels == 0 {
            return Err(Error::InvalidGeometry);
        }
        Ok(PcmFormat { sample_rate_hz, channels, sample })
    }

    /// Bytes per sample frame (all channels).
    pub fn frame_bytes(&self) -> (r: usize)
        ensures
            r == self.frame_width(),
            r <= 4 * 255,
            self.channels > 0 <==> r > 0,
    {
        let width: usize = self.sample.bytes();
        let channels: usize = self.channels as usize;
        assert(width * channels <= 4 * 255 && (channels > 0 <==> width * channels > 0))
            by (nonlinear_arith)
            requires
                width == 2 || width == 4,
                channels <= 255,
        ;
        width * channels
    }

    /// Bytes needed to hold `micros` of audio, rounded down to a whole frame.
    pub fn bytes_for_micros(&self, micros: u64) -> (r: usize)
        requires
            self.sample_rate_hz * micros <= u64::MAX,
            self.sample_rate_hz * micros / 1_000_000 * self.frame_width() <= usize::MAX,
            self.sample_rate_hz * micros / 1_000_000 <= usize::MAX,
        ensures
            r == self.sample_rate_hz * micros / 1_000_000 * self.frame_width(),
    {
        let frames: u64 = self.sample_rate_hz as u64 * micros / 1_000_000;
        frames as usize * self.frame_bytes()
    }

    /// Microseconds that `frames` sample frames last, rounded down.
    pub open spec fn micros_of(self, frames: nat) -> nat {
        frames * 1_000_000 / self.sample_rate_hz as nat
    }

    /// Duration in microseconds of `frames` sample frames.
    pub fn micros_for_frames(&self, frames: usize) -> (r: u64)
        requires
            self.sample_rate_hz > 0,
            frames * 1_000_000 <= u64::MAX,
        ensures
            r == self.micros_of(frames as nat),
    {
        frames as u64 * 1_000_000 / (self.sample_rate_hz as u64)
    }
}

/// A borrowed block of interleaved PCM.
#[derive(Debug, Clone, Copy)]
pub struct PcmBlock<'a> {
    /// Rate, channels, encoding.
    pub format: PcmFormat,
    /// Capture instant of the first frame on the device's monotonic clock.
    pub timestamp: Micros,
    /// Interleaved sample bytes; a whole number of frames.
    pub data: &'a [u8],
}

/// What a block is, apart from where it lies.
pub struct BlockView {
    /// Rate, channels, encoding.
    pub format: PcmFormat,
    /// Capture instant of the first frame.
    pub timestamp: Micros,
    /// Interleaved sample bytes.
    pub data: Seq<u8>,
}

/// Whether `len` bytes are a whole, non-zero number of frames of `format`.
pub open spec fn whole_frames(format: PcmFormat, len: nat) -> bool {
    &&& format.channels > 0
    &&& len > 0
    &&& len % format.frame_width() == 0
}

impl BlockView {
    /// A block holds a whole, non-zero number of frames.
    pub open spec fn well_formed(self) -> bool {
        whole_frames(self.format, self.data.len())
    }

    /// Sample frames in the block.
    pub open spec fn frame_count(self) -> nat {
        self.data.len() / self.format.frame_width()
    }

    /// Timestamp of the frame that would follow the block.
    pub open spec fn end(self) -> Micros {
        self.timestamp.plus(self.format.micros_of(self.frame_count()))
    }
}

impl<'a> View for PcmBlock<'a> {
    type V = BlockView;

    open spec fn view(&self) -> BlockView {
        BlockView { format: self.format, timestamp: self.timestamp, data: self.data@ }
    }
}

impl<'a> PcmBlock<'a> {
    /// A block over `data`, which must be non-empty and frame-aligned.
    pub fn new(format: PcmFormat, timestamp: Micros, data: &'a [u8]) -> (r: Result<Self>)
        requires
            data@.len() == 0 || format.channels > 0,
        ensures
            r is Ok <==> whole_frames(format, data@.len()),
            r matches Ok(b) ==> b@ == (BlockView { format, timestamp, data: data@ }),
            r matches Err(e) ==> e == Error::InvalidGeometry,
    {
        let fb: usize = format.frame_bytes();
        if data.len() == 0 || data.len() % fb != 0 {
            return Err(Error::InvalidGeometry);
        }
        Ok(PcmBlock { format, timestamp, data })
    }

    /// Sample frames in this block.
    pub fn frames(&self) -> (r: usize)
        requires
            self.format.channels > 0,
        ensures
            r == self@.frame_count(),
    {
        self.data.len() / self.format.frame_bytes()
    }

    /// Duration of this block in microseconds.
    pub fn duration_micros(&self) -> (r: u64)
        requires
            self.format.channels > 0,
            self.format.sample_rate_hz > 0,
            self@.frame_count() * 1_000_000 <= u64::MAX,
        ensures
            r == self.format.micros_of(self@.frame_count()),
    {
        self.format.micros_for_frames(self.frames())
    }

    /// Timestamp of the frame that would follow this block.
    pub fn end(&self) -> (r: Micros)
        requires
            self.format.channels > 0,
            self.format.sample_rate_hz > 0,
            self@.frame_count() * 1_000_000 <= u64::MAX,
        ensures
            r == self@.end(),
    {
        self.timestamp.add_micros(self.duration_micros())
    }
}

/// A frame holds one sample of every channel: two bytes each of 16 bits, four
/// bytes each of any other encoding.
pub proof fn lemma_frame_holds_every_channel(format: PcmFormat)
    ensures
        format.sample == SampleFormat::I16 ==> format.frame_width() == 2 * format.channels,
        format.sample != SampleFormat::I16 ==> format.frame_width() == 4 * format.channels,
{
}

/// Frames last as long as the rate says, rounded down to whole microseconds, and
/// a block ends that long after its timestamp, or at the end of time.
pub proof fn lemma_blocks_last(block: BlockView)
    requires
        block.format.sample_rate_hz > 0,
        block.well_formed(),
    ensures
        ({
            let frames = block.frame_count() as int;
            let rate = block.format.sample_rate_hz as int;
            let micros = block.format.micros_of(block.frame_count()) as int;
            let end = block.timestamp.0 + micros;
            &&& frames * block.format.frame_width() == block.data.len()
            &&& micros * rate <= frames * 1_000_000 < (micros + 1) * rate
            &&& end <= u64::MAX ==> block.end().0 == end
            &&& end > u64::MAX ==> block.end().0 == u64::MAX
        }),
{
    let frames = block.frame_count() as int;
    let rate = block.format.sample_rate_hz as int;
    let micros = block.format.micros_of(block.frame_count()) as int;
    let width = block.format.frame_width() as int;
    vstd::arithmetic::div_mod::lemma_fundamental_div_mod(frames * 1_000_000, rate);
    assert(micros * rate <= frames * 1_000_000 < (micros + 1) * rate) by (nonlinear_arith)
        requires
            frames * 1_000_000 == rate * micros + (frames * 1_000_000) % rate,
            0 <= (frames * 1_000_000) % rate < rate,
    ;
    vstd::arithmetic::div_mod::lemma_fundamental_div_mod(block.data.len() as int, width);
    assert(width * frames == frames * width) by (nonlinear_arith);
}

/// The two defaults: 16-bit mono at 16 kHz, and 16-bit stereo at 48 kHz.
pub proof fn lemma_defaults()
    ensures
        PcmFormat::checked(16_000, 1, SampleFormat::I16) == Ok::<PcmFormat, Error>(
            PcmFormat::voice(),
        ),
        PcmFormat::checked(48_000, 2, SampleFormat::I16) == Ok::<PcmFormat, Error>(
            PcmFormat::media(),
        ),
{
}

/// A format is what it was asked to be, and is refused only without a rate or
/// without channels.
pub proof fn lemma_checked_formats(sample_rate_hz: u32, channels: u8, sample: SampleFormat)
    ensures
        ({
            let r = PcmFormat::checked(sample_rate_hz, channels, sample);
            &&& r is Ok <==> sample_rate_hz > 0 && channels > 0
            &&& r is Ok ==> r->Ok_0.sample_rate_hz == sample_rate_hz && r->Ok_0.channels == channels
                && r->Ok_0.sample == sample
            &&& r is Err ==> r == Err::<PcmFormat, Error>(Error::InvalidGeometry)
        }),
{
}

} // verus!
