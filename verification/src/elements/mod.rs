//! The elements: gain, channel operations, a linear resampler, sample-format
//! conversion and a voice activity detector, over interleaved PCM.
//!
//! Every element that runs in a [`Pipeline`](crate::Pipeline) states what it
//! emits for a block as a spec function `emits`; its
//! [`step`](crate::Element::step) says that exactly this is written, or that
//! the refusal leaves the buffer alone.

use vstd::prelude::*;

use crate::bytes::overwritten;
use crate::esp_core::error::{Error, Result};
use crate::esp_core::pcm::{whole_frames, PcmFormat, SampleFormat};

pub mod channels;
pub mod convert;
pub mod filter;
pub mod gain;
pub mod resample;
pub mod vad;

pub use channels::{mix_i16, MonoToStereo, StereoToMono};
pub use convert::Convert;
pub use gain::Gain;
pub use resample::LinearResampler;
pub use vad::{EnergyVad, VadConfig};

verus! {

/// Channels the stateful filters keep memory for.
pub const MAX_CHANNELS: usize = 2;

/// `n` as a size, or the largest size there is.
pub open spec fn sized(n: nat) -> usize {
    if n > usize::MAX {
        usize::MAX
    } else {
        n as usize
    }
}

/// The refusal of a buffer of `room` bytes for `needed` bytes, if it is one.
pub open spec fn room_for(room: nat, needed: nat) -> Result<()> {
    if room < needed {
        Err(Error::BufferTooSmall { needed: sized(needed) })
    } else {
        Ok(())
    }
}

/// The refusal of anything but 16-bit samples, if it is one.
pub open spec fn i16_only(input: PcmFormat) -> Result<()> {
    if input.sample != SampleFormat::I16 {
        Err(Error::Unsupported)
    } else {
        Ok(())
    }
}

/// The refusal of anything but 16-bit samples in up to [`MAX_CHANNELS`]
/// channels, if it is one.
pub open spec fn i16_few_channels(input: PcmFormat) -> Result<()> {
    if input.sample != SampleFormat::I16 || input.channels as int > MAX_CHANNELS {
        Err(Error::Unsupported)
    } else {
        Ok(())
    }
}

/// Writing `emitted` over the front of a buffer and answering its length, or
/// answering the refusal and leaving the buffer alone.
pub open spec fn wrote(
    emitted: Result<Seq<u8>>,
    before: Seq<u8>,
    r: Result<usize>,
    after: Seq<u8>,
) -> bool {
    match emitted {
        Ok(bytes) => {
            &&& r == Ok::<usize, Error>(bytes.len() as usize)
            &&& bytes.len() <= before.len()
            &&& after == overwritten(before, bytes)
        },
        Err(e) => {
            &&& r == Err::<usize, Error>(e)
            &&& after == before
        },
    }
}

/// A block of 16-bit frames holds whole samples.
pub proof fn lemma_whole_samples(format: PcmFormat, len: nat)
    requires
        format.sample == SampleFormat::I16,
        whole_frames(format, len),
    ensures
        len % 2 == 0,
{
    let fw = format.frame_width();
    let frames = len / fw;
    let channels = format.channels as nat;
    assert(fw == 2 * channels);
    assert(len == fw * frames) by (nonlinear_arith)
        requires
            fw > 0,
            len % fw == 0,
            frames == len / fw,
    ;
    assert(len == 2 * (channels * frames)) by (nonlinear_arith)
        requires
            len == fw * frames,
            fw == 2 * channels,
    ;
}

/// Accept interleaved i16 with up to [`MAX_CHANNELS`] channels.
pub fn require_i16(input: PcmFormat) -> (r: Result<()>)
    ensures
        r == i16_few_channels(input),
{
    if input.sample != SampleFormat::I16 || input.channels as usize > MAX_CHANNELS {
        return Err(Error::Unsupported);
    }
    Ok(())
}

/// Accept interleaved i16 with any channel count.
pub fn require_i16_any(input: PcmFormat) -> (r: Result<()>)
    ensures
        r == i16_only(input),
{
    if input.sample != SampleFormat::I16 {
        return Err(Error::Unsupported);
    }
    Ok(())
}

/// Check `out` can take `needed` bytes.
pub fn require_room(out: &[u8], needed: usize) -> (r: Result<()>)
    ensures
        r == room_for(out@.len(), needed as nat),
{
    if out.len() < needed {
        return Err(Error::BufferTooSmall { needed });
    }
    Ok(())
}

/// When a buffer is refused, and what of: exactly where it is too short, with
/// the length that it would have to have.
pub proof fn lemma_refused_for_room(room: nat, needed: nat)
    ensures
        room >= needed <==> room_for(room, needed) is Ok,
        room < needed <= usize::MAX ==> room_for(room, needed) == Err::<(), Error>(
            Error::BufferTooSmall { needed: needed as usize },
        ),
{
}

/// When a format is refused: anything but 16-bit samples, and of the elements
/// with memory for each channel anything but one or two of them.
pub proof fn lemma_refused_formats(format: PcmFormat)
    ensures
        i16_only(format) is Ok <==> format.sample == SampleFormat::I16,
        i16_only(format) is Err ==> i16_only(format) == Err::<(), Error>(Error::Unsupported),
        i16_few_channels(format) is Ok <==> format.sample == SampleFormat::I16 && format.channels
            <= 2,
        i16_few_channels(format) is Err ==> i16_few_channels(format) == Err::<(), Error>(
            Error::Unsupported,
        ),
{
}

} // verus!
