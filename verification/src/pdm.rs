//! A PDM microphone as a source of mono 16-bit blocks: what the driver's reads
//! add up to.
//!
//! The hardware decimates PDM to 16-bit PCM at the configured rate. The driver
//! handle and its DMA buffers belong to the caller; [`PdmStream`] says when a
//! block is complete and what a read that brought nothing means.

use vstd::prelude::*;

use crate::esp_core::error::{Error, Result};
use crate::esp_core::pcm::{whole_frames, PcmFormat, SampleFormat};

verus! {

/// A running PDM receive channel producing mono i16. Counts wrap.
#[derive(Debug, Clone, Copy, PartialEq, Eq, Structural)]
pub struct PdmStream {
    /// The format of every block.
    pub format: PcmFormat,
    /// How long one read may wait for DMA.
    pub timeout_ms: u32,
    /// Blocks delivered.
    pub blocks: u64,
    /// Driver reads that returned fewer bytes than asked (the block was
    /// completed with further reads).
    pub short_reads: u64,
}

/// A block being filled by driver reads.
#[derive(Debug, Clone, Copy, PartialEq, Eq, Structural)]
pub struct DmaFill {
    /// Bytes the block will have.
    pub goal: usize,
    /// Bytes it has.
    pub filled: usize,
}

impl PdmStream {
    /// A channel at `sample_rate_hz`, mono 16-bit, that waits up to a second.
    pub fn new(sample_rate_hz: u32) -> (r: Result<Self>)
        ensures
            r == (if sample_rate_hz == 0 {
                Err(Error::InvalidGeometry)
            } else {
                Ok(
                    PdmStream {
                        format: PcmFormat { sample_rate_hz, channels: 1, sample: SampleFormat::I16 },
                        timeout_ms: 1000,
                        blocks: 0,
                        short_reads: 0,
                    },
                )
            }),
    {
        let format: PcmFormat = PcmFormat::new(sample_rate_hz, 1, SampleFormat::I16)?;
        Ok(PdmStream { format, timeout_ms: 1000, blocks: 0, short_reads: 0 })
    }

    /// How long one block read may wait for DMA before `Err(Timeout)`.
    pub fn set_timeout_ms(&mut self, ms: u32)
        ensures
            *final(self) == (PdmStream { timeout_ms: ms, ..*old(self) }),
    {
        self.timeout_ms = ms;
    }

    /// A block of `len` bytes, which must be a whole, non-zero number of frames.
    pub fn begin(&self, len: usize) -> (r: Result<DmaFill>)
        requires
            self.format.channels > 0,
        ensures
            r == (if whole_frames(self.format, len as nat) {
                Ok(DmaFill { goal: len, filled: 0 })
            } else {
                Err(Error::InvalidGeometry)
            }),
    {
        if len == 0 || len % self.format.frame_bytes() != 0 {
            return Err(Error::InvalidGeometry);
        }
        Ok(DmaFill { goal: len, filled: 0 })
    }

    /// A read brought `n` bytes of those still missing. None is a timeout; fewer
    /// than all is a short read; all of them complete the block.
    pub fn took(&mut self, fill: &mut DmaFill, n: usize) -> (r: Result<()>)
        requires
            old(fill).filled + n <= old(fill).goal,
        ensures
            n == 0 ==> r == Err::<(), Error>(Error::Timeout) && *final(self) == *old(self)
                && *final(fill) == *old(fill),
            n > 0 ==> r is Ok && *final(fill) == (DmaFill {
                goal: old(fill).goal,
                filled: (old(fill).filled + n) as usize,
            }),
            n > 0 && old(fill).filled + n < old(fill).goal ==> *final(self) == (PdmStream {
                short_reads: old(self).short_reads.wrapping_add(1),
                ..*old(self)
            }),
            n > 0 && old(fill).filled + n == old(fill).goal ==> *final(self) == (PdmStream {
                blocks: old(self).blocks.wrapping_add(1),
                ..*old(self)
            }),
    {
        if n == 0 {
            return Err(Error::Timeout);
        }
        fill.filled += n;
        if fill.filled < fill.goal {
            self.short_reads = self.short_reads.wrapping_add(1);
        } else {
            self.blocks = self.blocks.wrapping_add(1);
        }
        Ok(())
    }
}

impl DmaFill {
    /// Whether the block is complete.
    pub fn is_full(&self) -> (r: bool)
        ensures
            r == (self.filled >= self.goal),
    {
        self.filled >= self.goal
    }
}

} // verus!
