//! RIFF/WAVE headers for PCM, IEEE float and IMA ADPCM, written into and
//! parsed from caller buffers. Enough for a recorder to write a file any
//! player opens, and for a reader to find the data.

use vstd::prelude::*;

use crate::bytes::{copy_at, overwritten};
use crate::esp_core::error::{Error, Result};
use crate::esp_core::pcm::{PcmFormat, SampleFormat};

verus! {

/// `WAVE_FORMAT_PCM`.
pub const TAG_PCM: u16 = 0x0001;

/// `WAVE_FORMAT_IEEE_FLOAT`.
pub const TAG_FLOAT: u16 = 0x0003;

/// `WAVE_FORMAT_IMA_ADPCM` (also `DVI_ADPCM`).
pub const TAG_IMA_ADPCM: u16 = 0x0011;

/// Longest header this module writes (IMA: 12 + 28 + 12 + 8).
pub const MAX_HEADER_LEN: usize = 60;

/// `RIFF`.
pub const RIFF: [u8; 4] = [82, 73, 70, 70];

/// `WAVE`.
pub const WAVE: [u8; 4] = [87, 65, 86, 69];

/// `fmt `.
pub const FMT: [u8; 4] = [102, 109, 116, 32];

/// `fact`.
pub const FACT: [u8; 4] = [102, 97, 99, 116];

/// `data`.
pub const DATA: [u8; 4] = [100, 97, 116, 97];

/// What the data chunk holds.
#[derive(Debug, Clone, Copy, PartialEq, Eq, Structural)]
pub enum WavCodec {
    /// Integer or float PCM in `format`. `I24In32` is written as 32-bit PCM
    /// (it is one).
    Pcm(PcmFormat),
    /// IMA ADPCM blocks.
    ImaAdpcm {
        /// Frames per second.
        sample_rate_hz: u32,
        /// Channels.
        channels: u8,
        /// Bytes per block (`nBlockAlign`).
        block_align: u16,
        /// Frames per block (`wSamplesPerBlock`).
        frames_per_block: u16,
    },
}

/// A header ready to write or freshly parsed.
#[derive(Debug, Clone, Copy, PartialEq, Eq, Structural)]
pub struct WavHeader {
    /// The codec and its parameters.
    pub codec: WavCodec,
    /// Bytes in the data chunk. Use `u32::MAX` while still recording; a
    /// recorder patches the two length fields when it closes the file.
    pub data_len: u32,
    /// Sample frames in the file (the `fact` chunk; written for non-PCM).
    pub total_frames: u32,
}

/// The four little-endian bytes of `v`.
pub open spec fn le32(v: u32) -> Seq<u8> {
    seq![
        (v % 256) as u8,
        ((v / 256) % 256) as u8,
        ((v / 65536) % 256) as u8,
        (v / 16777216) as u8,
    ]
}

/// The two little-endian bytes of `v`.
pub open spec fn le16(v: u16) -> Seq<u8> {
    seq![(v % 256) as u8, (v / 256) as u8]
}

/// The little-endian number in the two bytes from `at` on.
pub open spec fn u16_in(bytes: Seq<u8>, at: int) -> u16 {
    (bytes[at] as int + 256 * (bytes[at + 1] as int)) as u16
}

/// The little-endian number in the four bytes from `at` on.
pub open spec fn u32_in(bytes: Seq<u8>, at: int) -> u32 {
    (bytes[at] as int + 256 * (bytes[at + 1] as int) + 65536 * (bytes[at + 2] as int) + 16777216 * (
    bytes[at + 3] as int)) as u32
}

/// A chunk: its name, the length of its body, its body.
pub open spec fn chunk(id: Seq<u8>, body: Seq<u8>) -> Seq<u8> {
    id + le32(body.len() as u32) + body
}

/// The fields of a `fmt ` chunk that matter to a reader.
#[derive(Debug, Clone, Copy, PartialEq, Eq, Structural)]
pub struct FmtFields {
    /// The codec's tag.
    pub tag: u16,
    /// Channels.
    pub channels: u16,
    /// Frames per second.
    pub rate: u32,
    /// Bytes per frame or block.
    pub align: u16,
    /// Bits per sample.
    pub bits: u16,
    /// Frames per block, or 0 where the chunk does not say.
    pub frames_per_block: u16,
}

/// The part of a `fmt ` body that every codec has.
pub open spec fn fmt_common(f: FmtFields, byte_rate: u32) -> Seq<u8> {
    le16(f.tag) + le16(f.channels) + le32(f.rate) + le32(byte_rate) + le16(f.align) + le16(f.bits)
}

/// The fields in a `fmt ` body of `size` bytes.
pub open spec fn fmt_fields(body: Seq<u8>, size: u32) -> FmtFields {
    FmtFields {
        tag: u16_in(body, 0),
        channels: u16_in(body, 2),
        rate: u32_in(body, 4),
        align: u16_in(body, 12),
        bits: u16_in(body, 14),
        frames_per_block: if size >= 20 && u16_in(body, 16) >= 2 {
            u16_in(body, 18)
        } else {
            0
        },
    }
}

/// `n` as a `u32`, or the largest one.
pub open spec fn saturated32(n: nat) -> u32 {
    if n > u32::MAX {
        u32::MAX
    } else {
        n as u32
    }
}

impl WavHeader {
    /// Bytes in the header.
    pub open spec fn header_len(self) -> nat {
        match self.codec {
            WavCodec::Pcm(f) => match f.sample {
                SampleFormat::F32 => 58,
                _ => 44,
            },
            WavCodec::ImaAdpcm { .. } => 60,
        }
    }

    /// The value of the RIFF size field.
    pub open spec fn riff_len(self) -> u32 {
        if self.data_len == u32::MAX {
            u32::MAX
        } else {
            saturated32((self.header_len() - 8 + self.data_len) as nat)
        }
    }

    /// The fields of the `fmt ` chunk.
    pub open spec fn fields(self) -> FmtFields {
        match self.codec {
            WavCodec::Pcm(f) => FmtFields {
                tag: if f.sample == SampleFormat::F32 {
                    TAG_FLOAT
                } else {
                    TAG_PCM
                },
                channels: f.channels as u16,
                rate: f.sample_rate_hz,
                align: f.frame_width() as u16,
                bits: if f.sample == SampleFormat::I16 {
                    16
                } else {
                    32
                },
                frames_per_block: 0,
            },
            WavCodec::ImaAdpcm { sample_rate_hz, channels, block_align, frames_per_block } => FmtFields {
                tag: TAG_IMA_ADPCM,
                channels: channels as u16,
                rate: sample_rate_hz,
                align: block_align,
                bits: 4,
                frames_per_block,
            },
        }
    }

    /// Average bytes per second: the rate times the frame size for PCM, the
    /// rate times block size over block frames for ADPCM.
    pub open spec fn byte_rate(self) -> u32 {
        match self.codec {
            WavCodec::Pcm(f) => saturated32(f.sample_rate_hz as nat * f.frame_width()),
            WavCodec::ImaAdpcm { sample_rate_hz, block_align, frames_per_block, .. } => ((
            sample_rate_hz as nat * block_align as nat / (if frames_per_block == 0 {
                1
            } else {
                frames_per_block as nat
            })) % 4294967296) as u32,
        }
    }

    /// The body of the `fmt ` chunk.
    pub open spec fn fmt_body(self) -> Seq<u8> {
        let common = fmt_common(self.fields(), self.byte_rate());
        match self.codec {
            WavCodec::Pcm(f) => match f.sample {
                SampleFormat::F32 => common + le16(0),
                _ => common,
            },
            WavCodec::ImaAdpcm { frames_per_block, .. } => common + le16(2) + le16(
                frames_per_block,
            ),
        }
    }

    /// The `fact` chunk, where there is one: all but integer PCM.
    pub open spec fn fact_chunk(self) -> Seq<u8> {
        match self.codec {
            WavCodec::Pcm(f) => match f.sample {
                SampleFormat::F32 => chunk(FACT@, le32(self.total_frames)),
                _ => Seq::empty(),
            },
            WavCodec::ImaAdpcm { .. } => chunk(FACT@, le32(self.total_frames)),
        }
    }

    /// The header's bytes.
    pub open spec fn bytes(self) -> Seq<u8> {
        (RIFF@ + le32(self.riff_len()) + WAVE@) + chunk(FMT@, self.fmt_body()) + self.fact_chunk()
            + (DATA@ + le32(self.data_len))
    }
}

/// The header that a `data` chunk of `size` bytes completes, after a `fmt `
/// chunk with the fields `fmt` and with `total` frames told by a `fact` chunk
/// (0 if none did).
pub open spec fn describe(fmt: Option<FmtFields>, size: u32, total: u32) -> Result<WavHeader> {
    match fmt {
        None => Err(Error::InvalidFormat),
        Some(f) => if f.channels == 0 || f.channels > 255 || f.rate == 0 {
            Err(Error::InvalidFormat)
        } else if f.tag == TAG_PCM && f.bits == 16 {
            Ok(pcm_header(f, SampleFormat::I16, size, total))
        } else if f.tag == TAG_PCM && f.bits == 32 {
            Ok(pcm_header(f, SampleFormat::I32, size, total))
        } else if f.tag == TAG_FLOAT && f.bits == 32 {
            Ok(pcm_header(f, SampleFormat::F32, size, total))
        } else if f.tag == TAG_IMA_ADPCM && f.bits == 4 {
            if f.frames_per_block == 0 {
                Err(Error::InvalidFormat)
            } else {
                Ok(
                    WavHeader {
                        codec: WavCodec::ImaAdpcm {
                            sample_rate_hz: f.rate,
                            channels: f.channels as u8,
                            block_align: f.align,
                            frames_per_block: f.frames_per_block,
                        },
                        data_len: size,
                        total_frames: total,
                    },
                )
            }
        } else {
            Err(Error::Unsupported)
        },
    }
}

/// A PCM header; where no frame count was told, the data's length gives it,
/// unless the data is still being recorded.
pub open spec fn pcm_header(
    f: FmtFields,
    sample: SampleFormat,
    size: u32,
    total: u32,
) -> WavHeader {
    let format = PcmFormat { sample_rate_hz: f.rate, channels: f.channels as u8, sample };
    WavHeader {
        codec: WavCodec::Pcm(format),
        data_len: size,
        total_frames: if total != 0 {
            total
        } else if size == u32::MAX {
            0
        } else {
            (size as nat / format.frame_width()) as u32
        },
    }
}

/// `r` with its offset counted from `by` bytes earlier.
pub open spec fn moved(r: Result<(WavHeader, int)>, by: int) -> Result<(WavHeader, int)> {
    match r {
        Ok((header, offset)) => Ok((header, offset + by)),
        Err(e) => Err(e),
    }
}

/// Reads chunks from the front of `rest` until a `data` chunk completes the
/// header; gives it with the offset of the first data byte.
#[verifier::opaque]
pub open spec fn scan(rest: Seq<u8>, fmt: Option<FmtFields>, total: u32) -> Result<
    (WavHeader, int),
>
    decreases rest.len(),
{
    if rest.len() < 8 {
        Err(Error::InvalidFormat)
    } else {
        let id = rest.take(4);
        let size = u32_in(rest, 4);
        // Chunks are word-aligned.
        let next = 8 + size as int + size as int % 2;
        if id == DATA@ {
            match describe(fmt, size, total) {
                Ok(header) => Ok((header, 8)),
                Err(e) => Err(e),
            }
        } else if id == FMT@ && (size < 16 || 8 + size > rest.len()) {
            Err(Error::InvalidFormat)
        } else if next > rest.len() {
            Err(Error::InvalidFormat)
        } else {
            moved(
                scan(
                    rest.skip(next),
                    if id == FMT@ {
                        Some(fmt_fields(rest.skip(8), size))
                    } else {
                        fmt
                    },
                    if id == FACT@ && size >= 4 {
                        u32_in(rest, 8)
                    } else {
                        total
                    },
                ),
                next,
            )
        }
    }
}

/// What [`WavHeader::parse`] answers.
#[verifier::opaque]
pub open spec fn parsed(bytes: Seq<u8>) -> Result<(WavHeader, int)> {
    if bytes.len() < 12 || bytes.take(4) != RIFF@ || bytes.subrange(8, 12) != WAVE@ {
        Err(Error::InvalidFormat)
    } else {
        moved(scan(bytes.skip(12), None, 0), 12)
    }
}

/// Copy `b` into `out` at `pos`; answers where it ends.
fn put_bytes(out: &mut [u8], pos: usize, b: &[u8]) -> (r: usize)
    requires
        pos + b@.len() <= old(out)@.len(),
    ensures
        r == pos + b@.len(),
        final(out)@.len() == old(out)@.len(),
        final(out)@.take(r as int) == old(out)@.take(pos as int) + b@,
        forall|j: int| r <= j < old(out)@.len() ==> #[trigger] final(out)@[j] == old(out)@[j],
{
    let ghost before = out@;
    copy_at(out, pos, b);
    let len: usize = out.len();
    assert(out@.take(pos + b@.len()) =~= before.take(pos as int) + b@);
    pos + b.len()
}

/// Write `v` as two little-endian bytes at `pos`; answers where they end.
fn put_u16(out: &mut [u8], pos: usize, v: u16) -> (r: usize)
    requires
        pos + 2 <= old(out)@.len(),
    ensures
        r == pos + 2,
        final(out)@.len() == old(out)@.len(),
        final(out)@.take(r as int) == old(out)@.take(pos as int) + le16(v),
        forall|j: int| r <= j < old(out)@.len() ==> #[trigger] final(out)@[j] == old(out)@[j],
{
    let b: [u8; 2] = [(v % 256) as u8, (v / 256) as u8];
    assert(b@ =~= le16(v));
    put_bytes(out, pos, b.as_slice())
}

/// Write `v` as four little-endian bytes at `pos`; answers where they end.
fn put_u32(out: &mut [u8], pos: usize, v: u32) -> (r: usize)
    requires
        pos + 4 <= old(out)@.len(),
    ensures
        r == pos + 4,
        final(out)@.len() == old(out)@.len(),
        final(out)@.take(r as int) == old(out)@.take(pos as int) + le32(v),
        forall|j: int| r <= j < old(out)@.len() ==> #[trigger] final(out)@[j] == old(out)@[j],
{
    let b: [u8; 4] = [
        (v % 256) as u8,
        ((v / 256) % 256) as u8,
        ((v / 65536) % 256) as u8,
        (v / 16777216) as u8,
    ];
    assert(b@ =~= le32(v));
    put_bytes(out, pos, b.as_slice())
}

/// Write the name and size of a `fmt ` chunk and the part of its body that
/// every codec has.
fn put_fmt(out: &mut [u8], pos: usize, size: u32, f: FmtFields, byte_rate: u32) -> (r: usize)
    requires
        pos + 24 <= old(out)@.len(),
    ensures
        r == pos + 24,
        final(out)@.len() == old(out)@.len(),
        final(out)@.take(r as int) == old(out)@.take(pos as int) + (FMT@ + le32(size) + fmt_common(
            f,
            byte_rate,
        )),
        forall|j: int| r <= j < old(out)@.len() ==> #[trigger] final(out)@[j] == old(out)@[j],
{
    let ghost before = out@;
    let p: usize = put_bytes(out, pos, FMT.as_slice());
    let p: usize = put_u32(out, p, size);
    let p: usize = put_u16(out, p, f.tag);
    let p: usize = put_u16(out, p, f.channels);
    let p: usize = put_u32(out, p, f.rate);
    let p: usize = put_u32(out, p, byte_rate);
    let p: usize = put_u16(out, p, f.align);
    let p: usize = put_u16(out, p, f.bits);
    assert(out@.take(p as int) =~= before.take(pos as int) + (FMT@ + le32(size) + fmt_common(
        f,
        byte_rate,
    )));
    p
}

/// Write the `fact` chunk.
fn put_fact(out: &mut [u8], pos: usize, total: u32) -> (r: usize)
    requires
        pos + 12 <= old(out)@.len(),
    ensures
        r == pos + 12,
        final(out)@.len() == old(out)@.len(),
        final(out)@.take(r as int) == old(out)@.take(pos as int) + chunk(FACT@, le32(total)),
        forall|j: int| r <= j < old(out)@.len() ==> #[trigger] final(out)@[j] == old(out)@[j],
{
    let ghost before = out@;
    let p: usize = put_bytes(out, pos, FACT.as_slice());
    let p: usize = put_u32(out, p, 4);
    let p: usize = put_u32(out, p, total);
    assert(out@.take(p as int) =~= before.take(pos as int) + chunk(FACT@, le32(total)));
    p
}

impl WavHeader {
    /// A PCM header for `data_len` bytes in `format`.
    pub fn pcm(format: PcmFormat, data_len: u32) -> (r: Self)
        requires
            format.channels > 0,
        ensures
            r.codec == WavCodec::Pcm(format),
            r.data_len == data_len,
            r.total_frames == data_len as nat / format.frame_width(),
    {
        WavHeader {
            codec: WavCodec::Pcm(format),
            data_len,
            total_frames: data_len / (format.frame_bytes() as u32),
        }
    }

    /// An IMA ADPCM header.
    pub fn ima_adpcm(
        sample_rate_hz: u32,
        channels: u8,
        block_align: u16,
        frames_per_block: u16,
        data_len: u32,
        total_frames: u32,
    ) -> (r: Self)
        ensures
            r == (WavHeader {
                codec: WavCodec::ImaAdpcm {
                    sample_rate_hz,
                    channels,
                    block_align,
                    frames_per_block,
                },
                data_len,
                total_frames,
            }),
    {
        WavHeader {
            codec: WavCodec::ImaAdpcm { sample_rate_hz, channels, block_align, frames_per_block },
            data_len,
            total_frames,
        }
    }

    /// Bytes [`write`](Self::write) produces for this header.
    pub fn len(&self) -> (r: usize)
        ensures
            r == self.header_len(),
            r <= MAX_HEADER_LEN,
    {
        match self.codec {
            WavCodec::Pcm(f) => match f.sample {
                SampleFormat::F32 => 58,
                _ => 44,
            },
            WavCodec::ImaAdpcm { .. } => 60,
        }
    }

    /// Never empty.
    pub fn is_empty(&self) -> (r: bool)
        ensures
            !r,
    {
        false
    }

    /// Offsets (from the file start) of the RIFF size and data size fields,
    /// for patching after a recording of unknown length.
    pub fn size_field_offsets(&self) -> (r: (usize, usize))
        ensures
            r.0 == 4,
            r.1 == self.header_len() - 4,
    {
        (4, self.len() - 4)
    }

    /// Write the header into `out`; returns [`len`](Self::len).
    pub fn write(&self, out: &mut [u8]) -> (r: Result<usize>)
        ensures
            r == (if old(out)@.len() < self.header_len() {
                Err(Error::BufferTooSmall { needed: self.header_len() as usize })
            } else {
                Ok(self.header_len() as usize)
            }),
            r is Ok ==> final(out)@ == overwritten(old(out)@, self.bytes()),
            r is Err ==> final(out)@ == old(out)@,
    {
        let len: usize = self.len();
        if out.len() < len {
            return Err(Error::BufferTooSmall { needed: len });
        }
        let ghost before = out@;
        let riff_len: u32 = if self.data_len == u32::MAX {
            u32::MAX
        } else {
            (len as u32 - 8).saturating_add(self.data_len)
        };
        let p: usize = put_bytes(out, 0, RIFF.as_slice());
        let p: usize = put_u32(out, p, riff_len);
        let p: usize = put_bytes(out, p, WAVE.as_slice());
        assert(out@.take(12) =~= RIFF@ + le32(self.riff_len()) + WAVE@);
        let p: usize = match self.codec {
            WavCodec::Pcm(f) => self.put_pcm(f, out, p),
            WavCodec::ImaAdpcm {
                sample_rate_hz,
                channels,
                block_align,
                frames_per_block,
            } => self.put_ima(sample_rate_hz, channels, block_align, frames_per_block, out, p),
        };
        let p: usize = put_bytes(out, p, DATA.as_slice());
        let p: usize = put_u32(out, p, self.data_len);
        assert(out@.take(p as int) =~= self.bytes());
        assert(out@ =~= overwritten(before, out@.take(p as int)));
        Ok(len)
    }

    /// Write the `fmt ` chunk of PCM, and the `fact` chunk of float PCM.
    fn put_pcm(&self, f: PcmFormat, out: &mut [u8], pos: usize) -> (r: usize)
        requires
            self.codec == WavCodec::Pcm(f),
            pos + self.header_len() <= old(out)@.len() + 12,
        ensures
            r == pos + self.header_len() - 20,
            final(out)@.len() == old(out)@.len(),
            final(out)@.take(r as int) == old(out)@.take(pos as int) + chunk(FMT@, self.fmt_body())
                + self.fact_chunk(),
            forall|j: int| r <= j < old(out)@.len() ==> #[trigger] final(out)@[j] == old(out)@[j],
    {
        let ghost before = out@;
        let is_float: bool = f.sample == SampleFormat::F32;
        let fb: usize = f.frame_bytes();
        let byte_rate: u32 = mul_saturating(f.sample_rate_hz, fb as u32);
        let fields = FmtFields {
            tag: if is_float {
                TAG_FLOAT
            } else {
                TAG_PCM
            },
            channels: f.channels as u16,
            rate: f.sample_rate_hz,
            align: fb as u16,
            bits: if f.sample == SampleFormat::I16 {
                16
            } else {
                32
            },
            frames_per_block: 0,
        };
        if is_float {
            let p: usize = put_fmt(out, pos, 18, fields, byte_rate);
            // No further codec parameters follow.
            let p: usize = put_u16(out, p, 0);
            assert(out@.take(p as int) =~= before.take(pos as int) + chunk(FMT@, self.fmt_body()));
            put_fact(out, p, self.total_frames)
        } else {
            let p: usize = put_fmt(out, pos, 16, fields, byte_rate);
            assert(out@.take(p as int) =~= before.take(pos as int) + chunk(FMT@, self.fmt_body())
                + self.fact_chunk());
            p
        }
    }

    /// Write the `fmt ` and `fact` chunks of IMA ADPCM.
    fn put_ima(
        &self,
        sample_rate_hz: u32,
        channels: u8,
        block_align: u16,
        frames_per_block: u16,
        out: &mut [u8],
        pos: usize,
    ) -> (r: usize)
        requires
            self.codec == (WavCodec::ImaAdpcm {
                sample_rate_hz,
                channels,
                block_align,
                frames_per_block,
            }),
            pos + self.header_len() <= old(out)@.len() + 12,
        ensures
            r == pos + self.header_len() - 20,
            final(out)@.len() == old(out)@.len(),
            final(out)@.take(r as int) == old(out)@.take(pos as int) + chunk(FMT@, self.fmt_body())
                + self.fact_chunk(),
            forall|j: int| r <= j < old(out)@.len() ==> #[trigger] final(out)@[j] == old(out)@[j],
    {
        let ghost before = out@;
        let frames: u64 = if frames_per_block == 0 {
            1
        } else {
            frames_per_block as u64
        };
        assert(sample_rate_hz * block_align <= 4294967295 * 65535) by (nonlinear_arith)
            requires
                sample_rate_hz <= 4294967295,
                block_align <= 65535,
        ;
        let avg: u64 = sample_rate_hz as u64 * block_align as u64 / frames;
        let fields = FmtFields {
            tag: TAG_IMA_ADPCM,
            channels: channels as u16,
            rate: sample_rate_hz,
            align: block_align,
            bits: 4,
            frames_per_block,
        };
        let p: usize = put_fmt(out, pos, 20, fields, (avg % 4294967296) as u32);
        // Two bytes of codec parameters follow.
        let p: usize = put_u16(out, p, 2);
        let p: usize = put_u16(out, p, frames_per_block);
        assert(out@.take(p as int) =~= before.take(pos as int) + chunk(FMT@, self.fmt_body()));
        put_fact(out, p, self.total_frames)
    }
}

/// Whether the four bytes at `at` are `id`.
fn id_is(bytes: &[u8], at: usize, id: &[u8; 4]) -> (r: bool)
    requires
        at + 4 <= bytes@.len(),
    ensures
        r == (bytes@.subrange(at as int, at + 4) == id@),
{
    let r: bool = bytes[at] == id[0] && bytes[at + 1] == id[1] && bytes[at + 2] == id[2] && bytes[at
        + 3] == id[3];
    proof {
        let found = bytes@.subrange(at as int, at + 4);
        if r {
            assert(found =~= id@);
        } else {
            assert(found[0] == bytes@[at as int] && found[1] == bytes@[at + 1] && found[2]
                == bytes@[at + 2] && found[3] == bytes@[at + 3]);
        }
    }
    r
}

/// Read two little-endian bytes.
fn get_u16(bytes: &[u8], at: usize) -> (r: u16)
    requires
        at + 2 <= bytes@.len(),
    ensures
        r == u16_in(bytes@, at as int),
{
    bytes[at] as u16 + 256 * (bytes[at + 1] as u16)
}

/// Read four little-endian bytes.
fn get_u32(bytes: &[u8], at: usize) -> (r: u32)
    requires
        at + 4 <= bytes@.len(),
    ensures
        r == u32_in(bytes@, at as int),
{
    bytes[at] as u32 + 256 * (bytes[at + 1] as u32) + 65536 * (bytes[at + 2] as u32) + 16777216 * (
    bytes[at + 3] as u32)
}

/// The header that a `data` chunk completes.
fn complete_header(fmt: Option<FmtFields>, size: u32, total: u32) -> (r: Result<WavHeader>)
    ensures
        r == describe(fmt, size, total),
{
    let f: FmtFields = match fmt {
        None => {
            return Err(Error::InvalidFormat);
        },
        Some(f) => f,
    };
    if f.channels == 0 || f.channels > 255 || f.rate == 0 {
        return Err(Error::InvalidFormat);
    }
    let sample: SampleFormat = if f.tag == TAG_PCM && f.bits == 16 {
        SampleFormat::I16
    } else if f.tag == TAG_PCM && f.bits == 32 {
        SampleFormat::I32
    } else if f.tag == TAG_FLOAT && f.bits == 32 {
        SampleFormat::F32
    } else if f.tag == TAG_IMA_ADPCM && f.bits == 4 {
        if f.frames_per_block == 0 {
            return Err(Error::InvalidFormat);
        }
        return Ok(
            WavHeader {
                codec: WavCodec::ImaAdpcm {
                    sample_rate_hz: f.rate,
                    channels: f.channels as u8,
                    block_align: f.align,
                    frames_per_block: f.frames_per_block,
                },
                data_len: size,
                total_frames: total,
            },
        );
    } else {
        return Err(Error::Unsupported);
    };
    let format: PcmFormat = PcmFormat::new(f.rate, f.channels as u8, sample)?;
    let total_frames: u32 = if total != 0 {
        total
    } else if size == u32::MAX {
        0
    } else {
        size / (format.frame_bytes() as u32)
    };
    Ok(WavHeader { codec: WavCodec::Pcm(format), data_len: size, total_frames })
}

/// `r` as [`WavHeader::parse`] answers it.
pub open spec fn as_answer(r: Result<(WavHeader, usize)>) -> Result<(WavHeader, int)> {
    match r {
        Ok((header, offset)) => Ok((header, offset as int)),
        Err(e) => Err(e),
    }
}

impl WavHeader {
    /// Parse a header from the start of a file. Returns the header and the
    /// offset of the first data byte. Unknown chunks before `data` are
    /// skipped; `data_len` is taken as written (may be `u32::MAX` or 0 for a
    /// stream still being recorded).
    pub fn parse(bytes: &[u8]) -> (r: Result<(Self, usize)>)
        ensures
            as_answer(r) == parsed(bytes@),
            r matches Ok((_, offset)) ==> offset <= bytes@.len(),
    {
        proof {
            reveal(parsed);
        }
        let len: usize = bytes.len();
        if len < 12 || !id_is(bytes, 0, &RIFF) || !id_is(bytes, 8, &WAVE) {
            assert(bytes@.len() >= 12 ==> bytes@.take(4) =~= bytes@.subrange(0, 4));
            return Err(Error::InvalidFormat);
        }
        assert(bytes@.take(4) =~= bytes@.subrange(0, 4));
        let mut pos: usize = 12;
        let mut fmt: Option<FmtFields> = None;
        let mut total: u32 = 0;
        while len - pos >= 8
            invariant
                len == bytes@.len(),
                12 <= pos <= len,
                parsed(bytes@) == moved(scan(bytes@.skip(pos as int), fmt, total), pos as int),
            decreases len - pos,
        {
            proof {
                reveal(scan);
            }
            let ghost rest = bytes@.skip(pos as int);
            let size: u32 = get_u32(bytes, pos + 4);
            let body: usize = pos + 8;
            let room: usize = len - body;
            assert(rest.take(4) =~= bytes@.subrange(pos as int, pos + 4));
            assert(size == u32_in(rest, 4));
            if id_is(bytes, pos, &DATA) {
                return match complete_header(fmt, size, total) {
                    Ok(header) => Ok((header, body)),
                    Err(e) => Err(e),
                };
            }
            if id_is(bytes, pos, &FMT) {
                if size < 16 || size as u64 > room as u64 {
                    return Err(Error::InvalidFormat);
                }
                let frames_per_block: u16 = if size >= 20 && get_u16(bytes, body + 16) >= 2 {
                    get_u16(bytes, body + 18)
                } else {
                    0
                };
                let fields = FmtFields {
                    tag: get_u16(bytes, body),
                    channels: get_u16(bytes, body + 2),
                    rate: get_u32(bytes, body + 4),
                    align: get_u16(bytes, body + 12),
                    bits: get_u16(bytes, body + 14),
                    frames_per_block,
                };
                proof {
                    lemma_fmt_is_not_fact();
                    assert(fields == fmt_fields(rest.skip(8), size));
                }
                fmt = Some(fields);
            } else if id_is(bytes, pos, &FACT) {
                if size >= 4 && room >= 4 {
                    total = get_u32(bytes, body);
                    assert(total == u32_in(rest, 8));
                }
            }
            // Chunks are word-aligned.
            let step: u64 = size as u64 + (size % 2) as u64;
            if step > room as u64 {
                return Err(Error::InvalidFormat);
            }
            let next: usize = body + step as usize;
            assert(rest.skip(next - pos) =~= bytes@.skip(next as int));
            pos = next;
        }
        proof {
            reveal(scan);
        }
        Err(Error::InvalidFormat)
    }
}

proof fn lemma_fmt_is_not_fact()
    ensures
        FMT@ != FACT@,
{
    assert(FMT@[1] != FACT@[1]);
}

/// The product, or the largest `u32`.
fn mul_saturating(a: u32, b: u32) -> (r: u32)
    ensures
        r == saturated32(a as nat * b as nat),
{
    assert(a * b <= 4294967295 * 4294967295) by (nonlinear_arith)
        requires
            a <= 4294967295,
            b <= 4294967295,
    ;
    let product: u64 = a as u64 * b as u64;
    if product > u32::MAX as u64 {
        u32::MAX
    } else {
        product as u32
    }
}

/// A number read back from its four bytes.
pub proof fn lemma_le32(v: u32)
    ensures
        u32_in(le32(v), 0) == v,
{
}

/// A number read back from its two bytes.
pub proof fn lemma_le16(v: u16)
    ensures
        u16_in(le16(v), 0) == v,
{
}

proof fn lemma_ids_differ()
    ensures
        FMT@ != FACT@,
        FMT@ != DATA@,
        FACT@ != DATA@,
{
    assert(FMT@[1] != FACT@[1]);
    assert(FMT@[0] != DATA@[0]);
    assert(FACT@[0] != DATA@[0]);
}

/// A chunk at the front, seen by its parts.
proof fn lemma_chunk_front(id: Seq<u8>, body: Seq<u8>, rest: Seq<u8>)
    requires
        id.len() == 4,
        body.len() <= u32::MAX,
    ensures
        (chunk(id, body) + rest).take(4) == id,
        u32_in(chunk(id, body) + rest, 4) == body.len(),
        (chunk(id, body) + rest).skip(8) == body + rest,
        (chunk(id, body) + rest).skip(8 + body.len() as int) == rest,
        (chunk(id, body) + rest).len() == 8 + body.len() + rest.len(),
{
    let all = chunk(id, body) + rest;
    assert(all.take(4) =~= id);
    lemma_le32(body.len() as u32);
    assert(all[4] == le32(body.len() as u32)[0]);
    assert(all[5] == le32(body.len() as u32)[1]);
    assert(all[6] == le32(body.len() as u32)[2]);
    assert(all[7] == le32(body.len() as u32)[3]);
    assert(all.skip(8) =~= body + rest);
    assert(all.skip(8 + body.len() as int) =~= rest);
}

/// A chunk of another name before the `data` chunk changes nothing but the
/// offset, wherever it stands.
pub proof fn lemma_unknown_chunk_is_skipped(
    id: Seq<u8>,
    body: Seq<u8>,
    pad: Seq<u8>,
    rest: Seq<u8>,
    fmt: Option<FmtFields>,
    total: u32,
)
    requires
        id.len() == 4,
        id != FMT@,
        id != FACT@,
        id != DATA@,
        body.len() <= u32::MAX,
        pad.len() == body.len() % 2,
    ensures
        scan(chunk(id, body) + (pad + rest), fmt, total) == moved(
            scan(rest, fmt, total),
            (8 + body.len() + pad.len()) as int,
        ),
{
    reveal(scan);
    lemma_chunk_front(id, body, pad + rest);
    let all = chunk(id, body) + (pad + rest);
    let next = 8 + body.len() as int + pad.len() as int;
    assert(all.skip(next) =~= rest);
}

proof fn lemma_scan_fmt(body: Seq<u8>, rest: Seq<u8>, fmt: Option<FmtFields>, total: u32)
    requires
        16 <= body.len() <= u32::MAX,
        body.len() % 2 == 0,
    ensures
        scan(chunk(FMT@, body) + rest, fmt, total) == moved(
            scan(rest, Some(fmt_fields(body, body.len() as u32)), total),
            (8 + body.len()) as int,
        ),
{
    reveal(scan);
    lemma_chunk_front(FMT@, body, rest);
    lemma_ids_differ();
    let all = chunk(FMT@, body) + rest;
    assert(fmt_fields(all.skip(8), body.len() as u32) == fmt_fields(body, body.len() as u32));
}

proof fn lemma_scan_fact(told: u32, rest: Seq<u8>, fmt: Option<FmtFields>, total: u32)
    ensures
        scan(chunk(FACT@, le32(told)) + rest, fmt, total) == moved(scan(rest, fmt, told), 12),
{
    reveal(scan);
    lemma_chunk_front(FACT@, le32(told), rest);
    lemma_ids_differ();
    lemma_le32(told);
    let all = chunk(FACT@, le32(told)) + rest;
    assert(u32_in(all, 8) == u32_in(all.skip(8), 0));
}

proof fn lemma_scan_data(size: u32, rest: Seq<u8>, fmt: Option<FmtFields>, total: u32)
    ensures
        scan(DATA@ + le32(size) + rest, fmt, total) == (match describe(fmt, size, total) {
            Ok(header) => Ok((header, 8int)),
            Err(e) => Err(e),
        }),
{
    reveal(scan);
    let all = DATA@ + le32(size) + rest;
    assert(all.take(4) =~= DATA@);
    lemma_le32(size);
    assert(all[4] == le32(size)[0]);
    assert(all[5] == le32(size)[1]);
    assert(all[6] == le32(size)[2]);
    assert(all[7] == le32(size)[3]);
}

proof fn lemma_join(a: Seq<u8>, b: Seq<u8>, c: Seq<u8>, d: Seq<u8>, e: Seq<u8>)
    ensures
        a + b + c + d + e == a + (b + (c + (d + e))),
{
    assert(a + b + c + d + e =~= a + (b + (c + (d + e))));
}

proof fn lemma_join_with(
    a: Seq<u8>,
    b: Seq<u8>,
    c: Seq<u8>,
    p: Seq<u8>,
    d: Seq<u8>,
    e: Seq<u8>,
    f: Seq<u8>,
)
    ensures
        a + b + (c + p) + d + e + f == a + (b + (c + (p + (d + (e + f))))),
{
    assert(a + b + (c + p) + d + e + f =~= a + (b + (c + (p + (d + (e + f))))));
}

proof fn lemma_riff_front(riff_len: u32, rest: Seq<u8>)
    ensures
        ({
            let all = RIFF@ + le32(riff_len) + WAVE@ + rest;
            parsed(all) == moved(scan(rest, None, 0), 12)
        }),
{
    reveal(parsed);
    let all = RIFF@ + le32(riff_len) + WAVE@ + rest;
    assert(all.take(4) =~= RIFF@);
    assert(all.subrange(8, 12) =~= WAVE@);
    assert(all.skip(12) =~= rest);
}

/// A number standing between other bytes is read back.
proof fn lemma_field16(front: Seq<u8>, v: u16, back: Seq<u8>)
    ensures
        u16_in(front + le16(v) + back, front.len() as int) == v,
{
    let all = front + le16(v) + back;
    let n = front.len() as int;
    assert(all[n] == le16(v)[0]);
    assert(all[n + 1] == le16(v)[1]);
    lemma_le16(v);
}

/// A number standing between other bytes is read back.
proof fn lemma_field32(front: Seq<u8>, v: u32, back: Seq<u8>)
    ensures
        u32_in(front + le32(v) + back, front.len() as int) == v,
{
    let all = front + le32(v) + back;
    let n = front.len() as int;
    assert(all[n] == le32(v)[0]);
    assert(all[n + 1] == le32(v)[1]);
    assert(all[n + 2] == le32(v)[2]);
    assert(all[n + 3] == le32(v)[3]);
    lemma_le32(v);
}

/// Six parts and a tail, grouped around each part that is read.
proof fn lemma_regroup(
    a: Seq<u8>,
    b: Seq<u8>,
    c: Seq<u8>,
    d: Seq<u8>,
    e: Seq<u8>,
    f: Seq<u8>,
    tail: Seq<u8>,
)
    ensures
        ({
            let all = a + b + c + d + e + f + tail;
            &&& all == Seq::<u8>::empty() + a + (b + c + d + e + f + tail)
            &&& all == a + b + (c + d + e + f + tail)
            &&& all == (a + b) + c + (d + e + f + tail)
            &&& all == (a + b + c + d) + e + (f + tail)
            &&& all == (a + b + c + d + e) + f + tail
        }),
{
    let all = a + b + c + d + e + f + tail;
    assert(all =~= Seq::<u8>::empty() + a + (b + c + d + e + f + tail));
    assert(all =~= a + b + (c + d + e + f + tail));
    assert(all =~= (a + b) + c + (d + e + f + tail));
    assert(all =~= (a + b + c + d) + e + (f + tail));
}

proof fn lemma_common_fields(f: FmtFields, byte_rate: u32, tail: Seq<u8>)
    ensures
        ({
            let body = fmt_common(f, byte_rate) + tail;
            &&& u16_in(body, 0) == f.tag
            &&& u16_in(body, 2) == f.channels
            &&& u32_in(body, 4) == f.rate
            &&& u16_in(body, 12) == f.align
            &&& u16_in(body, 14) == f.bits
            &&& body.len() == 16 + tail.len()
        }),
{
    let (tag, channels, rate) = (le16(f.tag), le16(f.channels), le32(f.rate));
    let (bytes, align, bits) = (le32(byte_rate), le16(f.align), le16(f.bits));
    lemma_regroup(tag, channels, rate, bytes, align, bits, tail);
    lemma_field16(Seq::empty(), f.tag, channels + rate + bytes + align + bits + tail);
    lemma_field16(tag, f.channels, rate + bytes + align + bits + tail);
    lemma_field32(tag + channels, f.rate, bytes + align + bits + tail);
    lemma_field16(tag + channels + rate + bytes, f.align, bits + tail);
    lemma_field16(tag + channels + rate + bytes + align, f.bits, tail);
}

impl WavHeader {
    /// A header that a reader takes: frames per second, channels and frames per
    /// block are not zero.
    pub open spec fn readable(self) -> bool {
        match self.codec {
            WavCodec::Pcm(f) => f.sample_rate_hz > 0 && f.channels > 0,
            WavCodec::ImaAdpcm { sample_rate_hz, channels, frames_per_block, .. } => sample_rate_hz
                > 0 && channels > 0 && frames_per_block > 0,
        }
    }

    /// The header as a reader sees it: 24-bit samples in 32-bit words are
    /// 32-bit samples, and integer PCM tells its frames by its length alone.
    pub open spec fn as_read(self) -> WavHeader {
        match self.codec {
            WavCodec::Pcm(f) => pcm_header(
                self.fields(),
                if f.sample == SampleFormat::I24In32 {
                    SampleFormat::I32
                } else {
                    f.sample
                },
                self.data_len,
                if f.sample == SampleFormat::F32 {
                    self.total_frames
                } else {
                    0
                },
            ),
            WavCodec::ImaAdpcm { .. } => self,
        }
    }

    /// The fields in the body of the `fmt ` chunk are the header's.
    pub proof fn lemma_fmt_body_fields(self)
        ensures
            fmt_fields(self.fmt_body(), self.fmt_body().len() as u32) == self.fields(),
            16 <= self.fmt_body().len() <= 20,
            self.fmt_body().len() % 2 == 0,
    {
        let common = fmt_common(self.fields(), self.byte_rate());
        match self.codec {
            WavCodec::Pcm(f) => {
                if f.sample == SampleFormat::F32 {
                    lemma_common_fields(self.fields(), self.byte_rate(), le16(0));
                } else {
                    lemma_common_fields(self.fields(), self.byte_rate(), Seq::empty());
                    assert(common + Seq::empty() =~= common);
                }
            },
            WavCodec::ImaAdpcm { frames_per_block, .. } => {
                let tail = le16(2) + le16(frames_per_block);
                lemma_common_fields(self.fields(), self.byte_rate(), tail);
                let body = self.fmt_body();
                assert(common + tail =~= body);
                lemma_le16(2);
                lemma_le16(frames_per_block);
                assert(body.subrange(16, 18) =~= le16(2));
                assert(body.subrange(18, 20) =~= le16(frames_per_block));
                assert(u16_in(body, 16) == u16_in(body.subrange(16, 18), 0));
                assert(u16_in(body, 18) == u16_in(body.subrange(18, 20), 0));
            },
        }
    }

    /// Parsing what was written, whatever follows it, gives the header as read
    /// and the offset of what follows.
    pub proof fn lemma_parse_of_written(self, rest: Seq<u8>)
        requires
            self.readable(),
        ensures
            self.bytes().len() == self.header_len(),
            parsed(self.bytes() + rest) == Ok::<(WavHeader, int), Error>(
                (self.as_read(), self.header_len() as int),
            ),
    {
        let data = DATA@ + le32(self.data_len) + rest;
        let tail = self.fact_chunk() + data;
        let fmt = chunk(FMT@, self.fmt_body());
        let front = RIFF@ + le32(self.riff_len()) + WAVE@;
        self.lemma_lengths();
        assert(self.bytes() + rest == front + (fmt + tail)) by {
            lemma_join(front, fmt, self.fact_chunk(), DATA@ + le32(self.data_len), rest);
        }
        let read = Ok::<(WavHeader, int), Error>(
            (self.as_read(), (self.fact_chunk().len() + 8) as int),
        );
        assert(scan(tail, Some(self.fields()), 0) == read) by {
            self.lemma_scan_tail(rest);
        }
        self.lemma_parse_after_fmt(tail);
    }

    /// The header's bytes with `inserted` after its `fmt ` chunk.
    pub open spec fn bytes_with(self, inserted: Seq<u8>) -> Seq<u8> {
        (RIFF@ + le32(self.riff_len()) + WAVE@) + chunk(FMT@, self.fmt_body()) + inserted
            + self.fact_chunk() + (DATA@ + le32(self.data_len))
    }

    /// A chunk of another name after the `fmt ` chunk, padded to a whole word,
    /// changes nothing but the offset of the data.
    pub proof fn lemma_parse_skips_unknown_chunk(
        self,
        id: Seq<u8>,
        body: Seq<u8>,
        pad: Seq<u8>,
        rest: Seq<u8>,
    )
        requires
            self.readable(),
            id.len() == 4,
            id != FMT@,
            id != FACT@,
            id != DATA@,
            body.len() <= u32::MAX,
            pad.len() == body.len() % 2,
        ensures
            parsed(self.bytes_with(chunk(id, body) + pad) + rest) == Ok::<(WavHeader, int), Error>(
                (self.as_read(), (self.header_len() + 8 + body.len() + pad.len()) as int),
            ),
    {
        let data = DATA@ + le32(self.data_len) + rest;
        let tail = self.fact_chunk() + data;
        let fmt = chunk(FMT@, self.fmt_body());
        let front = RIFF@ + le32(self.riff_len()) + WAVE@;
        let extra = chunk(id, body) + (pad + tail);
        let by = (8 + body.len() + pad.len()) as int;
        let behind = (20 + self.fmt_body().len()) as int;
        let read = Ok::<(WavHeader, int), Error>(
            (self.as_read(), (self.fact_chunk().len() + 8) as int),
        );
        assert(scan(extra, Some(self.fields()), 0) == moved(read, by)) by {
            self.lemma_scan_tail(rest);
            lemma_unknown_chunk_is_skipped(id, body, pad, tail, Some(self.fields()), 0);
        }
        assert(parsed(front + (fmt + extra)) == moved(moved(read, by), behind)) by {
            self.lemma_parse_after_fmt(extra);
        }
        assert(self.bytes_with(chunk(id, body) + pad) + rest == front + (fmt + extra)) by {
            lemma_join_with(
                front,
                fmt,
                chunk(id, body),
                pad,
                self.fact_chunk(),
                DATA@ + le32(self.data_len),
                rest,
            );
        }
        assert(behind + self.fact_chunk().len() + 8 == self.header_len()) by {
            self.lemma_lengths();
        }
    }

    /// Behind the `fmt ` chunk a reader goes on with its fields.
    proof fn lemma_parse_after_fmt(self, x: Seq<u8>)
        ensures
            parsed(
                RIFF@ + le32(self.riff_len()) + WAVE@ + (chunk(FMT@, self.fmt_body()) + x),
            ) == moved(scan(x, Some(self.fields()), 0), (20 + self.fmt_body().len()) as int),
    {
        self.lemma_fmt_body_fields();
        lemma_scan_fmt(self.fmt_body(), x, None, 0);
        lemma_riff_front(self.riff_len(), chunk(FMT@, self.fmt_body()) + x);
    }

    proof fn lemma_lengths(self)
        ensures
            self.bytes().len() == self.header_len(),
            self.header_len() == 28 + self.fmt_body().len() + self.fact_chunk().len(),
    {
        self.lemma_fmt_body_fields();
    }

    /// The header's length fields, and where they stand.
    pub proof fn lemma_parts(self)
        ensures
            self.bytes() == RIFF@ + le32(self.riff_len()) + (WAVE@ + chunk(FMT@, self.fmt_body())
                + self.fact_chunk() + DATA@) + le32(self.data_len),
            self.bytes().len() == self.header_len(),
    {
        self.lemma_lengths();
        assert(self.bytes() =~= RIFF@ + le32(self.riff_len()) + (WAVE@ + chunk(
            FMT@,
            self.fmt_body(),
        ) + self.fact_chunk() + DATA@) + le32(self.data_len));
    }

    proof fn lemma_scan_tail(self, rest: Seq<u8>)
        requires
            self.readable(),
        ensures
            scan(
                self.fact_chunk() + (DATA@ + le32(self.data_len) + rest),
                Some(self.fields()),
                0,
            ) == Ok::<(WavHeader, int), Error>(
                (self.as_read(), (self.fact_chunk().len() + 8) as int),
            ),
    {
        let data = DATA@ + le32(self.data_len) + rest;
        let fields = Some(self.fields());
        match self.codec {
            WavCodec::Pcm(f) => {
                if f.sample == SampleFormat::F32 {
                    lemma_scan_fact(self.total_frames, data, fields, 0);
                    lemma_scan_data(self.data_len, rest, fields, self.total_frames);
                } else {
                    assert(self.fact_chunk() + data =~= data);
                    lemma_scan_data(self.data_len, rest, fields, 0);
                }
            },
            WavCodec::ImaAdpcm { .. } => {
                lemma_scan_fact(self.total_frames, data, fields, 0);
                lemma_scan_data(self.data_len, rest, fields, self.total_frames);
            },
        }
    }

    /// A header made by [`pcm`](Self::pcm) for samples of their own width and a
    /// recording of known length is read back as it was.
    pub proof fn lemma_pcm_round_trip(format: PcmFormat, data_len: u32, rest: Seq<u8>)
        requires
            format.sample_rate_hz > 0,
            format.channels > 0,
            format.sample != SampleFormat::I24In32,
            data_len != u32::MAX,
        ensures
            ({
                let header = WavHeader {
                    codec: WavCodec::Pcm(format),
                    data_len,
                    total_frames: (data_len as nat / format.frame_width()) as u32,
                };
                parsed(header.bytes() + rest) == Ok::<(WavHeader, int), Error>(
                    (header, header.header_len() as int),
                )
            }),
    {
        let header = WavHeader {
            codec: WavCodec::Pcm(format),
            data_len,
            total_frames: (data_len as nat / format.frame_width()) as u32,
        };
        header.lemma_parse_of_written(rest);
    }

    /// An ADPCM header that a reader takes is read back as it was.
    pub proof fn lemma_ima_round_trip(self, rest: Seq<u8>)
        requires
            self.codec is ImaAdpcm,
            self.readable(),
        ensures
            parsed(self.bytes() + rest) == Ok::<(WavHeader, int), Error>(
                (self, self.header_len() as int),
            ),
    {
        self.lemma_parse_of_written(rest);
    }
}

} // verus!
