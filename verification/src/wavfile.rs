//! WAV files: what a recorder writes, what it patches when it closes the file,
//! and what a reader takes out of one.
//!
//! The files belong to the caller: [`WavRecording`] says which bytes go where.

use vstd::prelude::*;

use crate::codec::wav::{le32, parsed, saturated32, WavCodec, WavHeader};
use crate::esp_core::error::{Error, Result};
use crate::esp_core::pcm::{PcmBlock, PcmFormat, SampleFormat};

verus! {

/// A WAV file being written. Until [`close`](Self::close) its header says
/// "unknown length".
#[derive(Debug, Clone, Copy, PartialEq, Eq, Structural)]
pub struct WavRecording {
    /// The header at the front of the file.
    pub header: WavHeader,
    /// Whether the file can still be written.
    pub open: bool,
    /// Payload bytes written so far.
    pub data_len: u64,
    /// Blocks written; the count wraps.
    pub blocks: u64,
}

/// The length fields to write into a file that is being closed.
#[derive(Debug, Clone, Copy, PartialEq, Eq, Structural)]
pub struct SizePatch {
    /// Where the RIFF size goes.
    pub riff_at: usize,
    /// The RIFF size.
    pub riff_len: u32,
    /// Where the data size goes.
    pub data_at: usize,
    /// The data size.
    pub data_len: u32,
    /// Bytes in the whole file.
    pub total: u64,
}

/// The number in a 32-bit data size field for `n` bytes. Where it cannot say
/// them, it is not the largest number, which means that the length is unknown.
pub open spec fn sized32(n: nat) -> u32 {
    if n > u32::MAX {
        (u32::MAX - 1) as u32
    } else {
        n as u32
    }
}

/// `bytes` with the four from `at` on replaced by those of `v`.
pub open spec fn patched(bytes: Seq<u8>, at: int, v: u32) -> Seq<u8> {
    bytes.take(at) + le32(v) + bytes.skip(at + 4)
}

impl SizePatch {
    /// A file's bytes with the length fields written.
    pub open spec fn apply(self, file: Seq<u8>) -> Seq<u8> {
        patched(
            patched(file, self.riff_at as int, self.riff_len),
            self.data_at as int,
            self.data_len,
        )
    }
}

impl WavRecording {
    /// A recording of nothing.
    pub open spec fn fresh(format: PcmFormat) -> WavRecording {
        WavRecording {
            header: WavHeader {
                codec: WavCodec::Pcm(format),
                data_len: u32::MAX,
                total_frames: (u32::MAX as nat / format.frame_width()) as u32,
            },
            open: true,
            data_len: 0,
            blocks: 0,
        }
    }

    /// The format of the file's frames.
    pub open spec fn format_of(self) -> PcmFormat {
        match self.header.codec {
            WavCodec::Pcm(format) => format,
            WavCodec::ImaAdpcm { .. } => PcmFormat::voice(),
        }
    }

    /// The length fields for what was written.
    pub open spec fn sizes(self) -> SizePatch {
        let data_len = sized32(self.data_len as nat);
        SizePatch {
            riff_at: 4,
            riff_len: saturated32((self.header.header_len() - 8 + data_len) as nat),
            data_at: (self.header.header_len() - 4) as usize,
            data_len,
            total: (self.header.header_len() + self.data_len) as u64,
        }
    }

    /// A recording of PCM in `format`.
    pub fn create(format: PcmFormat) -> (r: Self)
        requires
            format.channels > 0,
        ensures
            r == WavRecording::fresh(format),
    {
        WavRecording { header: WavHeader::pcm(format, u32::MAX), open: true, data_len: 0, blocks: 0 }
    }

    /// The format of the file's frames.
    pub fn format(&self) -> (r: PcmFormat)
        ensures
            r == self.format_of(),
    {
        match self.header.codec {
            WavCodec::Pcm(format) => format,
            WavCodec::ImaAdpcm { .. } => PcmFormat::pcm16_16k_mono(),
        }
    }

    /// Whether raw frames can be appended.
    pub fn may_append(&self) -> (r: Result<()>)
        ensures
            r == (if self.open {
                Ok(())
            } else {
                Err(Error::Busy)
            }),
    {
        if !self.open {
            return Err(Error::Busy);
        }
        Ok(())
    }

    /// Whether `block` can be appended.
    pub fn may_write(&self, block: PcmBlock<'_>) -> (r: Result<()>)
        ensures
            r == (if block@.format != self.format_of() {
                Err(Error::InvalidFormat)
            } else if !self.open {
                Err(Error::Busy)
            } else {
                Ok(())
            }),
    {
        if block.format != self.format() {
            return Err(Error::InvalidFormat);
        }
        self.may_append()
    }

    /// `n` more bytes are in the file.
    pub fn appended(&mut self, n: usize)
        requires
            old(self).data_len + n <= u64::MAX,
        ensures
            *final(self) == (WavRecording {
                data_len: (old(self).data_len + n) as u64,
                ..*old(self)
            }),
    {
        self.data_len += n as u64;
    }

    /// One more block is in the file.
    pub fn block_written(&mut self)
        ensures
            *final(self) == (WavRecording {
                blocks: old(self).blocks.wrapping_add(1),
                ..*old(self)
            }),
    {
        self.blocks = self.blocks.wrapping_add(1);
    }

    /// The RIFF and data sizes to patch; the file is closed from then on.
    /// Payloads over 4 GiB are saturated (WAV cannot say more).
    pub fn close(&mut self) -> (r: Result<SizePatch>)
        requires
            old(self).data_len + old(self).header.header_len() <= u64::MAX,
        ensures
            r == (if old(self).open {
                Ok(old(self).sizes())
            } else {
                Err(Error::Busy)
            }),
            *final(self) == (WavRecording { open: false, ..*old(self) }),
    {
        self.may_append()?;
        self.open = false;
        let data_len: u32 = if self.data_len > u32::MAX as u64 {
            u32::MAX - 1
        } else {
            self.data_len as u32
        };
        let header_len: usize = self.header.len();
        let riff_len: u64 = header_len as u64 - 8 + data_len as u64;
        let (riff_at, data_at) = self.header.size_field_offsets();
        Ok(
            SizePatch {
                riff_at,
                riff_len: if riff_len > u32::MAX as u64 {
                    u32::MAX
                } else {
                    riff_len as u32
                },
                data_at,
                data_len,
                total: header_len as u64 + self.data_len,
            },
        )
    }
}

/// The header of a file and the bytes of its data chunk: those that the header
/// declares, as far as the file has them, or all the rest when the header says
/// "unknown".
pub open spec fn contents(file: Seq<u8>) -> Result<(WavHeader, Seq<u8>)> {
    match parsed(file) {
        Ok((header, offset)) => {
            let rest = file.skip(offset);
            let n = if header.data_len == u32::MAX || header.data_len > rest.len() {
                rest.len() as int
            } else {
                header.data_len as int
            };
            Ok((header, rest.take(n)))
        },
        Err(e) => Err(e),
    }
}

/// The header of a whole WAV file and the data chunk's bytes (truncated to the
/// declared length when the file is longer, the whole rest when the header
/// says "unknown").
pub fn payload<'a>(file: &'a [u8]) -> (r: Result<(WavHeader, &'a [u8])>)
    ensures
        match r {
            Ok((header, data)) => contents(file@) == Ok::<_, Error>((header, data@)),
            Err(e) => contents(file@) == Err::<(WavHeader, Seq<u8>), _>(e),
        },
{
    let (header, offset) = match WavHeader::parse(file) {
        Ok(found) => found,
        Err(e) => return Err(e),
    };
    let rest: usize = file.len() - offset;
    let n: usize = if header.data_len == u32::MAX || header.data_len as u64 > rest as u64 {
        rest
    } else {
        header.data_len as usize
    };
    let data: &[u8] = vstd::slice::slice_subrange(file, offset, offset + n);
    assert(data@ =~= file@.skip(offset as int).take(n as int));
    Ok((header, data))
}

/// The length fields are the only bytes of a header that depend on the length:
/// once they are patched, it is the header that tells the length.
pub proof fn lemma_patch_tells_the_length(recording: WavRecording, data: Seq<u8>)
    requires
        recording.header.data_len == u32::MAX,
        recording.data_len == data.len(),
    ensures
        recording.sizes().apply(recording.header.bytes() + data) == (WavHeader {
            data_len: recording.sizes().data_len,
            ..recording.header
        }).bytes() + data,
{
    let before = recording.header;
    let after = WavHeader { data_len: recording.sizes().data_len, ..before };
    before.lemma_parts();
    after.lemma_parts();
    let sizes = recording.sizes();
    let file = before.bytes() + data;
    assert(sizes.apply(file) =~= after.bytes() + data);
}

/// A recording that was closed is read back as it was written: the format and
/// all of the payload, or as much of it as the length field can tell.
pub proof fn lemma_recording_reads_back(recording: WavRecording, data: Seq<u8>)
    requires
        recording.header == WavRecording::fresh(recording.format_of()).header,
        recording.format_of().sample_rate_hz > 0,
        recording.format_of().channels > 0,
        recording.data_len == data.len(),
    ensures
        ({
            let n = sized32(data.len());
            let header = WavHeader { data_len: n, ..recording.header };
            let file = recording.sizes().apply(recording.header.bytes() + data);
            contents(file) == Ok::<_, Error>((header.as_read(), data.take(n as int)))
        }),
{
    let n = sized32(data.len());
    let header = WavHeader { data_len: n, ..recording.header };
    let file = header.bytes() + data;
    lemma_patch_tells_the_length(recording, data);
    header.lemma_parse_of_written(data);
    assert(file.skip(header.header_len() as int) =~= data);
}

/// What is read back of a recording of 16-bit or 32-bit samples is the header
/// that would have been written had the length been known.
pub proof fn lemma_recording_header(format: PcmFormat, data_len: u32)
    requires
        format.sample_rate_hz > 0,
        format.channels > 0,
        format.sample == SampleFormat::I16 || format.sample == SampleFormat::I32,
        data_len != u32::MAX,
    ensures
        (WavHeader { data_len, ..WavRecording::fresh(format).header }).as_read() == (WavHeader {
            codec: WavCodec::Pcm(format),
            data_len,
            total_frames: (data_len as nat / format.frame_width()) as u32,
        }),
{
}

/// What is read of a file: the bytes from the end of the header on, as many as
/// the header declares; all that is left where it declares more than there are,
/// or that the length is unknown. A file whose header cannot be read gives the
/// header's error.
pub proof fn lemma_what_is_read_of_a_file(file: Seq<u8>)
    requires
        parsed(file) matches Ok((_, offset)) ==> 0 <= offset <= file.len(),
    ensures
        match parsed(file) {
            Err(e) => contents(file) == Err::<(WavHeader, Seq<u8>), Error>(e),
            Ok((header, offset)) => {
                let data = contents(file)->Ok_0.1;
                &&& contents(file) is Ok
                &&& contents(file)->Ok_0.0 == header
                &&& data == file.subrange(offset, offset + data.len())
                &&& header.data_len != u32::MAX ==> data.len() <= header.data_len
                &&& header.data_len == u32::MAX || data.len() < header.data_len ==> offset
                    + data.len() == file.len()
            },
        },
{
    if let Ok((header, offset)) = parsed(file) {
        let data = contents(file)->Ok_0.1;
        assert(data =~= file.subrange(offset, offset + data.len()));
    }
}

/// The length fields of a closed recording: the data's length at the end of the
/// header, and at byte 4 the length of all that follows that field. Lengths that
/// 32 bits cannot hold are told as the largest that can be told.
pub proof fn lemma_length_fields(recording: WavRecording)
    requires
        recording.header.header_len() + recording.data_len <= u64::MAX,
    ensures
        ({
            let s = recording.sizes();
            let header = recording.header.bytes().len() as int;
            let whole = header + recording.data_len;
            &&& s.riff_at == 4
            &&& s.data_at + 4 == header
            &&& s.total == whole
            &&& recording.data_len <= u32::MAX ==> s.data_len == recording.data_len
            &&& recording.data_len > u32::MAX ==> s.data_len == u32::MAX - 1
            &&& whole - 8 <= u32::MAX ==> s.riff_len == whole - 8
            &&& whole - 8 > u32::MAX ==> s.riff_len == u32::MAX
        }),
{
    recording.header.lemma_parts();
}

} // verus!
