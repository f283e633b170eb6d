//! Calls that read and write files and streams.

use vstd::prelude::*;

use crate::bench::{collect, dump_bytes, hex_line, lemma_digits_of_a_line, StreamTally, Tally};
use crate::codec::flac::{
    append_frame, decode_pcm16, encode_pcm16, interleave_pcm16, lemma_incredible_streams_are_corrupt,
    lemma_pcm_sample_by_sample, Decoded, FlacEncoder, Frame,
};
use crate::codec::wav::{WavCodec, WavHeader};
use crate::codec::wav_laws::{
    lemma_parse_finds_the_data, lemma_parse_reads_the_chunks, lemma_parse_without_data, name_at,
    number, walks,
};
use crate::esp_core::error::{Error, Result};
use crate::esp_core::pcm::{PcmBlock, PcmFormat, SampleFormat};
use crate::wavfile::{lemma_length_fields, payload, SizePatch, WavRecording};

verus! {

/// Every call of [`WavHeader::write`]: a buffer that is too short is refused with
/// the length it would need, and stays; any other gets the header at its front. What
/// the bytes are is told by [`WavHeader::lemma_header_layout`].
pub proof fn law_write(header: WavHeader, r: Result<usize>)
    ensures
        forall|out: &mut [u8]| #[trigger]
            call_ensures(WavHeader::write, (&header, out), r) ==> {
                let bytes = header.bytes();
                &&& r == (if out@.len() < bytes.len() {
                    Err::<usize, Error>(Error::BufferTooSmall { needed: bytes.len() as usize })
                } else {
                    Ok(bytes.len() as usize)
                })
                &&& r is Err ==> final(out)@ == out@
                &&& r is Ok ==> final(out)@ == bytes + out@.skip(bytes.len() as int)
            },
        forall|n: usize| #[trigger]
            call_ensures(WavHeader::len, (&header,), n) ==> n == header.bytes().len(),
        forall|at: (usize, usize)| #[trigger]
            call_ensures(WavHeader::size_field_offsets, (&header,), at) ==> at.0 == 4 && at.1 + 4
                == header.bytes().len(),
{
    header.lemma_parts();
}

/// Every call of [`WavHeader::pcm`] and [`WavHeader::ima_adpcm`] tells what it was
/// told; of PCM the frames are those of the data.
pub proof fn law_headers(
    format: PcmFormat,
    data_len: u32,
    channels: u8,
    block_align: u16,
    frames_per_block: u16,
    total: u32,
    header: WavHeader,
)
    requires
        format.channels > 0,
    ensures
        call_ensures(WavHeader::pcm, (format, data_len), header) ==> {
            &&& header.codec == WavCodec::Pcm(format)
            &&& header.data_len == data_len
            &&& header.total_frames * format.frame_width() <= data_len
            &&& data_len < (header.total_frames + 1) * format.frame_width()
        },
        call_ensures(
            WavHeader::ima_adpcm,
            (format.sample_rate_hz, channels, block_align, frames_per_block, data_len, total),
            header,
        ) ==> {
            &&& header.codec == (WavCodec::ImaAdpcm {
                sample_rate_hz: format.sample_rate_hz,
                channels,
                block_align,
                frames_per_block,
            })
            &&& header.data_len == data_len
            &&& header.total_frames == total
        },
{
    let width = format.frame_width() as int;
    let n = data_len as int;
    vstd::arithmetic::div_mod::lemma_fundamental_div_mod(n, width);
    let q = n / width;
    assert(q * width <= n < (q + 1) * width) by (nonlinear_arith)
        requires
            n == width * q + n % width,
            0 <= n % width < width,
    ;
}

/// Every call of [`WavHeader::parse`] that finds a header: the file begins with its
/// names, whole chunks lead to the one named `data`, the header tells that chunk's
/// length, and the data begins behind it.
pub proof fn law_parse(bytes: &[u8], header: WavHeader, offset: usize)
    requires
        call_ensures(WavHeader::parse, (bytes,), Ok::<(WavHeader, usize), Error>((header, offset))),
    ensures
        20 <= offset <= bytes@.len(),
        name_at(bytes@, 0) == ('R', 'I', 'F', 'F'),
        name_at(bytes@, 8) == ('W', 'A', 'V', 'E'),
        walks(bytes@, 12, offset - 8),
        name_at(bytes@, offset - 8) == ('d', 'a', 't', 'a'),
        header.data_len == number(bytes@, offset - 4, 4),
{
    lemma_parse_finds_the_data(bytes@);
    lemma_parse_reads_the_chunks(bytes@, offset - 8);
}

/// Every call of [`payload`]: the data chunk's bytes, as many as the header declares
/// and the file has.
pub proof fn law_payload(file: &[u8], header: WavHeader, data: &[u8])
    requires
        call_ensures(payload, (file,), Ok::<(WavHeader, &[u8]), Error>((header, data))),
    ensures
        exists|offset: int|
            {
                &&& 20 <= offset
                &&& offset + data@.len() <= file@.len()
                &&& name_at(file@, offset - 8) == ('d', 'a', 't', 'a')
                &&& data@ == #[trigger] file@.subrange(offset, offset + data@.len())
                &&& header.data_len != u32::MAX ==> data@.len() <= header.data_len
                &&& header.data_len == u32::MAX || data@.len() < header.data_len ==> offset
                    + data@.len() == file@.len()
            },
{
    lemma_parse_finds_the_data(file@);
    crate::wavfile::lemma_what_is_read_of_a_file(file@);
    let offset = crate::codec::wav::parsed(file@)->Ok_0.1;
    assert(data@ == file@.subrange(offset, offset + data@.len()));
}

/// Every call that changes a recording: what is appended counts, a block counts, and
/// closing tells the lengths, once.
pub proof fn law_recording(n: usize, r: Result<SizePatch>)
    ensures
        forall|w: &mut WavRecording| #[trigger]
            call_ensures(WavRecording::appended, (w, n), ()) && w.data_len + n <= u64::MAX ==> {
                &&& final(w).data_len == w.data_len + n
                &&& final(w).blocks == w.blocks
                &&& final(w).open == w.open && final(w).header == w.header
            },
        forall|w: &mut WavRecording| #[trigger]
            call_ensures(WavRecording::block_written, (w,), ()) && w.blocks < u64::MAX ==> {
                &&& final(w).blocks == w.blocks + 1
                &&& final(w).data_len == w.data_len
                &&& final(w).open == w.open && final(w).header == w.header
            },
        forall|w: &mut WavRecording| #[trigger]
            call_ensures(WavRecording::close, (w,), r) && w.data_len + w.header.header_len()
                <= u64::MAX ==> {
                let header = w.header.bytes().len() as int;
                let whole = header + w.data_len;
                &&& !final(w).open
                &&& final(w).data_len == w.data_len
                &&& r is Ok <==> w.open
                &&& r is Err ==> r == Err::<SizePatch, Error>(Error::Busy)
                &&& r is Ok ==> {
                    let s = r->Ok_0;
                    &&& s.riff_at == 4
                    &&& s.data_at + 4 == header
                    &&& s.total == whole
                    &&& w.data_len <= u32::MAX ==> s.data_len == w.data_len
                    &&& w.data_len > u32::MAX ==> s.data_len == u32::MAX - 1
                    &&& whole - 8 <= u32::MAX ==> s.riff_len == whole - 8
                    &&& whole - 8 > u32::MAX ==> s.riff_len == u32::MAX
                }
            },
{
    assert forall|w: &mut WavRecording| #[trigger]
        call_ensures(WavRecording::close, (w,), r) && w.data_len + w.header.header_len()
            <= u64::MAX implies {
        let header = w.header.bytes().len() as int;
        let whole = header + w.data_len;
        &&& !final(w).open
        &&& final(w).data_len == w.data_len
        &&& r is Ok <==> w.open
        &&& r is Err ==> r == Err::<SizePatch, Error>(Error::Busy)
        &&& r is Ok ==> {
            let s = r->Ok_0;
            &&& s.riff_at == 4
            &&& s.data_at + 4 == header
            &&& s.total == whole
            &&& w.data_len <= u32::MAX ==> s.data_len == w.data_len
            &&& w.data_len > u32::MAX ==> s.data_len == u32::MAX - 1
            &&& whole - 8 <= u32::MAX ==> s.riff_len == whole - 8
            &&& whole - 8 > u32::MAX ==> s.riff_len == u32::MAX
        }
    } by {
        lemma_length_fields(*w);
    }
}

/// What may be written into a recording: blocks of its format, while it is open.
pub proof fn law_may_write(w: WavRecording, block: PcmBlock<'_>, r: Result<()>)
    ensures
        call_ensures(WavRecording::may_append, (&w,), r) ==> r == (if w.open {
            Ok::<(), Error>(())
        } else {
            Err(Error::Busy)
        }),
        call_ensures(WavRecording::may_write, (&w, block), r) && w.header.codec is Pcm ==> r == (
        if w.header.codec != WavCodec::Pcm(block@.format) {
            Err::<(), Error>(Error::InvalidFormat)
        } else if !w.open {
            Err(Error::Busy)
        } else {
            Ok(())
        }),
{
}

/// Coding is lossless: whatever stream [`encode_pcm16`] makes of a block that can be
/// counted, [`decode_pcm16`] makes of the stream the block's format and bytes; and
/// encoding the block again makes the stream again.
pub proof fn law_flac_is_lossless(
    block: PcmBlock<'_>,
    level: u32,
    stream: Vec<u8>,
    again: Vec<u8>,
    bytes: &[u8],
    r: Result<(PcmFormat, Vec<u8>)>,
)
    requires
        call_ensures(encode_pcm16, (block, level), Ok::<Vec<u8>, Error>(stream)),
        call_ensures(encode_pcm16, (block, level), Ok::<Vec<u8>, Error>(again)),
        bytes@ == stream@,
        call_ensures(decode_pcm16, (bytes,), r),
        block@.frame_count() < 68_719_476_736,
    ensures
        r is Ok,
        r->Ok_0.0 == block@.format,
        r->Ok_0.1@ == block@.data,
        again@ == stream@,
{
}

/// Every call of [`decode_pcm16`] refuses as corrupt what does not begin as a stream
/// or claims more samples than its bytes can hold.
pub proof fn law_decode_refuses(flac: &[u8], r: Result<(PcmFormat, Vec<u8>)>)
    requires
        call_ensures(decode_pcm16, (flac,), r),
    ensures
        ({
            let b = flac@;
            let claim = (b[21] as int % 16) * 4294967296 + 16777216 * b[22] + 65536 * b[23] + 256
                * b[24] + b[25];
            let begins = b.len() >= 42 && b[0] == 'f' as u8 && b[1] == 'L' as u8 && b[2]
                == 'a' as u8 && b[3] == 'C' as u8 && (b[4] == 0 || b[4] == 128);
            !begins || claim > 16384 * b.len() ==> r == Err::<(PcmFormat, Vec<u8>), Error>(
                Error::Corrupt,
            )
        }),
{
    lemma_incredible_streams_are_corrupt(flac@);
}

/// Every call of [`interleave_pcm16`]: sample `f` of channel `c`, cut to 16 bits, at
/// place `f * channels + c`.
pub proof fn law_interleave(audio: Decoded, r: Result<(PcmFormat, Vec<u8>)>, f: int, c: int)
    requires
        audio.planes@.len() == audio.channels,
        call_ensures(interleave_pcm16, (&audio,), r),
    ensures
        r is Ok ==> audio.bits_per_sample == 16 && 1 <= audio.channels <= 8 && audio.sample_rate
            > 0,
        r is Ok ==> {
            let (format, pcm) = r->Ok_0;
            &&& format.sample_rate_hz == audio.sample_rate
            &&& format.channels == audio.channels
            &&& format.sample == SampleFormat::I16
            &&& pcm@.len() == 2 * (audio.planes@[0]@.len() * audio.channels)
            &&& 0 <= f < audio.planes@[0]@.len() && 0 <= c < audio.channels ==> (
            audio.planes@[c]@[f] - crate::bytes::sample_in(pcm@, f * audio.channels + c)) % 65536
                == 0
        },
{
    lemma_pcm_sample_by_sample(audio@);
    if r is Ok {
        assert(audio@.3[0] == audio.planes@[0]@);
        if 0 <= f < audio.planes@[0]@.len() && 0 <= c < audio.channels {
            assert(audio@.3[c] == audio.planes@[c]@);
            assert(audio@.3[c][f] == audio.planes@[c]@[f]);
        }
    }
}

/// Every call of [`append_frame`] puts each channel's samples behind those it had.
pub proof fn law_append_frame(frame: Frame, c: int)
    ensures
        forall|audio: &mut Decoded| #[trigger]
            call_ensures(append_frame, (audio, &frame), ()) && frame.planes@.len()
                == audio.planes@.len() && 0 <= c < audio.planes@.len() ==> {
                &&& final(audio).planes@.len() == audio.planes@.len()
                &&& final(audio).planes@[c]@ == audio.planes@[c]@ + frame.planes@[c]@
                &&& final(audio).sample_rate == audio.sample_rate
                &&& final(audio).channels == audio.channels
                &&& final(audio).bits_per_sample == audio.bits_per_sample
            },
{
    assert forall|audio: &mut Decoded| #[trigger]
        call_ensures(append_frame, (audio, &frame), ()) && frame.planes@.len()
            == audio.planes@.len() && 0 <= c < audio.planes@.len() implies {
        &&& final(audio).planes@.len() == audio.planes@.len()
        &&& final(audio).planes@[c]@ == audio.planes@[c]@ + frame.planes@[c]@
        &&& final(audio).sample_rate == audio.sample_rate
        &&& final(audio).channels == audio.channels
        &&& final(audio).bits_per_sample == audio.bits_per_sample
    } by {
        let (was, is) = (audio@.3, final(audio)@.3);
        assert(was[c] == audio.planes@[c]@);
        assert(is.len() == was.len());
        assert(is[c] == final(audio).planes@[c]@);
        assert(frame@.0[c] == frame.planes@[c]@);
    }
}

/// Every call of [`FlacEncoder::push`] and [`FlacEncoder::finish`] counts what it
/// takes and what it gives.
pub proof fn law_flac_encoder_counts(block: PcmBlock<'_>, r: Result<()>, s: Option<Vec<u8>>)
    ensures
        forall|e: &mut FlacEncoder| #[trigger]
            call_ensures(FlacEncoder::push, (e, block), r) && e.valid() && e.pending_frames
                + block@.frame_count() <= usize::MAX && e.bytes_in + block@.data.len() <= u64::MAX
                ==> {
                &&& r is Ok <==> block@.format == e.format && block@.data.len()
                    % block@.format.frame_width() == 0
                &&& final(e).pending_frames == e.pending_frames + if r is Ok {
                    block@.frame_count() as int
                } else {
                    0
                }
                &&& final(e).bytes_in == e.bytes_in + if r is Ok {
                    block@.data.len() as int
                } else {
                    0
                }
                &&& final(e).chunks == e.chunks
                &&& final(e).bytes_out == e.bytes_out
            },
        forall|e: &mut FlacEncoder| #[trigger]
            call_ensures(FlacEncoder::finish, (e,), s) && e.valid() && e.chunks < u64::MAX
                && e.bytes_out + isize::MAX <= u64::MAX ==> {
                &&& s is Some <==> e.inner is Some
                &&& s is Some ==> {
                    &&& final(e).chunks == e.chunks + 1
                    &&& final(e).pending_frames == 0
                    &&& final(e).inner is None
                    &&& final(e).bytes_in == e.bytes_in
                }
                &&& s is None ==> *final(e) == *e
            },
{
}

/// Every call of [`hex_line`]: two digits for every byte, the sixteens first.
pub proof fn law_hex_line(bytes: &[u8], line: Vec<u8>, i: int)
    requires
        call_ensures(hex_line, (bytes,), line),
        0 <= i < bytes@.len(),
    ensures
        line@.len() == 2 * bytes@.len(),
        bytes@[i] / 16 < 10 ==> line@[2 * i] == '0' as u8 + bytes@[i] / 16,
        bytes@[i] / 16 >= 10 ==> line@[2 * i] == 'a' as u8 + (bytes@[i] / 16 - 10),
        bytes@[i] % 16 < 10 ==> line@[2 * i + 1] == '0' as u8 + bytes@[i] % 16,
        bytes@[i] % 16 >= 10 ==> line@[2 * i + 1] == 'a' as u8 + (bytes@[i] % 16 - 10),
{
    lemma_digits_of_a_line(bytes@, i);
}

/// Every call of the bench's sums: frames in blocks, bytes in seconds; and a stream
/// reports every fifty blocks.
pub proof fn law_bench_sums(
    tally: Tally,
    block_bytes: usize,
    format: PcmFormat,
    secs: usize,
    n: u64,
    m: usize,
    sent: bool,
    due: bool,
)
    requires
        format.channels > 0,
    ensures
        call_ensures(Tally::samples, (&tally, block_bytes, format), n) && tally.blocks * block_bytes
            <= u64::MAX ==> n * format.frame_width() <= tally.blocks * block_bytes < (n + 1)
            * format.frame_width(),
        call_ensures(dump_bytes, (secs, format), m) && secs * format.sample_rate_hz
            * format.frame_width() <= usize::MAX && secs * format.sample_rate_hz <= usize::MAX
            && format.sample_rate_hz <= usize::MAX ==> m == secs * format.sample_rate_hz
            * format.frame_width(),
        forall|t: &mut StreamTally| #[trigger]
            call_ensures(StreamTally::note, (t, sent), due) && t.blocks < u64::MAX && t.dropped
                < u64::MAX ==> {
                &&& final(t).blocks == t.blocks + 1
                &&& final(t).dropped == t.dropped + if sent {
                    0int
                } else {
                    1
                }
                &&& due <==> (t.blocks + 1) % 50 == 0
            },
{
    let width = format.frame_width() as int;
    let all = tally.blocks * block_bytes;
    vstd::arithmetic::div_mod::lemma_fundamental_div_mod(all, width);
    let q = all / width;
    assert(q * width <= all < (q + 1) * width) by (nonlinear_arith)
        requires
            all == width * q + all % width,
            0 <= all % width < width,
    ;
}

/// Every call of [`collect`] appends the front of the data, as much as is wanted.
pub proof fn law_collect(want: usize, data: &[u8])
    ensures
        forall|pcm: &mut Vec<u8>| #[trigger]
            call_ensures(collect, (pcm, want, data), ()) && pcm@.len() <= want ==> {
                let n = final(pcm)@.len() - pcm@.len();
                &&& 0 <= n <= data@.len()
                &&& final(pcm)@ == pcm@ + data@.take(n)
                &&& final(pcm)@.len() <= want
                &&& n == data@.len() || final(pcm)@.len() == want
            },
{
}

/// Every call of [`WavHeader::parse`] that is refused: as no format, or, where it came
/// to a `data` chunk, as not supported.
pub proof fn law_parse_refuses(bytes: &[u8], e: Error)
    requires
        call_ensures(WavHeader::parse, (bytes,), Err::<(WavHeader, usize), Error>(e)),
    ensures
        e == Error::InvalidFormat || e == Error::Unsupported,
        e == Error::Unsupported ==> exists|d: int|
            12 <= d && d + 8 <= bytes@.len() && #[trigger] walks(bytes@, 12, d) && name_at(
                bytes@,
                d,
            ) == ('d', 'a', 't', 'a'),
{
    lemma_parse_without_data(bytes@);
}

} // verus!
