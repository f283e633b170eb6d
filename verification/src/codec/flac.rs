//! FLAC through `rusty_flac`, for i16 blocks.
//!
//! Unlike the elements this allocates: `rusty_flac` buffers the stream it is
//! building and returns it as a `Vec<u8>`.
//!
//! The shape for a chip is chunked streams: push blocks for a second or two,
//! then [`FlacEncoder::finish`]. Each chunk is a complete, standalone FLAC
//! stream (42-byte header plus frames) that any player decodes, and two encodes
//! of the same samples are byte-identical.

use rusty_flac::{Encoder as StreamEncoder, FrameDecoder, StreamInfo};
use vstd::prelude::*;

use crate::bytes::{
    decode16, encode16, lemma_decode_joined, lemma_encode_decode, lemma_encode_push, push_sample,
};
use crate::esp_core::error::{Error, Result};
use crate::esp_core::pcm::{BlockView, PcmBlock, PcmFormat, SampleFormat};

verus! {

/// Bytes of `fLaC` marker plus the STREAMINFO block every chunk starts with.
pub const STREAM_HEADER_LEN: usize = 42;

/// The most samples a FLAC byte can carry: a frame header is at least six
/// bytes and a block at most 65 535 samples, so a stream of `n` bytes cannot
/// hold more than about `n * 11 000` samples per channel. A `STREAMINFO`
/// claiming more is corrupt, and is refused before anyone allocates for it.
pub const MAX_SAMPLES_PER_BYTE: u64 = 16384;

/// The frames of a stream are counted in 36 bits, modulo this.
pub const COUNTED_FRAMES: u64 = 68_719_476_736;

/// `fLaC`.
pub const MARKER: [u8; 4] = [102, 76, 97, 67];

/// `rusty_flac::Encoder`: samples on their way into a stream.
#[verifier::external_type_specification]
#[verifier::external_body]
pub struct ExFlacEncoder(StreamEncoder);

/// `rusty_flac::EncodeError`: why an encoder refused.
#[verifier::external_type_specification]
#[verifier::external_body]
pub struct ExFlacEncodeError(rusty_flac::EncodeError);

/// `rusty_flac::DecodeError`: why a stream was refused.
#[verifier::external_type_specification]
#[verifier::external_body]
pub struct ExFlacDecodeError(rusty_flac::DecodeError);

/// The samples an encoder holds, interleaved.
pub uninterp spec fn flac_held(encoder: StreamEncoder) -> Seq<i16>;

/// What an encoder was made with: rate, channels, bits per sample, and the
/// highest predictor order it may search.
pub uninterp spec fn flac_settings(encoder: StreamEncoder) -> (u32, u32, u32, u32);

/// The stream that an encoder with the given rate, channels, bits per sample
/// and predictor order makes of interleaved samples.
pub uninterp spec fn flac_stream(
    rate: u32,
    channels: u32,
    bits: u32,
    order: u32,
    samples: Seq<i16>,
) -> Seq<u8>;

/// What the frame at the front of `data` decodes to, in a stream of so many
/// channels and bits per sample: the samples of each channel, and the bytes it
/// takes; `None` where it is refused.
pub uninterp spec fn flac_frame(channels: u32, bits: u32, data: Seq<u8>) -> Option<
    (Seq<Seq<i32>>, nat),
>;

/// The highest predictor order searched at a compression level.
pub open spec fn order_at(level: u32) -> u32 {
    if level <= 2 {
        4
    } else if level <= 5 {
        8
    } else {
        12
    }
}

/// Channel `c` of an interleaved stream, widened.
pub open spec fn plane(samples: Seq<i16>, channels: int, c: int) -> Seq<i32> {
    Seq::new(
        (samples.len() as int / channels) as nat,
        |i: int| samples[i * channels + c] as i32,
    )
}

/// The channels of an interleaved stream, widened.
pub open spec fn planes_of(samples: Seq<i16>, channels: int) -> Seq<Seq<i32>> {
    Seq::new(channels as nat, |c: int| plane(samples, channels, c))
}

/// The 36-bit sample count in the STREAMINFO body at `at`: the low nibble of
/// its byte 13 and the four bytes after that.
pub open spec fn claim_at(flac: Seq<u8>, at: int) -> int {
    (flac[at + 13] as int % 16) * 4294967296 + flac[at + 14] as int * 16777216 + flac[at + 15]
        as int * 65536 + flac[at + 16] as int * 256 + flac[at + 17] as int
}

/// The sample count that a stream claims in its first metadata block, if it is
/// long enough to have one and that block is STREAMINFO.
pub open spec fn claimed(flac: Seq<u8>) -> Option<int> {
    if flac.len() < 42 || flac.take(4) != MARKER@ || flac[4] % 128 != 0 {
        None
    } else {
        Some(claim_at(flac, 8))
    }
}

/// The body length in the metadata block header at `at`.
pub open spec fn block_size(flac: Seq<u8>, at: int) -> int {
    flac[at + 1] as int * 65536 + flac[at + 2] as int * 256 + flac[at + 3] as int
}

/// No STREAMINFO among the metadata blocks from `at` on claims more than
/// `bound` samples.
pub open spec fn claims_within(flac: Seq<u8>, at: int, bound: int) -> bool
    decreases flac.len() - at,
{
    if at < 0 || at + 4 > flac.len() || at + 4 + block_size(flac, at) > flac.len() {
        true
    } else {
        &&& flac[at] % 128 == 0 && block_size(flac, at) >= 34 ==> claim_at(flac, at + 4) <= bound
        &&& flac[at] < 128 ==> claims_within(flac, at + 4 + block_size(flac, at), bound)
    }
}

/// The geometries a stream can have: 1 to 8 channels of 8, 16 or 24 bits, at a
/// rate that fits a 20-bit field and is not zero.
pub open spec fn encodable(rate: u32, channels: u32, bits: u32) -> bool {
    &&& 1 <= channels <= 8
    &&& bits == 8 || bits == 16 || bits == 24
    &&& 1 <= rate <= 1048575
}

/// `rusty_flac::Encoder::new`: an encoder without samples, searching orders up
/// to 12, for a geometry that a stream can have; a refusal otherwise.
#[verifier::external_body]
fn new_encoder(rate: u32, channels: u32, bits: u32) -> (r: core::result::Result<
    StreamEncoder,
    rusty_flac::EncodeError,
>)
    ensures
        r is Ok <==> encodable(rate, channels, bits),
        r matches Ok(e) ==> flac_settings(e) == (rate, channels, bits, 12u32) && flac_held(e)
            == Seq::<i16>::empty(),
{
    rusty_flac::Encoder::new(rate, channels, bits)
}

/// `rusty_flac::Encoder::set_compression_level`: the highest order searched is
/// the level's; nothing else changes.
#[verifier::external_body]
fn set_level(encoder: &mut StreamEncoder, level: u32)
    ensures
        flac_settings(*final(encoder)) == (
            flac_settings(*old(encoder)).0,
            flac_settings(*old(encoder)).1,
            flac_settings(*old(encoder)).2,
            order_at(level),
        ),
        flac_held(*final(encoder)) == flac_held(*old(encoder)),
{
    encoder.set_compression_level(level)
}

/// `rusty_flac::Encoder::push_s16le_bytes`: whole frames of little-endian
/// samples are appended; a ragged length is refused and changes nothing.
#[verifier::external_body]
fn push_samples(encoder: &mut StreamEncoder, bytes: &[u8]) -> (r: core::result::Result<
    (),
    rusty_flac::EncodeError,
>)
    requires
        flac_settings(*old(encoder)).1 > 0,
    ensures
        r is Ok <==> bytes@.len() % (2 * flac_settings(*old(encoder)).1 as nat) == 0,
        flac_settings(*final(encoder)) == flac_settings(*old(encoder)),
        r is Ok ==> flac_held(*final(encoder)) == flac_held(*old(encoder)) + decode16(bytes@),
        r is Err ==> flac_held(*final(encoder)) == flac_held(*old(encoder)),
{
    encoder.push_s16le_bytes(bytes)
}

/// The encoder's frames are few enough to be counted.
pub open spec fn countable(encoder: StreamEncoder) -> bool {
    flac_held(encoder).len() / (flac_settings(encoder).1 as nat) < COUNTED_FRAMES
}

/// The stream holds this audio.
pub open spec fn holds_audio(
    flac: Seq<u8>,
    rate: u32,
    channels: u32,
    bits: u32,
    planes: Seq<Seq<i32>>,
) -> bool {
    audio_of(flac) == Ok::<(u32, u32, u32, Seq<Seq<i32>>), Error>((rate, channels, bits, planes))
}

/// `rusty_flac::Encoder::finish`: the stream of the samples held. It begins
/// with the marker and one metadata block, a STREAMINFO of 34 bytes that tells
/// the number of frames in 36 bits; what follows is at least one byte for every
/// 4096 of them; like every `Vec<u8>` it is no longer than `isize::MAX`. Coding
/// is lossless: the stream of 16-bit samples, as long as they can be counted,
/// decodes to them, frame by frame.
#[verifier::external_body]
fn finish_stream(encoder: StreamEncoder) -> (r: Vec<u8>)
    requires
        flac_settings(encoder).1 > 0,
        flac_held(encoder).len() % (flac_settings(encoder).1 as nat) == 0,
    ensures
        r@ == flac_stream(
            flac_settings(encoder).0,
            flac_settings(encoder).1,
            flac_settings(encoder).2,
            flac_settings(encoder).3,
            flac_held(encoder),
        ),
        42 <= r@.len() <= isize::MAX,
        r@.take(4) == MARKER@,
        r@[4] == 0x80,
        block_size(r@, 4) == 34,
        claim_at(r@, 8) == flac_held(encoder).len() / (flac_settings(encoder).1 as nat)
            % COUNTED_FRAMES as nat,
        claim_at(r@, 8) <= 4096 * (r@.len() - 42),
        flac_settings(encoder).2 == 16 && countable(encoder) ==> holds_audio(
            r@,
            flac_settings(encoder).0,
            flac_settings(encoder).1,
            16,
            planes_of(flac_held(encoder), flac_settings(encoder).1 as int),
        ),
{
    encoder.finish()
}

/// A decoded stream.
pub struct Decoded {
    /// Frames per second.
    pub sample_rate: u32,
    /// Channels.
    pub channels: u32,
    /// Bits per sample.
    pub bits_per_sample: u32,
    /// The samples of each channel.
    pub planes: Vec<Vec<i32>>,
}

impl View for Decoded {
    type V = (u32, u32, u32, Seq<Seq<i32>>);

    open spec fn view(&self) -> (u32, u32, u32, Seq<Seq<i32>>) {
        (
            self.sample_rate,
            self.channels,
            self.bits_per_sample,
            self.planes@.map_values(|p: Vec<i32>| p@),
        )
    }
}

/// One decoded frame.
pub struct Frame {
    /// The samples of each channel.
    pub planes: Vec<Vec<i32>>,
    /// Bytes that the frame takes.
    pub used: usize,
}

impl View for Frame {
    type V = (Seq<Seq<i32>>, nat);

    open spec fn view(&self) -> (Seq<Seq<i32>>, nat) {
        (self.planes@.map_values(|p: Vec<i32>| p@), self.used as nat)
    }
}

/// Bytes of ones behind the last frame: the decoder looks ahead by whole words,
/// and finds an end to every run of zeros.
pub const PADDING: usize = 16;

/// The decoder counts zeros in a row, and the one that ends them, in 32 bits: it
/// cannot count this many.
pub const ZERO_BITS: u64 = 4_294_967_295;

/// A stream with its padding.
pub open spec fn with_padding(flac: Seq<u8>) -> Seq<u8> {
    flac + Seq::new(PADDING as nat, |i: int| 0xFFu8)
}

/// The bytes end in padding.
pub open spec fn ends_in_padding(data: Seq<u8>) -> bool {
    &&& data.len() >= PADDING
    &&& forall|i: int| data.len() - PADDING <= i < data.len() ==> #[trigger] data[i] == 0xFF
}

/// Bit `i` of the bytes is set; the highest bit of a byte comes first.
pub open spec fn bit_at(data: Seq<u8>, i: int) -> bool {
    data[i / 8] & (0x80u8 >> ((i % 8) as u8)) != 0
}

/// Of so many bits in a row some are set.
pub open spec fn some_set(data: Seq<u8>, from: int) -> bool {
    exists|j: int| from <= j < from + ZERO_BITS && #[trigger] bit_at(data, j)
}

/// Every run of zero bits can be counted.
pub open spec fn no_long_zeros(data: Seq<u8>) -> bool {
    forall|i: int| 0 <= i <= 8 * data.len() - ZERO_BITS ==> #[trigger] some_set(data, i)
}

/// The fixed part of a frame header is at the front of `data`: the sync code,
/// and neither a reserved bit nor a reserved code for the block size or the rate.
pub open spec fn frame_begins(data: Seq<u8>) -> bool {
    &&& data[0] == 0xFF
    &&& data[1] == 0xF8 || data[1] == 0xF9
    &&& data[2] >= 16 && data[2] % 16 != 15
    &&& data[3] % 2 == 0
}

/// The frame at the front of `data` gives the difference of two 32-bit channels,
/// which has 33 bits: a stereo pair with a side channel, of 32 bits by its own
/// account or by that of its stream. One that leaves its lowest bits unused would
/// fit in 32 bits; that shows only behind the channel before it, so it counts as
/// too wide all the same.
pub open spec fn too_wide(data: Seq<u8>, channels: u32, bits: u32) -> bool {
    let assignment = data[3] as int / 16;
    let width = (data[3] as int / 2) % 8;
    &&& frame_begins(data)
    &&& channels == 2
    &&& 8 <= assignment <= 10
    &&& width == 7 || width == 0 && bits == 32
}

/// `rusty_flac::FrameDecoder::decode_frame`, on a decoder for so many channels
/// and bits per sample: the frame at the front of `data`, as many samples of
/// each channel, at least one, and the bytes it takes, of those there are; or
/// the refusal of what is no frame or is damaged.
///
/// Bits are counted in 32 bits and read from whole words, and samples have 32
/// bits. So zeros must end somewhere, the bytes must end in ones, and no channel
/// may need 33 bits.
#[verifier::external_body]
fn decode_frame(channels: u32, bits: u32, data: &[u8]) -> (r: core::result::Result<
    Frame,
    rusty_flac::DecodeError,
>)
    requires
        1 <= channels <= 8,
        1 <= bits <= 32,
        ends_in_padding(data@),
        no_long_zeros(data@),
        !too_wide(data@, channels, bits),
    ensures
        match r {
            Ok(f) => {
                &&& flac_frame(channels, bits, data@) == Some(f@)
                &&& f.planes@.len() == channels
                &&& f.planes@[0]@.len() > 0
                &&& forall|c: int|
                    0 <= c < channels ==> (#[trigger] f.planes@[c])@.len() == f.planes@[0]@.len()
                &&& 0 < f.used <= data@.len()
            },
            Err(_) => flac_frame(channels, bits, data@) is None,
        },
{
    let info = StreamInfo { channels, bits_per_sample: bits, ..StreamInfo::default() };
    let mut planes: Vec<Vec<i32>> = vec![Vec::new(); channels as usize];
    let (_, used) = FrameDecoder::new(info)?.decode_frame(data, &mut planes)?;
    Ok(Frame { planes, used })
}

/// The rate, the channels and the bits per sample in the STREAMINFO body at
/// `at`: 20, 3 and 5 bits, the last two less one.
pub open spec fn info_at(flac: Seq<u8>, at: int) -> (u32, u32, u32) {
    (
        (flac[at + 10] as int * 4096 + flac[at + 11] as int * 16 + flac[at + 12] as int / 16) as u32,
        ((flac[at + 12] as int / 2) % 8 + 1) as u32,
        ((flac[at + 12] as int % 2) * 16 + flac[at + 13] as int / 16 + 1) as u32,
    )
}

/// What the last STREAMINFO among the metadata blocks from `at` on tells, or
/// `told` where there is none, and where the blocks end; `None` where they do
/// not end, or tell nothing.
pub open spec fn metadata(flac: Seq<u8>, at: int, told: Option<(u32, u32, u32)>) -> Option<
    ((u32, u32, u32), int),
>
    decreases flac.len() - at,
{
    if at < 0 || at + 4 > flac.len() || at + 4 + block_size(flac, at) > flac.len() {
        None
    } else if flac[at] % 128 == 0 && block_size(flac, at) < 34 {
        None
    } else {
        let info = if flac[at] % 128 == 0 {
            Some(info_at(flac, at + 4))
        } else {
            told
        };
        let next = at + 4 + block_size(flac, at);
        if flac[at] < 128 {
            metadata(flac, next, info)
        } else {
            match info {
                Some(i) => Some((i, next)),
                None => None,
            }
        }
    }
}

/// Channels with those of one more frame behind them.
pub open spec fn with_frame(planes: Seq<Seq<i32>>, frame: Seq<Seq<i32>>) -> Seq<Seq<i32>> {
    Seq::new(planes.len(), |c: int| planes[c] + frame[c])
}

/// The channels of the frames from `at` on, behind `planes`. `data` is the stream
/// with its padding.
pub open spec fn frames_from(
    data: Seq<u8>,
    at: int,
    channels: u32,
    bits: u32,
    planes: Seq<Seq<i32>>,
) -> Result<Seq<Seq<i32>>>
    decreases data.len() - at,
{
    let end = data.len() - PADDING;
    if at >= end {
        Ok(planes)
    } else if too_wide(data.skip(at), channels, bits) {
        Err(
            if bits == 16 {
                Error::Corrupt
            } else {
                Error::Unsupported
            },
        )
    } else {
        match flac_frame(channels, bits, data.skip(at)) {
            None => Err(Error::Corrupt),
            Some((frame, used)) => if used == 0 || at + used > end {
                Err(Error::Corrupt)
            } else {
                frames_from(data, at + used, channels, bits, with_frame(planes, frame))
            },
        }
    }
}

/// So many channels without samples.
pub open spec fn no_samples(channels: u32) -> Seq<Seq<i32>> {
    Seq::new(channels as nat, |c: int| Seq::empty())
}

/// The audio a stream holds, frame after frame: rate, channels, bits per sample
/// and the samples of each channel. A stream without the marker, without
/// STREAMINFO, or with a frame that is damaged or incomplete is corrupt.
pub open spec fn audio_of(flac: Seq<u8>) -> Result<(u32, u32, u32, Seq<Seq<i32>>)> {
    let data = with_padding(flac);
    if claimed(flac) is None || !no_long_zeros(data) {
        Err(Error::Corrupt)
    } else {
        match metadata(flac, 4, None) {
            None => Err(Error::Corrupt),
            Some(((rate, channels, bits), at)) => match frames_from(
                data,
                at,
                channels,
                bits,
                no_samples(channels),
            ) {
                Err(e) => Err(e),
                Ok(planes) => Ok((rate, channels, bits, planes)),
            },
        }
    }
}

/// The low sixteen bits of a sample.
pub open spec fn low16(v: i32) -> i16 {
    ((v + 32768) % 65536 - 32768) as i16
}

/// Truncating a sample keeps its low sixteen bits.
proof fn lemma_low16(v: i32, s: i16)
    requires
        s == #[verifier::truncate] (v as i16),
    ensures
        s == low16(v),
{
    assert(s as int == ((v as i64 + 32768) % 65536 + 65536) % 65536 - 32768) by (bit_vector)
        requires
            s == #[verifier::truncate] (v as i16),
    ;
}

/// The frames of a decoded stream: those of its first channel.
pub open spec fn frames_of(planes: Seq<Seq<i32>>) -> nat {
    if planes.len() == 0 {
        0
    } else {
        planes[0].len()
    }
}

/// The samples of all channels, frame by frame.
pub open spec fn interleaved(planes: Seq<Seq<i32>>) -> Seq<i16> {
    Seq::new(
        frames_of(planes) * planes.len(),
        |i: int| low16(planes[i % planes.len() as int][i / planes.len() as int]),
    )
}

/// Some channel ends before the first one does.
pub open spec fn ragged(planes: Seq<Seq<i32>>) -> bool {
    exists|c: int| 0 <= c < planes.len() && #[trigger] planes[c].len() < frames_of(planes)
}

/// What decoded audio is as interleaved 16-bit PCM.
pub open spec fn as_pcm16(audio: (u32, u32, u32, Seq<Seq<i32>>)) -> Result<(PcmFormat, Seq<u8>)> {
    let (rate, channels, bits, planes) = audio;
    if bits != 16 || channels == 0 || channels > 8 {
        Err(Error::Unsupported)
    } else if rate == 0 {
        Err(Error::InvalidGeometry)
    } else if ragged(planes) {
        Err(Error::Corrupt)
    } else {
        Ok(
            (
                PcmFormat {
                    sample_rate_hz: rate,
                    channels: channels as u8,
                    sample: SampleFormat::I16,
                },
                encode16(interleaved(planes)),
            ),
        )
    }
}

/// No sample count in a stream is out of proportion to the stream's length,
/// and there is one where it belongs.
pub open spec fn credible(flac: Seq<u8>) -> bool {
    let bound = MAX_SAMPLES_PER_BYTE * flac.len();
    &&& claimed(flac) matches Some(n) && n <= bound
    &&& claims_within(flac, 4, bound)
}

/// What a FLAC stream is as interleaved 16-bit PCM.
pub open spec fn decoded_pcm16(flac: Seq<u8>) -> Result<(PcmFormat, Seq<u8>)> {
    if !credible(flac) {
        Err(Error::Corrupt)
    } else {
        match audio_of(flac) {
            Ok(audio) => as_pcm16(audio),
            Err(e) => Err(e),
        }
    }
}

/// Splitting samples into channels and interleaving those gives them back.
pub proof fn lemma_interleaved_planes(samples: Seq<i16>, channels: int)
    requires
        channels > 0,
        samples.len() as int % channels == 0,
    ensures
        !ragged(planes_of(samples, channels)),
        interleaved(planes_of(samples, channels)) == samples,
{
    let planes = planes_of(samples, channels);
    assert(planes[0] == plane(samples, channels, 0));
    assert forall|c: int| 0 <= c < planes.len() implies #[trigger] planes[c].len() == frames_of(
        planes,
    ) by {
        assert(planes[c] == plane(samples, channels, c));
    }
    vstd::arithmetic::div_mod::lemma_fundamental_div_mod(samples.len() as int, channels);
    assert((samples.len() as int / channels) * channels == channels * (samples.len() as int
        / channels)) by (nonlinear_arith);
    let frames = samples.len() as int / channels;
    assert forall|i: int| 0 <= i < samples.len() implies interleaved(planes)[i] == samples[i] by {
        vstd::arithmetic::div_mod::lemma_fundamental_div_mod(i, channels);
        let c = i % channels;
        let f = i / channels;
        assert(0 <= c < channels && 0 <= f < frames) by (nonlinear_arith)
            requires
                channels > 0,
                0 <= i < channels * frames,
                c == i % channels,
                f == i / channels,
                i == channels * f + c,
        ;
        assert(f * channels == channels * f) by (nonlinear_arith);
        assert(planes[c] == plane(samples, channels, c));
        assert(plane(samples, channels, c)[f] == samples[f * channels + c] as i32);
    }
    assert(interleaved(planes) =~= samples);
}

/// The sample count in the first metadata block of a stream, if the stream is
/// long enough to have one.
fn streaminfo_total_samples(flac: &[u8]) -> (r: Option<u64>)
    ensures
        r is Some <==> claimed(flac@) is Some,
        r matches Some(n) ==> claimed(flac@) == Some(n as int),
{
    if flac.len() < STREAM_HEADER_LEN {
        return None;
    }
    let marked: bool = flac[0] == MARKER[0] && flac[1] == MARKER[1] && flac[2] == MARKER[2]
        && flac[3] == MARKER[3];
    assert(marked <==> flac@.take(4) =~= MARKER@);
    if !marked || flac[4] % 128 != 0 {
        return None;
    }
    Some(total_at(flac, 8))
}

/// The 36-bit sample count in the STREAMINFO body at `at`.
fn total_at(flac: &[u8], at: usize) -> (r: u64)
    requires
        at + 18 <= flac@.len(),
    ensures
        r == claim_at(flac@, at as int),
{
    let len: usize = flac.len();
    (flac[at + 13] % 16) as u64 * 4294967296 + flac[at + 14] as u64 * 16777216 + flac[at + 15]
        as u64 * 65536 + flac[at + 16] as u64 * 256 + flac[at + 17] as u64
}

/// Whether no STREAMINFO of the stream claims more than `bound` samples.
fn claims_fit(flac: &[u8], bound: u128) -> (r: bool)
    ensures
        r == claims_within(flac@, 4, bound as int),
{
    let mut at: usize = 4;
    while flac.len() >= 4 && at <= flac.len() - 4
        invariant
            4 <= at,
            at <= flac@.len() || at == 4,
            claims_within(flac@, 4, bound as int) == claims_within(flac@, at as int, bound as int),
        decreases flac@.len() - at,
    {
        let size: usize = flac[at + 1] as usize * 65536 + flac[at + 2] as usize * 256 + flac[at + 3]
            as usize;
        if size > flac.len() - 4 - at {
            return true;
        }
        if flac[at] % 128 == 0 && size >= 34 && total_at(flac, at + 4) as u128 > bound {
            return false;
        }
        if flac[at] >= 128 {
            return true;
        }
        at = at + 4 + size;
    }
    true
}

/// Whether a stream's sample counts can be true of a stream of its length.
fn counts_credible(flac: &[u8]) -> (r: bool)
    ensures
        r == credible(flac@),
{
    let bound: u128 = flac.len() as u128 * (MAX_SAMPLES_PER_BYTE as u128);
    match streaminfo_total_samples(flac) {
        Some(n) => n as u128 <= bound && claims_fit(flac, bound),
        None => false,
    }
}

/// Interleave decoded audio as 16-bit little-endian PCM. Audio that is not
/// 16-bit is refused, as is a channel that ends early.
pub fn interleave_pcm16(audio: &Decoded) -> (r: Result<(PcmFormat, Vec<u8>)>)
    ensures
        match r {
            Ok((format, pcm)) => as_pcm16(audio@) == Ok::<_, Error>((format, pcm@)),
            Err(e) => as_pcm16(audio@) == Err::<(PcmFormat, Seq<u8>), _>(e),
        },
{
    if audio.bits_per_sample != 16 || audio.channels == 0 || audio.channels > 8 {
        return Err(Error::Unsupported);
    }
    let format: PcmFormat = match PcmFormat::new(
        audio.sample_rate,
        audio.channels as u8,
        SampleFormat::I16,
    ) {
        Ok(f) => f,
        Err(e) => return Err(e),
    };
    let ghost planes = audio@.3;
    let ch: usize = audio.planes.len();
    let frames: usize = if ch == 0 {
        0
    } else {
        audio.planes[0].len()
    };
    assert(frames == frames_of(planes));
    let mut out: Vec<u8> = Vec::new();
    let ghost mut samples: Seq<i16> = Seq::empty();
    let mut i: usize = 0;
    while i < frames
        invariant
            i <= frames,
            planes == audio@.3,
            ch == planes.len(),
            ch == audio.planes@.len(),
            frames == frames_of(planes),
            samples.len() == i * ch,
            out@ == encode16(samples),
            forall|k: int| 0 <= k < samples.len() ==> samples[k] == low16(
                #[trigger] planes[k % ch as int][k / ch as int],
            ),
            forall|c: int| 0 <= c < ch ==> i <= frames && (i > 0 ==> i <= (#[trigger] planes[c]).len()),
            audio.bits_per_sample == 16,
            1 <= audio.channels <= 8,
            audio.sample_rate > 0,
        decreases frames - i,
    {
        let mut c: usize = 0;
        while c < ch
            invariant
                c <= ch,
                i < frames,
                planes == audio@.3,
                ch == planes.len(),
                ch == audio.planes@.len(),
                frames == frames_of(planes),
                samples.len() == i * ch + c,
                out@ == encode16(samples),
                forall|k: int| 0 <= k < samples.len() ==> samples[k] == low16(
                    #[trigger] planes[k % ch as int][k / ch as int],
                ),
                forall|d: int| 0 <= d < c ==> i < (#[trigger] planes[d]).len(),
                audio.bits_per_sample == 16,
                1 <= audio.channels <= 8,
                audio.sample_rate > 0,
            decreases ch - c,
        {
            assert(planes[c as int] == audio.planes@[c as int]@);
            if i >= audio.planes[c].len() {
                assert(planes[c as int].len() < frames_of(planes));
                assert(ragged(planes));
                return Err(Error::Corrupt);
            }
            let v: i32 = audio.planes[c][i];
            let s: i16 = #[verifier::truncate]
            (v as i16);
            proof {
                lemma_low16(v, s);
                let k = samples.len() as int;
                assert(k % ch as int == c && k / ch as int == i) by {
                    vstd::arithmetic::div_mod::lemma_fundamental_div_mod_converse(
                        k,
                        ch as int,
                        i as int,
                        c as int,
                    );
                }
            }
            push_sample(&mut out, s);
            proof {
                lemma_encode_push(samples, s);
                samples = samples.push(s);
            }
            c += 1;
        }
        assert((i + 1) * ch == i * ch + ch) by (nonlinear_arith);
        i += 1;
    }
    assert(!ragged(planes));
    assert(samples =~= interleaved(planes)) by {
        assert(frames_of(planes) * planes.len() == frames * ch);
    }
    Ok((format, out))
}

/// Read the STREAMINFO body at `at`.
fn read_info(flac: &[u8], at: usize) -> (r: (u32, u32, u32))
    requires
        at + 14 <= flac@.len(),
    ensures
        r == info_at(flac@, at as int),
        1 <= r.1 <= 8,
        1 <= r.2 <= 32,
{
    let len: usize = flac.len();
    (
        flac[at + 10] as u32 * 4096 + flac[at + 11] as u32 * 16 + flac[at + 12] as u32 / 16,
        (flac[at + 12] as u32 / 2) % 8 + 1,
        (flac[at + 12] as u32 % 2) * 16 + flac[at + 13] as u32 / 16 + 1,
    )
}

/// What the stream's STREAMINFO tells, and where its frames begin.
fn read_metadata(flac: &[u8]) -> (r: Option<((u32, u32, u32), usize)>)
    ensures
        match r {
            Some((info, at)) => {
                &&& metadata(flac@, 4, None) == Some((info, at as int))
                &&& at <= flac@.len()
                &&& 1 <= info.1 <= 8
                &&& 1 <= info.2 <= 32
            },
            None => metadata(flac@, 4, None) is None,
        },
{
    let mut told: Option<(u32, u32, u32)> = None;
    let mut at: usize = 4;
    while flac.len() >= 4 && at <= flac.len() - 4
        invariant
            4 <= at,
            at <= flac@.len() || at == 4,
            metadata(flac@, 4, None) == metadata(flac@, at as int, told),
            told matches Some(i) ==> 1 <= i.1 <= 8 && 1 <= i.2 <= 32,
        decreases flac@.len() - at,
    {
        let size: usize = flac[at + 1] as usize * 65536 + flac[at + 2] as usize * 256 + flac[at + 3]
            as usize;
        if size > flac.len() - 4 - at {
            return None;
        }
        if flac[at] % 128 == 0 {
            if size < 34 {
                return None;
            }
            told = Some(read_info(flac, at + 4));
        }
        if flac[at] >= 128 {
            return match told {
                Some(info) => Some((info, at + 4 + size)),
                None => None,
            };
        }
        at = at + 4 + size;
    }
    None
}

/// The stream with its padding.
fn pad(flac: &[u8]) -> (r: Vec<u8>)
    ensures
        r@ == with_padding(flac@),
{
    let mut data: Vec<u8> = Vec::new();
    let mut i: usize = 0;
    while i < flac.len()
        invariant
            i <= flac@.len(),
            data@ == flac@.take(i as int),
        decreases flac@.len() - i,
    {
        data.push(flac[i]);
        assert(flac@.take(i + 1) =~= flac@.take(i as int).push(flac@[i as int]));
        i += 1;
    }
    assert(flac@.take(i as int) =~= flac@);
    let mut k: usize = 0;
    while k < PADDING
        invariant
            k <= PADDING,
            data@ == flac@ + Seq::new(k as nat, |i: int| 0xFFu8),
        decreases PADDING - k,
    {
        data.push(0xFF);
        assert(data@ =~= flac@ + Seq::new((k + 1) as nat, |i: int| 0xFFu8));
        k += 1;
    }
    data
}

/// Whether every run of zero bits can be counted.
fn zeros_end(data: &[u8]) -> (r: bool)
    ensures
        r == no_long_zeros(data@),
{
    let mut run: u64 = 0;
    let mut k: usize = 0;
    while k < data.len()
        invariant
            k <= data@.len(),
            counted_run(data@, 8 * k, run),
        decreases data@.len() - k,
    {
        let mut b: u8 = 0;
        while b < 8
            invariant
                k < data@.len(),
                b <= 8,
                counted_run(data@, 8 * k + b, run),
            decreases 8 - b,
        {
            let ghost i = 8 * k + b;
            assert(i / 8 == k && i % 8 == b);
            if data[k] & (0x80u8 >> b) == 0 {
                run += 1;
                if run == ZERO_BITS {
                    assert(!some_set(data@, i + 1 - ZERO_BITS));
                    return false;
                }
            } else {
                run = 0;
            }
            proof {
                assert forall|from: int| 0 <= from <= i + 1 - ZERO_BITS implies #[trigger] some_set(
                    data@,
                    from,
                ) by {
                    if from == i + 1 - ZERO_BITS {
                        let j = i - run;
                        assert(bit_at(data@, j));
                        assert(from <= j < from + ZERO_BITS);
                    }
                }
            }
            b += 1;
        }
        k += 1;
    }
    true
}

/// Of the first `n` bits the last `run`, and no more, are zeros in a row, and no
/// run so far was too long.
spec fn counted_run(data: Seq<u8>, n: int, run: u64) -> bool {
    &&& run <= n
    &&& run < ZERO_BITS
    &&& forall|j: int| n - run <= j < n ==> !#[trigger] bit_at(data, j)
    &&& run < n ==> bit_at(data, n - run - 1)
    &&& forall|i: int| 0 <= i <= n - ZERO_BITS ==> #[trigger] some_set(data, i)
}

/// What is behind a position has no longer runs of zeros than the whole.
proof fn lemma_zeros_end_behind(data: Seq<u8>, at: int)
    requires
        no_long_zeros(data),
        0 <= at <= data.len(),
    ensures
        no_long_zeros(data.skip(at)),
{
    let rest = data.skip(at);
    assert forall|i: int| 0 <= i <= 8 * rest.len() - ZERO_BITS implies #[trigger] some_set(
        rest,
        i,
    ) by {
        assert(some_set(data, 8 * at + i));
        let j = choose|j: int|
            8 * at + i <= j < 8 * at + i + ZERO_BITS && #[trigger] bit_at(data, j);
        if j < 8 * data.len() {
            assert(bit_at(rest, j - 8 * at));
        }
    }
}

/// Whether a channel of the frame at the front of `data` has 33 bits.
fn is_too_wide(data: &[u8], channels: u32, bits: u32) -> (r: bool)
    requires
        data@.len() >= 4,
    ensures
        r == too_wide(data@, channels, bits),
{
    let begins: bool = data[0] == 0xFF && (data[1] == 0xF8 || data[1] == 0xF9) && data[2] >= 16
        && data[2] % 16 != 15 && data[3] % 2 == 0;
    let assignment: u8 = data[3] / 16;
    let width: u8 = (data[3] / 2) % 8;
    begins && channels == 2 && 8 <= assignment && assignment <= 10 && (width == 7 || width == 0
        && bits == 32)
}

/// Put the samples of a frame behind those of the frames before.
pub fn append_frame(audio: &mut Decoded, frame: &Frame)
    requires
        frame.planes@.len() == old(audio).planes@.len(),
    ensures
        final(audio)@ == (
            old(audio)@.0,
            old(audio)@.1,
            old(audio)@.2,
            with_frame(old(audio)@.3, frame@.0),
        ),
{
    let ghost before = audio.planes@;
    let n: usize = frame.planes.len();
    let mut c: usize = 0;
    while c < n
        invariant
            c <= n,
            n == frame.planes@.len(),
            n == before.len(),
            audio.planes@.len() == n,
            audio.sample_rate == old(audio).sample_rate,
            audio.channels == old(audio).channels,
            audio.bits_per_sample == old(audio).bits_per_sample,
            forall|k: int|
                0 <= k < c ==> (#[trigger] audio.planes@[k])@ == before[k]@ + frame.planes@[k]@,
            forall|k: int| c <= k < n ==> #[trigger] audio.planes@[k] == before[k],
        decreases n - c,
    {
        let mut plane: Vec<i32> = Vec::new();
        audio.planes.set_and_swap(c, &mut plane);
        append_samples(&mut plane, &frame.planes[c]);
        audio.planes.set(c, plane);
        c += 1;
    }
    assert(audio@.3 =~= with_frame(old(audio)@.3, frame@.0)) by {
        assert forall|k: int| 0 <= k < n implies audio@.3[k] == with_frame(
            old(audio)@.3,
            frame@.0,
        )[k] by {
            assert(audio.planes@[k]@ == before[k]@ + frame.planes@[k]@);
        }
    }
}

/// Append samples.
fn append_samples(plane: &mut Vec<i32>, more: &Vec<i32>)
    ensures
        final(plane)@ == old(plane)@ + more@,
{
    let ghost before = plane@;
    let mut i: usize = 0;
    while i < more.len()
        invariant
            i <= more@.len(),
            plane@ == before + more@.take(i as int),
        decreases more@.len() - i,
    {
        plane.push(more[i]);
        assert(more@.take(i + 1) =~= more@.take(i as int).push(more@[i as int]));
        i += 1;
    }
    assert(more@.take(i as int) =~= more@);
}

/// Decode a stream frame by frame.
fn decode_audio(flac: &[u8]) -> (r: Result<Decoded>)
    requires
        claimed(flac@) is Some,
    ensures
        match r {
            Ok(audio) => audio_of(flac@) == Ok::<_, Error>(audio@),
            Err(e) => audio_of(flac@) == Err::<(u32, u32, u32, Seq<Seq<i32>>), _>(e),
        },
{
    let data: Vec<u8> = pad(flac);
    if !zeros_end(data.as_slice()) {
        return Err(Error::Corrupt);
    }
    let ((sample_rate, channels, bits), begin) = match read_metadata(flac) {
        Some(found) => found,
        None => return Err(Error::Corrupt),
    };
    let mut planes: Vec<Vec<i32>> = Vec::new();
    let mut c: u32 = 0;
    while c < channels
        invariant
            c <= channels,
            planes@.len() == c,
            forall|k: int| 0 <= k < c ==> (#[trigger] planes@[k])@ == Seq::<i32>::empty(),
        decreases channels - c,
    {
        planes.push(Vec::new());
        c += 1;
    }
    let mut audio = Decoded { sample_rate, channels, bits_per_sample: bits, planes };
    assert(audio@.3 =~= no_samples(channels));
    let end: usize = flac.len();
    let mut at: usize = begin;
    while at < end
        invariant
            begin <= at <= end,
            end == flac@.len(),
            data@ == with_padding(flac@),
            no_long_zeros(data@),
            1 <= channels <= 8,
            1 <= bits <= 32,
            audio.planes@.len() == channels,
            audio.sample_rate == sample_rate,
            audio.channels == channels,
            audio.bits_per_sample == bits,
            frames_from(data@, begin as int, channels, bits, no_samples(channels)) == frames_from(
                data@,
                at as int,
                channels,
                bits,
                audio@.3,
            ),
            claimed(flac@) is Some,
            metadata(flac@, 4, None) == Some(((sample_rate, channels, bits), begin as int)),
        decreases end - at,
    {
        let rest: &[u8] = vstd::slice::slice_subrange(data.as_slice(), at, data.len());
        assert(rest@ =~= data@.skip(at as int));
        if is_too_wide(rest, channels, bits) {
            return Err(
                if bits == 16 {
                    Error::Corrupt
                } else {
                    Error::Unsupported
                },
            );
        }
        proof {
            lemma_zeros_end_behind(data@, at as int);
        }
        let frame: Frame = match decode_frame(channels, bits, rest) {
            Ok(frame) => frame,
            Err(_) => return Err(Error::Corrupt),
        };
        if frame.used > end - at {
            return Err(Error::Corrupt);
        }
        append_frame(&mut audio, &frame);
        at = at + frame.used;
    }
    Ok(audio)
}

/// Decode a FLAC stream to interleaved i16 little-endian PCM. Streams that
/// are not 16-bit are refused (`Unsupported`); corrupt ones are `Corrupt`,
/// including a header whose sample count no stream of that length could
/// hold (the decoder reserves memory from that count; a lie there must not
/// become an allocation).
pub fn decode_pcm16(flac: &[u8]) -> (r: Result<(PcmFormat, Vec<u8>)>)
    ensures
        match r {
            Ok((format, pcm)) => decoded_pcm16(flac@) == Ok::<_, Error>((format, pcm@)),
            Err(e) => decoded_pcm16(flac@) == Err::<(PcmFormat, Seq<u8>), _>(e),
        },
{
    if !counts_credible(flac) {
        return Err(Error::Corrupt);
    }
    match decode_audio(flac) {
        Ok(audio) => interleave_pcm16(&audio),
        Err(e) => Err(e),
    }
}

/// Encodes i16 blocks into complete FLAC streams, one per chunk.
pub struct FlacEncoder {
    /// The PCM format taken.
    pub format: PcmFormat,
    /// Compression level, 0 to 8.
    pub level: u32,
    /// The current chunk, once anything was pushed into it.
    pub inner: Option<StreamEncoder>,
    /// Frames pushed into the current chunk.
    pub pending_frames: usize,
    /// Chunks finished.
    pub chunks: u64,
    /// Bytes of FLAC produced so far.
    pub bytes_out: u64,
    /// Bytes of PCM consumed so far.
    pub bytes_in: u64,
}

/// Why no encoder takes `format`, if none does.
pub open spec fn format_refusal(format: PcmFormat) -> Option<Error> {
    if format.sample != SampleFormat::I16 || format.channels > 8 {
        Some(Error::Unsupported)
    } else if !encodable(format.sample_rate_hz, format.channels as u32, 16) {
        Some(Error::InvalidFormat)
    } else {
        None
    }
}

/// The stream of the samples in `format` at a compression level.
pub open spec fn stream_of(format: PcmFormat, level: u32, samples: Seq<i16>) -> Seq<u8> {
    flac_stream(
        format.sample_rate_hz,
        format.channels as u32,
        16,
        order_at(level),
        samples,
    )
}

/// The level used where `level` is asked for.
pub open spec fn level_used(level: u32) -> u32 {
    if level > 8 {
        8
    } else {
        level
    }
}

/// Whole frames are as many samples as frames and channels say.
proof fn lemma_frames_pushed(block: BlockView, before: int)
    requires
        block.format.sample == SampleFormat::I16,
        block.format.channels > 0,
        block.data.len() % block.format.frame_width() == 0,
    ensures
        (before + block.frame_count()) * block.format.channels == before * block.format.channels
            + decode16(block.data).len(),
        2 * block.frame_count() <= block.data.len(),
        block.data.len() % 2 == 0,
{
    let ch = block.format.channels as int;
    let len = block.data.len() as int;
    let width = block.format.frame_width() as int;
    let frames = block.frame_count() as int;
    vstd::arithmetic::div_mod::lemma_fundamental_div_mod(len, width);
    assert(len == 2 * (frames * ch)) by (nonlinear_arith)
        requires
            len == width * frames,
            width == 2 * ch,
    ;
    assert((before + frames) * ch == before * ch + frames * ch) by (nonlinear_arith);
    assert(2 * frames <= len) by (nonlinear_arith)
        requires
            len == 2 * (frames * ch),
            ch >= 1,
            frames >= 0,
    ;
}

/// So many samples per frame make whole frames.
proof fn lemma_whole(frames: int, channels: int)
    requires
        channels > 0,
    ensures
        (frames * channels) / channels == frames,
        (frames * channels) % channels == 0,
{
    vstd::arithmetic::div_mod::lemma_fundamental_div_mod_converse(
        frames * channels,
        channels,
        frames,
        0,
    );
}

/// A stream that tells the truth about its length and decodes to the channels
/// of some samples is those samples as PCM.
proof fn lemma_stream_decodes(stream: Seq<u8>, format: PcmFormat, samples: Seq<i16>)
    requires
        format_refusal(format) is None,
        samples.len() as int % format.channels as int == 0,
        stream.len() >= 42,
        stream.take(4) == MARKER@,
        stream[4] == 0x80,
        block_size(stream, 4) == 34,
        claim_at(stream, 8) <= 4096 * (stream.len() - 42),
        audio_of(stream) == Ok::<_, Error>(
            (
                format.sample_rate_hz,
                format.channels as u32,
                16u32,
                planes_of(samples, format.channels as int),
            ),
        ),
    ensures
        claimed(stream) == Some(claim_at(stream, 8)),
        decoded_pcm16(stream) == Ok::<_, Error>((format, encode16(samples))),
{
    assert(claims_within(stream, 4, MAX_SAMPLES_PER_BYTE * stream.len()));
    lemma_interleaved_planes(samples, format.channels as int);
}

/// The samples of two pushes are those of one push of both: how audio is cut
/// into blocks does not show in the stream.
pub proof fn lemma_pushes_join(format: PcmFormat, level: u32, held: Seq<i16>, a: Seq<u8>, b: Seq<u8>)
    requires
        a.len() % 2 == 0,
    ensures
        stream_of(format, level, held + decode16(a) + decode16(b)) == stream_of(
            format,
            level,
            held + decode16(a + b),
        ),
{
    lemma_decode_joined(a, b);
    assert(held + decode16(a) + decode16(b) =~= held + decode16(a + b));
}

impl FlacEncoder {
    /// The samples of the current chunk.
    pub open spec fn pending(self) -> Seq<i16> {
        match self.inner {
            Some(e) => flac_held(e),
            None => Seq::empty(),
        }
    }

    /// The format is one that can be encoded, the chunk is being encoded as the
    /// format and the level say, and its frames are whole and counted.
    pub open spec fn valid(self) -> bool {
        &&& format_refusal(self.format) is None
        &&& self.level <= 8
        &&& self.inner matches Some(e) ==> flac_settings(e) == (
            self.format.sample_rate_hz,
            self.format.channels as u32,
            16u32,
            order_at(self.level),
        )
        &&& self.pending().len() == self.pending_frames * self.format.channels
    }

    /// An encoder for `format` (i16, 1 to 8 channels) at compression `level`
    /// (0 to 8; 5 is a sensible chip default).
    pub fn new(format: PcmFormat, level: u32) -> (r: Result<Self>)
        ensures
            match r {
                Ok(e) => {
                    &&& format_refusal(format) is None
                    &&& e.valid()
                    &&& e.format == format
                    &&& e.level == level_used(level)
                    &&& e.inner is None
                    &&& e.pending_frames == 0
                    &&& e.chunks == 0
                    &&& e.bytes_out == 0
                    &&& e.bytes_in == 0
                },
                Err(error) => format_refusal(format) == Some(error),
            },
    {
        if format.sample != SampleFormat::I16 || format.channels > 8 {
            return Err(Error::Unsupported);
        }
        assert(0 * format.channels == 0) by (nonlinear_arith);
        // Validate the parameters once, up front.
        if new_encoder(format.sample_rate_hz, format.channels as u32, 16).is_err() {
            return Err(Error::InvalidFormat);
        }
        Ok(
            FlacEncoder {
                format,
                level: if level > 8 {
                    8
                } else {
                    level
                },
                inner: None,
                pending_frames: 0,
                chunks: 0,
                bytes_out: 0,
                bytes_in: 0,
            },
        )
    }

    /// The PCM format this encoder takes.
    pub fn format(&self) -> (r: PcmFormat)
        ensures
            r == self.format,
    {
        self.format
    }

    /// The current chunk's encoder, or a new one.
    fn take_encoder(&mut self) -> (r: Result<StreamEncoder>)
        requires
            old(self).valid(),
        ensures
            r matches Ok(e) && flac_settings(e) == (
                old(self).format.sample_rate_hz,
                old(self).format.channels as u32,
                16u32,
                order_at(old(self).level),
            ) && flac_held(e) == old(self).pending(),
            *final(self) == (FlacEncoder { inner: None, ..*old(self) }),
    {
        match self.inner.take() {
            Some(e) => Ok(e),
            None => match new_encoder(self.format.sample_rate_hz, self.format.channels as u32, 16) {
                Ok(e) => {
                    let mut e = e;
                    set_level(&mut e, self.level);
                    Ok(e)
                },
                Err(_) => Err(Error::InvalidFormat),
            },
        }
    }

    /// Add one block to the current chunk.
    pub fn push(&mut self, block: PcmBlock<'_>) -> (r: Result<()>)
        requires
            old(self).valid(),
            old(self).pending_frames + block@.frame_count() <= usize::MAX,
            old(self).bytes_in + block@.data.len() <= u64::MAX,
        ensures
            final(self).valid(),
            final(self).format == old(self).format,
            final(self).level == old(self).level,
            final(self).chunks == old(self).chunks,
            final(self).bytes_out == old(self).bytes_out,
            match r {
                Ok(_) => {
                    &&& block@.format == old(self).format
                    &&& block@.data.len() % block@.format.frame_width() == 0
                    &&& final(self).inner is Some
                    &&& final(self).pending() == old(self).pending() + decode16(block@.data)
                    &&& final(self).pending_frames == old(self).pending_frames
                        + block@.frame_count()
                    &&& final(self).bytes_in == old(self).bytes_in + block@.data.len()
                },
                Err(Error::InvalidFormat) => {
                    &&& block@.format != old(self).format
                    &&& *final(self) == *old(self)
                },
                Err(e) => {
                    &&& e == Error::InvalidGeometry
                    &&& block@.format == old(self).format
                    &&& block@.data.len() % block@.format.frame_width() != 0
                    &&& final(self).inner is Some <==> old(self).inner is Some
                    &&& final(self).pending() == old(self).pending()
                    &&& final(self).pending_frames == old(self).pending_frames
                    &&& final(self).bytes_in == old(self).bytes_in
                },
            },
    {
        if block.format != self.format {
            return Err(Error::InvalidFormat);
        }
        let frames: usize = block.frames();
        let begun: bool = self.inner.is_some();
        let mut encoder: StreamEncoder = match self.take_encoder() {
            Ok(e) => e,
            Err(e) => return Err(e),
        };
        let pushed = push_samples(&mut encoder, block.data);
        if pushed.is_err() {
            if begun {
                self.inner = Some(encoder);
            }
            return Err(Error::InvalidGeometry);
        }
        self.inner = Some(encoder);
        proof {
            lemma_frames_pushed(block@, self.pending_frames as int);
        }
        self.pending_frames += frames;
        self.bytes_in += block.data.len() as u64;
        Ok(())
    }

    /// Close the current chunk and return it as a complete FLAC stream.
    /// Returns `None` when nothing was pushed since the last chunk.
    pub fn finish(&mut self) -> (r: Option<Vec<u8>>)
        requires
            old(self).valid(),
            old(self).chunks < u64::MAX,
            old(self).bytes_out + isize::MAX <= u64::MAX,
        ensures
            final(self).valid(),
            match r {
                Some(stream) => {
                    &&& old(self).inner is Some
                    &&& stream@ == stream_of(
                        old(self).format,
                        old(self).level,
                        old(self).pending(),
                    )
                    &&& stream@.len() >= STREAM_HEADER_LEN
                    &&& stream@.take(4) == MARKER@
                    &&& claimed(stream@) == Some(
                        old(self).pending_frames as int % COUNTED_FRAMES as int,
                    )
                    &&& old(self).pending_frames < COUNTED_FRAMES ==> decoded_pcm16(stream@) == Ok::<
                        _,
                        Error,
                    >((old(self).format, encode16(old(self).pending())))
                    &&& *final(self) == (FlacEncoder {
                        inner: None,
                        pending_frames: 0,
                        chunks: (old(self).chunks + 1) as u64,
                        bytes_out: (old(self).bytes_out + stream@.len()) as u64,
                        ..*old(self)
                    })
                },
                None => old(self).inner is None && *final(self) == *old(self),
            },
    {
        match self.inner.take() {
            Some(e) => {
                proof {
                    lemma_whole(self.pending_frames as int, self.format.channels as int);
                }
                let stream: Vec<u8> = finish_stream(e);
                proof {
                    if self.pending_frames < COUNTED_FRAMES {
                        lemma_stream_decodes(stream@, self.format, flac_held(e));
                    }
                }
                self.pending_frames = 0;
                self.chunks += 1;
                self.bytes_out += stream.len() as u64;
                Some(stream)
            },
            None => None,
        }
    }
}

/// What encoding a block answers where it is refused: a format that cannot be
/// encoded, or a length that is no whole number of frames.
pub open spec fn encode_refusal(block: BlockView) -> Option<Error> {
    match format_refusal(block.format) {
        Some(e) => Some(e),
        None => if block.data.len() % block.format.frame_width() != 0 {
            Some(Error::InvalidGeometry)
        } else {
            None
        },
    }
}

/// Encode one i16 block as a standalone FLAC stream. Decoding the stream gives
/// the block's format and bytes back.
pub fn encode_pcm16(block: PcmBlock<'_>, level: u32) -> (r: Result<Vec<u8>>)
    ensures
        match r {
            Ok(stream) => {
                &&& encode_refusal(block@) is None
                &&& stream@ == stream_of(block@.format, level_used(level), decode16(block@.data))
                &&& stream@.len() >= STREAM_HEADER_LEN
                &&& stream@.take(4) == MARKER@
                &&& claimed(stream@) == Some(block@.frame_count() as int % COUNTED_FRAMES as int)
                &&& block@.frame_count() < COUNTED_FRAMES ==> decoded_pcm16(stream@) == Ok::<
                    _,
                    Error,
                >((block@.format, block@.data))
            },
            Err(e) => encode_refusal(block@) == Some(e),
        },
{
    let mut e: FlacEncoder = match FlacEncoder::new(block.format, level) {
        Ok(e) => e,
        Err(error) => return Err(error),
    };
    let len: usize = block.data.len();
    assert(block@.frame_count() <= len) by {
        assert(len as int / block@.format.frame_width() as int <= len) by (nonlinear_arith)
            requires
                block@.format.frame_width() > 0,
        ;
    }
    match e.push(block) {
        Ok(_) => {},
        Err(error) => return Err(error),
    }
    proof {
        lemma_frames_pushed(block@, 0);
        assert(Seq::<i16>::empty() + decode16(block@.data) =~= decode16(block@.data));
        lemma_encode_decode(block@.data);
    }
    match e.finish() {
        Some(stream) => Ok(stream),
        None => Err(Error::InvalidGeometry),
    }
}

/// What decoded audio is as PCM, sample by sample: sample `f` of channel `c`, cut
/// to 16 bits, stands at place `f * channels + c`. Only 16-bit audio of one to
/// eight channels, with a rate, whose channels all last as long as the first one,
/// is taken.
pub proof fn lemma_pcm_sample_by_sample(audio: (u32, u32, u32, Seq<Seq<i32>>))
    requires
        audio.3.len() == audio.1,
    ensures
        ({
            let (rate, channels, bits, planes) = audio;
            let r = as_pcm16(audio);
            let known = bits == 16 && 1 <= channels <= 8;
            let even = forall|c: int|
                0 <= c < channels ==> (#[trigger] planes[c]).len() >= planes[0].len();
            &&& !known ==> r == Err::<(PcmFormat, Seq<u8>), Error>(Error::Unsupported)
            &&& known && rate == 0 ==> r == Err::<(PcmFormat, Seq<u8>), Error>(
                Error::InvalidGeometry,
            )
            &&& known && rate > 0 && !even ==> r == Err::<(PcmFormat, Seq<u8>), Error>(
                Error::Corrupt,
            )
            &&& known && rate > 0 && even ==> {
                let (format, pcm) = r->Ok_0;
                &&& r is Ok
                &&& format.sample_rate_hz == rate
                &&& format.channels == channels
                &&& format.sample == SampleFormat::I16
                &&& pcm.len() == 2 * (planes[0].len() * channels)
                &&& forall|f: int, c: int|
                    0 <= f < planes[0].len() && 0 <= c < channels ==> (#[trigger] planes[c][f]
                        - crate::bytes::sample_in(pcm, f * channels + c)) % 65536 == 0
            }
        }),
{
    let (rate, channels, bits, planes) = audio;
    let known = bits == 16 && 1 <= channels <= 8;
    let even = forall|c: int|
        0 <= c < channels ==> (#[trigger] planes[c]).len() >= planes[0].len();
    if known {
        assert(ragged(planes) == !even) by {
            if !even {
                let c = choose|c: int|
                    0 <= c < channels && !((#[trigger] planes[c]).len() >= planes[0].len());
                assert(planes[c].len() < frames_of(planes));
            }
        }
        if even && rate > 0 {
            let pcm = encode16(interleaved(planes));
            let ch = channels as int;
            assert forall|f: int, c: int|
                0 <= f < planes[0].len() && 0 <= c < channels implies (#[trigger] planes[c][f]
                - crate::bytes::sample_in(pcm, f * channels + c)) % 65536 == 0 by {
                let at = f * ch + c;
                assert(0 <= at < planes[0].len() * ch) by (nonlinear_arith)
                    requires
                        at == f * ch + c,
                        0 <= f < planes[0].len(),
                        0 <= c < ch,
                ;
                vstd::arithmetic::div_mod::lemma_fundamental_div_mod_converse(at, ch, f, c);
                crate::bytes::lemma_samples_lie(pcm, interleaved(planes), at);
                assert(interleaved(planes)[at] == low16(planes[c][f]));
            }
        }
    }
}

/// What STREAMINFO tells packed in four of its bytes: 20 bits of rate, 3 of
/// channels and 5 of bits per sample, the last two less one.
pub proof fn lemma_streaminfo_fields(flac: Seq<u8>, at: int)
    ensures
        ({
            let (rate, channels, bits) = info_at(flac, at);
            let packed = 16777216 * flac[at + 10] + 65536 * flac[at + 11] + 256 * flac[at + 12]
                + flac[at + 13];
            &&& 1 <= channels <= 8
            &&& 1 <= bits <= 32
            &&& rate < 1048576
            &&& packed == 4096 * rate + 512 * (channels - 1) + 16 * (bits - 1) + flac[at + 13] % 16
        }),
{
}

/// A stream that is too short for its header, does not begin with `fLaC` and
/// STREAMINFO, or claims more than 16384 samples for each of its bytes, is
/// corrupt.
pub proof fn lemma_incredible_streams_are_corrupt(flac: Seq<u8>)
    ensures
        ({
            let claim = (flac[21] as int % 16) * 4294967296 + 16777216 * flac[22] + 65536 * flac[23]
                + 256 * flac[24] + flac[25];
            let begins = flac.len() >= 42 && flac[0] == 'f' as u8 && flac[1] == 'L' as u8 && flac[2]
                == 'a' as u8 && flac[3] == 'C' as u8 && (flac[4] == 0 || flac[4] == 128);
            &&& !begins || claim > 16384 * flac.len() ==> decoded_pcm16(flac) == Err::<
                (PcmFormat, Seq<u8>),
                Error,
            >(Error::Corrupt)
            &&& begins <==> claimed(flac) is Some
            &&& begins ==> claimed(flac) == Some(claim)
        }),
{
    if flac.len() >= 42 {
        let m = flac.take(4);
        assert(m[0] == flac[0] && m[1] == flac[1] && m[2] == flac[2] && m[3] == flac[3]);
        if flac[0] == 102 && flac[1] == 76 && flac[2] == 97 && flac[3] == 67 {
            assert(m =~= MARKER@);
        }
    }
}

/// Which formats can be encoded: 16-bit samples in one to eight channels, at a rate
/// of 20 bits that is not zero.
pub proof fn lemma_encodable_formats(format: PcmFormat)
    ensures
        ({
            let taken = format.sample == SampleFormat::I16 && format.channels <= 8;
            let possible = format.channels >= 1 && 1 <= format.sample_rate_hz < 1048576;
            &&& format_refusal(format) is None <==> taken && possible
            &&& !taken ==> format_refusal(format) == Some(Error::Unsupported)
            &&& taken && !possible ==> format_refusal(format) == Some(Error::InvalidFormat)
        }),
{
}

/// Levels above the highest are the highest.
pub proof fn lemma_levels(level: u32)
    ensures
        level <= 8 ==> level_used(level) == level,
        level > 8 ==> level_used(level) == 8,
{
}

/// Which blocks are encoded: whole frames of a format that can be.
pub proof fn lemma_blocks_encoded(block: BlockView)
    requires
        block.format.channels > 0,
    ensures
        encode_refusal(block) is None <==> format_refusal(block.format) is None && block.data.len()
            % (2 * block.format.channels as nat) == 0,
        format_refusal(block.format) is Some ==> encode_refusal(block) == format_refusal(
            block.format,
        ),
        format_refusal(block.format) is None && encode_refusal(block) is Some ==> encode_refusal(
            block,
        ) == Some(Error::InvalidGeometry),
{
}

/// A metadata block of another kind changes nothing but where the frames begin;
/// the last STREAMINFO counts; and behind the last block come the frames.
pub proof fn lemma_metadata_blocks(flac: Seq<u8>, at: int, told: Option<(u32, u32, u32)>)
    requires
        0 <= at,
        at + 4 <= flac.len(),
    ensures
        ({
            let size = 65536 * flac[at + 1] + 256 * flac[at + 2] + flac[at + 3];
            let next = at + 4 + size;
            let info = flac[at] == 0 || flac[at] == 128;
            let now = if info {
                Some(info_at(flac, at + 4))
            } else {
                told
            };
            &&& next > flac.len() || info && size < 34 ==> metadata(flac, at, told) is None
            &&& next <= flac.len() && (info ==> size >= 34) && flac[at] < 128 ==> metadata(
                flac,
                at,
                told,
            ) == metadata(flac, next, now)
            &&& next <= flac.len() && (info ==> size >= 34) && flac[at] >= 128 && now is Some
                ==> metadata(flac, at, told) == Some((now->0, next))
            &&& next <= flac.len() && (info ==> size >= 34) && flac[at] >= 128 && now is None
                ==> metadata(flac, at, told) is None
        }),
{
}

/// Frames follow each other: what a frame holds goes behind what the frames before
/// held, channel by channel, and the next frame begins where it ends. A frame that
/// cannot be decoded, or that does not end inside the stream, makes it corrupt.
pub proof fn lemma_frames_follow(
    data: Seq<u8>,
    at: int,
    channels: u32,
    bits: u32,
    planes: Seq<Seq<i32>>,
)
    requires
        0 <= at < data.len() - 16,
        !too_wide(data.skip(at), channels, bits),
    ensures
        match flac_frame(channels, bits, data.skip(at)) {
            None => frames_from(data, at, channels, bits, planes) == Err::<Seq<Seq<i32>>, Error>(
                Error::Corrupt,
            ),
            Some((frame, used)) => {
                let more = Seq::new(planes.len(), |c: int| planes[c] + frame[c]);
                &&& used == 0 || at + used > data.len() - 16 ==> frames_from(
                    data,
                    at,
                    channels,
                    bits,
                    planes,
                ) == Err::<Seq<Seq<i32>>, Error>(Error::Corrupt)
                &&& 0 < used && at + used < data.len() - 16 ==> frames_from(
                    data,
                    at,
                    channels,
                    bits,
                    planes,
                ) == frames_from(data, at + used, channels, bits, more)
                &&& 0 < used && at + used == data.len() - 16 ==> frames_from(
                    data,
                    at,
                    channels,
                    bits,
                    planes,
                ) == Ok::<Seq<Seq<i32>>, Error>(more)
            },
        },
{
    reveal_with_fuel(frames_from, 2);
    if let Some((frame, used)) = flac_frame(channels, bits, data.skip(at)) {
        assert(with_frame(planes, frame) =~= Seq::new(
            planes.len(),
            |c: int| planes[c] + frame[c],
        ));
    }
}

} // verus!
