//! Sample-format conversion with fixed rules, those of ffmpeg's `swresample`.
//!
//! | from, to | rule |
//! |---|---|
//! | I16 to I32 / I24In32 | `x << 16` |
//! | I32 / I24In32 to I16 | `x >> 16` (truncate toward minus infinity) |
//! | I32 to I24In32 | clear the low 8 bits |
//! | I24In32 to I32 | bit copy |
//! | I16 to F32 | `x / 32768` |
//! | I32 / I24In32 to F32 | `x / 2^31` |
//! | F32 to I16 | `round_ties_even(x * 32768)` clamped to the i16 range |
//! | F32 to I32 | `round_ties_even(x * 2^31)` clamped to the i32 range |
//! | F32 to I24In32 | as I32, then clear the low 8 bits |

use rusty_esp_core::pcm::{
    PcmBlock as CoreBlock, PcmFormat as CoreFormat, SampleFormat as CoreSample,
};
use rusty_esp_core::time::Micros as CoreMicros;
use vstd::arithmetic::div_mod::{lemma_fundamental_div_mod, lemma_fundamental_div_mod_converse};
use vstd::prelude::*;

use crate::bytes::{overwritten, sample_in};
use crate::elements::{room_for, sized, wrote};
use crate::esp_core::error::{Error, Result};
use crate::esp_core::pcm::{BlockView, PcmBlock, SampleFormat};

verus! {

/// The bytes of a sample after a conversion from or to floating point.
pub uninterp spec fn float_sample(from: SampleFormat, to: SampleFormat, sample: Seq<u8>) -> Seq<u8>;

/// The bytes of a sample of `from` as a sample of `to`. Little-endian, a shift
/// by sixteen bits moves whole bytes.
pub open spec fn sample_as(from: SampleFormat, to: SampleFormat, sample: Seq<u8>) -> Seq<u8> {
    if from == to {
        sample
    } else {
        match (from, to) {
            (SampleFormat::I16, SampleFormat::I32) => seq![0u8, 0u8, sample[0], sample[1]],
            (SampleFormat::I16, SampleFormat::I24In32) => seq![0u8, 0u8, sample[0], sample[1]],
            (SampleFormat::I32, SampleFormat::I16) => seq![sample[2], sample[3]],
            (SampleFormat::I24In32, SampleFormat::I16) => seq![sample[2], sample[3]],
            (SampleFormat::I32, SampleFormat::I24In32) => seq![
                0u8,
                sample[1],
                sample[2],
                sample[3],
            ],
            (SampleFormat::I24In32, SampleFormat::I32) => sample,
            _ => float_sample(from, to, sample),
        }
    }
}

/// Sample `k` of a byte stream whose samples are `width` bytes wide.
pub open spec fn sample_bytes(data: Seq<u8>, width: nat, k: int) -> Seq<u8> {
    data.subrange(k * width, k * width + width)
}

/// Bytes that the samples in `len` bytes of `from` take as `to`.
pub open spec fn converted_len(from: SampleFormat, to: SampleFormat, len: nat) -> nat {
    len / from.width() * to.width()
}

/// Every sample of `data` re-encoded.
pub open spec fn converted(from: SampleFormat, to: SampleFormat, data: Seq<u8>) -> Seq<u8> {
    Seq::new(
        converted_len(from, to, data.len()),
        |i: int|
            sample_as(from, to, sample_bytes(data, from.width(), i / to.width() as int))[i
                % to.width() as int],
    )
}

/// `rusty_esp_dsp::sample::pcm::convert` on a mono block: every sample is
/// re-encoded by the rule of its pair of formats, the rest of the buffer is
/// left alone, and the bytes written are counted. A 16-bit sample survives the
/// trip to floating point and back.
///
/// The buffer must hold the result. A copy takes whole samples; otherwise bytes
/// behind the last whole sample are passed over.
#[verifier::external_body]
fn convert_samples(from: SampleFormat, to: SampleFormat, data: &[u8], out: &mut [u8]) -> (r: Option<
    usize,
>)
    requires
        from == to ==> data@.len() % from.width() == 0,
        converted_len(from, to, data@.len()) <= old(out)@.len(),
    ensures
        r == Some(converted_len(from, to, data@.len()) as usize),
        final(out)@ == overwritten(old(out)@, converted(from, to, data@)),
        from == SampleFormat::I16 && to == SampleFormat::F32 ==> forall|k: int|
            0 <= k < data@.len() / 2 ==> float_sample(
                to,
                from,
                #[trigger] sample_bytes(final(out)@, 4, k),
            ) == sample_bytes(data@, 2, k),
{
    let sample = match from {
        SampleFormat::I16 => CoreSample::I16,
        SampleFormat::I24In32 => CoreSample::I24In32,
        SampleFormat::I32 => CoreSample::I32,
        SampleFormat::F32 => CoreSample::F32,
    };
    let target = match to {
        SampleFormat::I16 => CoreSample::I16,
        SampleFormat::I24In32 => CoreSample::I24In32,
        SampleFormat::I32 => CoreSample::I32,
        SampleFormat::F32 => CoreSample::F32,
    };
    let format = CoreFormat { sample_rate_hz: 1, channels: 1, sample };
    let block = CoreBlock { format, timestamp: CoreMicros(0), data };
    rusty_esp_dsp::sample::pcm::convert(block, target, out).ok()
}

/// Conversion to the same format changes nothing.
pub proof fn lemma_same_format_copies(format: SampleFormat, data: Seq<u8>)
    requires
        data.len() % format.width() == 0,
    ensures
        converted(format, format, data) == data,
{
    let w = format.width() as int;
    assert(converted_len(format, format, data.len()) == data.len());
    assert forall|i: int| 0 <= i < data.len() implies converted(format, format, data)[i]
        == data[i] by {
        lemma_within(i, w, data.len() as int);
    }
    assert(converted(format, format, data) =~= data);
}

/// A byte of a stream lies in the sample that its offset says, and all of that
/// sample lies in the stream.
proof fn lemma_within(i: int, width: int, len: int)
    requires
        width == 2 || width == 4,
        0 <= i < len,
        len % width == 0,
    ensures
        i == i / width * width + i % width,
        0 <= i / width,
        i / width * width + width <= len,
{
}

/// 16-bit samples survive the trip to a wider integer format and back.
pub proof fn lemma_widening_is_lossless(wide: SampleFormat, data: Seq<u8>)
    requires
        wide == SampleFormat::I32 || wide == SampleFormat::I24In32,
        data.len() % 2 == 0,
    ensures
        converted(wide, SampleFormat::I16, converted(SampleFormat::I16, wide, data)) == data,
{
    let up = converted(SampleFormat::I16, wide, data);
    let back = converted(wide, SampleFormat::I16, up);
    assert(wide.width() == 4 && SampleFormat::I16.width() == 2);
    assert(up.len() == data.len() / 2 * 4);
    assert(back.len() == up.len() / 4 * 2);
    assert forall|i: int| 0 <= i < data.len() implies back[i] == data[i] by {
        let k = i / 2;
        let b = i % 2;
        lemma_within(i, 2, data.len() as int);
        assert(sample_bytes(up, 4, k)[2 + b] == up[4 * k + 2 + b]);
        assert((4 * k + 2 + b) / 4 == k && (4 * k + 2 + b) % 4 == 2 + b);
        assert(up[4 * k + 2 + b] == sample_bytes(data, 2, k)[b]);
    }
    assert(back =~= data);
}

/// 24-bit samples survive the trip through 32 bits, if their low byte is clear.
pub proof fn lemma_24_bits_in_32(data: Seq<u8>)
    requires
        data.len() % 4 == 0,
        forall|i: int| 0 <= i < data.len() && i % 4 == 0 ==> data[i] == 0,
    ensures
        converted(
            SampleFormat::I32,
            SampleFormat::I24In32,
            converted(SampleFormat::I24In32, SampleFormat::I32, data),
        ) == data,
{
    let up = converted(SampleFormat::I24In32, SampleFormat::I32, data);
    assert forall|i: int| 0 <= i < data.len() implies up[i] == data[i] by {
        lemma_within(i, 4, data.len() as int);
    }
    assert(up =~= data);
    let back = converted(SampleFormat::I32, SampleFormat::I24In32, up);
    assert forall|i: int| 0 <= i < data.len() implies back[i] == data[i] by {
        lemma_within(i, 4, data.len() as int);
        let k = i / 4;
        assert(sample_bytes(up, 4, k)[i % 4] == up[i]);
    }
    assert(back =~= data);
}

/// Bytes [`convert`] writes for `input_bytes` of `from` samples going to `to`.
pub fn output_bytes(from: SampleFormat, to: SampleFormat, input_bytes: usize) -> (r: usize)
    requires
        converted_len(from, to, input_bytes as nat) <= usize::MAX,
    ensures
        r == converted_len(from, to, input_bytes as nat),
{
    input_bytes / from.bytes() * to.bytes()
}

/// Bytes `convert` writes, or the largest size there is where they are more.
pub fn output_bytes_bounded(from: SampleFormat, to: SampleFormat, input_bytes: usize) -> (r: usize)
    ensures
        r == sized(converted_len(from, to, input_bytes as nat)),
{
    let samples: usize = input_bytes / from.bytes();
    proof {
        lemma_fits(samples as int, to.width() as int, usize::MAX as int);
    }
    if samples > usize::MAX / to.bytes() {
        usize::MAX
    } else {
        samples * to.bytes()
    }
}

/// What [`convert`] writes for `input` into a buffer of `room` bytes.
pub open spec fn conversion(input: BlockView, to: SampleFormat, room: nat) -> Result<Seq<u8>> {
    let from = input.format.sample;
    match room_for(room, converted_len(from, to, input.data.len())) {
        Err(e) => Err(e),
        Ok(_) => Ok(converted(from, to, input.data)),
    }
}

/// Re-encode every sample of `input` as `to` into `out`; returns bytes
/// written. Same-format input is a byte copy, and 16-bit samples that went to
/// floating point come back unchanged.
pub fn convert(input: PcmBlock<'_>, to: SampleFormat, out: &mut [u8]) -> (r: Result<usize>)
    requires
        input@.format.sample == to ==> input@.data.len() % to.width() == 0,
    ensures
        wrote(conversion(input@, to, old(out)@.len()), old(out)@, r, final(out)@),
        input@.format.sample == SampleFormat::I16 && to == SampleFormat::F32 && input@.data.len()
            % 2 == 0 ==> (r matches Ok(n) ==> converted(
            to,
            SampleFormat::I16,
            final(out)@.take(n as int),
        ) == input@.data),
{
    let from: SampleFormat = input.format.sample;
    let needed: usize = output_bytes_bounded(from, to, input.data.len());
    let fits: bool = input.data.len() / from.bytes() <= out.len() / to.bytes();
    proof {
        lemma_fits(
            (input.data@.len() / from.width()) as int,
            to.width() as int,
            out@.len() as int,
        );
    }
    if !fits {
        return Err(Error::BufferTooSmall { needed });
    }
    match convert_samples(from, to, input.data, out) {
        Some(n) => {
            proof {
                if from == SampleFormat::I16 && to == SampleFormat::F32 && input.data@.len() % 2 == 0 {
                    assert(n == input.data@.len() / 2 * 4);
                    lemma_float_returns(input.data@, out@);
                }
            }
            Ok(n)
        },
        None => Err(Error::Unsupported),
    }
}

/// So many samples of `width` bytes fit into a buffer that has room for as many.
proof fn lemma_fits(samples: int, width: int, room: int)
    requires
        width == 2 || width == 4,
        samples >= 0,
        room >= 0,
    ensures
        samples <= room / width <==> samples * width <= room,
{
}

/// Samples whose floating-point forms come back one by one come back together.
proof fn lemma_float_returns(data: Seq<u8>, out: Seq<u8>)
    requires
        data.len() % 2 == 0,
        2 * data.len() <= out.len(),
        forall|k: int|
            0 <= k < data.len() / 2 ==> float_sample(
                SampleFormat::F32,
                SampleFormat::I16,
                #[trigger] sample_bytes(out, 4, k),
            ) == sample_bytes(data, 2, k),
    ensures
        converted(SampleFormat::F32, SampleFormat::I16, out.take(2 * data.len() as int)) == data,
{
    let front = out.take(2 * data.len() as int);
    let back = converted(SampleFormat::F32, SampleFormat::I16, front);
    let half = data.len() / 2;
    assert(front.len() == 4 * half && front.len() / 4 == half);
    assert(back.len() == front.len() / 4 * 2) by {
        assert(SampleFormat::F32.width() == 4 && SampleFormat::I16.width() == 2);
    }
    assert(back.len() == data.len());
    assert forall|i: int| 0 <= i < data.len() implies back[i] == data[i] by {
        let k = i / 2;
        lemma_within(i, 2, data.len() as int);
        assert(sample_bytes(front, 4, k) =~= sample_bytes(out, 4, k));
        assert(sample_bytes(data, 2, k)[i % 2] == data[i]);
    }
    assert(back =~= data);
}

/// The number in the four bytes of a sample, the lowest first.
pub open spec fn word(sample: Seq<u8>) -> int {
    let u = sample[0] + 256 * sample[1] + 65536 * sample[2] + 16777216 * sample[3];
    if u < 2147483648 {
        u
    } else {
        u - 4294967296
    }
}

/// What conversion between the integer formats makes of every sample. A 16-bit
/// sample becomes `2^16` times its number; back to 16 bits the number is divided
/// by `2^16` and rounded down; to 24 bits the number loses what is left over of a
/// multiple of 256; and from 24 to 32 bits it stays.
pub proof fn lemma_integer_conversions(from: SampleFormat, to: SampleFormat, data: Seq<u8>, k: int)
    requires
        from != SampleFormat::F32,
        to != SampleFormat::F32,
        0 <= k < data.len() / from.width(),
    ensures
        ({
            let out = converted(from, to, data);
            let x = if from == SampleFormat::I16 {
                65536 * sample_in(data, k)
            } else {
                word(data.skip(4 * k))
            };
            &&& out.len() == data.len() / from.width() * to.width()
            &&& to == SampleFormat::I16 ==> 0 <= x - 65536 * sample_in(out, k) < 65536
            &&& to == SampleFormat::I32 ==> word(out.skip(4 * k)) == x
            &&& to == SampleFormat::I24In32 && from == SampleFormat::I32 ==> {
                &&& 0 <= x - word(out.skip(4 * k)) < 256
                &&& word(out.skip(4 * k)) % 256 == 0
            }
            &&& to == SampleFormat::I24In32 && from != SampleFormat::I32 ==> word(out.skip(4 * k))
                == x
        }),
{
    let out = converted(from, to, data);
    let (w, t) = (from.width() as int, to.width() as int);
    let count = data.len() as int / w;
    assert(w == 2 || w == 4);
    assert(t == 2 || t == 4);
    assert(count * w <= data.len());
    let sample = sample_bytes(data, from.width(), k);
    assert((k + 1) * w <= count * w && (k + 1) * t <= count * t && k * w >= 0 && k * t >= 0)
        by (nonlinear_arith)
        requires
            0 <= k < count,
            w > 0,
            t > 0,
    ;
    assert((k + 1) * w == k * w + w && (k + 1) * t == k * t + t) by (nonlinear_arith);
    assert(k * 2 == 2 * k && k * 4 == 4 * k);
    let image = sample_as(from, to, sample);
    assert forall|j: int| 0 <= j < t implies #[trigger] out[k * t + j] == image[j] by {
        lemma_fundamental_div_mod_converse(k * t + j, t, k, j);
    }
    assert(out[k * t] == image[0] && out[k * t + 1] == image[1]) by {
        assert(out[k * t + 0] == image[0]);
    }
    if t == 4 {
        assert(out[k * t + 2] == image[2] && out[k * t + 3] == image[3]);
    }
    if from == SampleFormat::I16 {
        assert(sample[0] == data[2 * k] && sample[1] == data[2 * k + 1]);
    } else {
        let at = data.skip(4 * k);
        assert(sample[0] == at[0] && sample[1] == at[1] && sample[2] == at[2] && sample[3] == at[3]);
    }
}

/// Room and length: the samples keep their number, each two or four bytes wide,
/// and only a buffer without room for them is refused.
pub proof fn lemma_conversion_lengths(input: BlockView, to: SampleFormat, room: nat)
    requires
        room <= usize::MAX,
    ensures
        ({
            let old_width = if input.format.sample == SampleFormat::I16 {
                2int
            } else {
                4
            };
            let new_width = if to == SampleFormat::I16 {
                2int
            } else {
                4
            };
            let needed = input.data.len() as int / old_width * new_width;
            let r = conversion(input, to, room);
            &&& r is Ok <==> room >= needed
            &&& r is Ok ==> r->Ok_0.len() == needed
            &&& room < needed <= usize::MAX ==> r == Err::<Seq<u8>, Error>(
                Error::BufferTooSmall { needed: needed as usize },
            )
        }),
{
}

/// Floating point is reached and left sample by sample: what a sample becomes
/// depends on its own bytes alone, wherever it stands.
pub proof fn lemma_conversion_sample_by_sample(
    from: SampleFormat,
    to: SampleFormat,
    a: Seq<u8>,
    b: Seq<u8>,
)
    requires
        a.len() % from.width() == 0,
    ensures
        converted(from, to, a + b) == converted(from, to, a) + converted(from, to, b),
{
    let (w, t) = (from.width() as int, to.width() as int);
    let n = a.len() as int / w;
    let m = b.len() as int / w;
    let whole = converted(from, to, a + b);
    let parts = converted(from, to, a) + converted(from, to, b);
    lemma_fundamental_div_mod(a.len() as int, w);
    lemma_fundamental_div_mod(b.len() as int, w);
    assert(a.len() + b.len() == (n + m) * w + b.len() as int % w && n * w == a.len() && m * w
        <= b.len() && (n + m) * t == n * t + m * t && n >= 0 && m >= 0) by (nonlinear_arith)
        requires
            a.len() == w * n,
            b.len() == w * m + b.len() as int % w,
            0 <= b.len() as int % w < w,
            w > 0,
    ;
    lemma_fundamental_div_mod_converse(
        (a.len() + b.len()) as int,
        w,
        n + m,
        b.len() as int % w,
    );
    assert forall|i: int| 0 <= i < whole.len() implies whole[i] == parts[i] by {
        let k = i / t;
        let rest = i % t;
        lemma_fundamental_div_mod(i, t);
        assert(0 <= k < n + m && (i < n * t ==> k < n) && (i >= n * t ==> k >= n) && i - n * t == (k
            - n) * t + rest) by (nonlinear_arith)
            requires
                i == t * k + rest,
                0 <= rest < t,
                0 <= i < (n + m) * t,
        ;
        assert(k * w == n * w + (k - n) * w && k * w >= 0) by (nonlinear_arith)
            requires
                k >= 0,
                w > 0,
        ;
        if i < n * t {
            assert(k * w + w <= n * w) by (nonlinear_arith)
                requires
                    k < n,
                    w > 0,
            ;
            assert(sample_bytes(a + b, w as nat, k) =~= sample_bytes(a, w as nat, k));
        } else {
            lemma_fundamental_div_mod_converse(i - n * t, t, k - n, rest);
            assert((k - n) * w >= 0 && (k - n) * w + w <= m * w) by (nonlinear_arith)
                requires
                    n <= k < n + m,
                    w > 0,
            ;
            assert(sample_bytes(a + b, w as nat, k) =~= sample_bytes(b, w as nat, k - n));
        }
    }
    assert(whole =~= parts);
}

} // verus!
