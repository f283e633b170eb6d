//! Calls on samples in bytes, formats and sizes.

use vstd::prelude::*;

use crate::bench::hex_lines;
use crate::bytes::{get_i16_at, put_i16_at, push_sample, sat16};
use crate::codec::adpcm_ima::{
    block_align, frames_per_block, ChannelState, Decoder, Encoder, PredictionRule,
};
use crate::codec::pcm::output_bytes;
use crate::elements::resample::{gcd, LinearResampler, ResamplerView};
use crate::elements::{require_i16, require_i16_any, require_room};
use crate::esp_core::error::{Error, Result};
use crate::esp_core::pcm::{PcmBlock, PcmFormat, SampleFormat};
use crate::esp_core::time::Micros;
use crate::pipeline::{
    explains, format_at, lemma_block_out, reported, Call, Element, Pipeline,
};
use crate::ring::RingBuffer;

verus! {

/// Every call that reads or writes a sample in bytes: the low byte first, and in all
/// the sample's value modulo `2^16`; and no other byte changes.
pub proof fn law_samples_in_bytes(b: &[u8], at: usize, v: i16, x: i32)
    requires
        at + 2 <= b@.len(),
    ensures
        call_ensures(get_i16_at, (b, at), v) ==> (v - b@[at as int] - 256 * b@[at + 1]) % 65536 == 0,
        forall|out: &mut [u8]| #[trigger]
            call_ensures(put_i16_at, (out, at, v), ()) && at + 2 <= out@.len() ==> {
                &&& final(out)@.len() == out@.len()
                &&& (v - final(out)@[at as int] - 256 * final(out)@[at + 1]) % 65536 == 0
                &&& forall|i: int|
                    0 <= i < out@.len() && i != at && i != at + 1 ==> #[trigger] final(out)@[i]
                        == out@[i]
            },
        forall|out: &mut Vec<u8>| #[trigger]
            call_ensures(push_sample, (out, v), ()) ==> {
                let n = out@.len() as int;
                &&& final(out)@.len() == n + 2
                &&& final(out)@.take(n) == out@
                &&& (v - final(out)@[n] - 256 * final(out)@[n + 1]) % 65536 == 0
            },
        call_ensures(sat16, (x,), v) ==> v == (if x > 32767 {
            32767int
        } else if x < -32768 {
            -32768
        } else {
            x as int
        }),
{
    assert forall|out: &mut Vec<u8>| #[trigger]
        call_ensures(push_sample, (out, v), ()) implies {
        let n = out@.len() as int;
        &&& final(out)@.len() == n + 2
        &&& final(out)@.take(n) == out@
        &&& (v - final(out)@[n] - 256 * final(out)@[n + 1]) % 65536 == 0
    } by {
        assert(final(out)@.take(out@.len() as int) =~= out@);
    }
}

/// Every call that refuses a format or a buffer.
pub proof fn law_requirements(format: PcmFormat, out: &[u8], needed: usize, r: Result<()>)
    ensures
        call_ensures(require_i16, (format,), r) ==> r == (if format.sample == SampleFormat::I16
            && format.channels <= 2 {
            Ok::<(), Error>(())
        } else {
            Err(Error::Unsupported)
        }),
        call_ensures(require_i16_any, (format,), r) ==> r == (if format.sample
            == SampleFormat::I16 {
            Ok::<(), Error>(())
        } else {
            Err(Error::Unsupported)
        }),
        call_ensures(require_room, (out, needed), r) ==> r == (if out@.len() >= needed {
            Ok::<(), Error>(())
        } else {
            Err(Error::BufferTooSmall { needed })
        }),
{
}

/// Every call that makes a format or a block: only a rate and channels, and whole
/// frames, are asked for.
pub proof fn law_formats(
    rate: u32,
    channels: u8,
    sample: SampleFormat,
    f: Result<PcmFormat>,
    format: PcmFormat,
    data: &[u8],
    timestamp: Micros,
    micros: u64,
    n: usize,
)
    requires
        format.channels > 0,
    ensures
        call_ensures(PcmFormat::new, (rate, channels, sample), f) ==> f == (if rate > 0 && channels
            > 0 {
            Ok::<PcmFormat, Error>(PcmFormat { sample_rate_hz: rate, channels, sample })
        } else {
            Err(Error::InvalidGeometry)
        }),
        forall|b: Result<PcmBlock<'_>>| #[trigger]
            call_ensures(PcmBlock::new, (format, timestamp, data), b) ==> {
                &&& b is Ok <==> data@.len() > 0 && data@.len() as int
                    % format.frame_width() as int == 0
                &&& b is Ok ==> b->Ok_0.format == format && b->Ok_0.timestamp == timestamp
                    && b->Ok_0.data@ == data@
                &&& b is Err ==> b == Err::<PcmBlock<'_>, Error>(Error::InvalidGeometry)
            },
        call_ensures(PcmFormat::bytes_for_micros, (&format, micros), n) && format.sample_rate_hz
            * micros <= u64::MAX && format.sample_rate_hz * micros / 1_000_000 * format.frame_width()
            <= usize::MAX && format.sample_rate_hz * micros / 1_000_000 <= usize::MAX ==> n
            == format.sample_rate_hz * micros / 1_000_000 * format.frame_width(),
{
}

/// Every call that sizes ADPCM blocks: four bytes and half a byte a frame for every
/// channel; a new coder starts at silence with the smallest step.
pub proof fn law_block_sizes(
    channels: u8,
    frames: usize,
    len: usize,
    rule: PredictionRule,
    e: Result<Encoder>,
    d: Result<Decoder>,
)
    ensures
        call_ensures(block_align, (channels, frames), len) && frames >= 1 && (frames - 1) * channels
            <= usize::MAX ==> len == 4 * channels + (frames - 1) * channels / 2,
        call_ensures(frames_per_block, (channels, len), frames) && channels > 0 && len >= 4
            * channels && (len - 4 * channels) * 2 < usize::MAX ==> frames == (len - 4 * channels) * 2
            / channels as int + 1,
        call_ensures(Encoder::with_rule, (channels, frames, rule), e) ==> {
            &&& e is Ok <==> 1 <= channels <= 2 && frames >= 9 && frames % 8 == 1
            &&& e is Ok ==> {
                let x = e->Ok_0;
                &&& x.channels == channels && x.frames_per_block == frames && x.rule == rule
                &&& x.blocks == 0
                &&& x.state@[0] == (ChannelState { predictor: 0, step_index: 0 })
                &&& x.state@[1] == (ChannelState { predictor: 0, step_index: 0 })
            }
        },
        call_ensures(Encoder::new, (channels, frames), e) && e is Ok ==> e->Ok_0.rule
            == PredictionRule::DecoderExact,
        call_ensures(Encoder::ffmpeg_compatible, (channels, frames), e) && e is Ok ==> e->Ok_0.rule
            == PredictionRule::FfmpegEncoder,
        call_ensures(Decoder::new, (channels, frames), d) ==> {
            &&& d is Ok <==> 1 <= channels <= 2 && frames >= 9 && frames % 8 == 1
            &&& d is Ok ==> d->Ok_0.channels == channels && d->Ok_0.frames_per_block == frames
                && d->Ok_0.blocks == 0
        },
{
    crate::codec::adpcm_ima::lemma_sizes_taken(channels as nat, frames as nat);
}

/// Every call of [`gcd`]: it divides both, and what divides both is no larger.
pub proof fn law_gcd(a: u64, b: u64, r: u64, d: nat)
    requires
        a > 0,
        call_ensures(gcd, (a, b), r),
        d > 0,
    ensures
        r > 0,
        a as int % r as int == 0,
        b as int % r as int == 0,
        a as int % d as int == 0 && b as int % d as int == 0 ==> d <= r,
{
    if a as int % d as int == 0 && b as int % d as int == 0 {
        assert(crate::elements::resample::divides(d, a as nat));
        assert(crate::elements::resample::divides(d, b as nat));
    }
}

/// A new resampler, and one that was reset, has heard nothing; between what rates it
/// works stays.
pub proof fn law_resampler_starts(in_rate: u32, out_rate: u32, r: Result<LinearResampler>)
    ensures
        call_ensures(LinearResampler::new, (in_rate, out_rate), r) ==> {
            &&& r is Ok <==> in_rate > 0 && out_rate > 0
            &&& r is Ok ==> r->Ok_0@ == ResamplerView::fresh(in_rate as nat, out_rate as nat)
            &&& r is Err ==> r == Err::<LinearResampler, Error>(Error::InvalidFormat)
        },
        forall|s: &mut LinearResampler| #[trigger]
            call_ensures(<LinearResampler as Element>::reset, (s,), ()) ==> final(s)@
                == ResamplerView::fresh(s@.in_rate, s@.out_rate),
{
}

/// Bytes that samples take in another format: as many samples, two or four bytes
/// each.
pub proof fn law_output_bytes(from: SampleFormat, to: SampleFormat, n: usize, r: usize)
    requires
        call_ensures(output_bytes, (from, to, n), r),
        crate::codec::pcm::converted_len(from, to, n as nat) <= usize::MAX,
    ensures
        r == n as int / (if from == SampleFormat::I16 {
            2int
        } else {
            4
        }) * (if to == SampleFormat::I16 {
            2int
        } else {
            4
        }),
{
}

/// Every call of [`hex_lines`]: line `k` shows the bytes from `64 * k` on, 64 of them
/// but for the last line.
pub proof fn law_hex_lines(bytes: &[u8], lines: Vec<Vec<u8>>, k: int)
    requires
        call_ensures(hex_lines, (bytes,), lines),
        0 <= k < lines@.len(),
    ensures
        ({
            let n = bytes@.len() as int;
            let to = if 64 * k + 64 <= n {
                64 * k + 64
            } else {
                n
            };
            &&& 64 * k < n
            &&& lines@[k]@ == crate::bench::hex(bytes@.subrange(64 * k, to))
            &&& k == lines@.len() - 1 <==> 64 * k + 64 >= n
        }),
{
    crate::net::lemma_datagrams_in_order(bytes@, 64, k);
    assert(k * 64 == 64 * k);
}

/// Every call of [`RingBuffer::clear`] forgets what is stored, and keeps the counts.
pub proof fn law_clear()
    ensures
        forall|q: &mut RingBuffer<'_>| #[trigger]
            call_ensures(RingBuffer::clear, (q,), ()) && q.valid() ==> {
                &&& final(q)@ == Seq::<u8>::empty()
                &&& final(q).valid() && final(q).cap == q.cap
                &&& final(q).dropped_frames == q.dropped_frames
                &&& final(q).high_water_frames == q.high_water_frames
            },
{
}

/// Every call of [`Pipeline::scratch_bytes`]: the first refusal of a stage; or a size
/// of which no block on the way can exceed the half.
pub proof fn law_scratch_bytes<'e, const N: usize>(
    p: Pipeline<'e, N>,
    input: PcmFormat,
    input_bytes: usize,
    r: Result<usize>,
    k: nat,
)
    requires
        call_ensures(Pipeline::<'e, N>::scratch_bytes, (&p, input, input_bytes), r),
        k <= N,
    ensures
        r is Ok <==> crate::pipeline::format_at(p.stages@, input, N as nat) is Ok,
        r is Ok && r->Ok_0 < usize::MAX ==> 2 * crate::pipeline::bound_at(
            p.stages@,
            input,
            input_bytes,
            k,
        ) <= r->Ok_0 && r->Ok_0 >= 2 * input_bytes,
{
    crate::pipeline_laws::lemma_half_is_the_largest_bound(p.stages@, input, input_bytes, N as nat);
    let half = crate::pipeline::largest_bound(p.stages@, input, input_bytes, N as nat);
    assert(crate::pipeline::bound_at(p.stages@, input, input_bytes, k) <= half);
    assert(crate::pipeline::bound_at(p.stages@, input, input_bytes, 0) <= half);
}

/// Every call of [`Pipeline::process`] ran its stages in order, as the laws of a
/// chain say, and counts the block; one of which nothing came counts as empty. A
/// block that comes out has the format the chain gives and the timestamp of the one
/// that went in.
pub proof fn law_pipeline_process<'e, 'b, const N: usize>(
    input: PcmBlock<'_>,
    r: Result<Option<PcmBlock<'b>>>,
)
    requires
        input@.well_formed(),
    ensures
        forall|p: &mut Pipeline<'e, N>, scratch: &'b mut [u8]| #[trigger]
            call_ensures(Pipeline::<'e, N>::process, (p, input, scratch), r) && p.blocks < u64::MAX
                && p.empty_blocks < u64::MAX ==> {
                &&& final(p).blocks == p.blocks + 1
                &&& final(p).empty_blocks == p.empty_blocks + (if r is Ok && r->Ok_0 is None {
                    1int
                } else {
                    0
                })
                &&& exists|calls: Seq<Call>| #[trigger]
                    explains(
                        p.stages@,
                        input@,
                        scratch@,
                        calls,
                        reported(r),
                        final(scratch)@,
                        final(p).stages@,
                    )
                &&& r matches Ok(Some(block)) ==> {
                    &&& block@.timestamp == input@.timestamp
                    &&& format_at(p.stages@, input@.format, N as nat) == Ok::<PcmFormat, Error>(
                        block@.format,
                    )
                }
            },
{
    assert forall|p: &mut Pipeline<'e, N>, scratch: &'b mut [u8]| #[trigger]
        call_ensures(Pipeline::<'e, N>::process, (p, input, scratch), r) && p.blocks < u64::MAX
            && p.empty_blocks < u64::MAX implies {
        &&& final(p).blocks == p.blocks + 1
        &&& final(p).empty_blocks == p.empty_blocks + (if r is Ok && r->Ok_0 is None {
            1int
        } else {
            0
        })
        &&& exists|calls: Seq<Call>| #[trigger]
            explains(
                p.stages@,
                input@,
                scratch@,
                calls,
                reported(r),
                final(scratch)@,
                final(p).stages@,
            )
        &&& r matches Ok(Some(block)) ==> {
            &&& block@.timestamp == input@.timestamp
            &&& format_at(p.stages@, input@.format, N as nat) == Ok::<PcmFormat, Error>(
                block@.format,
            )
        }
    } by {
        let calls = choose|calls: Seq<Call>| #[trigger]
            explains(
                p.stages@,
                input@,
                scratch@,
                calls,
                reported(r),
                final(scratch)@,
                final(p).stages@,
            );
        if let Ok(Some(block)) = r {
            reveal(explains);
            lemma_block_out(p.stages@, input@, scratch@, calls);
        }
    }
}

} // verus!
