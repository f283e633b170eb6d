//! `Gain`: fixed-point Q15 gain with rounding and saturation.

use vstd::prelude::*;

use super::{
    i16_only, lemma_whole_samples, require_i16_any, require_room, room_for, wrote,
};
use crate::bytes::{
    clamp16, copy_front, decode16, encode16, get_sample, lemma_encode_decode, lemma_overwritten16,
    overwritten, put_sample, sample_in,
};
use crate::esp_core::error::{Error, Result};
use crate::esp_core::pcm::{as_i16, as_i16_mut, BlockView, PcmBlock, PcmFormat, SampleFormat};
use crate::pipeline::{act_alike, keeps_its_bound, Element};

verus! {

/// The largest factor a [`Gain`] holds; the smallest is its negative.
pub const MAX_Q15: i32 = 33_554_432;

/// One sample under the Q15 factor `q15`: `(x * q15 + 2^14) / 2^15`, rounded
/// down, then saturated.
pub open spec fn scaled(q15: i32, x: i16) -> i16 {
    clamp16((x * q15 + 16384) / 32768)
}

/// Multiply every sample by a fixed gain.
///
/// The gain is a Q15 integer, so `y = (x * g + 2^14) >> 15` (round half up)
/// then saturate. Unity is `32768` and is byte-identical passthrough.
#[derive(Debug, Clone, Copy, PartialEq, Eq, Structural)]
pub struct Gain {
    /// The Q15 factor.
    pub q15: i32,
}

impl Gain {
    /// Unity gain.
    pub fn unity() -> (r: Gain)
        ensures
            r.q15 == 32768,
    {
        Gain { q15: 32768 }
    }

    /// A gain from a raw Q15 factor, clamped to the representable range.
    pub fn from_q15(q15: i32) -> (r: Self)
        ensures
            r.q15 == (if q15 > MAX_Q15 {
                MAX_Q15 as int
            } else if q15 < -MAX_Q15 {
                -MAX_Q15
            } else {
                q15 as int
            }),
    {
        Gain {
            q15: if q15 > MAX_Q15 {
                MAX_Q15
            } else if q15 < -MAX_Q15 {
                -MAX_Q15
            } else {
                q15
            },
        }
    }

    /// The Q15 factor in use.
    pub fn q15(&self) -> (r: i32)
        ensures
            r == self.q15,
    {
        self.q15
    }

    /// Apply this gain to one sample.
    pub fn apply(&self, x: i16) -> (r: i16)
        ensures
            r == scaled(self.q15, x),
    {
        scale_wide(x, self.q15)
    }

    /// What the element writes for `input` into a buffer of `room` bytes.
    pub open spec fn emits(self, input: BlockView, room: nat) -> Result<Seq<u8>> {
        match i16_only(input.format) {
            Err(e) => Err(e),
            Ok(_) => match room_for(room, input.data.len()) {
                Err(e) => Err(e),
                Ok(_) => Ok(encode16(scaled_all(self.q15, decode16(input.data)))),
            },
        }
    }
}

/// Every sample under the Q15 factor `q15`.
pub open spec fn scaled_all(q15: i32, samples: Seq<i16>) -> Seq<i16> {
    samples.map_values(|x: i16| scaled(q15, x))
}

/// At unity every sample comes out as it went in.
pub proof fn lemma_unity_keeps_every_sample(samples: Seq<i16>)
    ensures
        scaled_all(32768, samples) == samples,
{
    assert forall|i: int| 0 <= i < samples.len() implies scaled_all(32768, samples)[i]
        == samples[i] by {
        let x = samples[i];
        assert((x * 32768 + 16384) / 32768 == x);
    }
    assert(scaled_all(32768, samples) =~= samples);
}

/// One sample, where the product may need 64 bits.
fn scale_wide(x: i16, g: i32) -> (r: i16)
    ensures
        r == scaled(g, x),
{
    assert(-70368744177664 <= x * g <= 70368744177664) by (nonlinear_arith)
        requires
            -32768 <= x <= 32767,
            -2147483648 <= g <= 2147483647,
    ;
    let v: i64 = x as i64 * g as i64 + 16384;
    assert(v >> 15 == v / 32768) by (bit_vector);
    let y: i64 = v >> 15;
    if y > 32767 {
        32767
    } else if y < -32768 {
        -32768
    } else {
        y as i16
    }
}

/// One sample under a factor whose products fit 32 bits.
fn scale_narrow(x: i16, g: i32) -> (r: i16)
    requires
        -65536 < g < 65536,
    ensures
        r == scaled(g, x),
{
    assert(-2147450880 <= x * g <= 2147450880) by (nonlinear_arith)
        requires
            -32768 <= x <= 32767,
            -65536 < g < 65536,
    ;
    let v: i32 = x as i32 * g + 16384;
    assert(v >> 15 == v / 32768) by (bit_vector);
    let y: i32 = v >> 15;
    if y > 32767 {
        32767
    } else if y < -32768 {
        -32768
    } else {
        y as i16
    }
}

/// `(x * g + 2^14) >> 15` over samples, for the factors whose products fit 32
/// bits.
pub fn gain_narrow(src: &[i16], g: i32, dst: &mut [i16])
    requires
        -65536 < g < 65536,
        src@.len() == old(dst)@.len(),
    ensures
        final(dst)@ == scaled_all(g, src@),
{
    let mut i: usize = 0;
    while i < src.len()
        invariant
            -65536 < g < 65536,
            i <= src@.len(),
            src@.len() == dst@.len(),
            forall|j: int| 0 <= j < i ==> dst@[j] == scaled(g, src@[j]),
        decreases src@.len() - i,
    {
        dst[i] = scale_narrow(src[i], g);
        i += 1;
    }
    assert(dst@ =~= scaled_all(g, src@));
}

/// The same over the factors whose products do not fit 32 bits.
pub fn gain_wide(src: &[i16], g: i32, dst: &mut [i16])
    requires
        src@.len() == old(dst)@.len(),
    ensures
        final(dst)@ == scaled_all(g, src@),
{
    let mut i: usize = 0;
    while i < src.len()
        invariant
            i <= src@.len(),
            src@.len() == dst@.len(),
            forall|j: int| 0 <= j < i ==> dst@[j] == scaled(g, src@[j]),
        decreases src@.len() - i,
    {
        dst[i] = scale_wide(src[i], g);
        i += 1;
    }
    assert(dst@ =~= scaled_all(g, src@));
}

/// The byte path: the same over samples that cannot be viewed in place.
fn gain_bytes(src: &[u8], g: i32, out: &mut [u8])
    requires
        src@.len() % 2 == 0,
        src@.len() <= old(out)@.len(),
    ensures
        final(out)@ == overwritten(old(out)@, encode16(scaled_all(g, decode16(src@)))),
{
    let ghost before = out@;
    let ghost samples = scaled_all(g, decode16(src@));
    let n: usize = src.len() / 2;
    let mut i: usize = 0;
    while i < n
        invariant
            2 * n == src@.len(),
            i <= n,
            2 * n <= out@.len() == before.len(),
            samples == scaled_all(g, decode16(src@)),
            forall|j: int| 0 <= j < i ==> #[trigger] sample_in(out@, j) == samples[j],
            forall|j: int| 2 * n <= j < out@.len() ==> out@[j] == before[j],
        decreases n - i,
    {
        let x: i16 = get_sample(src, i);
        let y: i16 = if -65536 < g && g < 65536 {
            scale_narrow(x, g)
        } else {
            scale_wide(x, g)
        };
        put_sample(out, i, y);
        i += 1;
    }
    proof {
        lemma_overwritten16(before, out@, samples);
    }
}

impl Element for Gain {
    open spec fn settings(&self) -> Seq<int> {
        seq![self.q15 as int]
    }

    open spec fn format_out(&self, input: PcmFormat) -> Result<PcmFormat> {
        match i16_only(input) {
            Err(e) => Err(e),
            Ok(_) => Ok(input),
        }
    }

    open spec fn room(&self, input: PcmFormat, input_bytes: usize) -> usize {
        input_bytes
    }

    open spec fn memory(&self) -> Seq<int> {
        Seq::empty()
    }

    open spec fn fresh_memory(&self) -> Seq<int> {
        Seq::empty()
    }

    open spec fn step(
        &self,
        input: BlockView,
        before: Seq<u8>,
        r: Result<usize>,
        after: Seq<u8>,
        memory: Seq<int>,
    ) -> bool {
        wrote(self.emits(input, before.len()), before, r, after)
    }

    fn output_format(&self, input: PcmFormat) -> (r: Result<PcmFormat>) {
        require_i16_any(input)?;
        Ok(input)
    }

    fn max_output_bytes(&self, _input: PcmFormat, input_bytes: usize) -> (r: usize) {
        input_bytes
    }

    fn process(&mut self, input: PcmBlock<'_>, out: &mut [u8]) -> (r: Result<usize>)
        ensures
            *final(self) == *old(self),
    {
        require_i16_any(input.format)?;
        require_room(out, input.data.len())?;
        let n: usize = input.data.len();
        let g: i32 = self.q15;
        let ghost before = out@;
        proof {
            lemma_whole_samples(input.format, input.data@.len());
            lemma_encode_decode(input.data@);
        }
        if g == 32768 {
            proof {
                lemma_unity_keeps_every_sample(decode16(input.data@));
            }
            copy_front(out, input.data);
            return Ok(n);
        }
        match as_i16(input.data) {
            Some(src) => {
                let (front, rest) = out.split_at_mut(n);
                match as_i16_mut(front) {
                    Some(dst) => {
                        if -65536 < g && g < 65536 {
                            gain_narrow(src, g, dst);
                        } else {
                            gain_wide(src, g, dst);
                        }
                        return Ok(n);
                    },
                    None => {},
                }
            },
            None => {},
        }
        assert(out@ =~= before);
        gain_bytes(input.data, g, out);
        Ok(n)
    }

    fn reset(&mut self)
        ensures
            *final(self) == *old(self),
    {
    }
}

/// No block comes out larger than it went in.
pub proof fn lemma_gain_keeps_its_bound(gain: Gain)
    ensures
        keeps_its_bound(&gain),
{
}

/// What the element does with a block is settled by its settings and memory.
pub proof fn lemma_gain_acts_by_its_settings(a: Gain, b: Gain)
    requires
        a.settings() == b.settings(),
        a.memory() == b.memory(),
    ensures
        act_alike(&a, &b),
{
    assert(a.settings()[0] == a.q15 && b.settings()[0] == b.q15);
    assert(a == b);
}

/// A gain gives the nearest whole number to the sample times the factor in units
/// of `2^-15`, the upper one of two equally near; beyond 16 bits it gives the
/// bound that is exceeded. So it is for every factor and every sample.
pub proof fn lemma_gain_rounds_to_the_nearest(q15: i32, x: i16)
    ensures
        ({
            let y = scaled(q15, x);
            let off = x * q15 - 32768 * y;
            &&& -16384 <= off < 16384 || y == 32767 && off >= 16384 || y == -32768 && off < -16384
        }),
{
    let v = x * q15 + 16384;
    assert(v == 32768 * (v / 32768) + v % 32768);
}

/// The factors run to 1024 times unity, upwards and downwards.
pub proof fn lemma_largest_factor()
    ensures
        MAX_Q15 == 1024 * 32768,
{
}

/// What a gain does with a block, sample by sample: every sample is the nearest
/// to what went in times the factor, saturated, in its own place; what lies
/// behind them in the buffer stays. Only a format without 16-bit samples and a
/// buffer shorter than the block are refused, and then nothing is written.
pub proof fn lemma_gain_block(
    gain: Gain,
    input: BlockView,
    before: Seq<u8>,
    r: Result<usize>,
    after: Seq<u8>,
    memory: Seq<int>,
)
    requires
        input.well_formed(),
        input.data.len() <= usize::MAX,
        gain.step(input, before, r, after, memory),
    ensures
        input.format.sample != SampleFormat::I16 ==> r == Err::<usize, Error>(Error::Unsupported),
        input.format.sample == SampleFormat::I16 && before.len() < input.data.len() ==> r == Err::<
            usize,
            Error,
        >(Error::BufferTooSmall { needed: input.data.len() as usize }),
        input.format.sample == SampleFormat::I16 && before.len() >= input.data.len() ==> r == Ok::<
            usize,
            Error,
        >(input.data.len() as usize),
        r is Err ==> after == before,
        r is Ok ==> after.len() == before.len(),
        r is Ok ==> forall|i: int|
            0 <= i && 2 * i + 1 < input.data.len() ==> {
                let y = #[trigger] sample_in(after, i);
                let off = sample_in(input.data, i) * gain.q15 - 32768 * y;
                -16384 <= off < 16384 || y == 32767 && off >= 16384 || y == -32768 && off < -16384
            },
        r is Ok ==> forall|i: int|
            input.data.len() <= i < before.len() ==> #[trigger] after[i] == before[i],
{
    if r is Ok {
        let samples = decode16(input.data);
        let out = scaled_all(gain.q15, samples);
        lemma_whole_samples(input.format, input.data.len());
        crate::bytes::lemma_samples_of_the_front(before, out);
        assert forall|i: int| 0 <= i && 2 * i + 1 < input.data.len() implies {
            let y = #[trigger] sample_in(after, i);
            let off = sample_in(input.data, i) * gain.q15 - 32768 * y;
            -16384 <= off < 16384 || y == 32767 && off >= 16384 || y == -32768 && off < -16384
        } by {
            lemma_gain_rounds_to_the_nearest(gain.q15, samples[i]);
            assert(sample_in(after, i) == out[i]);
        }
    }
}

} // verus!
