//! IMA ADPCM in the WAV (`WAVE_FORMAT_IMA_ADPCM`, tag `0x11`) block layout:
//! 4:1 compression of 16-bit PCM with a 4-byte header per channel per block.
//!
//! - The decoder reconstructs with the IMA reference expansion
//!   `diff = step>>3 + [step if b2] + [step>>1 if b1] + [step>>2 if b0]`.
//! - The encoder quantises with `n = min(7, |delta| * 4 / step)` and, by
//!   default, tracks its prediction with the decoder's rule, so the encoder
//!   never drifts from what players reconstruct. ffmpeg's own encoder instead
//!   predicts with `((2n+1) * step) >> 3`, which is off by a unit or two from
//!   its decoder; [`PredictionRule::FfmpegEncoder`] does the same.
//!
//! Block layout, per block of `frames_per_block` sample frames:
//!
//! ```text
//! for each channel: i16 first sample, u8 step index, u8 reserved (0)
//! then, for every following 8 frames: 4 bytes per channel, channels
//! interleaved by 4-byte word; each byte holds two nibbles, low first.
//! ```
//!
//! `block_align = 4 * ch + (frames_per_block - 1) * ch / 2`; ffmpeg uses a
//! `block_align` of 1024, i.e. 2041 frames per block in mono.

use vstd::arithmetic::div_mod::{lemma_fundamental_div_mod, lemma_fundamental_div_mod_converse};
use vstd::prelude::*;

use crate::bytes::{
    clamp16, decode16, encode16, get_sample, high_byte, le_i16, lemma_overwritten16, low_byte,
    overwritten, put_i16_at, put_sample, sample_in,
};
use crate::elements::{require_room, room_for};
use crate::esp_core::error::{Error, Result};

verus! {

/// The 89-entry step table (IMA / Microsoft / ffmpeg).
pub const STEP_TABLE: [i32; 89] = [
    7, 8, 9, 10, 11, 12, 13, 14, 16, 17, 19, 21, 23, 25, 28, 31, 34, 37, 41, 45, 50, 55, 60, 66,
    73, 80, 88, 97, 107, 118, 130, 143, 157, 173, 190, 209, 230, 253, 279, 307, 337, 371, 408, 449,
    494, 544, 598, 658, 724, 796, 876, 963, 1060, 1166, 1282, 1411, 1552, 1707, 1878, 2066, 2272,
    2499, 2749, 3024, 3327, 3660, 4026, 4428, 4871, 5358, 5894, 6484, 7132, 7845, 8630, 9493,
    10442, 11487, 12635, 13899, 15289, 16818, 18500, 20350, 22385, 24623, 27086, 29794, 32767,
];

/// Step-index adjustment per nibble.
pub const INDEX_TABLE: [i8; 16] = [-1, -1, -1, -1, 2, 4, 6, 8, -1, -1, -1, -1, 2, 4, 6, 8];

/// Channels this codec handles.
pub const MAX_CHANNELS: usize = 2;

/// How the encoder updates its prediction after each nibble.
#[derive(Debug, Clone, Copy, PartialEq, Eq, Structural)]
pub enum PredictionRule {
    /// The decoder's own expansion (IMA reference): closed-loop, no drift.
    DecoderExact,
    /// ffmpeg's encoder: `((2n+1) * step) >> 3`. Drifts a unit or two from
    /// decoders.
    FfmpegEncoder,
}

impl Default for PredictionRule {
    fn default() -> (r: Self)
        ensures
            r == PredictionRule::DecoderExact,
    {
        PredictionRule::DecoderExact
    }
}

/// Per-channel coder state: predictor and step index.
#[derive(Debug, Clone, Copy, PartialEq, Eq, Structural)]
pub struct ChannelState {
    /// Current prediction (an i16 value held in i32).
    pub predictor: i32,
    /// Index into [`STEP_TABLE`], 0..=88.
    pub step_index: u8,
}

impl Default for ChannelState {
    fn default() -> (r: Self)
        ensures
            r == (ChannelState { predictor: 0, step_index: 0 }),
    {
        ChannelState { predictor: 0, step_index: 0 }
    }
}

/// Bit `i` of `nibble`, for `weight` `2^i`, as 0 or 1.
pub open spec fn bit(nibble: u8, weight: int) -> int {
    (nibble as int / weight) % 2
}

/// The IMA reference expansion: each part of the step is cut off by itself.
pub open spec fn reference_magnitude(step: int, nibble: u8) -> int {
    step / 8 + bit(nibble, 4) * step + bit(nibble, 2) * (step / 2) + bit(nibble, 1) * (step / 4)
}

/// ffmpeg's encoder-side expansion: the sum of the parts is cut off at once.
pub open spec fn ffmpeg_magnitude(step: int, nibble: u8) -> int {
    ((2 * (nibble as int % 8) + 1) * step) / 8
}

/// The step index after `nibble`, kept inside the table.
#[verifier::opaque]
pub open spec fn next_index(step_index: u8, nibble: u8) -> u8 {
    let index = step_index + INDEX_TABLE@[nibble as int % 16];
    (if index < 0 {
        0
    } else if index > 88 {
        88
    } else {
        index
    }) as u8
}

impl ChannelState {
    /// The predictor is a sample, and the step index is one of the table.
    pub open spec fn valid(self) -> bool {
        &&& -32768 <= self.predictor <= 32767
        &&& self.step_index <= 88
    }

    /// The current step.
    #[verifier::opaque]
    pub open spec fn step(self) -> int {
        STEP_TABLE@[self.step_index as int] as int
    }

    /// The state after `nibble`, moved by `magnitude` in the direction of the
    /// nibble's sign.
    pub open spec fn moved(self, magnitude: int, nibble: u8) -> ChannelState {
        ChannelState {
            predictor: clamp16(
                if bit(nibble, 8) == 1 {
                    self.predictor - magnitude
                } else {
                    self.predictor + magnitude
                },
            ) as i32,
            step_index: next_index(self.step_index, nibble),
        }
    }

    /// The state after expanding `nibble`.
    pub open spec fn expanded(self, nibble: u8) -> ChannelState {
        self.moved(reference_magnitude(self.step(), nibble), nibble)
    }

    /// The state of an encoder after it put out `nibble`.
    pub open spec fn followed(self, rule: PredictionRule, nibble: u8) -> ChannelState {
        match rule {
            PredictionRule::DecoderExact => self.expanded(nibble),
            PredictionRule::FfmpegEncoder => self.moved(
                ffmpeg_magnitude(self.step(), nibble),
                nibble,
            ),
        }
    }

    /// The nibble for `sample`: a quarter of a step per unit, at most seven,
    /// and the sign.
    pub open spec fn quantised(self, sample: i16) -> u8 {
        let delta = sample - self.predictor;
        let size = if delta < 0 {
            -delta
        } else {
            delta
        };
        let units = size * 4 / self.step();
        (if units > 7 {
            7
        } else {
            units
        } + if delta < 0 {
            8int
        } else {
            0int
        }) as u8
    }

    /// IMA reference expansion magnitude for `nibble` at `step`.
    pub fn diff_reference(step: i32, nibble: u8) -> (r: i32)
        requires
            i32::MIN <= reference_magnitude(step as int, nibble) <= i32::MAX,
        ensures
            r == reference_magnitude(step as int, nibble),
    {
        assert(step >> 3 == step / 8 && step >> 1 == step / 2 && step >> 2 == step / 4)
            by (bit_vector);
        let b4: bool = (nibble / 4) % 2 == 1;
        let b2: bool = (nibble / 2) % 2 == 1;
        let b1: bool = nibble % 2 == 1;
        proof {
            assert(bit(nibble, 4) * step == (if b4 {
                step as int
            } else {
                0
            })) by (nonlinear_arith)
                requires
                    bit(nibble, 4) == (if b4 {
                        1int
                    } else {
                        0int
                    }),
            ;
            assert(bit(nibble, 2) * (step / 2) == (if b2 {
                step / 2
            } else {
                0
            })) by (nonlinear_arith)
                requires
                    bit(nibble, 2) == (if b2 {
                        1int
                    } else {
                        0int
                    }),
            ;
            assert(bit(nibble, 1) * (step / 4) == (if b1 {
                step / 4
            } else {
                0
            })) by (nonlinear_arith)
                requires
                    bit(nibble, 1) == (if b1 {
                        1int
                    } else {
                        0int
                    }),
            ;
        }
        let mut d: i32 = step >> 3;
        if b4 {
            d = d + step;
        }
        if b2 {
            d = d + (step >> 1);
        }
        if b1 {
            d = d + (step >> 2);
        }
        d
    }

    /// ffmpeg's encoder-side expansion magnitude.
    pub fn diff_ffmpeg_encoder(step: i32, nibble: u8) -> (r: i32)
        requires
            i32::MIN <= (2 * (nibble as int % 8) + 1) * step <= i32::MAX,
        ensures
            r == ffmpeg_magnitude(step as int, nibble),
    {
        let v: i32 = (2 * (nibble % 8) as i32 + 1) * step;
        assert(v >> 3 == v / 8) by (bit_vector);
        v >> 3
    }

    fn advance(&mut self, nibble: u8)
        requires
            old(self).step_index <= 88,
        ensures
            final(self).predictor == old(self).predictor,
            final(self).step_index == next_index(old(self).step_index, nibble),
            final(self).step_index <= 88,
    {
        proof {
            reveal(next_index);
            lemma_index_table(nibble as int % 16);
        }
        let idx: i32 = self.step_index as i32 + INDEX_TABLE[(nibble % 16) as usize] as i32;
        self.step_index = if idx < 0 {
            0
        } else if idx > 88 {
            88
        } else {
            idx as u8
        };
    }

    fn apply(&mut self, d: i32, negative: bool)
        requires
            -32768 <= old(self).predictor <= 32767,
            0 <= d <= 100000,
        ensures
            final(self).step_index == old(self).step_index,
            final(self).predictor == clamp16(
                if negative {
                    old(self).predictor - d
                } else {
                    old(self).predictor + d
                },
            ),
            -32768 <= final(self).predictor <= 32767,
    {
        let moved: i32 = if negative {
            self.predictor - d
        } else {
            self.predictor + d
        };
        self.predictor = crate::bytes::sat16(moved) as i32;
    }

    /// Quantise one sample against the state and update it.
    pub fn encode(&mut self, sample: i16, rule: PredictionRule) -> (r: u8)
        requires
            old(self).valid(),
        ensures
            final(self).valid(),
            r == old(self).quantised(sample),
            r < 16,
            *final(self) == old(self).followed(rule, r),
    {
        proof {
            reveal(ChannelState::step);
            lemma_step_table(self.step_index as int);
        }
        let step: i32 = STEP_TABLE[self.step_index as usize];
        let delta: i32 = sample as i32 - self.predictor;
        let size: u32 = if delta < 0 {
            (-delta) as u32
        } else {
            delta as u32
        };
        let units: u32 = size * 4 / (step as u32);
        let mag: u8 = if units > 7 {
            7
        } else {
            units as u8
        };
        let nibble: u8 = if delta < 0 {
            mag + 8
        } else {
            mag
        };
        proof {
            lemma_magnitudes(step as int, nibble);
        }
        let d: i32 = match rule {
            PredictionRule::DecoderExact => Self::diff_reference(step, nibble),
            PredictionRule::FfmpegEncoder => Self::diff_ffmpeg_encoder(step, nibble),
        };
        self.apply(d, delta < 0);
        self.advance(nibble);
        nibble
    }

    /// Expand one nibble (the IMA reference / ffmpeg decoder rule).
    pub fn decode(&mut self, nibble: u8) -> (r: i16)
        requires
            old(self).valid(),
        ensures
            final(self).valid(),
            *final(self) == old(self).expanded(nibble),
            r == final(self).predictor,
    {
        proof {
            reveal(ChannelState::step);
            lemma_step_table(self.step_index as int);
        }
        let step: i32 = STEP_TABLE[self.step_index as usize];
        proof {
            lemma_magnitudes(step as int, nibble);
        }
        self.advance(nibble);
        self.apply(Self::diff_reference(step, nibble), (nibble / 8) % 2 == 1);
        self.predictor as i16
    }
}

/// The steps are positive and no larger than a sample.
pub proof fn lemma_step_table(i: int)
    requires
        0 <= i <= 88,
    ensures
        7 <= STEP_TABLE@[i] <= 32767,
{
}

proof fn lemma_index_table(i: int)
    requires
        0 <= i < 16,
    ensures
        -1 <= INDEX_TABLE@[i] <= 8,
{
}

proof fn lemma_magnitudes(step: int, nibble: u8)
    requires
        0 <= step <= 32767,
    ensures
        0 <= reference_magnitude(step, nibble) <= 2 * step,
        0 <= (2 * (nibble as int % 8) + 1) * step <= 15 * step,
        0 <= ffmpeg_magnitude(step, nibble) <= 2 * step,
{
    let n = nibble as int % 8;
    assert(0 <= (2 * n + 1) * step <= 15 * step) by (nonlinear_arith)
        requires
            0 <= n <= 7,
            step >= 0,
    ;
    lemma_bit_product(bit(nibble, 4), step);
    lemma_bit_product(bit(nibble, 2), step / 2);
    lemma_bit_product(bit(nibble, 1), step / 4);
}

proof fn lemma_bit_product(b: int, x: int)
    requires
        b == 0 || b == 1,
    ensures
        b * x == (if b == 1 {
            x
        } else {
            0
        }),
{
}

/// The two expansions differ by truncation only: by at most two units, and
/// not at all where the step is a multiple of eight.
pub proof fn lemma_expansions_differ_by_truncation(step: int, nibble: u8)
    requires
        step >= 0,
    ensures
        0 <= ffmpeg_magnitude(step, nibble) - reference_magnitude(step, nibble) <= 2,
        step % 8 == 0 ==> ffmpeg_magnitude(step, nibble) == reference_magnitude(step, nibble),
{
    let n = nibble as int % 8;
    let b4 = bit(nibble, 4);
    let b2 = bit(nibble, 2);
    let b1 = bit(nibble, 1);
    assert(n == 4 * b4 + 2 * b2 + b1);
    lemma_bit_product(b4, step);
    lemma_bit_product(b2, step / 2);
    lemma_bit_product(b1, step / 4);
    lemma_truncation(step, n, b4, b2, b1);
}

/// The parts of a step add up to its odd multiple, but for what each of them
/// rounds off.
proof fn lemma_truncation(step: int, n: int, b4: int, b2: int, b1: int)
    requires
        step >= 0,
        n == 4 * b4 + 2 * b2 + b1,
        b4 == 0 || b4 == 1,
        b2 == 0 || b2 == 1,
        b1 == 0 || b1 == 1,
    ensures
        ({
            let parts = step / 8 + (if b4 == 1 {
                step
            } else {
                0
            }) + (if b2 == 1 {
                step / 2
            } else {
                0
            }) + (if b1 == 1 {
                step / 4
            } else {
                0
            });
            let whole = (2 * n + 1) * step / 8;
            &&& 0 <= whole - parts <= 2
            &&& step % 8 == 0 ==> whole == parts
        }),
{
    let q = step / 8;
    let r = step % 8;
    assert(step == 8 * q + r);
    assert((2 * n + 1) * step == 8 * ((2 * n + 1) * q) + (2 * n + 1) * r) by (nonlinear_arith)
        requires
            step == 8 * q + r,
    ;
    assert((2 * n + 1) * q == 8 * (b4 * q) + 4 * (b2 * q) + 2 * (b1 * q) + q) by (nonlinear_arith)
        requires
            n == 4 * b4 + 2 * b2 + b1,
    ;
    assert((2 * n + 1) * r == 8 * (b4 * r) + 4 * (b2 * r) + 2 * (b1 * r) + r) by (nonlinear_arith)
        requires
            n == 4 * b4 + 2 * b2 + b1,
    ;
    lemma_bit_product(b4, q);
    lemma_bit_product(b2, q);
    lemma_bit_product(b1, q);
    lemma_bit_product(b4, r);
    lemma_bit_product(b2, r);
    lemma_bit_product(b1, r);
    assert(step / 2 == 4 * q + r / 2);
    assert(step / 4 == 2 * q + r / 4);
    let product = (2 * n + 1) * r;
    let whole_q = (2 * n + 1) * q;
    assert((8 * whole_q + product) / 8 == whole_q + product / 8);
}

/// Bytes of one block: a header per channel, and half a byte per channel for
/// every frame after the first.
pub open spec fn block_len(channels: nat, frames: nat) -> nat {
    (4 * channels + (frames - 1) * channels / 2) as nat
}

/// Frames that a block of `len` bytes holds.
pub open spec fn block_frames(channels: nat, len: nat) -> nat {
    ((len - 4 * channels) * 2 / channels as int + 1) as nat
}

/// Bytes of one encoded block for `channels` and `frames_per_block`.
pub fn block_align(channels: u8, frames_per_block: usize) -> (r: usize)
    requires
        frames_per_block >= 1,
        (frames_per_block - 1) * channels <= usize::MAX,
    ensures
        r == block_len(channels as nat, frames_per_block as nat),
{
    assert(0 <= (frames_per_block - 1) * channels) by (nonlinear_arith)
        requires
            frames_per_block >= 1,
    ;
    4 * channels as usize + (frames_per_block - 1) * channels as usize / 2
}

/// Frames per block for an encoded `block_align` (the WAV `nBlockAlign`).
pub fn frames_per_block(channels: u8, block_align: usize) -> (r: usize)
    requires
        channels > 0,
        block_align >= 4 * channels,
        (block_align - 4 * channels) * 2 < usize::MAX,
    ensures
        r == block_frames(channels as nat, block_align as nat),
{
    let body: usize = (block_align - 4 * channels as usize) * 2;
    proof {
        vstd::arithmetic::div_mod::lemma_div_nonincreasing(body as int, channels as int);
    }
    body / (channels as usize) + 1
}

/// ffmpeg's block size, whatever the channel count: 1024 bytes, so 2041
/// frames per block in mono and 1017 in stereo.
pub fn ffmpeg_block_align() -> (r: usize)
    ensures
        r == 1024,
{
    1024
}

/// Behind the headers lie four bytes per channel and group of eight frames.
proof fn lemma_block_len(channels: nat, frames: nat)
    requires
        sizes(channels, frames) is Ok,
    ensures
        block_len(channels, frames) == 4 * channels + 4 * (((frames - 1) / 8) * channels),
        (frames - 1) * channels == frames * channels - channels,
        frames == 8 * ((frames - 1) / 8) + 1,
{
    let g = (frames - 1) / 8;
    assert((frames - 1) * channels == 8 * (g * channels)) by (nonlinear_arith)
        requires
            frames - 1 == 8 * g,
    ;
    assert((frames - 1) * channels == frames * channels - channels) by (nonlinear_arith);
}

/// The frame count that a block length gives is the one it was made for, for
/// the blocks this codec handles; and the other way round.
pub proof fn lemma_block_sizes_agree(channels: nat, frames: nat, len: nat)
    requires
        1 <= channels <= MAX_CHANNELS,
    ensures
        sizes(channels, frames) is Ok ==> block_frames(channels, block_len(channels, frames))
            == frames,
        len >= 4 * channels ==> block_len(channels, block_frames(channels, len)) == len,
{
    let n = frames - 1;
    let m = block_frames(channels, len) - 1;
    let body = (len - 4 * channels) * 2;
    if channels == 1 {
        assert(n * channels == n && m * channels == m && body / channels as int == body)
            by (nonlinear_arith)
            requires
                channels == 1,
        ;
    } else {
        assert(n * channels == 2 * n && m * channels == 2 * m && body / channels as int == body / 2)
            by (nonlinear_arith)
            requires
                channels == 2,
        ;
        assert((block_len(channels, frames) - 4 * channels) * 2 / channels as int == (block_len(
            channels,
            frames,
        ) - 4 * channels) * 2 / 2) by (nonlinear_arith)
            requires
                channels == 2,
        ;
    }
}

/// The channel counts and block sizes the codec takes: after the header
/// sample, frames come in groups of eight.
pub open spec fn sizes(channels: nat, frames: nat) -> Result<()> {
    if channels == 0 || channels > MAX_CHANNELS {
        Err(Error::Unsupported)
    } else if frames < 9 || (frames - 1) % 8 != 0 {
        Err(Error::InvalidFormat)
    } else {
        Ok(())
    }
}

fn check(channels: u8, frames_per_block: usize) -> (r: Result<()>)
    ensures
        r == sizes(channels as nat, frames_per_block as nat),
{
    if channels == 0 || channels as usize > MAX_CHANNELS {
        return Err(Error::Unsupported);
    }
    if frames_per_block < 9 || (frames_per_block - 1) % 8 != 0 {
        return Err(Error::InvalidFormat);
    }
    Ok(())
}

/// One channel of an interleaved stream.
pub open spec fn channel(samples: Seq<i16>, channels: nat, c: int) -> Seq<i16> {
    Seq::new(samples.len() / channels, |f: int| samples[f * channels + c])
}

/// Where channel `c` starts a block: at its first sample, with the step index
/// carried over.
pub open spec fn start(states: Seq<ChannelState>, samples: Seq<i16>, c: int) -> ChannelState {
    ChannelState { predictor: samples[c] as i32, step_index: states[c].step_index }
}

/// The encoder's state after the first `k` samples of `tail`.
pub open spec fn after_samples(
    from: ChannelState,
    rule: PredictionRule,
    tail: Seq<i16>,
    k: nat,
) -> ChannelState
    decreases k,
{
    if k == 0 {
        from
    } else {
        let before = after_samples(from, rule, tail, (k - 1) as nat);
        before.followed(rule, before.quantised(tail[k - 1]))
    }
}

/// The nibble for sample `k` of `tail`.
pub open spec fn code(from: ChannelState, rule: PredictionRule, tail: Seq<i16>, k: int) -> u8 {
    after_samples(from, rule, tail, k as nat).quantised(tail[k])
}

/// Byte `j` of the header of a channel.
pub open spec fn header_byte(from: ChannelState, j: int) -> u8 {
    if j == 0 {
        low_byte(from.predictor as i16)
    } else if j == 1 {
        high_byte(from.predictor as i16)
    } else if j == 2 {
        from.step_index
    } else {
        0
    }
}

/// The block that encoding `samples` gives: word `w` behind the headers holds
/// the next eight nibbles of channel `w % channels`, low nibble first.
pub open spec fn encoded(
    states: Seq<ChannelState>,
    rule: PredictionRule,
    samples: Seq<i16>,
    channels: nat,
    frames: nat,
) -> Seq<u8> {
    Seq::new(
        block_len(channels, frames),
        |i: int|
            if i < 4 * channels {
                header_byte(start(states, samples, i / 4), i % 4)
            } else {
                let w = (i - 4 * channels) / 4;
                let c = w % channels as int;
                let k = 8 * (w / channels as int) + 2 * ((i - 4 * channels) % 4);
                let from = start(states, samples, c);
                let tail = channel(samples, channels, c).skip(1);
                (code(from, rule, tail, k) + 16 * code(from, rule, tail, k + 1)) as u8
            },
    )
}

/// The state that the header of channel `c` tells.
pub open spec fn header_state(block: Seq<u8>, c: int) -> ChannelState {
    ChannelState {
        predictor: le_i16(block[4 * c], block[4 * c + 1]) as i32,
        step_index: block[4 * c + 2],
    }
}

/// Nibble `k` of channel `c` in a block.
pub open spec fn nibble_in(block: Seq<u8>, channels: nat, c: int, k: int) -> u8 {
    let byte = block[4 * channels + 4 * ((k / 8) * channels + c) + (k % 8) / 2];
    if k % 2 == 0 {
        byte % 16
    } else {
        byte / 16
    }
}

/// The decoder's state for channel `c` after the first `k` nibbles.
pub open spec fn after_nibbles(block: Seq<u8>, channels: nat, c: int, k: nat) -> ChannelState
    decreases k,
{
    if k == 0 {
        header_state(block, c)
    } else {
        after_nibbles(block, channels, c, (k - 1) as nat).expanded(
            nibble_in(block, channels, c, k - 1),
        )
    }
}

/// The interleaved samples that decoding `block` gives.
pub open spec fn decoded(block: Seq<u8>, channels: nat, frames: nat) -> Seq<i16> {
    Seq::new(
        frames * channels,
        |i: int|
            after_nibbles(
                block,
                channels,
                i % channels as int,
                (i / channels as int) as nat,
            ).predictor as i16,
    )
}

/// Encoder for one stream; the step index carries across blocks, as ffmpeg's
/// does.
#[derive(Debug)]
pub struct Encoder {
    /// Channels, 1 or 2.
    pub channels: u8,
    /// Frames each block consumes.
    pub frames_per_block: usize,
    /// How the prediction is updated.
    pub rule: PredictionRule,
    /// The state of each channel.
    pub state: [ChannelState; MAX_CHANNELS],
    /// Blocks encoded.
    pub blocks: u64,
}

impl Clone for Encoder {
    fn clone(&self) -> (r: Self)
        ensures
            r == *self,
    {
        Encoder {
            channels: self.channels,
            frames_per_block: self.frames_per_block,
            rule: self.rule,
            state: self.state,
            blocks: self.blocks,
        }
    }
}

impl Encoder {
    /// The sizes are ones the codec takes, and the step indices are of the
    /// table.
    pub open spec fn valid(self) -> bool {
        &&& sizes(self.channels as nat, self.frames_per_block as nat) is Ok
        &&& forall|c: int| 0 <= c < MAX_CHANNELS ==> (#[trigger] self.state@[c]).valid()
    }

    /// An encoder for `channels` (1 or 2) and `frames_per_block`
    /// (`8k + 1`, e.g. 2041), predicting with [`PredictionRule::DecoderExact`].
    pub fn new(channels: u8, frames_per_block: usize) -> (r: Result<Self>)
        ensures
            encoder_made(r, channels, frames_per_block, PredictionRule::DecoderExact),
    {
        Self::with_rule(channels, frames_per_block, PredictionRule::DecoderExact)
    }

    /// An encoder that predicts as `ffmpeg -c:a adpcm_ima_wav` does.
    pub fn ffmpeg_compatible(channels: u8, frames_per_block: usize) -> (r: Result<Self>)
        ensures
            encoder_made(r, channels, frames_per_block, PredictionRule::FfmpegEncoder),
    {
        Self::with_rule(channels, frames_per_block, PredictionRule::FfmpegEncoder)
    }

    /// An encoder with an explicit prediction rule.
    pub fn with_rule(channels: u8, frames_per_block: usize, rule: PredictionRule) -> (r: Result<
        Self,
    >)
        ensures
            encoder_made(r, channels, frames_per_block, rule),
    {
        check(channels, frames_per_block)?;
        let fresh = ChannelState { predictor: 0, step_index: 0 };
        Ok(Encoder { channels, frames_per_block, rule, state: [fresh, fresh], blocks: 0 })
    }

    /// Frames each block consumes.
    pub fn frames_per_block(&self) -> (r: usize)
        ensures
            r == self.frames_per_block,
    {
        self.frames_per_block
    }

    /// Bytes each block produces.
    pub fn block_align(&self) -> (r: usize)
        requires
            self.valid(),
            (self.frames_per_block - 1) * self.channels <= usize::MAX,
        ensures
            r == block_len(self.channels as nat, self.frames_per_block as nat),
    {
        block_align(self.channels, self.frames_per_block)
    }

    /// The prediction rule in use.
    pub fn rule(&self) -> (r: PredictionRule)
        ensures
            r == self.rule,
    {
        self.rule
    }

    /// What [`encode_block`](Self::encode_block) refuses: a block of another
    /// length, or a buffer without room.
    pub open spec fn refusal(self, pcm_len: nat, room: nat) -> Result<()> {
        let ch = self.channels as nat;
        if pcm_len != self.frames_per_block as nat * ch * 2 {
            Err(Error::InvalidGeometry)
        } else {
            room_for(room, block_len(ch, self.frames_per_block as nat))
        }
    }

    /// The block that `samples` give.
    pub open spec fn block(self, samples: Seq<i16>) -> Seq<u8> {
        encoded(
            self.state@,
            self.rule,
            samples,
            self.channels as nat,
            self.frames_per_block as nat,
        )
    }

    /// The state of channel `c` after `samples`; a channel that is not coded
    /// keeps its own.
    pub open spec fn state_after(self, samples: Seq<i16>, c: int) -> ChannelState {
        if c < self.channels {
            after_samples(
                start(self.state@, samples, c),
                self.rule,
                channel(samples, self.channels as nat, c).skip(1),
                (self.frames_per_block - 1) as nat,
            )
        } else {
            self.state@[c]
        }
    }

    /// Encode exactly one block of interleaved i16 little-endian PCM
    /// (`frames_per_block * channels * 2` bytes) into `out`; returns
    /// [`block_align`](Self::block_align).
    pub fn encode_block(&mut self, pcm: &[u8], out: &mut [u8]) -> (r: Result<usize>)
        requires
            old(self).valid(),
            old(self).blocks < u64::MAX,
        ensures
            final(self).valid(),
            final(self).channels == old(self).channels,
            final(self).frames_per_block == old(self).frames_per_block,
            final(self).rule == old(self).rule,
            match old(self).refusal(pcm@.len(), old(out)@.len()) {
                Err(e) => {
                    &&& r == Err::<usize, Error>(e)
                    &&& *final(self) == *old(self)
                    &&& final(out)@ == old(out)@
                },
                Ok(_) => {
                    &&& r == Ok::<usize, Error>(old(self).block(decode16(pcm@)).len() as usize)
                    &&& final(out)@ == overwritten(old(out)@, old(self).block(decode16(pcm@)))
                    &&& final(self).blocks == old(self).blocks + 1
                    &&& forall|c: int|
                        0 <= c < MAX_CHANNELS ==> #[trigger] final(self).state@[c] == old(
                            self,
                        ).state_after(decode16(pcm@), c)
                },
            },
    {
        let ch: usize = self.channels as usize;
        let frames: usize = self.frames_per_block;
        assert(frames * ch <= frames * 2) by (nonlinear_arith)
            requires
                ch <= 2,
        ;
        if pcm.len() as u128 != frames as u128 * ch as u128 * 2 {
            return Err(Error::InvalidGeometry);
        }
        proof {
            lemma_block_len(ch as nat, frames as nat);
        }
        let need: usize = self.block_align();
        require_room(out, need)?;
        let ghost before = out@;
        let ghost samples = decode16(pcm@);
        let ghost states = self.state@;
        let ghost chn = ch as nat;
        let ghost block = self.block(samples);
        let rule: PredictionRule = self.rule;
        let pcm_len: usize = pcm.len();
        let groups: usize = (frames - 1) / 8;
        proof {
            assert(samples.len() == frames * ch);
            lemma_fundamental_div_mod_converse(samples.len() as int, ch as int, frames as int, 0);
            assert(ch <= frames * ch) by (nonlinear_arith)
                requires
                    frames >= 1,
            ;
            assert(groups * ch <= frames * ch) by (nonlinear_arith)
                requires
                    groups <= frames,
            ;
        }
        let mut state: [ChannelState; MAX_CHANNELS] = self.state;
        let mut c: usize = 0;
        while c < ch
            invariant
                c <= ch <= MAX_CHANNELS,
                2 * ch <= pcm@.len(),
                samples == decode16(pcm@),
                states.len() == MAX_CHANNELS,
                state@.len() == MAX_CHANNELS,
                4 * ch <= need <= out@.len(),
                out@.len() == before.len(),
                forall|k: int| 0 <= k < MAX_CHANNELS ==> (#[trigger] states[k]).valid(),
                forall|k: int|
                    0 <= k < MAX_CHANNELS ==> #[trigger] state@[k] == (if k < c {
                        start(states, samples, k)
                    } else {
                        states[k]
                    }),
                forall|i: int|
                    0 <= i < 4 * c ==> #[trigger] out@[i] == header_byte(
                        start(states, samples, i / 4),
                        i % 4,
                    ),
                forall|i: int| 4 * c <= i < before.len() ==> #[trigger] out@[i] == before[i],
            decreases ch - c,
        {
            let first: i16 = get_sample(pcm, c);
            let index: u8 = state[c].step_index;
            state[c] = ChannelState { predictor: first as i32, step_index: index };
            put_i16_at(out, 4 * c, first);
            out[4 * c + 2] = index;
            out[4 * c + 3] = 0;
            c += 1;
        }
        let total: usize = groups * ch;
        proof {
            lemma_no_words(ch as int);
        }
        let mut w: usize = 0;
        while w < total
            invariant
                1 <= ch <= MAX_CHANNELS,
                chn == ch,
                total == groups * ch,
                w <= total,
                frames == 8 * groups + 1,
                need == 4 * ch + 4 * total,
                need <= out@.len(),
                out@.len() == before.len(),
                2 * (frames * ch) == pcm@.len() == pcm_len,
                samples == decode16(pcm@),
                samples.len() / chn == frames,
                rule == self.rule,
                block == encoded(states, rule, samples, chn, frames as nat),
                block.len() == need,
                state@.len() == MAX_CHANNELS,
                forall|k: int|
                    0 <= k < ch ==> #[trigger] state@[k] == after_samples(
                        start(states, samples, k),
                        rule,
                        channel(samples, chn, k).skip(1),
                        (8 * groups_done(w as int, ch as int, k)) as nat,
                    ),
                forall|k: int| 0 <= k < MAX_CHANNELS ==> (#[trigger] state@[k]).valid(),
                forall|k: int| ch <= k < MAX_CHANNELS ==> #[trigger] state@[k] == states[k],
                forall|i: int| 0 <= i < 4 * ch + 4 * w ==> #[trigger] out@[i] == block[i],
                forall|i: int| need <= i < before.len() ==> #[trigger] out@[i] == before[i],
            decreases total - w,
        {
            let g: usize = w / ch;
            let c: usize = w % ch;
            proof {
                lemma_next_word(w as int, ch as int);
                assert(g < groups) by (nonlinear_arith)
                    requires
                        w == g * ch + c,
                        w < groups * ch,
                        c >= 0,
                ;
                assert((8 * g + 9) * ch <= frames * ch) by (nonlinear_arith)
                    requires
                        g < groups,
                        frames == 8 * groups + 1,
                ;
            }
            let ghost from = start(states, samples, c as int);
            let ghost tail = channel(samples, chn, c as int).skip(1);
            let ghost left = out@;
            let ghost held = state@;
            let pos: usize = 4 * ch + 4 * w;
            assert(held[c as int] == after_samples(from, rule, tail, (8 * g) as nat));
            state[c] = encode_word(
                state[c],
                rule,
                pcm,
                ch,
                c,
                8 * g + 1,
                out,
                pos,
                Ghost(from),
                Ghost(tail),
            );
            proof {
                assert forall|i: int| 0 <= i < 4 * ch + 4 * (w + 1) implies #[trigger] out@[i]
                    == block[i] by {
                    if i < pos {
                        assert(out@[i] == left[i]);
                    } else {
                        let j = i - pos;
                        assert(out@[pos + j] == code(from, rule, tail, 8 * g + 2 * j) + 16 * code(
                            from,
                            rule,
                            tail,
                            8 * g + 2 * j + 1,
                        ));
                        assert((i - 4 * ch) / 4 == w && (i - 4 * ch) % 4 == j);
                    }
                }
                assert forall|k: int| 0 <= k < ch implies #[trigger] state@[k] == after_samples(
                    start(states, samples, k),
                    rule,
                    channel(samples, chn, k).skip(1),
                    (8 * groups_done(w + 1, ch as int, k)) as nat,
                ) by {
                    if k != c {
                        assert(state@[k] == held[k]);
                    }
                }
            }
            w += 1;
        }
        proof {
            lemma_all_words(groups as int, ch as int);
            assert(out@ =~= overwritten(before, block));
        }
        self.state = state;
        self.blocks = self.blocks + 1;
        Ok(need)
    }
}

/// What making an encoder answers: the refusal of its sizes, or an encoder at
/// silence with the smallest step.
pub open spec fn encoder_made(
    r: Result<Encoder>,
    channels: u8,
    frames_per_block: usize,
    rule: PredictionRule,
) -> bool {
    match sizes(channels as nat, frames_per_block as nat) {
        Err(e) => r == Err::<Encoder, Error>(e),
        Ok(_) => {
            &&& r is Ok
            &&& r->Ok_0.valid()
            &&& r->Ok_0.channels == channels
            &&& r->Ok_0.frames_per_block == frames_per_block
            &&& r->Ok_0.rule == rule
            &&& forall|c: int|
                0 <= c < MAX_CHANNELS ==> #[trigger] r->Ok_0.state@[c] == (ChannelState {
                    predictor: 0,
                    step_index: 0,
                })
            &&& r->Ok_0.blocks == 0
        },
    }
}

/// Encode the eight samples of channel `c` from frame `base` on into four
/// bytes at `pos`, from the state that the samples before them left.
fn encode_word(
    st: ChannelState,
    rule: PredictionRule,
    pcm: &[u8],
    channels: usize,
    c: usize,
    base: usize,
    out: &mut [u8],
    pos: usize,
    Ghost(from): Ghost<ChannelState>,
    Ghost(tail): Ghost<Seq<i16>>,
) -> (r: ChannelState)
    requires
        st.valid(),
        1 <= channels <= MAX_CHANNELS,
        c < channels,
        base >= 1,
        2 * ((base + 8) * channels) <= pcm@.len(),
        pos + 4 <= old(out)@.len(),
        st == after_samples(from, rule, tail, (base - 1) as nat),
        forall|k: int|
            0 <= k < base + 7 ==> #[trigger] tail[k] == decode16(pcm@)[(1 + k) * channels + c],
    ensures
        r.valid(),
        r == after_samples(from, rule, tail, (base + 7) as nat),
        final(out)@.len() == old(out)@.len(),
        forall|j: int|
            0 <= j < 4 ==> #[trigger] final(out)@[pos + j] == code(from, rule, tail, base - 1 + 2 * j)
                + 16 * code(from, rule, tail, base + 2 * j),
        forall|i: int|
            0 <= i < old(out)@.len() && !(pos <= i < pos + 4) ==> #[trigger] final(out)@[i]
                == old(out)@[i],
{
    let ghost before = out@;
    let pcm_len: usize = pcm.len();
    let out_len: usize = out.len();
    let mut s: ChannelState = st;
    let mut j: usize = 0;
    while j < 4
        invariant
            j <= 4,
            s.valid(),
            1 <= channels <= MAX_CHANNELS,
            c < channels,
            base >= 1,
            2 * ((base + 8) * channels) <= pcm@.len() == pcm_len,
            pos + 4 <= out_len,
            out@.len() == before.len() == out_len,
            s == after_samples(from, rule, tail, (base - 1 + 2 * j) as nat),
            forall|k: int|
                0 <= k < base + 7 ==> #[trigger] tail[k] == decode16(pcm@)[(1 + k) * channels + c],
            forall|i: int|
                0 <= i < j ==> #[trigger] out@[pos + i] == code(from, rule, tail, base - 1 + 2 * i)
                    + 16 * code(from, rule, tail, base + 2 * i),
            forall|i: int|
                0 <= i < before.len() && !(pos <= i < pos + 4) ==> #[trigger] out@[i] == before[i],
        decreases 4 - j,
    {
        proof {
            assert((base + 2 * j + 1) * channels + channels <= (base + 8) * channels && (base + 2
                * j + 1) * channels == (base + 2 * j) * channels + channels && (base + 2 * j)
                * channels >= 0) by (nonlinear_arith)
                requires
                    j < 4,
            ;
        }
        let i0: usize = (base + 2 * j) * channels + c;
        let x0: i16 = get_sample(pcm, i0);
        let x1: i16 = get_sample(pcm, i0 + channels);
        assert(tail[base - 1 + 2 * j] == x0);
        assert(tail[base + 2 * j] == x1);
        let lo: u8 = s.encode(x0, rule);
        assert(s == after_samples(from, rule, tail, (base + 2 * j) as nat));
        let hi: u8 = s.encode(x1, rule);
        assert(s == after_samples(from, rule, tail, (base + 2 * j + 1) as nat));
        out[pos + j] = lo + 16 * hi;
        j += 1;
    }
    s
}

/// Groups of eight frames that channel `c` has behind it before word `w`.
spec fn groups_done(w: int, channels: int, c: int) -> int {
    w / channels + if c < w % channels {
        1int
    } else {
        0int
    }
}

/// The word after word `w`: the next channel, or the first one of the next
/// group.
proof fn lemma_next_word(w: int, channels: int)
    requires
        channels > 0,
        w >= 0,
    ensures
        forall|c: int|
            0 <= c < channels ==> #[trigger] groups_done(w + 1, channels, c) == groups_done(
                w,
                channels,
                c,
            ) + if c == w % channels {
                1int
            } else {
                0int
            },
        groups_done(w, channels, w % channels) == w / channels,
        w == (w / channels) * channels + w % channels,
        0 <= w % channels < channels,
        w / channels >= 0,
{
    lemma_fundamental_div_mod(w, channels);
    let g = w / channels;
    let c = w % channels;
    assert(w == g * channels + c) by (nonlinear_arith)
        requires
            w == channels * g + c,
    ;
    if c + 1 < channels {
        lemma_fundamental_div_mod_converse(w + 1, channels, g, c + 1);
    } else {
        assert(w + 1 == (g + 1) * channels) by (nonlinear_arith)
            requires
                w == channels * g + c,
                c + 1 == channels,
        ;
        lemma_fundamental_div_mod_converse(w + 1, channels, g + 1, 0);
    }
    vstd::arithmetic::div_mod::lemma_div_pos_is_pos(w, channels);
}

/// Before the first word no channel has anything behind it.
proof fn lemma_no_words(channels: int)
    requires
        channels > 0,
    ensures
        forall|c: int| 0 <= c < channels ==> #[trigger] groups_done(0, channels, c) == 0,
{
    lemma_fundamental_div_mod_converse(0, channels, 0, 0);
}

/// The last word of all is behind every channel's last group.
proof fn lemma_all_words(groups: int, channels: int)
    requires
        channels > 0,
        groups >= 0,
    ensures
        forall|c: int|
            0 <= c < channels ==> #[trigger] groups_done(groups * channels, channels, c) == groups,
{
    lemma_fundamental_div_mod_converse(groups * channels, channels, groups, 0);
}

/// Sample `i` is one of channel `c` in the eight frames from frame `base` on.
spec fn in_word(i: int, channels: int, c: int, base: int) -> bool {
    &&& i % channels == c
    &&& base <= i / channels < base + 8
}

/// Nibble `t` of the word that group `g` of channel `c` has.
proof fn lemma_nibble_in_word(block: Seq<u8>, channels: nat, c: int, g: int, t: int)
    requires
        g >= 0,
        0 <= t < 8,
    ensures
        ({
            let byte = block[4 * channels + 4 * (g * channels + c) + t / 2];
            nibble_in(block, channels, c, 8 * g + t) == if t % 2 == 0 {
                byte % 16
            } else {
                byte / 16
            }
        }),
{
    assert((8 * g + t) / 8 == g && (8 * g + t) % 8 == t && (8 * g + t) % 2 == t % 2);
}

/// Expand the eight nibbles at `pos` into channel `c` of the eight frames from
/// frame `base` on, from the state that the nibbles before them left.
fn decode_word(
    st: ChannelState,
    block: &[u8],
    channels: usize,
    c: usize,
    base: usize,
    out: &mut [u8],
    pos: usize,
) -> (r: ChannelState)
    requires
        st.valid(),
        1 <= channels <= MAX_CHANNELS,
        c < channels,
        base >= 1,
        (base - 1) % 8 == 0,
        pos == 4 * channels + 4 * ((base - 1) / 8 * channels + c),
        pos + 4 <= block@.len(),
        2 * ((base + 8) * channels) <= old(out)@.len(),
        st == after_nibbles(block@, channels as nat, c as int, (base - 1) as nat),
    ensures
        r.valid(),
        r == after_nibbles(block@, channels as nat, c as int, (base + 7) as nat),
        final(out)@.len() == old(out)@.len(),
        forall|f: int|
            base <= f < base + 8 ==> #[trigger] sample_in(final(out)@, f * channels + c)
                == after_nibbles(block@, channels as nat, c as int, f as nat).predictor,
        forall|i: int|
            0 <= i && 2 * i + 2 <= old(out)@.len() && !in_word(
                i,
                channels as int,
                c as int,
                base as int,
            ) ==> #[trigger] sample_in(final(out)@, i) == sample_in(old(out)@, i),
        forall|i: int|
            2 * ((base + 8) * channels) <= i < old(out)@.len() ==> #[trigger] final(out)@[i] == old(
                out,
            )@[i],
{
    let ghost before = out@;
    let ghost chn = channels as nat;
    let out_len: usize = out.len();
    let block_len: usize = block.len();
    let mut s: ChannelState = st;
    let mut t: usize = 0;
    while t < 8
        invariant
            t <= 8,
            s.valid(),
            chn == channels,
            1 <= channels <= MAX_CHANNELS,
            c < channels,
            base >= 1,
            (base - 1) % 8 == 0,
            pos == 4 * channels + 4 * ((base - 1) / 8 * channels + c),
            pos + 4 <= block_len,
            block_len == block@.len(),
            2 * ((base + 8) * channels) <= out_len,
            out_len == out@.len() == before.len(),
            s == after_nibbles(block@, chn, c as int, (base - 1 + t) as nat),
            forall|f: int|
                base <= f < base + t ==> #[trigger] sample_in(out@, f * channels + c)
                    == after_nibbles(block@, chn, c as int, f as nat).predictor,
            forall|i: int|
                0 <= i && 2 * i + 2 <= before.len() && !in_word(
                    i,
                    channels as int,
                    c as int,
                    base as int,
                ) ==> #[trigger] sample_in(out@, i) == sample_in(before, i),
            forall|i: int|
                2 * ((base + 8) * channels) <= i < before.len() ==> #[trigger] out@[i] == before[i],
        decreases 8 - t,
    {
        let ghost left = out@;
        let byte: u8 = block[pos + t / 2];
        let nibble: u8 = if t % 2 == 0 {
            byte % 16
        } else {
            byte / 16
        };
        proof {
            lemma_nibble_in_word(
                block@,
                chn,
                c as int,
                (base - 1) / 8,
                t as int,
            );
            assert(nibble == nibble_in(block@, chn, c as int, base - 1 + t));
            assert((base + t) * channels + channels <= (base + 8) * channels && (base + t)
                * channels >= 0) by (nonlinear_arith)
                requires
                    t < 8,
            ;
        }
        let v: i16 = s.decode(nibble);
        let at: usize = (base + t) * channels + c;
        put_sample(out, at, v);
        proof {
            lemma_fundamental_div_mod_converse(
                at as int,
                channels as int,
                (base + t) as int,
                c as int,
            );
            assert forall|f: int| base <= f < base + t + 1 implies #[trigger] sample_in(
                out@,
                f * channels + c,
            ) == after_nibbles(block@, chn, c as int, f as nat).predictor by {
                if f < base + t {
                    assert(f * channels + c < at && f * channels >= 0) by (nonlinear_arith)
                        requires
                            0 <= f < base + t,
                            at == (base + t) * channels + c,
                            channels >= 1,
                    ;
                    assert(sample_in(left, f * channels + c) == sample_in(out@, f * channels + c));
                }
            }
        }
        t += 1;
    }
    s
}

/// Decoder for one stream. Stateless across blocks (every block carries its
/// own header), so it can start anywhere.
#[derive(Debug)]
pub struct Decoder {
    /// Channels, 1 or 2.
    pub channels: u8,
    /// Frames each block holds.
    pub frames_per_block: usize,
    /// Blocks decoded.
    pub blocks: u64,
}

impl Clone for Decoder {
    fn clone(&self) -> (r: Self)
        ensures
            r == *self,
    {
        Decoder {
            channels: self.channels,
            frames_per_block: self.frames_per_block,
            blocks: self.blocks,
        }
    }
}

impl Decoder {
    /// The sizes are ones the codec takes.
    pub open spec fn valid(self) -> bool {
        sizes(self.channels as nat, self.frames_per_block as nat) is Ok
    }

    /// A decoder for `channels` (1 or 2) and `frames_per_block`.
    pub fn new(channels: u8, frames_per_block: usize) -> (r: Result<Self>)
        ensures
            r == (match sizes(channels as nat, frames_per_block as nat) {
                Err(e) => Err(e),
                Ok(_) => Ok(Decoder { channels, frames_per_block, blocks: 0 }),
            }),
    {
        check(channels, frames_per_block)?;
        Ok(Decoder { channels, frames_per_block, blocks: 0 })
    }

    /// Bytes each block consumes.
    pub fn block_align(&self) -> (r: usize)
        requires
            self.valid(),
            (self.frames_per_block - 1) * self.channels <= usize::MAX,
        ensures
            r == block_len(self.channels as nat, self.frames_per_block as nat),
    {
        block_align(self.channels, self.frames_per_block)
    }

    /// Bytes each block produces.
    pub fn pcm_bytes_per_block(&self) -> (r: usize)
        requires
            self.frames_per_block * self.channels * 2 <= usize::MAX,
        ensures
            r == self.frames_per_block * self.channels * 2,
    {
        self.frames_per_block * self.channels as usize * 2
    }

    /// What [`decode_block`](Self::decode_block) refuses: a block of another
    /// length, a buffer without room, or a step index that is none.
    pub open spec fn refusal(self, block: Seq<u8>, room: nat) -> Result<()> {
        let ch = self.channels as nat;
        let frames = self.frames_per_block as nat;
        if block.len() != block_len(ch, frames) {
            Err(Error::InvalidGeometry)
        } else {
            match room_for(room, frames * ch * 2) {
                Err(e) => Err(e),
                Ok(_) => if block[2] > 88 || ch == 2 && block[6] > 88 {
                    Err(Error::Corrupt)
                } else {
                    Ok(())
                },
            }
        }
    }

    /// Decode one block (`block_align` bytes) to interleaved i16 PCM;
    /// returns [`pcm_bytes_per_block`](Self::pcm_bytes_per_block).
    ///
    /// Where only the second channel's header is corrupt, the first sample of
    /// the first channel has been written when that is found.
    pub fn decode_block(&mut self, block: &[u8], out: &mut [u8]) -> (r: Result<usize>)
        requires
            old(self).valid(),
            old(self).blocks < u64::MAX,
        ensures
            final(self).channels == old(self).channels,
            final(self).frames_per_block == old(self).frames_per_block,
            match old(self).refusal(block@, old(out)@.len()) {
                Err(e) => {
                    &&& r == Err::<usize, Error>(e)
                    &&& final(self).blocks == old(self).blocks
                    &&& final(out)@ == (if e == Error::Corrupt && block@[2] <= 88 {
                        overwritten(old(out)@, block@.take(2))
                    } else {
                        old(out)@
                    })
                },
                Ok(_) => {
                    let samples = decoded(
                        block@,
                        old(self).channels as nat,
                        old(self).frames_per_block as nat,
                    );
                    &&& r == Ok::<usize, Error>((2 * samples.len()) as usize)
                    &&& final(out)@ == overwritten(old(out)@, encode16(samples))
                    &&& final(self).blocks == old(self).blocks + 1
                },
            },
    {
        let ch: usize = self.channels as usize;
        let frames: usize = self.frames_per_block;
        let groups: usize = (frames - 1) / 8;
        proof {
            lemma_block_len(ch as nat, frames as nat);
            assert(groups * ch <= groups * 2 && frames * ch <= frames * 2) by (nonlinear_arith)
                requires
                    ch <= 2,
            ;
        }
        if block.len() as u128 != 4 * ch as u128 + 4 * (groups as u128 * ch as u128) {
            return Err(Error::InvalidGeometry);
        }
        let need: u128 = frames as u128 * ch as u128 * 2;
        if (out.len() as u128) < need {
            return Err(
                Error::BufferTooSmall {
                    needed: if need > usize::MAX as u128 {
                        usize::MAX
                    } else {
                        need as usize
                    },
                },
            );
        }
        let ghost before = out@;
        let ghost chn = ch as nat;
        let ghost samples = decoded(block@, chn, frames as nat);
        let out_len: usize = out.len();
        let block_len: usize = block.len();
        let total: usize = groups * ch;
        let fresh = ChannelState { predictor: 0, step_index: 0 };
        let mut state: [ChannelState; MAX_CHANNELS] = [fresh, fresh];
        proof {
            assert(ch <= frames * ch) by (nonlinear_arith)
                requires
                    frames >= 1,
            ;
        }
        let mut c: usize = 0;
        while c < ch
            invariant
                c <= ch <= MAX_CHANNELS,
                ch == self.channels,
                frames == self.frames_per_block,
                *self == *old(self),
                block_len == block@.len(),
                block_len == crate::codec::adpcm_ima::block_len(ch as nat, frames as nat),
                4 * ch <= block_len,
                2 * (frames * ch) <= out_len,
                ch <= frames * ch,
                out_len == out@.len() == before.len(),
                before == old(out)@,
                state@.len() == MAX_CHANNELS,
                forall|k: int|
                    0 <= k < c ==> #[trigger] state@[k] == header_state(block@, k)
                        && state@[k].valid(),
                forall|i: int|
                    0 <= i < 2 * c ==> #[trigger] out@[i] == block@[4 * (i / 2) + i % 2],
                forall|i: int| 2 * c <= i < before.len() ==> #[trigger] out@[i] == before[i],
            decreases ch - c,
        {
            let first: i16 = get_sample(block, 2 * c);
            let index: u8 = block[4 * c + 2];
            if index > 88 {
                proof {
                    if c == 1 {
                        assert(state@[0].valid());
                        assert(out@ =~= overwritten(before, block@.take(2)));
                    } else {
                        assert(out@ =~= before);
                    }
                }
                return Err(Error::Corrupt);
            }
            state[c] = ChannelState { predictor: first as i32, step_index: index };
            put_i16_at(out, 2 * c, first);
            proof {
                crate::bytes::lemma_byte_pair_round_trip(
                    block@[4 * c as int],
                    block@[4 * c as int + 1],
                );
            }
            c += 1;
        }
        proof {
            assert(state@[0] == header_state(block@, 0));
            if ch == 2 {
                assert(state@[1] == header_state(block@, 1));
            }
            assert(old(self).refusal(block@, before.len()) is Ok);
            assert forall|k: int| 0 <= k < ch implies #[trigger] sample_in(out@, k)
                == after_nibbles(block@, chn, k, 0).predictor by {
                assert(out@[2 * k] == block@[4 * k]);
                assert(out@[2 * k + 1] == block@[4 * k + 1]);
            }
            lemma_no_words(ch as int);
            assert forall|k: int, f: int|
                0 <= k < ch && 0 <= f <= 8 * groups_done(0, ch as int, k) implies #[trigger] sample_in(
                out@,
                f * ch + k,
            ) == after_nibbles(block@, chn, k, f as nat).predictor by {
                assert(0 * ch == 0);
            }
        }
        let mut w: usize = 0;
        while w < total
            invariant
                1 <= ch <= MAX_CHANNELS,
                chn == ch,
                total == groups * ch,
                w <= total,
                frames == 8 * groups + 1,
                block_len == 4 * ch + 4 * total,
                block_len == block@.len(),
                2 * (frames * ch) <= out_len,
                out_len == out@.len() == before.len(),
                state@.len() == MAX_CHANNELS,
                *self == *old(self),
                forall|k: int|
                    0 <= k < ch ==> #[trigger] state@[k] == after_nibbles(
                        block@,
                        chn,
                        k,
                        (8 * groups_done(w as int, ch as int, k)) as nat,
                    ) && state@[k].valid(),
                forall|k: int, f: int|
                    0 <= k < ch && 0 <= f <= 8 * groups_done(w as int, ch as int, k)
                        ==> #[trigger] sample_in(out@, f * ch + k) == after_nibbles(
                        block@,
                        chn,
                        k,
                        f as nat,
                    ).predictor,
                forall|i: int|
                    2 * (frames * ch) <= i < before.len() ==> #[trigger] out@[i] == before[i],
            decreases total - w,
        {
            let g: usize = w / ch;
            let c: usize = w % ch;
            proof {
                lemma_next_word(w as int, ch as int);
                assert(g < groups) by (nonlinear_arith)
                    requires
                        w == g * ch + c,
                        w < groups * ch,
                        c >= 0,
                ;
                assert((8 * g + 9) * ch <= frames * ch) by (nonlinear_arith)
                    requires
                        g < groups,
                        frames == 8 * groups + 1,
                ;
            }
            let ghost left = out@;
            let ghost held = state@;
            let base: usize = 8 * g + 1;
            state[c] = decode_word(state[c], block, ch, c, base, out, 4 * ch + 4 * w);
            proof {
                assert forall|k: int, f: int|
                    0 <= k < ch && 0 <= f <= 8 * groups_done(
                        w + 1,
                        ch as int,
                        k,
                    ) implies #[trigger] sample_in(out@, f * ch + k) == after_nibbles(
                    block@,
                    chn,
                    k,
                    f as nat,
                ).predictor by {
                    let at = f * ch + k;
                    lemma_fundamental_div_mod_converse(at, ch as int, f, k);
                    if k == c && base <= f {
                    } else {
                        lemma_groups_bounded(w as int, ch as int, k, groups as int);
                        assert(0 <= at && at + 1 <= frames * ch) by (nonlinear_arith)
                            requires
                                at == f * ch + k,
                                0 <= k < ch,
                                0 <= f < frames,
                        ;
                        assert(!in_word(at, ch as int, c as int, base as int));
                        assert(sample_in(left, at) == sample_in(out@, at));
                    }
                }
                assert forall|k: int| 0 <= k < ch implies #[trigger] state@[k] == after_nibbles(
                    block@,
                    chn,
                    k,
                    (8 * groups_done(w + 1, ch as int, k)) as nat,
                ) && state@[k].valid() by {
                    if k != c {
                        assert(state@[k] == held[k]);
                    }
                }
            }
            w += 1;
        }
        proof {
            lemma_all_words(groups as int, ch as int);
            assert(samples.len() == frames * ch);
            assert forall|i: int| 0 <= i < samples.len() implies #[trigger] sample_in(out@, i)
                == samples[i] by {
                let f = i / ch as int;
                let k = i % ch as int;
                lemma_fundamental_div_mod(i, ch as int);
                assert(f * ch + k == i && 0 <= f < frames) by (nonlinear_arith)
                    requires
                        i == ch * f + k,
                        0 <= k < ch,
                        0 <= i < frames * ch,
                ;
                assert(sample_in(out@, f * ch + k) == after_nibbles(
                    block@,
                    chn,
                    k,
                    f as nat,
                ).predictor);
            }
            lemma_overwritten16(before, out@, samples);
        }
        self.blocks = self.blocks + 1;
        Ok(need as usize)
    }
}

/// No channel gets ahead of the groups there are.
proof fn lemma_groups_bounded(w: int, channels: int, c: int, groups: int)
    requires
        channels > 0,
        0 <= w < groups * channels,
        0 <= c < channels,
    ensures
        0 <= groups_done(w, channels, c) <= groups,
        groups_done(w + 1, channels, c) <= groups,
{
    lemma_next_word(w, channels);
    let g = w / channels;
    let m = w % channels;
    assert(g < groups) by (nonlinear_arith)
        requires
            w == g * channels + m,
            0 <= m < channels,
            w < groups * channels,
    ;
    assert(groups_done(w + 1, channels, c) == groups_done(w, channels, c) + if c == m {
        1int
    } else {
        0int
    });
}

impl ChannelState {
    /// Coding keeps a state valid, and its nibbles are nibbles.
    pub proof fn lemma_stays_valid(self, rule: PredictionRule, sample: i16, nibble: u8)
        requires
            self.valid(),
        ensures
            self.quantised(sample) < 16,
            self.followed(rule, nibble).valid(),
    {
        reveal(ChannelState::step);
        reveal(next_index);
        lemma_step_table(self.step_index as int);
        lemma_index_table(nibble as int % 16);
        let delta = sample - self.predictor;
        let size = if delta < 0 {
            -delta
        } else {
            delta
        };
        vstd::arithmetic::div_mod::lemma_div_pos_is_pos(size * 4, self.step());
    }
}

proof fn lemma_after_samples_valid(
    from: ChannelState,
    rule: PredictionRule,
    tail: Seq<i16>,
    k: nat,
)
    requires
        from.valid(),
    ensures
        after_samples(from, rule, tail, k).valid(),
    decreases k,
{
    if k > 0 {
        lemma_after_samples_valid(from, rule, tail, (k - 1) as nat);
        let before = after_samples(from, rule, tail, (k - 1) as nat);
        before.lemma_stays_valid(rule, tail[k - 1], before.quantised(tail[k - 1]));
    }
}

/// The nibbles in an encoded block are the codes of the samples.
proof fn lemma_nibble_is_code(
    states: Seq<ChannelState>,
    rule: PredictionRule,
    samples: Seq<i16>,
    channels: nat,
    frames: nat,
    c: int,
    k: int,
)
    requires
        sizes(channels, frames) is Ok,
        0 <= c < channels,
        states.len() == MAX_CHANNELS,
        forall|i: int| 0 <= i < channels ==> (#[trigger] states[i]).step_index <= 88,
        0 <= k < frames - 1,
    ensures
        nibble_in(encoded(states, rule, samples, channels, frames), channels, c, k) == code(
            start(states, samples, c),
            rule,
            channel(samples, channels, c).skip(1),
            k,
        ),
{
    let from = start(states, samples, c);
    let tail = channel(samples, channels, c).skip(1);
    let g = k / 8;
    let t = k % 8;
    let j = t / 2;
    assert(states[c].step_index <= 88);
    lemma_code_byte(states, rule, samples, channels, frames, c, g, j);
    lemma_code_is_nibble(from, rule, tail, 8 * g + 2 * j);
    lemma_code_is_nibble(from, rule, tail, 8 * g + 2 * j + 1);
    lemma_nibble_in_word(encoded(states, rule, samples, channels, frames), channels, c, g, t);
    lemma_two_nibbles(
        code(from, rule, tail, 8 * g + 2 * j),
        code(from, rule, tail, 8 * g + 2 * j + 1),
    );
    assert(k == 8 * g + t);
    if t % 2 == 0 {
        assert(8 * g + 2 * j == k);
    } else {
        assert(8 * g + 2 * j + 1 == k);
    }
}

proof fn lemma_two_nibbles(lo: u8, hi: u8)
    requires
        lo < 16,
        hi < 16,
    ensures
        (lo + 16 * hi) as u8 % 16 == lo,
        (lo + 16 * hi) as u8 / 16 == hi,
{
}

proof fn lemma_code_is_nibble(from: ChannelState, rule: PredictionRule, tail: Seq<i16>, k: int)
    requires
        from.valid(),
        k >= 0,
    ensures
        code(from, rule, tail, k) < 16,
{
    lemma_after_samples_valid(from, rule, tail, k as nat);
    after_samples(from, rule, tail, k as nat).lemma_stays_valid(rule, tail[k], 0);
}

/// Byte `j` of the word that group `g` of channel `c` has in an encoded block.
proof fn lemma_code_byte(
    states: Seq<ChannelState>,
    rule: PredictionRule,
    samples: Seq<i16>,
    channels: nat,
    frames: nat,
    c: int,
    g: int,
    j: int,
)
    requires
        sizes(channels, frames) is Ok,
        0 <= c < channels,
        0 <= g < (frames - 1) / 8,
        0 <= j < 4,
    ensures
        encoded(states, rule, samples, channels, frames)[4 * channels + 4 * (g * channels + c) + j]
            == (code(
            start(states, samples, c),
            rule,
            channel(samples, channels, c).skip(1),
            8 * g + 2 * j,
        ) + 16 * code(
            start(states, samples, c),
            rule,
            channel(samples, channels, c).skip(1),
            8 * g + 2 * j + 1,
        )) as u8,
{
    let ch = channels as int;
    let w = g * ch + c;
    let i = 4 * channels + 4 * w + j;
    let groups = (frames - 1) / 8;
    lemma_block_len(channels, frames);
    assert(0 <= w < groups * ch) by (nonlinear_arith)
        requires
            w == g * ch + c,
            0 <= c < ch,
            0 <= g < groups,
    ;
    lemma_fundamental_div_mod_converse(w, ch, g, c);
    assert((i - 4 * channels) / 4 == w && (i - 4 * channels) % 4 == j);
}

/// The loop is closed: decoding a block that was encoded with the decoder's own
/// rule, a decoder passes through the encoder's states. Every sample it puts
/// out is what the encoder predicted, so the two never drift apart.
pub proof fn lemma_decoder_follows_encoder(
    states: Seq<ChannelState>,
    samples: Seq<i16>,
    channels: nat,
    frames: nat,
    c: int,
    f: nat,
)
    requires
        sizes(channels, frames) is Ok,
        0 <= c < channels,
        f < frames,
        samples.len() == frames * channels,
        states.len() == MAX_CHANNELS,
        forall|i: int| 0 <= i < channels ==> (#[trigger] states[i]).step_index <= 88,
    ensures
        ({
            let rule = PredictionRule::DecoderExact;
            let block = encoded(states, rule, samples, channels, frames);
            let state = after_samples(
                start(states, samples, c),
                rule,
                channel(samples, channels, c).skip(1),
                f,
            );
            &&& after_nibbles(block, channels, c, f) == state
            &&& decoded(block, channels, frames)[f * channels + c] == state.predictor
        }),
    decreases f,
{
    let rule = PredictionRule::DecoderExact;
    let block = encoded(states, rule, samples, channels, frames);
    let from = start(states, samples, c);
    let tail = channel(samples, channels, c).skip(1);
    lemma_block_len(channels, frames);
    assert(f * channels + c < frames * channels && f * channels >= 0) by (nonlinear_arith)
        requires
            f < frames,
            0 <= c < channels,
    ;
    lemma_fundamental_div_mod_converse(
        (f * channels + c) as int,
        channels as int,
        f as int,
        c,
    );
    assert(states[c].step_index <= 88);
    lemma_after_samples_valid(from, rule, tail, f);
    if f == 0 {
        assert((4 * c) / 4 == c && (4 * c) % 4 == 0);
        assert((4 * c + 1) / 4 == c && (4 * c + 1) % 4 == 1);
        assert((4 * c + 2) / 4 == c && (4 * c + 2) % 4 == 2);
        assert(4 * c + 2 < block.len()) by {
            assert(((frames - 1) / 8) * channels >= 0) by (nonlinear_arith)
                requires
                    frames >= 1,
            ;
        }
        crate::bytes::lemma_le_i16_round_trip(samples[c]);
    } else {
        lemma_decoder_follows_encoder(states, samples, channels, frames, c, (f - 1) as nat);
        lemma_nibble_is_code(states, rule, samples, channels, frames, c, f - 1);
    }
}

/// A decoder takes what an encoder of the same sizes puts out: the block has
/// the length it wants, and no header is corrupt.
pub proof fn lemma_encoded_block_is_accepted(
    encoder: Encoder,
    decoder: Decoder,
    samples: Seq<i16>,
    room: nat,
)
    requires
        encoder.valid(),
        decoder.channels == encoder.channels,
        decoder.frames_per_block == encoder.frames_per_block,
        samples.len() == encoder.frames_per_block * encoder.channels,
        room >= 2 * samples.len(),
    ensures
        decoder.refusal(encoder.block(samples), room) is Ok,
{
    let block = encoder.block(samples);
    let ch = encoder.channels as nat;
    let frames = encoder.frames_per_block as nat;
    lemma_block_len(ch, frames);
    assert(((frames - 1) / 8) * ch >= 0) by (nonlinear_arith)
        requires
            frames >= 1,
    ;
    assert(encoder.state@[0].valid() && encoder.state@[1].valid());
    assert(2int / 4 == 0 && 6int / 4 == 1 && 6int % 4 == 2);
    assert(frames * ch * 2 == 2 * samples.len());
}

/// The step index of channel `c` after the first `k` nibbles of a block, from
/// the one in its header on.
pub open spec fn index_after(block: Seq<u8>, channels: nat, c: int, k: nat) -> u8
    decreases k,
{
    if k == 0 {
        block[4 * c + 2]
    } else {
        next_index(
            index_after(block, channels, c, (k - 1) as nat),
            nibble_in(block, channels, c, k - 1),
        )
    }
}

/// The header of channel `c` in an encoded block: the first sample, exactly, the
/// step index carried over, and a zero.
pub proof fn lemma_header(encoder: Encoder, samples: Seq<i16>, c: int)
    requires
        encoder.valid(),
        0 <= c < encoder.channels,
    ensures
        ({
            let block = encoder.block(samples);
            &&& block.len() >= 4 * c + 4
            &&& le_i16(block[4 * c], block[4 * c + 1]) == samples[c]
            &&& block[4 * c + 2] == encoder.state@[c].step_index
            &&& block[4 * c + 3] == 0
        }),
{
    let ch = encoder.channels as nat;
    let frames = encoder.frames_per_block as nat;
    lemma_block_len(ch, frames);
    assert(((frames - 1) / 8) * ch >= 0) by (nonlinear_arith)
        requires
            frames >= 1,
    ;
    assert((4 * c) / 4 == c && (4 * c) % 4 == 0);
    assert((4 * c + 1) / 4 == c && (4 * c + 1) % 4 == 1);
    assert((4 * c + 2) / 4 == c && (4 * c + 2) % 4 == 2);
    assert((4 * c + 3) / 4 == c && (4 * c + 3) % 4 == 3);
    crate::bytes::lemma_le_i16_round_trip(samples[c]);
}

/// The nibbles of a block lead from the step index in its header to the one that
/// the encoder goes on with.
proof fn lemma_index_follows(encoder: Encoder, samples: Seq<i16>, c: int, k: nat)
    requires
        encoder.valid(),
        0 <= c < encoder.channels,
        k < encoder.frames_per_block,
    ensures
        index_after(encoder.block(samples), encoder.channels as nat, c, k) == after_samples(
            start(encoder.state@, samples, c),
            encoder.rule,
            channel(samples, encoder.channels as nat, c).skip(1),
            k,
        ).step_index,
    decreases k,
{
    lemma_header(encoder, samples, c);
    if k > 0 {
        let ch = encoder.channels as nat;
        let frames = encoder.frames_per_block as nat;
        lemma_index_follows(encoder, samples, c, (k - 1) as nat);
        assert forall|i: int| 0 <= i < ch implies (#[trigger] encoder.state@[i]).step_index
            <= 88 by {
            assert(encoder.state@[i].valid());
        }
        lemma_nibble_is_code(encoder.state@, encoder.rule, samples, ch, frames, c, k - 1);
    }
}

/// The step index carries across blocks: the header of the next block has the
/// index that the nibbles of the block before lead to. A new encoder begins at
/// zero.
pub proof fn lemma_step_index_carries(
    encoder: Encoder,
    first: Seq<i16>,
    then: Encoder,
    second: Seq<i16>,
    c: int,
)
    requires
        encoder.valid(),
        then.valid(),
        then.channels == encoder.channels,
        then.frames_per_block == encoder.frames_per_block,
        0 <= c < encoder.channels,
        then.state@[c] == encoder.state_after(first, c),
    ensures
        ({
            let ch = encoder.channels as nat;
            let frames = encoder.frames_per_block as nat;
            let b1 = encoder.block(first);
            let b2 = then.block(second);
            &&& b2[4 * c + 2] == index_after(b1, ch, c, (frames - 1) as nat)
            &&& le_i16(b2[4 * c], b2[4 * c + 1]) == second[c]
            &&& b2[4 * c + 3] == 0
            &&& encoder.state@[c].step_index == 0 ==> b1[4 * c + 2] == 0
        }),
{
    lemma_header(encoder, first, c);
    lemma_header(then, second, c);
    lemma_index_follows(encoder, first, c, (encoder.frames_per_block - 1) as nat);
}

/// A block decodes the same wherever a decoder starts: what is refused and what
/// is decoded depend on the sizes and the block alone. The first frame is the
/// samples in the headers, exactly.
pub proof fn lemma_decoder_starts_anywhere(a: Decoder, b: Decoder, block: Seq<u8>, room: nat, c: int)
    requires
        a.valid(),
        a.channels == b.channels,
        a.frames_per_block == b.frames_per_block,
        0 <= c < a.channels,
    ensures
        a.refusal(block, room) == b.refusal(block, room),
        decoded(block, a.channels as nat, a.frames_per_block as nat) == decoded(
            block,
            b.channels as nat,
            b.frames_per_block as nat,
        ),
        decoded(block, a.channels as nat, a.frames_per_block as nat)[c] == le_i16(
            block[4 * c],
            block[4 * c + 1],
        ),
{
    let ch = a.channels as int;
    let frames = a.frames_per_block as int;
    assert(c < frames * ch) by (nonlinear_arith)
        requires
            0 <= c < ch,
            frames >= 1,
    ;
    lemma_fundamental_div_mod_converse(c, ch, 0, c);
}

/// Encoder and decoder of the same sizes agree on the length of a block, in
/// every state: it is what [`block_align`] says, and what every block encoded
/// has.
pub proof fn lemma_one_block_align(encoder: Encoder, decoder: Decoder, samples: Seq<i16>, room: nat)
    requires
        encoder.valid(),
        decoder.channels == encoder.channels,
        decoder.frames_per_block == encoder.frames_per_block,
    ensures
        encoder.block(samples).len() == block_len(
            encoder.channels as nat,
            encoder.frames_per_block as nat,
        ),
        decoder.refusal(encoder.block(samples), room) != Err::<(), Error>(Error::InvalidGeometry),
{
}

/// The steps grow by a tenth each, rounded one way or the other, from 7 up to
/// the largest sample, where the last one stops short.
pub proof fn lemma_steps_grow_by_a_tenth(i: int)
    requires
        0 <= i < 88,
    ensures
        STEP_TABLE@.len() == 89,
        STEP_TABLE@[0] == 7,
        STEP_TABLE@[88] == 32767,
        STEP_TABLE@[i] < STEP_TABLE@[i + 1],
        i < 87 ==> -8 <= 10 * STEP_TABLE@[i + 1] - 11 * STEP_TABLE@[i] <= 8,
{
}

/// The steps are those that the format fixes, eight to a line.
pub proof fn lemma_steps_of_the_format()
    ensures
        STEP_TABLE@.len() == 89,
        STEP_TABLE@.subrange(0, 8) == seq![7i32, 8, 9, 10, 11, 12, 13, 14],
        STEP_TABLE@.subrange(8, 16) == seq![16i32, 17, 19, 21, 23, 25, 28, 31],
        STEP_TABLE@.subrange(16, 24) == seq![34i32, 37, 41, 45, 50, 55, 60, 66],
        STEP_TABLE@.subrange(24, 32) == seq![73i32, 80, 88, 97, 107, 118, 130, 143],
        STEP_TABLE@.subrange(32, 40) == seq![157i32, 173, 190, 209, 230, 253, 279, 307],
        STEP_TABLE@.subrange(40, 48) == seq![337i32, 371, 408, 449, 494, 544, 598, 658],
        STEP_TABLE@.subrange(48, 56) == seq![724i32, 796, 876, 963, 1060, 1166, 1282, 1411],
        STEP_TABLE@.subrange(56, 64) == seq![1552i32, 1707, 1878, 2066, 2272, 2499, 2749, 3024],
        STEP_TABLE@.subrange(64, 72) == seq![3327i32, 3660, 4026, 4428, 4871, 5358, 5894, 6484],
        STEP_TABLE@.subrange(72, 80) == seq![7132i32, 7845, 8630, 9493, 10442, 11487, 12635, 13899],
        STEP_TABLE@.subrange(80, 88) == seq![15289i32, 16818, 18500, 20350, 22385, 24623, 27086, 29794],
        STEP_TABLE@.subrange(88, 89) == seq![32767i32],
{
    assert(STEP_TABLE@.subrange(0, 8) =~= seq![7i32, 8, 9, 10, 11, 12, 13, 14]);
    assert(STEP_TABLE@.subrange(8, 16) =~= seq![16i32, 17, 19, 21, 23, 25, 28, 31]);
    assert(STEP_TABLE@.subrange(16, 24) =~= seq![34i32, 37, 41, 45, 50, 55, 60, 66]);
    assert(STEP_TABLE@.subrange(24, 32) =~= seq![73i32, 80, 88, 97, 107, 118, 130, 143]);
    assert(STEP_TABLE@.subrange(32, 40) =~= seq![157i32, 173, 190, 209, 230, 253, 279, 307]);
    assert(STEP_TABLE@.subrange(40, 48) =~= seq![337i32, 371, 408, 449, 494, 544, 598, 658]);
    assert(STEP_TABLE@.subrange(48, 56) =~= seq![724i32, 796, 876, 963, 1060, 1166, 1282, 1411]);
    assert(STEP_TABLE@.subrange(56, 64) =~= seq![1552i32, 1707, 1878, 2066, 2272, 2499, 2749, 3024]);
    assert(STEP_TABLE@.subrange(64, 72) =~= seq![3327i32, 3660, 4026, 4428, 4871, 5358, 5894, 6484]);
    assert(STEP_TABLE@.subrange(72, 80) =~= seq![7132i32, 7845, 8630, 9493, 10442, 11487, 12635, 13899]);
    assert(STEP_TABLE@.subrange(80, 88) =~= seq![15289i32, 16818, 18500, 20350, 22385, 24623, 27086, 29794]);
    assert(STEP_TABLE@.subrange(88, 89) =~= seq![32767i32]);
}

/// Decoding a nibble moves the sample by an eighth of the step, and by the whole
/// step, half of it and a quarter of it where the bits 2, 1 and 0 say so, each
/// rounded down; bit 3 says whether down or up. The sum saturates at the bounds
/// of 16 bits. The step index goes down by one for the four small codes, and up
/// by 2, 4, 6 or 8 for the four large ones, within the table.
pub proof fn lemma_decoding_a_nibble(state: ChannelState, nibble: u8)
    requires
        state.valid(),
    ensures
        ({
            let step = STEP_TABLE@[state.step_index as int] as int;
            let large = nibble % 8 >= 4;
            let d = step / 8 + (if large {
                step
            } else {
                0
            }) + (if nibble % 4 >= 2 {
                step / 2
            } else {
                0
            }) + (if nibble % 2 == 1 {
                step / 4
            } else {
                0
            });
            let sum = if (nibble / 8) % 2 == 1 {
                state.predictor - d
            } else {
                state.predictor + d
            };
            let next = state.expanded(nibble);
            &&& -32768 <= sum <= 32767 ==> next.predictor == sum
            &&& sum > 32767 ==> next.predictor == 32767
            &&& sum < -32768 ==> next.predictor == -32768
            &&& moves_the_index(state.step_index as int, nibble, next.step_index as int)
        }),
{
    reveal(ChannelState::step);
    lemma_index_moves(state.step_index, nibble);
    let step = STEP_TABLE@[state.step_index as int] as int;
    lemma_bit_product(bit(nibble, 4), step);
    lemma_bit_product(bit(nibble, 2), step / 2);
    lemma_bit_product(bit(nibble, 1), step / 4);
}

/// From `index` the code `nibble` leads to `next`: the codes 0 to 3 lead one
/// down, and 4 to 7 lead up by 2, 4, 6 and 8; nothing leads out of 0 to 88.
pub open spec fn moves_the_index(index: int, nibble: u8, next: int) -> bool {
    let m = nibble as int % 8;
    let to = if m < 4 {
        index - 1
    } else {
        index + 2 * (m - 3)
    };
    &&& 0 <= next <= 88
    &&& 0 <= to <= 88 ==> next == to
    &&& to < 0 ==> next == 0
    &&& to > 88 ==> next == 88
}

proof fn lemma_index_moves(index: u8, nibble: u8)
    requires
        index <= 88,
    ensures
        moves_the_index(index as int, nibble, next_index(index, nibble) as int),
{
    reveal(next_index);
    let n = nibble as int % 16;
    assert(INDEX_TABLE@[n] == (if n % 8 < 4 {
        -1
    } else {
        2 * (n % 8 - 3)
    }));
}

/// The code of a sample: bit 3 says whether it lies below the prediction, and
/// the other bits how many whole quarters of a step it lies away, at most seven.
pub proof fn lemma_coding_a_sample(state: ChannelState, sample: i16)
    requires
        state.valid(),
    ensures
        ({
            let n = state.quantised(sample);
            let m = n as int % 8;
            let step = STEP_TABLE@[state.step_index as int] as int;
            let away = if sample < state.predictor {
                state.predictor - sample
            } else {
                sample - state.predictor
            };
            &&& n < 16
            &&& n >= 8 <==> sample < state.predictor
            &&& m * step <= 4 * away
            &&& m < 7 ==> 4 * away < (m + 1) * step
        }),
{
    reveal(ChannelState::step);
    lemma_step_table(state.step_index as int);
    let step = STEP_TABLE@[state.step_index as int] as int;
    let away = if sample < state.predictor {
        state.predictor - sample
    } else {
        sample - state.predictor
    };
    lemma_fundamental_div_mod(4 * away, step);
    let q = 4 * away / step;
    let r = (4 * away) % step;
    vstd::arithmetic::div_mod::lemma_div_pos_is_pos(4 * away, step);
    assert(q * step <= 4 * away < (q + 1) * step && (q >= 7 ==> 7 * step <= 4 * away))
        by (nonlinear_arith)
        requires
            4 * away == step * q + r,
            0 <= r < step,
    ;
}

/// Where a sample lies less than two steps from the prediction, coding it brings
/// the prediction within an eighth of a step of it, but for what rounding cuts
/// off: less than three. So it is with either rule, upwards and downwards, at
/// every step.
pub proof fn lemma_coding_comes_close(state: ChannelState, rule: PredictionRule, sample: i16)
    requires
        state.valid(),
        -2 * STEP_TABLE@[state.step_index as int] < sample - state.predictor < 2
            * STEP_TABLE@[state.step_index as int],
    ensures
        ({
            let next = state.followed(rule, state.quantised(sample));
            let step = STEP_TABLE@[state.step_index as int] as int;
            &&& -(step + 24) < 8 * (next.predictor - sample) < step + 24
            &&& -step <= next.predictor - sample <= step
        }),
{
    reveal(ChannelState::step);
    lemma_step_table(state.step_index as int);
    lemma_coding_a_sample(state, sample);
    let n = state.quantised(sample);
    let m = n as int % 8;
    let step = STEP_TABLE@[state.step_index as int] as int;
    let whole = (2 * m + 1) * step;
    lemma_expansions_differ_by_truncation(step, n);
    assert(whole == 2 * (m * step) + step && (m + 1) * step == m * step + step)
        by (nonlinear_arith)
        requires
            whole == (2 * m + 1) * step,
    ;
    if m == 7 {
        assert(m * step == 7 * step);
    }
    assert(bit(n, 8) == 1 <==> n >= 8);
}

/// An encoder that predicts as ffmpeg's does moves its prediction by
/// `(2m + 1)` eighths of a step, rounded down, where `m` is the code without its
/// sign; the step index moves as the decoder's does.
pub proof fn lemma_ffmpeg_prediction(state: ChannelState, nibble: u8)
    requires
        state.valid(),
        nibble < 16,
    ensures
        ({
            let step = STEP_TABLE@[state.step_index as int] as int;
            let m = nibble as int % 8;
            let next = state.followed(PredictionRule::FfmpegEncoder, nibble);
            let moved = if nibble >= 8 {
                state.predictor - next.predictor
            } else {
                next.predictor - state.predictor
            };
            &&& -32768 <= next.predictor <= 32767
            &&& 8 * moved <= (2 * m + 1) * step
            &&& -32768 < next.predictor < 32767 ==> (2 * m + 1) * step < 8 * moved + 8
            &&& moves_the_index(state.step_index as int, nibble, next.step_index as int)
        }),
{
    reveal(ChannelState::step);
    lemma_step_table(state.step_index as int);
    lemma_index_moves(state.step_index, nibble);
    let step = STEP_TABLE@[state.step_index as int] as int;
    lemma_magnitudes(step, nibble);
    lemma_fundamental_div_mod((2 * (nibble as int % 8) + 1) * step, 8);
    assert(bit(nibble, 8) == 1 <==> nibble >= 8);
}

/// The four bits of channel `c` for frame `f + 1`, as they lie in a block: behind
/// the headers every channel in turn has a word of four bytes for eight frames,
/// two frames to a byte, the earlier in the low half.
pub open spec fn code_lies(block: Seq<u8>, channels: int, c: int, f: int, nibble: u8) -> bool {
    exists|g: int, t: int|
        {
            &&& 0 <= t < 8
            &&& f == 8 * g + t
            &&& nibble < 16
            &&& t % 2 == 0 ==> #[trigger] half_of(block, channels, c, g, t) % 16 == nibble
            &&& t % 2 == 1 ==> half_of(block, channels, c, g, t) / 16 == nibble
        }
}

/// The byte for frames `t` and its neighbour of group `g` of channel `c`.
pub open spec fn half_of(block: Seq<u8>, channels: int, c: int, g: int, t: int) -> u8 {
    block[4 * channels + 4 * channels * g + 4 * c + t / 2]
}

/// The samples of a decoded block follow from one another: the first of each
/// channel is in its header, and every other is the one before it moved by its
/// code. The step index starts at the header's and moves with the codes.
pub proof fn lemma_decoded_sample_by_sample(
    decoder: Decoder,
    block: Seq<u8>,
    room: nat,
    c: int,
    f: int,
)
    requires
        decoder.valid(),
        decoder.refusal(block, room) is Ok,
        0 <= c < decoder.channels,
        0 <= f < decoder.frames_per_block - 1,
    ensures
        ({
            let ch = decoder.channels as int;
            let frames = decoder.frames_per_block as int;
            let y = decoded(block, ch as nat, frames as nat);
            let index = index_after(block, ch as nat, c, f as nat);
            let next_index = index_after(block, ch as nat, c, (f + 1) as nat);
            let here = ChannelState { predictor: y[f * ch + c] as i32, step_index: index };
            &&& y.len() == frames * ch
            &&& 0 <= index <= 88
            &&& y[c] == le_i16(block[4 * c], block[4 * c + 1])
            &&& index_after(block, ch as nat, c, 0) == block[4 * c + 2]
            &&& exists|nibble: u8|
                {
                    &&& #[trigger] code_lies(block, ch, c, f, nibble)
                    &&& y[(f + 1) * ch + c] == here.expanded(nibble).predictor
                    &&& moves_the_index(index as int, nibble, next_index as int)
                }
        }),
{
    let ch = decoder.channels as int;
    let chn = ch as nat;
    let frames = decoder.frames_per_block as int;
    let y = decoded(block, chn, frames as nat);
    lemma_decoded_at(block, chn, frames as nat, c, 0);
    lemma_decoded_at(block, chn, frames as nat, c, f);
    lemma_decoded_at(block, chn, frames as nat, c, f + 1);
    assert(0 * ch == 0);
    lemma_nibbles_stay_valid(decoder, block, room, c, f as nat);
    lemma_nibbles_stay_valid(decoder, block, room, c, (f + 1) as nat);
    let nibble = nibble_in(block, chn, c, f);
    lemma_index_moves(index_after(block, chn, c, f as nat), nibble);
    lemma_code_lies(block, ch, c, f);
}

/// Sample `f` of channel `c` of a decoded block.
proof fn lemma_decoded_at(block: Seq<u8>, channels: nat, frames: nat, c: int, f: int)
    requires
        0 <= c < channels,
        0 <= f < frames,
    ensures
        0 <= f * channels + c < frames * channels,
        decoded(block, channels, frames)[f * channels + c] == after_nibbles(
            block,
            channels,
            c,
            f as nat,
        ).predictor as i16,
{
    let ch = channels as int;
    assert(0 <= f * ch + c < frames * ch) by (nonlinear_arith)
        requires
            0 <= f < frames,
            0 <= c < ch,
    ;
    lemma_fundamental_div_mod_converse(f * ch + c, ch, f, c);
}

proof fn lemma_nibbles_stay_valid(decoder: Decoder, block: Seq<u8>, room: nat, c: int, k: nat)
    requires
        decoder.valid(),
        decoder.refusal(block, room) is Ok,
        0 <= c < decoder.channels,
    ensures
        after_nibbles(block, decoder.channels as nat, c, k).valid(),
        after_nibbles(block, decoder.channels as nat, c, k).step_index == index_after(
            block,
            decoder.channels as nat,
            c,
            k,
        ),
    decreases k,
{
    if k > 0 {
        let ch = decoder.channels as nat;
        lemma_nibbles_stay_valid(decoder, block, room, c, (k - 1) as nat);
        after_nibbles(block, ch, c, (k - 1) as nat).lemma_stays_valid(
            PredictionRule::DecoderExact,
            0,
            nibble_in(block, ch, c, k - 1),
        );
    }
}

/// What a listener gets of a block that was encoded with the decoder's rule: the
/// code of every sample tells how many quarters of a step it lies from the sample
/// decoded before it, and where that is less than two steps, the sample decoded
/// is within an eighth of a step of the one encoded, but for what rounding cuts
/// off.
pub proof fn lemma_what_a_listener_gets(encoder: Encoder, samples: Seq<i16>, c: int, f: int)
    requires
        encoder.valid(),
        encoder.rule == PredictionRule::DecoderExact,
        samples.len() == encoder.frames_per_block * encoder.channels,
        0 <= c < encoder.channels,
        0 <= f < encoder.frames_per_block - 1,
    ensures
        ({
            let ch = encoder.channels as int;
            let frames = encoder.frames_per_block as int;
            let block = encoder.block(samples);
            let y = decoded(block, ch as nat, frames as nat);
            let step = STEP_TABLE@[index_after(block, ch as nat, c, f as nat) as int] as int;
            let x = samples[(f + 1) * ch + c];
            let was = y[f * ch + c];
            let is = y[(f + 1) * ch + c];
            let away = if x < was {
                was - x
            } else {
                x - was
            };
            &&& y.len() == samples.len()
            &&& y[c] == samples[c]
            &&& exists|nibble: u8|
                {
                    &&& #[trigger] code_lies(block, ch, c, f, nibble)
                    &&& nibble >= 8 <==> x < was
                    &&& (nibble as int % 8) * step <= 4 * away
                    &&& nibble as int % 8 < 7 ==> 4 * away < (nibble as int % 8 + 1) * step
                }
            &&& away < 2 * step ==> -(step + 24) < 8 * (is - x) < step + 24
            &&& away < 2 * step ==> -step <= is - x <= step
        }),
{
    let ch = encoder.channels as int;
    let chn = ch as nat;
    let frames = encoder.frames_per_block as int;
    let block = encoder.block(samples);
    let y = decoded(block, chn, frames as nat);
    let from = start(encoder.state@, samples, c);
    let tail = channel(samples, chn, c).skip(1);
    assert forall|i: int| 0 <= i < ch implies (#[trigger] encoder.state@[i]).step_index <= 88 by {
        assert(encoder.state@[i].valid());
    }
    assert(encoder.state@[c].valid());
    lemma_decoder_follows_encoder(encoder.state@, samples, chn, frames as nat, c, f as nat);
    lemma_decoder_follows_encoder(encoder.state@, samples, chn, frames as nat, c, (f + 1) as nat);
    lemma_decoder_follows_encoder(encoder.state@, samples, chn, frames as nat, c, 0);
    assert(0 * ch == 0);
    lemma_index_follows(encoder, samples, c, f as nat);
    let state = after_samples(from, encoder.rule, tail, f as nat);
    lemma_after_samples_valid(from, encoder.rule, tail, f as nat);
    lemma_fundamental_div_mod_converse(samples.len() as int, ch, frames, 0);
    let x = tail[f];
    assert(x == samples[(f + 1) * ch + c]);
    lemma_coding_a_sample(state, x);
    lemma_nibble_is_code(encoder.state@, encoder.rule, samples, chn, frames as nat, c, f);
    let nibble = nibble_in(block, chn, c, f);
    lemma_code_lies(block, ch, c, f);
    let step = STEP_TABLE@[state.step_index as int] as int;
    if -2 * step < x - state.predictor < 2 * step {
        lemma_coding_comes_close(state, encoder.rule, x);
    }
    assert(after_samples(from, encoder.rule, tail, (f + 1) as nat) == state.followed(
        encoder.rule,
        state.quantised(x),
    ));
}

/// What an encoder puts into a block, with either rule: from the first sample of
/// a channel on, every code tells how many quarters of a step the next sample
/// lies from the prediction, and the prediction follows the code by the rule.
pub proof fn lemma_encoded_sample_by_sample(encoder: Encoder, samples: Seq<i16>, c: int, f: int)
    requires
        encoder.valid(),
        samples.len() == encoder.frames_per_block * encoder.channels,
        0 <= c < encoder.channels,
        0 <= f < encoder.frames_per_block - 1,
    ensures
        ({
            let ch = encoder.channels as int;
            let block = encoder.block(samples);
            let from = start(encoder.state@, samples, c);
            let tail = channel(samples, ch as nat, c).skip(1);
            let here = after_samples(from, encoder.rule, tail, f as nat);
            let next = after_samples(from, encoder.rule, tail, (f + 1) as nat);
            let step = STEP_TABLE@[here.step_index as int] as int;
            let x = samples[(f + 1) * ch + c];
            let away = if x < here.predictor {
                here.predictor - x
            } else {
                x - here.predictor
            };
            &&& after_samples(from, encoder.rule, tail, 0).predictor == samples[c]
            &&& here.step_index == index_after(block, ch as nat, c, f as nat)
            &&& here.valid()
            &&& exists|nibble: u8|
                {
                    &&& #[trigger] code_lies(block, ch, c, f, nibble)
                    &&& nibble >= 8 <==> x < here.predictor
                    &&& (nibble as int % 8) * step <= 4 * away
                    &&& nibble as int % 8 < 7 ==> 4 * away < (nibble as int % 8 + 1) * step
                    &&& next == here.followed(encoder.rule, nibble)
                }
            &&& f == encoder.frames_per_block - 2 ==> next == encoder.state_after(samples, c)
        }),
{
    let ch = encoder.channels as int;
    let chn = ch as nat;
    let frames = encoder.frames_per_block as int;
    let block = encoder.block(samples);
    let from = start(encoder.state@, samples, c);
    let tail = channel(samples, chn, c).skip(1);
    assert forall|i: int| 0 <= i < ch implies (#[trigger] encoder.state@[i]).step_index <= 88 by {
        assert(encoder.state@[i].valid());
    }
    assert(encoder.state@[c].valid());
    lemma_index_follows(encoder, samples, c, f as nat);
    let state = after_samples(from, encoder.rule, tail, f as nat);
    lemma_after_samples_valid(from, encoder.rule, tail, f as nat);
    lemma_fundamental_div_mod_converse(samples.len() as int, ch, frames, 0);
    let x = tail[f];
    assert(x == samples[(f + 1) * ch + c]);
    lemma_coding_a_sample(state, x);
    lemma_nibble_is_code(encoder.state@, encoder.rule, samples, chn, frames as nat, c, f);
    let nibble = nibble_in(block, chn, c, f);
    lemma_code_lies(block, ch, c, f);
    assert(after_samples(from, encoder.rule, tail, (f + 1) as nat) == state.followed(
        encoder.rule,
        state.quantised(x),
    ));
}

proof fn lemma_code_lies(block: Seq<u8>, channels: int, c: int, f: int)
    requires
        channels > 0,
        f >= 0,
    ensures
        code_lies(block, channels, c, f, nibble_in(block, channels as nat, c, f)),
{
    let chn = channels as nat;
    let g = f / 8;
    let t = f % 8;
    assert(4 * (g * chn + c) == 4 * channels * g + 4 * c) by (nonlinear_arith)
        requires
            chn == channels,
    ;
    assert(t % 2 == f % 2);
    assert(half_of(block, channels, c, g, t) == block[4 * chn + 4 * (g * chn + c) + t / 2]);
}

/// Which sizes are taken, and how long a block is: for one or two channels and a
/// multiple of eight frames after the first, four bytes for each channel, and
/// half a byte for each channel of each later frame.
pub proof fn lemma_sizes_taken(channels: nat, frames: nat)
    ensures
        sizes(channels, frames) is Ok <==> 1 <= channels <= 2 && frames >= 9 && frames % 8 == 1,
        channels == 0 || channels > 2 ==> sizes(channels, frames) == Err::<(), Error>(
            Error::Unsupported,
        ),
        1 <= channels <= 2 && sizes(channels, frames) is Err ==> sizes(channels, frames) == Err::<
            (),
            Error,
        >(Error::InvalidFormat),
        sizes(channels, frames) is Ok ==> 2 * block_len(channels, frames) == 8 * channels + frames
            * channels - channels,
{
    if sizes(channels, frames) is Ok {
        lemma_block_len(channels, frames);
        let g = (frames - 1) / 8;
        assert(8 * (g * channels) == frames * channels - channels) by (nonlinear_arith)
            requires
                frames == 8 * g + 1,
        ;
    }
}

/// When a block is refused. An encoder wants all the samples of a block and room
/// for its bytes; a decoder wants all its bytes, room for its samples, and step
/// indices of the table. Nothing else is refused.
pub proof fn lemma_blocks_refused(
    encoder: Encoder,
    decoder: Decoder,
    pcm_len: nat,
    block: Seq<u8>,
    room: nat,
)
    requires
        encoder.valid(),
        decoder.valid(),
        room <= usize::MAX,
    ensures
        ({
            let ch = encoder.channels as int;
            let n = encoder.frames_per_block as int;
            let want = 4 * ch + (n - 1) * ch / 2;
            &&& encoder.refusal(pcm_len, room) is Ok <==> pcm_len == 2 * (n * ch) && room >= want
            &&& pcm_len != 2 * (n * ch) ==> encoder.refusal(pcm_len, room) == Err::<(), Error>(
                Error::InvalidGeometry,
            )
            &&& pcm_len == 2 * (n * ch) && room < want && want <= usize::MAX ==> encoder.refusal(
                pcm_len,
                room,
            ) == Err::<(), Error>(Error::BufferTooSmall { needed: want as usize })
        }),
        ({
            let ch = decoder.channels as int;
            let n = decoder.frames_per_block as int;
            let fits = block.len() == 4 * ch + (n - 1) * ch / 2;
            let known = block[2] <= 88 && (ch == 2 ==> block[6] <= 88);
            &&& decoder.refusal(block, room) is Ok <==> fits && room >= 2 * (n * ch) && known
            &&& !fits ==> decoder.refusal(block, room) == Err::<(), Error>(Error::InvalidGeometry)
            &&& fits && room < 2 * (n * ch) <= usize::MAX ==> decoder.refusal(block, room) == Err::<
                (),
                Error,
            >(Error::BufferTooSmall { needed: (2 * (n * ch)) as usize })
            &&& fits && room >= 2 * (n * ch) && !known ==> decoder.refusal(block, room) == Err::<
                (),
                Error,
            >(Error::Corrupt)
        }),
{
    assert(encoder.frames_per_block as nat * encoder.channels as nat * 2 == 2 * (
    encoder.frames_per_block as int * encoder.channels as int)) by (nonlinear_arith);
    assert(decoder.frames_per_block as nat * decoder.channels as nat * 2 == 2 * (
    decoder.frames_per_block as int * decoder.channels as int)) by (nonlinear_arith);
    lemma_block_len(encoder.channels as nat, encoder.frames_per_block as nat);
    lemma_block_len(decoder.channels as nat, decoder.frames_per_block as nat);
}

} // verus!
