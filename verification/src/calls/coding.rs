//! Calls of the ADPCM coder.

use vstd::prelude::*;

use crate::bytes::{decode16, le_i16, sample_in};
use crate::codec::adpcm_ima::{
    code_lies, decoded, index_after, lemma_blocks_refused, lemma_coding_a_sample,
    lemma_coding_comes_close, lemma_decoded_sample_by_sample, lemma_decoding_a_nibble,
    lemma_header, lemma_step_index_carries, lemma_what_a_listener_gets, moves_the_index, ChannelState, Decoder, Encoder,
    PredictionRule, STEP_TABLE,
};
use crate::esp_core::error::{Error, Result};

verus! {

/// From the sample `was` the code `nibble` leads to `is` at a step: by an eighth of
/// the step, and by all, half and a quarter of it as the bits 2, 1 and 0 say, each
/// rounded down; downwards if bit 3 is set; and not beyond 16 bits.
pub open spec fn leads_to(was: int, step: int, nibble: u8, is: int) -> bool {
    let d = step / 8 + (if nibble % 8 >= 4 {
        step
    } else {
        0
    }) + (if nibble % 4 >= 2 {
        step / 2
    } else {
        0
    }) + (if nibble % 2 == 1 {
        step / 4
    } else {
        0
    });
    let sum = if (nibble / 8) % 2 == 1 {
        was - d
    } else {
        was + d
    };
    &&& -32768 <= sum <= 32767 ==> is == sum
    &&& sum > 32767 ==> is == 32767
    &&& sum < -32768 ==> is == -32768
}

/// Every call of [`ChannelState::decode`]: the sample answered is the one before
/// it, moved as the code says at the current step, and it is the one after which
/// the next is decoded; the step index moves with the code.
pub proof fn law_decode(nibble: u8, r: i16)
    ensures
        forall|s: &mut ChannelState| #[trigger]
            call_ensures(ChannelState::decode, (s, nibble), r) && s.valid() ==> {
                &&& leads_to(
                    s.predictor as int,
                    STEP_TABLE@[s.step_index as int] as int,
                    nibble,
                    r as int,
                )
                &&& final(s).predictor == r
                &&& moves_the_index(s.step_index as int, nibble, final(s).step_index as int)
            },
{
    assert forall|s: &mut ChannelState| #[trigger]
        call_ensures(ChannelState::decode, (s, nibble), r) && s.valid() implies {
        &&& leads_to(
            s.predictor as int,
            STEP_TABLE@[s.step_index as int] as int,
            nibble,
            r as int,
        )
        &&& final(s).predictor == r
        &&& moves_the_index(s.step_index as int, nibble, final(s).step_index as int)
    } by {
        lemma_decoding_a_nibble(*s, nibble);
    }
}

/// Every call of [`ChannelState::encode`]: the code tells on which side of the
/// prediction the sample lies, and how many quarters of the step away, at most
/// seven. Where that is less than two steps, the new prediction is within one step
/// of the sample, and within an eighth of one but for rounding. With the decoder's
/// rule the new prediction is what the decoder makes of the code.
pub proof fn law_encode(sample: i16, rule: PredictionRule, r: u8)
    ensures
        forall|s: &mut ChannelState| #[trigger]
            call_ensures(ChannelState::encode, (s, sample, rule), r) && s.valid() ==> {
                let step = STEP_TABLE@[s.step_index as int] as int;
                let away = if sample < s.predictor {
                    s.predictor - sample
                } else {
                    sample - s.predictor
                };
                let m = r as int % 8;
                &&& r < 16
                &&& r >= 8 <==> sample < s.predictor
                &&& m * step <= 4 * away
                &&& m < 7 ==> 4 * away < (m + 1) * step
                &&& away < 2 * step ==> {
                    &&& -step <= final(s).predictor - sample <= step
                    &&& -(step + 24) < 8 * (final(s).predictor - sample) < step + 24
                }
                &&& rule == PredictionRule::DecoderExact ==> leads_to(
                    s.predictor as int,
                    step,
                    r,
                    final(s).predictor as int,
                )
                &&& moves_the_index(s.step_index as int, r, final(s).step_index as int)
            },
{
    assert forall|s: &mut ChannelState| #[trigger]
        call_ensures(ChannelState::encode, (s, sample, rule), r) && s.valid() implies {
        let step = STEP_TABLE@[s.step_index as int] as int;
        let away = if sample < s.predictor {
            s.predictor - sample
        } else {
            sample - s.predictor
        };
        let m = r as int % 8;
        &&& r < 16
        &&& r >= 8 <==> sample < s.predictor
        &&& m * step <= 4 * away
        &&& m < 7 ==> 4 * away < (m + 1) * step
        &&& away < 2 * step ==> {
            &&& -step <= final(s).predictor - sample <= step
            &&& -(step + 24) < 8 * (final(s).predictor - sample) < step + 24
        }
        &&& rule == PredictionRule::DecoderExact ==> leads_to(
            s.predictor as int,
            step,
            r,
            final(s).predictor as int,
        )
        &&& moves_the_index(s.step_index as int, r, final(s).step_index as int)
    } by {
        let step = STEP_TABLE@[s.step_index as int] as int;
        lemma_coding_a_sample(*s, sample);
        lemma_decoding_a_nibble(*s, r);
        crate::codec::adpcm_ima::lemma_ffmpeg_prediction(*s, r);
        if -2 * step < sample - s.predictor < 2 * step {
            lemma_coding_comes_close(*s, rule, sample);
        }
    }
}

/// Frame `f + 1` of channel `c` of a block was decoded from the one before it: by
/// the code that lies in its place, at the step that the codes before it lead to.
pub open spec fn decoded_from(
    block: Seq<u8>,
    channels: int,
    c: int,
    f: int,
    out: Seq<u8>,
) -> bool {
    let index = index_after(block, channels as nat, c, f as nat) as int;
    let next = index_after(block, channels as nat, c, (f + 1) as nat) as int;
    exists|nibble: u8|
        {
            &&& #[trigger] code_lies(block, channels, c, f, nibble)
            &&& leads_to(
                sample_in(out, f * channels + c) as int,
                STEP_TABLE@[index] as int,
                nibble,
                sample_in(out, (f + 1) * channels + c) as int,
            )
            &&& moves_the_index(index, nibble, next)
        }
}

/// Every call of [`Decoder::decode_block`]. A block of the right length whose step
/// indices are of the table, with room for its samples, is decoded: the first sample
/// of each channel is the one in its header, and every other follows from the one
/// before it by its code. All else is refused.
pub proof fn law_decode_block(block: &[u8], r: Result<usize>, c: int, f: int)
    ensures
        forall|d: &mut Decoder, out: &mut [u8]| #[trigger]
            call_ensures(Decoder::decode_block, (d, block, out), r) && d.valid() && d.blocks
                < u64::MAX && out@.len() <= usize::MAX && 0 <= c < d.channels && 0 <= f
                < d.frames_per_block - 1 ==> {
                let ch = d.channels as int;
                let n = d.frames_per_block as int;
                &&& r is Ok <==> {
                    &&& block@.len() == 4 * ch + (n - 1) * ch / 2
                    &&& out@.len() >= 2 * (n * ch)
                    &&& block@[2] <= 88 && (ch == 2 ==> block@[6] <= 88)
                }
                &&& r is Ok ==> {
                    &&& r == Ok::<usize, Error>((2 * (n * ch)) as usize)
                    &&& final(d).blocks == d.blocks + 1
                    &&& final(out)@.len() == out@.len()
                    &&& sample_in(final(out)@, c) == le_i16(block@[4 * c], block@[4 * c + 1])
                    &&& index_after(block@, ch as nat, c, 0) == block@[4 * c + 2]
                    &&& decoded_from(block@, ch, c, f, final(out)@)
                    &&& forall|i: int|
                        2 * (n * ch) <= i < out@.len() ==> #[trigger] final(out)@[i] == out@[i]
                }
            },
{
    assert forall|d: &mut Decoder, out: &mut [u8]| #[trigger]
        call_ensures(Decoder::decode_block, (d, block, out), r) && d.valid() && d.blocks < u64::MAX
            && out@.len() <= usize::MAX && 0 <= c < d.channels && 0 <= f < d.frames_per_block
            - 1 implies {
        let ch = d.channels as int;
        let n = d.frames_per_block as int;
        &&& r is Ok <==> {
            &&& block@.len() == 4 * ch + (n - 1) * ch / 2
            &&& out@.len() >= 2 * (n * ch)
            &&& block@[2] <= 88 && (ch == 2 ==> block@[6] <= 88)
        }
        &&& r is Ok ==> {
            &&& r == Ok::<usize, Error>((2 * (n * ch)) as usize)
            &&& final(d).blocks == d.blocks + 1
            &&& final(out)@.len() == out@.len()
            &&& sample_in(final(out)@, c) == le_i16(block@[4 * c], block@[4 * c + 1])
            &&& index_after(block@, ch as nat, c, 0) == block@[4 * c + 2]
            &&& decoded_from(block@, ch, c, f, final(out)@)
            &&& forall|i: int|
                2 * (n * ch) <= i < out@.len() ==> #[trigger] final(out)@[i] == out@[i]
        }
    } by {
        let e = Encoder {
            channels: 1,
            frames_per_block: 9,
            rule: PredictionRule::DecoderExact,
            state: [
                ChannelState { predictor: 0, step_index: 0 },
                ChannelState { predictor: 0, step_index: 0 },
            ],
            blocks: 0,
        };
        lemma_blocks_refused(e, *d, 0, block@, out@.len());
        if r is Ok {
            lemma_block_decoded(*d, block@, out@, final(out)@, c, f);
        }
    }
}

proof fn lemma_block_decoded(
    d: Decoder,
    block: Seq<u8>,
    before: Seq<u8>,
    after: Seq<u8>,
    c: int,
    f: int,
)
    requires
        d.valid(),
        d.refusal(block, before.len()) is Ok,
        0 <= c < d.channels,
        0 <= f < d.frames_per_block - 1,
        before.len() <= usize::MAX,
        after == crate::bytes::overwritten(
            before,
            crate::bytes::encode16(
                decoded(block, d.channels as nat, d.frames_per_block as nat),
            ),
        ),
    ensures
        ({
            let ch = d.channels as int;
            let n = d.frames_per_block as int;
            &&& after.len() == before.len()
            &&& sample_in(after, c) == le_i16(block[4 * c], block[4 * c + 1])
            &&& index_after(block, ch as nat, c, 0) == block[4 * c + 2]
            &&& decoded_from(block, ch, c, f, after)
            &&& forall|i: int|
                2 * (n * ch) <= i < before.len() ==> #[trigger] after[i] == before[i]
        }),
{
    let ch = d.channels as int;
    let n = d.frames_per_block as int;
    let y = decoded(block, ch as nat, n as nat);
    lemma_decoded_sample_by_sample(d, block, before.len(), c, f);
    assert(d.frames_per_block as nat * d.channels as nat * 2 == 2 * (n * ch)) by (nonlinear_arith)
        requires
            ch == d.channels,
            n == d.frames_per_block,
    ;
    crate::bytes::lemma_samples_of_the_front(before, y);
    assert(0 <= f * ch + c && (f + 1) * ch + c < n * ch && c < n * ch && f * ch + c < n * ch)
        by (nonlinear_arith)
        requires
            0 <= c < ch,
            0 <= f < n - 1,
    ;
    assert(sample_in(after, f * ch + c) == y[f * ch + c]);
    assert(sample_in(after, (f + 1) * ch + c) == y[(f + 1) * ch + c]);
    assert(sample_in(after, c) == y[c]);
    let index = index_after(block, ch as nat, c, f as nat);
    let next = index_after(block, ch as nat, c, (f + 1) as nat);
    let here = ChannelState { predictor: y[f * ch + c] as i32, step_index: index };
    let nibble = choose|nibble: u8|
        {
            &&& #[trigger] code_lies(block, ch, c, f, nibble)
            &&& y[(f + 1) * ch + c] == here.expanded(nibble).predictor
            &&& moves_the_index(index as int, nibble, next as int)
        };
    lemma_decoding_a_nibble(here, nibble);
    assert(code_lies(block, ch, c, f, nibble));
}

/// A block of `want` bytes, made of `pcm` by the encoder `e`, which went on as `next`:
/// the header of channel `c` has its first sample, the step index carried over and a
/// zero; the step index goes on as the codes lead; and with the decoder's rule a
/// decoder gets the first sample exactly and frame `f + 1` as closely as the step
/// allows.
pub open spec fn made_of(
    e: Encoder,
    next: Encoder,
    pcm: Seq<u8>,
    block: Seq<u8>,
    c: int,
    f: int,
) -> bool {
    let ch = e.channels as int;
    let n = e.frames_per_block as int;
    let y = decoded(block, ch as nat, n as nat);
    let x = sample_in(pcm, (f + 1) * ch + c);
    let was = y[f * ch + c];
    let is = y[(f + 1) * ch + c];
    let step = STEP_TABLE@[index_after(block, ch as nat, c, f as nat) as int] as int;
    &&& le_i16(block[4 * c], block[4 * c + 1]) == sample_in(pcm, c)
    &&& block[4 * c + 2] == e.state@[c].step_index
    &&& block[4 * c + 3] == 0
    &&& next.state@[c].step_index == index_after(block, ch as nat, c, (n - 1) as nat)
    &&& e.rule == PredictionRule::DecoderExact ==> {
        &&& y[c] == sample_in(pcm, c)
        &&& -2 * step < x - was < 2 * step ==> -step <= is - x <= step
        &&& -2 * step < x - was < 2 * step ==> -(step + 24) < 8 * (is - x) < step + 24
    }
}

proof fn lemma_made_of(e: Encoder, next: Encoder, pcm: Seq<u8>, c: int, f: int)
    requires
        e.valid(),
        next.valid(),
        next.channels == e.channels,
        next.frames_per_block == e.frames_per_block,
        pcm.len() == 2 * (e.frames_per_block * e.channels),
        0 <= c < e.channels,
        0 <= f < e.frames_per_block - 1,
        next.state@[c] == e.state_after(decode16(pcm), c),
    ensures
        made_of(e, next, pcm, e.block(decode16(pcm)), c, f),
{
    let ch = e.channels as int;
    let n = e.frames_per_block as int;
    let samples = decode16(pcm);
    lemma_header(e, samples, c);
    lemma_header(next, samples, c);
    lemma_step_index_carries(e, samples, next, samples, c);
    assert(0 <= f * ch + c && (f + 1) * ch + c < n * ch && c < n * ch) by (nonlinear_arith)
        requires
            0 <= c < ch,
            0 <= f < n - 1,
    ;
    assert(samples.len() == n * ch);
    assert(samples[c] == sample_in(pcm, c));
    assert(samples[(f + 1) * ch + c] == sample_in(pcm, (f + 1) * ch + c));
    if e.rule == PredictionRule::DecoderExact {
        lemma_what_a_listener_gets(e, samples, c, f);
    }
}

/// Every call of [`Encoder::encode_block`]: exactly the samples of a block, with room
/// for its bytes, are encoded; all else is refused and changes nothing.
pub proof fn law_encode_block(pcm: &[u8], r: Result<usize>, c: int, f: int)
    ensures
        forall|e: &mut Encoder, out: &mut [u8]| #[trigger]
            call_ensures(Encoder::encode_block, (e, pcm, out), r) && e.valid() && e.blocks < u64::MAX
                && out@.len() <= usize::MAX && 0 <= c < e.channels && 0 <= f < e.frames_per_block
                - 1 ==> {
                let ch = e.channels as int;
                let n = e.frames_per_block as int;
                let want = 4 * ch + (n - 1) * ch / 2;
                &&& r is Ok <==> pcm@.len() == 2 * (n * ch) && out@.len() >= want
                &&& r is Err ==> *final(e) == *e && final(out)@ == out@
                &&& r is Ok ==> {
                    &&& r->Ok_0 == want
                    &&& final(e).blocks == e.blocks + 1
                    &&& final(out)@.len() == out@.len()
                    &&& forall|i: int| want <= i < out@.len() ==> #[trigger] final(out)@[i] == out@[i]
                    &&& made_of(*e, *final(e), pcm@, final(out)@.take(want), c, f)
                }
            },
{
    assert forall|e: &mut Encoder, out: &mut [u8]| #[trigger]
        call_ensures(Encoder::encode_block, (e, pcm, out), r) && e.valid() && e.blocks < u64::MAX
            && out@.len() <= usize::MAX && 0 <= c < e.channels && 0 <= f < e.frames_per_block
            - 1 implies {
        let ch = e.channels as int;
        let n = e.frames_per_block as int;
        let want = 4 * ch + (n - 1) * ch / 2;
        &&& r is Ok <==> pcm@.len() == 2 * (n * ch) && out@.len() >= want
        &&& r is Err ==> *final(e) == *e && final(out)@ == out@
        &&& r is Ok ==> {
            &&& r->Ok_0 == want
            &&& final(e).blocks == e.blocks + 1
            &&& final(out)@.len() == out@.len()
            &&& forall|i: int| want <= i < out@.len() ==> #[trigger] final(out)@[i] == out@[i]
            &&& made_of(*e, *final(e), pcm@, final(out)@.take(want), c, f)
        }
    } by {
        let d = Decoder { channels: 1, frames_per_block: 9, blocks: 0 };
        lemma_blocks_refused(*e, d, pcm@.len(), Seq::empty(), out@.len());
        if r is Ok {
            let ch = e.channels as int;
            let want = 4 * ch + (e.frames_per_block - 1) * ch / 2;
            let block = e.block(decode16(pcm@));
            assert(block.len() == want);
            assert(final(out)@.take(want) =~= block);
            assert(final(e).state@[c] == e.state_after(decode16(pcm@), c));
            lemma_made_of(*e, *final(e), pcm@, c, f);
        }
    }
}

} // verus!
