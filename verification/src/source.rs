//! Where blocks come from and where they go.
//!
//! An [`AudioSource`] fills a caller buffer with exactly one block; an
//! [`AudioSink`] consumes one. A microphone, an I2S codec, a UDP socket and a
//! WAV file are all one of these, so a pipeline never knows which.

use vstd::prelude::*;

use crate::bytes::{encode16, lemma_overwritten16, overwritten, put_sample, sample_in};
use crate::esp_core::error::{Error, Result};
use crate::esp_core::pcm::{whole_frames, BlockView, PcmBlock, PcmFormat, SampleFormat};
use crate::esp_core::time::Micros;

verus! {

/// Produces fixed-size blocks of PCM into caller memory.
pub trait AudioSource {
    /// Rate, channels and encoding of every block this source produces.
    open spec fn produces(&self) -> PcmFormat {
        arbitrary()
    }

    /// Whether the machine's numbers have room for a block of `len` bytes.
    open spec fn can_fill(&self, len: nat) -> bool {
        true
    }

    /// Rate, channels and encoding of every block this source produces.
    fn format(&self) -> (r: PcmFormat)
        ensures
            r == self.produces(),
    ;

    /// Fill `out` completely (it must be a whole number of frames) and return
    /// the block over it, stamped with the capture time of its first frame.
    fn read<'b>(&mut self, out: &'b mut [u8]) -> (r: Result<PcmBlock<'b>>)
        requires
            old(self).can_fill(old(out)@.len()),
        ensures
            final(self).produces() == old(self).produces(),
            r matches Ok(block) ==> {
                &&& block@.well_formed()
                &&& block@.format == old(self).produces()
                &&& block@.data.len() == old(out)@.len()
            },
    ;
}

/// Consumes blocks of PCM.
pub trait AudioSink {
    /// Whether the machine's numbers have room for one more block.
    open spec fn has_room_for(&self, block: BlockView) -> bool {
        true
    }

    /// The format this sink accepts.
    open spec fn accepts(&self) -> PcmFormat {
        arbitrary()
    }

    /// The format this sink accepts.
    fn format(&self) -> (r: PcmFormat)
        ensures
            r == self.accepts(),
    ;

    /// Take one block. `Err(Busy)` means "dropped, try the next one".
    fn write(&mut self, block: PcmBlock<'_>) -> (r: Result<()>)
        requires
            block@.well_formed(),
            old(self).has_room_for(block@),
    ;
}

/// Counts what it is given and remembers where the stream has got to.
#[derive(Debug)]
pub struct CountingSink {
    /// The format of the first block, once there was one.
    pub held: Option<PcmFormat>,
    /// Blocks accepted.
    pub blocks: u64,
    /// Sample frames accepted.
    pub frames: u64,
    /// Bytes accepted.
    pub bytes: u64,
    /// End timestamp of the last block.
    pub last_end: Micros,
    /// Blocks refused because their format did not match the first one.
    pub rejected: u64,
}

impl CountingSink {
    /// Nothing counted yet.
    pub open spec fn empty() -> CountingSink {
        CountingSink {
            held: None,
            blocks: 0,
            frames: 0,
            bytes: 0,
            last_end: Micros(0),
            rejected: 0,
        }
    }

    /// The sink after `block`: a block of another format than the first one is
    /// refused and only counted as that.
    pub open spec fn after(self, block: BlockView) -> CountingSink {
        if self.held is Some && self.held != Some(block.format) {
            CountingSink { rejected: (self.rejected + 1) as u64, ..self }
        } else {
            CountingSink {
                held: Some(block.format),
                blocks: (self.blocks + 1) as u64,
                frames: (self.frames + block.frame_count()) as u64,
                bytes: (self.bytes + block.data.len()) as u64,
                last_end: block.end(),
                rejected: self.rejected,
            }
        }
    }

    /// A sink that accepts the format of its first block and holds it to that.
    pub fn new() -> (r: Self)
        ensures
            r == CountingSink::empty(),
    {
        CountingSink {
            held: None,
            blocks: 0,
            frames: 0,
            bytes: 0,
            last_end: Micros(0),
            rejected: 0,
        }
    }
}

impl Default for CountingSink {
    fn default() -> (r: Self)
        ensures
            r == CountingSink::empty(),
    {
        CountingSink::new()
    }
}

impl Clone for CountingSink {
    fn clone(&self) -> (r: Self)
        ensures
            r == *self,
    {
        CountingSink {
            held: self.held,
            blocks: self.blocks,
            frames: self.frames,
            bytes: self.bytes,
            last_end: self.last_end,
            rejected: self.rejected,
        }
    }
}

impl AudioSink for CountingSink {
    open spec fn has_room_for(&self, block: BlockView) -> bool {
        &&& self.blocks < u64::MAX
        &&& self.rejected < u64::MAX
        &&& self.frames + block.frame_count() <= u64::MAX
        &&& self.bytes + block.data.len() <= u64::MAX
        &&& block.format.sample_rate_hz > 0
        &&& block.frame_count() * 1_000_000 <= u64::MAX
    }

    open spec fn accepts(&self) -> PcmFormat {
        match self.held {
            Some(format) => format,
            None => PcmFormat::voice(),
        }
    }

    fn format(&self) -> (r: PcmFormat) {
        match self.held {
            Some(format) => format,
            None => PcmFormat::pcm16_16k_mono(),
        }
    }

    fn write(&mut self, block: PcmBlock<'_>) -> (r: Result<()>)
        ensures
            *final(self) == old(self).after(block@),
            r == (if old(self).held is Some && old(self).held != Some(block.format) {
                Err(Error::InvalidFormat)
            } else {
                Ok(())
            }),
    {
        match self.held {
            None => {
                self.held = Some(block.format);
            },
            Some(format) => {
                if format != block.format {
                    self.rejected = self.rejected + 1;
                    return Err(Error::InvalidFormat);
                }
            },
        }
        self.blocks = self.blocks + 1;
        self.frames = self.frames + block.frames() as u64;
        self.bytes = self.bytes + block.data.len() as u64;
        self.last_end = block.end();
        Ok(())
    }
}

/// Frames of `channels` samples, each sample of frame `k` being `values[k]`.
pub open spec fn spread(values: Seq<i16>, channels: nat) -> Seq<i16> {
    Seq::new(values.len() * channels, |i: int| values[i / channels as int])
}

/// Gives one value at a time: what a tone is made of. Nothing is known of the
/// values; those given so far are its record.
pub trait Voice {
    /// Every value given so far, the oldest first.
    open spec fn given(&self) -> Seq<i16> {
        Seq::empty()
    }

    /// The next value.
    fn next(&mut self) -> (v: i16)
        ensures
            final(self).given() == old(self).given().push(v),
    ;
}

/// A sawtooth in whole numbers: each value is `step` more than the one before,
/// and wraps.
pub struct Ramp {
    /// The value that comes next.
    pub value: i16,
    /// How far the values are apart.
    pub step: i16,
    /// The values given.
    pub record: Ghost<Seq<i16>>,
}

impl Ramp {
    /// A ramp from `value` on.
    pub fn new(value: i16, step: i16) -> (r: Self)
        ensures
            r == (Ramp { value, step, record: Ghost(Seq::empty()) }),
    {
        Ramp { value, step, record: Ghost(Seq::empty()) }
    }
}

impl Voice for Ramp {
    open spec fn given(&self) -> Seq<i16> {
        self.record@
    }

    fn next(&mut self) -> (v: i16)
        ensures
            v == old(self).value,
            *final(self) == (Ramp {
                value: old(self).value.wrapping_add(old(self).step),
                step: old(self).step,
                record: Ghost(old(self).record@.push(old(self).value)),
            }),
    {
        let v: i16 = self.value;
        self.value = v.wrapping_add(self.step);
        proof {
            self.record@ = self.record@.push(v);
        }
        v
    }
}

/// Fill `out` with frames of 16-bit `format`, asking `voice` once for each of
/// them, in order; the value is the same on every channel. `out` must be a whole
/// number of frames.
pub fn fill_frames<V: Voice>(format: PcmFormat, out: &mut [u8], voice: &mut V) -> (r: Result<()>)
    requires
        format.sample == SampleFormat::I16,
        old(out)@.len() == 0 || format.channels > 0,
    ensures
        final(out)@.len() == old(out)@.len(),
        r == (if whole_frames(format, old(out)@.len()) {
            Ok(())
        } else {
            Err(Error::InvalidGeometry)
        }),
        r is Err ==> final(out)@ == old(out)@ && *final(voice) == *old(voice),
        r is Ok ==> exists|values: Seq<i16>|
            {
                &&& values.len() == old(out)@.len() / format.frame_width()
                &&& final(voice).given() == old(voice).given() + values
                &&& final(out)@ == encode16(#[trigger] spread(values, format.channels as nat))
            },
{
    let len: usize = out.len();
    let width: usize = format.frame_bytes();
    if len == 0 || len % width != 0 {
        return Err(Error::InvalidGeometry);
    }
    let ghost known = voice.given();
    let ghost mut values: Seq<i16> = Seq::empty();
    let channels: usize = format.channels as usize;
    let frames: usize = len / width;
    proof {
        lemma_samples(len as int, width as int, channels as int);
        assert(known + values =~= known);
    }
    let mut k: usize = 0;
    while k < frames
        invariant
            k <= frames,
            out@.len() == len,
            len == 2 * (frames * channels),
            channels > 0,
            values.len() == k,
            voice.given() == known + values,
            forall|j: int|
                0 <= j < k * channels ==> #[trigger] sample_in(out@, j) == values[j
                    / channels as int],
        decreases frames - k,
    {
        let v: i16 = voice.next();
        let ghost before = values;
        proof {
            values = values.push(v);
            assert((known + before).push(v) =~= known + values);
            assert forall|j: int| 0 <= j < k * channels implies #[trigger] sample_in(out@, j)
                == values[j / channels as int] by {
                lemma_frame_of(j, channels as int, k as int);
            }
        }
        let mut c: usize = 0;
        while c < channels
            invariant
                c <= channels,
                k < frames,
                out@.len() == len,
                len == 2 * (frames * channels),
                values == before.push(v),
                before.len() == k,
                forall|j: int|
                    0 <= j < k * channels + c ==> #[trigger] sample_in(out@, j) == values[j
                        / channels as int],
            decreases channels - c,
        {
            proof {
                lemma_place(k as int, c as int, channels as int, frames as int);
            }
            put_sample(out, k * channels + c, v);
            proof {
                assert(values[k as int] == v);
            }
            c += 1;
        }
        assert((k + 1) * channels == k * channels + channels) by (nonlinear_arith);
        k += 1;
    }
    proof {
        let samples = spread(values, channels as nat);
        lemma_overwritten16(out@, out@, samples);
        assert(overwritten(out@, encode16(samples)) =~= encode16(samples));
    }
    Ok(())
}

/// A source of 16-bit blocks with the same value on every channel, and
/// timestamps that advance by block duration.
pub struct Tone<V> {
    /// The format of every block.
    pub format: PcmFormat,
    /// Where the values come from.
    pub voice: V,
    /// Timestamp of the next block.
    pub next: Micros,
}

impl<V: Voice> Tone<V> {
    /// The values of `voice` in `format`, which must be [`SampleFormat::I16`],
    /// from time zero on.
    pub fn new(format: PcmFormat, voice: V) -> (r: Result<Self>)
        ensures
            r == (if format.sample == SampleFormat::I16 {
                Ok(Tone { format, voice, next: Micros(0) })
            } else {
                Err(Error::Unsupported)
            }),
    {
        if format.sample != SampleFormat::I16 {
            return Err(Error::Unsupported);
        }
        Ok(Tone { format, voice, next: Micros(0) })
    }

    /// Start over at time zero with another `voice`.
    pub fn restart(&mut self, voice: V)
        ensures
            *final(self) == (Tone { format: old(self).format, voice, next: Micros(0) }),
    {
        self.voice = voice;
        self.next = Micros(0);
    }
}

impl<V: Voice> AudioSource for Tone<V> {
    open spec fn produces(&self) -> PcmFormat {
        self.format
    }

    open spec fn can_fill(&self, len: nat) -> bool {
        &&& self.format.sample == SampleFormat::I16
        &&& self.format.channels > 0
        &&& self.format.sample_rate_hz > 0
        &&& len / self.format.frame_width() * 1_000_000 <= u64::MAX
    }

    fn format(&self) -> (r: PcmFormat) {
        self.format
    }

    fn read<'b>(&mut self, out: &'b mut [u8]) -> (r: Result<PcmBlock<'b>>)
        ensures
            r is Ok <==> whole_frames(old(self).format, old(out)@.len()),
            r matches Err(e) ==> {
                &&& e == Error::InvalidGeometry
                &&& *final(self) == *old(self)
                &&& final(out)@ == old(out)@
            },
            r matches Ok(block) ==> {
                &&& block@.timestamp == old(self).next
                &&& final(self).next == block@.end()
                &&& final(out)@ == block@.data
                &&& exists|values: Seq<i16>|
                    {
                        &&& values.len() == block@.frame_count()
                        &&& final(self).voice.given() == old(self).voice.given() + values
                        &&& block@.data == encode16(
                            #[trigger] spread(values, old(self).format.channels as nat),
                        )
                    }
            },
    {
        fill_frames(self.format, out, &mut self.voice)?;
        let block: PcmBlock<'b> = PcmBlock::new(self.format, self.next, out)?;
        self.next = block.end();
        Ok(block)
    }
}

/// Whole frames are so many samples.
proof fn lemma_samples(len: int, width: int, channels: int)
    requires
        width == 2 * channels,
        channels > 0,
        len % width == 0,
    ensures
        len == 2 * (len / width * channels),
{
    vstd::arithmetic::div_mod::lemma_fundamental_div_mod(len, width);
    let frames = len / width;
    assert(len == 2 * (frames * channels)) by (nonlinear_arith)
        requires
            len == width * frames,
            width == 2 * channels,
    ;
}

/// The samples before frame `k` are of earlier frames.
proof fn lemma_frame_of(j: int, channels: int, k: int)
    requires
        channels > 0,
        0 <= j < k * channels,
    ensures
        0 <= j / channels < k,
{
    vstd::arithmetic::div_mod::lemma_fundamental_div_mod(j, channels);
    let f = j / channels;
    assert(0 <= f < k) by (nonlinear_arith)
        requires
            channels > 0,
            0 <= j < k * channels,
            j == channels * f + j % channels,
            0 <= j % channels < channels,
    ;
}

/// Channel `c` of frame `k` has a place among the samples.
proof fn lemma_place(k: int, c: int, channels: int, frames: int)
    requires
        0 <= c < channels,
        0 <= k < frames,
    ensures
        0 <= k * channels,
        k * channels + c < frames * channels,
        (k * channels + c) / channels == k,
{
    assert(0 <= k * channels && k * channels + channels <= frames * channels) by (nonlinear_arith)
        requires
            0 <= k < frames,
            channels > 0,
    ;
    vstd::arithmetic::div_mod::lemma_fundamental_div_mod_converse(
        k * channels + c,
        channels,
        k,
        c,
    );
}

/// Every frame of a tone has the same value on all its channels, and the frames
/// have the values in order.
pub proof fn lemma_same_on_every_channel(values: Seq<i16>, channels: nat, k: int, c: int)
    requires
        0 <= k < values.len(),
        0 <= c < channels,
    ensures
        spread(values, channels).len() == values.len() * channels,
        0 <= k * channels + c < values.len() * channels,
        spread(values, channels)[k * channels + c] == values[k],
{
    lemma_place(k, c, channels as int, values.len() as int);
}

/// The sink after blocks, one after the other.
pub open spec fn after_blocks(sink: CountingSink, blocks: Seq<BlockView>) -> CountingSink
    decreases blocks.len(),
{
    if blocks.len() == 0 {
        sink
    } else {
        after_blocks(sink, blocks.drop_last()).after(blocks.last())
    }
}

/// The frames and bytes of the blocks of one format.
pub open spec fn frames_in(blocks: Seq<BlockView>, format: PcmFormat) -> (nat, nat, nat)
    decreases blocks.len(),
{
    if blocks.len() == 0 {
        (0, 0, 0)
    } else {
        let (n, frames, bytes) = frames_in(blocks.drop_last(), format);
        if blocks.last().format == format {
            (
                n + 1,
                frames + blocks.last().data.len() / format.frame_width(),
                bytes + blocks.last().data.len(),
            )
        } else {
            (n, frames, bytes)
        }
    }
}

/// What a sink counts: the blocks of the first one's format, with their frames and
/// bytes, and as rejected all the others.
pub proof fn lemma_sink_counts_its_format(blocks: Seq<BlockView>)
    requires
        blocks.len() > 0,
        blocks.len() < u64::MAX,
        frames_in(blocks, blocks[0].format).1 <= u64::MAX,
        frames_in(blocks, blocks[0].format).2 <= u64::MAX,
    ensures
        ({
            let sink = after_blocks(CountingSink::empty(), blocks);
            let counted = frames_in(blocks, blocks[0].format);
            &&& sink.held == Some(blocks[0].format)
            &&& sink.blocks == counted.0
            &&& sink.frames == counted.1
            &&& sink.bytes == counted.2
            &&& sink.blocks + sink.rejected == blocks.len()
            &&& blocks.last().format == blocks[0].format ==> sink.last_end == blocks.last().end()
        }),
    decreases blocks.len(),
{
    let fewer = blocks.drop_last();
    reveal_with_fuel(after_blocks, 2);
    reveal_with_fuel(frames_in, 2);
    if fewer.len() > 0 {
        assert(fewer[0] == blocks[0]);
        lemma_sink_counts_its_format(fewer);
    } else {
        assert(blocks.last() == blocks[0]);
    }
}

} // verus!
