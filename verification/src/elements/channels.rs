//! Channel operations: mono to stereo, stereo to mono, and a saturating mix.

use vstd::prelude::*;

use super::{i16_only, lemma_whole_samples, require_i16_any, require_room, room_for, sized, wrote};
use crate::bytes::{
    clamp16, decode16, encode16, get_sample, lemma_decode_encode, lemma_encode_decode,
    lemma_overwritten16, lemma_samples_of_the_front, overwritten, put_sample, sample_in, sat16,
};
use crate::esp_core::error::{Error, Result};
use crate::esp_core::pcm::{BlockView, PcmBlock, PcmFormat, SampleFormat};
use crate::esp_core::time::Micros;
use crate::pipeline::{keeps_its_bound, Element};

verus! {

/// Every sample twice over: the same on the left and on the right.
pub open spec fn doubled(samples: Seq<i16>) -> Seq<i16> {
    Seq::new(2 * samples.len(), |i: int| samples[i / 2])
}

/// The mean of two samples, rounded down.
pub open spec fn mean(l: i16, r: i16) -> i16 {
    ((l + r) / 2) as i16
}

/// The mean of every left and right pair, rounded down.
pub open spec fn averaged(samples: Seq<i16>) -> Seq<i16> {
    Seq::new(samples.len() / 2, |i: int| mean(samples[2 * i], samples[2 * i + 1]))
}

/// The saturating sum of two sample streams of one length.
pub open spec fn mixed(a: Seq<i16>, b: Seq<i16>) -> Seq<i16> {
    Seq::new(a.len(), |i: int| clamp16(a[i] + b[i]))
}

/// Averaging a stream that was spread onto two channels gives it back.
pub proof fn lemma_up_and_down_round_trip(samples: Seq<i16>)
    ensures
        averaged(doubled(samples)) == samples,
{
    assert forall|i: int| 0 <= i < samples.len() implies averaged(doubled(samples))[i]
        == samples[i] by {
        assert((2 * i) / 2 == i && (2 * i + 1) / 2 == i);
    }
    assert(averaged(doubled(samples)) =~= samples);
}

/// The mix does not depend on the order of its operands.
pub proof fn lemma_mix_commutes(a: Seq<i16>, b: Seq<i16>)
    requires
        a.len() == b.len(),
    ensures
        mixed(a, b) == mixed(b, a),
{
    assert(mixed(a, b) =~= mixed(b, a));
}

/// Mixing with silence changes nothing.
pub proof fn lemma_mix_with_silence(a: Seq<i16>)
    ensures
        mixed(a, Seq::new(a.len(), |i: int| 0i16)) == a,
{
    assert(mixed(a, Seq::new(a.len(), |i: int| 0i16)) =~= a);
}

/// Duplicate a mono i16 stream onto two channels. Byte-exact.
#[derive(Debug, Clone, Copy)]
pub struct MonoToStereo;

impl MonoToStereo {
    /// What the element writes for `input` into a buffer of `room` bytes.
    pub open spec fn emits(self, input: BlockView, room: nat) -> Result<Seq<u8>> {
        match self.format_out(input.format) {
            Err(e) => Err(e),
            Ok(_) => match room_for(room, 2 * input.data.len()) {
                Err(e) => Err(e),
                Ok(_) => Ok(encode16(doubled(decode16(input.data)))),
            },
        }
    }
}

impl Default for MonoToStereo {
    fn default() -> (r: Self)
        ensures
            r == MonoToStereo,
    {
        MonoToStereo
    }
}

impl Element for MonoToStereo {
    open spec fn format_out(&self, input: PcmFormat) -> Result<PcmFormat> {
        match i16_only(input) {
            Err(e) => Err(e),
            Ok(_) => if input.channels != 1 {
                Err(Error::Unsupported)
            } else {
                PcmFormat::checked(input.sample_rate_hz, 2, input.sample)
            },
        }
    }

    open spec fn room(&self, input: PcmFormat, input_bytes: usize) -> usize {
        sized(2 * input_bytes as nat)
    }

    open spec fn memory(&self) -> Seq<int> {
        Seq::empty()
    }

    open spec fn fresh_memory(&self) -> Seq<int> {
        Seq::empty()
    }

    open spec fn step(
        &self,
        input: BlockView,
        before: Seq<u8>,
        r: Result<usize>,
        after: Seq<u8>,
        memory: Seq<int>,
    ) -> bool {
        wrote(self.emits(input, before.len()), before, r, after)
    }

    fn output_format(&self, input: PcmFormat) -> (r: Result<PcmFormat>) {
        require_i16_any(input)?;
        if input.channels != 1 {
            return Err(Error::Unsupported);
        }
        PcmFormat::new(input.sample_rate_hz, 2, input.sample)
    }

    fn max_output_bytes(&self, _input: PcmFormat, input_bytes: usize) -> (r: usize) {
        if input_bytes > usize::MAX / 2 {
            usize::MAX
        } else {
            input_bytes * 2
        }
    }

    fn process(&mut self, input: PcmBlock<'_>, out: &mut [u8]) -> (r: Result<usize>) {
        self.output_format(input.format)?;
        let n: usize = input.data.len();
        let needed: usize = self.max_output_bytes(input.format, n);
        if out.len() / 2 < n {
            return Err(Error::BufferTooSmall { needed });
        }
        let ghost before = out@;
        let ghost samples = doubled(decode16(input.data@));
        proof {
            lemma_whole_samples(input.format, n as nat);
        }
        let frames: usize = n / 2;
        let mut i: usize = 0;
        while i < frames
            invariant
                2 * frames == input.data@.len(),
                i <= frames,
                4 * frames <= out@.len() <= usize::MAX,
                out@.len() == before.len(),
                samples == doubled(decode16(input.data@)),
                forall|j: int| 0 <= j < 2 * i ==> #[trigger] sample_in(out@, j) == samples[j],
                forall|j: int| 4 * frames <= j < out@.len() ==> out@[j] == before[j],
            decreases frames - i,
        {
            let x: i16 = get_sample(input.data, i);
            put_sample(out, 2 * i, x);
            put_sample(out, 2 * i + 1, x);
            proof {
                assert((2 * i) / 2 == i && (2 * i + 1) / 2 == i);
                assert(samples[2 * i as int] == x && samples[2 * i + 1] == x);
            }
            i += 1;
        }
        proof {
            lemma_overwritten16(before, out@, samples);
        }
        Ok(needed)
    }

    fn reset(&mut self) {
    }
}

/// Average a stereo i16 stream to mono: `(l + r) >> 1` (floor). Byte-exact.
#[derive(Debug, Clone, Copy)]
pub struct StereoToMono;

impl StereoToMono {
    /// What the element writes for `input` into a buffer of `room` bytes.
    pub open spec fn emits(self, input: BlockView, room: nat) -> Result<Seq<u8>> {
        match self.format_out(input.format) {
            Err(e) => Err(e),
            Ok(_) => match room_for(room, input.data.len() / 2) {
                Err(e) => Err(e),
                Ok(_) => Ok(encode16(averaged(decode16(input.data)))),
            },
        }
    }
}

impl Default for StereoToMono {
    fn default() -> (r: Self)
        ensures
            r == StereoToMono,
    {
        StereoToMono
    }
}

impl Element for StereoToMono {
    open spec fn format_out(&self, input: PcmFormat) -> Result<PcmFormat> {
        match i16_only(input) {
            Err(e) => Err(e),
            Ok(_) => if input.channels != 2 {
                Err(Error::Unsupported)
            } else {
                PcmFormat::checked(input.sample_rate_hz, 1, input.sample)
            },
        }
    }

    open spec fn room(&self, input: PcmFormat, input_bytes: usize) -> usize {
        input_bytes / 2
    }

    open spec fn memory(&self) -> Seq<int> {
        Seq::empty()
    }

    open spec fn fresh_memory(&self) -> Seq<int> {
        Seq::empty()
    }

    open spec fn step(
        &self,
        input: BlockView,
        before: Seq<u8>,
        r: Result<usize>,
        after: Seq<u8>,
        memory: Seq<int>,
    ) -> bool {
        wrote(self.emits(input, before.len()), before, r, after)
    }

    fn output_format(&self, input: PcmFormat) -> (r: Result<PcmFormat>) {
        require_i16_any(input)?;
        if input.channels != 2 {
            return Err(Error::Unsupported);
        }
        PcmFormat::new(input.sample_rate_hz, 1, input.sample)
    }

    fn max_output_bytes(&self, _input: PcmFormat, input_bytes: usize) -> (r: usize) {
        input_bytes / 2
    }

    fn process(&mut self, input: PcmBlock<'_>, out: &mut [u8]) -> (r: Result<usize>) {
        self.output_format(input.format)?;
        let n: usize = input.data.len() / 2;
        require_room(out, n)?;
        let ghost before = out@;
        let ghost samples = averaged(decode16(input.data@));
        assert(input.format.frame_width() == 4);
        let frames: usize = n / 2;
        let mut i: usize = 0;
        while i < frames
            invariant
                4 * frames == input.data@.len(),
                4 * frames <= usize::MAX,
                i <= frames,
                2 * frames <= out@.len(),
                out@.len() == before.len(),
                samples == averaged(decode16(input.data@)),
                forall|j: int| 0 <= j < i ==> #[trigger] sample_in(out@, j) == samples[j],
                forall|j: int| 2 * frames <= j < out@.len() ==> out@[j] == before[j],
            decreases frames - i,
        {
            let l: i32 = get_sample(input.data, 2 * i) as i32;
            let r: i32 = get_sample(input.data, 2 * i + 1) as i32;
            let sum: i32 = l + r;
            assert(sum >> 1 == sum / 2) by (bit_vector);
            put_sample(out, i, (sum >> 1) as i16);
            i += 1;
        }
        proof {
            lemma_overwritten16(before, out@, samples);
        }
        Ok(n)
    }

    fn reset(&mut self) {
    }
}

/// What [`mix_i16`] refuses.
pub open spec fn mix_refusal(a: Seq<u8>, b: Seq<u8>, room: nat) -> Result<()> {
    if a.len() != b.len() || a.len() % 2 != 0 {
        Err(Error::InvalidGeometry)
    } else {
        room_for(room, a.len())
    }
}

/// Sum two equal-length i16 byte streams into `out`, saturating.
/// `a` and `b` must have the same even length, and `out` room for it.
pub fn mix_i16(a: &[u8], b: &[u8], out: &mut [u8]) -> (r: Result<()>)
    ensures
        r == mix_refusal(a@, b@, old(out)@.len()),
        r is Ok ==> final(out)@ == overwritten(
            old(out)@,
            encode16(mixed(decode16(a@), decode16(b@))),
        ),
        r is Err ==> final(out)@ == old(out)@,
{
    if a.len() != b.len() || a.len() % 2 != 0 {
        return Err(Error::InvalidGeometry);
    }
    require_room(out, a.len())?;
    let n: usize = a.len();
    let ghost before = out@;
    let ghost samples = mixed(decode16(a@), decode16(b@));
    let count: usize = n / 2;
    let mut i: usize = 0;
    while i < count
        invariant
            2 * count == a@.len() == b@.len(),
            i <= count,
            2 * count <= out@.len(),
            out@.len() == before.len(),
            samples == mixed(decode16(a@), decode16(b@)),
            forall|j: int| 0 <= j < i ==> #[trigger] sample_in(out@, j) == samples[j],
            forall|j: int| 2 * count <= j < out@.len() ==> out@[j] == before[j],
        decreases count - i,
    {
        let s: i32 = get_sample(a, i) as i32 + get_sample(b, i) as i32;
        put_sample(out, i, sat16(s));
        i += 1;
    }
    proof {
        lemma_overwritten16(before, out@, samples);
    }
    Ok(())
}

/// A mono block spread onto two channels and averaged again comes out as it went
/// in: the bytes that [`MonoToStereo`] wrote, handed to [`StereoToMono`] as a
/// stereo block, give the bytes of the mono block.
pub proof fn lemma_averaging_undoes_spreading(
    up: MonoToStereo,
    down: StereoToMono,
    mono: BlockView,
    wide_before: Seq<u8>,
    wide_written: usize,
    wide_after: Seq<u8>,
    timestamp: Micros,
    before: Seq<u8>,
    r: Result<usize>,
    after: Seq<u8>,
)
    requires
        mono.well_formed(),
        wide_before.len() <= usize::MAX,
        up.step(mono, wide_before, Ok(wide_written), wide_after, up.memory()),
        mono.data.len() <= before.len(),
        down.step(
            BlockView {
                format: PcmFormat { channels: 2, ..mono.format },
                timestamp,
                data: wide_after.take(wide_written as int),
            },
            before,
            r,
            after,
            down.memory(),
        ),
    ensures
        wide_written == 2 * mono.data.len(),
        r == Ok::<usize, Error>(mono.data.len() as usize),
        after == overwritten(before, mono.data),
{
    lemma_whole_samples(mono.format, mono.data.len());
    let samples = decode16(mono.data);
    let bytes = encode16(doubled(samples));
    assert(wide_after.take(wide_written as int) =~= bytes);
    lemma_decode_encode(doubled(samples));
    lemma_up_and_down_round_trip(samples);
    lemma_encode_decode(mono.data);
}

/// No block comes out larger than twice its size.
pub proof fn lemma_mono_to_stereo_keeps_its_bound(stage: MonoToStereo)
    ensures
        keeps_its_bound(&stage),
{
}

/// No block comes out larger than half its size.
pub proof fn lemma_stereo_to_mono_keeps_its_bound(stage: StereoToMono)
    ensures
        keeps_its_bound(&stage),
{
}

/// The mean of two samples: twice it is their sum, or one less where the sum is
/// odd. Which of the two is left and which right makes no difference.
pub proof fn lemma_mean_is_half_the_sum(l: i16, r: i16)
    ensures
        2 * mean(l, r) == l + r || 2 * mean(l, r) == l + r - 1,
        mean(l, r) == mean(r, l),
{
}

/// What averaging does with a block: twice every sample is the sum of the left
/// and the right one of its frame, or one less; what lies behind the samples in
/// the buffer stays. Only a format other than 16-bit stereo, or without a rate,
/// and a buffer shorter than half the block are refused, and then nothing is
/// written.
pub proof fn lemma_stereo_to_mono_block(
    stage: StereoToMono,
    input: BlockView,
    before: Seq<u8>,
    r: Result<usize>,
    after: Seq<u8>,
    memory: Seq<int>,
)
    requires
        input.well_formed(),
        input.data.len() <= usize::MAX,
        stage.step(input, before, r, after, memory),
    ensures
        input.format.sample != SampleFormat::I16 || input.format.channels != 2 ==> r == Err::<
            usize,
            Error,
        >(Error::Unsupported),
        input.format.sample == SampleFormat::I16 && input.format.channels == 2
            && input.format.sample_rate_hz > 0 ==> r == (if 2 * before.len() >= input.data.len() {
            Ok::<usize, Error>((input.data.len() / 2) as usize)
        } else {
            Err::<usize, Error>(
                Error::BufferTooSmall { needed: (input.data.len() / 2) as usize },
            )
        }),
        r is Err ==> after == before,
        r is Ok ==> after.len() == before.len(),
        r is Ok ==> forall|i: int|
            0 <= i && 4 * i + 3 < input.data.len() ==> {
                let both = sample_in(input.data, 2 * i) + sample_in(input.data, 2 * i + 1);
                let twice = 2 * #[trigger] sample_in(after, i);
                twice == both || twice == both - 1
            },
        r is Ok ==> forall|i: int|
            input.data.len() / 2 <= i < before.len() ==> #[trigger] after[i] == before[i],
{
    assert(input.format.channels == 2 && input.format.sample == SampleFormat::I16
        ==> input.format.frame_width() == 4);
    if r is Ok {
        let samples = decode16(input.data);
        let out = averaged(samples);
        lemma_samples_of_the_front(before, out);
        assert forall|i: int| 0 <= i && 4 * i + 3 < input.data.len() implies {
            let both = sample_in(input.data, 2 * i) + sample_in(input.data, 2 * i + 1);
            let twice = 2 * #[trigger] sample_in(after, i);
            twice == both || twice == both - 1
        } by {
            assert(sample_in(after, i) == out[i]);
            lemma_mean_is_half_the_sum(samples[2 * i], samples[2 * i + 1]);
        }
    }
}

/// What spreading does with a block: every sample comes twice in a row, on the
/// left and on the right; what lies behind them in the buffer stays. Only a format
/// other than 16-bit mono, or without a rate, and a buffer shorter than twice the
/// block are refused, and then nothing is written.
pub proof fn lemma_mono_to_stereo_block(
    stage: MonoToStereo,
    input: BlockView,
    before: Seq<u8>,
    r: Result<usize>,
    after: Seq<u8>,
    memory: Seq<int>,
)
    requires
        input.well_formed(),
        2 * input.data.len() <= usize::MAX,
        stage.step(input, before, r, after, memory),
    ensures
        input.format.sample != SampleFormat::I16 || input.format.channels != 1 ==> r == Err::<
            usize,
            Error,
        >(Error::Unsupported),
        input.format.sample == SampleFormat::I16 && input.format.channels == 1
            && input.format.sample_rate_hz > 0 ==> r == (if before.len() >= 2 * input.data.len() {
            Ok::<usize, Error>((2 * input.data.len()) as usize)
        } else {
            Err::<usize, Error>(
                Error::BufferTooSmall { needed: (2 * input.data.len()) as usize },
            )
        }),
        r is Err ==> after == before,
        r is Ok ==> after.len() == before.len(),
        r is Ok ==> forall|i: int|
            0 <= i && 2 * i + 1 < input.data.len() ==> {
                &&& sample_in(after, 2 * i) == #[trigger] sample_in(input.data, i)
                &&& sample_in(after, 2 * i + 1) == sample_in(input.data, i)
            },
        r is Ok ==> forall|i: int|
            2 * input.data.len() <= i < before.len() ==> #[trigger] after[i] == before[i],
{
    if r is Ok {
        lemma_whole_samples(input.format, input.data.len());
        let samples = decode16(input.data);
        let out = doubled(samples);
        lemma_samples_of_the_front(before, out);
        assert forall|i: int| 0 <= i && 2 * i + 1 < input.data.len() implies {
            &&& sample_in(after, 2 * i) == #[trigger] sample_in(input.data, i)
            &&& sample_in(after, 2 * i + 1) == sample_in(input.data, i)
        } by {
            assert(sample_in(after, 2 * i) == out[2 * i]);
            assert(sample_in(after, 2 * i + 1) == out[2 * i + 1]);
            assert((2 * i) / 2 == i && (2 * i + 1) / 2 == i);
            assert(samples[i] == sample_in(input.data, i));
        }
    }
}

/// What a mix is: every sample is the sum of the two in its place where that fits
/// 16 bits, and the bound that is exceeded where it does not. Streams of different
/// or odd lengths and a buffer shorter than they are refused, and nothing else.
pub proof fn lemma_mix_is_the_sum(a: Seq<u8>, b: Seq<u8>, room: nat, i: int)
    requires
        room <= usize::MAX,
        a.len() <= usize::MAX,
    ensures
        mix_refusal(a, b, room) is Ok <==> a.len() == b.len() && a.len() % 2 == 0 && room
            >= a.len(),
        a.len() != b.len() || a.len() % 2 != 0 ==> mix_refusal(a, b, room) == Err::<(), Error>(
            Error::InvalidGeometry,
        ),
        a.len() == b.len() && a.len() % 2 == 0 && room < a.len() ==> mix_refusal(a, b, room)
            == Err::<(), Error>(Error::BufferTooSmall { needed: a.len() as usize }),
        ({
            let y = mixed(decode16(a), decode16(b));
            let sum = sample_in(a, i) + sample_in(b, i);
            a.len() == b.len() && 0 <= i && 2 * i + 1 < a.len() ==> {
                &&& y.len() == a.len() / 2
                &&& -32768 <= sum <= 32767 ==> y[i] == sum
                &&& sum > 32767 ==> y[i] == 32767
                &&& sum < -32768 ==> y[i] == -32768
            }
        }),
{
}

} // verus!
