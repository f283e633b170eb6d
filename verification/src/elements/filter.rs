//! The frame walk of the filters whose arithmetic the caller brings: which
//! sample of which channel goes in, and where the answer lands.

use vstd::prelude::*;

use super::{
    i16_few_channels, lemma_whole_samples, require_i16, require_room, room_for, MAX_CHANNELS,
};
use crate::bytes::{
    decode16, encode16, get_sample, lemma_overwritten16, overwritten, put_sample, sample_in,
};
use crate::esp_core::error::{Error, Result};
use crate::esp_core::pcm::{BlockView, PcmBlock, SampleFormat};

verus! {

/// A filter that takes one sample of one channel at a time. Nothing is known of
/// what it answers; what it was asked, and what it answered, is what it heard.
pub trait Tick {
    /// Every channel and sample so far with the answer, the oldest first.
    open spec fn heard(&self) -> Seq<(usize, i16, i16)> {
        Seq::empty()
    }

    /// Filter the sample `x` of channel `c`.
    fn tick(&mut self, c: usize, x: i16) -> (y: i16)
        ensures
            final(self).heard() == old(self).heard().push((c, x, y)),
    ;
}

/// Lets every sample pass and keeps what passed: a probe between two stages.
#[derive(Debug)]
pub struct Tap {
    /// The channels and samples that passed, in order.
    pub passed: Vec<(usize, i16)>,
}

impl Tap {
    /// A probe that nothing has passed yet.
    pub fn new() -> (r: Self)
        ensures
            r.passed@ == Seq::<(usize, i16)>::empty(),
            r.heard() == Seq::<(usize, i16, i16)>::empty(),
    {
        let r: Tap = Tap { passed: Vec::new() };
        assert(r.heard() =~= Seq::<(usize, i16, i16)>::empty());
        r
    }
}

impl Tick for Tap {
    open spec fn heard(&self) -> Seq<(usize, i16, i16)> {
        self.passed@.map_values(|p: (usize, i16)| (p.0, p.1, p.1))
    }

    fn tick(&mut self, c: usize, x: i16) -> (y: i16)
        ensures
            y == x,
            final(self).passed@ == old(self).passed@.push((c, x)),
    {
        self.passed.push((c, x));
        assert(self.heard() =~= old(self).heard().push((c, x, x)));
        x
    }
}

/// Interleaved samples as a filter hears them: each once, in order, with its
/// channel and its answer.
pub open spec fn in_turn(channels: int, samples: Seq<i16>, answered: Seq<i16>) -> Seq<
    (usize, i16, i16),
> {
    Seq::new(samples.len(), |i: int| ((i % channels) as usize, samples[i], answered[i]))
}

/// Why a block is refused: not 16-bit, too many channels, or no room.
pub open spec fn refusal(input: BlockView, room: nat) -> Result<()> {
    match i16_few_channels(input.format) {
        Err(e) => Err(e),
        Ok(_) => room_for(room, input.data.len()),
    }
}

/// Hand every sample of `input` with its channel to `filter`, each once and in
/// order, and write the answers; returns the bytes written. Up to two channels
/// of i16.
pub fn filter_i16<T: Tick>(input: PcmBlock<'_>, out: &mut [u8], filter: &mut T) -> (r: Result<
    usize,
>)
    requires
        input@.well_formed(),
    ensures
        match refusal(input@, old(out)@.len()) {
            Err(e) => {
                &&& r == Err::<usize, Error>(e)
                &&& final(out)@ == old(out)@
                &&& *final(filter) == *old(filter)
            },
            Ok(_) => {
                &&& r == Ok::<usize, Error>(input@.data.len() as usize)
                &&& exists|answered: Seq<i16>|
                    {
                        &&& answered.len() == decode16(input@.data).len()
                        &&& final(filter).heard() == old(filter).heard() + #[trigger] in_turn(
                            input@.format.channels as int,
                            decode16(input@.data),
                            answered,
                        )
                        &&& final(out)@ == overwritten(old(out)@, encode16(answered))
                    }
            },
        },
{
    require_i16(input.format)?;
    require_room(out, input.data.len())?;
    let ghost before = out@;
    let ghost known = filter.heard();
    let ghost samples = decode16(input.data@);
    let ghost mut answered: Seq<i16> = Seq::empty();
    let channels: usize = input.format.channels as usize;
    proof {
        lemma_whole_samples(input.format, input.data@.len());
        assert(known + in_turn(channels as int, samples.take(0), answered) =~= known);
    }
    let n: usize = input.data.len() / 2;
    let mut i: usize = 0;
    let mut c: usize = 0;
    while i < n
        invariant
            2 * n == input.data@.len(),
            i <= n,
            2 * n <= out@.len() == before.len(),
            channels == input.format.channels,
            c < channels,
            c == i as int % channels as int,
            samples == decode16(input.data@),
            answered.len() == i,
            filter.heard() == known + in_turn(
                channels as int,
                samples.take(i as int),
                answered,
            ),
            forall|j: int| 0 <= j < i ==> #[trigger] sample_in(out@, j) == answered[j],
            forall|j: int| 2 * n <= j < out@.len() ==> out@[j] == before[j],
        decreases n - i,
    {
        let x: i16 = get_sample(input.data, i);
        let y: i16 = filter.tick(c, x);
        put_sample(out, i, y);
        proof {
            let told = answered.push(y);
            let heard = known + in_turn(channels as int, samples.take(i as int), answered);
            assert(samples[i as int] == x);
            assert(heard.push((c, x, y)) =~= known + in_turn(
                channels as int,
                samples.take(i + 1),
                told,
            ));
            answered = told;
            lemma_next_channel(i as int, channels as int);
        }
        i += 1;
        c = if c + 1 == channels {
            0
        } else {
            c + 1
        };
    }
    proof {
        assert(samples.take(i as int) =~= samples);
        lemma_overwritten16(before, out@, answered);
    }
    Ok(input.data.len())
}

/// A filter hears the same whether a stream comes at once or cut anywhere
/// between two frames.
pub proof fn lemma_heard_in_pieces(
    channels: int,
    a: Seq<i16>,
    b: Seq<i16>,
    to_a: Seq<i16>,
    to_b: Seq<i16>,
)
    requires
        channels > 0,
        a.len() as int % channels == 0,
        to_a.len() == a.len(),
        to_b.len() == b.len(),
    ensures
        in_turn(channels, a + b, to_a + to_b) == in_turn(channels, a, to_a) + in_turn(
            channels,
            b,
            to_b,
        ),
{
    let whole = in_turn(channels, a + b, to_a + to_b);
    let parts = in_turn(channels, a, to_a) + in_turn(channels, b, to_b);
    assert forall|i: int| 0 <= i < whole.len() implies whole[i] == parts[i] by {
        if i >= a.len() {
            let k = i - a.len();
            let q = a.len() as int / channels;
            vstd::arithmetic::div_mod::lemma_fundamental_div_mod(a.len() as int, channels);
            vstd::arithmetic::div_mod::lemma_mod_multiples_vanish(q, k, channels);
        }
    }
    assert(whole =~= parts);
}

/// Every answer is the one that `f` gives for what was heard before, the channel
/// and the sample.
pub open spec fn answers_by(
    f: spec_fn(Seq<(usize, i16, i16)>, usize, i16) -> i16,
    heard: Seq<(usize, i16, i16)>,
) -> bool {
    forall|i: int|
        0 <= i < heard.len() ==> (#[trigger] heard[i]).2 == f(
            heard.take(i),
            heard[i].0,
            heard[i].1,
        )
}

/// Of a filter whose answers follow from what it heard, the cut into blocks does
/// not show: a stream that comes at once is answered as one that comes in two
/// blocks, and so in any number of them.
pub proof fn lemma_cut_does_not_show(
    f: spec_fn(Seq<(usize, i16, i16)>, usize, i16) -> i16,
    known: Seq<(usize, i16, i16)>,
    channels: int,
    a: Seq<i16>,
    b: Seq<i16>,
    at_once: Seq<i16>,
    to_a: Seq<i16>,
    to_b: Seq<i16>,
)
    requires
        channels > 0,
        a.len() as int % channels == 0,
        at_once.len() == a.len() + b.len(),
        to_a.len() == a.len(),
        to_b.len() == b.len(),
        answers_by(f, known + in_turn(channels, a + b, at_once)),
        answers_by(f, known + in_turn(channels, a, to_a) + in_turn(channels, b, to_b)),
    ensures
        at_once == to_a + to_b,
{
    let n = known.len() as int;
    let whole = known + in_turn(channels, a + b, at_once);
    let parts = known + in_turn(channels, a, to_a) + in_turn(channels, b, to_b);
    lemma_heard_in_pieces(channels, a, b, to_a, to_b);
    assert(parts =~= known + in_turn(channels, a + b, to_a + to_b));
    assert(whole.take(n) =~= parts.take(n));
    lemma_heard_alike(f, whole, parts, n, whole.len() as int);
    assert forall|i: int| 0 <= i < at_once.len() implies at_once[i] == (to_a + to_b)[i] by {
        assert(whole.take(whole.len() as int)[n + i] == parts.take(whole.len() as int)[n + i]);
    }
    assert(at_once =~= to_a + to_b);
}

/// Asked the same, and heard alike so far, it answers the same.
proof fn lemma_heard_alike(
    f: spec_fn(Seq<(usize, i16, i16)>, usize, i16) -> i16,
    x: Seq<(usize, i16, i16)>,
    y: Seq<(usize, i16, i16)>,
    n: int,
    m: int,
)
    requires
        0 <= n <= m <= x.len(),
        x.len() == y.len(),
        x.take(n) == y.take(n),
        forall|i: int| 0 <= i < x.len() ==> (#[trigger] x[i]).0 == y[i].0 && x[i].1 == y[i].1,
        answers_by(f, x),
        answers_by(f, y),
    ensures
        x.take(m) == y.take(m),
    decreases m - n,
{
    if n < m {
        lemma_heard_alike(f, x, y, n, m - 1);
        assert(x[m - 1].2 == y[m - 1].2);
        assert(x.take(m) =~= x.take(m - 1).push(x[m - 1]));
        assert(y.take(m) =~= y.take(m - 1).push(y[m - 1]));
    }
}

/// Channels follow each other round.
proof fn lemma_next_channel(i: int, channels: int)
    requires
        channels > 0,
        i >= 0,
    ensures
        (i + 1) % channels == (if i % channels + 1 == channels {
            0
        } else {
            i % channels + 1
        }),
{
    vstd::arithmetic::div_mod::lemma_fundamental_div_mod(i, channels);
    let q = i / channels;
    let c = i % channels;
    if c + 1 == channels {
        assert((q + 1) * channels == channels * q + channels) by (nonlinear_arith);
        vstd::arithmetic::div_mod::lemma_fundamental_div_mod_converse(i + 1, channels, q + 1, 0);
    } else {
        assert(q * channels == channels * q) by (nonlinear_arith);
        vstd::arithmetic::div_mod::lemma_fundamental_div_mod_converse(i + 1, channels, q, c + 1);
    }
}

/// A filter hears frame after frame, and in every frame channel after channel:
/// place `f * channels + c` is sample `f` of channel `c` with the answer that stands
/// in the same place. Nothing is heard twice or passed over.
pub proof fn lemma_heard_frame_by_frame(
    channels: int,
    samples: Seq<i16>,
    answered: Seq<i16>,
    f: int,
    c: int,
)
    requires
        0 <= c < channels <= MAX_CHANNELS,
        0 <= f,
        f * channels + c < samples.len(),
    ensures
        ({
            let heard = in_turn(channels, samples, answered);
            let at = f * channels + c;
            &&& heard.len() == samples.len()
            &&& at >= 0
            &&& heard[at].0 == c
            &&& heard[at].1 == samples[at]
            &&& heard[at].2 == answered[at]
        }),
{
    let at = f * channels + c;
    assert(at >= 0) by (nonlinear_arith)
        requires
            at == f * channels + c,
            f >= 0,
            0 <= c < channels,
    ;
    vstd::arithmetic::div_mod::lemma_fundamental_div_mod_converse(at, channels, f, c);
}

/// What a filter's walk refuses: anything but 16-bit samples in one or two channels,
/// and a buffer shorter than the block.
pub proof fn lemma_walk_refuses(input: BlockView, room: nat)
    requires
        input.data.len() <= usize::MAX,
    ensures
        ({
            let fits = input.format.sample == SampleFormat::I16 && input.format.channels <= 2;
            &&& !fits ==> refusal(input, room) == Err::<(), Error>(Error::Unsupported)
            &&& fits && room < input.data.len() ==> refusal(input, room) == Err::<(), Error>(
                Error::BufferTooSmall { needed: input.data.len() as usize },
            )
            &&& refusal(input, room) is Ok <==> fits && room >= input.data.len()
        }),
{
}

} // verus!
