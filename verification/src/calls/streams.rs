//! Calls of what carries a stream: rings, datagrams, sources, chips.

use vstd::prelude::*;

use crate::chip::es7210::{self, Mics};
use crate::chip::es8311::{self, MicGain};
use crate::chip::es8388;
use crate::chip::script::{file_answers, lemma_played_on_a_register_file, plain, played, registers};
use crate::chip::{Bits, CodecChip, I2sFormat, Module};
use crate::elements::filter::{filter_i16, lemma_heard_frame_by_frame, Tick};
use crate::esp_core::error::{Error, Result};
use crate::esp_core::pcm::{PcmBlock, PcmFormat, SampleFormat};
use crate::esp_core::time::Micros;
use crate::net::{
    lemma_block_fills_up, lemma_datagrams_in_order, lemma_datagrams_taken,
    lemma_frames_under_the_ceiling, BlockFill, PcmReceiver, PcmSender,
};
use crate::pdm::{DmaFill, PdmStream};
use crate::ring::{
    lemma_mark_rises_to_the_fill, lemma_no_more_goes_than_must, lemma_pop_moves_all_it_can,
    lemma_ring_refuses, RingBuffer,
};
use crate::source::{fill_frames, AudioSink, AudioSource, CountingSink, Tone, Voice};

verus! {

/// Every call of [`RingBuffer::push`]: whole frames that fit are stored behind the
/// others; those that do not fit now are counted as dropped, and nothing is stored;
/// what could never be stored is refused.
pub proof fn law_push(data: &[u8], r: Result<()>)
    requires
        data@.len() <= usize::MAX,
    ensures
        forall|q: &mut RingBuffer<'_>| #[trigger]
            call_ensures(RingBuffer::push, (q, data), r) && q.valid() && q.dropped_frames
                + data@.len() as int / q.frame_bytes as int <= u64::MAX ==> {
                let whole = data@.len() as int % q.frame_bytes as int == 0;
                let possible = whole && data@.len() <= q.cap;
                let frames = data@.len() as int / q.frame_bytes as int;
                &&& final(q).valid()
                &&& final(q).cap == q.cap && final(q).frame_bytes == q.frame_bytes
                &&& r is Ok <==> possible && q@.len() + data@.len() <= q.cap
                &&& r is Ok ==> final(q)@ == q@ + data@
                &&& r is Err ==> final(q)@ == q@
                &&& r == Err::<(), Error>(Error::Busy) <==> possible && q@.len() + data@.len() > q.cap
                &&& final(q).dropped_frames == q.dropped_frames + (if r == Err::<(), Error>(
                    Error::Busy,
                ) {
                    frames
                } else {
                    0
                })
                &&& final(q).high_water_frames >= q.high_water_frames
                &&& final(q).high_water_frames >= final(q)@.len() as int / q.frame_bytes as int
                &&& final(q).high_water_frames == q.high_water_frames || final(q).high_water_frames
                    == final(q)@.len() as int / q.frame_bytes as int
            },
{
    assert forall|q: &mut RingBuffer<'_>| #[trigger]
        call_ensures(RingBuffer::push, (q, data), r) && q.valid() && q.dropped_frames
            + data@.len() as int / q.frame_bytes as int <= u64::MAX implies {
        let whole = data@.len() as int % q.frame_bytes as int == 0;
        let possible = whole && data@.len() <= q.cap;
        let frames = data@.len() as int / q.frame_bytes as int;
        &&& final(q).valid()
        &&& final(q).cap == q.cap && final(q).frame_bytes == q.frame_bytes
        &&& r is Ok <==> possible && q@.len() + data@.len() <= q.cap
        &&& r is Ok ==> final(q)@ == q@ + data@
        &&& r is Err ==> final(q)@ == q@
        &&& r == Err::<(), Error>(Error::Busy) <==> possible && q@.len() + data@.len() > q.cap
        &&& final(q).dropped_frames == q.dropped_frames + (if r == Err::<(), Error>(Error::Busy) {
            frames
        } else {
            0
        })
        &&& final(q).high_water_frames >= q.high_water_frames
        &&& final(q).high_water_frames >= final(q)@.len() as int / q.frame_bytes as int
        &&& final(q).high_water_frames == q.high_water_frames || final(q).high_water_frames
            == final(q)@.len() as int / q.frame_bytes as int
    } by {
        lemma_ring_refuses(*q, data@.len());
        lemma_mark_rises_to_the_fill(*q, final(q)@.len() as int);
    }
}

/// Every call of [`RingBuffer::push_overwrite`]: the data is stored, and of what was
/// there the newest part stays, all of it where all fits and else as much as fills
/// the ring; the frames that went are answered and counted.
pub proof fn law_push_overwrite(data: &[u8], r: Result<usize>)
    requires
        data@.len() <= usize::MAX,
    ensures
        forall|q: &mut RingBuffer<'_>| #[trigger]
            call_ensures(RingBuffer::push_overwrite, (q, data), r) && q.valid() && q.dropped_frames
                + data@.len() as int / q.frame_bytes as int <= u64::MAX ==> {
                let possible = data@.len() as int % q.frame_bytes as int == 0 && data@.len() <= q.cap;
                let gone = q@.len() + data@.len() - final(q)@.len();
                &&& r is Ok <==> possible
                &&& r is Err ==> final(q)@ == q@ && final(q).dropped_frames == q.dropped_frames
                &&& r is Ok ==> {
                    &&& 0 <= gone <= q@.len()
                    &&& final(q)@ == q@.skip(gone) + data@
                    &&& final(q)@.len() <= q.cap
                    &&& gone > 0 ==> final(q)@.len() == q.cap
                    &&& r->Ok_0 * q.frame_bytes == gone
                    &&& final(q).dropped_frames == q.dropped_frames + r->Ok_0
                }
            },
{
    assert forall|q: &mut RingBuffer<'_>| #[trigger]
        call_ensures(RingBuffer::push_overwrite, (q, data), r) && q.valid() && q.dropped_frames
            + data@.len() as int / q.frame_bytes as int <= u64::MAX implies {
        let possible = data@.len() as int % q.frame_bytes as int == 0 && data@.len() <= q.cap;
        let gone = q@.len() + data@.len() - final(q)@.len();
        &&& r is Ok <==> possible
        &&& r is Err ==> final(q)@ == q@ && final(q).dropped_frames == q.dropped_frames
        &&& r is Ok ==> {
            &&& 0 <= gone <= q@.len()
            &&& final(q)@ == q@.skip(gone) + data@
            &&& final(q)@.len() <= q.cap
            &&& gone > 0 ==> final(q)@.len() == q.cap
            &&& r->Ok_0 * q.frame_bytes == gone
            &&& final(q).dropped_frames == q.dropped_frames + r->Ok_0
        }
    } by {
        lemma_ring_refuses(*q, data@.len());
        if r is Ok {
            lemma_no_more_goes_than_must(*q, data@);
            let e = q.excess(data@.len());
            let fb = q.frame_bytes as int;
            vstd::arithmetic::div_mod::lemma_fundamental_div_mod(e, fb);
            let frames = e / fb;
            assert(frames * fb == e && 0 <= frames <= e) by (nonlinear_arith)
                requires
                    e == fb * frames,
                    fb > 0,
                    e >= 0,
            ;
            assert(final(q)@ =~= q@.skip(e) + data@);
        }
    }
}

/// Every call of [`RingBuffer::pop`]: the oldest bytes come out, in order, as many
/// whole frames as there are and have room; the others stay.
pub proof fn law_pop(r: usize)
    ensures
        forall|q: &mut RingBuffer<'_>, out: &mut [u8]| #[trigger]
            call_ensures(RingBuffer::pop, (q, out), r) && q.valid() ==> {
                &&& r <= out@.len()
                &&& r <= q@.len()
                &&& r as int % q.frame_bytes as int == 0
                &&& r == q@.len() || r + q.frame_bytes > out@.len()
                &&& final(out)@ == q@.take(r as int) + out@.skip(r as int)
                &&& final(q)@ == q@.skip(r as int)
                &&& final(q).dropped_frames == q.dropped_frames
                &&& final(q).high_water_frames == q.high_water_frames
            },
{
    assert forall|q: &mut RingBuffer<'_>, out: &mut [u8]| #[trigger]
        call_ensures(RingBuffer::pop, (q, out), r) && q.valid() implies {
        &&& r <= out@.len()
        &&& r <= q@.len()
        &&& r as int % q.frame_bytes as int == 0
        &&& r == q@.len() || r + q.frame_bytes > out@.len()
        &&& final(out)@ == q@.take(r as int) + out@.skip(r as int)
        &&& final(q)@ == q@.skip(r as int)
        &&& final(q).dropped_frames == q.dropped_frames
        &&& final(q).high_water_frames == q.high_water_frames
    } by {
        lemma_pop_moves_all_it_can(*q, out@.len());
    }
}

/// Every call of [`RingBuffer::pop_exact`]: all or nothing.
pub proof fn law_pop_exact(r: bool)
    ensures
        forall|q: &mut RingBuffer<'_>, out: &mut [u8]| #[trigger]
            call_ensures(RingBuffer::pop_exact, (q, out), r) && q.valid() ==> {
                let n = out@.len() as int;
                &&& r <==> n > 0 && n % q.frame_bytes as int == 0 && n <= q@.len()
                &&& r ==> final(out)@ + final(q)@ == q@
                &&& !r ==> final(out)@ == out@ && final(q)@ == q@
            },
{
    assert forall|q: &mut RingBuffer<'_>, out: &mut [u8]| #[trigger]
        call_ensures(RingBuffer::pop_exact, (q, out), r) && q.valid() implies {
        let n = out@.len() as int;
        &&& r <==> n > 0 && n % q.frame_bytes as int == 0 && n <= q@.len()
        &&& r ==> final(out)@ + final(q)@ == q@
        &&& !r ==> final(out)@ == out@ && final(q)@ == q@
    } by {
        if r {
            assert(final(out)@ + final(q)@ =~= q@);
        }
    }
}

/// Every call that counts a ring's frames: what is stored, what still fits, and all
/// that fits.
pub proof fn law_frames_of_a_ring(q: RingBuffer<'_>, stored: usize, free: usize, all: usize)
    requires
        q.valid(),
        call_ensures(RingBuffer::available_frames, (&q,), stored),
        call_ensures(RingBuffer::free_frames, (&q,), free),
        call_ensures(RingBuffer::capacity_frames, (&q,), all),
    ensures
        stored * q.frame_bytes == q@.len(),
        all * q.frame_bytes == q.cap,
        stored + free == all,
        stored <= q.high_water_frames <= all,
{
    q.lemma_frames_add_up();
    let fb = q.frame_bytes as int;
    let (n, cap) = (q@.len() as int, q.cap as int);
    vstd::arithmetic::div_mod::lemma_fundamental_div_mod(n, fb);
    vstd::arithmetic::div_mod::lemma_fundamental_div_mod(cap, fb);
    assert(n / fb * fb == n && cap / fb * fb == cap) by (nonlinear_arith)
        requires
            n == fb * (n / fb),
            cap == fb * (cap / fb),
    ;
}

/// Every call of [`PcmSender::next_datagram`]: the bytes behind those that are done,
/// as many whole frames as fit under the ceiling, or all that is left.
pub proof fn law_next_datagram(sender: PcmSender, data: &[u8], done: usize, part: Option<&[u8]>)
    requires
        sender.format.channels > 0,
        done <= data@.len(),
        call_ensures(PcmSender::next_datagram, (&sender, data, done), part),
    ensures
        part is None <==> done == data@.len(),
        part matches Some(p) ==> {
            let width = sender.format.frame_width() as int;
            let ceiling = sender.datagram_bytes as int;
            let left = data@.len() - done;
            &&& p@ == data@.subrange(done as int, done + p@.len())
            &&& 0 < p@.len() <= left
            &&& p@.len() <= ceiling || p@.len() <= width
            &&& p@.len() == left || p@.len() as int % width == 0 && p@.len() + width > ceiling
        },
{
    if let Some(p) = part {
        let rest = data@.skip(done as int);
        let chunk = sender.chunk();
        let width = sender.format.frame_width() as int;
        lemma_frames_under_the_ceiling(sender);
        let n = sender.frames_each() as int;
        assert(n * width > 0 && (n + 1) * width == n * width + width) by (nonlinear_arith)
            requires
                n >= 1,
                width > 0,
        ;
        if width > sender.datagram_bytes {
            assert(1 * width == width);
        }
        vstd::arithmetic::div_mod::lemma_mod_multiples_basic(n, width);
        lemma_datagrams_in_order(rest, chunk, 0);
        assert(0 * chunk == 0);
        assert(p@ =~= data@.subrange(done as int, done + p@.len()));
    }
}

/// Every call that settles what came of a datagram. One that was sent whole counts
/// with its bytes; anything else counts as failed and is answered as busy.
pub proof fn law_sent(asked: usize, sent: Option<usize>, r: Result<()>)
    ensures
        forall|s: &mut PcmSender| #[trigger]
            call_ensures(PcmSender::sent, (s, asked, sent), r) && s.datagrams < u64::MAX && s.failed
                < u64::MAX && s.bytes + asked <= u64::MAX ==> {
                let all = sent == Some(asked);
                &&& r is Ok <==> all
                &&& r is Err ==> r == Err::<(), Error>(Error::Busy)
                &&& final(s).format == s.format && final(s).datagram_bytes == s.datagram_bytes
                &&& final(s).datagrams == s.datagrams + if all {
                    1int
                } else {
                    0
                }
                &&& final(s).bytes == s.bytes + if all {
                    asked as int
                } else {
                    0
                }
                &&& final(s).failed == s.failed + if all {
                    0int
                } else {
                    1
                }
            },
{
}

/// A sender's ceiling is at least a frame, and else what it was asked to be; as many
/// frames go under it as fit.
pub proof fn law_ceiling(sender: PcmSender, bytes: usize, after: PcmSender, frames: usize)
    requires
        sender.format.channels > 0,
    ensures
        call_ensures(PcmSender::with_datagram_bytes, (sender, bytes), after) ==> {
            &&& after.format == sender.format
            &&& after.datagram_bytes >= sender.format.frame_width()
            &&& bytes >= sender.format.frame_width() ==> after.datagram_bytes == bytes
            &&& bytes < sender.format.frame_width() ==> after.datagram_bytes
                == sender.format.frame_width()
        },
        call_ensures(PcmSender::datagram_frames, (&sender,), frames) ==> {
            let width = sender.format.frame_width() as int;
            &&& frames >= 1
            &&& width <= sender.datagram_bytes ==> frames * width <= sender.datagram_bytes
            &&& sender.datagram_bytes < (frames + 1) * width
        },
{
    lemma_frames_under_the_ceiling(sender);
}

/// Every call for a datagram that arrived: whole frames that fit are taken, anything
/// else is counted as misaligned; the first one taken stamps the block.
pub proof fn law_arrived(n: usize, room: usize, now: Micros, r: bool)
    ensures
        forall|rx: &mut PcmReceiver| #[trigger]
            call_ensures(PcmReceiver::accept, (rx, n, room), r) && rx.format.channels > 0
                && rx.datagrams < u64::MAX && rx.misaligned < u64::MAX && rx.bytes + n <= u64::MAX
                ==> {
                &&& r <==> 0 < n <= room && n as int % rx.format.frame_width() as int == 0
                &&& final(rx).format == rx.format
                &&& r ==> final(rx).datagrams == rx.datagrams + 1 && final(rx).bytes == rx.bytes + n
                    && final(rx).misaligned == rx.misaligned
                &&& !r ==> final(rx).datagrams == rx.datagrams && final(rx).bytes == rx.bytes
                    && final(rx).misaligned == rx.misaligned + 1
            },
        forall|fill: &mut BlockFill, rx: &mut PcmReceiver| #[trigger]
            call_ensures(BlockFill::arrived, (fill, rx, n, now), ()) && fill.valid(rx.format) ==> {
                let taken = 0 < n && fill.filled + n <= fill.goal && n as int
                    % rx.format.frame_width() as int == 0;
                &&& final(fill).goal == fill.goal
                &&& final(fill).filled == fill.filled + if taken {
                    n as int
                } else {
                    0
                }
                &&& taken && fill.filled == 0 ==> final(fill).first == Some(now)
                &&& !taken || fill.filled > 0 ==> final(fill).first == fill.first
            },
{
    assert forall|rx: &mut PcmReceiver| #[trigger]
        call_ensures(PcmReceiver::accept, (rx, n, room), r) && rx.format.channels > 0 && rx.datagrams
            < u64::MAX && rx.misaligned < u64::MAX && rx.bytes + n <= u64::MAX implies {
        &&& r <==> 0 < n <= room && n as int % rx.format.frame_width() as int == 0
        &&& final(rx).format == rx.format
        &&& r ==> final(rx).datagrams == rx.datagrams + 1 && final(rx).bytes == rx.bytes + n
            && final(rx).misaligned == rx.misaligned
        &&& !r ==> final(rx).datagrams == rx.datagrams && final(rx).bytes == rx.bytes
            && final(rx).misaligned == rx.misaligned + 1
    } by {
        lemma_datagrams_taken(*rx, n, room);
    }
    assert forall|fill: &mut BlockFill, rx: &mut PcmReceiver| #[trigger]
        call_ensures(BlockFill::arrived, (fill, rx, n, now), ()) && fill.valid(rx.format) implies {
        let taken = 0 < n && fill.filled + n <= fill.goal && n as int
            % rx.format.frame_width() as int == 0;
        &&& final(fill).goal == fill.goal
        &&& final(fill).filled == fill.filled + if taken {
            n as int
        } else {
            0
        }
        &&& taken && fill.filled == 0 ==> final(fill).first == Some(now)
        &&& !taken || fill.filled > 0 ==> final(fill).first == fill.first
    } by {
        lemma_block_fills_up(*fill, *rx, n, now);
    }
}

/// Every call of [`PdmStream::took`]: nothing is a timeout and changes nothing; what
/// is short of the block counts as a short read, what completes it as a block.
pub proof fn law_took(n: usize, r: Result<()>)
    ensures
        forall|s: &mut PdmStream, fill: &mut DmaFill| #[trigger]
            call_ensures(PdmStream::took, (s, fill, n), r) && fill.filled + n <= fill.goal
                && s.blocks < u64::MAX && s.short_reads < u64::MAX ==> {
                let full = fill.filled + n == fill.goal;
                &&& r is Ok <==> n > 0
                &&& r is Err ==> r == Err::<(), Error>(Error::Timeout)
                &&& final(fill).goal == fill.goal
                &&& final(fill).filled == fill.filled + n
                &&& final(s).format == s.format && final(s).timeout_ms == s.timeout_ms
                &&& final(s).blocks == s.blocks + if n > 0 && full {
                    1int
                } else {
                    0
                }
                &&& final(s).short_reads == s.short_reads + if n > 0 && !full {
                    1int
                } else {
                    0
                }
            },
{
}

/// Every call of a [`CountingSink`]'s `write`: the first block settles the format; a
/// block of it counts with its frames and bytes, one of another is rejected.
pub proof fn law_counting_sink(block: PcmBlock<'_>, r: Result<()>)
    ensures
        forall|s: &mut CountingSink| #[trigger]
            call_ensures(<CountingSink as AudioSink>::write, (s, block), r) && s.has_room_for(
                block@,
            ) && block@.well_formed() ==> {
                let taken = s.held is None || s.held == Some(block@.format);
                &&& r == (if taken {
                    Ok::<(), Error>(())
                } else {
                    Err(Error::InvalidFormat)
                })
                &&& taken ==> {
                    &&& final(s).held == Some(block@.format)
                    &&& final(s).blocks == s.blocks + 1
                    &&& final(s).frames == s.frames + block@.data.len() as int
                        / block@.format.frame_width() as int
                    &&& final(s).bytes == s.bytes + block@.data.len()
                    &&& final(s).rejected == s.rejected
                    &&& final(s).last_end == block@.end()
                }
                &&& !taken ==> {
                    &&& final(s).held == s.held && final(s).blocks == s.blocks
                    &&& final(s).frames == s.frames && final(s).bytes == s.bytes
                    &&& final(s).rejected == s.rejected + 1
                    &&& final(s).last_end == s.last_end
                }
            },
{
}

/// Every call of [`fill_frames`]: as many values are asked for as there are frames,
/// and each stands on all channels of its frame.
pub proof fn law_fill_frames<V: Voice>(format: PcmFormat, r: Result<()>, k: int, c: int)
    requires
        format.sample == SampleFormat::I16,
        format.channels > 0,
        0 <= k,
        0 <= c < format.channels,
    ensures
        forall|out: &mut [u8], voice: &mut V| #[trigger]
            call_ensures(fill_frames::<V>, (format, out, voice), r) ==> {
                let width = 2 * format.channels as int;
                let n = out@.len() as int;
                let known = voice.given().len() as int;
                &&& r is Ok <==> n > 0 && n % width == 0
                &&& r is Err ==> final(out)@ == out@ && *final(voice) == *voice
                &&& r is Ok ==> {
                    &&& final(out)@.len() == n
                    &&& final(voice).given().len() == known + n / width
                    &&& final(voice).given().take(known) == voice.given()
                    &&& k < n / width ==> crate::bytes::sample_in(
                        final(out)@,
                        k * format.channels + c,
                    ) == final(voice).given()[known + k]
                }
            },
{
    assert forall|out: &mut [u8], voice: &mut V| #[trigger]
        call_ensures(fill_frames::<V>, (format, out, voice), r) implies {
        let width = 2 * format.channels as int;
        let n = out@.len() as int;
        let known = voice.given().len() as int;
        &&& r is Ok <==> n > 0 && n % width == 0
        &&& r is Err ==> final(out)@ == out@ && *final(voice) == *voice
        &&& r is Ok ==> {
            &&& final(out)@.len() == n
            &&& final(voice).given().len() == known + n / width
            &&& final(voice).given().take(known) == voice.given()
            &&& k < n / width ==> crate::bytes::sample_in(final(out)@, k * format.channels + c)
                == final(voice).given()[known + k]
        }
    } by {
        let width = 2 * format.channels as int;
        let n = out@.len() as int;
        let known = voice.given().len() as int;
        assert(format.frame_width() == width);
        if r is Ok {
            let ch = format.channels as nat;
            let values = choose|values: Seq<i16>|
                {
                    &&& values.len() == out@.len() / format.frame_width()
                    &&& final(voice).given() == voice.given() + values
                    &&& final(out)@ == crate::bytes::encode16(
                        #[trigger] crate::source::spread(values, ch),
                    )
                };
            assert(final(voice).given().take(known) =~= voice.given());
            if k < n / width {
                crate::source::lemma_same_on_every_channel(values, ch, k, c);
                crate::bytes::lemma_samples_lie(
                    final(out)@,
                    crate::source::spread(values, ch),
                    k * ch + c,
                );
            }
        }
    }
}

/// Every call of [`filter_i16`]: each sample is heard once, in its turn and with its
/// channel, and the answer stands in its place.
pub proof fn law_filter<T: Tick>(input: PcmBlock<'_>, r: Result<usize>, f: int, c: int)
    requires
        input@.well_formed(),
        input@.data.len() <= usize::MAX,
        0 <= f,
        0 <= c < input@.format.channels,
        2 * (f * input@.format.channels + c) + 1 < input@.data.len(),
    ensures
        forall|out: &mut [u8], t: &mut T| #[trigger]
            call_ensures(filter_i16::<T>, (input, out, t), r) ==> {
                let n = input@.data.len() as int;
                let fits = input@.format.sample == SampleFormat::I16 && input@.format.channels <= 2;
                let at = f * input@.format.channels + c;
                let known = t.heard().len() as int;
                &&& r is Ok <==> fits && out@.len() >= n
                &&& r is Err ==> final(out)@ == out@ && *final(t) == *t
                &&& r is Ok ==> {
                    &&& r->Ok_0 == n
                    &&& final(t).heard().len() == known + n / 2
                    &&& final(t).heard().take(known) == t.heard()
                    &&& final(t).heard()[known + at] == (
                        c as usize,
                        crate::bytes::sample_in(input@.data, at),
                        crate::bytes::sample_in(final(out)@, at),
                    )
                }
            },
{
    assert forall|out: &mut [u8], t: &mut T| #[trigger]
        call_ensures(filter_i16::<T>, (input, out, t), r) implies {
        let n = input@.data.len() as int;
        let fits = input@.format.sample == SampleFormat::I16 && input@.format.channels <= 2;
        let at = f * input@.format.channels + c;
        let known = t.heard().len() as int;
        &&& r is Ok <==> fits && out@.len() >= n
        &&& r is Err ==> final(out)@ == out@ && *final(t) == *t
        &&& r is Ok ==> {
            &&& r->Ok_0 == n
            &&& final(t).heard().len() == known + n / 2
            &&& final(t).heard().take(known) == t.heard()
            &&& final(t).heard()[known + at] == (
                c as usize,
                crate::bytes::sample_in(input@.data, at),
                crate::bytes::sample_in(final(out)@, at),
            )
        }
    } by {
        crate::elements::filter::lemma_walk_refuses(input@, out@.len());
        if r is Ok {
            let ch = input@.format.channels as int;
            let samples = crate::bytes::decode16(input@.data);
            let at = f * ch + c;
            let known = t.heard().len() as int;
            let answered = choose|answered: Seq<i16>|
                {
                    &&& answered.len() == samples.len()
                    &&& final(t).heard() == t.heard()
                        + #[trigger] crate::elements::filter::in_turn(ch, samples, answered)
                    &&& final(out)@ == crate::bytes::overwritten(
                        out@,
                        crate::bytes::encode16(answered),
                    )
                };
            crate::elements::lemma_whole_samples(input@.format, input@.data.len());
            lemma_heard_frame_by_frame(ch, samples, answered, f, c);
            crate::bytes::lemma_samples_of_the_front(out@, answered);
            assert(final(t).heard().take(known) =~= t.heard());
            assert(crate::bytes::sample_in(final(out)@, at) == answered[at]);
            assert(samples[at] == crate::bytes::sample_in(input@.data, at));
        }
    }
}

/// Every call of a codec chip, on registers that never fail, leaves them and answers
/// as its script does when it is played. What the scripts leave is told register by
/// register, chip by chip.
pub proof fn law_chip_calls<C: CodecChip>(
    file: Seq<u8>,
    rate_hz: u32,
    mclk_hz: u32,
    fmt: I2sFormat,
    bits: Bits,
    module: Module,
    mute: bool,
    r: Result<()>,
)
    ensures
        forall|chip: &mut C| #[trigger]
            call_ensures(C::set_sample_rate, (chip, rate_hz, mclk_hz), r) && file_answers(
                file,
                final(chip).log().skip(chip.log().len() as int),
            ) ==> {
                let p = played(chip.sample_rate_script(rate_hz, mclk_hz), file);
                plain(r) == p.answer && registers(
                    file,
                    final(chip).log().skip(chip.log().len() as int),
                ) == p.file
            },
        forall|chip: &mut C| #[trigger]
            call_ensures(C::set_format, (chip, fmt, bits), r) && file_answers(
                file,
                final(chip).log().skip(chip.log().len() as int),
            ) ==> {
                let p = played(chip.format_script(fmt, bits), file);
                plain(r) == p.answer && registers(
                    file,
                    final(chip).log().skip(chip.log().len() as int),
                ) == p.file
            },
        forall|chip: &mut C| #[trigger]
            call_ensures(C::start, (chip, module), r) && file_answers(
                file,
                final(chip).log().skip(chip.log().len() as int),
            ) ==> {
                let p = played(chip.start_script(module), file);
                plain(r) == p.answer && registers(
                    file,
                    final(chip).log().skip(chip.log().len() as int),
                ) == p.file
            },
        forall|chip: &mut C| #[trigger]
            call_ensures(C::stop, (chip,), r) && file_answers(
                file,
                final(chip).log().skip(chip.log().len() as int),
            ) ==> {
                let p = played(chip.stop_script(), file);
                plain(r) == p.answer && registers(
                    file,
                    final(chip).log().skip(chip.log().len() as int),
                ) == p.file
            },
        forall|chip: &mut C| #[trigger]
            call_ensures(C::set_mute, (chip, mute), r) && file_answers(
                file,
                final(chip).log().skip(chip.log().len() as int),
            ) ==> {
                let p = played(chip.mute_script(mute), file);
                plain(r) == p.answer && registers(
                    file,
                    final(chip).log().skip(chip.log().len() as int),
                ) == p.file
            },
{
    assert forall|chip: &mut C| #[trigger]
        call_ensures(C::set_sample_rate, (chip, rate_hz, mclk_hz), r) && file_answers(
            file,
            final(chip).log().skip(chip.log().len() as int),
        ) implies {
        let p = played(chip.sample_rate_script(rate_hz, mclk_hz), file);
        plain(r) == p.answer && registers(file, final(chip).log().skip(chip.log().len() as int))
            == p.file
    } by {
        let s = chip.sample_rate_script(rate_hz, mclk_hz);
        let (a, b) = (chip.log(), final(chip).log());
        lemma_played_on_a_register_file(s, file, a, b, chip.address(), plain(r));
    }
    assert forall|chip: &mut C| #[trigger]
        call_ensures(C::set_format, (chip, fmt, bits), r) && file_answers(
            file,
            final(chip).log().skip(chip.log().len() as int),
        ) implies {
        let p = played(chip.format_script(fmt, bits), file);
        plain(r) == p.answer && registers(file, final(chip).log().skip(chip.log().len() as int))
            == p.file
    } by {
        let s = chip.format_script(fmt, bits);
        let (a, b) = (chip.log(), final(chip).log());
        lemma_played_on_a_register_file(s, file, a, b, chip.address(), plain(r));
    }
    assert forall|chip: &mut C| #[trigger]
        call_ensures(C::start, (chip, module), r) && file_answers(
            file,
            final(chip).log().skip(chip.log().len() as int),
        ) implies {
        let p = played(chip.start_script(module), file);
        plain(r) == p.answer && registers(file, final(chip).log().skip(chip.log().len() as int))
            == p.file
    } by {
        let s = chip.start_script(module);
        let (a, b) = (chip.log(), final(chip).log());
        lemma_played_on_a_register_file(s, file, a, b, chip.address(), plain(r));
    }
    assert forall|chip: &mut C| #[trigger]
        call_ensures(C::stop, (chip,), r) && file_answers(
            file,
            final(chip).log().skip(chip.log().len() as int),
        ) implies {
        let p = played(chip.stop_script(), file);
        plain(r) == p.answer && registers(file, final(chip).log().skip(chip.log().len() as int))
            == p.file
    } by {
        let s = chip.stop_script();
        let (a, b) = (chip.log(), final(chip).log());
        lemma_played_on_a_register_file(s, file, a, b, chip.address(), plain(r));
    }
    assert forall|chip: &mut C| #[trigger]
        call_ensures(C::set_mute, (chip, mute), r) && file_answers(
            file,
            final(chip).log().skip(chip.log().len() as int),
        ) implies {
        let p = played(chip.mute_script(mute), file);
        plain(r) == p.answer && registers(file, final(chip).log().skip(chip.log().len() as int))
            == p.file
    } by {
        let s = chip.mute_script(mute);
        let (a, b) = (chip.log(), final(chip).log());
        lemma_played_on_a_register_file(s, file, a, b, chip.address(), plain(r));
    }
}

/// Every call that turns a level or a choice into a chip's code.
pub proof fn law_chip_codes(half_db: i16, a: u8, gain: MicGain, b: u8, rate_hz: u32, m: u32)
    ensures
        call_ensures(es8311::dac_volume_reg, (half_db,), a) ==> a == (if half_db < -191 {
            0int
        } else if half_db > 64 {
            255
        } else {
            191 + half_db
        }),
        call_ensures(es8388::volume_reg, (half_db,), a) ==> a == (if half_db > 0 {
            0int
        } else if half_db < -192 {
            192
        } else {
            -half_db
        }),
        call_ensures(MicGain::code, (gain,), b) ==> b == gain.code_spec(),
        call_ensures(es8311::mclk_for, (rate_hz,), m) && rate_hz * 256 <= u32::MAX ==> m == 256
            * rate_hz,
        call_ensures(es7210::mclk_for, (rate_hz,), m) && rate_hz * 256 <= u32::MAX ==> m == 256
            * rate_hz,
{
}

/// Every call that asks which inputs of an ES7210 are selected: input `n` by bit
/// `n - 1`, and how many they are.
pub proof fn law_inputs(mics: Mics, n: u8, has: bool, count: u8)
    ensures
        call_ensures(Mics::has, (mics, n), has) ==> has == (if n == 1 {
            mics.0 % 2 == 1
        } else if n == 2 {
            (mics.0 / 2) % 2 == 1
        } else if n == 3 {
            (mics.0 / 4) % 2 == 1
        } else if n == 4 {
            (mics.0 / 8) % 2 == 1
        } else {
            false
        }),
        call_ensures(Mics::count, (mics,), count) ==> count == mics.0 % 2 + (mics.0 / 2) % 2 + (
        mics.0 / 4) % 2 + (mics.0 / 8) % 2,
{
}

/// Every call that measures a block or adds to an instant: whole microseconds,
/// rounded down, and no instant after the last.
pub proof fn law_time(
    block: PcmBlock<'_>,
    end: Micros,
    t: Micros,
    add: u64,
    format: PcmFormat,
    micros: u64,
    bytes: usize,
)
    requires
        block@.well_formed(),
        block@.format.sample_rate_hz > 0,
        block@.frame_count() * 1_000_000 <= u64::MAX,
    ensures
        call_ensures(PcmBlock::end, (&block,), end) ==> {
            let whole = block@.timestamp.0 + block@.format.micros_of(block@.frame_count());
            &&& whole <= u64::MAX ==> end.0 == whole
            &&& whole > u64::MAX ==> end.0 == u64::MAX
        },
        call_ensures(PcmBlock::duration_micros, (&block,), micros) ==> micros
            * block@.format.sample_rate_hz <= block@.frame_count() * 1_000_000 < (micros + 1)
            * block@.format.sample_rate_hz,
        call_ensures(Micros::add_micros, (t, add), end) ==> end.0 == (if t.0 + add > u64::MAX {
            u64::MAX as int
        } else {
            t.0 + add
        }),
        call_ensures(PcmFormat::frame_bytes, (&format,), bytes) ==> bytes == format.channels * (
        if format.sample == SampleFormat::I16 {
            2int
        } else {
            4
        }),
{
    crate::esp_core::pcm::lemma_blocks_last(block@);
    assert(2 * format.channels == format.channels * 2 && 4 * format.channels == format.channels * 4);
}

/// Every call of a tone's `read`: a whole number of frames is filled, stamped with
/// the end of the block before; anything else is refused and changes nothing.
pub proof fn law_tone<'b, V: Voice>(r: Result<PcmBlock<'b>>)
    ensures
        forall|t: &mut Tone<V>, out: &'b mut [u8]| #[trigger]
            call_ensures(<Tone<V> as AudioSource>::read, (t, out), r) && t.can_fill(out@.len())
                ==> {
                let width = 2 * t.format.channels as int;
                let n = out@.len() as int;
                &&& r is Ok <==> n > 0 && n % width == 0
                &&& r is Err ==> *final(t) == *t && final(out)@ == out@ && r == Err::<
                    PcmBlock<'b>,
                    Error,
                >(Error::InvalidGeometry)
                &&& r matches Ok(block) ==> {
                    &&& block@.format == t.format
                    &&& block@.timestamp == t.next
                    &&& block@.data == final(out)@ && block@.data.len() == n
                    &&& final(t).next == block@.end()
                    &&& final(t).format == t.format
                    &&& final(t).voice.given().len() == t.voice.given().len() + n / width
                }
            },
{
    assert forall|t: &mut Tone<V>, out: &'b mut [u8]| #[trigger]
        call_ensures(<Tone<V> as AudioSource>::read, (t, out), r) && t.can_fill(
            out@.len(),
        ) implies {
        let width = 2 * t.format.channels as int;
        let n = out@.len() as int;
        &&& r is Ok <==> n > 0 && n % width == 0
        &&& r is Err ==> *final(t) == *t && final(out)@ == out@ && r == Err::<PcmBlock<'b>, Error>(
            Error::InvalidGeometry,
        )
        &&& r matches Ok(block) ==> {
            &&& block@.format == t.format
            &&& block@.timestamp == t.next
            &&& block@.data == final(out)@ && block@.data.len() == n
            &&& final(t).next == block@.end()
            &&& final(t).format == t.format
            &&& final(t).voice.given().len() == t.voice.given().len() + n / width
        }
    } by {
        assert(t.format.frame_width() == 2 * t.format.channels as int);
    }
}

/// Every call that begins a block asks for whole frames, and begins with none; a
/// block without a datagram is stamped zero.
pub proof fn law_blocks_begin(
    format: PcmFormat,
    len: usize,
    b: Result<BlockFill>,
    stream: PdmStream,
    d: Result<DmaFill>,
    fill: BlockFill,
    at: Micros,
    rate: u32,
    s: Result<PdmStream>,
)
    requires
        format.channels > 0,
        stream.format == format,
    ensures
        call_ensures(BlockFill::begin, (format, len), b) ==> {
            &&& b is Ok <==> len > 0 && len as int % format.frame_width() as int == 0
            &&& b is Ok ==> b->Ok_0 == (BlockFill { goal: len, filled: 0, first: None })
        },
        call_ensures(PdmStream::begin, (&stream, len), d) ==> {
            &&& d is Ok <==> len > 0 && len as int % format.frame_width() as int == 0
            &&& d is Ok ==> d->Ok_0 == (DmaFill { goal: len, filled: 0 })
        },
        call_ensures(BlockFill::stamp, (&fill,), at) ==> at == (match fill.first {
            Some(t) => t,
            None => Micros(0),
        }),
        call_ensures(PdmStream::new, (rate,), s) ==> {
            &&& s is Ok <==> rate > 0
            &&& s is Ok ==> {
                let x = s->Ok_0;
                &&& x.format.sample_rate_hz == rate && x.format.channels == 1
                &&& x.format.sample == SampleFormat::I16
                &&& x.timeout_ms == 1000 && x.blocks == 0 && x.short_reads == 0
            }
        },
{
}

/// Every call of [`RingBuffer::new`]: as many whole frames as the memory holds, none
/// of them stored; a memory that does not hold one is refused.
pub proof fn law_new_ring<'m>(format: PcmFormat, r: Result<RingBuffer<'m>>)
    requires
        format.channels > 0,
    ensures
        forall|buf: &'m mut [u8]| #[trigger]
            call_ensures(RingBuffer::<'m>::new, (buf, format), r) ==> {
                let width = format.frame_width() as int;
                &&& r is Ok <==> buf@.len() >= width
                &&& r matches Ok(q) ==> {
                    &&& q.valid() && q@.len() == 0
                    &&& q.frame_bytes == width
                    &&& q.cap <= buf@.len() < q.cap + width
                    &&& q.cap as int % width == 0
                    &&& q.dropped_frames == 0 && q.high_water_frames == 0
                }
            },
{
    assert forall|buf: &'m mut [u8]| #[trigger]
        call_ensures(RingBuffer::<'m>::new, (buf, format), r) implies {
        let width = format.frame_width() as int;
        &&& r is Ok <==> buf@.len() >= width
        &&& r matches Ok(q) ==> {
            &&& q.valid() && q@.len() == 0
            &&& q.frame_bytes == width
            &&& q.cap <= buf@.len() < q.cap + width
            &&& q.cap as int % width == 0
            &&& q.dropped_frames == 0 && q.high_water_frames == 0
        }
    } by {
        let width = format.frame_width() as int;
        let n = buf@.len() as int;
        vstd::arithmetic::div_mod::lemma_fundamental_div_mod(n, width);
        let q = n / width;
        assert(q * width <= n < q * width + width) by (nonlinear_arith)
            requires
                n == width * q + n % width,
                0 <= n % width < width,
        ;
    }
}

} // verus!
