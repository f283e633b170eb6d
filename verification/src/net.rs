//! Raw PCM over datagrams: the simplest transport that a player already
//! understands.
//!
//! Each datagram is a whole number of interleaved sample frames in the
//! stream's format, nothing else. There is no header, so the receiver must
//! know the format, and loss shows up as a gap, not a glitch report.
//!
//! The sockets belong to the caller: [`PcmSender`] says what goes into each
//! datagram and what an outcome means, [`PcmReceiver`] and [`BlockFill`] what to
//! make of one that arrived.

use vstd::prelude::*;

use crate::esp_core::error::{Error, Result};
use crate::esp_core::pcm::{whole_frames, PcmBlock, PcmFormat};
use crate::esp_core::time::Micros;

verus! {

/// Default payload ceiling per datagram: fits an Ethernet MTU with room for
/// IPv6 and a VPN header. 1200 bytes is 600 mono i16 frames (37.5 ms at 16 kHz).
pub const DEFAULT_DATAGRAM_BYTES: usize = 1200;

/// The sending half. Counts wrap.
#[derive(Debug, Clone, Copy, PartialEq, Eq, Structural)]
pub struct PcmSender {
    /// The format of the stream.
    pub format: PcmFormat,
    /// Payload ceiling per datagram.
    pub datagram_bytes: usize,
    /// Datagrams sent.
    pub datagrams: u64,
    /// Payload bytes sent.
    pub bytes: u64,
    /// Failures (the block, or the rest of it, was dropped).
    pub failed: u64,
}

/// `data` cut into pieces of `chunk` bytes; the last one may be shorter.
pub open spec fn pieces(data: Seq<u8>, chunk: nat) -> Seq<Seq<u8>>
    decreases data.len(),
{
    if data.len() == 0 || chunk == 0 {
        Seq::empty()
    } else if data.len() <= chunk {
        seq![data]
    } else {
        seq![data.take(chunk as int)] + pieces(data.skip(chunk as int), chunk)
    }
}

/// Pieces put together again.
pub open spec fn joined(pieces: Seq<Seq<u8>>) -> Seq<u8>
    decreases pieces.len(),
{
    if pieces.len() == 0 {
        Seq::empty()
    } else {
        pieces[0] + joined(pieces.skip(1))
    }
}

/// Cutting loses nothing and adds nothing; there are as many pieces as it
/// takes, none is empty or longer than the cut, and whole frames stay whole.
pub proof fn lemma_pieces(data: Seq<u8>, chunk: nat, width: nat)
    requires
        chunk > 0,
        width > 0,
        chunk % width == 0,
        data.len() % width == 0,
    ensures
        joined(pieces(data, chunk)) == data,
        pieces(data, chunk).len() == (data.len() + chunk - 1) / chunk as int,
        forall|k: int|
            0 <= k < pieces(data, chunk).len() ==> {
                &&& 0 < (#[trigger] pieces(data, chunk)[k]).len() <= chunk
                &&& pieces(data, chunk)[k].len() % width == 0
            },
    decreases data.len(),
{
    let all = pieces(data, chunk);
    let c = chunk as int;
    let n = data.len() as int;
    if n == 0 {
        assert((c - 1) / c == 0) by (nonlinear_arith)
            requires
                c > 0,
        ;
        assert(joined(all) =~= data);
    } else if n <= c {
        assert((n + c - 1) / c == 1) by (nonlinear_arith)
            requires
                0 < n <= c,
        ;
        assert(all.skip(1) =~= Seq::<Seq<u8>>::empty());
        assert(joined(Seq::<Seq<u8>>::empty()) =~= Seq::<u8>::empty());
        assert(joined(all) =~= data);
    } else {
        let rest = data.skip(c);
        assert(rest.len() % width == 0) by {
            vstd::arithmetic::div_mod::lemma_sub_mod_noop(n, c, width as int);
            vstd::arithmetic::div_mod::lemma_small_mod(0, width);
        }
        lemma_pieces(rest, chunk, width);
        assert(all.skip(1) =~= pieces(rest, chunk));
        assert(joined(all) =~= data.take(c) + rest);
        assert(data.take(c) + rest =~= data);
        assert((n + c - 1) / c == (n - c + c - 1) / c + 1) by (nonlinear_arith)
            requires
                c > 0,
        ;
        assert forall|k: int| 0 <= k < all.len() implies {
            &&& 0 < (#[trigger] all[k]).len() <= chunk
            &&& all[k].len() % width == 0
        } by {
            if k > 0 {
                assert(all[k] == pieces(rest, chunk)[k - 1]);
            }
        }
    }
}

impl PcmSender {
    /// Frames per datagram: as many as the ceiling holds, but at least one.
    pub open spec fn frames_each(self) -> nat {
        let frames = self.datagram_bytes as nat / self.format.frame_width();
        if frames == 0 {
            1
        } else {
            frames
        }
    }

    /// Bytes per full datagram.
    pub open spec fn chunk(self) -> nat {
        self.frames_each() * self.format.frame_width()
    }

    /// A sender of `format` with the default ceiling.
    pub fn new(format: PcmFormat) -> (r: Self)
        ensures
            r == (PcmSender {
                format,
                datagram_bytes: DEFAULT_DATAGRAM_BYTES,
                datagrams: 0,
                bytes: 0,
                failed: 0,
            }),
    {
        PcmSender {
            format,
            datagram_bytes: DEFAULT_DATAGRAM_BYTES,
            datagrams: 0,
            bytes: 0,
            failed: 0,
        }
    }

    /// Change the payload ceiling (rounded down to whole frames; at least one).
    pub fn with_datagram_bytes(self, bytes: usize) -> (r: Self)
        ensures
            r == (PcmSender {
                datagram_bytes: if bytes < self.format.frame_width() {
                    self.format.frame_width() as usize
                } else {
                    bytes
                },
                ..self
            }),
    {
        let fb: usize = self.format.frame_bytes();
        let mut s: PcmSender = self;
        s.datagram_bytes = if bytes < fb {
            fb
        } else {
            bytes
        };
        s
    }

    /// Frames per datagram.
    pub fn datagram_frames(&self) -> (r: usize)
        requires
            self.format.channels > 0,
        ensures
            r == self.frames_each(),
    {
        let frames: usize = self.datagram_bytes / self.format.frame_bytes();
        if frames == 0 {
            1
        } else {
            frames
        }
    }

    /// Whether `block` belongs to the stream.
    pub fn carries(&self, block: PcmBlock<'_>) -> (r: Result<()>)
        ensures
            r == (if block@.format != self.format {
                Err(Error::InvalidFormat)
            } else {
                Ok(())
            }),
    {
        if block.format != self.format {
            return Err(Error::InvalidFormat);
        }
        Ok(())
    }

    /// The datagram that follows the first `done` bytes of a block, if any do.
    pub fn next_datagram<'a>(&self, data: &'a [u8], done: usize) -> (r: Option<&'a [u8]>)
        requires
            self.format.channels > 0,
            done <= data@.len(),
        ensures
            match r {
                Some(part) => {
                    &&& pieces(data@.skip(done as int), self.chunk()).len() > 0
                    &&& part@ == pieces(data@.skip(done as int), self.chunk())[0]
                    &&& pieces(data@.skip(done as int), self.chunk()).skip(1) == pieces(
                        data@.skip(done + part@.len()),
                        self.chunk(),
                    )
                    &&& done + part@.len() <= data@.len()
                },
                None => done == data@.len(),
            },
    {
        let left: usize = data.len() - done;
        if left == 0 {
            return None;
        }
        let fb: usize = self.format.frame_bytes();
        let frames: usize = self.datagram_frames();
        proof {
            lemma_chunk_fits(self.datagram_bytes as int, fb as int, frames as int);
        }
        let chunk: usize = frames * fb;
        let n: usize = if left < chunk {
            left
        } else {
            chunk
        };
        let ghost rest = data@.skip(done as int);
        let part: &[u8] = vstd::slice::slice_subrange(data, done, done + n);
        proof {
            let all = pieces(rest, self.chunk());
            assert(part@ =~= rest.take(n as int));
            assert(data@.skip(done + n) =~= rest.skip(n as int));
            if left <= chunk {
                assert(rest.take(n as int) =~= rest);
                assert(all.skip(1) =~= Seq::<Seq<u8>>::empty());
                assert(rest.skip(n as int).len() == 0);
            } else {
                assert(all.skip(1) =~= pieces(rest.skip(n as int), self.chunk()));
            }
        }
        Some(part)
    }

    /// What sending a datagram of `asked` bytes came to: `sent` bytes went out,
    /// or none did. Anything but all of them drops the block.
    pub fn sent(&mut self, asked: usize, sent: Option<usize>) -> (r: Result<()>)
        ensures
            sent == Some(asked) ==> r is Ok && *final(self) == (PcmSender {
                datagrams: old(self).datagrams.wrapping_add(1),
                bytes: old(self).bytes.wrapping_add(asked as u64),
                ..*old(self)
            }),
            sent != Some(asked) ==> r == Err::<(), Error>(Error::Busy) && *final(self) == (
            PcmSender { failed: old(self).failed.wrapping_add(1), ..*old(self) }),
    {
        match sent {
            Some(n) => {
                if n == asked {
                    self.datagrams = self.datagrams.wrapping_add(1);
                    self.bytes = self.bytes.wrapping_add(n as u64);
                    return Ok(());
                }
            },
            None => {},
        }
        self.failed = self.failed.wrapping_add(1);
        Err(Error::Busy)
    }
}

/// Whole frames under a ceiling, or one frame, take no more than the ceiling
/// or one frame.
proof fn lemma_chunk_fits(ceiling: int, width: int, frames: int)
    requires
        width > 0,
        ceiling >= 0,
        frames == (if ceiling / width == 0 {
            1
        } else {
            ceiling / width
        }),
    ensures
        0 < frames * width,
        frames * width <= ceiling || frames * width == width,
{
    vstd::arithmetic::div_mod::lemma_fundamental_div_mod(ceiling, width);
    assert(0 < frames * width && (frames * width <= ceiling || frames * width == width))
        by (nonlinear_arith)
        requires
            width > 0,
            frames >= 1,
            frames == 1 || frames == ceiling / width,
            ceiling == width * (ceiling / width) + ceiling % width,
            0 <= ceiling % width,
    ;
}

/// The datagrams of a block hold whole frames, and together they are the
/// block.
pub proof fn lemma_datagrams_are_the_block(sender: PcmSender, data: Seq<u8>)
    requires
        whole_frames(sender.format, data.len()),
    ensures
        joined(pieces(data, sender.chunk())) == data,
        forall|k: int|
            0 <= k < pieces(data, sender.chunk()).len() ==> whole_frames(
                sender.format,
                (#[trigger] pieces(data, sender.chunk())[k]).len(),
            ),
{
    let width = sender.format.frame_width();
    let frames = sender.frames_each();
    assert(sender.chunk() > 0 && sender.chunk() % width == 0) by {
        lemma_chunk_fits(sender.datagram_bytes as int, width as int, frames as int);
        vstd::arithmetic::div_mod::lemma_mod_multiples_basic(frames as int, width as int);
    }
    lemma_pieces(data, sender.chunk(), width);
}

/// The receiving half. Counts wrap.
#[derive(Debug, Clone, Copy, PartialEq, Eq, Structural)]
pub struct PcmReceiver {
    /// The format of the stream.
    pub format: PcmFormat,
    /// Datagrams received.
    pub datagrams: u64,
    /// Payload bytes received.
    pub bytes: u64,
    /// Datagrams discarded because their length was not a whole number of frames.
    pub misaligned: u64,
}

impl PcmReceiver {
    /// Whether a datagram of `n` bytes is taken into `room` bytes.
    pub open spec fn takes(self, n: usize, room: usize) -> bool {
        whole_frames(self.format, n as nat) && n <= room
    }

    /// The receiver after a datagram of `n` bytes for `room` bytes.
    pub open spec fn after(self, n: usize, room: usize) -> PcmReceiver {
        if self.takes(n, room) {
            PcmReceiver {
                datagrams: self.datagrams.wrapping_add(1),
                bytes: self.bytes.wrapping_add(n as u64),
                ..self
            }
        } else {
            PcmReceiver { misaligned: self.misaligned.wrapping_add(1), ..self }
        }
    }

    /// A receiver that expects `format`.
    pub fn new(format: PcmFormat) -> (r: Self)
        ensures
            r == (PcmReceiver { format, datagrams: 0, bytes: 0, misaligned: 0 }),
    {
        PcmReceiver { format, datagrams: 0, bytes: 0, misaligned: 0 }
    }

    /// Take a datagram of `n` bytes, or count it as misaligned.
    pub fn accept(&mut self, n: usize, room: usize) -> (r: bool)
        requires
            old(self).format.channels > 0,
        ensures
            r == old(self).takes(n, room),
            *final(self) == old(self).after(n, room),
    {
        if n == 0 || n % self.format.frame_bytes() != 0 || n > room {
            self.misaligned = self.misaligned.wrapping_add(1);
            return false;
        }
        self.datagrams = self.datagrams.wrapping_add(1);
        self.bytes = self.bytes.wrapping_add(n as u64);
        true
    }
}

/// A block being put together from datagrams.
#[derive(Debug, Clone, Copy, PartialEq, Eq, Structural)]
pub struct BlockFill {
    /// Bytes the block will have.
    pub goal: usize,
    /// Bytes it has.
    pub filled: usize,
    /// When its first datagram arrived.
    pub first: Option<Micros>,
}

impl BlockFill {
    /// The block will hold whole frames and holds whole frames, no more than it
    /// will, and is stamped once it holds any.
    pub open spec fn valid(self, format: PcmFormat) -> bool {
        &&& whole_frames(format, self.goal as nat)
        &&& self.filled as nat % format.frame_width() == 0
        &&& self.filled <= self.goal
        &&& self.first is Some <==> self.filled > 0
    }

    /// The block after `rx` was handed a datagram of `n` bytes at `now`.
    pub open spec fn after(self, rx: PcmReceiver, n: usize, now: Micros) -> BlockFill {
        if rx.takes(n, (self.goal - self.filled) as usize) {
            BlockFill {
                goal: self.goal,
                filled: (self.filled + n) as usize,
                first: if self.first is Some {
                    self.first
                } else {
                    Some(now)
                },
            }
        } else {
            self
        }
    }

    /// A block of `len` bytes, which must be a whole, non-zero number of frames.
    pub fn begin(format: PcmFormat, len: usize) -> (r: Result<Self>)
        requires
            len == 0 || format.channels > 0,
        ensures
            r == (if whole_frames(format, len as nat) {
                Ok(BlockFill { goal: len, filled: 0, first: None })
            } else {
                Err(Error::InvalidGeometry)
            }),
            r matches Ok(fill) ==> fill.valid(format),
    {
        if len == 0 || len % format.frame_bytes() != 0 {
            return Err(Error::InvalidGeometry);
        }
        assert(0nat % format.frame_width() == 0) by (nonlinear_arith)
            requires
                format.frame_width() > 0,
        ;
        Ok(BlockFill { goal: len, filled: 0, first: None })
    }

    /// Whether the block is complete.
    pub fn is_full(&self) -> (r: bool)
        ensures
            r == (self.filled >= self.goal),
    {
        self.filled >= self.goal
    }

    /// A datagram of `n` bytes arrived at `now`, into the space behind what the
    /// block has. One that is no whole number of frames, or more than the
    /// space, is counted and dropped.
    pub fn arrived(&mut self, rx: &mut PcmReceiver, n: usize, now: Micros)
        requires
            old(self).valid(old(rx).format),
        ensures
            final(self).valid(final(rx).format),
            *final(self) == old(self).after(*old(rx), n, now),
            *final(rx) == old(rx).after(n, (old(self).goal - old(self).filled) as usize),
    {
        let room: usize = self.goal - self.filled;
        if rx.accept(n, room) {
            if self.first.is_none() {
                self.first = Some(now);
            }
            proof {
                let width = rx.format.frame_width() as int;
                vstd::arithmetic::div_mod::lemma_mod_adds(self.filled as int, n as int, width);
            }
            self.filled += n;
        }
    }

    /// The arrival time of the first datagram, or zero.
    pub fn stamp(&self) -> (r: Micros)
        ensures
            r == (match self.first {
                Some(at) => at,
                None => Micros(0),
            }),
    {
        match self.first {
            Some(at) => at,
            None => Micros(0),
        }
    }
}

/// A datagram holds as many whole frames as fit under the ceiling, and one more
/// would not; where not even one fits, it holds one.
pub proof fn lemma_frames_under_the_ceiling(sender: PcmSender)
    requires
        sender.format.channels > 0,
    ensures
        ({
            let n = sender.frames_each() as int;
            let width = sender.format.frame_width() as int;
            let ceiling = sender.datagram_bytes as int;
            &&& n >= 1
            &&& sender.chunk() == n * width
            &&& width <= ceiling ==> n * width <= ceiling
            &&& width > ceiling ==> n == 1
            &&& ceiling < (n + 1) * width
        }),
{
    let width = sender.format.frame_width() as int;
    let ceiling = sender.datagram_bytes as int;
    vstd::arithmetic::div_mod::lemma_fundamental_div_mod(ceiling, width);
    let q = ceiling / width;
    let n = sender.frames_each() as int;
    assert((width <= ceiling ==> n * width <= ceiling) && (width > ceiling ==> n == 1) && ceiling < (n
        + 1) * width && n >= 1)
        by (nonlinear_arith)
        requires
            width > 0,
            ceiling >= 0,
            ceiling == width * q + ceiling % width,
            0 <= ceiling % width < width,
            n == (if q == 0 {
                1
            } else {
                q
            }),
    ;
}

/// The datagrams of a block, one by one: datagram `k` holds the bytes from
/// `k * chunk` on, a full chunk of them but for the last.
pub proof fn lemma_datagrams_in_order(data: Seq<u8>, chunk: nat, k: int)
    requires
        chunk > 0,
        0 <= k < pieces(data, chunk).len(),
    ensures
        ({
            let n = data.len() as int;
            let from = k * chunk;
            let to = if from + chunk <= n {
                from + chunk
            } else {
                n
            };
            &&& 0 <= from < n
            &&& pieces(data, chunk)[k] == data.subrange(from, to)
            &&& k == pieces(data, chunk).len() - 1 <==> from + chunk >= n
        }),
    decreases data.len(),
{
    let c = chunk as int;
    let all = pieces(data, chunk);
    if data.len() <= c {
        assert(k == 0 && k * c == 0);
        assert(data.subrange(0, data.len() as int) =~= data);
    } else {
        let rest = data.skip(c);
        let more = pieces(rest, chunk);
        assert(all.len() == 1 + more.len());
        assert(more.len() >= 1);
        if k == 0 {
            assert(0 * c == 0);
            assert(data.subrange(0, c) =~= data.take(c));
        } else {
            assert(all[k] == more[k - 1]);
            lemma_datagrams_in_order(rest, chunk, k - 1);
            assert((k - 1) * c + c == k * c) by (nonlinear_arith);
            let from = k * c;
            let to = if from + c <= data.len() {
                from + c
            } else {
                data.len() as int
            };
            assert(rest.subrange(from - c, to - c) =~= data.subrange(from, to));
        }
    }
}

/// Which datagrams are taken: whole frames, at least one, no more than there is
/// room for. One that is taken counts once, with its bytes; any other counts as
/// misaligned and as nothing else.
pub proof fn lemma_datagrams_taken(rx: PcmReceiver, n: usize, room: usize)
    requires
        rx.format.channels > 0,
        rx.datagrams < u64::MAX,
        rx.misaligned < u64::MAX,
        rx.bytes + n <= u64::MAX,
    ensures
        ({
            let next = rx.after(n, room);
            let taken = 0 < n <= room && n as int % rx.format.frame_width() as int == 0;
            &&& rx.takes(n, room) == taken
            &&& next.format == rx.format
            &&& taken ==> next.datagrams == rx.datagrams + 1 && next.bytes == rx.bytes + n
                && next.misaligned == rx.misaligned
            &&& !taken ==> next.datagrams == rx.datagrams && next.bytes == rx.bytes
                && next.misaligned == rx.misaligned + 1
        }),
{
}

/// A block being filled takes the datagrams that fit whole, is stamped by the
/// first of them, and keeps that stamp.
pub proof fn lemma_block_fills_up(fill: BlockFill, rx: PcmReceiver, n: usize, now: Micros)
    requires
        fill.valid(rx.format),
    ensures
        ({
            let next = fill.after(rx, n, now);
            let taken = 0 < n && fill.filled + n <= fill.goal && n as int
                % rx.format.frame_width() as int == 0;
            &&& next.goal == fill.goal
            &&& next.filled == fill.filled + if taken {
                n as int
            } else {
                0
            }
            &&& taken && fill.filled == 0 ==> next.first == Some(now)
            &&& !taken || fill.filled > 0 ==> next.first == fill.first
        }),
{
}

} // verus!
