//! `RingBuffer`: a whole-frame ring over a caller-owned slice.
//!
//! The ring never splits a sample frame, counts every frame it had to drop,
//! and remembers its high-water mark, so a firmware can print the three
//! numbers that matter (capacity, peak fill, drops) before anyone reaches for
//! a clock. It is single-owner: two tasks share it behind a lock.

use vstd::prelude::*;

use crate::bytes::{copy_at, overwritten};
use crate::esp_core::error::{Error, Result};
use crate::esp_core::pcm::PcmFormat;

verus! {

/// A whole-frame byte ring over borrowed memory.
///
/// The view is the bytes stored, oldest first.
#[derive(Debug)]
pub struct RingBuffer<'m> {
    /// The memory.
    pub buf: &'m mut [u8],
    /// Bytes in a frame.
    pub frame_bytes: usize,
    /// Usable bytes: a whole number of frames.
    pub cap: usize,
    /// Read position in bytes.
    pub head: usize,
    /// Bytes stored.
    pub len: usize,
    /// Frames refused or overwritten because the ring was full.
    pub dropped_frames: u64,
    /// Most frames ever stored at once.
    pub high_water_frames: usize,
}

/// The position `n` bytes after `head` in a ring of `cap` bytes.
pub open spec fn wrapped(head: int, n: int, cap: int) -> int {
    if head + n < cap {
        head + n
    } else {
        head + n - cap
    }
}

impl<'m> View for RingBuffer<'m> {
    type V = Seq<u8>;

    open spec fn view(&self) -> Seq<u8> {
        Seq::new(
            self.len as nat,
            |i: int| self.buf@[wrapped(self.head as int, i, self.cap as int)],
        )
    }
}

impl<'m> RingBuffer<'m> {
    /// Capacity and contents are whole frames inside the memory, and the
    /// high-water mark is no lower than the contents and no higher than the
    /// capacity.
    pub open spec fn valid(self) -> bool {
        &&& self.frame_bytes > 0
        &&& 0 < self.cap <= self.buf@.len()
        &&& self.cap as int % self.frame_bytes as int == 0
        &&& self.head < self.cap
        &&& self.len <= self.cap
        &&& self.len as int % self.frame_bytes as int == 0
        &&& self.len as int / self.frame_bytes as int <= self.high_water_frames
        &&& self.high_water_frames <= self.cap as int / self.frame_bytes as int
    }

    /// The same ring: its memory's size, its capacity and its frames.
    pub open spec fn same_ring(self, other: RingBuffer<'m>) -> bool {
        &&& self.buf@.len() == other.buf@.len()
        &&& self.cap == other.cap
        &&& self.frame_bytes == other.frame_bytes
    }

    /// The high-water mark once `len` bytes are stored.
    pub open spec fn risen(self, len: int) -> usize {
        if len / self.frame_bytes as int > self.high_water_frames {
            (len / self.frame_bytes as int) as usize
        } else {
            self.high_water_frames
        }
    }

    /// The refusal of `len` bytes that are no whole number of frames or would
    /// never fit, if it is one.
    pub open spec fn refusal(self, len: nat) -> Result<()> {
        if len as int % self.frame_bytes as int != 0 {
            Err(Error::InvalidGeometry)
        } else if len > self.cap {
            Err(Error::BufferTooSmall { needed: len as usize })
        } else {
            Ok(())
        }
    }

    /// A ring over `buf` for frames of `format`. `buf` must hold at least one
    /// frame; a trailing partial frame is unused.
    pub fn new(buf: &'m mut [u8], format: PcmFormat) -> (r: Result<Self>)
        requires
            format.channels > 0,
        ensures
            old(buf)@.len() < format.frame_width() <==> r is Err,
            r matches Err(e) ==> e == (Error::BufferTooSmall {
                needed: format.frame_width() as usize,
            }),
            r matches Ok(ring) ==> {
                &&& ring.valid()
                &&& ring@ == Seq::<u8>::empty()
                &&& ring.buf@ == old(buf)@
                &&& ring.frame_bytes == format.frame_width()
                &&& ring.cap == old(buf)@.len() / format.frame_width() * format.frame_width()
                &&& ring.dropped_frames == 0
                &&& ring.high_water_frames == 0
            },
    {
        let frame_bytes: usize = format.frame_bytes();
        let frames: usize = buf.len() / frame_bytes;
        proof {
            let n = buf@.len() as int;
            let fb = frame_bytes as int;
            vstd::arithmetic::div_mod::lemma_fundamental_div_mod(n, fb);
            assert(frames * fb <= n && (frames == 0 <==> n < fb) && (frames > 0 ==> frames * fb > 0))
                by (nonlinear_arith)
                requires
                    n == fb * frames + n % fb,
                    0 <= n % fb < fb,
                    frames >= 0,
            ;
            vstd::arithmetic::div_mod::lemma_mod_multiples_basic(frames as int, fb);
            assert(0int % fb == 0) by {
                vstd::arithmetic::div_mod::lemma_small_mod(0, fb as nat);
            }
            assert(0int / fb == 0) by {
                vstd::arithmetic::div_mod::lemma_div_basics(fb);
            }
        }
        let cap: usize = frames * frame_bytes;
        if cap == 0 {
            assert(frames == 0) by (nonlinear_arith)
                requires
                    frames * frame_bytes == 0,
                    frame_bytes > 0,
            ;
            return Err(Error::BufferTooSmall { needed: frame_bytes });
        }
        assert(frames > 0) by (nonlinear_arith)
            requires
                frames * frame_bytes != 0,
                frames >= 0,
        ;
        let r = RingBuffer {
            buf,
            frame_bytes,
            cap,
            head: 0,
            len: 0,
            dropped_frames: 0,
            high_water_frames: 0,
        };
        assert(r@ =~= Seq::<u8>::empty());
        Ok(r)
    }

    /// Frames the ring can hold.
    pub fn capacity_frames(&self) -> (r: usize)
        requires
            self.valid(),
        ensures
            r == self.cap as int / self.frame_bytes as int,
    {
        self.cap / self.frame_bytes
    }

    /// Frames stored right now.
    pub fn available_frames(&self) -> (r: usize)
        requires
            self.valid(),
        ensures
            r == self@.len() as int / self.frame_bytes as int,
    {
        self.len / self.frame_bytes
    }

    /// Frames that can still be pushed without dropping.
    pub fn free_frames(&self) -> (r: usize)
        requires
            self.valid(),
        ensures
            r == (self.cap - self@.len()) / self.frame_bytes as int,
    {
        (self.cap - self.len) / self.frame_bytes
    }

    /// True when nothing is stored.
    pub fn is_empty(&self) -> (r: bool)
        ensures
            r <==> self@.len() == 0,
    {
        self.len == 0
    }

    /// Forget the contents (counters are kept).
    pub fn clear(&mut self)
        requires
            old(self).valid(),
        ensures
            final(self).valid(),
            final(self).same_ring(*old(self)),
            final(self)@ == Seq::<u8>::empty(),
            final(self).dropped_frames == old(self).dropped_frames,
            final(self).high_water_frames == old(self).high_water_frames,
    {
        self.head = 0;
        self.len = 0;
        proof {
            let fb = self.frame_bytes as int;
            vstd::arithmetic::div_mod::lemma_small_mod(0, fb as nat);
            vstd::arithmetic::div_mod::lemma_div_basics(fb);
        }
        assert(self@ =~= Seq::<u8>::empty());
    }

    fn check_frames(&self, data: &[u8]) -> (r: Result<()>)
        requires
            self.valid(),
        ensures
            r == self.refusal(data@.len()),
    {
        if data.len() % self.frame_bytes != 0 {
            return Err(Error::InvalidGeometry);
        }
        if data.len() > self.cap {
            return Err(Error::BufferTooSmall { needed: data.len() });
        }
        Ok(())
    }

    /// The position `n` bytes after the read position.
    fn after_head(&self, n: usize) -> (r: usize)
        requires
            self.valid(),
            n <= self.cap,
        ensures
            r == wrapped(self.head as int, n as int, self.cap as int),
            r < self.cap,
    {
        if self.head >= self.cap - n {
            self.head - (self.cap - n)
        } else {
            self.head + n
        }
    }

    fn write_at_tail(&mut self, data: &[u8])
        requires
            old(self).valid(),
            old(self).len + data@.len() <= old(self).cap,
            data@.len() as int % old(self).frame_bytes as int == 0,
        ensures
            final(self).valid(),
            final(self).same_ring(*old(self)),
            final(self)@ == old(self)@ + data@,
            final(self).dropped_frames == old(self).dropped_frames,
            final(self).high_water_frames == old(self).risen(final(self)@.len() as int),
    {
        let ghost stored = self@;
        let tail: usize = self.after_head(self.len);
        let n: usize = data.len();
        let room: usize = self.cap - tail;
        let first: usize = if room < n {
            room
        } else {
            n
        };
        let cap: usize = self.cap;
        let head: usize = self.head;
        let len: usize = self.len;
        let ghost before = self.buf@;
        copy_at(self.buf, tail, vstd::slice::slice_subrange(data, 0, first));
        let rest: usize = n - first;
        if rest > 0 {
            copy_at(self.buf, 0, vstd::slice::slice_subrange(data, first, n));
        }
        proof {
            assert forall|i: int| 0 <= i < len implies self.buf@[wrapped(
                head as int,
                i,
                cap as int,
            )] == before[wrapped(head as int, i, cap as int)] by {}
            assert forall|i: int| 0 <= i < n implies self.buf@[wrapped(
                head as int,
                len + i,
                cap as int,
            )] == data@[i] by {}
            vstd::arithmetic::div_mod::lemma_mod_adds(
                len as int,
                n as int,
                self.frame_bytes as int,
            );
        }
        proof {
            vstd::arithmetic::div_mod::lemma_div_is_ordered(
                len + n,
                cap as int,
                self.frame_bytes as int,
            );
        }
        self.len = len + n;
        let frames: usize = self.len / self.frame_bytes;
        if frames > self.high_water_frames {
            self.high_water_frames = frames;
        }
        assert(self@ =~= stored + data@);
    }

    /// Append whole frames. When they do not all fit, nothing is stored, the
    /// frames count as dropped and `Err(Busy)` comes back: the producer keeps
    /// running and the drop is on the record.
    pub fn push(&mut self, data: &[u8]) -> (r: Result<()>)
        requires
            old(self).valid(),
            old(self).dropped_frames + data@.len() as int / old(self).frame_bytes as int
                <= u64::MAX,
        ensures
            final(self).valid(),
            final(self).same_ring(*old(self)),
            match old(self).refusal(data@.len()) {
                Err(e) => {
                    &&& r == Err::<(), Error>(e)
                    &&& final(self)@ == old(self)@
                    &&& final(self).dropped_frames == old(self).dropped_frames
                    &&& final(self).high_water_frames == old(self).high_water_frames
                },
                Ok(_) => if data@.len() > old(self).cap - old(self)@.len() {
                    &&& r == Err::<(), Error>(Error::Busy)
                    &&& final(self)@ == old(self)@
                    &&& final(self).dropped_frames == old(self).dropped_frames + data@.len() as int
                        / old(self).frame_bytes as int
                    &&& final(self).high_water_frames == old(self).high_water_frames
                } else {
                    &&& r == Ok::<(), Error>(())
                    &&& final(self)@ == old(self)@ + data@
                    &&& final(self).dropped_frames == old(self).dropped_frames
                    &&& final(self).high_water_frames == old(self).risen(
                        final(self)@.len() as int,
                    )
                },
            },
    {
        self.check_frames(data)?;
        if data.len() > self.cap - self.len {
            let frames: usize = data.len() / self.frame_bytes;
            self.dropped_frames = self.dropped_frames + frames as u64;
            assert(self@ =~= old(self)@);
            return Err(Error::Busy);
        }
        self.write_at_tail(data);
        Ok(())
    }

    /// Bytes that have to go before `len` more can be stored.
    pub open spec fn excess(self, len: nat) -> int {
        if len > self.cap - self@.len() {
            len - (self.cap - self@.len())
        } else {
            0
        }
    }

    /// Append whole frames, discarding the oldest stored frames to make room.
    /// Returns how many frames were discarded (also added to
    /// `dropped_frames`). Use it when latency matters more than continuity.
    pub fn push_overwrite(&mut self, data: &[u8]) -> (r: Result<usize>)
        requires
            old(self).valid(),
            old(self).dropped_frames + data@.len() as int / old(self).frame_bytes as int
                <= u64::MAX,
        ensures
            final(self).valid(),
            final(self).same_ring(*old(self)),
            match old(self).refusal(data@.len()) {
                Err(e) => {
                    &&& r == Err::<usize, Error>(e)
                    &&& final(self)@ == old(self)@
                    &&& final(self).dropped_frames == old(self).dropped_frames
                    &&& final(self).high_water_frames == old(self).high_water_frames
                },
                Ok(_) => {
                    let gone = old(self).excess(data@.len());
                    let frames = gone / old(self).frame_bytes as int;
                    &&& r == Ok::<usize, Error>(frames as usize)
                    &&& final(self)@ == (old(self)@ + data@).skip(gone)
                    &&& final(self).dropped_frames == old(self).dropped_frames + frames
                    &&& final(self).high_water_frames == old(self).risen(
                        final(self)@.len() as int,
                    )
                },
            },
    {
        self.check_frames(data)?;
        let free: usize = self.cap - self.len;
        let need: usize = data.len().saturating_sub(free);
        let ghost stored = self@;
        if need > 0 {
            proof {
                lemma_excess_is_whole(
                    self.cap as int,
                    self.len as int,
                    data@.len() as int,
                    self.frame_bytes as int,
                );
            }
            proof {
                vstd::arithmetic::div_mod::lemma_div_is_ordered(
                    need as int,
                    data@.len() as int,
                    self.frame_bytes as int,
                );
            }
            let head: usize = self.after_head(need);
            self.head = head;
            self.len = self.len - need;
            let frames: usize = need / self.frame_bytes;
            self.dropped_frames = self.dropped_frames + frames as u64;
            assert(self@ =~= stored.skip(need as int));
            self.write_at_tail(data);
            assert(self@ =~= (stored + data@).skip(need as int));
            return Ok(frames);
        }
        self.write_at_tail(data);
        assert(self@ =~= (stored + data@).skip(0));
        proof {
            vstd::arithmetic::div_mod::lemma_div_basics(self.frame_bytes as int);
        }
        Ok(0)
    }

    /// Bytes that [`pop`](Self::pop) moves into `room` bytes.
    pub open spec fn movable(self, room: nat) -> int {
        let want = room as int / self.frame_bytes as int * self.frame_bytes as int;
        if want < self@.len() {
            want
        } else {
            self@.len() as int
        }
    }

    /// Move up to `out.len()` bytes of whole frames out; returns bytes moved
    /// (0 when the ring is empty).
    pub fn pop(&mut self, out: &mut [u8]) -> (r: usize)
        requires
            old(self).valid(),
        ensures
            final(self).valid(),
            final(self).same_ring(*old(self)),
            r == old(self).movable(old(out)@.len()),
            r <= old(out)@.len(),
            final(out)@ == overwritten(old(out)@, old(self)@.take(r as int)),
            final(self)@ == old(self)@.skip(r as int),
            final(self).dropped_frames == old(self).dropped_frames,
            final(self).high_water_frames == old(self).high_water_frames,
    {
        let fb: usize = self.frame_bytes;
        let frames: usize = out.len() / fb;
        proof {
            lemma_pop_sizes(out@.len() as int, self.len as int, fb as int);
        }
        let want: usize = frames * fb;
        let n: usize = if want < self.len {
            want
        } else {
            self.len
        };
        let ghost stored = self@;
        let ghost before = out@;
        if n == 0 {
            assert(out@ =~= overwritten(before, stored.take(0)));
            assert(self@ =~= stored.skip(0));
            return 0;
        }
        let room: usize = self.cap - self.head;
        let first: usize = if room < n {
            room
        } else {
            n
        };
        copy_at(out, 0, vstd::slice::slice_subrange(self.buf, self.head, self.head + first));
        if n > first {
            copy_at(out, first, vstd::slice::slice_subrange(self.buf, 0, n - first));
        }
        let head: usize = self.after_head(n);
        self.head = head;
        self.len = self.len - n;
        assert(out@ =~= overwritten(before, stored.take(n as int)));
        assert(self@ =~= stored.skip(n as int));
        n
    }

    /// Like [`pop`](Self::pop) but only when `out.len()` bytes are stored;
    /// otherwise nothing moves and `false` comes back. This is how a consumer
    /// waits for one whole block.
    pub fn pop_exact(&mut self, out: &mut [u8]) -> (r: bool)
        requires
            old(self).valid(),
        ensures
            final(self).valid(),
            final(self).same_ring(*old(self)),
            r <==> old(out)@.len() as int % old(self).frame_bytes as int == 0 && 0 < old(
                out,
            )@.len() <= old(self)@.len(),
            r ==> final(out)@ == old(self)@.take(old(out)@.len() as int) && final(self)@ == old(
                self,
            )@.skip(old(out)@.len() as int),
            !r ==> final(out)@ == old(out)@ && final(self)@ == old(self)@,
            final(self).dropped_frames == old(self).dropped_frames,
            final(self).high_water_frames == old(self).high_water_frames,
    {
        if out.len() % self.frame_bytes != 0 || out.len() > self.len || out.len() == 0 {
            return false;
        }
        let ghost before = out@;
        let ghost stored = self@;
        proof {
            let n = out@.len() as int;
            let fb = self.frame_bytes as int;
            vstd::arithmetic::div_mod::lemma_fundamental_div_mod(n, fb);
            assert(n / fb * fb == n) by (nonlinear_arith)
                requires
                    n == fb * (n / fb) + n % fb,
                    n % fb == 0,
            ;
        }
        self.pop(out);
        assert(overwritten(before, stored.take(before.len() as int)) =~= stored.take(
            before.len() as int,
        ));
        true
    }

    /// Whole frames fit exactly if they are no more than the free ones.
    pub proof fn lemma_free_frames_fit(self, frames: int)
        requires
            self.valid(),
            frames >= 0,
        ensures
            frames * self.frame_bytes <= self.cap - self@.len() <==> frames <= (self.cap
                - self@.len()) / self.frame_bytes as int,
    {
        let fb = self.frame_bytes as int;
        let free = self.cap - self@.len();
        vstd::arithmetic::div_mod::lemma_fundamental_div_mod(free, fb);
        let q = free / fb;
        assert(frames * fb <= free <==> frames <= q) by (nonlinear_arith)
            requires
                fb > 0,
                free == fb * q + free % fb,
                0 <= free % fb < fb,
        ;
    }

    /// What is stored and what still fits make up the capacity.
    pub proof fn lemma_frames_add_up(self)
        requires
            self.valid(),
        ensures
            self@.len() as int / self.frame_bytes as int + (self.cap - self@.len())
                / self.frame_bytes as int == self.cap as int / self.frame_bytes as int,
    {
        let fb = self.frame_bytes as int;
        let cap = self.cap as int;
        let len = self.len as int;
        vstd::arithmetic::div_mod::lemma_fundamental_div_mod(cap, fb);
        vstd::arithmetic::div_mod::lemma_fundamental_div_mod(len, fb);
        let q = cap / fb - len / fb;
        assert(cap - len == fb * q) by (nonlinear_arith)
            requires
                cap == fb * (cap / fb),
                len == fb * (len / fb),
                q == cap / fb - len / fb,
        ;
        vstd::arithmetic::div_mod::lemma_fundamental_div_mod_converse(cap - len, fb, q, 0);
    }
}

/// What has to go for whole frames to fit into whole frames is whole frames.
proof fn lemma_excess_is_whole(cap: int, len: int, n: int, fb: int)
    requires
        fb > 0,
        cap % fb == 0,
        len % fb == 0,
        n % fb == 0,
        0 <= n <= cap,
        0 <= len <= cap,
        n > cap - len,
    ensures
        ({
            let need = n - (cap - len);
            &&& need % fb == 0
            &&& (len - need) % fb == 0
            &&& 0 <= need / fb <= need <= len
            &&& need / fb <= n
            &&& (len - need) / fb <= len / fb
        }),
{
    let need = n - (cap - len);
    vstd::arithmetic::div_mod::lemma_fundamental_div_mod(cap, fb);
    vstd::arithmetic::div_mod::lemma_fundamental_div_mod(len, fb);
    vstd::arithmetic::div_mod::lemma_fundamental_div_mod(n, fb);
    let q = n / fb - cap / fb + len / fb;
    assert(need == fb * q) by (nonlinear_arith)
        requires
            need == n - (cap - len),
            cap == fb * (cap / fb),
            len == fb * (len / fb),
            n == fb * (n / fb),
            q == n / fb - cap / fb + len / fb,
    ;
    vstd::arithmetic::div_mod::lemma_fundamental_div_mod_converse(need, fb, q, 0);
    let p = len / fb - q;
    assert(len - need == fb * p) by (nonlinear_arith)
        requires
            need == fb * q,
            len == fb * (len / fb),
            p == len / fb - q,
    ;
    vstd::arithmetic::div_mod::lemma_fundamental_div_mod_converse(len - need, fb, p, 0);
    vstd::arithmetic::div_mod::lemma_div_nonincreasing(need, fb);
    vstd::arithmetic::div_mod::lemma_div_pos_is_pos(need, fb);
}

proof fn lemma_pop_sizes(room: int, len: int, fb: int)
    requires
        fb > 0,
        room >= 0,
        len >= 0,
        len % fb == 0,
    ensures
        ({
            let want = room / fb * fb;
            let n = if want < len {
                want
            } else {
                len
            };
            &&& 0 <= want <= room
            &&& (len - n) % fb == 0
            &&& (len - n) / fb <= len / fb
        }),
{
    let want = room / fb * fb;
    vstd::arithmetic::div_mod::lemma_fundamental_div_mod(room, fb);
    vstd::arithmetic::div_mod::lemma_fundamental_div_mod(len, fb);
    vstd::arithmetic::div_mod::lemma_div_pos_is_pos(room, fb);
    assert(0 <= want <= room) by (nonlinear_arith)
        requires
            room == fb * (room / fb) + room % fb,
            0 <= room % fb,
            want == room / fb * fb,
            room / fb >= 0,
            fb > 0,
    ;
    if want < len {
        let p = len / fb - room / fb;
        assert(len - want == fb * p) by (nonlinear_arith)
            requires
                len == fb * (len / fb),
                want == room / fb * fb,
                p == len / fb - room / fb,
        ;
        vstd::arithmetic::div_mod::lemma_fundamental_div_mod_converse(len - want, fb, p, 0);
    } else {
        vstd::arithmetic::div_mod::lemma_small_mod(0, fb as nat);
        vstd::arithmetic::div_mod::lemma_div_basics(fb);
        vstd::arithmetic::div_mod::lemma_div_pos_is_pos(len, fb);
    }
}

/// One use of a ring, as it changes what is stored.
pub enum Use {
    /// These bytes went in.
    Push(Seq<u8>),
    /// This many came out.
    Pop(nat),
    /// These bytes went in, and this many of the oldest were lost.
    Overwrite(Seq<u8>, nat),
    /// The contents were forgotten.
    Clear,
}

/// What went into a ring, what came out, and what it holds.
pub struct Traffic {
    /// All that went in, after what the ring held at first.
    pub pushed: Seq<u8>,
    /// All that came out.
    pub popped: Seq<u8>,
    /// What is stored.
    pub held: Seq<u8>,
}

/// The traffic of a ring that held `held` at first, after `uses`.
pub open spec fn traffic(held: Seq<u8>, uses: Seq<Use>) -> Traffic
    decreases uses.len(),
{
    if uses.len() == 0 {
        Traffic { pushed: held, popped: Seq::empty(), held }
    } else {
        let before = traffic(held, uses.drop_last());
        match uses.last() {
            Use::Push(data) => Traffic {
                pushed: before.pushed + data,
                popped: before.popped,
                held: before.held + data,
            },
            Use::Pop(n) => Traffic {
                pushed: before.pushed,
                popped: before.popped + before.held.take(n as int),
                held: before.held.skip(n as int),
            },
            Use::Overwrite(data, gone) => Traffic {
                pushed: before.pushed + data,
                popped: before.popped,
                held: (before.held + data).skip(gone as int),
            },
            Use::Clear => Traffic {
                pushed: before.pushed,
                popped: before.popped,
                held: Seq::empty(),
            },
        }
    }
}

/// No more is taken out or lost than is there.
pub open spec fn possible(held: Seq<u8>, uses: Seq<Use>) -> bool {
    forall|k: int|
        0 <= k < uses.len() ==> {
            let before = traffic(held, uses.take(k)).held;
            match #[trigger] uses[k] {
                Use::Pop(n) => n <= before.len(),
                Use::Overwrite(data, gone) => gone <= before.len() + data.len(),
                _ => true,
            }
        }
}

/// What was possible was possible up to the last use.
proof fn lemma_possible_before(held: Seq<u8>, uses: Seq<Use>)
    requires
        possible(held, uses),
        uses.len() > 0,
    ensures
        possible(held, uses.drop_last()),
        uses.last() matches Use::Pop(n) ==> n <= traffic(held, uses.drop_last()).held.len(),
        uses.last() matches Use::Overwrite(data, gone) ==> gone <= traffic(
            held,
            uses.drop_last(),
        ).held.len() + data.len(),
{
    let fewer = uses.drop_last();
    let n = uses.len() - 1;
    assert forall|k: int| 0 <= k < fewer.len() implies ({
        let before = traffic(held, fewer.take(k)).held;
        match #[trigger] fewer[k] {
            Use::Pop(n) => n <= before.len(),
            Use::Overwrite(data, gone) => gone <= before.len() + data.len(),
            _ => true,
        }
    }) by {
        assert(uses[k] == fewer[k]);
        assert(fewer.take(k) =~= uses.take(k));
    }
    assert(uses.take(n) =~= fewer);
    assert(uses[n] == uses.last());
}

/// First in, first out: as long as nothing is overwritten or forgotten, what
/// came out, followed by what is stored, is what went in.
pub proof fn lemma_first_in_first_out(held: Seq<u8>, uses: Seq<Use>)
    requires
        possible(held, uses),
        forall|k: int|
            0 <= k < uses.len() ==> (#[trigger] uses[k]) is Push || uses[k] is Pop,
    ensures
        traffic(held, uses).popped + traffic(held, uses).held == traffic(held, uses).pushed,
    decreases uses.len(),
{
    if uses.len() == 0 {
        assert(Seq::<u8>::empty() + held =~= held);
    } else {
        let fewer = uses.drop_last();
        lemma_possible_before(held, uses);
        assert forall|k: int| 0 <= k < fewer.len() implies (#[trigger] fewer[k]) is Push
            || fewer[k] is Pop by {
            assert(uses[k] == fewer[k]);
        }
        lemma_first_in_first_out(held, fewer);
        let before = traffic(held, fewer);
        assert(uses[uses.len() - 1] == uses.last());
        match uses.last() {
            Use::Push(data) => {
                assert(before.popped + (before.held + data) =~= before.popped + before.held + data);
            },
            Use::Pop(n) => {
                assert(before.popped + before.held.take(n as int) + before.held.skip(n as int)
                    =~= before.popped + before.held);
            },
            _ => {},
        }
    }
}

/// Frames stored after the first `k` uses.
pub open spec fn fill(held: Seq<u8>, uses: Seq<Use>, frame_bytes: int, k: int) -> int {
    traffic(held, uses.take(k)).held.len() as int / frame_bytes
}

/// The high-water mark after `uses`: it rises to what is stored whenever
/// something went in.
pub open spec fn high_water(held: Seq<u8>, uses: Seq<Use>, frame_bytes: int) -> int
    decreases uses.len(),
{
    if uses.len() == 0 {
        held.len() as int / frame_bytes
    } else {
        let before = high_water(held, uses.drop_last(), frame_bytes);
        let now = traffic(held, uses).held.len() as int / frame_bytes;
        match uses.last() {
            Use::Pop(_) => before,
            Use::Clear => before,
            _ => if now > before {
                now
            } else {
                before
            },
        }
    }
}

/// The high-water mark is the most frames ever stored at once: it was reached,
/// and never exceeded.
pub proof fn lemma_high_water_is_the_largest_fill(held: Seq<u8>, uses: Seq<Use>, frame_bytes: int)
    requires
        frame_bytes > 0,
        possible(held, uses),
    ensures
        forall|k: int|
            0 <= k <= uses.len() ==> #[trigger] fill(held, uses, frame_bytes, k) <= high_water(
                held,
                uses,
                frame_bytes,
            ),
        exists|k: int|
            0 <= k <= uses.len() && #[trigger] fill(held, uses, frame_bytes, k) == high_water(
                held,
                uses,
                frame_bytes,
            ),
    decreases uses.len(),
{
    let mark = high_water(held, uses, frame_bytes);
    let n = uses.len() as int;
    assert(uses.take(n) =~= uses);
    if n == 0 {
        assert(fill(held, uses, frame_bytes, 0) == mark);
    } else {
        let fewer = uses.drop_last();
        lemma_possible_before(held, uses);
        lemma_high_water_is_the_largest_fill(held, fewer, frame_bytes);
        let before = high_water(held, fewer, frame_bytes);
        let now = fill(held, uses, frame_bytes, n);
        assert(fewer.take(n - 1) =~= fewer);
        assert(fill(held, fewer, frame_bytes, n - 1) <= before);
        vstd::arithmetic::div_mod::lemma_div_is_ordered(
            0,
            traffic(held, fewer).held.len() as int,
            frame_bytes,
        );
        if uses.last() is Pop || uses.last() is Clear {
            assert(traffic(held, uses).held.len() <= traffic(held, fewer).held.len());
            vstd::arithmetic::div_mod::lemma_div_is_ordered(
                traffic(held, uses).held.len() as int,
                traffic(held, fewer).held.len() as int,
                frame_bytes,
            );
        }
        assert(now <= mark);
        assert forall|k: int| 0 <= k <= n implies #[trigger] fill(held, uses, frame_bytes, k)
            <= mark by {
            if k < n {
                assert(uses.take(k) =~= fewer.take(k));
                assert(fill(held, fewer, frame_bytes, k) <= before);
            }
        }
        let reached = choose|k: int|
            0 <= k <= fewer.len() && #[trigger] fill(held, fewer, frame_bytes, k) == before;
        assert(uses.take(reached) =~= fewer.take(reached));
        if mark == before {
            assert(fill(held, uses, frame_bytes, reached) == mark);
        } else {
            assert(now == mark);
        }
    }
}

/// Making room costs the oldest bytes only: what is stored afterwards is the
/// newest part of what was stored, and then all of the new data.
pub proof fn lemma_newest_stays(ring: RingBuffer<'_>, data: Seq<u8>)
    requires
        ring.valid(),
        data.len() <= ring.cap,
    ensures
        (ring@ + data).skip(ring.excess(data.len())) == ring@.skip(ring.excess(data.len())) + data,
        (ring@ + data).skip(ring.excess(data.len())).len() <= ring.cap,
{
    assert((ring@ + data).skip(ring.excess(data.len())) =~= ring@.skip(ring.excess(data.len()))
        + data);
}

/// What a ring refuses: what is no whole number of frames, and what it could not
/// hold even empty. Nothing else is refused for good.
pub proof fn lemma_ring_refuses(ring: RingBuffer<'_>, len: nat)
    requires
        ring.valid(),
        len <= usize::MAX,
    ensures
        ring.refusal(len) is Ok <==> len <= ring.cap && exists|frames: int|
            len == #[trigger] (frames * ring.frame_bytes),
        ring.refusal(len) is Err ==> ring.refusal(len) == (if len as int % ring.frame_bytes as int
            != 0 {
            Err::<(), Error>(Error::InvalidGeometry)
        } else {
            Err::<(), Error>(Error::BufferTooSmall { needed: len as usize })
        }),
{
    let fb = ring.frame_bytes as int;
    vstd::arithmetic::div_mod::lemma_fundamental_div_mod(len as int, fb);
    if len as int % fb == 0 {
        let q = len as int / fb;
        assert(len == q * fb) by (nonlinear_arith)
            requires
                len == fb * q,
        ;
    }
    if exists|frames: int| len == #[trigger] (frames * fb) {
        let frames = choose|frames: int| len == #[trigger] (frames * fb);
        vstd::arithmetic::div_mod::lemma_fundamental_div_mod_converse(len as int, fb, frames, 0);
    }
}

/// Overwriting discards no more than it must: nothing where all fits, and where
/// something has to go, the ring is full afterwards. Only whole frames go.
pub proof fn lemma_no_more_goes_than_must(ring: RingBuffer<'_>, data: Seq<u8>)
    requires
        ring.valid(),
        ring.refusal(data.len()) is Ok,
    ensures
        ({
            let gone = ring.excess(data.len());
            let left = ring@.len() + data.len() - gone;
            &&& 0 <= gone <= ring@.len()
            &&& left <= ring.cap
            &&& gone > 0 ==> left == ring.cap
            &&& gone % ring.frame_bytes as int == 0
        }),
{
    let fb = ring.frame_bytes as int;
    if ring.excess(data.len()) > 0 {
        lemma_excess_is_whole(ring.cap as int, ring.len as int, data.len() as int, fb);
    } else {
        vstd::arithmetic::div_mod::lemma_small_mod(0, fb as nat);
    }
}

/// Popping moves as much as it can: whole frames, no more than are stored or than
/// there is room for; and either all that is stored, or so much that one more
/// frame would not fit.
pub proof fn lemma_pop_moves_all_it_can(ring: RingBuffer<'_>, room: nat)
    requires
        ring.valid(),
    ensures
        ({
            let n = ring.movable(room);
            &&& 0 <= n <= room
            &&& n <= ring@.len()
            &&& n % ring.frame_bytes as int == 0
            &&& n == ring@.len() || n + ring.frame_bytes > room
        }),
{
    let fb = ring.frame_bytes as int;
    let q = room as int / fb;
    vstd::arithmetic::div_mod::lemma_fundamental_div_mod(room as int, fb);
    vstd::arithmetic::div_mod::lemma_div_pos_is_pos(room as int, fb);
    assert(0 <= q * fb <= room && q * fb + fb > room) by (nonlinear_arith)
        requires
            room == fb * q + room as int % fb,
            0 <= room as int % fb < fb,
            q >= 0,
    ;
    vstd::arithmetic::div_mod::lemma_mod_multiples_basic(q, fb);
}

/// The high-water mark never sinks, is never below what is stored, and rises only
/// to what is stored.
pub proof fn lemma_mark_rises_to_the_fill(ring: RingBuffer<'_>, len: int)
    requires
        ring.valid(),
        0 <= len <= ring.cap,
    ensures
        ({
            let frames = len / ring.frame_bytes as int;
            &&& ring.risen(len) >= ring.high_water_frames
            &&& ring.risen(len) >= frames
            &&& ring.risen(len) == ring.high_water_frames || ring.risen(len) == frames
        }),
{
    vstd::arithmetic::div_mod::lemma_div_is_ordered(len, ring.cap as int, ring.frame_bytes as int);
    vstd::arithmetic::div_mod::lemma_div_pos_is_pos(len, ring.frame_bytes as int);
}

/// The memory of a ring.
pub open spec fn memory_of(ring: RingBuffer<'_>) -> Seq<u8> {
    ring.buf@
}

/// Where the bytes lie: byte `i` of what is stored is `i` places behind the read
/// position, counted round the usable part of the memory.
pub proof fn lemma_bytes_lie_behind_the_head(ring: RingBuffer<'_>, i: int)
    requires
        ring.valid(),
        0 <= i < ring.len,
    ensures
        ring@.len() == ring.len,
        ring@[i] == memory_of(ring)[(ring.head + i) % ring.cap as int],
{
    let cap = ring.cap as int;
    if ring.head + i < cap {
        vstd::arithmetic::div_mod::lemma_small_mod((ring.head + i) as nat, ring.cap as nat);
    } else {
        vstd::arithmetic::div_mod::lemma_fundamental_div_mod_converse(
            ring.head + i,
            cap,
            1,
            ring.head + i - cap,
        );
    }
}

} // verus!
