//! `LinearResampler`: exact-rational-phase linear interpolation between sample
//! rates. Deterministic on every target; the cheap option for control-rate
//! changes (16 k to 48 k for a codec chip, 48 k to 16 k for a voice pipeline).

use vstd::arithmetic::div_mod::{
    lemma_div_multiples_vanish_quotient, lemma_fundamental_div_mod,
    lemma_fundamental_div_mod_converse,
};
use vstd::prelude::*;

use super::{i16_few_channels, require_i16, require_room, room_for, sized, wrote, MAX_CHANNELS};
use crate::bytes::{
    copy_front, decode16, encode16, get_sample, lemma_encode_joined, lemma_overwritten16,
    overwritten, put_sample, sample_in,
};
use crate::esp_core::error::{Error, Result};
use crate::esp_core::pcm::{BlockView, PcmBlock, PcmFormat, SampleFormat};
use crate::pipeline::{act_alike, keeps_its_bound, Element};

verus! {

/// The point `frac / 2^32` of the way from `x0` to `x1`, rounded to the
/// nearest integer, halves up.
pub open spec fn interpolated(x0: i16, x1: i16, frac: int) -> i16 {
    (x0 + ((x1 - x0) * frac + 2147483648) / 4294967296) as i16
}

/// `a / b`, rounded up.
pub open spec fn ceil_div(a: int, b: int) -> int {
    (a + b - 1) / b
}

/// Output frames that may come of `in_frames` input frames: the ratio, rounded
/// up, and one for the phase carried in.
pub open spec fn frames_bound(in_rate: nat, out_rate: nat, in_frames: nat) -> nat {
    (ceil_div((in_frames * out_rate) as int, in_rate as int) + 1) as nat
}

/// Where a resampler stands in its stream.
#[verifier::ext_equal]
pub struct ResamplerView {
    /// Frames per second coming in.
    pub in_rate: nat,
    /// Frames per second going out.
    pub out_rate: nat,
    /// Position of the next output frame in units of `1/out_rate` input
    /// frames, counted from the frame before the next block: position 0 is
    /// `last`, and position `k * out_rate` is frame `k - 1` of the block.
    pub phase: nat,
    /// The last frame heard, by channel.
    pub last: Seq<i16>,
    /// Whether a frame was heard at all.
    pub primed: bool,
}

impl ResamplerView {
    /// The rates are positive, and the phase lies within one step of the frame
    /// carried over.
    pub open spec fn valid(self) -> bool {
        &&& self.in_rate > 0
        &&& self.out_rate > 0
        &&& self.last.len() == MAX_CHANNELS
        &&& self.phase < self.in_rate + self.out_rate
    }

    /// Nothing heard yet.
    pub open spec fn fresh(in_rate: nat, out_rate: nat) -> ResamplerView {
        ResamplerView { in_rate, out_rate, phase: 0, last: seq![0i16, 0i16], primed: false }
    }

    /// Ready for a block: a stream starts at its first frame.
    pub open spec fn started(self, samples: Seq<i16>, channels: nat) -> ResamplerView {
        if self.primed {
            self
        } else {
            ResamplerView {
                phase: self.out_rate,
                last: Seq::new(
                    MAX_CHANNELS as nat,
                    |c: int|
                        if c < channels {
                            samples[c]
                        } else {
                            self.last[c]
                        },
                ),
                primed: true,
                ..self
            }
        }
    }

    /// Position of output frame `k` of the block.
    pub open spec fn position(self, k: int) -> int {
        self.phase + k * self.in_rate
    }

    /// Output frames that lie before frame `frames` of the block, so that both
    /// their neighbours are there.
    pub open spec fn count(self, frames: nat) -> nat {
        if self.phase < frames * self.out_rate {
            ceil_div(frames * self.out_rate - self.phase, self.in_rate as int) as nat
        } else {
            0
        }
    }

    /// Channel `c` of the frame at whole position `at`.
    pub open spec fn tap(self, samples: Seq<i16>, channels: nat, at: int, c: int) -> i16 {
        if at == 0 {
            self.last[c]
        } else {
            samples[(at - 1) * channels + c]
        }
    }

    /// Channel `c` of output frame `k`: between the frames on either side of
    /// its position.
    pub open spec fn sample(self, samples: Seq<i16>, channels: nat, k: int, c: int) -> i16 {
        let at = self.position(k) / self.out_rate as int;
        let rem = self.position(k) % self.out_rate as int;
        interpolated(
            self.tap(samples, channels, at, c),
            self.tap(samples, channels, at + 1, c),
            rem * 4294967296 / self.out_rate as int,
        )
    }

    /// The interleaved output samples for a block.
    pub open spec fn heard(self, samples: Seq<i16>, channels: nat) -> Seq<i16> {
        let s = self.started(samples, channels);
        Seq::new(
            s.count(samples.len() / channels) * channels,
            |j: int| s.sample(samples, channels, j / channels as int, j % channels as int),
        )
    }

    /// Where the resampler stands after a block: the last frame is kept and the
    /// phase is counted from it.
    pub open spec fn after(self, samples: Seq<i16>, channels: nat) -> ResamplerView {
        let s = self.started(samples, channels);
        let frames = samples.len() / channels;
        ResamplerView {
            phase: (s.position(s.count(frames) as int) - frames * s.out_rate) as nat,
            last: Seq::new(
                MAX_CHANNELS as nat,
                |c: int|
                    if c < channels {
                        samples[(frames - 1) * channels + c]
                    } else {
                        s.last[c]
                    },
            ),
            ..s
        }
    }

    /// The part that changes from block to block, as numbers.
    pub open spec fn memory(self) -> Seq<int> {
        seq![
            self.phase as int,
            self.last[0] as int,
            self.last[1] as int,
            if self.primed {
                1int
            } else {
                0int
            },
        ]
    }
}

/// `d` divides `a`.
pub open spec fn divides(d: nat, a: nat) -> bool {
    d > 0 && a % d == 0
}

/// The interpolated value lies between its neighbours.
pub proof fn lemma_interpolated_between(x0: i16, x1: i16, frac: int)
    requires
        0 <= frac < 4294967296,
    ensures
        x0 <= x1 ==> x0 <= interpolated(x0, x1, frac) <= x1,
        x1 <= x0 ==> x1 <= interpolated(x0, x1, frac) <= x0,
        interpolated(x0, x1, frac) == x0 + ((x1 - x0) * frac + 2147483648) / 4294967296,
{
    let d = x1 - x0;
    let e = d * frac;
    if d >= 0 {
        assert(0 <= e <= d * 4294967295) by (nonlinear_arith)
            requires
                e == d * frac,
                d >= 0,
                0 <= frac < 4294967296,
        ;
    } else {
        assert(d * 4294967295 <= e <= 0) by (nonlinear_arith)
            requires
                e == d * frac,
                d < 0,
                0 <= frac < 4294967296,
        ;
    }
}

/// The greatest common divisor.
pub fn gcd(a: u64, b: u64) -> (r: u64)
    requires
        a > 0,
    ensures
        divides(r as nat, a as nat),
        divides(r as nat, b as nat),
        forall|d: nat| #[trigger] divides(d, a as nat) && divides(d, b as nat) ==> d <= r,
{
    let mut x: u64 = a;
    let mut y: u64 = b;
    while y != 0
        invariant
            x > 0 || y > 0,
            a > 0,
            forall|d: nat|
                (#[trigger] divides(d, a as nat) && divides(d, b as nat)) <==> (divides(
                    d,
                    x as nat,
                ) && divides(d, y as nat)),
        decreases y,
    {
        let t: u64 = x % y;
        proof {
            assert forall|d: nat| true implies (divides(d, x as nat) && divides(d, y as nat))
                == (divides(d, y as nat) && #[trigger] divides(d, t as nat)) by {
                lemma_divides_remainder(d, x as nat, y as nat);
            }
        }
        x = y;
        y = t;
    }
    proof {
        assert(divides(x as nat, x as nat) && divides(x as nat, 0)) by (nonlinear_arith)
            requires
                x > 0,
        ;
        assert(divides(x as nat, a as nat));
        assert forall|d: nat| #[trigger] divides(d, a as nat) && divides(d, b as nat) implies d
            <= x by {
            assert(divides(d, x as nat));
            lemma_divisor_is_no_larger(d, x as nat);
        }
    }
    x
}

proof fn lemma_divisor_is_no_larger(d: nat, x: nat)
    requires
        divides(d, x),
        x > 0,
    ensures
        d <= x,
{
    if x < d {
        vstd::arithmetic::div_mod::lemma_small_mod(x, d);
    }
}

proof fn lemma_divides_remainder(d: nat, x: nat, y: nat)
    requires
        y > 0,
    ensures
        (divides(d, x) && divides(d, y)) == (divides(d, y) && divides(d, x % y)),
{
    if divides(d, y) {
        let q = (x / y) as int;
        let m = (y / d) as int;
        let t = (x % y) as int;
        lemma_fundamental_div_mod(x as int, y as int);
        lemma_fundamental_div_mod(y as int, d as int);
        assert(x == d * (m * q) + t) by (nonlinear_arith)
            requires
                x == y * q + t,
                y == d * m,
        ;
        vstd::arithmetic::div_mod::lemma_mod_multiples_vanish(m * q, t, d as int);
    }
}

/// Linear interpolation from `in_rate` to `out_rate` over up to
/// [`MAX_CHANNELS`] channels of i16.
///
/// The phase is a rational number: with the rates reduced by their gcd to
/// `in_r : out_r`, output frame `k` sits at input position `k * in_r / out_r`
/// exactly, so 16 k to 48 k lands every third output on an input sample and the
/// long-run rate error is zero. The last frame of each block is kept so blocks
/// join seamlessly; output frames that need the next block wait for it.
/// Same-rate setups are a byte-exact copy.
#[derive(Debug)]
pub struct LinearResampler {
    in_rate: u32,
    out_rate: u32,
    /// Reduced ratio.
    in_r: u64,
    out_r: u64,
    /// Position of the next output frame in units of `1/out_r` input frames,
    /// in the shifted coordinate where 0 is `last` and `k` is frame `k - 1`.
    num: u64,
    last: [i16; MAX_CHANNELS],
    primed: bool,
}

impl View for LinearResampler {
    type V = ResamplerView;

    closed spec fn view(&self) -> ResamplerView {
        ResamplerView {
            in_rate: self.in_rate as nat,
            out_rate: self.out_rate as nat,
            phase: self.num as nat * self.scale(),
            last: self.last@,
            primed: self.primed,
        }
    }
}

impl Clone for LinearResampler {
    fn clone(&self) -> (r: Self)
        ensures
            r@ == self@,
    {
        proof {
            use_type_invariant(self);
        }
        LinearResampler {
            in_rate: self.in_rate,
            out_rate: self.out_rate,
            in_r: self.in_r,
            out_r: self.out_r,
            num: self.num,
            last: self.last,
            primed: self.primed,
        }
    }
}

impl LinearResampler {
    /// What the rates were reduced by.
    closed spec fn scale(self) -> nat {
        (self.in_rate as nat) / (self.in_r as nat)
    }

    /// The reduced rates are in the ratio of the rates, and the next output
    /// frame lies within one step of the frame carried over.
    #[verifier::type_invariant]
    closed spec fn reduced(self) -> bool {
        &&& 0 < self.in_r <= u32::MAX
        &&& 0 < self.out_r <= u32::MAX
        &&& self.scale() > 0
        &&& self.in_rate == self.in_r * self.scale()
        &&& self.out_rate == self.out_r * self.scale()
        &&& self.num < self.in_r + self.out_r
    }

    /// A resampler from `in_rate` to `out_rate` (both non-zero).
    pub fn new(in_rate: u32, out_rate: u32) -> (r: Result<Self>)
        ensures
            r is Ok <==> in_rate > 0 && out_rate > 0,
            r matches Ok(s) ==> s@ == ResamplerView::fresh(in_rate as nat, out_rate as nat)
                && s@.valid(),
            r matches Err(e) ==> e == Error::InvalidFormat,
    {
        if in_rate == 0 || out_rate == 0 {
            return Err(Error::InvalidFormat);
        }
        let g: u64 = gcd(in_rate as u64, out_rate as u64);
        let in_r: u64 = in_rate as u64 / g;
        let out_r: u64 = out_rate as u64 / g;
        proof {
            lemma_reduce(in_rate as nat, g as nat);
            lemma_reduce(out_rate as nat, g as nat);
        }
        let r = LinearResampler {
            in_rate,
            out_rate,
            in_r,
            out_r,
            num: 0,
            last: [0, 0],
            primed: false,
        };
        proof {
            assert(r.last@ =~= seq![0i16, 0i16]);
            assert(0 * r.scale() == 0);
        }
        Ok(r)
    }

    /// Output frames this element can emit for `in_frames` input frames.
    pub fn max_output_frames(&self, in_frames: usize) -> (r: usize)
        ensures
            r == sized(frames_bound(self@.in_rate, self@.out_rate, in_frames as nat)),
    {
        let bound: u128 = self.frames_bound(in_frames);
        if bound > usize::MAX as u128 {
            usize::MAX
        } else {
            bound as usize
        }
    }

    /// Interpolate `frames` frames of `channels` channels from `data` into the
    /// front of `out`, and carry the last one.
    fn interpolate(&mut self, data: &[u8], channels: usize, frames: usize, out: &mut [u8]) -> (r:
        usize)
        requires
            1 <= channels <= MAX_CHANNELS,
            frames > 0,
            data@.len() == 2 * (frames * channels),
            frames_bound(old(self)@.in_rate, old(self)@.out_rate, frames as nat) * channels * 2
                <= old(out)@.len(),
        ensures
            final(self)@ == old(self)@.after(decode16(data@), channels as nat),
            final(out)@ == overwritten(
                old(out)@,
                encode16(old(self)@.heard(decode16(data@), channels as nat)),
            ),
            r == 2 * old(self)@.heard(decode16(data@), channels as nat).len(),
            r <= old(out)@.len(),
    {
        proof {
            use_type_invariant(&*self);
        }
        let out_len: usize = out.len();
        let data_len: usize = data.len();
        let in_r: u64 = self.in_r;
        let out_r: u64 = self.out_r;
        let ghost g = self.scale() as int;
        let ghost samples = decode16(data@);
        let ghost ch = channels as nat;
        let ghost s = self@.started(samples, ch);
        let ghost heard = self@.heard(samples, ch);
        let ghost before = out@;
        let mut num: u64 = self.num;
        let mut last: [i16; MAX_CHANNELS] = self.last;
        assert(samples.len() == frames * channels);
        assert(frames <= frames * channels) by (nonlinear_arith)
            requires
                channels >= 1,
        ;
        if !self.primed {
            let mut c: usize = 0;
            while c < channels
                invariant
                    1 <= channels <= MAX_CHANNELS,
                    c <= channels,
                    samples == decode16(data@),
                    data@.len() >= 2 * channels,
                    last@.len() == MAX_CHANNELS,
                    forall|j: int| 0 <= j < c ==> last@[j] == samples[j],
                    forall|j: int| c <= j < MAX_CHANNELS ==> last@[j] == self.last@[j],
                decreases channels - c,
            {
                last[c] = get_sample(data, c);
                c += 1;
            }
            num = out_r;
        }
        assert(last@ =~= s.last);
        assert(s.phase == num * g) by (nonlinear_arith)
            requires
                self@.primed ==> s.phase == self.num * g && num == self.num,
                !self@.primed ==> s.phase == self.out_rate && num == out_r,
                self.out_rate == out_r * g,
        ;
        let ghost num0 = num as int;
        proof {
            lemma_fundamental_div_mod(num0, out_r as int);
            assert(s.in_rate == in_r * g && s.out_rate == out_r * g);
            assert(s.in_rate > 0) by (nonlinear_arith)
                requires
                    s.in_rate == in_r * g,
                    in_r > 0,
                    g > 0,
            ;
            s.lemma_count_bounded(frames as nat);
            assert(heard.len() == s.count(frames as nat) * ch) by {
                lemma_fundamental_div_mod_converse(
                    samples.len() as int,
                    ch as int,
                    frames as int,
                    0,
                );
            }
            assert((num0 / out_r as int) * out_r == out_r * (num0 / out_r as int))
                by (nonlinear_arith);
            assert(0 * in_r == 0);
            assert(0 * channels == 0);
        }
        let mut at: u64 = num / out_r;
        let mut rem: u64 = num % out_r;
        let mut written: usize = 0;
        while at < frames as u64
            invariant
                1 <= channels <= MAX_CHANNELS,
                ch == channels,
                frames > 0,
                data@.len() == 2 * (frames * channels),
                frames <= 9223372036854775807,
                frames <= frames * channels,
                samples == decode16(data@),
                s.in_rate > 0,
                0 < in_r <= u32::MAX,
                0 < out_r <= u32::MAX,
                g > 0,
                s.in_rate == in_r * g,
                s.out_rate == out_r * g,
                s.phase == num0 * g,
                last@ == s.last,
                last@.len() == MAX_CHANNELS,
                s.count(frames as nat) <= frames_bound(s.in_rate, s.out_rate, frames as nat),
                frames_bound(s.in_rate, s.out_rate, frames as nat) * channels * 2 <= out_len,
                out@.len() == out_len == before.len(),
                heard.len() == s.count(frames as nat) * ch,
                forall|j: int|
                    0 <= j < heard.len() ==> #[trigger] heard[j] == s.sample(
                        samples,
                        ch,
                        j / ch as int,
                        j % ch as int,
                    ),
                0 <= num0,
                at * out_r + rem == num0 + written * in_r,
                rem < out_r,
                written > 0 ==> num0 + (written - 1) * in_r < frames * out_r,
                written <= s.count(frames as nat),
                forall|j: int|
                    0 <= j < written * channels ==> #[trigger] sample_in(out@, j) == heard[j],
                forall|j: int| 2 * heard.len() <= j < out_len ==> out@[j] == before[j],
            decreases s.count(frames as nat) - written,
        {
            proof {
                assert(num0 + written * in_r < frames * out_r) by (nonlinear_arith)
                    requires
                        at * out_r + rem == num0 + written * in_r,
                        rem < out_r,
                        at < frames,
                        out_r > 0,
                ;
                assert(s.position(written as int) < frames * s.out_rate) by (nonlinear_arith)
                    requires
                        s.position(written as int) == num0 * g + written * s.in_rate,
                        s.in_rate == in_r * g,
                        s.out_rate == out_r * g,
                        num0 + written * in_r < frames * out_r,
                        g > 0,
                ;
                s.lemma_count(frames as nat, written as int);
                lemma_reduced_position(
                    num0 + written * in_r,
                    at as int,
                    rem as int,
                    out_r as int,
                    g,
                );
                assert(s.position(written as int) == (num0 + written * in_r) * g)
                    by (nonlinear_arith)
                    requires
                        s.position(written as int) == num0 * g + written * s.in_rate,
                        s.in_rate == in_r * g,
                ;
            }
            let frac: u64 = rem * 4294967296 / out_r;
            proof {
                assert(0 <= frac < 4294967296) by (nonlinear_arith)
                    requires
                        frac == (rem * 4294967296) / out_r as int,
                        0 <= rem < out_r,
                ;
                assert((written + 1) * channels * 2 <= out_len && (written + 1) * channels * 2
                    <= 2 * heard.len()) by (nonlinear_arith)
                    requires
                        written + 1 <= s.count(frames as nat),
                        s.count(frames as nat) <= frames_bound(
                            s.in_rate,
                            s.out_rate,
                            frames as nat,
                        ),
                        frames_bound(s.in_rate, s.out_rate, frames as nat) * channels * 2
                            <= out_len,
                        heard.len() == s.count(frames as nat) * ch,
                        ch == channels,
                ;
                assert((written + 1) * channels == written * channels + channels)
                    by (nonlinear_arith);
            }
            let ghost left = out@;
            proof {
                assert(at * channels + channels <= frames * channels) by (nonlinear_arith)
                    requires
                        at < frames,
                ;
            }
            put_frame(data, channels, &last, at as usize, frac, out, written * channels);
            proof {
                let base = (written * channels) as int;
                assert forall|j: int| 0 <= j < base + channels implies #[trigger] sample_in(out@, j)
                    == heard[j] by {
                    if j < base {
                        assert(sample_in(out@, j) == sample_in(left, j));
                    } else {
                        let c = j - base;
                        lemma_fundamental_div_mod_converse(j, ch as int, written as int, c);
                        assert(sample_in(out@, base + c) == sample_in(out@, j));
                    }
                }
            }
            written += 1;
            rem = rem + in_r;
            proof {
                assert(at * out_r + rem == num0 + written * in_r) by (nonlinear_arith)
                    requires
                        at * out_r + (rem - in_r) == num0 + (written - 1) * in_r,
                ;
            }
            while rem >= out_r
                invariant
                    0 < out_r <= u32::MAX,
                    at + rem <= 9223372036854775807 + 8589934592,
                    at * out_r + rem == num0 + written * in_r,
                decreases rem,
            {
                proof {
                    assert((at + 1) * out_r == at * out_r + out_r) by (nonlinear_arith);
                }
                rem = rem - out_r;
                at = at + 1;
            }
        }
        proof {
            s.lemma_count(frames as nat, written as int);
            if written > 0 {
                assert(s.position(written - 1) < frames * s.out_rate) by (nonlinear_arith)
                    requires
                        s.position(written - 1) == num0 * g + (written - 1) * s.in_rate,
                        s.in_rate == in_r * g,
                        s.out_rate == out_r * g,
                        num0 + (written - 1) * in_r < frames * out_r,
                        g > 0,
                ;
            }
            assert(num0 + written * in_r >= frames * out_r) by (nonlinear_arith)
                requires
                    at * out_r + rem == num0 + written * in_r,
                    at >= frames,
                    out_r > 0,
            ;
            assert(s.position(written as int) >= frames * s.out_rate) by (nonlinear_arith)
                requires
                    s.position(written as int) == num0 * g + written * s.in_rate,
                    s.in_rate == in_r * g,
                    s.out_rate == out_r * g,
                    num0 + written * in_r >= frames * out_r,
                    g > 0,
            ;
            lemma_overwritten16(before, out@, heard);
        }
        let ghost left = num0 + written * in_r - frames * out_r;
        proof {
            assert((at - frames) * out_r + rem == left && (at - frames) * out_r >= 0)
                by (nonlinear_arith)
                requires
                    at * out_r + rem == num0 + written * in_r,
                    left == num0 + written * in_r - frames * out_r,
                    at >= frames,
                    out_r > 0,
            ;
            assert(left < in_r + out_r) by (nonlinear_arith)
                requires
                    left == num0 + written * in_r - frames * out_r,
                    written > 0 ==> num0 + (written - 1) * in_r < frames * out_r,
                    num0 < in_r + out_r,
                    out_r > 0,
                    frames >= 0,
                    written >= 0,
            ;
            assert(left * g == s.position(written as int) - frames * s.out_rate)
                by (nonlinear_arith)
                requires
                    left == num0 + written * in_r - frames * out_r,
                    s.position(written as int) == num0 * g + written * s.in_rate,
                    s.in_rate == in_r * g,
                    s.out_rate == out_r * g,
            ;
            assert((frames - 1) * channels == frames * channels - channels) by (nonlinear_arith);
            assert(frames * channels >= channels) by (nonlinear_arith)
                requires
                    frames > 0,
            ;
        }
        let tail: usize = data_len / 2 - channels;
        let mut c: usize = 0;
        while c < channels
            invariant
                1 <= channels <= MAX_CHANNELS,
                c <= channels,
                samples == decode16(data@),
                data_len == data@.len(),
                tail + channels <= data_len / 2,
                last@.len() == MAX_CHANNELS,
                forall|j: int| 0 <= j < c ==> last@[j] == samples[tail + j],
                forall|j: int| c <= j < MAX_CHANNELS ==> last@[j] == s.last[j],
            decreases channels - c,
        {
            last[c] = get_sample(data, tail + c);
            c += 1;
        }
        *self = LinearResampler {
            in_rate: self.in_rate,
            out_rate: self.out_rate,
            in_r,
            out_r,
            num: (at - frames as u64) * out_r + rem,
            last,
            primed: true,
        };
        proof {
            lemma_fundamental_div_mod_converse(samples.len() as int, ch as int, frames as int, 0);
            assert(self@ =~= old(self)@.after(samples, ch));
        }
        2 * (written * channels)
    }

    fn frames_bound(&self, in_frames: usize) -> (r: u128)
        ensures
            r == frames_bound(self@.in_rate, self@.out_rate, in_frames as nat),
            r <= 79228162514264337593543950336,
    {
        proof {
            use_type_invariant(self);
            assert(self.in_rate > 0) by (nonlinear_arith)
                requires
                    self.in_rate == self.in_r * self.scale(),
                    self.in_r > 0,
                    self.scale() > 0,
            ;
            assert(in_frames * self.out_rate <= 18446744073709551615 * 4294967295)
                by (nonlinear_arith)
                requires
                    in_frames <= 18446744073709551615,
                    self.out_rate <= 4294967295,
            ;
        }
        let total: u128 = in_frames as u128 * self.out_rate as u128;
        let up: u128 = total + (self.in_rate as u128 - 1);
        proof {
            vstd::arithmetic::div_mod::lemma_div_nonincreasing(up as int, self.in_rate as int);
        }
        up / (self.in_rate as u128) + 1
    }
}

impl ResamplerView {
    /// Output frame `k` is among the first [`count`](Self::count) exactly if its
    /// position lies before frame `frames`.
    pub proof fn lemma_count(self, frames: nat, k: int)
        requires
            self.in_rate > 0,
            k >= 0,
        ensures
            k < self.count(frames) <==> self.position(k) < frames * self.out_rate,
    {
        let end = (frames * self.out_rate) as int;
        let phase = self.phase as int;
        let step = self.in_rate as int;
        if phase < end {
            let n = ceil_div(end - phase, step);
            let up = end - phase + step - 1;
            lemma_fundamental_div_mod(up, step);
            let r = up % step;
            assert(up == step * n + r && 0 <= r < step);
            assert(n >= 0) by (nonlinear_arith)
                requires
                    up == step * n + r,
                    r < step,
                    up >= 0,
                    step > 0,
            ;
            assert(k < n <==> phase + k * step < end) by (nonlinear_arith)
                requires
                    end - phase + step - 1 == step * n + r,
                    0 <= r < step,
            ;
        } else {
            assert(k * step >= 0) by (nonlinear_arith)
                requires
                    k >= 0,
                    step > 0,
            ;
        }
    }

    /// No more output frames come of a block than the bound says.
    pub proof fn lemma_count_bounded(self, frames: nat)
        requires
            self.in_rate > 0,
        ensures
            self.count(frames) <= frames_bound(self.in_rate, self.out_rate, frames),
    {
        let n = self.count(frames) as int;
        if n > 0 {
            self.lemma_count(frames, n - 1);
            let end = (frames * self.out_rate) as int;
            let step = self.in_rate as int;
            let m = ceil_div(end, step);
            let r = (end + step - 1) % step;
            lemma_fundamental_div_mod(end + step - 1, step);
            assert(n - 1 < m) by (nonlinear_arith)
                requires
                    (n - 1) * step < end,
                    end + step - 1 == step * m + r,
                    0 <= r < step,
            ;
        }
    }
}

impl ResamplerView {
    /// A block leaves the resampler in a valid place, its phase counted from
    /// the last frame.
    pub proof fn lemma_after_valid(self, samples: Seq<i16>, channels: nat)
        requires
            self.valid(),
            1 <= channels <= MAX_CHANNELS,
            samples.len() > 0,
            samples.len() % channels == 0,
        ensures
            self.after(samples, channels).valid(),
            self.after(samples, channels).primed,
            self.after(samples, channels).phase == self.started(samples, channels).position(
                self.started(samples, channels).count(samples.len() / channels) as int,
            ) - (samples.len() / channels) * self.out_rate,
    {
        let s = self.started(samples, channels);
        let frames = samples.len() / channels;
        let n = s.count(frames);
        s.lemma_count(frames, n as int);
        if n > 0 {
            s.lemma_count(frames, n - 1);
            assert(s.position(n as int) == s.position(n - 1) + s.in_rate) by (nonlinear_arith)
                requires
                    s.position(n as int) == s.phase + n * s.in_rate,
                    s.position(n - 1) == s.phase + (n - 1) * s.in_rate,
            ;
        } else {
            assert(0 * s.in_rate == 0);
            assert(frames * s.out_rate >= 0) by (nonlinear_arith);
        }
    }

    /// Blocks join without a seam: what comes out of two blocks one after the
    /// other, and where they leave the resampler, is what comes out of the one
    /// block that they make up.
    pub proof fn lemma_blocks_join(self, a: Seq<i16>, b: Seq<i16>, channels: nat)
        requires
            self.valid(),
            1 <= channels <= MAX_CHANNELS,
            a.len() > 0,
            a.len() % channels == 0,
            b.len() > 0,
            b.len() % channels == 0,
        ensures
            self.heard(a + b, channels) == self.heard(a, channels) + self.after(a, channels).heard(
                b,
                channels,
            ),
            self.after(a + b, channels) == self.after(a, channels).after(b, channels),
    {
        let ch = channels as int;
        let ab = a + b;
        let fa = (a.len() / channels) as int;
        let fb = (b.len() / channels) as int;
        lemma_fundamental_div_mod(a.len() as int, ch);
        lemma_fundamental_div_mod(b.len() as int, ch);
        assert(ab.len() == ch * (fa + fb)) by (nonlinear_arith)
            requires
                ab.len() == ch * fa + ch * fb,
        ;
        lemma_fundamental_div_mod_converse(ab.len() as int, ch, fa + fb, 0);
        assert(fa > 0 && a.len() >= ch) by (nonlinear_arith)
            requires
                a.len() == ch * fa,
                a.len() > 0,
                ch > 0,
        ;
        assert(fb > 0) by (nonlinear_arith)
            requires
                b.len() == ch * fb,
                b.len() > 0,
                ch > 0,
        ;
        let s = self.started(a, channels);
        assert(self.started(ab, channels) =~= s);
        self.lemma_after_valid(a, channels);
        let m = self.after(a, channels);
        assert(m.started(b, channels) == m);
        let na = s.count(fa as nat) as int;
        let nb = m.count(fb as nat) as int;
        s.lemma_joined_count(m, fa as nat, fb as nat);
        let whole = self.heard(ab, channels);
        let parts = self.heard(a, channels) + m.heard(b, channels);
        assert((na + nb) * ch == na * ch + nb * ch) by (nonlinear_arith);
        assert(na * ch >= 0 && nb * ch >= 0) by (nonlinear_arith)
            requires
                na >= 0,
                nb >= 0,
                ch > 0,
        ;
        assert(whole.len() == parts.len());
        assert forall|j: int| 0 <= j < whole.len() implies whole[j] == parts[j] by {
            let c = j % ch;
            lemma_fundamental_div_mod(j, ch);
            if j < na * ch {
                let k = j / ch;
                assert(0 <= k < na) by (nonlinear_arith)
                    requires
                        j == ch * k + c,
                        0 <= c < ch,
                        0 <= j < na * ch,
                ;
                s.lemma_sample_of_prefix(a, b, channels, k, c);
            } else {
                let k = j / ch - na;
                assert(j - na * ch == ch * k + c) by (nonlinear_arith)
                    requires
                        j == ch * (k + na) + c,
                ;
                lemma_fundamental_div_mod_converse(j - na * ch, ch, k, c);
                assert(0 <= k < nb) by (nonlinear_arith)
                    requires
                        j - na * ch == ch * k + c,
                        0 <= c < ch,
                        0 <= j - na * ch < nb * ch,
                ;
                s.lemma_sample_of_suffix(m, a, b, channels, k, c);
            }
        }
        assert(whole =~= parts);
        m.lemma_after_valid(b, channels);
        self.lemma_after_valid(ab, channels);
        assert(s.position(na + nb) == s.position(na) + nb * s.in_rate) by (nonlinear_arith)
            requires
                s.position(na + nb) == s.phase + (na + nb) * s.in_rate,
                s.position(na) == s.phase + na * s.in_rate,
        ;
        assert((fa + fb) * s.out_rate == fa * s.out_rate + fb * s.out_rate) by (nonlinear_arith);
        assert(((fa + fb) - 1) * ch == a.len() + (fb - 1) * ch) by (nonlinear_arith)
            requires
                a.len() == ch * fa,
        ;
        assert((fb - 1) * ch == b.len() - ch && (fa - 1) * ch == a.len() - ch) by (nonlinear_arith)
            requires
                b.len() == ch * fb,
                a.len() == ch * fa,
        ;
        assert(self.after(ab, channels) =~= m.after(b, channels));
    }

    /// What comes out of blocks taken one after the other.
    pub open spec fn heard_in_turn(self, blocks: Seq<Seq<i16>>, channels: nat) -> Seq<i16>
        decreases blocks.len(),
    {
        if blocks.len() == 0 {
            Seq::empty()
        } else {
            self.heard(blocks[0], channels) + self.after(blocks[0], channels).heard_in_turn(
                blocks.skip(1),
                channels,
            )
        }
    }

    /// However a stream is cut into blocks of whole frames, the same samples
    /// come out.
    pub proof fn lemma_cut_anywhere(self, blocks: Seq<Seq<i16>>, channels: nat)
        requires
            self.valid(),
            1 <= channels <= MAX_CHANNELS,
            blocks.len() > 0,
            forall|i: int|
                0 <= i < blocks.len() ==> (#[trigger] blocks[i]).len() > 0 && blocks[i].len()
                    % channels == 0,
        ensures
            self.heard_in_turn(blocks, channels) == self.heard(blocks.flatten(), channels),
            blocks.flatten().len() > 0,
            blocks.flatten().len() % channels == 0,
        decreases blocks.len(),
    {
        let rest = blocks.skip(1);
        assert(blocks.drop_first() =~= rest);
        assert(blocks.flatten() == blocks[0] + rest.flatten());
        self.lemma_after_valid(blocks[0], channels);
        let m = self.after(blocks[0], channels);
        if rest.len() == 0 {
            assert(blocks.flatten() =~= blocks[0]);
            assert(m.heard_in_turn(rest, channels) =~= Seq::empty());
            assert(self.heard_in_turn(blocks, channels) =~= self.heard(blocks[0], channels));
        } else {
            assert forall|i: int| 0 <= i < rest.len() implies (#[trigger] rest[i]).len() > 0
                && rest[i].len() % channels == 0 by {
                assert(rest[i] == blocks[i + 1]);
            }
            m.lemma_cut_anywhere(rest, channels);
            self.lemma_blocks_join(blocks[0], rest.flatten(), channels);
            vstd::arithmetic::div_mod::lemma_mod_adds(
                blocks[0].len() as int,
                rest.flatten().len() as int,
                channels as int,
            );
        }
    }

    /// From a fresh start, output frame `k` sits exactly `k * in_rate /
    /// out_rate` input frames after the first one, and of `n` input frames as
    /// many come out as sit before the last one: there is no drift.
    pub proof fn lemma_fresh_stream(
        in_rate: nat,
        out_rate: nat,
        samples: Seq<i16>,
        channels: nat,
        k: int,
    )
        requires
            in_rate > 0,
            out_rate > 0,
            1 <= channels <= MAX_CHANNELS,
            samples.len() > 0,
            samples.len() % channels == 0,
        ensures
            ResamplerView::fresh(in_rate, out_rate).started(samples, channels).position(k)
                - out_rate == k * in_rate,
            ResamplerView::fresh(in_rate, out_rate).heard(samples, channels).len() == ceil_div(
                (samples.len() / channels - 1) * out_rate,
                in_rate as int,
            ) * channels,
    {
        let v = ResamplerView::fresh(in_rate, out_rate);
        let s = v.started(samples, channels);
        let frames = (samples.len() / channels) as int;
        let ch = channels as int;
        lemma_fundamental_div_mod(samples.len() as int, ch);
        assert(frames > 0) by (nonlinear_arith)
            requires
                samples.len() == ch * frames,
                samples.len() > 0,
                ch > 0,
        ;
        assert(frames * out_rate - out_rate == (frames - 1) * out_rate) by (nonlinear_arith);
        assert((frames - 1) * out_rate >= 0) by (nonlinear_arith)
            requires
                frames > 0,
        ;
        if s.phase < frames * out_rate {
        } else {
            lemma_fundamental_div_mod_converse(in_rate - 1, in_rate as int, 0, in_rate - 1);
        }
        lemma_ceil_nonnegative((frames - 1) * out_rate, in_rate as int);
    }

    /// A constant stream comes out constant.
    pub proof fn lemma_constant_stays(self, samples: Seq<i16>, channels: nat, level: Seq<i16>)
        requires
            self.valid(),
            1 <= channels <= MAX_CHANNELS,
            samples.len() > 0,
            samples.len() % channels == 0,
            forall|i: int|
                0 <= i < samples.len() ==> #[trigger] samples[i] == level[i % channels as int],
            self.primed ==> forall|c: int| 0 <= c < channels ==> self.last[c] == level[c],
        ensures
            forall|j: int|
                0 <= j < self.heard(samples, channels).len() ==> #[trigger] self.heard(
                    samples,
                    channels,
                )[j] == level[j % channels as int],
    {
        let s = self.started(samples, channels);
        let ch = channels as int;
        let frames = samples.len() / channels;
        let out = s.out_rate as int;
        lemma_fundamental_div_mod(samples.len() as int, ch);
        assert(samples.len() >= ch) by (nonlinear_arith)
            requires
                samples.len() == ch * frames,
                samples.len() > 0,
                ch > 0,
        ;
        assert forall|c: int| 0 <= c < ch implies s.last[c] == level[c] by {
            vstd::arithmetic::div_mod::lemma_small_mod(c as nat, channels);
            if !self.primed {
                assert(samples[c] == level[c % ch]);
            }
        }
        assert forall|j: int| 0 <= j < self.heard(samples, channels).len() implies #[trigger]
        self.heard(samples, channels)[j] == level[j % ch] by {
            let k = j / ch;
            let c = j % ch;
            lemma_fundamental_div_mod(j, ch);
            let n = s.count(frames) as int;
            assert(0 <= k < n) by (nonlinear_arith)
                requires
                    j == ch * k + c,
                    0 <= c < ch,
                    0 <= j < n * ch,
            ;
            s.lemma_count(frames, k);
            let p = s.position(k);
            let at = p / out;
            let rem = p % out;
            assert(k * s.in_rate >= 0) by (nonlinear_arith)
                requires
                    k >= 0,
            ;
            lemma_fundamental_div_mod(p, out);
            assert(0 <= at < frames) by (nonlinear_arith)
                requires
                    p == out * at + rem,
                    0 <= rem < out,
                    0 <= p < frames * out,
            ;
            assert(at * ch >= 0 && at * ch + ch <= samples.len() && (at - 1) * ch == at * ch - ch
                && (at > 0 ==> at * ch >= ch)) by (nonlinear_arith)
                requires
                    0 <= at < frames,
                    samples.len() == ch * frames,
                    ch > 0,
            ;
            lemma_fundamental_div_mod_converse(at * ch + c, ch, at, c);
            lemma_fundamental_div_mod_converse((at - 1) * ch + c, ch, at - 1, c);
            assert(s.tap(samples, channels, at + 1, c) == level[c]);
            assert(s.tap(samples, channels, at, c) == level[c]);
            let frac = rem * 4294967296 / out;
            assert(interpolated(level[c], level[c], frac) == level[c]) by {
                assert(0 * frac == 0);
            }
        }
    }

    /// Output frames counted over two blocks and over the block they make up.
    proof fn lemma_joined_count(self, m: ResamplerView, fa: nat, fb: nat)
        requires
            self.in_rate > 0,
            m.in_rate == self.in_rate,
            m.out_rate == self.out_rate,
            m.phase == self.position(self.count(fa) as int) - fa * self.out_rate,
        ensures
            self.count(fa + fb) == self.count(fa) + m.count(fb),
    {
        let na = self.count(fa) as int;
        let nb = m.count(fb) as int;
        let out = self.out_rate as int;
        let step = self.in_rate as int;
        assert((fa + fb) * out == fa * out + fb * out) by (nonlinear_arith);
        assert(fb * out >= 0) by (nonlinear_arith)
            requires
                fb >= 0,
                out >= 0,
        ;
        assert(self.position(na + nb) == self.position(na) + nb * step) by (nonlinear_arith)
            requires
                self.position(na + nb) == self.phase + (na + nb) * step,
                self.position(na) == self.phase + na * step,
        ;
        m.lemma_count(fb, nb);
        self.lemma_count((fa + fb) as nat, na + nb);
        if nb > 0 {
            m.lemma_count(fb, nb - 1);
            self.lemma_count((fa + fb) as nat, na + nb - 1);
            assert(self.position(na + nb - 1) == self.position(na) + (nb - 1) * step)
                by (nonlinear_arith)
                requires
                    self.position(na + nb - 1) == self.phase + (na + nb - 1) * step,
                    self.position(na) == self.phase + na * step,
            ;
        } else if na > 0 {
            self.lemma_count(fa, na - 1);
            self.lemma_count((fa + fb) as nat, na - 1);
        }
    }

    proof fn lemma_sample_of_prefix(
        self,
        a: Seq<i16>,
        b: Seq<i16>,
        channels: nat,
        k: int,
        c: int,
    )
        requires
            self.in_rate > 0,
            self.out_rate > 0,
            0 <= c < channels,
            a.len() % channels == 0,
            0 <= k < self.count(a.len() / channels),
        ensures
            self.sample(a + b, channels, k, c) == self.sample(a, channels, k, c),
    {
        let frames = a.len() / channels;
        let ch = channels as int;
        let out = self.out_rate as int;
        self.lemma_count(frames, k);
        lemma_fundamental_div_mod(a.len() as int, ch);
        let p = self.position(k);
        let at = p / out;
        assert(k * self.in_rate >= 0) by (nonlinear_arith)
            requires
                k >= 0,
        ;
        lemma_fundamental_div_mod(p, out);
        let rem = p % out;
        assert(0 <= at < frames) by (nonlinear_arith)
            requires
                p == out * at + rem,
                0 <= rem < out,
                0 <= p < frames * out,
        ;
        assert(0 <= at * ch && at * ch + ch <= a.len() && (at - 1) * ch == at * ch - ch && (at > 0
            ==> at * ch >= ch)) by (nonlinear_arith)
            requires
                0 <= at < frames,
                a.len() == ch * frames,
                ch > 0,
        ;
    }

    proof fn lemma_sample_of_suffix(
        self,
        m: ResamplerView,
        a: Seq<i16>,
        b: Seq<i16>,
        channels: nat,
        k: int,
        c: int,
    )
        requires
            self.in_rate > 0,
            self.out_rate > 0,
            0 <= c < channels <= MAX_CHANNELS,
            a.len() > 0,
            a.len() % channels == 0,
            b.len() % channels == 0,
            m.in_rate == self.in_rate,
            m.out_rate == self.out_rate,
            m.phase == self.position(self.count(a.len() / channels) as int) - (a.len() / channels)
                * self.out_rate,
            m.last[c] == a[(a.len() / channels - 1) * channels + c],
            0 <= k < m.count(b.len() / channels),
        ensures
            self.sample(a + b, channels, self.count(a.len() / channels) + k, c) == m.sample(
                b,
                channels,
                k,
                c,
            ),
    {
        let fa = (a.len() / channels) as int;
        let fb = (b.len() / channels) as int;
        let na = self.count(fa as nat) as int;
        let ch = channels as int;
        let out = self.out_rate as int;
        lemma_fundamental_div_mod(a.len() as int, ch);
        lemma_fundamental_div_mod(b.len() as int, ch);
        let p = m.position(k);
        let q = self.position(na + k);
        assert(q == p + fa * out) by (nonlinear_arith)
            requires
                q == self.phase + (na + k) * self.in_rate,
                p == m.phase + k * self.in_rate,
                m.phase == self.phase + na * self.in_rate - fa * out,
        ;
        let at = p / out;
        let rem = p % out;
        lemma_fundamental_div_mod(p, out);
        assert(q == out * (at + fa) + rem) by (nonlinear_arith)
            requires
                q == p + fa * out,
                p == out * at + rem,
        ;
        lemma_fundamental_div_mod_converse(q, out, at + fa, rem);
        m.lemma_count(fb as nat, k);
        assert(k * self.in_rate >= 0) by (nonlinear_arith)
            requires
                k >= 0,
        ;
        assert(0 <= at < fb) by (nonlinear_arith)
            requires
                p == out * at + rem,
                0 <= rem < out,
                0 <= p < fb * out,
        ;
        assert((at + fa) * ch == at * ch + a.len() && (at + fa - 1) * ch == (at - 1) * ch + a.len()
            && (at - 1) * ch == at * ch - ch && at * ch >= 0 && (at > 0 ==> at * ch >= ch) && at
            * ch + ch <= b.len() && (fa - 1) * ch == a.len() - ch) by (nonlinear_arith)
            requires
                0 <= at < fb,
                a.len() == ch * fa,
                b.len() == ch * fb,
                ch > 0,
        ;
        assert(fa > 0 && a.len() >= ch) by (nonlinear_arith)
            requires
                a.len() == ch * fa,
                a.len() > 0,
                ch > 0,
        ;
        assert(self.tap(a + b, channels, at + fa, c) == m.tap(b, channels, at, c));
        assert(self.tap(a + b, channels, at + fa + 1, c) == m.tap(b, channels, at + 1, c));
    }
}

proof fn lemma_ceil_nonnegative(a: int, b: int)
    requires
        a >= 0,
        b > 0,
    ensures
        ceil_div(a, b) >= 0,
{
    vstd::arithmetic::div_mod::lemma_div_pos_is_pos(a + b - 1, b);
}

/// Reducing position and rate by a common factor keeps the whole part, scales
/// the rest, and keeps the fraction.
proof fn lemma_reduced_position(num: int, whole: int, rem: int, out_r: int, g: int)
    requires
        num == whole * out_r + rem,
        0 <= rem < out_r,
        g > 0,
    ensures
        (num * g) / (out_r * g) == whole,
        (num * g) % (out_r * g) == rem * g,
        (rem * g) * 4294967296 / (out_r * g) == rem * 4294967296 / out_r,
{
    assert(num * g == whole * (out_r * g) + rem * g && 0 <= rem * g < out_r * g)
        by (nonlinear_arith)
        requires
            num == whole * out_r + rem,
            0 <= rem < out_r,
            g > 0,
    ;
    lemma_fundamental_div_mod_converse(num * g, out_r * g, whole, rem * g);
    lemma_div_multiples_vanish_quotient(g, rem * 4294967296, out_r);
    assert(g * (rem * 4294967296) == (rem * g) * 4294967296) by (nonlinear_arith);
    assert(g * out_r == out_r * g) by (nonlinear_arith);
}

/// The point `frac / 2^32` of the way from `x0` to `x1`.
fn blend(x0: i16, x1: i16, frac: u64) -> (r: i16)
    requires
        frac < 4294967296,
    ensures
        r == interpolated(x0, x1, frac as int),
{
    proof {
        lemma_interpolated_between(x0, x1, frac as int);
        assert(-281474976710656 <= (x1 - x0) * frac <= 281474976710656) by (nonlinear_arith)
            requires
                -65535 <= x1 - x0 <= 65535,
                0 <= frac < 4294967296,
        ;
    }
    let v: i64 = (x1 as i64 - x0 as i64) * (frac as i64) + 2147483648;
    assert(v >> 32 == v / 4294967296) by (bit_vector);
    (x0 as i64 + (v >> 32)) as i16
}

/// Write one output frame at sample `base` of `out`: `frac / 2^32` of the way
/// from the frame before frame `at` of `data` (`last`, before the first) to
/// frame `at`.
fn put_frame(
    data: &[u8],
    channels: usize,
    last: &[i16; MAX_CHANNELS],
    at: usize,
    frac: u64,
    out: &mut [u8],
    base: usize,
)
    requires
        1 <= channels <= MAX_CHANNELS,
        frac < 4294967296,
        2 * (at * channels + channels) <= data@.len(),
        2 * (base + channels) <= old(out)@.len(),
    ensures
        final(out)@.len() == old(out)@.len(),
        forall|c: int|
            0 <= c < channels ==> #[trigger] sample_in(final(out)@, base + c) == interpolated(
                if at == 0 {
                    last@[c]
                } else {
                    decode16(data@)[(at - 1) * channels + c]
                },
                decode16(data@)[at * channels + c],
                frac as int,
            ),
        forall|j: int|
            0 <= j < base ==> #[trigger] sample_in(final(out)@, j) == sample_in(old(out)@, j),
        forall|j: int|
            2 * (base + channels) <= j < old(out)@.len() ==> #[trigger] final(out)@[j] == old(
                out,
            )@[j],
{
    let ghost before = out@;
    let ghost samples = decode16(data@);
    let data_len: usize = data.len();
    let out_len: usize = out.len();
    proof {
        assert((at - 1) * channels == at * channels - channels) by (nonlinear_arith);
        assert(at > 0 ==> at * channels >= channels) by (nonlinear_arith)
            requires
                channels > 0,
        ;
    }
    let mut c: usize = 0;
    while c < channels
        invariant
            1 <= channels <= MAX_CHANNELS,
            c <= channels,
            frac < 4294967296,
            data_len == data@.len(),
            2 * (at * channels + channels) <= data_len,
            (at - 1) * channels == at * channels - channels,
            at > 0 ==> at * channels >= channels,
            out_len == out@.len() == before.len(),
            2 * (base + channels) <= out_len,
            samples == decode16(data@),
            forall|k: int|
                0 <= k < c ==> #[trigger] sample_in(out@, base + k) == interpolated(
                    if at == 0 {
                        last@[k]
                    } else {
                        samples[(at - 1) * channels + k]
                    },
                    samples[at * channels + k],
                    frac as int,
                ),
            forall|j: int| 0 <= j < base ==> #[trigger] sample_in(out@, j) == sample_in(before, j),
            forall|j: int| 2 * (base + channels) <= j < out_len ==> #[trigger] out@[j] == before[j],
        decreases channels - c,
    {
        let here: usize = at * channels + c;
        let x0: i16 = if at == 0 {
            last[c]
        } else {
            get_sample(data, here - channels)
        };
        let x1: i16 = get_sample(data, here);
        put_sample(out, base + c, blend(x0, x1, frac));
        c += 1;
    }
}

proof fn lemma_reduce(rate: nat, g: nat)
    requires
        rate > 0,
        divides(g, rate),
    ensures
        rate / g > 0,
        rate / (rate / g) == g,
        rate == (rate / g) * g,
{
    lemma_fundamental_div_mod(rate as int, g as int);
    let q = rate / g;
    assert(rate == q * g) by (nonlinear_arith)
        requires
            rate == g * q,
    ;
    assert(q > 0) by (nonlinear_arith)
        requires
            rate == q * g,
            rate > 0,
    ;
    lemma_fundamental_div_mod_converse(rate as int, q as int, g as int, 0);
}

impl LinearResampler {
    /// What the element writes for `input` into a buffer of `room` bytes.
    pub open spec fn emits(self, input: BlockView, room: nat) -> Result<Seq<u8>> {
        match self.format_out(input.format) {
            Err(e) => Err(e),
            Ok(_) => if self@.in_rate == self@.out_rate {
                match room_for(room, input.data.len()) {
                    Err(e) => Err(e),
                    Ok(_) => Ok(input.data),
                }
            } else {
                match room_for(
                    room,
                    frames_bound(self@.in_rate, self@.out_rate, input.frame_count())
                        * input.format.frame_width(),
                ) {
                    Err(e) => Err(e),
                    Ok(_) => Ok(
                        encode16(self@.heard(decode16(input.data), input.format.channels as nat)),
                    ),
                }
            },
        }
    }

    /// Where the resampler stands after `input`: a refused block and a block
    /// copied at its own rate leave it where it was.
    pub open spec fn advanced(self, input: BlockView, room: nat) -> ResamplerView {
        if self.emits(input, room) is Ok && self@.in_rate != self@.out_rate {
            self@.after(decode16(input.data), input.format.channels as nat)
        } else {
            self@
        }
    }
}

impl Element for LinearResampler {
    open spec fn settings(&self) -> Seq<int> {
        seq![self@.in_rate as int, self@.out_rate as int]
    }

    open spec fn format_out(&self, input: PcmFormat) -> Result<PcmFormat> {
        match i16_few_channels(input) {
            Err(e) => Err(e),
            Ok(_) => if input.sample_rate_hz as nat != self@.in_rate {
                Err(Error::Unsupported)
            } else {
                PcmFormat::checked(self@.out_rate as u32, input.channels, input.sample)
            },
        }
    }

    open spec fn room(&self, input: PcmFormat, input_bytes: usize) -> usize {
        let fw = if input.frame_width() == 0 {
            1
        } else {
            input.frame_width()
        };
        sized(frames_bound(self@.in_rate, self@.out_rate, input_bytes as nat / fw) * fw)
    }

    open spec fn memory(&self) -> Seq<int> {
        self@.memory()
    }

    open spec fn fresh_memory(&self) -> Seq<int> {
        ResamplerView::fresh(self@.in_rate, self@.out_rate).memory()
    }

    open spec fn step(
        &self,
        input: BlockView,
        before: Seq<u8>,
        r: Result<usize>,
        after: Seq<u8>,
        memory: Seq<int>,
    ) -> bool {
        &&& wrote(self.emits(input, before.len()), before, r, after)
        &&& memory == self.advanced(input, before.len()).memory()
    }

    fn output_format(&self, input: PcmFormat) -> (r: Result<PcmFormat>) {
        require_i16(input)?;
        if input.sample_rate_hz != self.in_rate {
            return Err(Error::Unsupported);
        }
        PcmFormat::new(self.out_rate, input.channels, input.sample)
    }

    fn max_output_bytes(&self, input: PcmFormat, input_bytes: usize) -> (r: usize) {
        let frame: usize = input.frame_bytes();
        let fb: usize = if frame == 0 {
            1
        } else {
            frame
        };
        bytes_bound(self.frames_bound(input_bytes / fb), fb)
    }

    fn process(&mut self, input: PcmBlock<'_>, out: &mut [u8]) -> (r: Result<usize>)
        ensures
            final(self)@ == old(self).advanced(input@, old(out)@.len()),
    {
        self.output_format(input.format)?;
        let channels: usize = input.format.channels as usize;
        let fb: usize = channels * 2;
        let frames: usize = input.frames();
        if self.in_rate == self.out_rate {
            require_room(out, input.data.len())?;
            copy_front(out, input.data);
            return Ok(input.data.len());
        }
        let bound: u128 = self.frames_bound(frames);
        assert(bound * fb <= 79228162514264337593543950336 * 4) by (nonlinear_arith)
            requires
                bound <= 79228162514264337593543950336,
                fb <= 4,
        ;
        if (out.len() as u128) < bound * (fb as u128) {
            return Err(Error::BufferTooSmall { needed: bytes_bound(bound, fb) });
        }
        proof {
            let n = input.data@.len() as int;
            lemma_fundamental_div_mod(n, fb as int);
            assert(n == 2 * (frames * channels)) by (nonlinear_arith)
                requires
                    n == fb * frames,
                    fb == channels * 2,
            ;
            assert(frames > 0) by (nonlinear_arith)
                requires
                    n == fb * frames,
                    n > 0,
                    frames >= 0,
            ;
            assert(bound * channels * 2 == bound * fb) by (nonlinear_arith)
                requires
                    fb == channels * 2,
            ;
        }
        Ok(self.interpolate(input.data, channels, frames, out))
    }

    fn reset(&mut self)
        ensures
            final(self)@ == ResamplerView::fresh(old(self)@.in_rate, old(self)@.out_rate),
    {
        proof {
            use_type_invariant(&*self);
        }
        *self = LinearResampler {
            in_rate: self.in_rate,
            out_rate: self.out_rate,
            in_r: self.in_r,
            out_r: self.out_r,
            num: 0,
            last: [0, 0],
            primed: false,
        };
        proof {
            assert(self.last@ =~= seq![0i16, 0i16]);
            assert(0 * self.scale() == 0);
        }
    }
}

/// `frames` frames of `fb` bytes as a size, or the largest size there is.
fn bytes_bound(frames: u128, fb: usize) -> (r: usize)
    requires
        frames <= 79228162514264337593543950336,
        fb <= 4 * 255,
    ensures
        r == sized((frames * fb) as nat),
{
    assert(frames * fb <= 79228162514264337593543950336 * 1020) by (nonlinear_arith)
        requires
            frames <= 79228162514264337593543950336,
            fb <= 1020,
    ;
    let bytes: u128 = frames * fb as u128;
    if bytes > usize::MAX as u128 {
        usize::MAX
    } else {
        bytes as usize
    }
}

/// The bound on output frames grows with the input.
proof fn lemma_frames_bound_ordered(in_rate: nat, out_rate: nat, fewer: nat, more: nat)
    requires
        in_rate > 0,
        fewer <= more,
    ensures
        frames_bound(in_rate, out_rate, fewer) <= frames_bound(in_rate, out_rate, more),
{
    assert(fewer * out_rate <= more * out_rate) by (nonlinear_arith)
        requires
            fewer <= more,
    ;
    vstd::arithmetic::div_mod::lemma_div_is_ordered(
        fewer * out_rate + in_rate - 1,
        more * out_rate + in_rate - 1,
        in_rate as int,
    );
    lemma_ceil_nonnegative((fewer * out_rate) as int, in_rate as int);
    lemma_ceil_nonnegative((more * out_rate) as int, in_rate as int);
}

/// What the bound asks for holds a block copied at its own rate.
proof fn lemma_bound_holds_a_copy(rate: nat, len: nat, width: nat)
    requires
        rate > 0,
        width > 0,
    ensures
        len <= frames_bound(rate, rate, len / width) * width,
{
    let frames = (len / width) as int;
    lemma_fundamental_div_mod(len as int, width as int);
    lemma_ceil_nonnegative(frames * rate, rate as int);
    assert((frames * rate + rate - 1) / rate as int == frames) by {
        lemma_fundamental_div_mod_converse(
            frames * rate + rate - 1,
            rate as int,
            frames,
            rate - 1,
        );
    }
    assert(len <= (frames + 1) * width) by (nonlinear_arith)
        requires
            len == width * frames + len % width,
            len % width < width,
    ;
}

/// No block comes out larger than the ratio allows.
pub proof fn lemma_resampler_keeps_its_bound(stage: LinearResampler)
    requires
        stage@.valid(),
    ensures
        keeps_its_bound(&stage),
{
    let view = stage@;
    assert forall|format: PcmFormat, fewer: usize, more: usize| fewer
        <= more implies #[trigger] stage.room(format, fewer) <= #[trigger] stage.room(
        format,
        more,
    ) by {
        let fw = if format.frame_width() == 0 {
            1
        } else {
            format.frame_width()
        };
        vstd::arithmetic::div_mod::lemma_div_is_ordered(fewer as int, more as int, fw as int);
        let a = frames_bound(view.in_rate, view.out_rate, fewer as nat / fw);
        let b = frames_bound(view.in_rate, view.out_rate, more as nat / fw);
        lemma_frames_bound_ordered(
            view.in_rate,
            view.out_rate,
            fewer as nat / fw,
            more as nat / fw,
        );
        assert(a * fw <= b * fw) by (nonlinear_arith)
            requires
                a <= b,
        ;
    }
    assert forall|input: BlockView, before: Seq<u8>, n: usize, after: Seq<u8>, memory: Seq<int>|
        input.data.len() <= usize::MAX && #[trigger] stage.step(
            input,
            before,
            Ok(n),
            after,
            memory,
        ) implies n <= stage.room(input.format, input.data.len() as usize) by {
        let fw = input.format.frame_width();
        let channels = input.format.channels as nat;
        let len = input.data.len();
        assert(channels > 0 && fw == 2 * channels);
        if view.in_rate == view.out_rate {
            lemma_bound_holds_a_copy(view.in_rate, len, fw);
        } else {
            let samples = decode16(input.data);
            let frames = samples.len() / channels;
            vstd::arithmetic::div_mod::lemma_div_denominator(len as int, 2, channels as int);
            assert(frames == len / fw);
            let started = view.started(samples, channels);
            started.lemma_count_bounded(frames);
            let count = started.count(frames);
            let bound = frames_bound(view.in_rate, view.out_rate, frames);
            assert(2 * (count * channels) <= bound * fw) by (nonlinear_arith)
                requires
                    count <= bound,
                    fw == 2 * channels,
            ;
        }
    }
}

/// What the element does with a block is settled by its settings and memory.
pub proof fn lemma_resampler_acts_by_its_settings(a: LinearResampler, b: LinearResampler)
    requires
        a.settings() == b.settings(),
        a.memory() == b.memory(),
        a@.valid(),
        b@.valid(),
    ensures
        act_alike(&a, &b),
{
    assert(a.settings()[0] == b.settings()[0]);
    assert(a.settings()[1] == b.settings()[1]);
    assert(a.memory()[0] == b.memory()[0]);
    assert(a.memory()[1] == b.memory()[1]);
    assert(a.memory()[2] == b.memory()[2]);
    assert(a.memory()[3] == b.memory()[3]);
    assert(a@.last =~= b@.last);
    assert(a@ == b@);
}

/// A common factor does not change a quotient, and scales its remainder.
proof fn lemma_common_factor(x: int, y: int, g: int)
    requires
        x >= 0,
        y > 0,
        g > 0,
    ensures
        (x * g) / (y * g) == x / y,
        (x * g) % (y * g) == (x % y) * g,
{
    lemma_fundamental_div_mod(x, y);
    let q = x / y;
    let r = x % y;
    assert(x * g == q * (y * g) + r * g && 0 <= r * g < y * g) by (nonlinear_arith)
        requires
            x == y * q + r,
            0 <= r < y,
            g > 0,
    ;
    lemma_fundamental_div_mod_converse(x * g, y * g, q, r * g);
}

/// A common factor does not change a quotient rounded up.
proof fn lemma_common_factor_up(a: int, b: int, g: int)
    requires
        a >= 0,
        b > 0,
        g > 0,
    ensures
        ceil_div(a * g, b * g) == ceil_div(a, b),
{
    let u = a + b - 1;
    lemma_fundamental_div_mod(u, b);
    let n = u / b;
    let r = u % b;
    assert(a * g + b * g - 1 == n * (b * g) + ((r + 1) * g - 1) && 0 <= (r + 1) * g - 1 < b * g)
        by (nonlinear_arith)
        requires
            a + b - 1 == b * n + r,
            0 <= r < b,
            g > 0,
    ;
    lemma_fundamental_div_mod_converse(a * g + b * g - 1, b * g, n, (r + 1) * g - 1);
}

/// A stream taken from a fresh start in any blocks comes out by its reduced rates
/// `in_r : out_r`: of `n` frames exactly `(n - 1) * out_r / in_r` come out,
/// rounded up, and frame `k` lies between frames `q` and `q + 1` of the stream,
/// `rem / out_r` of the way, where `k * in_r` is `q * out_r + rem`.
pub proof fn lemma_stream_by_reduced_rates(
    in_r: nat,
    out_r: nat,
    g: nat,
    blocks: Seq<Seq<i16>>,
    channels: nat,
    k: int,
    c: int,
)
    requires
        in_r > 0,
        out_r > 0,
        g > 0,
        1 <= channels <= MAX_CHANNELS,
        blocks.len() > 0,
        forall|i: int|
            0 <= i < blocks.len() ==> (#[trigger] blocks[i]).len() > 0 && blocks[i].len() % channels
                == 0,
        0 <= c < channels,
        0 <= k < ceil_div((blocks.flatten().len() / channels - 1) * out_r, in_r as int),
    ensures
        ({
            let x = blocks.flatten();
            let heard = ResamplerView::fresh(in_r * g, out_r * g).heard_in_turn(blocks, channels);
            let q = (k * in_r) / out_r as int;
            let rem = (k * in_r) % out_r as int;
            &&& heard.len() == ceil_div((x.len() / channels - 1) * out_r, in_r as int) * channels
            &&& heard[k * channels + c] == interpolated(
                x[q * channels + c],
                x[(q + 1) * channels + c],
                rem * 4294967296 / out_r as int,
            )
        }),
{
    let x = blocks.flatten();
    let (in_rate, out_rate) = (in_r * g, out_r * g);
    assert(in_rate > 0 && out_rate > 0) by (nonlinear_arith)
        requires
            in_rate == in_r * g,
            out_rate == out_r * g,
            in_r > 0,
            out_r > 0,
            g > 0,
    ;
    let view = ResamplerView::fresh(in_rate, out_rate);
    view.lemma_cut_anywhere(blocks, channels);
    ResamplerView::lemma_fresh_stream(in_rate, out_rate, x, channels, k);
    let frames = x.len() / channels - 1;
    let ch = channels as int;
    assert(frames >= 0) by {
        lemma_fundamental_div_mod(x.len() as int, ch);
        let all = x.len() as int / ch;
        assert(all > 0) by (nonlinear_arith)
            requires
                x.len() == ch * all,
                x.len() > 0,
                ch > 0,
        ;
    }
    assert(frames * out_rate == (frames * out_r) * g && frames * out_r >= 0) by (nonlinear_arith)
        requires
            out_rate == out_r * g,
            frames >= 0,
    ;
    lemma_common_factor_up(frames * out_r, in_r as int, g as int);
    let count = ceil_div(frames * out_r, in_r as int);
    let s = view.started(x, channels);
    let heard = view.heard(x, channels);
    let j = k * ch + c;
    assert(0 <= j < count * ch) by (nonlinear_arith)
        requires
            j == k * ch + c,
            0 <= c < ch,
            0 <= k < count,
    ;
    lemma_fundamental_div_mod_converse(j, ch, k, c);
    assert(heard[j] == s.sample(x, channels, k, c));
    // Where the frame sits.
    assert(k * in_rate == (k * in_r) * g && k * in_r >= 0) by (nonlinear_arith)
        requires
            in_rate == in_r * g,
            k >= 0,
    ;
    lemma_common_factor(k * in_r, out_r as int, g as int);
    let q = (k * in_r) / out_r as int;
    let rem = (k * in_r) % out_r as int;
    lemma_fundamental_div_mod(k * in_rate, out_rate as int);
    assert(s.position(k) == (q + 1) * out_rate + rem * g) by (nonlinear_arith)
        requires
            s.position(k) == out_rate + k * in_rate,
            k * in_rate == out_rate * q + rem * g,
    ;
    assert(0 <= rem * g < out_rate) by (nonlinear_arith)
        requires
            0 <= rem < out_r,
            g > 0,
            out_rate == out_r * g,
    ;
    lemma_fundamental_div_mod_converse(s.position(k), out_rate as int, q + 1, rem * g);
    assert((rem * g) * 4294967296 == (rem * 4294967296) * g) by (nonlinear_arith);
    lemma_common_factor(rem * 4294967296, out_r as int, g as int);
    lemma_fundamental_div_mod(k * in_r, out_r as int);
    assert(q >= 0) by (nonlinear_arith)
        requires
            k * in_r == out_r * q + rem,
            k * in_r >= 0,
            0 <= rem < out_r,
    ;
}

/// One call of [`process`](Element::process): the resampler and the buffer as
/// they were, the block, the answer, and the resampler and the buffer as the call
/// left them.
pub struct ResamplerCall {
    /// The resampler before the call.
    pub stage: LinearResampler,
    /// The block handed to it.
    pub input: BlockView,
    /// The buffer before the call.
    pub before: Seq<u8>,
    /// What the call answered.
    pub result: Result<usize>,
    /// The buffer after the call.
    pub after: Seq<u8>,
    /// The resampler after the call.
    pub left: LinearResampler,
}

impl ResamplerCall {
    /// What the contract of the call says.
    pub open spec fn made(self) -> bool {
        &&& self.input.well_formed()
        &&& self.stage.step(
            self.input,
            self.before,
            self.result,
            self.after,
            self.left.memory(),
        )
        &&& self.left@ == self.stage.advanced(self.input, self.before.len())
    }

    /// The bytes that the call wrote.
    pub open spec fn written(self) -> Seq<u8> {
        self.after.take(self.result->Ok_0 as int)
    }
}

/// The bytes that calls wrote, one after the other.
pub open spec fn written_by(calls: Seq<ResamplerCall>) -> Seq<u8>
    decreases calls.len(),
{
    if calls.len() == 0 {
        Seq::empty()
    } else {
        calls[0].written() + written_by(calls.skip(1))
    }
}

/// The samples of the blocks that were handed in.
pub open spec fn handed_in(calls: Seq<ResamplerCall>) -> Seq<Seq<i16>> {
    calls.map_values(|call: ResamplerCall| decode16(call.input.data))
}

/// Call `i + 1` finds the resampler as call `i` left it.
pub open spec fn follows(calls: Seq<ResamplerCall>, i: int) -> bool {
    calls[i + 1].stage@ == calls[i].left@
}

/// Calls made one after the other on one resampler between two rates, none of
/// them refused, write what comes out of the stream that their blocks make up,
/// however it was cut into them.
pub proof fn lemma_calls_in_turn(calls: Seq<ResamplerCall>, channels: nat)
    requires
        calls.len() > 0,
        calls[0].stage@.valid(),
        calls[0].stage@.in_rate != calls[0].stage@.out_rate,
        forall|i: int|
            0 <= i < calls.len() ==> (#[trigger] calls[i]).made() && calls[i].result is Ok
                && calls[i].after.len() <= usize::MAX && calls[i].input.format.channels == channels,
        forall|i: int| 0 <= i < calls.len() - 1 ==> #[trigger] follows(calls, i),
    ensures
        1 <= channels <= MAX_CHANNELS,
        forall|i: int|
            0 <= i < calls.len() ==> (#[trigger] handed_in(calls)[i]).len() > 0 && handed_in(
                calls,
            )[i].len() % channels == 0,
        written_by(calls) == encode16(
            calls[0].stage@.heard_in_turn(handed_in(calls), channels),
        ),
        written_by(calls) == encode16(
            calls[0].stage@.heard(handed_in(calls).flatten(), channels),
        ),
{
    lemma_calls_written(calls, channels);
    calls[0].stage@.lemma_cut_anywhere(handed_in(calls), channels);
}

proof fn lemma_calls_written(calls: Seq<ResamplerCall>, channels: nat)
    requires
        calls.len() > 0,
        calls[0].stage@.in_rate != calls[0].stage@.out_rate,
        forall|i: int|
            0 <= i < calls.len() ==> (#[trigger] calls[i]).made() && calls[i].result is Ok
                && calls[i].after.len() <= usize::MAX && calls[i].input.format.channels == channels,
        forall|i: int| 0 <= i < calls.len() - 1 ==> #[trigger] follows(calls, i),
    ensures
        1 <= channels <= MAX_CHANNELS,
        forall|i: int|
            0 <= i < calls.len() ==> (#[trigger] handed_in(calls)[i]).len() > 0 && handed_in(
                calls,
            )[i].len() % channels == 0,
        written_by(calls) == encode16(
            calls[0].stage@.heard_in_turn(handed_in(calls), channels),
        ),
    decreases calls.len(),
{
    let call = calls[0];
    let blocks = handed_in(calls);
    let rest = calls.skip(1);
    let view = call.stage@;
    let heard = view.heard(blocks[0], channels);
    lemma_one_call(call, channels);
    assert(handed_in(rest) =~= blocks.skip(1));
    if rest.len() == 0 {
        assert(written_by(rest) =~= Seq::<u8>::empty());
        assert(view.after(blocks[0], channels).heard_in_turn(blocks.skip(1), channels) =~= Seq::<
            i16,
        >::empty());
        assert(view.heard_in_turn(blocks, channels) =~= heard);
        assert(written_by(calls) =~= encode16(heard));
        assert forall|i: int| 0 <= i < calls.len() implies (#[trigger] blocks[i]).len() > 0
            && blocks[i].len() % channels == 0 by {
            assert(blocks[i] == blocks[0]);
        }
    } else {
        assert forall|i: int| 0 <= i < rest.len() implies (#[trigger] rest[i]).made()
            && rest[i].result is Ok && rest[i].after.len() <= usize::MAX
            && rest[i].input.format.channels == channels by {
            assert(rest[i] == calls[i + 1]);
        }
        assert forall|i: int| 0 <= i < rest.len() - 1 implies #[trigger] follows(rest, i) by {
            assert(follows(calls, i + 1));
        }
        assert(rest[0] == calls[1]);
        assert(follows(calls, 0));
        assert(rest[0].stage@ == view.after(blocks[0], channels));
        lemma_calls_written(rest, channels);
        let later = view.after(blocks[0], channels).heard_in_turn(blocks.skip(1), channels);
        lemma_encode_joined(heard, later);
        assert(view.heard_in_turn(blocks, channels) == heard + later);
        assert(written_by(calls) == call.written() + written_by(rest));
        assert forall|i: int| 0 <= i < calls.len() implies (#[trigger] blocks[i]).len() > 0
            && blocks[i].len() % channels == 0 by {
            if i > 0 {
                assert(blocks[i] == handed_in(rest)[i - 1]);
            }
        }
    }
}

/// What one call writes, and where it leaves the resampler.
proof fn lemma_one_call(call: ResamplerCall, channels: nat)
    requires
        call.made(),
        call.result is Ok,
        call.after.len() <= usize::MAX,
        call.input.format.channels == channels,
        call.stage@.in_rate != call.stage@.out_rate,
    ensures
        1 <= channels <= MAX_CHANNELS,
        decode16(call.input.data).len() > 0,
        decode16(call.input.data).len() % channels == 0,
        call.written() == encode16(call.stage@.heard(decode16(call.input.data), channels)),
        call.left@ == call.stage@.after(decode16(call.input.data), channels),
        call.left@.in_rate == call.stage@.in_rate,
        call.left@.out_rate == call.stage@.out_rate,
{
    lemma_whole_frames_of_samples(call.input, channels);
    let bytes = encode16(call.stage@.heard(decode16(call.input.data), channels));
    assert(call.stage.emits(call.input, call.before.len()) == Ok::<Seq<u8>, Error>(bytes));
    assert(call.after == overwritten(call.before, bytes));
    assert(call.written() =~= bytes);
}

/// The samples of a 16-bit block are whole frames.
proof fn lemma_whole_frames_of_samples(input: BlockView, channels: nat)
    requires
        input.well_formed(),
        input.format.sample == SampleFormat::I16,
        input.format.channels == channels,
    ensures
        decode16(input.data).len() > 0,
        decode16(input.data).len() % channels == 0,
{
    let n = input.data.len() as int;
    let ch = channels as int;
    let frames = n / (2 * ch);
    lemma_fundamental_div_mod(n, 2 * ch);
    assert(n == 2 * (frames * ch)) by (nonlinear_arith)
        requires
            n == (2 * ch) * frames,
    ;
    lemma_fundamental_div_mod_converse(n / 2, ch, frames, 0);
}

/// No block comes out longer than
/// [`max_output_frames`](LinearResampler::max_output_frames) says, wherever the
/// resampler stands.
pub proof fn lemma_never_more_than_the_bound(resampler: LinearResampler, input: BlockView, room: nat)
    requires
        resampler@.valid(),
        resampler.emits(input, room) is Ok,
    ensures
        resampler.emits(input, room)->Ok_0.len() <= frames_bound(
            resampler@.in_rate,
            resampler@.out_rate,
            input.frame_count(),
        ) * input.format.frame_width(),
{
    let view = resampler@;
    let fw = input.format.frame_width();
    let channels = input.format.channels as nat;
    let len = input.data.len();
    assert(channels > 0 && fw == 2 * channels);
    if view.in_rate == view.out_rate {
        lemma_bound_holds_a_copy(view.in_rate, len, fw);
    } else {
        let samples = decode16(input.data);
        let frames = samples.len() / channels;
        vstd::arithmetic::div_mod::lemma_div_denominator(len as int, 2, channels as int);
        let started = view.started(samples, channels);
        started.lemma_count_bounded(frames);
        let count = started.count(frames);
        let bound = frames_bound(view.in_rate, view.out_rate, frames);
        assert(2 * (count * channels) <= bound * fw) by (nonlinear_arith)
            requires
                count <= bound,
                fw == 2 * channels,
        ;
    }
}

/// Interpolation gives the nearest whole number to the point `frac / 2^32` of the
/// way between two samples, the upper one of two equally near.
pub proof fn lemma_interpolated_to_the_nearest(x0: i16, x1: i16, frac: int)
    requires
        0 <= frac < 4294967296,
    ensures
        -2147483648 <= (x1 - x0) * frac - 4294967296 * (interpolated(x0, x1, frac) - x0)
            < 2147483648,
{
    lemma_interpolated_between(x0, x1, frac);
    let v = (x1 - x0) * frac + 2147483648;
    lemma_fundamental_div_mod(v, 4294967296);
    assert(-65535 * 4294967296 <= (x1 - x0) * frac <= 65535 * 4294967296) by (nonlinear_arith)
        requires
            -65535 <= x1 - x0 <= 65535,
            0 <= frac < 4294967296,
    ;
    let (x0, x1) = (x0 as int, x1 as int);
    assert(-32768 <= x0 + v / 4294967296 <= 32767) by {
        if x1 >= x0 {
            assert(0 <= (x1 - x0) * frac <= (x1 - x0) * 4294967296) by (nonlinear_arith)
                requires
                    x1 >= x0,
                    0 <= frac < 4294967296,
            ;
        } else {
            assert((x1 - x0) * 4294967296 <= (x1 - x0) * frac <= 0) by (nonlinear_arith)
                requires
                    x1 < x0,
                    0 <= frac < 4294967296,
            ;
        }
    }
}

/// `y` lies on the straight line from `x0` to `x1` at `part / whole` of the way,
/// but for half a unit, and for what a fraction of 32 bits cannot tell: less than
/// a fifty-thousandth of one.
pub open spec fn on_the_line(x0: int, x1: int, part: int, whole: int, y: int) -> bool {
    let off = 4294967296 * (whole * (y - x0) - part * (x1 - x0));
    off <= 2147549183 * whole && -off <= 2147549183 * whole
}

proof fn lemma_on_the_line(x0: i16, x1: i16, rem: int, out: int)
    requires
        0 <= rem < out,
    ensures
        on_the_line(
            x0 as int,
            x1 as int,
            rem,
            out,
            interpolated(x0, x1, rem * 4294967296 / out) as int,
        ),
{
    let frac = rem * 4294967296 / out;
    lemma_fundamental_div_mod(rem * 4294967296, out);
    let rho = (rem * 4294967296) % out;
    assert(0 <= frac < 4294967296) by (nonlinear_arith)
        requires
            rem * 4294967296 == out * frac + rho,
            0 <= rho < out,
            0 <= rem < out,
    ;
    lemma_interpolated_to_the_nearest(x0, x1, frac);
    let d = x1 - x0;
    let m = interpolated(x0, x1, frac) - x0;
    let delta = 4294967296 * m - d * frac;
    assert(4294967296 * (out * m - rem * d) == out * delta - d * rho) by (nonlinear_arith)
        requires
            rem * 4294967296 == out * frac + rho,
            delta == 4294967296 * m - d * frac,
    ;
    assert(-(d * rho) <= 65535 * out && d * rho <= 65535 * out) by (nonlinear_arith)
        requires
            -65535 <= d <= 65535,
            0 <= rho < out,
    ;
    assert(-(out * delta) <= 2147483648 * out && out * delta <= 2147483648 * out) by (nonlinear_arith)
        requires
            -2147483648 <= delta <= 2147483648,
            out > 0,
    ;
    let y = interpolated(x0, x1, frac) as int;
    assert(4294967296 * (out * (y - x0 as int) - rem * (x1 as int - x0 as int)) == out * delta - d
        * rho) by {
        assert(y - x0 as int == m);
        assert(x1 as int - x0 as int == d);
    }
}

/// What a resampler makes of a stream of `n` frames, from a fresh start on and
/// however the stream is cut into blocks. As many frames come out as lie before
/// the last one that went in, `1 / out_rate` apart where those are `1 / in_rate`
/// apart. Frame `k` lies between frame `q` and the next, where the time says so,
/// and on the straight line between the two.
pub proof fn lemma_stream_lies_on_the_line(
    in_rate: nat,
    out_rate: nat,
    blocks: Seq<Seq<i16>>,
    channels: nat,
    n: int,
    q: int,
    k: int,
    c: int,
)
    requires
        in_rate > 0,
        out_rate > 0,
        1 <= channels <= MAX_CHANNELS,
        blocks.len() > 0,
        forall|i: int|
            0 <= i < blocks.len() ==> (#[trigger] blocks[i]).len() > 0 && blocks[i].len() % channels
                == 0,
        blocks.flatten().len() == n * channels,
        0 <= k,
        k * in_rate < (n - 1) * out_rate,
        q * out_rate <= k * in_rate < (q + 1) * out_rate,
        0 <= c < channels,
    ensures
        ({
            let x = blocks.flatten();
            let y = ResamplerView::fresh(in_rate, out_rate).heard_in_turn(blocks, channels);
            let count = y.len() as int / channels as int;
            &&& y.len() == count * channels
            &&& (count - 1) * in_rate < (n - 1) * out_rate <= count * in_rate
            &&& k < count
            &&& on_the_line(
                x[q * channels + c] as int,
                x[(q + 1) * channels + c] as int,
                k * in_rate - q * out_rate,
                out_rate as int,
                y[k * channels + c] as int,
            )
        }),
{
    let x = blocks.flatten();
    let ch = channels as int;
    let (i_r, o_r) = (in_rate as int, out_rate as int);
    lemma_fundamental_div_mod_converse(x.len() as int, ch, n, 0);
    let count = ceil_div((n - 1) * o_r, i_r);
    let u = (n - 1) * o_r + i_r - 1;
    lemma_fundamental_div_mod(u, i_r);
    assert((count - 1) * i_r < (n - 1) * o_r <= count * i_r) by (nonlinear_arith)
        requires
            (n - 1) * o_r + i_r - 1 == i_r * count + u % i_r,
            0 <= u % i_r < i_r,
    ;
    assert(k < count) by (nonlinear_arith)
        requires
            k * i_r < (n - 1) * o_r,
            (n - 1) * o_r <= count * i_r,
            i_r > 0,
    ;
    assert(in_rate * 1 == in_rate && out_rate * 1 == out_rate);
    lemma_stream_by_reduced_rates(in_rate, out_rate, 1, blocks, channels, k, c);
    let rem = k * i_r - q * o_r;
    assert(k * i_r == q * o_r + rem && 0 <= rem < o_r) by (nonlinear_arith)
        requires
            rem == k * i_r - q * o_r,
            q * o_r <= k * i_r < (q + 1) * o_r,
    ;
    lemma_fundamental_div_mod_converse(k * i_r, o_r, q, rem);
    lemma_on_the_line(x[q * ch + c], x[(q + 1) * ch + c], rem, o_r);
    let y = ResamplerView::fresh(in_rate, out_rate).heard_in_turn(blocks, channels);
    lemma_fundamental_div_mod_converse(y.len() as int, ch, count, 0);
}

/// The same of the bytes that calls of [`process`](Element::process) write, one
/// after the other from a fresh start on.
pub proof fn lemma_calls_lie_on_the_line(
    calls: Seq<ResamplerCall>,
    channels: nat,
    n: int,
    q: int,
    k: int,
    c: int,
)
    requires
        calls.len() > 0,
        calls[0].stage@.valid(),
        calls[0].stage@ == ResamplerView::fresh(
            calls[0].stage@.in_rate,
            calls[0].stage@.out_rate,
        ),
        calls[0].stage@.in_rate != calls[0].stage@.out_rate,
        forall|i: int|
            0 <= i < calls.len() ==> (#[trigger] calls[i]).made() && calls[i].result is Ok
                && calls[i].after.len() <= usize::MAX && calls[i].input.format.channels == channels,
        forall|i: int| 0 <= i < calls.len() - 1 ==> #[trigger] follows(calls, i),
        handed_in(calls).flatten().len() == n * channels,
        0 <= k,
        k * calls[0].stage@.in_rate < (n - 1) * calls[0].stage@.out_rate,
        q * calls[0].stage@.out_rate <= k * calls[0].stage@.in_rate < (q + 1)
            * calls[0].stage@.out_rate,
        0 <= c < channels,
    ensures
        ({
            let x = handed_in(calls).flatten();
            let view = calls[0].stage@;
            let y = written_by(calls);
            let count = y.len() as int / (2 * channels as int);
            &&& y.len() == 2 * (count * channels)
            &&& (count - 1) * view.in_rate < (n - 1) * view.out_rate <= count * view.in_rate
            &&& k < count
            &&& on_the_line(
                x[q * channels + c] as int,
                x[(q + 1) * channels + c] as int,
                k * view.in_rate - q * view.out_rate,
                view.out_rate as int,
                sample_in(y, k * channels + c) as int,
            )
        }),
{
    let view = calls[0].stage@;
    let blocks = handed_in(calls);
    let ch = channels as int;
    lemma_calls_in_turn(calls, channels);
    lemma_stream_lies_on_the_line(view.in_rate, view.out_rate, blocks, channels, n, q, k, c);
    let heard = view.heard_in_turn(blocks, channels);
    let count = heard.len() as int / ch;
    let y = written_by(calls);
    assert(2 * (count * ch) == count * (2 * ch)) by (nonlinear_arith);
    lemma_fundamental_div_mod_converse(y.len() as int, 2 * ch, count, 0);
    let at = k * ch + c;
    assert(0 <= at < count * ch) by (nonlinear_arith)
        requires
            at == k * ch + c,
            0 <= c < ch,
            0 <= k < count,
    ;
    crate::bytes::lemma_samples_lie(y, heard, at);
}

/// The bound on the output of a block: enough for the ratio, rounded up, and one
/// more, and no larger than that.
pub proof fn lemma_frames_bound_is_tight(in_rate: nat, out_rate: nat, frames: nat)
    requires
        in_rate > 0,
    ensures
        ({
            let m = frames_bound(in_rate, out_rate, frames) as int;
            (m - 2) * in_rate < frames * out_rate <= (m - 1) * in_rate
        }),
{
    let a = (frames * out_rate) as int;
    let b = in_rate as int;
    lemma_fundamental_div_mod(a + b - 1, b);
    lemma_ceil_nonnegative(a, b);
    let q = (a + b - 1) / b;
    assert((q - 1) * b < a <= q * b) by (nonlinear_arith)
        requires
            a + b - 1 == b * q + (a + b - 1) % b,
            0 <= (a + b - 1) % b < b,
    ;
}

/// When a resampler refuses a block, and what it does between equal rates. Only
/// 16-bit blocks of one or two channels at the rate it was made for are taken,
/// and only into a buffer with room: for the block itself between equal rates,
/// where it is copied, else for the bound. A refused block leaves the buffer and
/// the resampler as they were.
pub proof fn lemma_resampler_block(
    stage: LinearResampler,
    input: BlockView,
    before: Seq<u8>,
    r: Result<usize>,
    after: Seq<u8>,
    memory: Seq<int>,
)
    requires
        input.well_formed(),
        stage@.valid(),
        stage@.out_rate <= u32::MAX,
        before.len() <= usize::MAX,
        stage.step(input, before, r, after, memory),
    ensures
        ({
            let fits = input.format.sample == SampleFormat::I16 && input.format.channels <= 2
                && input.format.sample_rate_hz == stage@.in_rate;
            let needed = if stage@.in_rate == stage@.out_rate {
                input.data.len() as int
            } else {
                (frames_bound(stage@.in_rate, stage@.out_rate, input.frame_count())
                    * input.format.frame_width()) as int
            };
            &&& !fits ==> r == Err::<usize, Error>(Error::Unsupported)
            &&& fits && before.len() < needed <= usize::MAX ==> r == Err::<usize, Error>(
                Error::BufferTooSmall { needed: needed as usize },
            )
            &&& r is Ok <==> fits && before.len() >= needed
        }),
        r is Err ==> after == before && memory == stage.memory(),
        r is Ok && stage@.in_rate == stage@.out_rate ==> {
            &&& r->Ok_0 == input.data.len()
            &&& after == input.data + before.skip(input.data.len() as int)
            &&& memory == stage.memory()
        },
        input.format.sample == SampleFormat::I16 && input.format.channels <= 2
            && input.format.sample_rate_hz == stage@.in_rate ==> {
            let f = stage.format_out(input.format);
            &&& f is Ok
            &&& f->Ok_0.sample_rate_hz == stage@.out_rate
            &&& f->Ok_0.channels == input.format.channels
            &&& f->Ok_0.sample == SampleFormat::I16
        },
{
}

} // verus!
