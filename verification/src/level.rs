//! Levels: the peak of a block, and its RMS in dBFS.

use vstd::arithmetic::power2::pow2;
use vstd::prelude::*;

use crate::bytes::{decode16, get_sample};
use crate::esp_core::pcm::as_i16;

verus! {

/// A level in dBFS, held as the bits of an IEEE 754 binary32 number: a sign,
/// an 8-bit exponent and a 23-bit fraction.
#[derive(Debug, Clone, Copy, PartialEq, Eq, Structural)]
pub struct Level {
    /// The bits of the number.
    pub bits: u32,
}

/// The bits of -120, the level of digital silence.
pub const SILENCE: u32 = 0xC2F0_0000;

impl Level {
    /// The level of digital silence, -120 dBFS.
    pub open spec fn floor() -> Level {
        Level { bits: SILENCE }
    }

    /// The level is a number: its exponent is not all ones, or its fraction is
    /// zero.
    pub open spec fn is_number(self) -> bool {
        self.bits as int % 0x8000_0000 <= 0x7F80_0000
    }

    /// A number by which levels are ordered: the bits without the sign, negated
    /// below zero. The two zeros have one rank.
    pub open spec fn rank(self) -> int {
        if self.bits < 0x8000_0000 {
            self.bits as int
        } else {
            0x8000_0000 - self.bits
        }
    }

    /// `self >= other` of the two numbers: false where one is not a number.
    pub open spec fn reaches(self, other: Level) -> bool {
        &&& self.is_number()
        &&& other.is_number()
        &&& self.rank() >= other.rank()
    }

    /// The level of digital silence, -120 dBFS.
    pub fn silence() -> (r: Level)
        ensures
            r == Level::floor(),
    {
        Level { bits: SILENCE }
    }

    /// Whether this level is at or above `other`.
    pub fn at_least(self, other: Level) -> (r: bool)
        ensures
            r == self.reaches(other),
    {
        let a: i64 = if self.bits < 0x8000_0000 {
            self.bits as i64
        } else {
            0x8000_0000 - self.bits as i64
        };
        let b: i64 = if other.bits < 0x8000_0000 {
            other.bits as i64
        } else {
            0x8000_0000 - other.bits as i64
        };
        self.bits % 0x8000_0000 <= 0x7F80_0000 && other.bits % 0x8000_0000 <= 0x7F80_0000 && a >= b
    }
}

/// A number reaches itself, and of two numbers at least one reaches the other.
pub proof fn lemma_levels_are_ordered(a: Level, b: Level, c: Level)
    requires
        a.is_number(),
        b.is_number(),
        c.is_number(),
    ensures
        a.reaches(a),
        a.reaches(b) || b.reaches(a),
        a.reaches(b) && b.reaches(c) ==> a.reaches(c),
{
}

/// The RMS level of 16-bit little-endian samples, as binary32 bits.
pub uninterp spec fn rms_bits(samples: Seq<u8>) -> u32;

/// The sum of the squares of samples.
pub open spec fn energy(samples: Seq<i16>) -> int
    decreases samples.len(),
{
    if samples.len() == 0 {
        0
    } else {
        energy(samples.drop_last()) + samples.last() * samples.last()
    }
}

/// The block's squares sum up in 64 bits, as they do in every block shorter
/// than 16 GiB.
pub open spec fn measurable(samples: Seq<u8>) -> bool {
    energy(decode16(samples)) <= i64::MAX
}

/// No square is larger than that of the smallest sample.
proof fn lemma_energy_bounded(samples: Seq<i16>)
    ensures
        0 <= energy(samples) <= samples.len() * 1_073_741_824,
    decreases samples.len(),
{
    if samples.len() > 0 {
        lemma_energy_bounded(samples.drop_last());
        let x = samples.last() as int;
        assert(0 <= x * x <= 1_073_741_824) by (nonlinear_arith)
            requires
                -32768 <= x <= 32767,
        ;
    }
}

/// A block shorter than 16 GiB is measurable.
pub proof fn lemma_short_is_measurable(samples: Seq<u8>)
    requires
        samples.len() < 17_179_869_184,
    ensures
        measurable(samples),
{
    lemma_energy_bounded(decode16(samples));
}

/// Whether the level of a block can be measured.
pub fn is_measurable(samples: &[u8]) -> (r: bool)
    ensures
        r == measurable(samples@),
{
    if (samples.len() as u64) < 17_179_869_184 {
        proof {
            lemma_short_is_measurable(samples@);
        }
        return true;
    }
    let ghost all = decode16(samples@);
    let n: usize = samples.len() / 2;
    let mut sum: u128 = 0;
    let mut i: usize = 0;
    while i < n
        invariant
            i <= n,
            2 * n <= samples@.len(),
            n == all.len(),
            all == decode16(samples@),
            sum == energy(all.take(i as int)),
            sum <= i * 1_073_741_824,
        decreases n - i,
    {
        let x: i32 = get_sample(samples, i) as i32;
        assert(0 <= x * x <= 1_073_741_824) by (nonlinear_arith)
            requires
                -32768 <= x <= 32767,
        ;
        assert(all.take(i + 1).drop_last() =~= all.take(i as int));
        sum = sum + (x * x) as u128;
        i += 1;
    }
    assert(all.take(i as int) =~= all);
    sum <= i64::MAX as u128
}

/// `rusty_esp_dsp::sample::rms_dbfs_i16`: level of an interleaved i16 block in
/// dBFS (RMS over all channels). Digital silence, like no samples at all, is
/// -120. The squares are summed in 64 bits, which must hold them.
#[verifier::external_body]
pub fn rms_dbfs_i16(samples: &[u8]) -> (r: Level)
    requires
        measurable(samples@),
    ensures
        r.bits == rms_bits(samples@),
        (forall|i: int| 0 <= i < decode16(samples@).len() ==> decode16(samples@)[i] == 0) ==> r
            == Level::floor(),
{
    Level { bits: rusty_esp_dsp::sample::rms_dbfs_i16(samples).to_bits() }
}

/// The magnitude of a sample.
pub open spec fn magnitude(x: i16) -> int {
    if x < 0 {
        -(x as int)
    } else {
        x as int
    }
}

/// The largest magnitude in the block (`32 768` for `i16::MIN`), 0 in an empty
/// one.
pub fn peak_abs_i16(a: &[i16]) -> (r: u16)
    ensures
        is_peak(a@, r),
{
    let mut best: u16 = 0;
    let mut i: usize = 0;
    while i < a.len()
        invariant
            i <= a@.len(),
            forall|j: int| 0 <= j < i ==> magnitude(#[trigger] a@[j]) <= best,
            i == 0 ==> best == 0,
            i > 0 ==> exists|j: int| 0 <= j < i && magnitude(#[trigger] a@[j]) == best,
        decreases a@.len() - i,
    {
        let x: i32 = a[i] as i32;
        let m: u16 = if x < 0 {
            (-x) as u16
        } else {
            x as u16
        };
        assert(magnitude(a@[i as int]) == m);
        if m > best || i == 0 {
            best = m;
        }
        i += 1;
    }
    best
}

/// Whether `r` is the largest magnitude among the samples, 0 where there are
/// none.
pub open spec fn is_peak(samples: Seq<i16>, r: u16) -> bool {
    &&& forall|i: int| 0 <= i < samples.len() ==> magnitude(#[trigger] samples[i]) <= r
    &&& samples.len() == 0 ==> r == 0
    &&& samples.len() > 0 ==> exists|i: int|
        0 <= i < samples.len() && magnitude(#[trigger] samples[i]) == r
}

/// The largest magnitude among the samples in view, 0 where there is no view.
pub fn peak_of_view(view: Option<&[i16]>) -> (r: u16)
    ensures
        match view {
            Some(samples) => is_peak(samples@, r),
            None => r == 0,
        },
{
    match view {
        Some(samples) => peak_abs_i16(samples),
        None => 0,
    }
}

/// The largest magnitude among the samples in `data`, 0 where the bytes cannot be
/// viewed as samples in place: an odd number of them cannot, and an even number
/// cannot where the machine asks for another alignment or byte order.
pub fn peak_of_bytes(data: &[u8]) -> (r: u16)
    ensures
        r == 0 || is_peak(decode16(data@), r),
        data@.len() % 2 != 0 ==> r == 0,
{
    peak_of_view(as_i16(data))
}

/// The number that bits without a sign stand for, in units of the smallest one,
/// `2^-149`: the fraction, with a leading one where the exponent is not zero,
/// times two for every exponent above one.
pub open spec fn magnitude_of_bits(bits: int) -> int {
    let exponent = bits / 0x80_0000;
    let fraction = bits % 0x80_0000;
    if exponent == 0 {
        fraction
    } else {
        (0x80_0000 + fraction) * pow2((exponent - 1) as nat)
    }
}

/// The number that bits stand for, in units of `2^-149`.
pub open spec fn number_of_bits(bits: u32) -> int {
    if bits < 0x8000_0000 {
        magnitude_of_bits(bits as int)
    } else {
        -magnitude_of_bits(bits - 0x8000_0000)
    }
}

/// Bits without a sign are ordered as their numbers are.
proof fn lemma_magnitudes_ordered(a: int, b: int)
    requires
        0 <= a < b,
    ensures
        0 <= magnitude_of_bits(a) < magnitude_of_bits(b),
{
    let (ea, fa) = (a / 0x80_0000, a % 0x80_0000);
    let (eb, fb) = (b / 0x80_0000, b % 0x80_0000);
    vstd::arithmetic::power2::lemma2_to64();
    if eb > 0 {
        let q = pow2((eb - 1) as nat) as int;
        vstd::arithmetic::power2::lemma_pow2_pos((eb - 1) as nat);
        assert((0x80_0000 + fb) * q >= 0x80_0000 * q && 0x80_0000 * q >= 0x80_0000)
            by (nonlinear_arith)
            requires
                fb >= 0,
                q >= 1,
        ;
        if ea > 0 {
            let p = pow2((ea - 1) as nat) as int;
            vstd::arithmetic::power2::lemma_pow2_pos((ea - 1) as nat);
            if ea == eb {
                assert(0 <= (0x80_0000 + fa) * p < (0x80_0000 + fb) * q) by (nonlinear_arith)
                    requires
                        p == q,
                        p >= 1,
                        0 <= fa < fb,
                ;
            } else {
                lemma_pow2_grows((ea - 1) as nat, (eb - 1) as nat);
                assert(0 <= (0x80_0000 + fa) * p < 0x80_0000 * q) by (nonlinear_arith)
                    requires
                        q >= 2 * p,
                        p >= 1,
                        0 <= fa < 0x80_0000,
                ;
            }
        }
    }
}

proof fn lemma_pow2_grows(a: nat, b: nat)
    requires
        a < b,
    ensures
        pow2(b) >= 2 * pow2(a),
    decreases b,
{
    vstd::arithmetic::power2::lemma_pow2_unfold(b);
    vstd::arithmetic::power2::lemma_pow2_pos(a);
    if b > a + 1 {
        lemma_pow2_grows(a, (b - 1) as nat);
    }
}

/// A level reaches another exactly if both are numbers and its number is not the
/// smaller of the two. What is not a number reaches nothing and is not reached.
pub proof fn lemma_levels_compare_as_numbers(a: Level, b: Level)
    ensures
        a.reaches(b) <==> {
            &&& a.bits as int % 0x8000_0000 <= 0x7F80_0000
            &&& b.bits as int % 0x8000_0000 <= 0x7F80_0000
            &&& number_of_bits(a.bits) >= number_of_bits(b.bits)
        },
{
    let x = a.bits as int % 0x8000_0000;
    let y = b.bits as int % 0x8000_0000;
    assert(magnitude_of_bits(0) == 0);
    if x > 0 {
        lemma_magnitudes_ordered(0, x);
    }
    if y > 0 {
        lemma_magnitudes_ordered(0, y);
    }
    if x < y {
        lemma_magnitudes_ordered(x, y);
    } else if y < x {
        lemma_magnitudes_ordered(y, x);
    }
}

/// Digital silence is -120 dBFS.
pub proof fn lemma_silence_is_120_down()
    ensures
        number_of_bits(Level::floor().bits) == -120 * pow2(149),
{
    vstd::arithmetic::power2::lemma_pow2_adds(132, 17);
    vstd::arithmetic::power2::lemma2_to64();
    let p = pow2(132) as int;
    assert(magnitude_of_bits(0x42F0_0000) == (0x80_0000 + 0x70_0000) * p);
    assert((0x80_0000 + 0x70_0000) * p == 120 * (p * 0x2_0000)) by (nonlinear_arith);
}

/// The peak is a magnitude that occurs and that none exceeds; there is only one
/// such number. Samples put behind can only raise it, and their order does not
/// matter.
pub proof fn lemma_peak_is_the_largest(a: Seq<i16>, b: Seq<i16>, p: u16, q: u16, all: u16)
    requires
        is_peak(a, p),
        is_peak(b, q),
        is_peak(a + b, all),
    ensures
        all == (if p > q {
            p
        } else {
            q
        }),
        forall|i: int| 0 <= i < a.len() ==> -p <= #[trigger] a[i] <= p,
        a.len() > 0 ==> exists|i: int|
            0 <= i < a.len() && (#[trigger] a[i] == p || a[i] == -p),
        a.len() == 0 ==> p == 0,
{
    let ab = a + b;
    if a.len() > 0 {
        let i = choose|i: int| 0 <= i < a.len() && magnitude(#[trigger] a[i]) == p;
        assert(ab[i] == a[i]);
        assert(a[i] == p || a[i] == -p);
    }
    if b.len() > 0 {
        let i = choose|i: int| 0 <= i < b.len() && magnitude(#[trigger] b[i]) == q;
        assert(ab[a.len() + i] == b[i]);
    }
    if ab.len() > 0 {
        let i = choose|i: int| 0 <= i < ab.len() && magnitude(#[trigger] ab[i]) == all;
        if i < a.len() {
            assert(ab[i] == a[i]);
        } else {
            assert(ab[i] == b[i - a.len()]);
        }
    }
    assert forall|i: int| 0 <= i < a.len() implies -p <= #[trigger] a[i] <= p by {
        assert(magnitude(a[i]) <= p);
    }
}

} // verus!
