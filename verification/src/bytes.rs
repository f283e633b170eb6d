//! Little-endian 16-bit samples in byte buffers, and the copies every element
//! makes.

use vstd::prelude::*;

verus! {

/// The `i16` whose little-endian bytes are `lo`, `hi`.
pub open spec fn le_i16(lo: u8, hi: u8) -> i16 {
    let u = lo as int + 256 * (hi as int);
    (if u < 32768 { u } else { u - 65536 }) as i16
}

/// Low byte of the two's-complement form of `v`.
pub open spec fn low_byte(v: i16) -> u8 {
    ((v as int) % 256) as u8
}

/// High byte of the two's-complement form of `v`.
pub open spec fn high_byte(v: i16) -> u8 {
    (((v as int) / 256) % 256) as u8
}

/// Sample `i` of a little-endian 16-bit byte stream.
pub open spec fn sample_in(bytes: Seq<u8>, i: int) -> i16 {
    le_i16(bytes[2 * i], bytes[2 * i + 1])
}

/// The samples of a little-endian 16-bit byte stream; an odd last byte is no
/// sample.
pub open spec fn decode16(bytes: Seq<u8>) -> Seq<i16> {
    Seq::new(bytes.len() / 2, |i: int| sample_in(bytes, i))
}

/// The little-endian bytes of a sample stream.
pub open spec fn encode16(samples: Seq<i16>) -> Seq<u8> {
    Seq::new(
        2 * samples.len(),
        |i: int|
            if i % 2 == 0 {
                low_byte(samples[i / 2])
            } else {
                high_byte(samples[i / 2])
            },
    )
}

/// `bytes` with its front replaced by `front`.
pub open spec fn overwritten(bytes: Seq<u8>, front: Seq<u8>) -> Seq<u8> {
    front + bytes.skip(front.len() as int)
}

/// `v` clamped into the range of `i16`.
pub open spec fn clamp16(v: int) -> i16 {
    (if v > 32767 { 32767 } else if v < -32768 { -32768 } else { v }) as i16
}

/// One sample survives the trip through its two bytes.
pub proof fn lemma_le_i16_round_trip(v: i16)
    ensures
        le_i16(low_byte(v), high_byte(v)) == v,
{
}

/// Two bytes survive the trip through the sample they encode.
pub proof fn lemma_byte_pair_round_trip(lo: u8, hi: u8)
    ensures
        low_byte(le_i16(lo, hi)) == lo,
        high_byte(le_i16(lo, hi)) == hi,
{
}

/// Reading back what was encoded gives the samples themselves.
pub proof fn lemma_decode_encode(samples: Seq<i16>)
    ensures
        decode16(encode16(samples)) == samples,
{
    assert forall|i: int| 0 <= i < samples.len() implies decode16(encode16(samples))[i]
        == samples[i] by {
        lemma_le_i16_round_trip(samples[i]);
        assert((2 * i) % 2 == 0 && (2 * i) / 2 == i);
        assert((2 * i + 1) % 2 == 1 && (2 * i + 1) / 2 == i);
    }
    assert(decode16(encode16(samples)) =~= samples);
}

/// Encoding what was read gives the bytes themselves, for whole samples.
pub proof fn lemma_encode_decode(bytes: Seq<u8>)
    requires
        bytes.len() % 2 == 0,
    ensures
        encode16(decode16(bytes)) == bytes,
{
    assert forall|i: int| 0 <= i < bytes.len() implies encode16(decode16(bytes))[i] == bytes[i] by {
        let k = i / 2;
        lemma_byte_pair_round_trip(bytes[2 * k], bytes[2 * k + 1]);
    }
    assert(encode16(decode16(bytes)) =~= bytes);
}

/// One sample more encodes to two bytes more.
pub proof fn lemma_encode_push(samples: Seq<i16>, v: i16)
    ensures
        encode16(samples.push(v)) == encode16(samples).push(low_byte(v)).push(high_byte(v)),
{
    let longer = encode16(samples.push(v));
    let expected = encode16(samples).push(low_byte(v)).push(high_byte(v));
    assert forall|i: int| 0 <= i < longer.len() implies longer[i] == expected[i] by {
        assert(i / 2 < samples.len() || i == 2 * samples.len() || i == 2 * samples.len() + 1);
    }
    assert(longer =~= expected);
}

/// Streams encode one after the other.
pub proof fn lemma_encode_joined(a: Seq<i16>, b: Seq<i16>)
    ensures
        encode16(a + b) == encode16(a) + encode16(b),
{
    assert(encode16(a + b) =~= encode16(a) + encode16(b));
}

/// Streams of whole samples decode one after the other.
pub proof fn lemma_decode_joined(a: Seq<u8>, b: Seq<u8>)
    requires
        a.len() % 2 == 0,
    ensures
        decode16(a + b) == decode16(a) + decode16(b),
{
    let joined = decode16(a + b);
    let parts = decode16(a) + decode16(b);
    assert forall|i: int| 0 <= i < joined.len() implies joined[i] == parts[i] by {
        if i >= a.len() / 2 {
            let k = i - a.len() / 2;
            assert((a + b)[2 * i] == b[2 * k] && (a + b)[2 * i + 1] == b[2 * k + 1]);
        }
    }
    assert(joined =~= parts);
}

/// A buffer whose first samples are `samples` and whose rest is that of
/// `before` is `before` overwritten with the encoding of `samples`.
pub proof fn lemma_overwritten16(before: Seq<u8>, after: Seq<u8>, samples: Seq<i16>)
    requires
        after.len() == before.len(),
        2 * samples.len() <= after.len(),
        forall|i: int| 0 <= i < samples.len() ==> #[trigger] sample_in(after, i) == samples[i],
        forall|i: int| 2 * samples.len() <= i < after.len() ==> after[i] == before[i],
    ensures
        after == overwritten(before, encode16(samples)),
{
    let expected = overwritten(before, encode16(samples));
    assert forall|i: int| 0 <= i < after.len() implies after[i] == expected[i] by {
        if i < 2 * samples.len() {
            let k = i / 2;
            assert(sample_in(after, k) == samples[k]);
            lemma_byte_pair_round_trip(after[2 * k], after[2 * k + 1]);
        }
    }
    assert(after =~= expected);
}

/// Read a little-endian `i16`.
pub fn get_i16(b: &[u8]) -> (r: i16)
    requires
        b@.len() >= 2,
    ensures
        r == le_i16(b@[0], b@[1]),
{
    get_i16_at(b, 0)
}

/// Read a little-endian `i16` at byte offset `at`.
pub fn get_i16_at(b: &[u8], at: usize) -> (r: i16)
    requires
        at + 2 <= b@.len(),
    ensures
        r == le_i16(b@[at as int], b@[at + 1]),
{
    let u: i32 = b[at] as i32 + 256 * (b[at + 1] as i32);
    if u < 32768 {
        u as i16
    } else {
        (u - 65536) as i16
    }
}

/// Write an `i16` sample as two little-endian bytes.
pub fn put_i16(out: &mut [u8], v: i16)
    requires
        old(out)@.len() >= 2,
    ensures
        final(out)@ == old(out)@.update(0, low_byte(v)).update(1, high_byte(v)),
{
    put_i16_at(out, 0, v)
}

/// Write an `i16` sample as two little-endian bytes at byte offset `at`.
pub fn put_i16_at(out: &mut [u8], at: usize, v: i16)
    requires
        at + 2 <= old(out)@.len(),
    ensures
        final(out)@ == old(out)@.update(at as int, low_byte(v)).update(at + 1, high_byte(v)),
{
    let u: i32 = if v < 0 {
        v as i32 + 65536
    } else {
        v as i32
    };
    out[at] = (u % 256) as u8;
    out[at + 1] = (u / 256) as u8;
}

/// Read sample `i`.
pub fn get_sample(b: &[u8], i: usize) -> (r: i16)
    requires
        2 * i + 2 <= b@.len(),
    ensures
        r == sample_in(b@, i as int),
{
    let len: usize = b.len();
    get_i16_at(b, 2 * i)
}

/// Write sample `i`.
pub fn put_sample(out: &mut [u8], i: usize, v: i16)
    requires
        2 * i + 2 <= old(out)@.len(),
    ensures
        final(out)@.len() == old(out)@.len(),
        sample_in(final(out)@, i as int) == v,
        forall|j: int|
            0 <= j && j != i && 2 * j + 2 <= old(out)@.len() ==> #[trigger] sample_in(
                final(out)@,
                j,
            ) == sample_in(old(out)@, j),
        forall|j: int|
            0 <= j < old(out)@.len() && j != 2 * i && j != 2 * i + 1 ==> #[trigger] final(out)@[j]
                == old(out)@[j],
{
    let len: usize = out.len();
    proof {
        lemma_le_i16_round_trip(v);
    }
    put_i16_at(out, 2 * i, v);
}

/// Append a sample to a byte stream.
pub fn push_sample(out: &mut Vec<u8>, v: i16)
    ensures
        final(out)@ == old(out)@.push(low_byte(v)).push(high_byte(v)),
{
    let u: i32 = if v < 0 {
        v as i32 + 65536
    } else {
        v as i32
    };
    out.push((u % 256) as u8);
    out.push((u / 256) as u8);
}

/// Saturate an `i32` into `i16`.
pub fn sat16(v: i32) -> (r: i16)
    ensures
        r == clamp16(v as int),
{
    if v > 32767 {
        32767
    } else if v < -32768 {
        -32768
    } else {
        v as i16
    }
}

/// Copy all of `src` over the front of `out`.
pub fn copy_front(out: &mut [u8], src: &[u8])
    requires
        src@.len() <= old(out)@.len(),
    ensures
        final(out)@ == overwritten(old(out)@, src@),
{
    copy_at(out, 0, src);
    proof {
        assert(old(out)@.take(0) + src@ =~= src@);
    }
}

/// Copy all of `src` into `out` from byte `at` on.
pub fn copy_at(out: &mut [u8], at: usize, src: &[u8])
    requires
        at + src@.len() <= old(out)@.len(),
    ensures
        final(out)@ == old(out)@.take(at as int) + src@ + old(out)@.skip(at + src@.len()),
{
    let len: usize = out.len();
    let ghost before = out@;
    let mut i: usize = 0;
    while i < src.len()
        invariant
            i <= src@.len(),
            out@.len() == len == before.len(),
            at + src@.len() <= len,
            forall|j: int| 0 <= j < i ==> out@[at + j] == src@[j],
            forall|j: int| 0 <= j < at ==> out@[j] == before[j],
            forall|j: int| at + i <= j < len ==> out@[j] == before[j],
        decreases src@.len() - i,
    {
        out[at + i] = src[i];
        i += 1;
    }
    proof {
        let expected = before.take(at as int) + src@ + before.skip(at + src@.len());
        assert forall|k: int| 0 <= k < len implies out@[k] == expected[k] by {
            if at <= k < at + src@.len() {
                assert(out@[at + (k - at)] == src@[k - at]);
            }
        }
        assert(out@ =~= expected);
    }
}

/// A number in the range of 16 bits is itself; beyond it, the bound it exceeds.
pub proof fn lemma_saturation(v: int)
    ensures
        -32768 <= v <= 32767 ==> clamp16(v) == v,
        v > 32767 ==> clamp16(v) == 32767,
        v < -32768 ==> clamp16(v) == -32768,
{
}

/// Two bytes are a sample, the low one first: its value, modulo `2^16`.
pub proof fn lemma_bytes_are_a_sample(v: i16, lo: u8, hi: u8)
    ensures
        le_i16(lo, hi) == lo + 256 * hi || le_i16(lo, hi) == lo + 256 * hi - 65536,
        low_byte(v) + 256 * high_byte(v) == v || low_byte(v) + 256 * high_byte(v) == v + 65536,
{
}

/// Where the samples lie in their bytes: sample `i` in the bytes `2i` and
/// `2i + 1`, in both directions.
pub proof fn lemma_samples_lie(bytes: Seq<u8>, samples: Seq<i16>, i: int)
    ensures
        decode16(bytes).len() == bytes.len() / 2,
        0 <= i < bytes.len() / 2 ==> decode16(bytes)[i] == le_i16(bytes[2 * i], bytes[2 * i + 1]),
        encode16(samples).len() == 2 * samples.len(),
        0 <= i < samples.len() ==> le_i16(
            encode16(samples)[2 * i],
            encode16(samples)[2 * i + 1],
        ) == samples[i],
{
    if 0 <= i < samples.len() {
        lemma_le_i16_round_trip(samples[i]);
        assert((2 * i) % 2 == 0 && (2 * i) / 2 == i);
        assert((2 * i + 1) % 2 == 1 && (2 * i + 1) / 2 == i);
    }
}

/// What overwriting the front of a buffer leaves: the bytes written, and behind
/// them what was there.
pub proof fn lemma_only_the_front_changes(bytes: Seq<u8>, front: Seq<u8>, i: int)
    requires
        front.len() <= bytes.len(),
        0 <= i < bytes.len(),
    ensures
        overwritten(bytes, front).len() == bytes.len(),
        overwritten(bytes, front)[i] == (if i < front.len() {
            front[i]
        } else {
            bytes[i]
        }),
{
}

/// The samples of a buffer whose front was overwritten with samples.
pub proof fn lemma_samples_of_the_front(bytes: Seq<u8>, samples: Seq<i16>)
    requires
        2 * samples.len() <= bytes.len(),
    ensures
        overwritten(bytes, encode16(samples)).len() == bytes.len(),
        forall|i: int|
            0 <= i < samples.len() ==> #[trigger] sample_in(
                overwritten(bytes, encode16(samples)),
                i,
            ) == samples[i],
        forall|i: int|
            2 * samples.len() <= i < bytes.len() ==> #[trigger] overwritten(
                bytes,
                encode16(samples),
            )[i] == bytes[i],
{
    let after = overwritten(bytes, encode16(samples));
    assert forall|i: int| 0 <= i < samples.len() implies #[trigger] sample_in(after, i)
        == samples[i] by {
        lemma_samples_lie(bytes, samples, i);
        assert(after[2 * i] == encode16(samples)[2 * i]);
        assert(after[2 * i + 1] == encode16(samples)[2 * i + 1]);
    }
}

} // verus!
