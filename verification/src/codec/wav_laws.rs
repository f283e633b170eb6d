//! What stands in a WAV header, byte by byte, and what a reader makes of the
//! chunks of a file.

use vstd::prelude::*;

use super::wav::{
    chunk, describe, fmt_fields, le16, le32, lemma_le16, lemma_le32, moved, parsed, scan, u16_in,
    u32_in, FmtFields, WavCodec, WavHeader, DATA, FACT, FMT, RIFF, WAVE,
};
use crate::esp_core::error::Error;
use crate::esp_core::pcm::SampleFormat;

verus! {

/// The number in `n` bytes from `at` on, the lowest first.
#[verifier::opaque]
pub open spec fn number(bytes: Seq<u8>, at: int, n: nat) -> int
    decreases n,
{
    if n == 0 {
        0
    } else {
        bytes[at] + 256 * number(bytes, at + 1, (n - 1) as nat)
    }
}

proof fn lemma_number(bytes: Seq<u8>, at: int)
    ensures
        number(bytes, at, 2) == u16_in(bytes, at),
        number(bytes, at, 4) == u32_in(bytes, at),
{
    reveal_with_fuel(number, 5);
}

/// The four letters at `at`.
#[verifier::opaque]
pub open spec fn name_at(bytes: Seq<u8>, at: int) -> (char, char, char, char) {
    (bytes[at] as char, bytes[at + 1] as char, bytes[at + 2] as char, bytes[at + 3] as char)
}

impl WavHeader {
    /// What stands in a header, and where. Every number is little-endian. The
    /// letters, the sizes of the parts, channels, rate, bytes of a frame or block,
    /// and bits of a sample are those of the codec; the bytes per second are rate
    /// times frame, or what a block takes for its frames; the RIFF size counts all
    /// that follows it. Where 32 bits cannot hold a number, the largest stands for
    /// it.
    pub proof fn lemma_header_layout(self)
        ensures
            ({
                let b = self.bytes();
                let ima = self.codec is ImaAdpcm;
                let float = self.codec is Pcm && self.codec->Pcm_0.sample == SampleFormat::F32;
                let extra = if ima {
                    4int
                } else if float {
                    2
                } else {
                    0
                };
                let fact = if ima || float {
                    12int
                } else {
                    0
                };
                let all = 44 + extra + fact;
                &&& b.len() == all
                &&& name_at(b, 0) == ('R', 'I', 'F', 'F')
                &&& number(b, 4, 4) == (if self.data_len == u32::MAX || all - 8 + self.data_len
                    > u32::MAX {
                    u32::MAX as int
                } else {
                    all - 8 + self.data_len
                })
                &&& name_at(b, 8) == ('W', 'A', 'V', 'E')
                &&& name_at(b, 12) == ('f', 'm', 't', ' ')
                &&& number(b, 16, 4) == 16 + extra
                &&& fact > 0 ==> {
                    &&& name_at(b, 36 + extra) == ('f', 'a', 'c', 't')
                    &&& number(b, 40 + extra, 4) == 4
                    &&& number(b, 44 + extra, 4) == self.total_frames
                }
                &&& name_at(b, all - 8) == ('d', 'a', 't', 'a')
                &&& number(b, all - 4, 4) == self.data_len
                &&& match self.codec {
                    WavCodec::Pcm(f) => {
                        let width = if f.sample == SampleFormat::I16 {
                            2int
                        } else {
                            4
                        };
                        let speed = f.sample_rate_hz * (width * f.channels);
                        &&& number(b, 20, 2) == (if float {
                            3int
                        } else {
                            1
                        })
                        &&& number(b, 22, 2) == f.channels
                        &&& number(b, 24, 4) == f.sample_rate_hz
                        &&& number(b, 28, 4) == (if speed > u32::MAX {
                            u32::MAX as int
                        } else {
                            speed
                        })
                        &&& number(b, 32, 2) == width * f.channels
                        &&& number(b, 34, 2) == 8 * width
                        &&& float ==> number(b, 36, 2) == 0
                    },
                    WavCodec::ImaAdpcm {
                        sample_rate_hz,
                        channels,
                        block_align,
                        frames_per_block,
                    } => {
                        let speed = number(b, 28, 4);
                        &&& number(b, 20, 2) == 0x11
                        &&& number(b, 22, 2) == channels
                        &&& number(b, 24, 4) == sample_rate_hz
                        &&& frames_per_block > 0 && sample_rate_hz * block_align <= u32::MAX
                            ==> speed * frames_per_block <= sample_rate_hz * block_align < (speed
                            + 1) * frames_per_block
                        &&& number(b, 32, 2) == block_align
                        &&& number(b, 34, 2) == 4
                        &&& number(b, 36, 2) == 2
                        &&& number(b, 38, 2) == frames_per_block
                    },
                }
            }),
    {
        let n = self.fmt_body().len() as int;
        let fact = self.fact_chunk().len() as int;
        self.lemma_outer_layout();
        self.lemma_inner_layout();
        self.lemma_part_lengths();
        self.lemma_layout_of(self.bytes(), n, fact);
    }

    /// The layout, of any bytes with these numbers.
    proof fn lemma_layout_of(self, b: Seq<u8>, n: int, fact: int)
        requires
            n == (if self.codec is ImaAdpcm {
                20int
            } else if self.codec->Pcm_0.sample == SampleFormat::F32 {
                18
            } else {
                16
            }),
            fact == (if self.codec is ImaAdpcm || self.codec->Pcm_0.sample == SampleFormat::F32 {
                12int
            } else {
                0
            }),
            b.len() == 28 + n + fact,
            name_at(b, 0) == ('R', 'I', 'F', 'F'),
            number(b, 4, 4) == self.riff_len(),
            name_at(b, 8) == ('W', 'A', 'V', 'E'),
            name_at(b, 12) == ('f', 'm', 't', ' '),
            number(b, 16, 4) == n,
            fact > 0 ==> {
                &&& name_at(b, 20 + n) == ('f', 'a', 'c', 't')
                &&& number(b, 24 + n, 4) == 4
                &&& number(b, 28 + n, 4) == self.total_frames
            },
            name_at(b, 20 + n + fact) == ('d', 'a', 't', 'a'),
            number(b, 24 + n + fact, 4) == self.data_len,
            number(b, 20, 2) == self.fields().tag,
            number(b, 22, 2) == self.fields().channels,
            number(b, 24, 4) == self.fields().rate,
            number(b, 28, 4) == self.byte_rate(),
            number(b, 32, 2) == self.fields().align,
            number(b, 34, 2) == self.fields().bits,
            n == 18 ==> number(b, 36, 2) == 0,
            self.codec is ImaAdpcm ==> number(b, 36, 2) == 2 && number(b, 38, 2)
                == self.fields().frames_per_block,
        ensures
            ({
                let ima = self.codec is ImaAdpcm;
                let float = self.codec is Pcm && self.codec->Pcm_0.sample == SampleFormat::F32;
                let extra = if ima {
                    4int
                } else if float {
                    2
                } else {
                    0
                };
                let fact_len = if ima || float {
                    12int
                } else {
                    0
                };
                let all = 44 + extra + fact_len;
                &&& b.len() == all
                &&& name_at(b, 0) == ('R', 'I', 'F', 'F')
                &&& number(b, 4, 4) == (if self.data_len == u32::MAX || all - 8 + self.data_len
                    > u32::MAX {
                    u32::MAX as int
                } else {
                    all - 8 + self.data_len
                })
                &&& name_at(b, 8) == ('W', 'A', 'V', 'E')
                &&& name_at(b, 12) == ('f', 'm', 't', ' ')
                &&& number(b, 16, 4) == 16 + extra
                &&& fact_len > 0 ==> {
                    &&& name_at(b, 36 + extra) == ('f', 'a', 'c', 't')
                    &&& number(b, 40 + extra, 4) == 4
                    &&& number(b, 44 + extra, 4) == self.total_frames
                }
                &&& name_at(b, all - 8) == ('d', 'a', 't', 'a')
                &&& number(b, all - 4, 4) == self.data_len
                &&& match self.codec {
                    WavCodec::Pcm(f) => {
                        let width = if f.sample == SampleFormat::I16 {
                            2int
                        } else {
                            4
                        };
                        let speed = f.sample_rate_hz * (width * f.channels);
                        &&& number(b, 20, 2) == (if float {
                            3int
                        } else {
                            1
                        })
                        &&& number(b, 22, 2) == f.channels
                        &&& number(b, 24, 4) == f.sample_rate_hz
                        &&& number(b, 28, 4) == (if speed > u32::MAX {
                            u32::MAX as int
                        } else {
                            speed
                        })
                        &&& number(b, 32, 2) == width * f.channels
                        &&& number(b, 34, 2) == 8 * width
                        &&& float ==> number(b, 36, 2) == 0
                    },
                    WavCodec::ImaAdpcm {
                        sample_rate_hz,
                        channels,
                        block_align,
                        frames_per_block,
                    } => {
                        let speed = number(b, 28, 4);
                        &&& number(b, 20, 2) == 0x11
                        &&& number(b, 22, 2) == channels
                        &&& number(b, 24, 4) == sample_rate_hz
                        &&& frames_per_block > 0 && sample_rate_hz * block_align <= u32::MAX
                            ==> speed * frames_per_block <= sample_rate_hz * block_align < (speed
                            + 1) * frames_per_block
                        &&& number(b, 32, 2) == block_align
                        &&& number(b, 34, 2) == 4
                        &&& number(b, 36, 2) == 2
                        &&& number(b, 38, 2) == frames_per_block
                    },
                }
            }),
    {
        self.lemma_speed();
    }

    /// How long the `fmt ` body and the `fact` chunk are.
    proof fn lemma_part_lengths(self)
        ensures
            self.fmt_body().len() == (if self.codec is ImaAdpcm {
                20int
            } else if self.codec->Pcm_0.sample == SampleFormat::F32 {
                18
            } else {
                16
            }),
            self.fact_chunk().len() == (if self.codec is ImaAdpcm || self.codec->Pcm_0.sample
                == SampleFormat::F32 {
                12int
            } else {
                0
            }),
    {
    }

    /// The numbers around the body of the `fmt ` chunk.
    proof fn lemma_outer_layout(self)
        ensures
            ({
                let b = self.bytes();
                let n = self.fmt_body().len() as int;
                let fact = self.fact_chunk().len() as int;
                let at = 20 + n + fact;
                &&& b.len() == at + 8
                &&& name_at(b, 0) == ('R', 'I', 'F', 'F')
                &&& number(b, 4, 4) == self.riff_len()
                &&& name_at(b, 8) == ('W', 'A', 'V', 'E')
                &&& name_at(b, 12) == ('f', 'm', 't', ' ')
                &&& number(b, 16, 4) == n
                &&& fact > 0 ==> {
                    &&& fact == 12
                    &&& name_at(b, 20 + n) == ('f', 'a', 'c', 't')
                    &&& number(b, 24 + n, 4) == 4
                    &&& number(b, 28 + n, 4) == self.total_frames
                }
                &&& name_at(b, at) == ('d', 'a', 't', 'a')
                &&& number(b, at + 4, 4) == self.data_len
                &&& b.subrange(20, 20 + n) == self.fmt_body()
            }),
    {
        let b = self.bytes();
        let body = self.fmt_body();
        let fact = self.fact_chunk();
        let n = body.len() as int;
        let at = 20 + n + fact.len();
        self.lemma_fmt_body_fields();
        self.lemma_parts();
        let front = RIFF@ + le32(self.riff_len()) + WAVE@;
        let fmt = chunk(FMT@, body);
        let tail = DATA@ + le32(self.data_len);
        assert(b == front + fmt + fact + tail);
        assert(b.subrange(0, 12) =~= front);
        assert(b.subrange(12, 20 + n) =~= fmt);
        assert(b.subrange(20, 20 + n) =~= body);
        assert(b.subrange(20 + n, at) =~= fact);
        assert(b.subrange(at, at + 8) =~= tail);
        lemma_front_parts(self.riff_len());
        lemma_moved(b, 0, front, 4, 4);
        lemma_chunk_parts(FMT@, body);
        lemma_moved(b, 12, fmt, 4, 4);
        lemma_tail_parts(self.data_len);
        lemma_moved(b, at, tail, 4, 4);
        lemma_name_moved(b, 0, front, 0);
        lemma_name_moved(b, 0, front, 8);
        lemma_name_moved(b, 12, fmt, 0);
        lemma_name_moved(b, at, tail, 0);
        if fact.len() > 0 {
            let told = le32(self.total_frames);
            lemma_chunk_parts(FACT@, told);
            lemma_moved(b, 20 + n, fact, 4, 4);
            lemma_moved(b, 20 + n, fact, 8, 4);
            lemma_moved(fact, 8, told, 0, 4);
            lemma_le32(self.total_frames);
            lemma_number(told, 0);
            lemma_name_moved(b, 20 + n, fact, 0);
        }
    }

    /// The numbers in the body of the `fmt ` chunk, where they stand in the header.
    proof fn lemma_inner_layout(self)
        ensures
            ({
                let b = self.bytes();
                let f = self.fields();
                &&& number(b, 20, 2) == f.tag
                &&& number(b, 22, 2) == f.channels
                &&& number(b, 24, 4) == f.rate
                &&& number(b, 28, 4) == self.byte_rate()
                &&& number(b, 32, 2) == f.align
                &&& number(b, 34, 2) == f.bits
                &&& self.fmt_body().len() == 18 ==> number(b, 36, 2) == 0
                &&& self.codec is ImaAdpcm ==> number(b, 36, 2) == 2 && number(b, 38, 2)
                    == f.frames_per_block
            }),
    {
        self.lemma_outer_layout();
        self.lemma_part_lengths();
        self.lemma_body_layout();
        lemma_fields_moved(self.bytes(), self.fmt_body());
    }

    /// The numbers in the body of the `fmt ` chunk.
    proof fn lemma_body_layout(self)
        ensures
            ({
                let body = self.fmt_body();
                let f = self.fields();
                &&& number(body, 0, 2) == f.tag
                &&& number(body, 2, 2) == f.channels
                &&& number(body, 4, 4) == f.rate
                &&& number(body, 8, 4) == self.byte_rate()
                &&& number(body, 12, 2) == f.align
                &&& number(body, 14, 2) == f.bits
                &&& body.len() == 18 ==> number(body, 16, 2) == 0
                &&& self.codec is ImaAdpcm ==> number(body, 16, 2) == 2 && number(body, 18, 2)
                    == f.frames_per_block
            }),
    {
        let body = self.fmt_body();
        self.lemma_fmt_body_fields();
        lemma_number(body, 0);
        lemma_number(body, 2);
        lemma_number(body, 4);
        lemma_number(body, 8);
        lemma_number(body, 12);
        lemma_number(body, 14);
        lemma_number(body, 16);
        lemma_number(body, 18);
        let speed = le32(self.byte_rate());
        lemma_le32(self.byte_rate());
        lemma_le16(2);
        assert(body.subrange(8, 12) =~= speed);
        assert(body[8] == speed[0] && body[9] == speed[1] && body[10] == speed[2] && body[11]
            == speed[3]);
        if body.len() >= 18 {
            let extra = if self.codec is ImaAdpcm {
                le16(2)
            } else {
                le16(0)
            };
            assert(body.subrange(16, 18) =~= extra);
            assert(body[16] == extra[0] && body[17] == extra[1]);
        }
        if body.len() == 20 {
            let frames = self.fields().frames_per_block;
            lemma_le16(frames);
            assert(body.subrange(18, 20) =~= le16(frames));
            assert(body[18] == le16(frames)[0] && body[19] == le16(frames)[1]);
        }
    }

    /// The bytes per second.
    proof fn lemma_speed(self)
        ensures
            match self.codec {
                WavCodec::Pcm(f) => {
                    let width = if f.sample == SampleFormat::I16 {
                        2int
                    } else {
                        4
                    };
                    let speed = f.sample_rate_hz * (width * f.channels);
                    &&& 0 <= width * f.channels <= 1020
                    &&& self.byte_rate() == (if speed > u32::MAX {
                        u32::MAX as int
                    } else {
                        speed
                    })
                },
                WavCodec::ImaAdpcm { sample_rate_hz, block_align, frames_per_block, .. } => {
                    let speed = self.byte_rate();
                    frames_per_block > 0 && sample_rate_hz * block_align <= u32::MAX ==> speed
                        * frames_per_block <= sample_rate_hz * block_align < (speed + 1)
                        * frames_per_block
                },
            },
    {
        match self.codec {
            WavCodec::Pcm(f) => {
                let width = f.sample.width() as int;
                let fw = width * f.channels;
                assert(0 <= fw <= 1020) by (nonlinear_arith)
                    requires
                        width == 2 || width == 4,
                        0 <= f.channels <= 255,
                        fw == width * f.channels,
                ;
                assert(f.frame_width() == fw);
                assert(f.sample_rate_hz * fw >= 0) by (nonlinear_arith)
                    requires
                        fw >= 0,
                ;
            },
            WavCodec::ImaAdpcm { sample_rate_hz, block_align, frames_per_block, .. } => {
                let product = sample_rate_hz * block_align;
                assert(product >= 0) by (nonlinear_arith)
                    requires
                        product == sample_rate_hz * block_align,
                ;
                if frames_per_block > 0 && product <= u32::MAX {
                    let m = frames_per_block as int;
                    vstd::arithmetic::div_mod::lemma_fundamental_div_mod(product, m);
                    vstd::arithmetic::div_mod::lemma_div_nonincreasing(product, m);
                    vstd::arithmetic::div_mod::lemma_div_pos_is_pos(product, m);
                    let q = product / m;
                    assert(q * m <= product < (q + 1) * m) by (nonlinear_arith)
                        requires
                            product == m * q + product % m,
                            0 <= product % m < m,
                    ;
                    vstd::arithmetic::div_mod::lemma_small_mod(q as nat, 4294967296);
                }
            },
        }
    }
}

/// A number in a part stands in the whole where the part does.
proof fn lemma_moved(whole: Seq<u8>, from: int, part: Seq<u8>, at: int, n: nat)
    requires
        0 <= from,
        from + part.len() <= whole.len(),
        whole.subrange(from, from + part.len()) == part,
        0 <= at,
        at + n <= part.len(),
    ensures
        number(whole, from + at, n) == number(part, at, n),
    decreases n,
{
    reveal_with_fuel(number, 2);
    if n > 0 {
        lemma_moved(whole, from, part, at + 1, (n - 1) as nat);
        assert(whole.subrange(from, from + part.len())[at] == part[at]);
    }
}

/// The fields of a body stand in a header where the body does.
proof fn lemma_fields_moved(b: Seq<u8>, body: Seq<u8>)
    requires
        16 <= body.len() <= 20,
        20 + body.len() <= b.len(),
        b.subrange(20, 20 + body.len() as int) == body,
    ensures
        number(b, 20, 2) == number(body, 0, 2),
        number(b, 22, 2) == number(body, 2, 2),
        number(b, 24, 4) == number(body, 4, 4),
        number(b, 28, 4) == number(body, 8, 4),
        number(b, 32, 2) == number(body, 12, 2),
        number(b, 34, 2) == number(body, 14, 2),
        body.len() >= 18 ==> number(b, 36, 2) == number(body, 16, 2),
        body.len() >= 20 ==> number(b, 38, 2) == number(body, 18, 2),
{
    lemma_moved(b, 20, body, 0, 2);
    lemma_moved(b, 20, body, 2, 2);
    lemma_moved(b, 20, body, 4, 4);
    lemma_moved(b, 20, body, 8, 4);
    lemma_moved(b, 20, body, 12, 2);
    lemma_moved(b, 20, body, 14, 2);
    if body.len() >= 18 {
        lemma_moved(b, 20, body, 16, 2);
    }
    if body.len() >= 20 {
        lemma_moved(b, 20, body, 18, 2);
    }
}

/// A name in a part stands in the whole where the part does.
proof fn lemma_name_moved(whole: Seq<u8>, from: int, part: Seq<u8>, at: int)
    requires
        0 <= from,
        from + part.len() <= whole.len(),
        whole.subrange(from, from + part.len()) == part,
        0 <= at,
        at + 4 <= part.len(),
    ensures
        name_at(whole, from + at) == name_at(part, at),
{
    reveal(name_at);
    let same = whole.subrange(from, from + part.len());
    assert(same[at] == part[at] && same[at + 1] == part[at + 1] && same[at + 2] == part[at + 2]
        && same[at + 3] == part[at + 3]);
}

proof fn lemma_front_parts(riff_len: u32)
    ensures
        ({
            let front = RIFF@ + le32(riff_len) + WAVE@;
            &&& front.len() == 12
            &&& name_at(front, 0) == ('R', 'I', 'F', 'F')
            &&& number(front, 4, 4) == riff_len
            &&& name_at(front, 8) == ('W', 'A', 'V', 'E')
        }),
{
    reveal(name_at);
    let front = RIFF@ + le32(riff_len) + WAVE@;
    let size = le32(riff_len);
    lemma_le32(riff_len);
    lemma_number(front, 4);
    assert(front[4] == size[0] && front[5] == size[1] && front[6] == size[2] && front[7]
        == size[3]);
    assert(front[0] == RIFF@[0] && front[1] == RIFF@[1] && front[2] == RIFF@[2] && front[3]
        == RIFF@[3]);
    assert(front[8] == WAVE@[0] && front[9] == WAVE@[1] && front[10] == WAVE@[2] && front[11]
        == WAVE@[3]);
}

proof fn lemma_tail_parts(data_len: u32)
    ensures
        ({
            let tail = DATA@ + le32(data_len);
            &&& tail.len() == 8
            &&& name_at(tail, 0) == ('d', 'a', 't', 'a')
            &&& number(tail, 4, 4) == data_len
        }),
{
    reveal(name_at);
    let tail = DATA@ + le32(data_len);
    let size = le32(data_len);
    lemma_le32(data_len);
    lemma_number(tail, 4);
    assert(tail[4] == size[0] && tail[5] == size[1] && tail[6] == size[2] && tail[7] == size[3]);
    assert(tail[0] == DATA@[0] && tail[1] == DATA@[1] && tail[2] == DATA@[2] && tail[3]
        == DATA@[3]);
}

proof fn lemma_chunk_parts(id: Seq<u8>, body: Seq<u8>)
    requires
        id.len() == 4,
        body.len() <= u32::MAX,
    ensures
        ({
            let c = chunk(id, body);
            &&& c.len() == 8 + body.len()
            &&& name_at(c, 0) == (id[0] as char, id[1] as char, id[2] as char, id[3] as char)
            &&& number(c, 4, 4) == body.len()
            &&& c.subrange(8, 8 + body.len() as int) == body
        }),
{
    reveal(name_at);
    let c = chunk(id, body);
    let size = le32(body.len() as u32);
    lemma_le32(body.len() as u32);
    lemma_number(c, 4);
    assert(c[4] == size[0] && c[5] == size[1] && c[6] == size[2] && c[7] == size[3]);
    assert(c.subrange(8, 8 + body.len() as int) =~= body);
}

/// Where the chunk after the one at `at` begins: behind its name, its size and so
/// many bytes, at an even distance.
pub open spec fn after_chunk(bytes: Seq<u8>, at: int) -> int {
    at + 8 + number(bytes, at + 4, 4) + number(bytes, at + 4, 4) % 2
}

/// From the chunk at `from` one comes to `to` over whole chunks, none of which is
/// named `data`, and whose `fmt ` chunks have at least 16 bytes.
pub open spec fn walks(bytes: Seq<u8>, from: int, to: int) -> bool
    decreases bytes.len() - from,
{
    from == to || {
        &&& 0 <= from
        &&& from + 8 <= bytes.len()
        &&& from < after_chunk(bytes, from) <= bytes.len()
        &&& name_at(bytes, from) != ('d', 'a', 't', 'a')
        &&& name_at(bytes, from) == ('f', 'm', 't', ' ') ==> number(bytes, from + 4, 4) >= 16
        &&& walks(bytes, after_chunk(bytes, from), to)
    }
}

/// The last `fmt ` chunk on the way from `from` to `to`, or `seen` if there is
/// none.
pub open spec fn last_fmt(bytes: Seq<u8>, from: int, to: int, seen: Option<int>) -> Option<int>
    decreases bytes.len() - from,
{
    if from == to || !(0 <= from < after_chunk(bytes, from) <= bytes.len()) {
        seen
    } else {
        last_fmt(
            bytes,
            after_chunk(bytes, from),
            to,
            if name_at(bytes, from) == ('f', 'm', 't', ' ') {
                Some(from)
            } else {
                seen
            },
        )
    }
}

/// The number of frames that the last `fact` chunk on the way tells, or `told` if
/// none does.
pub open spec fn last_fact(bytes: Seq<u8>, from: int, to: int, told: int) -> int
    decreases bytes.len() - from,
{
    if from == to || !(0 <= from < after_chunk(bytes, from) <= bytes.len()) {
        told
    } else {
        last_fact(
            bytes,
            after_chunk(bytes, from),
            to,
            if name_at(bytes, from) == ('f', 'a', 'c', 't') && number(bytes, from + 4, 4) >= 4 {
                number(bytes, from + 8, 4)
            } else {
                told
            },
        )
    }
}

/// The fields of the `fmt ` chunk at a place.
spec fn fields_at(bytes: Seq<u8>, place: Option<int>) -> Option<FmtFields> {
    match place {
        Some(p) => Some(fmt_fields(bytes.skip(p + 8), u32_in(bytes, p + 4))),
        None => None,
    }
}

proof fn lemma_names(bytes: Seq<u8>, at: int)
    requires
        0 <= at,
        at + 8 <= bytes.len(),
    ensures
        bytes.skip(at).take(4) == DATA@ <==> name_at(bytes, at) == ('d', 'a', 't', 'a'),
        bytes.skip(at).take(4) == FMT@ <==> name_at(bytes, at) == ('f', 'm', 't', ' '),
        bytes.skip(at).take(4) == FACT@ <==> name_at(bytes, at) == ('f', 'a', 'c', 't'),
        u32_in(bytes.skip(at), 4) == u32_in(bytes, at + 4),
        number(bytes, at + 4, 4) == u32_in(bytes, at + 4),
{
    reveal(name_at);
    let id = bytes.skip(at).take(4);
    lemma_number(bytes, at + 4);
    assert(id[0] == bytes[at] && id[1] == bytes[at + 1] && id[2] == bytes[at + 2] && id[3]
        == bytes[at + 3]);
    let (a, b, c, d) = (bytes[at], bytes[at + 1], bytes[at + 2], bytes[at + 3]);
    assert(name_at(bytes, at) == ('d', 'a', 't', 'a') <==> a == 100 && b == 97 && c == 116 && d
        == 97);
    assert(name_at(bytes, at) == ('f', 'm', 't', ' ') <==> a == 102 && b == 109 && c == 116 && d
        == 32);
    assert(name_at(bytes, at) == ('f', 'a', 'c', 't') <==> a == 102 && b == 97 && c == 99 && d
        == 116);
    if a == 100 && b == 97 && c == 116 && d == 97 {
        assert(id =~= DATA@);
    }
    if a == 102 && b == 109 && c == 116 && d == 32 {
        assert(id =~= FMT@);
    }
    if a == 102 && b == 97 && c == 99 && d == 116 {
        assert(id =~= FACT@);
    }
}

proof fn lemma_scan_walks(bytes: Seq<u8>, from: int, to: int, seen: Option<int>, told: u32)
    requires
        0 <= from <= bytes.len(),
        walks(bytes, from, to),
    ensures
        from <= to <= bytes.len(),
        0 <= last_fact(bytes, from, to, told as int) <= u32::MAX,
        scan(bytes.skip(from), fields_at(bytes, seen), told) == moved(
            scan(
                bytes.skip(to),
                fields_at(bytes, last_fmt(bytes, from, to, seen)),
                last_fact(bytes, from, to, told as int) as u32,
            ),
            to - from,
        ),
    decreases bytes.len() - from,
{
    if from != to {
        reveal_with_fuel(scan, 2);
        let rest = bytes.skip(from);
        let next = after_chunk(bytes, from);
        lemma_names(bytes, from);
        lemma_number(bytes, from + 8);
        let is_fmt = name_at(bytes, from) == ('f', 'm', 't', ' ');
        let size = u32_in(bytes, from + 4);
        let seen2 = if is_fmt {
            Some(from)
        } else {
            seen
        };
        let told2 = if name_at(bytes, from) == ('f', 'a', 'c', 't') && size >= 4 {
            u32_in(bytes, from + 8)
        } else {
            told
        };
        assert(rest.skip(next - from) =~= bytes.skip(next));
        assert(rest.skip(8) =~= bytes.skip(from + 8));
        if size >= 4 {
            assert(u32_in(rest, 8) == u32_in(bytes, from + 8));
        }
        lemma_scan_walks(bytes, next, to, seen2, told2);
        assert(scan(rest, fields_at(bytes, seen), told) == moved(
            scan(bytes.skip(next), fields_at(bytes, seen2), told2),
            next - from,
        ));
    } else {
        assert(scan(bytes.skip(from), fields_at(bytes, seen), told) == moved(
            scan(bytes.skip(to), fields_at(bytes, seen), told),
            0,
        ));
    }
}

proof fn lemma_scan_found(bytes: Seq<u8>, from: int, fmt: Option<FmtFields>, told: u32)
    requires
        0 <= from <= bytes.len(),
        scan(bytes.skip(from), fmt, told) is Ok,
    ensures
        ({
            let d = from + scan(bytes.skip(from), fmt, told)->Ok_0.1 - 8;
            &&& from <= d
            &&& d + 8 <= bytes.len()
            &&& walks(bytes, from, d)
            &&& name_at(bytes, d) == ('d', 'a', 't', 'a')
        }),
    decreases bytes.len() - from,
{
    reveal_with_fuel(scan, 2);
    let rest = bytes.skip(from);
    lemma_names(bytes, from);
    if rest.take(4) != DATA@ {
        let next = after_chunk(bytes, from);
        let size = u32_in(rest, 4);
        assert(rest.skip(next - from) =~= bytes.skip(next));
        let fmt2 = if rest.take(4) == FMT@ {
            Some(fmt_fields(rest.skip(8), size))
        } else {
            fmt
        };
        let told2 = if rest.take(4) == FACT@ && size >= 4 {
            u32_in(rest, 8)
        } else {
            told
        };
        assert(scan(rest, fmt, told) == moved(scan(bytes.skip(next), fmt2, told2), next - from));
        lemma_scan_found(bytes, next, fmt2, told2);
    }
}

/// Where a reader finds a header: the file begins with `RIFF` and `WAVE`, and over
/// whole chunks one comes to one named `data`; what follows is the data.
pub proof fn lemma_parse_finds_the_data(bytes: Seq<u8>)
    requires
        parsed(bytes) is Ok,
    ensures
        ({
            let d = parsed(bytes)->Ok_0.1 - 8;
            &&& 12 <= d
            &&& d + 8 <= bytes.len()
            &&& name_at(bytes, 0) == ('R', 'I', 'F', 'F')
            &&& name_at(bytes, 8) == ('W', 'A', 'V', 'E')
            &&& walks(bytes, 12, d)
            &&& name_at(bytes, d) == ('d', 'a', 't', 'a')
        }),
{
    reveal(parsed);
    lemma_scan_found(bytes, 12, None, 0);
    lemma_riff_names(bytes);
}

proof fn lemma_riff_names(bytes: Seq<u8>)
    requires
        bytes.len() >= 12,
    ensures
        bytes.take(4) == RIFF@ <==> name_at(bytes, 0) == ('R', 'I', 'F', 'F'),
        bytes.subrange(8, 12) == WAVE@ <==> name_at(bytes, 8) == ('W', 'A', 'V', 'E'),
{
    reveal(name_at);
    let (r, w) = (bytes.take(4), bytes.subrange(8, 12));
    assert(r[0] == bytes[0] && r[1] == bytes[1] && r[2] == bytes[2] && r[3] == bytes[3]);
    assert(w[0] == bytes[8] && w[1] == bytes[9] && w[2] == bytes[10] && w[3] == bytes[11]);
    assert(name_at(bytes, 0) == ('R', 'I', 'F', 'F') <==> bytes[0] == 82 && bytes[1] == 73
        && bytes[2] == 70 && bytes[3] == 70);
    assert(name_at(bytes, 8) == ('W', 'A', 'V', 'E') <==> bytes[8] == 87 && bytes[9] == 65
        && bytes[10] == 86 && bytes[11] == 69);
    if bytes[0] == 82 && bytes[1] == 73 && bytes[2] == 70 && bytes[3] == 70 {
        assert(r =~= RIFF@);
    }
    if bytes[8] == 87 && bytes[9] == 65 && bytes[10] == 86 && bytes[11] == 69 {
        assert(w =~= WAVE@);
    }
}

/// What a reader makes of a file in which it comes to a `data` chunk at `d`. The
/// last `fmt ` chunk before it tells the codec: the tags 1, 3 and 0x11 are integer,
/// floating-point and ADPCM samples. Frames are those of the last `fact` chunk, or
/// as many as the data holds. No rate, no channels or too many, no frames in a
/// block, or no `fmt ` chunk at all are no format; what else is not known is not
/// supported.
pub proof fn lemma_parse_reads_the_chunks(bytes: Seq<u8>, d: int)
    requires
        bytes.len() >= 12,
        name_at(bytes, 0) == ('R', 'I', 'F', 'F'),
        name_at(bytes, 8) == ('W', 'A', 'V', 'E'),
        walks(bytes, 12, d),
        d + 8 <= bytes.len(),
        name_at(bytes, d) == ('d', 'a', 't', 'a'),
    ensures
        match last_fmt(bytes, 12, d, None) {
            None => parsed(bytes) == Err::<(WavHeader, int), Error>(Error::InvalidFormat),
            Some(p) => {
                let size = number(bytes, p + 4, 4);
                let tag = number(bytes, p + 8, 2);
                let channels = number(bytes, p + 10, 2);
                let rate = number(bytes, p + 12, 4);
                let align = number(bytes, p + 20, 2);
                let bits = number(bytes, p + 22, 2);
                let told = last_fact(bytes, 12, d, 0);
                let data_len = number(bytes, d + 4, 4);
                let usable = 1 <= channels <= 255 && rate > 0;
                let pcm = tag == 1 && (bits == 16 || bits == 32) || tag == 3 && bits == 32;
                let ima = tag == 0x11 && bits == 4;
                let blocks = size >= 20 && number(bytes, p + 24, 2) >= 2 && number(
                    bytes,
                    p + 26,
                    2,
                ) > 0;
                &&& !usable || ima && !blocks ==> parsed(bytes) == Err::<(WavHeader, int), Error>(
                    Error::InvalidFormat,
                )
                &&& usable && !pcm && !ima ==> parsed(bytes) == Err::<(WavHeader, int), Error>(
                    Error::Unsupported,
                )
                &&& usable && (pcm || ima && blocks) ==> {
                    &&& parsed(bytes) is Ok
                    &&& parsed(bytes)->Ok_0.1 == d + 8
                    &&& parsed(bytes)->Ok_0.0.data_len == data_len
                }
                &&& usable && pcm ==> {
                    let h = parsed(bytes)->Ok_0.0;
                    let f = h.codec->Pcm_0;
                    &&& h.codec is Pcm
                    &&& f.sample_rate_hz == rate
                    &&& f.channels == channels
                    &&& f.sample == (if tag == 3 {
                        SampleFormat::F32
                    } else if bits == 16 {
                        SampleFormat::I16
                    } else {
                        SampleFormat::I32
                    })
                    &&& told != 0 ==> h.total_frames == told
                    &&& told == 0 && data_len == u32::MAX ==> h.total_frames == 0
                    &&& told == 0 && data_len != u32::MAX ==> h.total_frames == data_len / (bits / 8
                        * channels)
                }
                &&& usable && ima && blocks ==> {
                    let h = parsed(bytes)->Ok_0.0;
                    &&& h.codec == (WavCodec::ImaAdpcm {
                        sample_rate_hz: rate as u32,
                        channels: channels as u8,
                        block_align: align as u16,
                        frames_per_block: number(bytes, p + 26, 2) as u16,
                    })
                    &&& h.total_frames == told
                }
            },
        },
{
    reveal(parsed);
    reveal_with_fuel(scan, 2);
    lemma_riff_names(bytes);
    lemma_scan_walks(bytes, 12, d, None, 0);
    lemma_names(bytes, d);
    let place = last_fmt(bytes, 12, d, None);
    let told = last_fact(bytes, 12, d, 0) as u32;
    assert(scan(bytes.skip(12), None, 0) == moved(
        scan(bytes.skip(d), fields_at(bytes, place), told),
        d - 12,
    ));
    if let Some(p) = place {
        lemma_fmt_is_inside(bytes, 12, d, None);
        lemma_number(bytes, p + 4);
        lemma_number(bytes, p + 8);
        lemma_number(bytes, p + 10);
        lemma_number(bytes, p + 12);
        lemma_number(bytes, p + 20);
        lemma_number(bytes, p + 22);
        lemma_number(bytes, p + 24);
        lemma_number(bytes, p + 26);
        lemma_fields_at(bytes, p);
        let f = fields_at(bytes, place)->0;
        assert(scan(bytes.skip(d), Some(f), told) == (match describe(
            Some(f),
            u32_in(bytes, d + 4),
            told,
        ) {
            Ok(header) => Ok::<(WavHeader, int), Error>((header, 8)),
            Err(e) => Err(e),
        }));
        if 1 <= f.channels <= 255 {
            let w = f.bits as int / 8;
            let channels = f.channels as u8 as int;
            let data_len = u32_in(bytes, d + 4) as int;
            if f.bits == 16 || f.bits == 32 {
                assert(w * channels > 0) by (nonlinear_arith)
                    requires
                        w == 2 || w == 4,
                        channels >= 1,
                ;
                vstd::arithmetic::div_mod::lemma_div_nonincreasing(data_len, w * channels);
                vstd::arithmetic::div_mod::lemma_div_pos_is_pos(data_len, w * channels);
            }
        }
    }
}

proof fn lemma_fields_at(bytes: Seq<u8>, p: int)
    requires
        0 <= p,
        p + 24 <= bytes.len(),
        u32_in(bytes, p + 4) >= 20 ==> p + 28 <= bytes.len(),
    ensures
        ({
            let f = fields_at(bytes, Some(p))->0;
            &&& f.tag == u16_in(bytes, p + 8)
            &&& f.channels == u16_in(bytes, p + 10)
            &&& f.rate == u32_in(bytes, p + 12)
            &&& f.align == u16_in(bytes, p + 20)
            &&& f.bits == u16_in(bytes, p + 22)
            &&& f.frames_per_block == (if u32_in(bytes, p + 4) >= 20 && u16_in(bytes, p + 24) >= 2 {
                u16_in(bytes, p + 26)
            } else {
                0
            })
        }),
{
    let body = bytes.skip(p + 8);
    assert(body[0] == bytes[p + 8] && body[1] == bytes[p + 9]);
    assert(body[2] == bytes[p + 10] && body[3] == bytes[p + 11]);
    assert(u32_in(body, 4) == u32_in(bytes, p + 12));
    assert(u16_in(body, 12) == u16_in(bytes, p + 20));
    assert(u16_in(body, 14) == u16_in(bytes, p + 22));
    if u32_in(bytes, p + 4) >= 20 {
        assert(u16_in(body, 16) == u16_in(bytes, p + 24));
        assert(u16_in(body, 18) == u16_in(bytes, p + 26));
    }
}

proof fn lemma_fmt_is_inside(bytes: Seq<u8>, from: int, to: int, seen: Option<int>)
    requires
        0 <= from,
        walks(bytes, from, to),
        seen matches Some(p) ==> 0 <= p && p + 24 <= bytes.len() && (u32_in(bytes, p + 4) >= 20
            ==> p + 28 <= bytes.len()),
    ensures
        last_fmt(bytes, from, to, seen) matches Some(p) ==> 0 <= p && p + 24 <= bytes.len() && (
        u32_in(bytes, p + 4) >= 20 ==> p + 28 <= bytes.len()),
    decreases bytes.len() - from,
{
    if from != to {
        lemma_names(bytes, from);
        let is_fmt = name_at(bytes, from) == ('f', 'm', 't', ' ');
        lemma_fmt_is_inside(
            bytes,
            after_chunk(bytes, from),
            to,
            if is_fmt {
                Some(from)
            } else {
                seen
            },
        );
    }
}

/// What a reader finds no `data` chunk in is no format; nothing else is answered of
/// it, and of no file anything but success, no format, or not supported.
pub proof fn lemma_parse_without_data(bytes: Seq<u8>)
    ensures
        parsed(bytes) is Err ==> parsed(bytes)->Err_0 == Error::InvalidFormat || parsed(
            bytes,
        )->Err_0 == Error::Unsupported,
        parsed(bytes) is Err && parsed(bytes)->Err_0 == Error::Unsupported ==> {
            &&& bytes.len() >= 20
            &&& name_at(bytes, 0) == ('R', 'I', 'F', 'F')
            &&& name_at(bytes, 8) == ('W', 'A', 'V', 'E')
            &&& exists|d: int|
                12 <= d && d + 8 <= bytes.len() && #[trigger] walks(bytes, 12, d) && name_at(
                    bytes,
                    d,
                ) == ('d', 'a', 't', 'a')
        },
{
    reveal(parsed);
    if bytes.len() >= 12 {
        lemma_riff_names(bytes);
        lemma_scan_refused(bytes, 12, None, 0);
    }
}

proof fn lemma_scan_refused(bytes: Seq<u8>, from: int, fmt: Option<FmtFields>, told: u32)
    requires
        0 <= from <= bytes.len(),
    ensures
        ({
            let r = scan(bytes.skip(from), fmt, told);
            &&& r is Err ==> r->Err_0 == Error::InvalidFormat || r->Err_0 == Error::Unsupported
            &&& r is Err && r->Err_0 == Error::Unsupported ==> exists|d: int|
                from <= d && d + 8 <= bytes.len() && #[trigger] walks(bytes, from, d) && name_at(
                    bytes,
                    d,
                ) == ('d', 'a', 't', 'a')
        }),
    decreases bytes.len() - from,
{
    reveal_with_fuel(scan, 2);
    let rest = bytes.skip(from);
    if rest.len() >= 8 {
        lemma_names(bytes, from);
        let next = after_chunk(bytes, from);
        let size = u32_in(rest, 4);
        if rest.take(4) == DATA@ {
            assert(walks(bytes, from, from));
        } else if next <= bytes.len() && !(rest.take(4) == FMT@ && size < 16) {
            assert(rest.skip(next - from) =~= bytes.skip(next));
            let fmt2 = if rest.take(4) == FMT@ {
                Some(fmt_fields(rest.skip(8), size))
            } else {
                fmt
            };
            let told2 = if rest.take(4) == FACT@ && size >= 4 {
                u32_in(rest, 8)
            } else {
                told
            };
            lemma_scan_refused(bytes, next, fmt2, told2);
            let r = scan(bytes.skip(next), fmt2, told2);
            assert(scan(rest, fmt, told) == moved(r, next - from));
            if r is Err && r->Err_0 == Error::Unsupported {
                let d = choose|d: int|
                    next <= d && d + 8 <= bytes.len() && #[trigger] walks(bytes, next, d) && name_at(
                        bytes,
                        d,
                    ) == ('d', 'a', 't', 'a');
                assert(walks(bytes, from, d));
            }
        }
    }
}

} // verus!
