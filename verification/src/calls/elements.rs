//! Calls of the elements.

use vstd::prelude::*;

use crate::bytes::sample_in;
use crate::codec::pcm::{convert, converted, word};
use crate::elements::channels::{
    lemma_mix_is_the_sum, lemma_mono_to_stereo_block, lemma_stereo_to_mono_block, mix_i16,
    MonoToStereo, StereoToMono,
};
use crate::elements::gain::{
    gain_narrow, gain_wide, lemma_gain_block, lemma_gain_rounds_to_the_nearest, scaled, Gain,
};
use crate::elements::resample::{
    lemma_frames_bound_is_tight, lemma_resampler_block, LinearResampler, ResamplerCall,
};
use crate::elements::vad::{
    lemma_detector_moves, lemma_gated_or_passed, lemma_vad_block, EnergyVad, VadConfig,
};
use crate::esp_core::error::{Error, Result};
use crate::esp_core::pcm::{PcmBlock, SampleFormat};
use crate::level::{
    lemma_levels_compare_as_numbers, measurable, number_of_bits, peak_abs_i16, rms_bits, Level,
};
use crate::pipeline::Element;

verus! {

/// `y` is the nearest whole number to `x` times `q15 / 2^15`, the upper of two
/// equally near, or the bound of 16 bits that this exceeds.
pub open spec fn nearest(q15: i32, x: i16, y: i16) -> bool {
    let off = x * q15 - 32768 * y;
    -16384 <= off < 16384 || y == 32767 && off >= 16384 || y == -32768 && off < -16384
}

/// Every call of [`Gain::apply`] gives the nearest sample; [`Gain::from_q15`] keeps
/// every factor up to 1024 times unity, and stops there.
pub proof fn law_gain(x: i16, y: i16, q15: i32, gain: Gain)
    ensures
        call_ensures(Gain::apply, (&gain, x), y) ==> nearest(gain.q15, x, y),
        call_ensures(Gain::from_q15, (q15,), gain) ==> gain.q15 == (if q15 > 33_554_432 {
            33_554_432
        } else if q15 < -33_554_432 {
            -33_554_432
        } else {
            q15 as int
        }),
        call_ensures(Gain::unity, (), gain) ==> gain.q15 == 32768,
        call_ensures(Gain::q15, (&gain,), q15) ==> q15 == gain.q15,
{
    lemma_gain_rounds_to_the_nearest(gain.q15, x);
}

/// Every call of the two loops over samples, [`gain_narrow`] and [`gain_wide`], gives
/// the nearest sample in each place.
pub proof fn law_gain_over_samples(src: &[i16], g: i32)
    ensures
        forall|dst: &mut [i16]| #[trigger]
            call_ensures(gain_narrow, (src, g, dst), ()) && dst@.len() == src@.len() ==> {
                &&& final(dst)@.len() == src@.len()
                &&& forall|i: int|
                    0 <= i < src@.len() ==> nearest(g, src@[i], #[trigger] final(dst)@[i])
            },
        forall|dst: &mut [i16]| #[trigger]
            call_ensures(gain_wide, (src, g, dst), ()) && dst@.len() == src@.len() ==> {
                &&& final(dst)@.len() == src@.len()
                &&& forall|i: int|
                    0 <= i < src@.len() ==> nearest(g, src@[i], #[trigger] final(dst)@[i])
            },
{
    assert forall|i: int| 0 <= i < src@.len() implies nearest(
        g,
        #[trigger] src@[i],
        scaled(g, src@[i]),
    ) by {
        lemma_gain_rounds_to_the_nearest(g, src@[i]);
    }
}

/// Of `n` bytes the rest of a buffer is as it was.
pub open spec fn rest_stays(before: Seq<u8>, after: Seq<u8>, n: int) -> bool {
    &&& after.len() == before.len()
    &&& forall|i: int| n <= i < before.len() ==> #[trigger] after[i] == before[i]
}

/// Every call of a gain's `process`: the nearest sample in each place.
pub proof fn law_gain_process(input: PcmBlock<'_>, r: Result<usize>)
    requires
        input@.well_formed(),
        input@.data.len() <= usize::MAX,
    ensures
        forall|g: &mut Gain, out: &mut [u8]| #[trigger]
            call_ensures(<Gain as Element>::process, (g, input, out), r) ==> {
                let n = input@.data.len() as int;
                let fits = input@.format.sample == SampleFormat::I16;
                &&& final(g).q15 == g.q15
                &&& !fits ==> r == Err::<usize, Error>(Error::Unsupported)
                &&& fits && out@.len() < n ==> r == Err::<usize, Error>(
                    Error::BufferTooSmall { needed: n as usize },
                )
                &&& fits && out@.len() >= n ==> r == Ok::<usize, Error>(n as usize)
                &&& r is Err ==> final(out)@ == out@
                &&& r is Ok ==> rest_stays(out@, final(out)@, n)
                &&& r is Ok ==> forall|i: int|
                    0 <= i && 2 * i + 1 < n ==> nearest(
                        g.q15,
                        sample_in(input@.data, i),
                        #[trigger] sample_in(final(out)@, i),
                    )
            },
{
    assert forall|g: &mut Gain, out: &mut [u8]| #[trigger]
        call_ensures(<Gain as Element>::process, (g, input, out), r) implies {
        let n = input@.data.len() as int;
        let fits = input@.format.sample == SampleFormat::I16;
        &&& final(g).q15 == g.q15
        &&& !fits ==> r == Err::<usize, Error>(Error::Unsupported)
        &&& fits && out@.len() < n ==> r == Err::<usize, Error>(
            Error::BufferTooSmall { needed: n as usize },
        )
        &&& fits && out@.len() >= n ==> r == Ok::<usize, Error>(n as usize)
        &&& r is Err ==> final(out)@ == out@
        &&& r is Ok ==> rest_stays(out@, final(out)@, n)
        &&& r is Ok ==> forall|i: int|
            0 <= i && 2 * i + 1 < n ==> nearest(
                g.q15,
                sample_in(input@.data, i),
                #[trigger] sample_in(final(out)@, i),
            )
    } by {
        lemma_gain_block(*g, input@, out@, r, final(out)@, final(g).memory());
    }
}

/// Every call of [`StereoToMono`]'s `process`: twice each sample is the sum of its
/// two, or one less.
pub proof fn law_stereo_to_mono(input: PcmBlock<'_>, r: Result<usize>)
    requires
        input@.well_formed(),
        input@.data.len() <= usize::MAX,
        input@.format.sample_rate_hz > 0,
    ensures
        forall|s: &mut StereoToMono, out: &mut [u8]| #[trigger]
            call_ensures(<StereoToMono as Element>::process, (s, input, out), r) ==> {
                let n = input@.data.len() as int;
                let fits = input@.format.sample == SampleFormat::I16 && input@.format.channels == 2;
                &&& r is Ok <==> fits && out@.len() >= n / 2
                &&& r is Err ==> final(out)@ == out@
                &&& r is Ok ==> r->Ok_0 == n / 2 && rest_stays(out@, final(out)@, n / 2)
                &&& r is Ok ==> forall|i: int|
                    0 <= i && 4 * i + 3 < n ==> {
                        let both = sample_in(input@.data, 2 * i) + sample_in(
                            input@.data,
                            2 * i + 1,
                        );
                        let twice = 2 * #[trigger] sample_in(final(out)@, i);
                        twice == both || twice == both - 1
                    }
            },
{
    assert forall|s: &mut StereoToMono, out: &mut [u8]| #[trigger]
        call_ensures(<StereoToMono as Element>::process, (s, input, out), r) implies {
        let n = input@.data.len() as int;
        let fits = input@.format.sample == SampleFormat::I16 && input@.format.channels == 2;
        &&& r is Ok <==> fits && out@.len() >= n / 2
        &&& r is Err ==> final(out)@ == out@
        &&& r is Ok ==> r->Ok_0 == n / 2 && rest_stays(out@, final(out)@, n / 2)
        &&& r is Ok ==> forall|i: int|
            0 <= i && 4 * i + 3 < n ==> {
                let both = sample_in(input@.data, 2 * i) + sample_in(input@.data, 2 * i + 1);
                let twice = 2 * #[trigger] sample_in(final(out)@, i);
                twice == both || twice == both - 1
            }
    } by {
        assert(input@.format.sample == SampleFormat::I16 && input@.format.channels == 2
            ==> input@.format.frame_width() == 4);
        lemma_stereo_to_mono_block(*s, input@, out@, r, final(out)@, final(s).memory());
    }
}

/// Every call of [`MonoToStereo`]'s `process`: each sample twice in a row.
pub proof fn law_mono_to_stereo(input: PcmBlock<'_>, r: Result<usize>)
    requires
        input@.well_formed(),
        2 * input@.data.len() <= usize::MAX,
        input@.format.sample_rate_hz > 0,
    ensures
        forall|s: &mut MonoToStereo, out: &mut [u8]| #[trigger]
            call_ensures(<MonoToStereo as Element>::process, (s, input, out), r) ==> {
                let n = input@.data.len() as int;
                let fits = input@.format.sample == SampleFormat::I16 && input@.format.channels == 1;
                &&& r is Ok <==> fits && out@.len() >= 2 * n
                &&& r is Err ==> final(out)@ == out@
                &&& r is Ok ==> r->Ok_0 == 2 * n && rest_stays(out@, final(out)@, 2 * n)
                &&& r is Ok ==> forall|i: int|
                    0 <= i && 2 * i + 1 < n ==> {
                        &&& sample_in(final(out)@, 2 * i) == #[trigger] sample_in(input@.data, i)
                        &&& sample_in(final(out)@, 2 * i + 1) == sample_in(input@.data, i)
                    }
            },
{
    assert forall|s: &mut MonoToStereo, out: &mut [u8]| #[trigger]
        call_ensures(<MonoToStereo as Element>::process, (s, input, out), r) implies {
        let n = input@.data.len() as int;
        let fits = input@.format.sample == SampleFormat::I16 && input@.format.channels == 1;
        &&& r is Ok <==> fits && out@.len() >= 2 * n
        &&& r is Err ==> final(out)@ == out@
        &&& r is Ok ==> r->Ok_0 == 2 * n && rest_stays(out@, final(out)@, 2 * n)
        &&& r is Ok ==> forall|i: int|
            0 <= i && 2 * i + 1 < n ==> {
                &&& sample_in(final(out)@, 2 * i) == #[trigger] sample_in(input@.data, i)
                &&& sample_in(final(out)@, 2 * i + 1) == sample_in(input@.data, i)
            }
    } by {
        lemma_mono_to_stereo_block(*s, input@, out@, r, final(out)@, final(s).memory());
    }
}

/// `y` is `v`, or the bound of 16 bits that `v` exceeds.
pub open spec fn held_in_16_bits(v: int, y: int) -> bool {
    &&& -32768 <= v <= 32767 ==> y == v
    &&& v > 32767 ==> y == 32767
    &&& v < -32768 ==> y == -32768
}

/// Every call of [`mix_i16`]: the sum in each place, or the bound it exceeds.
pub proof fn law_mix(a: &[u8], b: &[u8], r: Result<()>)
    requires
        a@.len() <= usize::MAX,
    ensures
        forall|out: &mut [u8]| #[trigger]
            call_ensures(mix_i16, (a, b, out), r) && out@.len() <= usize::MAX ==> {
                &&& r is Ok <==> a@.len() == b@.len() && a@.len() % 2 == 0 && out@.len() >= a@.len()
                &&& r is Err ==> final(out)@ == out@
                &&& r is Ok ==> rest_stays(out@, final(out)@, a@.len() as int)
                &&& r is Ok ==> forall|i: int|
                    0 <= i && 2 * i + 1 < a@.len() ==> held_in_16_bits(
                        sample_in(a@, i) + sample_in(b@, i),
                        #[trigger] sample_in(final(out)@, i) as int,
                    )
            },
{
    assert forall|out: &mut [u8]| #[trigger]
        call_ensures(mix_i16, (a, b, out), r) && out@.len() <= usize::MAX implies {
        &&& r is Ok <==> a@.len() == b@.len() && a@.len() % 2 == 0 && out@.len() >= a@.len()
        &&& r is Err ==> final(out)@ == out@
        &&& r is Ok ==> rest_stays(out@, final(out)@, a@.len() as int)
        &&& r is Ok ==> forall|i: int|
            0 <= i && 2 * i + 1 < a@.len() ==> held_in_16_bits(
                sample_in(a@, i) + sample_in(b@, i),
                #[trigger] sample_in(final(out)@, i) as int,
            )
    } by {
        lemma_mix_is_the_sum(a@, b@, out@.len(), 0);
        if r is Ok {
            let y = crate::elements::channels::mixed(
                crate::bytes::decode16(a@),
                crate::bytes::decode16(b@),
            );
            crate::bytes::lemma_samples_of_the_front(out@, y);
            assert forall|i: int| 0 <= i && 2 * i + 1 < a@.len() implies held_in_16_bits(
                sample_in(a@, i) + sample_in(b@, i),
                #[trigger] sample_in(final(out)@, i) as int,
            ) by {
                lemma_mix_is_the_sum(a@, b@, out@.len(), i);
            }
        }
    }
}

/// Every call of a detector's `judge`: speech is a level that reaches the
/// threshold, or comes while some hangover is left; and what is left of it is all
/// after a loud block, and one block less after a quiet one.
pub proof fn law_judge(level: Level, r: bool)
    ensures
        forall|v: &mut EnergyVad| #[trigger]
            call_ensures(EnergyVad::judge, (v, level), r) ==> {
                let loud = {
                    &&& level.bits as int % 0x8000_0000 <= 0x7F80_0000
                    &&& v.cfg.threshold_dbfs.bits as int % 0x8000_0000 <= 0x7F80_0000
                    &&& number_of_bits(level.bits) >= number_of_bits(v.cfg.threshold_dbfs.bits)
                };
                &&& r == (loud || v.hang > 0)
                &&& final(v).speech == r
                &&& final(v).cfg == v.cfg
                &&& final(v).last_level_dbfs == level
                &&& final(v).hang == (if loud {
                    v.cfg.hangover_blocks as int
                } else if v.hang > 0 {
                    v.hang - 1
                } else {
                    0
                })
                &&& v.blocks < u64::MAX ==> final(v).blocks == v.blocks + 1
                &&& v.speech_blocks < u64::MAX ==> final(v).speech_blocks == v.speech_blocks + (
                if r {
                    1int
                } else {
                    0
                })
            },
{
    assert forall|v: &mut EnergyVad| #[trigger]
        call_ensures(EnergyVad::judge, (v, level), r) implies {
        let loud = {
            &&& level.bits as int % 0x8000_0000 <= 0x7F80_0000
            &&& v.cfg.threshold_dbfs.bits as int % 0x8000_0000 <= 0x7F80_0000
            &&& number_of_bits(level.bits) >= number_of_bits(v.cfg.threshold_dbfs.bits)
        };
        &&& r == (loud || v.hang > 0)
        &&& final(v).speech == r
        &&& final(v).cfg == v.cfg
        &&& final(v).last_level_dbfs == level
        &&& final(v).hang == (if loud {
            v.cfg.hangover_blocks as int
        } else if v.hang > 0 {
            v.hang - 1
        } else {
            0
        })
        &&& v.blocks < u64::MAX ==> final(v).blocks == v.blocks + 1
        &&& v.speech_blocks < u64::MAX ==> final(v).speech_blocks == v.speech_blocks + (if r {
            1int
        } else {
            0
        })
    } by {
        lemma_levels_compare_as_numbers(level, v.cfg.threshold_dbfs);
        lemma_detector_moves(*v, level);
    }
}

/// Every call of a detector's `process_at`: a block that is not speech comes out as
/// zeros where the detector gates; every other comes out as it went in.
pub proof fn law_process_at(input: PcmBlock<'_>, level: Level, r: Result<usize>)
    requires
        input@.data.len() <= usize::MAX,
    ensures
        forall|v: &mut EnergyVad, out: &mut [u8]| #[trigger]
            call_ensures(EnergyVad::process_at, (v, input, level, out), r) ==> {
                let n = input@.data.len() as int;
                &&& r is Ok <==> input@.format.sample == SampleFormat::I16 && input@.format.channels
                    <= 2 && out@.len() >= n
                &&& r is Err ==> final(out)@ == out@ && *final(v) == *v
                &&& r is Ok ==> r->Ok_0 == n && rest_stays(out@, final(out)@, n)
                &&& r is Ok && v.cfg.gate && !final(v).speech ==> forall|i: int|
                    0 <= i < n ==> #[trigger] final(out)@[i] == 0
                &&& r is Ok && (!v.cfg.gate || final(v).speech) ==> forall|i: int|
                    0 <= i < n ==> #[trigger] final(out)@[i] == input@.data[i]
                &&& r is Ok ==> final(v).speech == (level.reaches(v.cfg.threshold_dbfs) || v.hang
                    > 0)
            },
{
    assert forall|v: &mut EnergyVad, out: &mut [u8]| #[trigger]
        call_ensures(EnergyVad::process_at, (v, input, level, out), r) implies {
        let n = input@.data.len() as int;
        &&& r is Ok <==> input@.format.sample == SampleFormat::I16 && input@.format.channels <= 2
            && out@.len() >= n
        &&& r is Err ==> final(out)@ == out@ && *final(v) == *v
        &&& r is Ok ==> r->Ok_0 == n && rest_stays(out@, final(out)@, n)
        &&& r is Ok && v.cfg.gate && !final(v).speech ==> forall|i: int|
            0 <= i < n ==> #[trigger] final(out)@[i] == 0
        &&& r is Ok && (!v.cfg.gate || final(v).speech) ==> forall|i: int|
            0 <= i < n ==> #[trigger] final(out)@[i] == input@.data[i]
        &&& r is Ok ==> final(v).speech == (level.reaches(v.cfg.threshold_dbfs) || v.hang > 0)
    } by {
        lemma_gated_or_passed(*v, input@, level, out@, r, final(out)@);
        lemma_detector_moves(*v, level);
    }
}

/// A new detector has heard nothing; a reset forgets what it heard, and keeps its
/// counts.
pub proof fn law_detector_starts(cfg: VadConfig, v: EnergyVad)
    ensures
        call_ensures(EnergyVad::new, (cfg,), v) ==> v.cfg == cfg && v.hang == 0 && !v.speech
            && v.blocks == 0 && v.speech_blocks == 0,
        forall|d: &mut EnergyVad| #[trigger]
            call_ensures(<EnergyVad as Element>::reset, (d,), ()) ==> {
                &&& final(d).hang == 0 && !final(d).speech
                &&& final(d).cfg == d.cfg
                &&& final(d).blocks == d.blocks && final(d).speech_blocks == d.speech_blocks
            },
{
}

/// Every call of a resampler's `process` that is refused leaves everything; between
/// equal rates the block is copied. What comes out otherwise is stated of a series
/// of such calls, with the stream.
pub proof fn law_resampler_process(input: PcmBlock<'_>, r: Result<usize>)
    requires
        input@.well_formed(),
    ensures
        forall|s: &mut LinearResampler, out: &mut [u8]| #[trigger]
            call_ensures(<LinearResampler as Element>::process, (s, input, out), r) && s@.valid()
                && s@.out_rate <= u32::MAX && out@.len() <= usize::MAX ==> {
                &&& (ResamplerCall {
                    stage: *s,
                    input: input@,
                    before: out@,
                    result: r,
                    after: final(out)@,
                    left: *final(s),
                }).made()
                &&& r is Err ==> final(out)@ == out@ && final(s)@ == s@
                &&& r is Ok ==> input@.format.sample == SampleFormat::I16 && input@.format.channels
                    <= 2 && input@.format.sample_rate_hz == s@.in_rate
                &&& r is Ok && s@.in_rate == s@.out_rate ==> {
                    &&& r->Ok_0 == input@.data.len()
                    &&& final(out)@ == input@.data + out@.skip(input@.data.len() as int)
                    &&& final(s)@ == s@
                }
            },
{
    assert forall|s: &mut LinearResampler, out: &mut [u8]| #[trigger]
        call_ensures(<LinearResampler as Element>::process, (s, input, out), r) && s@.valid()
            && s@.out_rate <= u32::MAX && out@.len() <= usize::MAX implies {
        &&& (ResamplerCall {
            stage: *s,
            input: input@,
            before: out@,
            result: r,
            after: final(out)@,
            left: *final(s),
        }).made()
        &&& r is Err ==> final(out)@ == out@ && final(s)@ == s@
        &&& r is Ok ==> input@.format.sample == SampleFormat::I16 && input@.format.channels <= 2
            && input@.format.sample_rate_hz == s@.in_rate
        &&& r is Ok && s@.in_rate == s@.out_rate ==> {
            &&& r->Ok_0 == input@.data.len()
            &&& final(out)@ == input@.data + out@.skip(input@.data.len() as int)
            &&& final(s)@ == s@
        }
    } by {
        lemma_resampler_block(*s, input@, out@, r, final(out)@, final(s).memory());
    }
}

/// Every call of [`LinearResampler::max_output_frames`]: the ratio, rounded up, and
/// one, where that is a size.
pub proof fn law_max_output_frames(s: LinearResampler, in_frames: usize, r: usize)
    requires
        s@.valid(),
        call_ensures(LinearResampler::max_output_frames, (&s, in_frames), r),
        r < usize::MAX,
    ensures
        (r - 2) * s@.in_rate < in_frames * s@.out_rate <= (r - 1) * s@.in_rate,
{
    lemma_frames_bound_is_tight(s@.in_rate, s@.out_rate, in_frames as nat);
}

/// Every call of [`peak_abs_i16`]: no sample is further from zero, and one is as far.
pub proof fn law_peak(a: &[i16], r: u16)
    requires
        call_ensures(peak_abs_i16, (a,), r),
    ensures
        forall|i: int| 0 <= i < a@.len() ==> -r <= #[trigger] a@[i] <= r,
        a@.len() > 0 ==> exists|i: int| 0 <= i < a@.len() && (#[trigger] a@[i] == r || a@[i] == -r),
        a@.len() == 0 ==> r == 0,
{
    let none = Seq::<i16>::empty();
    assert(a@ + none =~= a@);
    crate::level::lemma_peak_is_the_largest(a@, none, r, 0, r);
}

/// Every call of [`Level::at_least`] compares the numbers.
pub proof fn law_at_least(a: Level, b: Level, r: bool)
    requires
        call_ensures(Level::at_least, (a, b), r),
    ensures
        r <==> {
            &&& a.bits as int % 0x8000_0000 <= 0x7F80_0000
            &&& b.bits as int % 0x8000_0000 <= 0x7F80_0000
            &&& number_of_bits(a.bits) >= number_of_bits(b.bits)
        },
{
    lemma_levels_compare_as_numbers(a, b);
}

/// Every call of [`convert`] between integer formats: each sample's number is scaled
/// by `2^16` where the width changes, rounded down where it shrinks; the rest of the
/// buffer stays.
pub proof fn law_convert(input: PcmBlock<'_>, to: SampleFormat, r: Result<usize>, k: int)
    requires
        input@.format.sample != SampleFormat::F32,
        to != SampleFormat::F32,
        input@.data.len() % input@.format.sample.width() == 0,
        0 <= k < input@.data.len() / input@.format.sample.width(),
    ensures
        forall|out: &mut [u8]| #[trigger]
            call_ensures(convert, (input, to, out), r) && out@.len() <= usize::MAX ==> {
                let from = input@.format.sample;
                let old_width = if from == SampleFormat::I16 {
                    2int
                } else {
                    4
                };
                let new_width = if to == SampleFormat::I16 {
                    2int
                } else {
                    4
                };
                let needed = input@.data.len() as int / old_width * new_width;
                &&& r is Ok <==> out@.len() >= needed
                &&& r is Err ==> final(out)@ == out@
                &&& r is Ok ==> {
                    let x = if from == SampleFormat::I16 {
                        65536 * sample_in(input@.data, k)
                    } else {
                        word(input@.data.skip(4 * k))
                    };
                    let y = if to == SampleFormat::I16 {
                        65536 * sample_in(final(out)@, k)
                    } else {
                        word(final(out)@.skip(4 * k))
                    };
                    &&& r->Ok_0 == needed
                    &&& rest_stays(out@, final(out)@, needed)
                    &&& 0 <= x - y
                    &&& x - y < (if to == SampleFormat::I16 {
                        65536int
                    } else if to == SampleFormat::I24In32 && from == SampleFormat::I32 {
                        256
                    } else {
                        1
                    })
                }
            },
{
    assert forall|out: &mut [u8]| #[trigger]
        call_ensures(convert, (input, to, out), r) && out@.len() <= usize::MAX implies {
        let from = input@.format.sample;
        let old_width = if from == SampleFormat::I16 {
            2int
        } else {
            4
        };
        let new_width = if to == SampleFormat::I16 {
            2int
        } else {
            4
        };
        let needed = input@.data.len() as int / old_width * new_width;
        &&& r is Ok <==> out@.len() >= needed
        &&& r is Err ==> final(out)@ == out@
        &&& r is Ok ==> {
            let x = if from == SampleFormat::I16 {
                65536 * sample_in(input@.data, k)
            } else {
                word(input@.data.skip(4 * k))
            };
            let y = if to == SampleFormat::I16 {
                65536 * sample_in(final(out)@, k)
            } else {
                word(final(out)@.skip(4 * k))
            };
            &&& r->Ok_0 == needed
            &&& rest_stays(out@, final(out)@, needed)
            &&& 0 <= x - y
            &&& x - y < (if to == SampleFormat::I16 {
                65536int
            } else if to == SampleFormat::I24In32 && from == SampleFormat::I32 {
                256
            } else {
                1
            })
        }
    } by {
        crate::codec::pcm::lemma_conversion_lengths(input@, to, out@.len());
        crate::codec::pcm::lemma_integer_conversions(input@.format.sample, to, input@.data, k);
        if r is Ok {
            let bytes = converted(input@.format.sample, to, input@.data);
            let width = to.width() as int;
            let count = input@.data.len() as int / input@.format.sample.width() as int;
            assert((k + 1) * width <= count * width && k * width >= 0) by (nonlinear_arith)
                requires
                    0 <= k < count,
                    width > 0,
            ;
            assert((k + 1) * width == k * width + width) by (nonlinear_arith);
            assert(bytes.len() == count * width);
            assert(width == 2 || width == 4);
            if width == 2 {
                assert(k * 2 == 2 * k);
                assert(final(out)@[2 * k] == bytes[2 * k]);
                assert(final(out)@[2 * k + 1] == bytes[2 * k + 1]);
            } else {
                assert(k * 4 == 4 * k);
                let (p, q) = (final(out)@.skip(4 * k), bytes.skip(4 * k));
                assert(p[0] == q[0] && p[1] == q[1] && p[2] == q[2] && p[3] == q[3]);
            }
        }
    }
}

/// Every call of a detector's `process`: it judges the block by its own level, and
/// what it does not report as speech comes out as zeros where it gates.
pub proof fn law_vad_process(input: PcmBlock<'_>, r: Result<usize>)
    requires
        input@.well_formed(),
        input@.data.len() <= usize::MAX,
    ensures
        forall|v: &mut EnergyVad, out: &mut [u8]| #[trigger]
            call_ensures(<EnergyVad as Element>::process, (v, input, out), r) ==> {
                let n = input@.data.len() as int;
                let level = Level { bits: rms_bits(input@.data) };
                &&& r is Ok <==> input@.format.sample == SampleFormat::I16 && input@.format.channels
                    <= 2 && out@.len() >= n && measurable(input@.data)
                &&& r is Err ==> final(out)@ == out@ && *final(v) == *v
                &&& r is Ok ==> {
                    &&& r->Ok_0 == n && rest_stays(out@, final(out)@, n)
                    &&& final(v).last_level_dbfs == level
                    &&& final(v).speech == (level.reaches(v.cfg.threshold_dbfs) || v.hang > 0)
                    &&& v.cfg.gate && !final(v).speech ==> forall|i: int|
                        0 <= i < n ==> #[trigger] final(out)@[i] == 0
                    &&& !v.cfg.gate || final(v).speech ==> forall|i: int|
                        0 <= i < n ==> #[trigger] final(out)@[i] == input@.data[i]
                }
            },
{
    assert forall|v: &mut EnergyVad, out: &mut [u8]| #[trigger]
        call_ensures(<EnergyVad as Element>::process, (v, input, out), r) implies {
        let n = input@.data.len() as int;
        let level = Level { bits: rms_bits(input@.data) };
        &&& r is Ok <==> input@.format.sample == SampleFormat::I16 && input@.format.channels <= 2
            && out@.len() >= n && measurable(input@.data)
        &&& r is Err ==> final(out)@ == out@ && *final(v) == *v
        &&& r is Ok ==> {
            &&& r->Ok_0 == n && rest_stays(out@, final(out)@, n)
            &&& final(v).last_level_dbfs == level
            &&& final(v).speech == (level.reaches(v.cfg.threshold_dbfs) || v.hang > 0)
            &&& v.cfg.gate && !final(v).speech ==> forall|i: int|
                0 <= i < n ==> #[trigger] final(out)@[i] == 0
            &&& !v.cfg.gate || final(v).speech ==> forall|i: int|
                0 <= i < n ==> #[trigger] final(out)@[i] == input@.data[i]
        }
    } by {
        let level = Level { bits: rms_bits(input@.data) };
        lemma_vad_block(*v, input@, out@, r, final(out)@, final(v).memory());
        if r is Ok {
            lemma_gated_or_passed(*v, input@, level, out@, r, final(out)@);
            lemma_detector_moves(*v, level);
        }
    }
}

} // verus!
