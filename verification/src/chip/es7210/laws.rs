//! What the driver leaves in the chip's registers: every call, played on registers
//! that never fail, by register number and field.

use vstd::prelude::*;

use super::{
    clock_script, find, framing, gain_of_script, gains_script, init_script, input_file,
    input_script, kept_clock, lemma_input_played, lemma_inputs_off_played, mics_script, mode_script,
    resume_script, row, tdm_script, width, Coeff, Config, Es7210, Gain, MclkSource, Mics, ANALOG_ON,
    POWER_DOWN, POWER_UP, RESET,
};
use crate::chip::laws::{keeps, succeeds};
use crate::chip::script::{
    done, filled, lemma_modify_played, lemma_table_played, lemma_write_played, modify, played,
    replaced, stores, Script,
};
use crate::chip::{Bits, Bus, CodecChip, I2sFormat, Mode, Module};
use crate::esp_core::error::Error;

verus! {

/// The clock rows do what they are for. The master clock, doubled where the row
/// says so and divided, is the sample rate times the oversampling, sixteen times
/// over with the delay line and four times without, half of that at double speed.
/// The frame divider is the ratio of master clock and rate; two rows have another
/// one, 11.025 kHz and 16 kHz from 19.2 MHz.
pub proof fn lemma_clock_rows(i: int)
    requires
        0 <= i < 25,
    ensures
        ({
            let c = row(i);
            let over = c.osr * (if c.dll == 1 {
                16int
            } else {
                4
            }) / (if c.ss_ds == 1 {
                2int
            } else {
                1
            });
            let frame = 256 * c.lrck_h + c.lrck_l;
            &&& c.doubler <= 1
            &&& c.dll <= 1
            &&& c.ss_ds <= 1
            &&& 1 <= c.adc_div < 64
            &&& c.mclk * (1 + c.doubler) == c.adc_div * (c.lrck * over)
            &&& i != 4 && i != 8 ==> c.mclk == c.lrck * frame
            &&& i == 4 ==> c.lrck == 11025 && frame == 256
            &&& i == 8 ==> c.lrck == 16000 && c.mclk == 19_200_000 && frame == 1152
        }),
{
    let c = row(i);
    let over = c.osr * (if c.dll == 1 {
        16int
    } else {
        4
    }) / (if c.ss_ds == 1 {
        2int
    } else {
        1
    });
    let frame = 256 * c.lrck_h + c.lrck_l;
    lemma_over(i);
    lemma_times(c.mclk as int, 1 + c.doubler);
    lemma_times(c.lrck as int, over);
    lemma_times(c.lrck as int, frame);
    lemma_times(c.lrck * over, c.adc_div as int);
    reveal(row);
}

proof fn lemma_over(i: int)
    requires
        0 <= i < 25,
    ensures
        ({
            let c = row(i);
            let over = c.osr * (if c.dll == 1 {
                16int
            } else {
                4
            }) / (if c.ss_ds == 1 {
                2int
            } else {
                1
            });
            &&& c.osr == 32 && c.dll == 1 && c.ss_ds == 0 ==> over == 512
            &&& c.osr == 32 && c.dll == 1 && c.ss_ds == 1 ==> over == 256
            &&& c.osr == 32 && c.dll == 0 && c.ss_ds == 0 ==> over == 128
            &&& c.osr == 40 && c.dll == 0 && c.ss_ds == 0 ==> over == 160
            &&& c.osr == 40 && c.dll == 0 && c.ss_ds == 1 ==> over == 80
            &&& c.osr == 30 && c.dll == 0 && c.ss_ds == 0 ==> over == 120
        }),
{
}

/// What multiplying by a small constant comes to.
proof fn lemma_times(x: int, k: int)
    ensures
        k == 1 ==> x * k == x && k * x == x,
        k == 2 ==> x * k == 2 * x && k * x == 2 * x,
        k == 3 ==> k * x == 3 * x,
        k == 4 ==> k * x == 4 * x,
        k == 5 ==> k * x == 5 * x,
        k == 10 ==> k * x == 10 * x,
        k == 20 ==> k * x == 20 * x,
        k == 30 ==> k * x == 30 * x,
        k == 80 ==> x * k == 80 * x,
        k == 120 ==> x * k == 120 * x,
        k == 128 ==> x * k == 128 * x,
        k == 160 ==> x * k == 160 * x,
        k == 200 ==> x * k == 200 * x,
        k == 256 ==> x * k == 256 * x,
        k == 300 ==> x * k == 300 * x,
        k == 384 ==> x * k == 384 * x,
        k == 400 ==> x * k == 400 * x,
        k == 512 ==> x * k == 512 * x,
        k == 600 ==> x * k == 600 * x,
        k == 768 ==> x * k == 768 * x,
        k == 800 ==> x * k == 800 * x,
        k == 1024 ==> x * k == 1024 * x,
        k == 1536 ==> x * k == 1536 * x,
        k == 1600 ==> x * k == 1600 * x,
        k == 2048 ==> x * k == 2048 * x,
        k == 2400 ==> x * k == 2400 * x,
{
}

/// A clock pair that a row has is found, and it is that row.
pub proof fn lemma_pairs_found(i: int)
    requires
        0 <= i < 25,
    ensures
        find(row(i).mclk, row(i).lrck, 0) == Some(row(i)),
{
    lemma_finds(row(i).mclk, row(i).lrck, 0, i);
}

proof fn lemma_finds(mclk: u32, rate: u32, from: int, i: int)
    requires
        0 <= from <= i < 25,
        row(i).mclk == mclk,
        row(i).lrck == rate,
    ensures
        find(mclk, rate, from) == Some(row(i)),
    decreases i - from,
{
    if from < i {
        lemma_pairs_differ(from, i);
        lemma_finds(mclk, rate, from + 1, i);
    }
}

proof fn lemma_pairs_differ(a: int, b: int)
    requires
        0 <= a < b < 25,
    ensures
        row(a).mclk != row(b).mclk || row(a).lrck != row(b).lrck,
{
    reveal(row);
}

/// A pair that is found is a row's.
pub proof fn lemma_other_pairs(mclk: u32, rate: u32, from: int)
    requires
        0 <= from,
        find(mclk, rate, from) is Some,
    ensures
        exists|i: int|
            from <= i < 25 && (#[trigger] row(i)).mclk == mclk && row(i).lrck == rate && find(
                mclk,
                rate,
                from,
            ) == Some(row(i)),
    decreases 25 - from,
{
    if !(row(from).mclk == mclk && row(from).lrck == rate) {
        lemma_other_pairs(mclk, rate, from + 1);
    }
}

/// Clocking by row `i`: the divider, the doubler and the delay line share register
/// 2; the oversampling and the frame divider have their own; nothing else changes.
pub proof fn lemma_clocked<I: Bus>(chip: Es7210<I>, file: Seq<u8>, i: int)
    requires
        file.len() == 256,
        0 <= i < 25,
    ensures
        ({
            let c = row(i);
            let p = played(chip.sample_rate_script(c.lrck, c.mclk), file);
            let f = p.file;
            &&& succeeds(p.answer)
            &&& f[2] % 64 == c.adc_div
            &&& (f[2] / 64) % 2 == c.doubler
            &&& f[2] / 128 == c.dll
            &&& f[7] == c.osr
            &&& f[4] == c.lrck_h
            &&& f[5] == c.lrck_l
            &&& keeps(file, f, 0, 1)
            &&& keeps(file, f, 3, 3)
            &&& keeps(file, f, 6, 6)
            &&& keeps(file, f, 8, 255)
        }),
{
    reveal_with_fuel(played, 5);
    lemma_pairs_found(i);
    lemma_clock_rows(i);
    let c = row(i);
    lemma_main_clock(c.adc_div, c.doubler, c.dll);
}

/// A pair that no row has changes nothing and is answered as unsupported.
pub proof fn lemma_not_clocked<I: Bus>(
    chip: Es7210<I>,
    file: Seq<u8>,
    rate_hz: u32,
    mclk_hz: u32,
)
    requires
        forall|i: int|
            0 <= i < 25 ==> !((#[trigger] row(i)).mclk == mclk_hz && row(i).lrck == rate_hz),
    ensures
        played(chip.sample_rate_script(rate_hz, mclk_hz), file).file == file,
        played(chip.sample_rate_script(rate_hz, mclk_hz), file).answer == Err::<Seq<u8>, Error>(
            Error::Unsupported,
        ),
{
    if find(mclk_hz, rate_hz, 0) is Some {
        lemma_other_pairs(mclk_hz, rate_hz, 0);
    }
}

/// Setting the format: the two lowest bits of register 0x11 are the framing, the
/// three highest the width; the alternative DSP framing also sets bit 4. The other
/// bits and registers stay.
pub proof fn lemma_formatted<I: Bus>(chip: Es7210<I>, file: Seq<u8>, fmt: I2sFormat, bits: Bits)
    requires
        file.len() == 256,
    ensures
        ({
            let p = played(chip.format_script(fmt, bits), file);
            let f = p.file;
            &&& succeeds(p.answer)
            &&& f[0x11] % 4 == (match fmt {
                I2sFormat::Standard => 0int,
                I2sFormat::LeftJustified => 1,
                I2sFormat::Dsp => 3,
            })
            &&& (f[0x11] / 4) % 4 == (file[0x11] / 4) % 4
            &&& (f[0x11] / 16) % 2 == (if fmt == I2sFormat::Dsp && chip.dsp_mode_alt {
                1int
            } else {
                ((file[0x11] / 16) % 2) as int
            })
            &&& f[0x11] / 32 == (match bits {
                Bits::B16 => 3int,
                Bits::B24 => 0,
                Bits::B32 => 4,
            })
            &&& keeps(file, f, 0, 0x10)
            &&& keeps(file, f, 0x12, 0xFF)
        }),
{
    reveal_with_fuel(played, 5);
    lemma_port(file[0x11], framing(fmt, chip.dsp_mode_alt), width(bits));
}

proof fn lemma_port(v: u8, g: u8, w: u8)
    requires
        g < 4 || g == 0x13,
        w == 0 || w == 0x60 || w == 0x80,
    ensures
        ({
            let r = (((v & 0xFC) | g) & 0x1F) | w;
            &&& r % 4 == g % 4
            &&& (r / 4) % 4 == (v / 4) % 4
            &&& g < 4 ==> (r / 16) % 2 == (v / 16) % 2
            &&& g == 0x13 ==> (r / 16) % 2 == 1
            &&& r / 32 == w / 32
        }),
{
    assert(((((v & 0xFC) | g) & 0x1F) | w) % 4 == g % 4 && (((((v & 0xFC) | g) & 0x1F) | w) / 4) % 4
        == (v / 4) % 4 && (g < 4 ==> (((((v & 0xFC) | g) & 0x1F) | w) / 16) % 2 == (v / 16) % 2) && (g
        == 0x13 ==> (((((v & 0xFC) | g) & 0x1F) | w) / 16) % 2 == 1) && ((((v & 0xFC) | g) & 0x1F)
        | w) / 32 == w / 32) by (bit_vector)
        requires
            g < 4 || g == 0x13,
            w == 0 || w == 0x60 || w == 0x80,
    ;
}

/// Muting sets the two lowest bits of the registers 0x14 and 0x15, unmuting clears
/// them; nothing else changes.
pub proof fn lemma_muted<I: Bus>(chip: Es7210<I>, file: Seq<u8>, mute: bool)
    requires
        file.len() == 256,
    ensures
        ({
            let p = played(chip.mute_script(mute), file);
            let f = p.file;
            let low = if mute {
                3int
            } else {
                0
            };
            &&& succeeds(p.answer)
            &&& f[0x14] % 4 == low
            &&& f[0x14] / 4 == file[0x14] / 4
            &&& f[0x15] % 4 == low
            &&& f[0x15] / 4 == file[0x15] / 4
            &&& keeps(file, f, 0, 0x13)
            &&& keeps(file, f, 0x16, 0xFF)
        }),
{
    let v: u8 = if mute {
        0x03
    } else {
        0x00
    };
    let second = modify(0x15, 0x03, v, done());
    let f1 = file.update(0x14, replaced(file[0x14], 0x03, v));
    lemma_modify_played(0x14, 0x03, v, second, file);
    lemma_modify_played(0x15, 0x03, v, done(), f1);
    lemma_low_bits(file[0x14], v);
    lemma_low_bits(file[0x15], v);
}

proof fn lemma_low_bits(held: u8, v: u8)
    requires
        v < 4,
    ensures
        replaced(held, 0x03, v) % 4 == v,
        replaced(held, 0x03, v) / 4 == held / 4,
{
    assert(((held & !0x03u8) | (v & 0x03u8)) % 4 == v && ((held & !0x03u8) | (v & 0x03u8)) / 4
        == held / 4) by (bit_vector)
        requires
            v < 4,
    ;
}

/// Which inputs are in a set: input `n` by bit `n - 1`, and no others; the size is
/// how many they are.
pub proof fn lemma_sets_of_inputs(mics: Mics)
    ensures
        ({
            let one = |n: u8|
                if mics.holds(n) {
                    1int
                } else {
                    0int
                };
            &&& mics.0 % 16 == one(1) + 2 * one(2) + 4 * one(3) + 8 * one(4)
            &&& mics.size() == one(1) + one(2) + one(3) + one(4)
        }),
        forall|n: u8| #[trigger] mics.holds(n) ==> 1 <= n <= 4,
{
    lemma_set_bits(mics.0);
}

proof fn lemma_set_bits(b: u8)
    ensures
        b % 16 == b % 2 + 2 * ((b / 2) % 2) + 4 * ((b / 4) % 2) + 8 * ((b / 8) % 2),
        b % 4 == b % 2 + 2 * ((b / 2) % 2),
        (b / 4) % 4 == (b / 4) % 2 + 2 * ((b / 8) % 2),
{
    assert(b % 16 == (b % 2) + 2 * ((b / 2) % 2) + 4 * ((b / 4) % 2) + 8 * ((b / 8) % 2))
        by (bit_vector);
}

/// The gains: 3 dB a step up to 33 dB, and then three steps of 1.5 dB.
pub proof fn lemma_gains(gain: Gain)
    ensures
        ({
            let tenths = match gain {
                Gain::Db0 => 0int,
                Gain::Db3 => 30,
                Gain::Db6 => 60,
                Gain::Db9 => 90,
                Gain::Db12 => 120,
                Gain::Db15 => 150,
                Gain::Db18 => 180,
                Gain::Db21 => 210,
                Gain::Db24 => 240,
                Gain::Db27 => 270,
                Gain::Db30 => 300,
                Gain::Db33 => 330,
                Gain::Db34_5 => 345,
                Gain::Db36 => 360,
                Gain::Db37_5 => 375,
            };
            let code = gain.code_spec() as int;
            &&& code <= 14
            &&& code <= 11 ==> tenths == 30 * code
            &&& code > 11 ==> tenths == 330 + 15 * (code - 11)
        }),
{
}

/// Setting the gain of some inputs sets the low half of their registers, and
/// changes nothing else.
pub proof fn lemma_gains_set(file: Seq<u8>, mics: Mics, gain: Gain)
    requires
        file.len() == 256,
    ensures
        ({
            let p = played(gains_script(mics, gain, done()), file);
            let f = p.file;
            &&& succeeds(p.answer)
            &&& forall|n: u8|
                1 <= n <= 4 ==> {
                    &&& #[trigger] mics.holds(n) ==> f[0x42 + n] % 16 == gain.code_spec() && f[0x42
                        + n] / 16 == file[0x42 + n] / 16
                    &&& !mics.holds(n) ==> f[0x42 + n] == file[0x42 + n]
                }
            &&& keeps(file, f, 0, 0x42)
            &&& keeps(file, f, 0x47, 0xFF)
        }),
{
    let g = gain.code_spec();
    let s4 = gain_of_script(mics.holds(4), 0x46, gain, done());
    let s3 = gain_of_script(mics.holds(3), 0x45, gain, s4);
    let s2 = gain_of_script(mics.holds(2), 0x44, gain, s3);
    let f1 = gain_file(mics.holds(1), 0x43, g, file);
    let f2 = gain_file(mics.holds(2), 0x44, g, f1);
    let f3 = gain_file(mics.holds(3), 0x45, g, f2);
    lemma_gain_played(mics.holds(1), 0x43, gain, s2, file);
    lemma_gain_played(mics.holds(2), 0x44, gain, s3, f1);
    lemma_gain_played(mics.holds(3), 0x45, gain, s4, f2);
    lemma_gain_played(mics.holds(4), 0x46, gain, done(), f3);
    lemma_low_half(file[0x43], g);
    lemma_low_half(file[0x44], g);
    lemma_low_half(file[0x45], g);
    lemma_low_half(file[0x46], g);
}

spec fn gain_file(on: bool, gain_reg: u8, gain: u8, file: Seq<u8>) -> Seq<u8> {
    if on {
        file.update(gain_reg as int, replaced(file[gain_reg as int], 0x0F, gain))
    } else {
        file
    }
}

proof fn lemma_gain_played(on: bool, gain_reg: u8, gain: Gain, then: Script, file: Seq<u8>)
    ensures
        ({
            let p = played(gain_of_script(on, gain_reg, gain, then), file);
            let q = played(then, gain_file(on, gain_reg, gain.code_spec(), file));
            p.file == q.file && p.answer == q.answer
        }),
{
    if on {
        lemma_modify_played(gain_reg, 0x0F, gain.code_spec(), then, file);
    }
}

proof fn lemma_low_half(held: u8, gain: u8)
    requires
        gain < 16,
    ensures
        replaced(held, 0x0F, gain) % 16 == gain,
        replaced(held, 0x0F, gain) / 16 == held / 16,
{
    assert(((held & !0x0Fu8) | (gain & 0x0Fu8)) % 16 == gain && ((held & !0x0Fu8) | (gain & 0x0Fu8))
        / 16 == held / 16) by (bit_vector)
        requires
            gain < 16,
    ;
}

/// Stopping powers every part down.
pub proof fn lemma_stopped<I: Bus>(chip: Es7210<I>, file: Seq<u8>)
    requires
        file.len() == 256,
    ensures
        ({
            let p = played(chip.stop_script(), file);
            let f = p.file;
            &&& succeeds(p.answer)
            &&& f[0x01] == 0x7F
            &&& f[0x06] == 0x07
            &&& f[0x40] == 0xC0
            &&& forall|i: int| 0x47 <= i <= 0x4C ==> #[trigger] f[i] == 0xFF
            &&& keeps(file, f, 0, 0)
            &&& keeps(file, f, 2, 5)
            &&& keeps(file, f, 7, 0x3F)
            &&& keeps(file, f, 0x41, 0x46)
            &&& keeps(file, f, 0x4D, 0xFF)
        }),
{
    assert(played(chip.stop_script(), file) == played(stores(POWER_DOWN@, done()), file)) by {
        reveal_with_fuel(played, 2);
    }
    lemma_table_played(POWER_DOWN@, done(), file);
    reveal_with_fuel(filled, 10);
}

/// A gain register, and an ADC pair's clock, of an input that was selected: the
/// amplifier's bit is set and the gain is in the low half; of one that was not the
/// bit is cleared.
pub open spec fn input_set(on: bool, gain: u8, before: u8, after: u8) -> bool {
    &&& (after / 16) % 2 == (if on {
        1int
    } else {
        0
    })
    &&& on ==> after % 16 == gain
    &&& !on ==> after % 16 == before % 16
    &&& after / 32 == before / 32
}

/// The bits of register 1 that a selection leaves: those that hold the clocks of a
/// selected pair off are cleared.
pub open spec fn clocks_kept(mics: Mics) -> u8 {
    if mics.0 % 4 == 0 {
        0xEA
    } else if (mics.0 / 4) % 4 == 0 {
        0xF4
    } else {
        0xE0
    }
}

/// Selecting inputs, register by register: the amplifiers of those selected are on
/// at the gain, the others off; each ADC pair is powered if one of its inputs is
/// selected; TDM is on if there are enough of them. Only registers 1, 0x12, 0x43 to
/// 0x46, 0x4B and 0x4C change. No input at all is refused and changes nothing.
pub proof fn lemma_inputs_selected(
    mics: Mics,
    gain: Gain,
    tdm_from_mics: u8,
    file: Seq<u8>,
)
    requires
        file.len() == 256,
    ensures
        ({
            let p = played(mics_script(mics, gain, tdm_from_mics, done()), file);
            let f = p.file;
            let g = gain.code_spec();
            &&& mics.0 % 16 == 0 ==> p.answer == Err::<Seq<u8>, Error>(Error::Unsupported) && f
                == file
            &&& mics.0 % 16 != 0 ==> {
                &&& succeeds(p.answer)
                &&& input_set(mics.0 % 2 == 1, g, file[0x43], f[0x43])
                &&& input_set((mics.0 / 2) % 2 == 1, g, file[0x44], f[0x44])
                &&& input_set((mics.0 / 4) % 2 == 1, g, file[0x45], f[0x45])
                &&& input_set((mics.0 / 8) % 2 == 1, g, file[0x46], f[0x46])
                &&& f[0x4B] == (if mics.0 % 4 != 0 {
                    0x00u8
                } else {
                    0xFF
                })
                &&& f[0x4C] == (if (mics.0 / 4) % 4 != 0 {
                    0x00u8
                } else {
                    0xFF
                })
                &&& f[0x12] == (if mics.0 % 2 + (mics.0 / 2) % 2 + (mics.0 / 4) % 2 + (mics.0 / 8)
                    % 2 >= tdm_from_mics {
                    0x02u8
                } else {
                    0x00
                })
                &&& f[1] == file[1] & clocks_kept(mics)
                &&& keeps(file, f, 0, 0)
                &&& keeps(file, f, 2, 0x11)
                &&& keeps(file, f, 0x13, 0x42)
                &&& keeps(file, f, 0x47, 0x4A)
                &&& keeps(file, f, 0x4D, 0xFF)
            }
        }),
{
    if mics.0 % 16 != 0 {
        let g = gain.code_spec();
        let off = inputs_off(file);
        let f1 = input_file(mics.holds(1), 0x0B, 0x4B, 0x43, g, off);
        let f2 = input_file(mics.holds(2), 0x0B, 0x4B, 0x44, g, f1);
        let f3 = input_file(mics.holds(3), 0x15, 0x4C, 0x45, g, f2);
        let f4 = input_file(mics.holds(4), 0x15, 0x4C, 0x46, g, f3);
        lemma_selection_leaves(mics, gain, tdm_from_mics, file);
        lemma_input_leaves(mics.holds(1), 0x0B, 0x4B, 0x43, g, off);
        lemma_input_leaves(mics.holds(2), 0x0B, 0x4B, 0x44, g, f1);
        lemma_input_leaves(mics.holds(3), 0x15, 0x4C, 0x45, g, f2);
        lemma_input_leaves(mics.holds(4), 0x15, 0x4C, 0x46, g, f3);
        lemma_input_bits(file[0x43], g);
        lemma_input_bits(file[0x44], g);
        lemma_input_bits(file[0x45], g);
        lemma_input_bits(file[0x46], g);
        lemma_set_bits(mics.0);
        lemma_clock_bits(file[1]);
    }
}

proof fn lemma_clock_bits(v: u8)
    ensures
        replaced(v, 0x0B, 0x00) == v & 0xF4,
        replaced(v, 0x15, 0x00) == v & 0xEA,
        replaced(v & 0xF4, 0x0B, 0x00) == v & 0xF4,
        replaced(v & 0xEA, 0x15, 0x00) == v & 0xEA,
        replaced(v & 0xF4, 0x15, 0x00) == v & 0xE0,
        replaced(v & 0xE0, 0x15, 0x00) == v & 0xE0,
{
    assert(((v & !0x0Bu8) | (0u8 & 0x0Bu8)) == v & 0xF4 && ((v & !0x15u8) | (0u8 & 0x15u8)) == v
        & 0xEA && (((v & 0xF4) & !0x0Bu8) | (0u8 & 0x0Bu8)) == v & 0xF4 && (((v & 0xEA) & !0x15u8)
        | (0u8 & 0x15u8)) == v & 0xEA && (((v & 0xF4) & !0x15u8) | (0u8 & 0x15u8)) == v & 0xE0 && (((v
        & 0xE0) & !0x15u8) | (0u8 & 0x15u8)) == v & 0xE0) by (bit_vector);
}

/// The registers once every input is off.
spec fn inputs_off(file: Seq<u8>) -> Seq<u8> {
    file.update(0x43, replaced(file[0x43], 0x10, 0)).update(
        0x44,
        replaced(file[0x44], 0x10, 0),
    ).update(0x45, replaced(file[0x45], 0x10, 0)).update(0x46, replaced(file[0x46], 0x10, 0)).update(
        0x4B,
        0xFF,
    ).update(0x4C, 0xFF)
}

proof fn lemma_selection_leaves(mics: Mics, gain: Gain, tdm_from_mics: u8, file: Seq<u8>)
    requires
        mics.0 % 16 != 0,
        file.len() == 256,
    ensures
        ({
            let g = gain.code_spec();
            let f1 = input_file(mics.holds(1), 0x0B, 0x4B, 0x43, g, inputs_off(file));
            let f2 = input_file(mics.holds(2), 0x0B, 0x4B, 0x44, g, f1);
            let f3 = input_file(mics.holds(3), 0x15, 0x4C, 0x45, g, f2);
            let f4 = input_file(mics.holds(4), 0x15, 0x4C, 0x46, g, f3);
            let p = played(mics_script(mics, gain, tdm_from_mics, done()), file);
            &&& succeeds(p.answer)
            &&& p.file == f4.update(
                0x12,
                if mics.size() >= tdm_from_mics {
                    0x02
                } else {
                    0x00
                },
            )
        }),
{
    let g = gain.code_spec();
    let tdm = tdm_script(mics, tdm_from_mics, done());
    let four = input_script(mics.holds(4), 0x15, 0x4C, 0x46, g, tdm);
    let three = input_script(mics.holds(3), 0x15, 0x4C, 0x45, g, four);
    let two = input_script(mics.holds(2), 0x0B, 0x4B, 0x44, g, three);
    let one = input_script(mics.holds(1), 0x0B, 0x4B, 0x43, g, two);
    let off = inputs_off(file);
    lemma_inputs_off_played(one, file);
    let f1 = input_file(mics.holds(1), 0x0B, 0x4B, 0x43, g, off);
    let f2 = input_file(mics.holds(2), 0x0B, 0x4B, 0x44, g, f1);
    let f3 = input_file(mics.holds(3), 0x15, 0x4C, 0x45, g, f2);
    let f4 = input_file(mics.holds(4), 0x15, 0x4C, 0x46, g, f3);
    lemma_input_played(mics.holds(1), 0x0B, 0x4B, 0x43, g, two, off);
    lemma_input_played(mics.holds(2), 0x0B, 0x4B, 0x44, g, three, f1);
    lemma_input_played(mics.holds(3), 0x15, 0x4C, 0x45, g, four, f2);
    lemma_input_played(mics.holds(4), 0x15, 0x4C, 0x46, g, tdm, f3);
    lemma_write_played(tdm, f4);
}

/// What powering one input leaves in the registers.
proof fn lemma_input_leaves(
    on: bool,
    clock_mask: u8,
    power: u8,
    gain_reg: u8,
    gain: u8,
    file: Seq<u8>,
)
    requires
        file.len() == 256,
        power != gain_reg,
        power > 1,
        gain_reg > 1,
    ensures
        ({
            let f = input_file(on, clock_mask, power, gain_reg, gain, file);
            &&& f.len() == 256
            &&& f[gain_reg as int] == (if on {
                replaced(replaced(file[gain_reg as int], 0x10, 0x10), 0x0F, gain)
            } else {
                file[gain_reg as int]
            })
            &&& f[power as int] == (if on {
                0x00u8
            } else {
                file[power as int]
            })
            &&& f[1] == (if on {
                replaced(file[1], clock_mask, 0x00)
            } else {
                file[1]
            })
            &&& forall|i: int|
                0 <= i < 256 && i != 1 && i != power && i != gain_reg ==> #[trigger] f[i] == file[i]
        }),
{
}

proof fn lemma_input_bits(held: u8, gain: u8)
    requires
        gain < 16,
    ensures
        ({
            let off = replaced(held, 0x10, 0x00);
            let on = replaced(replaced(off, 0x10, 0x10), 0x0F, gain);
            &&& input_set(false, gain, held, off)
            &&& input_set(true, gain, held, on)
        }),
{
    let off = replaced(held, 0x10, 0x00);
    assert((((held & !0x10u8) | (0u8 & 0x10u8)) / 16) % 2 == 0 && ((held & !0x10u8) | (0u8
        & 0x10u8)) % 16 == held % 16 && ((held & !0x10u8) | (0u8 & 0x10u8)) / 32 == held / 32)
        by (bit_vector);
    assert((((((off & !0x10u8) | (0x10u8 & 0x10u8)) & !0x0Fu8) | (gain & 0x0Fu8)) / 16) % 2 == 1 && (
    (((off & !0x10u8) | (0x10u8 & 0x10u8)) & !0x0Fu8) | (gain & 0x0Fu8)) % 16 == gain && ((((off
        & !0x10u8) | (0x10u8 & 0x10u8)) & !0x0Fu8) | (gain & 0x0Fu8)) / 32 == off / 32)
        by (bit_vector)
        requires
            gain < 16,
    ;
}

/// A start of a DAC, which the chip does not have, is refused and changes nothing.
pub proof fn lemma_no_dac<I: Bus>(chip: Es7210<I>, file: Seq<u8>)
    ensures
        ({
            let p = played(chip.start_script(Module::Dac), file);
            p.answer == Err::<Seq<u8>, Error>(Error::Unsupported) && p.file == file
        }),
{
}

/// Starting again: the clock register as it is, or as it was before the stop if the
/// stop left it; power; and then the inputs are selected as they were.
pub proof fn lemma_started<I: Bus>(chip: Es7210<I>, file: Seq<u8>, module: Module)
    requires
        file.len() == 256,
        module != Module::Dac,
    ensures
        ({
            let p = played(chip.start_script(module), file);
            let clock = if file[1] == 0x7F || file[1] == 0xFF {
                chip.clock_reg
            } else {
                file[1]
            };
            let ready = file.update(1, clock).update(0x06, 0x00).update(0x40, 0x43).update(
                0x47,
                0x08,
            ).update(0x48, 0x08).update(0x49, 0x08).update(0x4A, 0x08);
            let q = played(
                mics_script(chip.mics, chip.gain, chip.tdm_from_mics, done()),
                ready,
            );
            p.file == q.file && p.answer == q.answer
        }),
{
    let clock = kept_clock(chip.clock_reg, file[1]);
    let inputs = mics_script(chip.mics, chip.gain, chip.tdm_from_mics, done());
    let resumed = resume_script(clock, chip.mics, chip.gain, chip.tdm_from_mics);
    assert(played(chip.start_script(module), file) == played(resumed, file)) by {
        reveal_with_fuel(played, 2);
    }
    let f1 = file.update(1, clock);
    lemma_write_played(resumed, file);
    lemma_table_played(POWER_UP@, inputs, f1);
    assert(filled(f1, POWER_UP@) == f1.update(0x06, 0x00).update(0x40, 0x43).update(
        0x47,
        0x08,
    ).update(0x48, 0x08).update(0x49, 0x08).update(0x4A, 0x08)) by {
        reveal_with_fuel(filled, 7);
    }
}

/// The registers once the chip is reset, powered and clocked by the row `c`, with
/// the registers 8, 3 and 2 as given.
pub open spec fn ready_registers(file: Seq<u8>, c: Coeff, m8: u8, m3: u8, m2: u8) -> Seq<u8> {
    let reset = file.update(0x00, 0x41).update(0x01, 0x3F).update(0x09, 0x30).update(
        0x0A,
        0x30,
    ).update(0x23, 0x2A).update(0x22, 0x0A).update(0x20, 0x0A).update(0x21, 0x2A);
    reset.update(0x08, m8).update(0x03, m3).update(0x40, 0x43).update(0x41, 0x70).update(
        0x42,
        0x70,
    ).update(0x07, c.osr).update(0x02, m2).update(0x04, c.lrck_h).update(0x05, c.lrck_l)
}

/// Bringing up: after the reset values, bit 0 of register 8 is the mode, and as a
/// master bit 7 of register 3 the source of its clock; then the chip is clocked by
/// its row and the inputs are selected, at their gain.
pub proof fn lemma_brought_up(file: Seq<u8>, cfg: Config, i: int)
    requires
        file.len() == 256,
        0 <= i < 25,
        row(i).mclk == cfg.mclk_hz,
        row(i).lrck == cfg.sample_rate_hz,
    ensures
        ({
            let p = played(init_script(cfg), file);
            let c = row(i);
            exists|m8: u8, m3: u8, m2: u8|
                {
                    let q = played(
                        mics_script(
                            cfg.mics,
                            cfg.gain,
                            cfg.tdm_from_mics,
                            gains_script(cfg.mics, cfg.gain, done()),
                        ),
                        #[trigger] ready_registers(file, c, m8, m3, m2),
                    );
                    &&& m8 % 2 == (if cfg.mode == Mode::Master {
                        1int
                    } else {
                        0
                    })
                    &&& m8 / 2 == file[0x08] / 2
                    &&& m3 % 128 == file[0x03] % 128
                    &&& m3 / 128 == (if cfg.mode == Mode::Slave {
                        (file[0x03] / 128) as int
                    } else if cfg.mclk == MclkSource::Pad {
                        0
                    } else {
                        1
                    })
                    &&& m2 % 64 == c.adc_div
                    &&& (m2 / 64) % 2 == c.doubler
                    &&& m2 / 128 == c.dll
                    &&& p.file == q.file
                    &&& p.answer == q.answer
                }
        }),
{
    let c = row(i);
    let inputs = mics_script(
        cfg.mics,
        cfg.gain,
        cfg.tdm_from_mics,
        gains_script(cfg.mics, cfg.gain, done()),
    );
    let clocks = clock_script(cfg.mclk_hz, cfg.sample_rate_hz, inputs);
    let analog = stores(ANALOG_ON@, clocks);
    let mode = mode_script(cfg.mode, cfg.mclk, analog);
    let master: u8 = if cfg.mode == Mode::Master {
        0x01
    } else {
        0x00
    };
    let source: u8 = if cfg.mclk == MclkSource::Pad {
        0x00
    } else {
        0x80
    };
    let reset = file.update(0x00, 0x41).update(0x01, 0x3F).update(0x09, 0x30).update(
        0x0A,
        0x30,
    ).update(0x23, 0x2A).update(0x22, 0x0A).update(0x20, 0x0A).update(0x21, 0x2A);
    assert(filled(file, RESET@) =~= reset) by {
        reveal_with_fuel(filled, 10);
    }
    lemma_table_played(RESET@, mode, file);
    let m8 = replaced(file[0x08], 0x01, master);
    let m3 = if cfg.mode == Mode::Master {
        replaced(file[0x03], 0x80, source)
    } else {
        file[0x03]
    };
    lemma_mode_bits(file[0x08], master, file[0x03], source);
    let moded = reset.update(0x08, m8).update(0x03, m3);
    if cfg.mode == Mode::Master {
        let second = modify(0x03, 0x80, source, analog);
        lemma_modify_played(0x08, 0x01, 0x01, second, reset);
        lemma_modify_played(0x03, 0x80, source, analog, reset.update(0x08, m8));
    } else {
        lemma_modify_played(0x08, 0x01, 0x00, analog, reset);
        assert(moded =~= reset.update(0x08, m8));
    }
    lemma_table_played(ANALOG_ON@, clocks, moded);
    let on = moded.update(0x40, 0x43).update(0x41, 0x70).update(0x42, 0x70).update(
        0x07,
        0x20,
    ).update(0x02, 0xC1);
    assert(filled(moded, ANALOG_ON@) == on) by {
        reveal_with_fuel(filled, 6);
    }
    lemma_pairs_found(i);
    lemma_clock_rows(i);
    let (a, b, d) = (c.adc_div, c.doubler, c.dll);
    let m2 = (a | (b << 6u8)) | (d << 7u8);
    lemma_main_clock(a, b, d);
    let clocked = on.update(0x02, m2).update(0x07, c.osr).update(0x04, c.lrck_h).update(
        0x05,
        c.lrck_l,
    );
    assert(played(clocks, on).file == played(inputs, clocked).file && played(clocks, on).answer
        == played(inputs, clocked).answer) by {
        reveal_with_fuel(played, 5);
    }
    assert(ready_registers(file, c, m8, m3, m2) =~= clocked);
}

proof fn lemma_main_clock(a: u8, b: u8, d: u8)
    requires
        a < 64,
        b < 2,
        d < 2,
    ensures
        ((a | (b << 6u8)) | (d << 7u8)) % 64 == a,
        (((a | (b << 6u8)) | (d << 7u8)) / 64) % 2 == b,
        ((a | (b << 6u8)) | (d << 7u8)) / 128 == d,
{
    assert(((a | (b << 6u8)) | (d << 7u8)) % 64 == a && (((a | (b << 6u8)) | (d << 7u8)) / 64) % 2
        == b && ((a | (b << 6u8)) | (d << 7u8)) / 128 == d) by (bit_vector)
        requires
            a < 64,
            b < 2,
            d < 2,
    ;
}

proof fn lemma_mode_bits(v: u8, m: u8, w: u8, s: u8)
    requires
        m < 2,
        s == 0 || s == 0x80,
    ensures
        replaced(v, 0x01, m) % 2 == m,
        replaced(v, 0x01, m) / 2 == v / 2,
        replaced(w, 0x80, s) % 128 == w % 128,
        replaced(w, 0x80, s) / 128 == s / 128,
{
    assert(((v & !0x01u8) | (m & 0x01u8)) % 2 == m && ((v & !0x01u8) | (m & 0x01u8)) / 2 == v / 2)
        by (bit_vector)
        requires
            m < 2,
    ;
    assert(((w & !0x80u8) | (s & 0x80u8)) % 128 == w % 128 && ((w & !0x80u8) | (s & 0x80u8)) / 128
        == s / 128) by (bit_vector)
        requires
            s == 0 || s == 0x80,
    ;
}

} // verus!
