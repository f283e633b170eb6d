//! What the driver leaves in the chip's registers: every call, played on registers
//! that never fail, by register number and field.

use vstd::prelude::*;

use super::{
    bclk_code, clock_script, find, framed, init_rest, init_script, inversion_script,
    lemma_rate_filled, lemma_rate_played, lemma_rows_are_sound, microphone_script, multiplier_code,
    opened, rate_writes, row, volume_code, widened, with_bits, Config, Es8311, MclkSource, MicGain,
    BRING_UP, FRONT_END, POWER_UP, RAMPS, SUSPEND,
};
use crate::chip::laws::{keeps, lemma_nibble_pair, succeeds};
use crate::chip::script::{done, filled, lemma_table_played, played, stores};
use crate::chip::{Bits, Bus, CodecChip, I2sFormat, Mode, Module};
use crate::esp_core::error::Error;

verus! {

/// The clock rows of the ES8311 do what they are for: the master clock times the
/// multiplier is the sample rate times the two dividers that lead to it, there are
/// 64 bit clocks in a frame, and both converters run at one speed. The one
/// exception is 3.072 MHz at 8 kHz, whose pre-divider is left at one.
pub proof fn lemma_clock_rows(i: int)
    requires
        0 <= i < 75,
    ensures
        ({
            let c = row(i);
            let frame = 256 * c.lrck_h + c.lrck_l + 1;
            &&& i != 6 ==> c.mclk * c.pre_multi == c.pre_div * (c.rate * frame)
            &&& i == 6 ==> c.mclk == 3_072_000 && c.rate == 8000 && c.pre_div == 1 && c.pre_multi
                == 1 && frame == 256
            &&& frame == 64 * c.bclk_div
            &&& c.adc_div == c.dac_div
            &&& 1 <= c.adc_div <= 3
            &&& c.fs_mode <= 1
            &&& c.fs_mode == 1 <==> frame < 256 * c.adc_div
            &&& 16 <= c.adc_osr <= 24
            &&& 16 <= c.dac_osr <= 32
            &&& c.lrck_h < 64
            &&& c.bclk_div < 32
        }),
{
    lemma_row_dividers(i);
    if i != 6 {
        lemma_row_ratio(i);
    }
}

proof fn lemma_row_dividers(i: int)
    requires
        0 <= i < 75,
    ensures
        ({
            let c = row(i);
            let frame = 256 * c.lrck_h + c.lrck_l + 1;
            &&& i == 6 ==> c.mclk == 3_072_000 && c.rate == 8000 && c.pre_div == 1 && c.pre_multi
                == 1 && frame == 256
            &&& frame == 64 * c.bclk_div
            &&& c.adc_div == c.dac_div
            &&& 1 <= c.adc_div <= 3
            &&& c.fs_mode <= 1
            &&& c.fs_mode == 1 <==> frame < 256 * c.adc_div
            &&& 16 <= c.adc_osr <= 24
            &&& 16 <= c.dac_osr <= 32
            &&& c.lrck_h < 64
            &&& c.bclk_div < 32
        }),
{
    reveal(row);
}

/// What multiplying by a small constant comes to.
proof fn lemma_times(x: int, k: int)
    ensures
        k == 1 ==> x * k == x && k * x == x,
        k == 2 ==> x * k == 2 * x && k * x == 2 * x,
        k == 3 ==> x * k == 3 * x && k * x == 3 * x,
        k == 4 ==> x * k == 4 * x && k * x == 4 * x,
        k == 6 ==> x * k == 6 * x && k * x == 6 * x,
        k == 8 ==> x * k == 8 * x && k * x == 8 * x,
        k == 128 ==> x * k == 128 * x,
        k == 192 ==> x * k == 192 * x,
        k == 256 ==> x * k == 256 * x,
        k == 384 ==> x * k == 384 * x,
        k == 768 ==> x * k == 768 * x,
        k == 1536 ==> x * k == 1536 * x,
{
}

/// The ratio of master clock and rate, row by row: at one, two, four or eight
/// times the master clock, the dividers lead to the rate.
proof fn lemma_row_ratio(i: int)
    requires
        0 <= i < 75,
        i != 6,
    ensures
        ({
            let c = row(i);
            let frame = 256 * c.lrck_h + c.lrck_l + 1;
            c.mclk * c.pre_multi == c.pre_div * (c.rate * frame)
        }),
{
    let c = row(i);
    let frame = 256 * c.lrck_h + c.lrck_l + 1;
    lemma_times(c.mclk as int, c.pre_multi as int);
    lemma_times(c.rate as int, frame);
    lemma_times(c.rate * frame, c.pre_div as int);
    reveal(row);
}

/// A clock pair is found exactly if a row has it, and then that row is found: no
/// two rows have the same pair.
pub proof fn lemma_pairs_found(i: int)
    requires
        0 <= i < 75,
    ensures
        find(row(i).mclk, row(i).rate, 0) == Some(row(i)),
{
    let c = row(i);
    lemma_finds(c.mclk, c.rate, 0, i);
}

proof fn lemma_finds(mclk: u32, rate: u32, from: int, i: int)
    requires
        0 <= from <= i < 75,
        row(i).mclk == mclk,
        row(i).rate == rate,
    ensures
        find(mclk, rate, from) == Some(row(i)),
    decreases i - from,
{
    if from < i {
        lemma_pairs_differ(from, i);
        lemma_finds(mclk, rate, from + 1, i);
    }
}

proof fn lemma_pairs_differ(a: int, b: int)
    requires
        0 <= a < b < 75,
    ensures
        row(a).mclk != row(b).mclk || row(a).rate != row(b).rate,
{
    reveal(row);
}

/// A pair that no row has is not found.
pub proof fn lemma_other_pairs(mclk: u32, rate: u32, from: int)
    requires
        0 <= from,
        find(mclk, rate, from) is Some,
    ensures
        exists|i: int|
            from <= i < 75 && (#[trigger] row(i)).mclk == mclk && row(i).rate == rate
                && find(mclk, rate, from) == Some(row(i)),
    decreases 75 - from,
{
    if !(row(from).mclk == mclk && row(from).rate == rate) {
        lemma_other_pairs(mclk, rate, from + 1);
    }
}

proof fn lemma_divider_fields(v: u8, p: u8, m: u8)
    requires
        p < 8,
        m < 4,
    ensures
        ({
            let r = ((v & 0x07) | (p << 5u8)) | (m << 3u8);
            r / 32 == p && (r / 8) % 4 == m && r % 8 == v % 8
        }),
{
    assert((((v & 0x07) | (p << 5u8)) | (m << 3u8)) / 32 == p && ((((v & 0x07) | (p << 5u8)) | (m
        << 3u8)) / 8) % 4 == m && (((v & 0x07) | (p << 5u8)) | (m << 3u8)) % 8 == v % 8)
        by (bit_vector)
        requires
            p < 8,
            m < 4,
    ;
}

proof fn lemma_clock_fields(v: u8, f: u8, a: u8, d: u8, h: u8, b: u8)
    requires
        f < 2,
        a < 64,
        d < 128,
        h < 64,
        b < 32,
    ensures
        (((v & 0x80) | (f << 6u8)) | a) / 128 == v / 128,
        ((((v & 0x80) | (f << 6u8)) | a) / 64) % 2 == f,
        (((v & 0x80) | (f << 6u8)) | a) % 64 == a,
        ((v & 0x80) | d) / 128 == v / 128,
        ((v & 0x80) | d) % 128 == d,
        ((v & 0xC0) | h) / 64 == v / 64,
        ((v & 0xC0) | h) % 64 == h,
        ((v & 0xE0) | b) / 32 == v / 32,
        ((v & 0xE0) | b) % 32 == b,
{
    assert((((v & 0x80) | (f << 6u8)) | a) / 128 == v / 128 && ((((v & 0x80) | (f << 6u8)) | a) / 64)
        % 2 == f && (((v & 0x80) | (f << 6u8)) | a) % 64 == a) by (bit_vector)
        requires
            f < 2,
            a < 64,
    ;
    assert(((v & 0x80) | d) / 128 == v / 128 && ((v & 0x80) | d) % 128 == d) by (bit_vector)
        requires
            d < 128,
    ;
    assert(((v & 0xC0) | h) / 64 == v / 64 && ((v & 0xC0) | h) % 64 == h) by (bit_vector)
        requires
            h < 64,
    ;
    assert(((v & 0xE0) | b) / 32 == v / 32 && ((v & 0xE0) | b) % 32 == b) by (bit_vector)
        requires
            b < 32,
    ;
}

/// Clocking an ES8311 by row `i` of its table puts the fields of the row into the
/// registers 2 to 8, each in its place, and leaves every other bit and register.
/// The multiplier's code is the power of two, unless the clock comes from BCLK:
/// then it makes 256 times the rate of it.
pub proof fn lemma_clocked<I: Bus>(chip: Es8311<I>, file: Seq<u8>, i: int)
    requires
        file.len() == 256,
        0 <= i < 75,
    ensures
        ({
            let c = row(i);
            let p = played(chip.sample_rate_script(c.rate, c.mclk), file);
            let f = p.file;
            let multi = (f[2] / 8) % 4;
            &&& succeeds(p.answer)
            &&& p.writes.len() == 7
            &&& f.len() == 256
            &&& f[2] / 32 == c.pre_div - 1
            &&& f[2] % 8 == file[2] % 8
            &&& chip.mclk == MclkSource::Pin ==> c.pre_multi == (if multi == 0 {
                1int
            } else if multi == 1 {
                2
            } else if multi == 2 {
                4
            } else {
                8
            })
            &&& chip.mclk == MclkSource::Sclk ==> multi == (if c.rate == 8000 {
                2int
            } else {
                3
            })
            &&& f[3] / 128 == file[3] / 128
            &&& (f[3] / 64) % 2 == c.fs_mode
            &&& f[3] % 64 == c.adc_osr
            &&& f[4] / 128 == file[4] / 128
            &&& f[4] % 128 == c.dac_osr
            &&& f[5] / 16 == c.adc_div - 1
            &&& f[5] % 16 == c.dac_div - 1
            &&& f[6] / 32 == file[6] / 32
            &&& f[6] % 32 == (if c.bclk_div < 19 {
                c.bclk_div - 1
            } else {
                c.bclk_div as int
            })
            &&& f[7] / 64 == file[7] / 64
            &&& f[7] % 64 == c.lrck_h
            &&& f[8] == c.lrck_l
            &&& keeps(file, f, 0, 1)
            &&& keeps(file, f, 9, 255)
        }),
{
    let c = row(i);
    lemma_clock_rows(i);
    lemma_rows_are_sound(i);
    lemma_pairs_found(i);
    lemma_rate_played(c, chip.mclk, c.rate, done(), file);
    let w = rate_writes(c, chip.mclk, c.rate, file);
    lemma_rate_filled(w, file);
    let multi = multiplier_code(c, chip.mclk, c.rate);
    lemma_divider_fields(file[2], (c.pre_div - 1) as u8, multi);
    lemma_nibble_pair((c.adc_div - 1) as u8, (c.dac_div - 1) as u8);
    let b = bclk_code(c);
    lemma_clock_fields(file[3], c.fs_mode, c.adc_osr, c.dac_osr, c.lrck_h, b);
    lemma_clock_fields(file[4], c.fs_mode, c.adc_osr, c.dac_osr, c.lrck_h, b);
    lemma_clock_fields(file[6], c.fs_mode, c.adc_osr, c.dac_osr, c.lrck_h, b);
    lemma_clock_fields(file[7], c.fs_mode, c.adc_osr, c.dac_osr, c.lrck_h, b);
    assert(w + Seq::<(u8, u8)>::empty() =~= w);
}

/// A pair that no row has changes nothing and is answered as unsupported.
pub proof fn lemma_not_clocked<I: Bus>(
    chip: Es8311<I>,
    file: Seq<u8>,
    rate_hz: u32,
    mclk_hz: u32,
)
    requires
        forall|i: int|
            0 <= i < 75 ==> !((#[trigger] row(i)).mclk == mclk_hz && row(i).rate
                == rate_hz),
    ensures
        played(chip.sample_rate_script(rate_hz, mclk_hz), file).file == file,
        played(chip.sample_rate_script(rate_hz, mclk_hz), file).answer == Err::<Seq<u8>, Error>(
            Error::Unsupported,
        ),
{
    if find(mclk_hz, rate_hz, 0) is Some {
        lemma_other_pairs(mclk_hz, rate_hz, 0);
    }
}

/// What a serial port register of the ES8311 becomes: the two lowest bits are the
/// framing; 16-bit slots set bits 2 and 3, 32-bit slots bit 4; DSP mode clears bit
/// 5; the rest stays.
pub open spec fn port_set(before: u8, fmt: I2sFormat, bits: Bits, after: u8) -> bool {
    &&& after % 4 == (match fmt {
        I2sFormat::Standard => 0int,
        I2sFormat::LeftJustified => 1,
        I2sFormat::Dsp => 3,
    })
    &&& (after / 4) % 4 == (if bits == Bits::B16 {
        3int
    } else {
        ((before / 4) % 4) as int
    })
    &&& (after / 16) % 2 == (if bits == Bits::B32 {
        1int
    } else {
        ((before / 16) % 2) as int
    })
    &&& (after / 32) % 2 == (if fmt == I2sFormat::Dsp {
        0int
    } else {
        ((before / 32) % 2) as int
    })
    &&& after / 64 == before / 64
}

proof fn lemma_framed(v: u8, fmt: I2sFormat)
    ensures
        ({
            let w = framed(v, fmt);
            &&& w % 4 == (match fmt {
                I2sFormat::Standard => 0int,
                I2sFormat::LeftJustified => 1,
                I2sFormat::Dsp => 3,
            })
            &&& (w / 4) % 4 == (v / 4) % 4
            &&& (w / 16) % 2 == (v / 16) % 2
            &&& (w / 32) % 2 == (if fmt == I2sFormat::Dsp {
                0int
            } else {
                ((v / 32) % 2) as int
            })
            &&& w / 64 == v / 64
        }),
{
    match fmt {
        I2sFormat::Standard => {
            assert((v & 0xFC) % 4 == 0 && ((v & 0xFC) / 4) % 4 == (v / 4) % 4 && ((v & 0xFC) / 16)
                % 2 == (v / 16) % 2 && ((v & 0xFC) / 32) % 2 == (v / 32) % 2 && (v & 0xFC) / 64 == v
                / 64) by (bit_vector);
        },
        I2sFormat::LeftJustified => {
            assert(((v & 0xFC) | 0x01) % 4 == 1 && (((v & 0xFC) | 0x01) / 4) % 4 == (v / 4) % 4 && (
            ((v & 0xFC) | 0x01) / 16) % 2 == (v / 16) % 2 && (((v & 0xFC) | 0x01) / 32) % 2 == (v
                / 32) % 2 && ((v & 0xFC) | 0x01) / 64 == v / 64) by (bit_vector);
        },
        I2sFormat::Dsp => {
            assert(((v & 0xDC) | 0x03) % 4 == 3 && (((v & 0xDC) | 0x03) / 4) % 4 == (v / 4) % 4 && (
            ((v & 0xDC) | 0x03) / 16) % 2 == (v / 16) % 2 && (((v & 0xDC) | 0x03) / 32) % 2 == 0
                && ((v & 0xDC) | 0x03) / 64 == v / 64) by (bit_vector);
        },
    }
}

proof fn lemma_widened(v: u8, bits: Bits)
    ensures
        ({
            let w = widened(v, bits);
            &&& w % 4 == v % 4
            &&& (w / 4) % 4 == (if bits == Bits::B16 {
                3int
            } else {
                ((v / 4) % 4) as int
            })
            &&& (w / 16) % 2 == (if bits == Bits::B32 {
                1int
            } else {
                ((v / 16) % 2) as int
            })
            &&& (w / 32) % 2 == (v / 32) % 2
            &&& w / 64 == v / 64
        }),
{
    match bits {
        Bits::B16 => {
            assert((v | 0x0C) % 4 == v % 4 && ((v | 0x0C) / 4) % 4 == 3 && ((v | 0x0C) / 16) % 2 == (v
                / 16) % 2 && ((v | 0x0C) / 32) % 2 == (v / 32) % 2 && (v | 0x0C) / 64 == v / 64)
                by (bit_vector);
        },
        Bits::B24 => {},
        Bits::B32 => {
            assert((v | 0x10) % 4 == v % 4 && ((v | 0x10) / 4) % 4 == (v / 4) % 4 && ((v | 0x10) / 16)
                % 2 == 1 && ((v | 0x10) / 32) % 2 == (v / 32) % 2 && (v | 0x10) / 64 == v / 64)
                by (bit_vector);
        },
    }
}

proof fn lemma_port_set(v: u8, fmt: I2sFormat, bits: Bits)
    ensures
        port_set(v, fmt, bits, widened(framed(v, fmt), bits)),
{
    lemma_framed(v, fmt);
    lemma_widened(framed(v, fmt), bits);
}

/// Setting the format of an ES8311 changes its two serial port registers alike,
/// and nothing else.
pub proof fn lemma_formatted<I: Bus>(
    chip: Es8311<I>,
    file: Seq<u8>,
    fmt: I2sFormat,
    bits: Bits,
)
    requires
        file.len() == 256,
    ensures
        ({
            let p = played(chip.format_script(fmt, bits), file);
            &&& succeeds(p.answer)
            &&& p.file.len() == 256
            &&& port_set(file[9], fmt, bits, p.file[9])
            &&& port_set(file[10], fmt, bits, p.file[10])
            &&& keeps(file, p.file, 0, 8)
            &&& keeps(file, p.file, 11, 255)
        }),
{
    reveal_with_fuel(played, 9);
    lemma_port_set(file[9], fmt, bits);
    lemma_port_set(file[10], fmt, bits);
}

/// Starting an ES8311 opens the serial ports of what is started and shuts the
/// others (bit 6 shuts a port), powers the analog part, and chooses the microphone
/// by bit 6 of register 0x14.
pub proof fn lemma_started<I: Bus>(chip: Es8311<I>, file: Seq<u8>, module: Module)
    requires
        file.len() == 256,
    ensures
        ({
            let p = played(chip.start_script(module), file);
            let f = p.file;
            &&& succeeds(p.answer)
            &&& f.len() == 256
            &&& (f[9] / 64) % 2 == (if module == Module::Adc {
                1int
            } else {
                0
            })
            &&& f[9] % 64 == file[9] % 64
            &&& f[9] / 128 == file[9] / 128
            &&& (f[10] / 64) % 2 == (if module == Module::Dac {
                1int
            } else {
                0
            })
            &&& f[10] % 64 == file[10] % 64
            &&& f[10] / 128 == file[10] / 128
            &&& f[0x0D] == 0x01
            &&& f[0x0E] == 0x02
            &&& f[0x12] == 0x00
            &&& f[0x14] == (if chip.dmic {
                0x5Au8
            } else {
                0x1A
            })
            &&& f[0x15] == 0x40
            &&& f[0x17] == 0xBF
            &&& f[0x37] == 0x08
            &&& f[0x44] == 0x58
            &&& f[0x45] == 0x00
            &&& keeps(file, f, 0, 8)
            &&& keeps(file, f, 0x0B, 0x0C)
            &&& keeps(file, f, 0x0F, 0x11)
            &&& keeps(file, f, 0x13, 0x13)
            &&& keeps(file, f, 0x16, 0x16)
            &&& keeps(file, f, 0x18, 0x36)
            &&& keeps(file, f, 0x38, 0x43)
            &&& keeps(file, f, 0x46, 0xFF)
        }),
{
    let dac = opened(file[9], module != Module::Adc);
    let adc = opened(file[10], module != Module::Dac);
    lemma_port_shut(file[9]);
    lemma_port_shut(file[10]);
    let f1 = file.update(9, dac).update(10, adc);
    let mic = microphone_script(chip.dmic);
    let f2 = filled(f1, POWER_UP@);
    lemma_four_filled(f1, POWER_UP@);
    assert(0x1Au8 | 0x40 == 0x5A && 0x1Au8 & !0x40u8 == 0x1A) by (bit_vector);
    let f3 = f2.update(0x14, with_bits(0x1A, 0x40, chip.dmic));
    lemma_five_filled(f3, RAMPS@);
    let script = chip.start_script(module);
    assert(played(script, file).file == played(stores(POWER_UP@, mic), f1).file && played(
        script,
        file,
    ).answer == played(stores(POWER_UP@, mic), f1).answer) by {
        reveal_with_fuel(played, 5);
    }
    lemma_table_played(POWER_UP@, mic, f1);
    assert(played(mic, f2).file == played(stores(RAMPS@, done()), f3).file && played(
        mic,
        f2,
    ).answer == played(stores(RAMPS@, done()), f3).answer) by {
        reveal_with_fuel(played, 3);
    }
    lemma_table_played(RAMPS@, done(), f3);
}

proof fn lemma_port_shut(v: u8)
    ensures
        (opened(v, true) / 64) % 2 == 0,
        opened(v, true) % 64 == v % 64,
        opened(v, true) / 128 == v / 128,
        (opened(v, false) / 64) % 2 == 1,
        opened(v, false) % 64 == v % 64,
        opened(v, false) / 128 == v / 128,
{
    assert(((((v & 0xBF) | 0x40) & !0x40u8) / 64) % 2 == 0 && (((v & 0xBF) | 0x40) & !0x40u8) % 64
        == v % 64 && (((v & 0xBF) | 0x40) & !0x40u8) / 128 == v / 128 && (((v & 0xBF) | 0x40) / 64)
        % 2 == 1 && ((v & 0xBF) | 0x40) % 64 == v % 64 && ((v & 0xBF) | 0x40) / 128 == v / 128)
        by (bit_vector);
}

proof fn lemma_four_filled(file: Seq<u8>, t: Seq<(u8, u8)>)
    requires
        t.len() == 4,
    ensures
        filled(file, t) == file.update(t[0].0 as int, t[0].1).update(t[1].0 as int, t[1].1).update(
            t[2].0 as int,
            t[2].1,
        ).update(t[3].0 as int, t[3].1),
{
    reveal_with_fuel(filled, 5);
}

proof fn lemma_five_filled(file: Seq<u8>, t: Seq<(u8, u8)>)
    requires
        t.len() == 5,
    ensures
        filled(file, t) == file.update(t[0].0 as int, t[0].1).update(t[1].0 as int, t[1].1).update(
            t[2].0 as int,
            t[2].1,
        ).update(t[3].0 as int, t[3].1).update(t[4].0 as int, t[4].1),
{
    reveal_with_fuel(filled, 6);
}

/// Stopping an ES8311 silences it and powers the analog part down.
pub proof fn lemma_stopped<I: Bus>(chip: Es8311<I>, file: Seq<u8>)
    requires
        file.len() == 256,
    ensures
        ({
            let p = played(chip.stop_script(), file);
            let f = p.file;
            &&& succeeds(p.answer)
            &&& f.len() == 256
            &&& f[0x0D] == 0xFA
            &&& f[0x0E] == 0xFF
            &&& f[0x12] == 0x02
            &&& f[0x14] == 0x00
            &&& f[0x15] == 0x00
            &&& f[0x17] == 0x00
            &&& f[0x32] == 0x00
            &&& f[0x45] == 0x01
            &&& keeps(file, f, 0, 0x0C)
            &&& keeps(file, f, 0x0F, 0x11)
            &&& keeps(file, f, 0x13, 0x13)
            &&& keeps(file, f, 0x16, 0x16)
            &&& keeps(file, f, 0x18, 0x31)
            &&& keeps(file, f, 0x33, 0x44)
            &&& keeps(file, f, 0x46, 0xFF)
        }),
{
    let t = SUSPEND@;
    lemma_table_played(t, done(), file);
    reveal_with_fuel(filled, 9);
}

/// Muting an ES8311 sets the bits 5 and 6 of register 0x31, unmuting clears them;
/// nothing else changes.
pub proof fn lemma_muted<I: Bus>(chip: Es8311<I>, file: Seq<u8>, mute: bool)
    requires
        file.len() == 256,
    ensures
        ({
            let p = played(chip.mute_script(mute), file);
            let f = p.file;
            &&& succeeds(p.answer)
            &&& (f[0x31] / 32) % 4 == (if mute {
                3int
            } else {
                0
            })
            &&& f[0x31] % 32 == file[0x31] % 32
            &&& f[0x31] / 128 == file[0x31] / 128
            &&& keeps(file, f, 0, 0x30)
            &&& keeps(file, f, 0x32, 0xFF)
        }),
{
    reveal_with_fuel(played, 3);
    let v = file[0x31];
    assert((((v & 0x9F) | 0x60) / 32) % 4 == 3 && ((v & 0x9F) | 0x60) % 32 == v % 32 && ((v & 0x9F)
        | 0x60) / 128 == v / 128 && ((v & 0x9F) / 32) % 4 == 0 && (v & 0x9F) % 32 == v % 32 && (v
        & 0x9F) / 128 == v / 128) by (bit_vector);
}

/// The volume of an ES8311 or ES8156: half a decibel a step, 0 dB at 0xBF, from
/// -95.5 dB to +32 dB, where it stops.
pub proof fn lemma_volume(half_db: int)
    ensures
        -191 <= half_db <= 64 ==> volume_code(half_db) == 191 + half_db,
        half_db < -191 ==> volume_code(half_db) == 0,
        half_db > 64 ==> volume_code(half_db) == 255,
{
}

/// The microphone gains of an ES8311 are 6 dB apart, and so are their codes one.
pub proof fn lemma_gains(gain: MicGain)
    ensures
        6 * gain.code_spec() == (match gain {
            MicGain::Db0 => 0int,
            MicGain::Db6 => 6,
            MicGain::Db12 => 12,
            MicGain::Db18 => 18,
            MicGain::Db24 => 24,
            MicGain::Db30 => 30,
            MicGain::Db36 => 36,
            MicGain::Db42 => 42,
        }),
{
}

/// Bringing up: the fixed values; bit 6 of register 0 is the mode; register 1 turns
/// the clocks on, takes them from BCLK by bit 7 and inverts the master clock by bit
/// 6; bit 5 of register 6 inverts BCLK; and the chip is clocked by its row.
pub proof fn lemma_brought_up(file: Seq<u8>, cfg: Config, i: int)
    requires
        file.len() == 256,
        0 <= i < 75,
        row(i).mclk == cfg.mclk_hz,
        row(i).rate == cfg.sample_rate_hz,
    ensures
        ({
            let p = played(init_script(cfg), file);
            let f = p.file;
            let c = row(i);
            &&& succeeds(p.answer)
            &&& f[0x00] == (if cfg.mode == Mode::Master {
                0xC0u8
            } else {
                0x80
            })
            &&& f[0x01] == 0x3F + (if cfg.mclk == MclkSource::Sclk {
                0x80int
            } else {
                0
            }) + (if cfg.invert_mclk {
                0x40int
            } else {
                0
            })
            &&& f[0x02] / 32 == c.pre_div - 1
            &&& f[0x03] % 64 == c.adc_osr
            &&& (f[0x03] / 64) % 2 == c.fs_mode
            &&& f[0x04] % 128 == c.dac_osr
            &&& f[0x05] / 16 == c.adc_div - 1
            &&& f[0x05] % 16 == c.dac_div - 1
            &&& (f[0x06] / 32) % 2 == (if cfg.invert_sclk {
                1int
            } else {
                0
            })
            &&& f[0x06] % 32 == (if c.bclk_div < 19 {
                c.bclk_div - 1
            } else {
                c.bclk_div as int
            })
            &&& f[0x06] / 64 == file[0x06] / 64
            &&& f[0x07] % 64 == c.lrck_h
            &&& f[0x08] == c.lrck_l
            &&& f[0x0B] == 0x00
            &&& f[0x0C] == 0x00
            &&& f[0x10] == 0x1F
            &&& f[0x11] == 0x7F
            &&& f[0x13] == 0x10
            &&& f[0x16] == 0x24
            &&& f[0x1B] == 0x0A
            &&& f[0x1C] == 0x6A
            &&& f[0x44] == 0x08
            &&& keeps(file, f, 0x09, 0x0A)
            &&& keeps(file, f, 0x0D, 0x0F)
            &&& keeps(file, f, 0x14, 0x15)
            &&& keeps(file, f, 0x17, 0x1A)
            &&& keeps(file, f, 0x1D, 0x43)
            &&& keeps(file, f, 0x45, 0xFF)
        }),
{
    let c = row(i);
    lemma_clock_rows(i);
    lemma_rows_are_sound(i);
    lemma_pairs_found(i);
    let ready = filled(file, BRING_UP@);
    lemma_bring_up_registers(file);
    let rest = init_rest(cfg);
    lemma_table_played(BRING_UP@, rest, file);
    let master = with_bits(0x80, 0x40, cfg.mode == Mode::Master);
    let source = with_bits(0x3F, 0x80, cfg.mclk == MclkSource::Sclk);
    let tail = inversion_script(cfg);
    let clocks = clock_script(cfg.mclk_hz, cfg.sample_rate_hz, cfg.mclk, tail);
    let f3 = ready.update(0, master).update(1, 0x3F).update(1, source);
    assert(played(rest, ready).file == played(clocks, f3).file && played(rest, ready).answer
        == played(clocks, f3).answer) by {
        reveal_with_fuel(played, 6);
    }
    lemma_rate_played(c, cfg.mclk, cfg.sample_rate_hz, tail, f3);
    let w = rate_writes(c, cfg.mclk, cfg.sample_rate_hz, f3);
    lemma_rate_filled(w, f3);
    let f4 = filled(f3, w);
    let inverted = with_bits(source, 0x40, cfg.invert_mclk);
    let bclk = with_bits(f4[6], 0x20, cfg.invert_sclk);
    let f6 = f4.update(1, inverted).update(6, bclk);
    assert(played(tail, f4).file == played(stores(FRONT_END@, done()), f6).file && played(
        tail,
        f4,
    ).answer == played(stores(FRONT_END@, done()), f6).answer) by {
        reveal_with_fuel(played, 5);
    }
    lemma_table_played(FRONT_END@, done(), f6);
    assert(filled(f6, FRONT_END@) == f6.update(0x13, 0x10).update(0x1B, 0x0A).update(0x1C, 0x6A)) by {
        reveal_with_fuel(filled, 4);
    }
    let b = bclk_code(c);
    lemma_divider_fields(f3[2], (c.pre_div - 1) as u8, multiplier_code(c, cfg.mclk, c.rate));
    lemma_nibble_pair((c.adc_div - 1) as u8, (c.dac_div - 1) as u8);
    lemma_clock_fields(f3[3], c.fs_mode, c.adc_osr, c.dac_osr, c.lrck_h, b);
    lemma_clock_fields(f3[4], c.fs_mode, c.adc_osr, c.dac_osr, c.lrck_h, b);
    lemma_clock_fields(f3[7], c.fs_mode, c.adc_osr, c.dac_osr, c.lrck_h, b);
    lemma_bclk_bits(file[6], b);
    assert(0x80u8 | 0x40 == 0xC0 && 0x80u8 & !0x40u8 == 0x80 && 0x3Fu8 | 0x80 == 0xBF && 0x3Fu8
        & !0x80u8 == 0x3F && 0x3Fu8 | 0x40 == 0x7F && 0x3Fu8 & !0x40u8 == 0x3F && 0xBFu8 | 0x40 == 0xFF
        && 0xBFu8 & !0x40u8 == 0xBF) by (bit_vector);
}

proof fn lemma_bclk_bits(v: u8, b: u8)
    requires
        b < 32,
    ensures
        ((((v & 0xE0) | b) | 0x20) / 32) % 2 == 1,
        (((v & 0xE0) | b) | 0x20) % 32 == b,
        (((v & 0xE0) | b) | 0x20) / 64 == v / 64,
        ((((v & 0xE0) | b) & !0x20u8) / 32) % 2 == 0,
        (((v & 0xE0) | b) & !0x20u8) % 32 == b,
        (((v & 0xE0) | b) & !0x20u8) / 64 == v / 64,
{
    assert(((((v & 0xE0) | b) | 0x20) / 32) % 2 == 1 && (((v & 0xE0) | b) | 0x20) % 32 == b && (((v
        & 0xE0) | b) | 0x20) / 64 == v / 64 && ((((v & 0xE0) | b) & !0x20u8) / 32) % 2 == 0 && (((v
        & 0xE0) | b) & !0x20u8) % 32 == b && (((v & 0xE0) | b) & !0x20u8) / 64 == v / 64)
        by (bit_vector)
        requires
            b < 32,
    ;
}

proof fn lemma_bring_up_registers(file: Seq<u8>)
    requires
        file.len() == 256,
    ensures
        filled(file, BRING_UP@) =~= file.update(0x44, 0x08).update(0x01, 0x30).update(
            0x02,
            0x00,
        ).update(0x03, 0x10).update(0x16, 0x24).update(0x04, 0x10).update(0x05, 0x00).update(
            0x0B,
            0x00,
        ).update(0x0C, 0x00).update(0x10, 0x1F).update(0x11, 0x7F).update(0x00, 0x80),
{
    reveal_with_fuel(filled, 14);
}

} // verus!
