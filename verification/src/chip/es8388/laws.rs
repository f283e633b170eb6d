//! What the driver leaves in the chip's registers: every call, played on registers
//! that never fail, by register number and field.

use vstd::prelude::*;

use super::{
    bypass_script, framing, init_script, listen_script, mic_gain_script, mute_bit_script,
    outputs_script, pulse_script, ratio_code, stop_module_script, volume_code, volume_script, width,
    AdcInput, Config, DacOutputs, Es8388, ADC_PATH, BYPASS_ON, DAC_PATH, POWER_ON,
};
use crate::chip::laws::{keeps, lemma_nibble_pair, succeeds};
use crate::chip::script::{
    done, filled, lemma_table_played, lemma_write_played, played, store, stores,
};
use crate::chip::{Bits, Bus, CodecChip, I2sFormat, Mode, Module};
use crate::esp_core::error::Error;

verus! {

/// The volume of an ES8388: half a decibel down a step, from 0 dB to -96 dB, where
/// it stops.
pub proof fn lemma_volume(half_db: int)
    ensures
        -192 <= half_db <= 0 ==> volume_code(half_db) == -half_db,
        half_db < -192 ==> volume_code(half_db) == 192,
        half_db > 0 ==> volume_code(half_db) == 0,
{
}

/// Setting the volume of an ES8388 sets both channels of what it is set for, and
/// nothing else.
pub proof fn lemma_volume_set(file: Seq<u8>, module: Module, half_db: int)
    requires
        file.len() == 256,
    ensures
        ({
            let p = played(volume_script(module, half_db, done()), file);
            let f = p.file;
            let v = volume_code(half_db);
            &&& succeeds(p.answer)
            &&& module != Module::Dac ==> f[0x10] == v && f[0x11] == v
            &&& module == Module::Dac ==> keeps(file, f, 0x10, 0x11)
            &&& module != Module::Adc ==> f[0x1A] == v && f[0x1B] == v
            &&& module == Module::Adc ==> keeps(file, f, 0x1A, 0x1B)
            &&& keeps(file, f, 0, 0x0F)
            &&& keeps(file, f, 0x12, 0x19)
            &&& keeps(file, f, 0x1C, 0xFF)
        }),
{
    reveal_with_fuel(played, 5);
}

/// The clock ratios of an ES8388: the multiples of 125 and of 136 have the codes
/// 16 to 27, the others 0 to 12, each in order. There are 25 of them.
pub proof fn lemma_ratios(a: u32, b: u32)
    ensures
        ratio_code(a) matches Some(x) ==> if a % 125 == 0 || a % 136 == 0 {
            16 <= x <= 27
        } else {
            x <= 12
        },
        ratio_code(a) is Some && ratio_code(b) is Some && a < b && (a % 125 == 0 || a % 136 == 0
            <==> b % 125 == 0 || b % 136 == 0) ==> ratio_code(a)->0 < ratio_code(b)->0,
        ratio_code(a) is Some <==> ({
            ||| a == 125 || a == 250 || a == 375 || a == 500 || a == 750 || a == 1000 || a == 1500
            ||| a == 136 || a == 272 || a == 544 || a == 1088 || a == 1496
            ||| a == 128 || a == 256 || a == 512 || a == 1024
            ||| a == 192 || a == 384 || a == 768 || a == 1536
            ||| a == 576 || a == 1152 || a == 2304
            ||| a == 1408 || a == 2112
        }),
{
}

/// Clocking an ES8388: where the master clock is a whole multiple of the rate that
/// has a code, both converters get it; otherwise nothing changes.
pub proof fn lemma_clocked<I: Bus>(
    chip: Es8388<I>,
    file: Seq<u8>,
    rate_hz: u32,
    mclk_hz: u32,
    ratio: u32,
)
    requires
        file.len() == 256,
    ensures
        ({
            let p = played(chip.sample_rate_script(rate_hz, mclk_hz), file);
            let f = p.file;
            &&& rate_hz > 0 && mclk_hz == ratio * rate_hz && ratio_code(ratio) is Some ==> {
                &&& succeeds(p.answer)
                &&& Some(f[0x0D]) == ratio_code(ratio)
                &&& Some(f[0x18]) == ratio_code(ratio)
                &&& keeps(file, f, 0, 0x0C)
                &&& keeps(file, f, 0x0E, 0x17)
                &&& keeps(file, f, 0x19, 0xFF)
            }
            &&& rate_hz > 0 && mclk_hz == ratio * rate_hz && ratio_code(ratio) is None ==> {
                &&& p.answer == Err::<Seq<u8>, Error>(Error::Unsupported)
                &&& f == file
            }
            &&& rate_hz == 0 || mclk_hz as int % rate_hz as int != 0 ==> {
                &&& p.answer == Err::<Seq<u8>, Error>(Error::Unsupported)
                &&& f == file
            }
        }),
{
    reveal_with_fuel(played, 3);
    if rate_hz > 0 && mclk_hz == ratio * rate_hz {
        vstd::arithmetic::div_mod::lemma_fundamental_div_mod_converse(
            mclk_hz as int,
            rate_hz as int,
            ratio as int,
            0,
        );
    }
}

/// The format of an ES8388: the framing code, and the width code, each in its
/// field of the ADC's register 0x0C and the DAC's 0x17; the other bits stay.
pub proof fn lemma_formatted<I: Bus>(
    chip: Es8388<I>,
    file: Seq<u8>,
    fmt: I2sFormat,
    bits: Bits,
)
    requires
        file.len() == 256,
    ensures
        ({
            let p = played(chip.format_script(fmt, bits), file);
            let f = p.file;
            let framing = match fmt {
                I2sFormat::Standard => 0int,
                I2sFormat::LeftJustified => 1,
                I2sFormat::Dsp => 3,
            };
            let width = match bits {
                Bits::B16 => 3int,
                Bits::B24 => 0,
                Bits::B32 => 4,
            };
            &&& succeeds(p.answer)
            &&& f[0x0C] % 4 == framing
            &&& (f[0x0C] / 4) % 8 == width
            &&& f[0x0C] / 32 == file[0x0C] / 32
            &&& f[0x17] % 2 == file[0x17] % 2
            &&& (f[0x17] / 2) % 4 == framing
            &&& (f[0x17] / 8) % 8 == width
            &&& f[0x17] / 64 == file[0x17] / 64
            &&& keeps(file, f, 0, 0x0B)
            &&& keeps(file, f, 0x0D, 0x16)
            &&& keeps(file, f, 0x18, 0xFF)
        }),
{
    reveal_with_fuel(played, 9);
    let (a, d) = (file[0x0C], file[0x17]);
    let (g, w) = (framing(fmt), width(bits));
    assert(((((a & 0xFC) | g) & 0xE3) | (w << 2u8)) % 4 == g && (((((a & 0xFC) | g) & 0xE3) | (w
        << 2u8)) / 4) % 8 == w && ((((a & 0xFC) | g) & 0xE3) | (w << 2u8)) / 32 == a / 32)
        by (bit_vector)
        requires
            g < 4,
            w < 8,
    ;
    assert(((((d & 0xF9) | (g << 1u8)) & 0xC7) | (w << 3u8)) % 2 == d % 2 && (((((d & 0xF9) | (g
        << 1u8)) & 0xC7) | (w << 3u8)) / 2) % 4 == g && (((((d & 0xF9) | (g << 1u8)) & 0xC7) | (w
        << 3u8)) / 8) % 8 == w && ((((d & 0xF9) | (g << 1u8)) & 0xC7) | (w << 3u8)) / 64 == d / 64)
        by (bit_vector)
        requires
            g < 4,
            w < 8,
    ;
}

proof fn lemma_bit_two(v: u8)
    ensures
        (((v & 0xFB) | 0x04) / 4) % 2 == 1,
        ((v & 0xFB) | 0x04) % 4 == v % 4,
        ((v & 0xFB) | 0x04) / 8 == v / 8,
        (((v & 0xFB) | 0x00) / 4) % 2 == 0,
        ((v & 0xFB) | 0x00) % 4 == v % 4,
        ((v & 0xFB) | 0x00) / 8 == v / 8,
{
    assert((((v & 0xFB) | 0x04) / 4) % 2 == 1 && ((v & 0xFB) | 0x04) % 4 == v % 4 && ((v & 0xFB)
        | 0x04) / 8 == v / 8 && (((v & 0xFB) | 0x00) / 4) % 2 == 0 && ((v & 0xFB) | 0x00) % 4 == v
        % 4 && ((v & 0xFB) | 0x00) / 8 == v / 8) by (bit_vector);
}

/// Muting an ES8388 sets bit 2 of register 0x19, unmuting clears it; nothing else
/// changes.
pub proof fn lemma_muted<I: Bus>(chip: Es8388<I>, file: Seq<u8>, mute: bool)
    requires
        file.len() == 256,
    ensures
        ({
            let p = played(chip.mute_script(mute), file);
            let f = p.file;
            &&& succeeds(p.answer)
            &&& (f[0x19] / 4) % 2 == (if mute {
                1int
            } else {
                0
            })
            &&& f[0x19] % 4 == file[0x19] % 4
            &&& f[0x19] / 8 == file[0x19] / 8
            &&& keeps(file, f, 0, 0x18)
            &&& keeps(file, f, 0x1A, 0xFF)
        }),
{
    reveal_with_fuel(played, 3);
    lemma_bit_two(file[0x19]);
}

/// Starting an ES8388 powers what is started and unmutes the DAC if it is; the
/// chip's state machine is pulsed only where the mixer register changed.
pub proof fn lemma_started<I: Bus>(chip: Es8388<I>, file: Seq<u8>, module: Module)
    requires
        file.len() == 256,
    ensures
        ({
            let p = played(chip.start_script(module), file);
            let f = p.file;
            &&& succeeds(p.answer)
            &&& f[0x2B] == 0x80
            &&& f[0x02] == (if file[0x2B] != 0x80 {
                0x00u8
            } else {
                file[0x02]
            })
            &&& file[0x2B] != 0x80 ==> p.writes[1] == (0x02u8, 0xF0u8) && p.writes[2] == (
                0x02u8,
                0x00u8,
            )
            &&& f[0x03] == (if module != Module::Dac {
                0x00u8
            } else {
                file[0x03]
            })
            &&& module != Module::Adc ==> {
                &&& f[0x04] == 0x3C
                &&& (f[0x19] / 4) % 2 == 0
                &&& f[0x19] % 4 == file[0x19] % 4
                &&& f[0x19] / 8 == file[0x19] / 8
            }
            &&& module == Module::Adc ==> f[0x04] == file[0x04] && f[0x19] == file[0x19]
            &&& keeps(file, f, 0, 1)
            &&& keeps(file, f, 5, 0x18)
            &&& keeps(file, f, 0x1A, 0x2A)
            &&& keeps(file, f, 0x2C, 0xFF)
        }),
{
    reveal_with_fuel(played, 10);
    lemma_bit_two(file[0x19]);
}

/// Stopping an ES8388, or one of its converters: the DAC muted and its outputs off,
/// the ADC off; both together also stop the mixer's clock.
pub proof fn lemma_stopped(file: Seq<u8>, module: Module)
    requires
        file.len() == 256,
    ensures
        ({
            let p = played(stop_module_script(module), file);
            let f = p.file;
            &&& succeeds(p.answer)
            &&& module != Module::Adc ==> {
                &&& f[0x04] == 0x00
                &&& (f[0x19] / 4) % 2 == 1
                &&& f[0x19] % 4 == file[0x19] % 4
                &&& f[0x19] / 8 == file[0x19] / 8
            }
            &&& module == Module::Adc ==> f[0x04] == file[0x04] && f[0x19] == file[0x19]
            &&& f[0x03] == (if module != Module::Dac {
                0xFFu8
            } else {
                file[0x03]
            })
            &&& f[0x2B] == (if module == Module::AdcDac {
                0x9Cu8
            } else {
                file[0x2B]
            })
            &&& keeps(file, f, 0, 2)
            &&& keeps(file, f, 5, 0x18)
            &&& keeps(file, f, 0x1A, 0x2A)
            &&& keeps(file, f, 0x2C, 0xFF)
        }),
{
    reveal_with_fuel(played, 6);
    lemma_bit_two(file[0x19]);
}

/// The microphone gain of an ES8388: up to 24 dB in steps of 3 dB, the same step
/// count for both amplifiers; any other gain is refused and changes nothing.
pub proof fn lemma_mic_gain(file: Seq<u8>, gain_db: u8)
    requires
        file.len() == 256,
    ensures
        ({
            let p = played(mic_gain_script(gain_db), file);
            let f = p.file;
            let known = gain_db <= 24 && gain_db % 3 == 0;
            &&& known ==> {
                &&& succeeds(p.answer)
                &&& 3 * (f[9] / 16) == gain_db
                &&& 3 * (f[9] % 16) == gain_db
                &&& keeps(file, f, 0, 8)
                &&& keeps(file, f, 10, 255)
            }
            &&& !known ==> p.answer == Err::<Seq<u8>, Error>(Error::Unsupported) && f == file
        }),
{
    reveal_with_fuel(played, 2);
    let n = gain_db / 3;
    if gain_db <= 24 && gain_db % 3 == 0 {
        lemma_nibble_pair(n, n);
    }
}

/// Where the ADC of an ES8388 listens, by its code.
pub proof fn lemma_inputs(a: AdcInput, b: AdcInput)
    ensures
        a.code_spec() == b.code_spec() ==> a == b,
        a.code_spec() == (match a {
            AdcInput::Line1 => 0x00u8,
            AdcInput::Mic1 => 0x05,
            AdcInput::Mic2 => 0x06,
            AdcInput::Line2 => 0x50,
            AdcInput::Difference => 0xF0,
        }),
{
}

/// Bringing an ES8388 up: master or slave by register 8, the outputs and the input
/// as configured, both converters at 16-bit I2S and 256 clocks a frame, the ADC at
/// 0 dB and powered, the DAC muted until it is started.
pub proof fn lemma_brought_up(file: Seq<u8>, cfg: Config)
    requires
        file.len() == 256,
    ensures
        ({
            let p = played(init_script(cfg), file);
            let f = p.file;
            &&& succeeds(p.answer)
            &&& f[0x00] == 0x12
            &&& f[0x01] == 0x50
            &&& f[0x02] == 0x00
            &&& f[0x03] == 0x09
            &&& f[0x04] == cfg.dac_output.0
            &&& f[0x08] == (if cfg.mode == Mode::Master {
                1u8
            } else {
                0
            })
            &&& f[0x09] == 0xBB
            &&& f[0x0A] == cfg.adc_input.code_spec()
            &&& f[0x0B] == 0x02
            &&& f[0x0C] == 0x0C
            &&& f[0x0D] == 0x02
            &&& f[0x10] == 0x00
            &&& f[0x11] == 0x00
            &&& f[0x17] == 0x18
            &&& f[0x18] == 0x02
            &&& f[0x19] == 0x04
            &&& f[0x26] == 0x00
            &&& f[0x27] == 0x90
            &&& f[0x2A] == 0x90
            &&& f[0x2B] == 0x80
            &&& f[0x2D] == 0x00
            &&& f[0x2E] == 0x1E
            &&& f[0x2F] == 0x1E
            &&& f[0x30] == 0x00
            &&& f[0x31] == 0x00
            &&& f[0x35] == 0xA0
            &&& f[0x37] == 0xD0
            &&& f[0x39] == 0xD0
            &&& keeps(file, f, 0x05, 0x07)
            &&& keeps(file, f, 0x0E, 0x0F)
            &&& keeps(file, f, 0x12, 0x16)
            &&& keeps(file, f, 0x1A, 0x25)
            &&& keeps(file, f, 0x3A, 0xFF)
        }),
{
    let powered = store(0x03, 0x09, done());
    let leveled = volume_script(Module::Adc, 0, powered);
    let framed = stores(ADC_PATH@, leveled);
    let code = cfg.adc_input.code_spec();
    let listening = store(
        0x04,
        cfg.dac_output.0,
        store(0x03, 0xFF, store(0x09, 0xBB, store(0x0A, code, framed))),
    );
    let mode: u8 = if cfg.mode == Mode::Master {
        0x01
    } else {
        0x00
    };
    let clocked = store(0x08, mode, stores(DAC_PATH@, listening));
    let f1 = filled(file, POWER_ON@);
    let f2 = f1.update(0x08, mode);
    let f3 = filled(f2, DAC_PATH@);
    let f4 = f3.update(0x04, cfg.dac_output.0).update(0x03, 0xFF).update(0x09, 0xBB).update(
        0x0A,
        code,
    );
    let f5 = filled(f4, ADC_PATH@);
    lemma_table_played(POWER_ON@, clocked, file);
    lemma_write_played(clocked, f1);
    lemma_table_played(DAC_PATH@, listening, f2);
    assert(played(listening, f3).file == played(framed, f4).file && played(listening, f3).answer
        == played(framed, f4).answer) by {
        reveal_with_fuel(played, 5);
    }
    lemma_table_played(ADC_PATH@, leveled, f4);
    assert(played(leveled, f5).file == f5.update(0x10, 0).update(0x11, 0).update(0x03, 0x09)
        && succeeds(played(leveled, f5).answer)) by {
        reveal_with_fuel(played, 4);
    }
    lemma_power_on_leaves(file);
    lemma_dac_path_leaves(f2);
    lemma_adc_path_leaves(f4);
}

proof fn lemma_power_on_leaves(file: Seq<u8>)
    requires
        file.len() == 256,
    ensures
        filled(file, POWER_ON@) == file.update(0x19, 0x04).update(0x01, 0x50).update(
            0x02,
            0x00,
        ).update(0x35, 0xA0).update(0x37, 0xD0).update(0x39, 0xD0),
{
    reveal_with_fuel(filled, 7);
}

proof fn lemma_dac_path_leaves(file: Seq<u8>)
    requires
        file.len() == 256,
    ensures
        filled(file, DAC_PATH@) == file.update(0x04, 0xC0).update(0x00, 0x12).update(
            0x17,
            0x18,
        ).update(0x18, 0x02).update(0x26, 0x00).update(0x27, 0x90).update(0x2A, 0x90).update(
            0x2B,
            0x80,
        ).update(0x2D, 0x00).update(0x2E, 0x1E).update(0x2F, 0x1E).update(0x30, 0).update(
            0x31,
            0,
        ),
{
    reveal_with_fuel(filled, 14);
}

proof fn lemma_adc_path_leaves(file: Seq<u8>)
    requires
        file.len() == 256,
    ensures
        filled(file, ADC_PATH@) == file.update(0x0B, 0x02).update(0x0C, 0x0C).update(0x0D, 0x02),
{
    reveal_with_fuel(filled, 4);
}

/// Line-in through the mixers: the mixers sum both, the converters are powered and
/// the DAC is unmuted; the chip's state machine is pulsed if the mixer register
/// changed.
pub proof fn lemma_bypassed(file: Seq<u8>)
    requires
        file.len() == 256,
    ensures
        ({
            let p = played(bypass_script(), file);
            let f = p.file;
            &&& succeeds(p.answer)
            &&& f[0x26] == 0x09
            &&& f[0x27] == 0x50
            &&& f[0x2A] == 0x50
            &&& f[0x2B] == 0xC0
            &&& f[0x02] == (if file[0x2B] != 0xC0 {
                0x00u8
            } else {
                file[0x02]
            })
            &&& f[0x03] == 0x00
            &&& f[0x04] == 0x3C
            &&& (f[0x19] / 4) % 2 == 0
            &&& f[0x19] % 4 == file[0x19] % 4
            &&& f[0x19] / 8 == file[0x19] / 8
            &&& keeps(file, f, 0x00, 0x01)
            &&& keeps(file, f, 0x05, 0x18)
            &&& keeps(file, f, 0x1A, 0x25)
            &&& keeps(file, f, 0x28, 0x29)
            &&& keeps(file, f, 0x2C, 0xFF)
        }),
{
    let prev = file[0x2B];
    let powered = store(0x03, 0x00, store(0x04, 0x3C, mute_bit_script(false, done())));
    let pulsed = pulse_script(prev, powered);
    assert(played(bypass_script(), file) == played(stores(BYPASS_ON@, pulsed), file)) by {
        reveal_with_fuel(played, 2);
    }
    let f1 = filled(file, BYPASS_ON@);
    lemma_table_played(BYPASS_ON@, pulsed, file);
    assert(f1 == file.update(0x26, 0x09).update(0x27, 0x50).update(0x2A, 0x50).update(
        0x2B,
        0xC0,
    )) by {
        reveal_with_fuel(filled, 5);
    }
    reveal_with_fuel(played, 8);
    lemma_bit_two(file[0x19]);
}

/// The outputs of an ES8388: their four bits, 2 to 5 of register 4, are those chosen;
/// the others stay. The input: the high half of register 0x0A is that of its code,
/// and the low half keeps its bits beside those of the code.
pub proof fn lemma_routed(file: Seq<u8>, outputs: DacOutputs, input: AdcInput)
    requires
        file.len() == 256,
        outputs.0 % 4 == 0,
        outputs.0 < 64,
    ensures
        ({
            let p = played(outputs_script(outputs), file);
            &&& succeeds(p.answer)
            &&& p.file[4] % 4 == file[4] % 4
            &&& (p.file[4] / 4) % 16 == outputs.0 / 4
            &&& p.file[4] / 64 == file[4] / 64
            &&& keeps(file, p.file, 0, 3)
            &&& keeps(file, p.file, 5, 0xFF)
        }),
        ({
            let p = played(listen_script(input), file);
            let low = match input {
                AdcInput::Mic1 => 5u8,
                AdcInput::Mic2 => 6,
                _ => 0,
            };
            &&& succeeds(p.answer)
            &&& p.file[0x0A] / 16 == (match input {
                AdcInput::Line2 => 5int,
                AdcInput::Difference => 15,
                _ => 0,
            })
            &&& p.file[0x0A] % 16 == (file[0x0A] % 16) | low
            &&& keeps(file, p.file, 0, 9)
            &&& keeps(file, p.file, 0x0B, 0xFF)
        }),
{
    reveal_with_fuel(played, 3);
    let (v, o) = (file[4], outputs.0);
    assert(((v & 0xC3) | o) % 4 == v % 4 && (((v & 0xC3) | o) / 4) % 16 == o / 4 && ((v & 0xC3) | o)
        / 64 == v / 64) by (bit_vector)
        requires
            o % 4 == 0,
            o < 64,
    ;
    let (w, c) = (file[0x0A], input.code_spec());
    assert(((w & 0x0F) | c) / 16 == c / 16 && ((w & 0x0F) | c) % 16 == (w % 16) | (c % 16))
        by (bit_vector);
}

} // verus!
