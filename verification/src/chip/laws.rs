//! What the drivers of the smaller chips leave in their registers, played on
//! registers that never fail; and what such laws are stated with.

use vstd::prelude::*;

use super::script::{done, lemma_table_played, played, stores};
use super::{es7243e, es8156, Bits, Bus, CodecChip, I2sFormat, Module};
use crate::esp_core::error::{Error, Result};

verus! {

/// Success without a value.
pub open spec fn succeeds(answer: Result<Seq<u8>>) -> bool {
    answer == Ok::<Seq<u8>, Error>(Seq::empty())
}

/// Registers `a` to `b` are as they were.
pub open spec fn keeps(before: Seq<u8>, after: Seq<u8>, a: int, b: int) -> bool {
    forall|i: int| a <= i <= b ==> #[trigger] after[i] == before[i]
}

/// Two halves of a byte.
pub proof fn lemma_nibble_pair(a: u8, b: u8)
    requires
        a < 16,
        b < 16,
    ensures
        ((a << 4u8) | b) / 16 == a,
        ((a << 4u8) | b) % 16 == b,
{
    assert(((a << 4u8) | b) / 16 == a && ((a << 4u8) | b) % 16 == b) by (bit_vector)
        requires
            a < 16,
            b < 16,
    ;
}

/// Muting an ES8156 sets the bits 1 and 2 of register 0x13, unmuting clears them;
/// nothing else changes.
pub proof fn lemma_es8156_muted<I: Bus>(chip: es8156::Es8156<I>, file: Seq<u8>, mute: bool)
    requires
        file.len() == 256,
    ensures
        ({
            let p = played(chip.mute_script(mute), file);
            let f = p.file;
            &&& succeeds(p.answer)
            &&& (f[0x13] / 2) % 4 == (if mute {
                3int
            } else {
                0
            })
            &&& f[0x13] % 2 == file[0x13] % 2
            &&& f[0x13] / 8 == file[0x13] / 8
            &&& keeps(file, f, 0, 0x12)
            &&& keeps(file, f, 0x14, 0xFF)
        }),
{
    reveal_with_fuel(played, 3);
    let v = file[0x13];
    assert(((v | 0x06) / 2) % 4 == 3 && (v | 0x06) % 2 == v % 2 && (v | 0x06) / 8 == v / 8 && ((v
        & !0x06u8) / 2) % 4 == 0 && (v & !0x06u8) % 2 == v % 2 && (v & !0x06u8) / 8 == v / 8)
        by (bit_vector);
}

/// What an ES8156 takes: any rate, which it follows without a write; I2S in 16-bit
/// slots and no other format; the DAC, alone or with the ADC that it does not have.
pub proof fn lemma_es8156_takes<I: Bus>(
    chip: es8156::Es8156<I>,
    file: Seq<u8>,
    rate_hz: u32,
    mclk_hz: u32,
    fmt: I2sFormat,
    bits: Bits,
    module: Module,
)
    requires
        file.len() == 256,
    ensures
        ({
            let rate = played(chip.sample_rate_script(rate_hz, mclk_hz), file);
            let format = played(chip.format_script(fmt, bits), file);
            let start = played(chip.start_script(module), file);
            &&& succeeds(rate.answer) && rate.file == file
            &&& fmt == I2sFormat::Standard && bits == Bits::B16 ==> succeeds(format.answer)
                && format.writes == seq![(0x11u8, 0x00u8)]
            &&& fmt != I2sFormat::Standard || bits != Bits::B16 ==> format.answer == Err::<
                Seq<u8>,
                Error,
            >(Error::Unsupported) && format.file == file
            &&& module != Module::Adc ==> succeeds(start.answer)
            &&& module == Module::Adc ==> start.answer == Err::<Seq<u8>, Error>(Error::Unsupported)
                && start.file == file
        }),
{
    reveal_with_fuel(played, 2);
    lemma_table_played(es8156::RESUME@, done(), file);
    assert(seq![(0x11u8, 0x00u8)] + Seq::<(u8, u8)>::empty() =~= seq![(0x11u8, 0x00u8)]);
}

/// What an ES7243E takes: any rate, which it follows without a write; I2S in 16-bit
/// slots, which it has, and no other format; the ADC, alone or with the DAC that it
/// does not have; and no muting.
pub proof fn lemma_es7243e_takes<I: Bus>(
    chip: es7243e::Es7243e<I>,
    file: Seq<u8>,
    rate_hz: u32,
    mclk_hz: u32,
    fmt: I2sFormat,
    bits: Bits,
    module: Module,
    mute: bool,
)
    requires
        file.len() == 256,
    ensures
        ({
            let rate = played(chip.sample_rate_script(rate_hz, mclk_hz), file);
            let format = played(chip.format_script(fmt, bits), file);
            let start = played(chip.start_script(module), file);
            let muting = played(chip.mute_script(mute), file);
            &&& succeeds(rate.answer) && rate.file == file
            &&& format.file == file
            &&& fmt == I2sFormat::Standard && bits == Bits::B16 ==> succeeds(format.answer)
            &&& fmt != I2sFormat::Standard || bits != Bits::B16 ==> format.answer == Err::<
                Seq<u8>,
                Error,
            >(Error::Unsupported)
            &&& module != Module::Dac ==> succeeds(start.answer)
            &&& module == Module::Dac ==> start.answer == Err::<Seq<u8>, Error>(Error::Unsupported)
                && start.file == file
            &&& muting.answer == Err::<Seq<u8>, Error>(Error::Unsupported) && muting.file == file
        }),
{
    reveal_with_fuel(played, 2);
    lemma_table_played(es7243e::START@, done(), file);
}

/// What an ES8156 is told at bring-up, start and stop, by register number. Bring-up
/// leaves it at -6 dB with I2S in 16-bit slots; a stop takes the volume to the least
/// first and the clocks last, and a start brings the clocks first and the volume
/// last.
pub proof fn lemma_es8156_sequences<I: Bus>(chip: es8156::Es8156<I>, module: Module, file: Seq<u8>)
    requires
        file.len() == 256,
        module != Module::Adc,
    ensures
        ({
            let p = played(stores(es8156::INIT@, done()), file);
            &&& succeeds(p.answer)
            &&& p.writes == seq![
                (0x02u8, 0x04u8),
                (0x20, 0x2A),
                (0x21, 0x3C),
                (0x22, 0x00),
                (0x24, 0x07),
                (0x23, 0x00),
                (0x0A, 0x01),
                (0x0B, 0x01),
                (0x11, 0x00),
                (0x14, 0xB3),
                (0x0D, 0x14),
                (0x18, 0x00),
                (0x08, 0x3F),
                (0x00, 0x02),
                (0x00, 0x03),
                (0x25, 0x20),
            ]
        }),
        ({
            let p = played(chip.start_script(module), file);
            &&& succeeds(p.answer)
            &&& p.writes == seq![
                (0x08u8, 0x3Fu8),
                (0x09, 0x00),
                (0x18, 0x00),
                (0x25, 0x20),
                (0x22, 0x00),
                (0x21, 0x3C),
                (0x19, 0x20),
                (0x14, 0xB3),
            ]
        }),
        ({
            let p = played(chip.stop_script(), file);
            &&& succeeds(p.answer)
            &&& p.writes == seq![
                (0x14u8, 0x00u8),
                (0x19, 0x02),
                (0x21, 0x1F),
                (0x22, 0x02),
                (0x25, 0x21),
                (0x25, 0xA1),
                (0x18, 0x01),
                (0x09, 0x02),
                (0x09, 0x01),
                (0x08, 0x00),
            ]
        }),
{
    let init_writes = seq![
        (0x02u8, 0x04u8),
        (0x20, 0x2A),
        (0x21, 0x3C),
        (0x22, 0x00),
        (0x24, 0x07),
        (0x23, 0x00),
        (0x0A, 0x01),
        (0x0B, 0x01),
        (0x11, 0x00),
        (0x14, 0xB3),
        (0x0D, 0x14),
        (0x18, 0x00),
        (0x08, 0x3F),
        (0x00, 0x02),
        (0x00, 0x03),
        (0x25, 0x20),
    ];
    assert(es8156::INIT@ =~= init_writes);
    lemma_table_played(init_writes, done(), file);
    assert(init_writes + Seq::<(u8, u8)>::empty() =~= init_writes);
    let resume_writes = seq![
        (0x08u8, 0x3Fu8),
        (0x09, 0x00),
        (0x18, 0x00),
        (0x25, 0x20),
        (0x22, 0x00),
        (0x21, 0x3C),
        (0x19, 0x20),
        (0x14, 0xB3),
    ];
    assert(es8156::RESUME@ =~= resume_writes);
    lemma_table_played(resume_writes, done(), file);
    assert(resume_writes + Seq::<(u8, u8)>::empty() =~= resume_writes);
    let standby_writes = seq![
        (0x14u8, 0x00u8),
        (0x19, 0x02),
        (0x21, 0x1F),
        (0x22, 0x02),
        (0x25, 0x21),
        (0x25, 0xA1),
        (0x18, 0x01),
        (0x09, 0x02),
        (0x09, 0x01),
        (0x08, 0x00),
    ];
    assert(es8156::STANDBY@ =~= standby_writes);
    lemma_table_played(standby_writes, done(), file);
    assert(standby_writes + Seq::<(u8, u8)>::empty() =~= standby_writes);
}

/// What an ES7243E is told at bring-up, start and stop, by register number. Bring-up
/// leaves it a slave with both amplifiers at +30 dB; a start sets them to the running
/// code, and a stop mutes first and takes the clocks off last.
pub proof fn lemma_es7243e_sequences<I: Bus>(chip: es7243e::Es7243e<I>, module: Module, file: Seq<u8>)
    requires
        file.len() == 256,
        module != Module::Dac,
    ensures
        ({
            let p = played(stores(es7243e::INIT@, done()), file);
            &&& succeeds(p.answer)
            &&& p.writes == seq![
                (0x01u8, 0x3Au8),
                (0x00, 0x80),
                (0xF9, 0x00),
                (0x04, 0x02),
                (0x04, 0x01),
                (0xF9, 0x01),
                (0x00, 0x1E),
                (0x01, 0x00),
                (0x02, 0x00),
                (0x03, 0x20),
                (0x04, 0x01),
                (0x0D, 0x00),
                (0x05, 0x00),
                (0x06, 0x03),
                (0x07, 0x00),
                (0x08, 0xFF),
                (0x09, 0xCA),
                (0x0A, 0x85),
                (0x0B, 0x00),
                (0x0E, 0xBF),
                (0x0F, 0x80),
                (0x14, 0x0C),
                (0x15, 0x0C),
                (0x17, 0x02),
                (0x18, 0x26),
                (0x19, 0x77),
                (0x1A, 0xF4),
                (0x1B, 0x66),
                (0x1C, 0x44),
                (0x1E, 0x00),
                (0x1F, 0x0C),
                (0x20, 0x1A),
                (0x21, 0x1A),
                (0x00, 0x80),
                (0x01, 0x3A),
                (0x16, 0x3F),
                (0x16, 0x00),
            ]
        }),
        ({
            let p = played(chip.start_script(module), file);
            &&& succeeds(p.answer)
            &&& p.writes == seq![
                (0xF9u8, 0x00u8),
                (0x04, 0x01),
                (0x17, 0x01),
                (0x20, 0x10),
                (0x21, 0x10),
                (0x00, 0x80),
                (0x01, 0x3A),
                (0x16, 0x3F),
                (0x16, 0x00),
            ]
        }),
        ({
            let p = played(chip.stop_script(), file);
            &&& succeeds(p.answer)
            &&& p.writes == seq![
                (0x04u8, 0x02u8),
                (0x04, 0x01),
                (0xF7, 0x30),
                (0xF9, 0x01),
                (0x16, 0xFF),
                (0x17, 0x00),
                (0x01, 0x38),
                (0x20, 0x00),
                (0x21, 0x00),
                (0x00, 0x00),
                (0x00, 0x1E),
                (0x01, 0x30),
                (0x01, 0x00),
            ]
        }),
{
    let init_writes = seq![
        (0x01u8, 0x3Au8),
        (0x00, 0x80),
        (0xF9, 0x00),
        (0x04, 0x02),
        (0x04, 0x01),
        (0xF9, 0x01),
        (0x00, 0x1E),
        (0x01, 0x00),
        (0x02, 0x00),
        (0x03, 0x20),
        (0x04, 0x01),
        (0x0D, 0x00),
        (0x05, 0x00),
        (0x06, 0x03),
        (0x07, 0x00),
        (0x08, 0xFF),
        (0x09, 0xCA),
        (0x0A, 0x85),
        (0x0B, 0x00),
        (0x0E, 0xBF),
        (0x0F, 0x80),
        (0x14, 0x0C),
        (0x15, 0x0C),
        (0x17, 0x02),
        (0x18, 0x26),
        (0x19, 0x77),
        (0x1A, 0xF4),
        (0x1B, 0x66),
        (0x1C, 0x44),
        (0x1E, 0x00),
        (0x1F, 0x0C),
        (0x20, 0x1A),
        (0x21, 0x1A),
        (0x00, 0x80),
        (0x01, 0x3A),
        (0x16, 0x3F),
        (0x16, 0x00),
    ];
    assert(es7243e::INIT@ =~= init_writes);
    lemma_table_played(init_writes, done(), file);
    assert(init_writes + Seq::<(u8, u8)>::empty() =~= init_writes);
    let start_writes = seq![
        (0xF9u8, 0x00u8),
        (0x04, 0x01),
        (0x17, 0x01),
        (0x20, 0x10),
        (0x21, 0x10),
        (0x00, 0x80),
        (0x01, 0x3A),
        (0x16, 0x3F),
        (0x16, 0x00),
    ];
    assert(es7243e::START@ =~= start_writes);
    lemma_table_played(start_writes, done(), file);
    assert(start_writes + Seq::<(u8, u8)>::empty() =~= start_writes);
    let stop_writes = seq![
        (0x04u8, 0x02u8),
        (0x04, 0x01),
        (0xF7, 0x30),
        (0xF9, 0x01),
        (0x16, 0xFF),
        (0x17, 0x00),
        (0x01, 0x38),
        (0x20, 0x00),
        (0x21, 0x00),
        (0x00, 0x00),
        (0x00, 0x1E),
        (0x01, 0x30),
        (0x01, 0x00),
    ];
    assert(es7243e::STOP@ =~= stop_writes);
    lemma_table_played(stop_writes, done(), file);
    assert(stop_writes + Seq::<(u8, u8)>::empty() =~= stop_writes);
}

} // verus!
