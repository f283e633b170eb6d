//! ES7210: Everest's four-channel ADC, the microphone-array front end on the
//! Korvo-2 and S3-EYE (two of its four inputs feed the S3-BOX's array).
//!
//! The one choice the vendor's driver makes at compile time (TDM on the serial
//! port once three or more mics are enabled) is a field of [`Config`].

use vstd::prelude::*;

use super::script::{
    advanced, done, extends, file_answers, lemma_begin, lemma_end, lemma_first_exchange,
    lemma_load_refuses_nothing, lemma_modify_played, lemma_modify_refuses_nothing,
    lemma_played_on_a_register_file, lemma_refusal_touches_nothing, lemma_table_refuses_nothing,
    lemma_write_played, load, modify, plain, played, refuses_nothing, registers, replaced, store,
    stores, written, Script, Transfer,
};
use super::{Bits, Bus, CodecChip, I2cRegs, I2sFormat, Mode, Module};
use crate::esp_core::error::{Error, Result};

pub mod laws;
pub mod reg;

verus! {

/// 7-bit I2C address with AD1 = 0, AD0 = 0 (the vendor's `0x80`).
pub const ADDR_00: u8 = 0x40;

/// AD1 = 0, AD0 = 1.
pub const ADDR_01: u8 = 0x41;

/// AD1 = 1, AD0 = 0.
pub const ADDR_10: u8 = 0x42;

/// AD1 = 1, AD0 = 1.
pub const ADDR_11: u8 = 0x43;

/// Which of the four inputs are on, as a bit set ([`MIC1`] is bit 0).
#[derive(Debug, Clone, Copy, PartialEq, Eq, Structural)]
pub struct Mics(pub u8);

/// Input 1.
pub const MIC1: u8 = 0x01;

/// Input 2.
pub const MIC2: u8 = 0x02;

/// Input 3.
pub const MIC3: u8 = 0x04;

/// Input 4.
pub const MIC4: u8 = 0x08;

/// The vendor driver's default: inputs 1 and 2.
pub const MIC12: u8 = 0x03;

/// All four.
pub const ALL: u8 = 0x0F;

impl Mics {
    /// Input `n` is one of the four and in the set.
    pub open spec fn holds(self, n: u8) -> bool {
        ||| n == 1 && self.0 % 2 == 1
        ||| n == 2 && (self.0 / 2) % 2 == 1
        ||| n == 3 && (self.0 / 4) % 2 == 1
        ||| n == 4 && (self.0 / 8) % 2 == 1
    }

    /// How many inputs are on.
    pub open spec fn size(self) -> nat {
        (self.0 as nat) % 2 + (self.0 as nat / 2) % 2 + (self.0 as nat / 4) % 2 + (self.0 as nat
            / 8) % 2
    }

    /// `true` when input `n` (1..=4) is in the set.
    pub fn has(self, n: u8) -> (r: bool)
        ensures
            r == self.holds(n),
    {
        match n {
            1 => self.0 % 2 == 1,
            2 => (self.0 / 2) % 2 == 1,
            3 => (self.0 / 4) % 2 == 1,
            4 => (self.0 / 8) % 2 == 1,
            _ => false,
        }
    }

    /// How many inputs are on.
    pub fn count(self) -> (r: u8)
        ensures
            r == self.size(),
            r <= 4,
    {
        self.0 % 2 + (self.0 / 2) % 2 + (self.0 / 4) % 2 + (self.0 / 8) % 2
    }
}

/// Microphone PGA gain (`MICn_GAIN_REG43..46`, low nibble).
#[derive(Debug, Clone, Copy, PartialEq, Eq, Structural)]
pub enum Gain {
    /// 0 dB.
    Db0,
    /// 3 dB.
    Db3,
    /// 6 dB.
    Db6,
    /// 9 dB.
    Db9,
    /// 12 dB.
    Db12,
    /// 15 dB.
    Db15,
    /// 18 dB.
    Db18,
    /// 21 dB.
    Db21,
    /// 24 dB (the vendor driver's default).
    Db24,
    /// 27 dB.
    Db27,
    /// 30 dB.
    Db30,
    /// 33 dB.
    Db33,
    /// 34.5 dB.
    Db34_5,
    /// 36 dB.
    Db36,
    /// 37.5 dB.
    Db37_5,
}

impl Gain {
    /// The register code.
    pub open spec fn code_spec(self) -> u8 {
        match self {
            Gain::Db0 => 0,
            Gain::Db3 => 1,
            Gain::Db6 => 2,
            Gain::Db9 => 3,
            Gain::Db12 => 4,
            Gain::Db15 => 5,
            Gain::Db18 => 6,
            Gain::Db21 => 7,
            Gain::Db24 => 8,
            Gain::Db27 => 9,
            Gain::Db30 => 10,
            Gain::Db33 => 11,
            Gain::Db34_5 => 12,
            Gain::Db36 => 13,
            Gain::Db37_5 => 14,
        }
    }

    /// The register code.
    pub fn code(self) -> (r: u8)
        ensures
            r == self.code_spec(),
    {
        match self {
            Gain::Db0 => 0,
            Gain::Db3 => 1,
            Gain::Db6 => 2,
            Gain::Db9 => 3,
            Gain::Db12 => 4,
            Gain::Db15 => 5,
            Gain::Db18 => 6,
            Gain::Db21 => 7,
            Gain::Db24 => 8,
            Gain::Db27 => 9,
            Gain::Db30 => 10,
            Gain::Db33 => 11,
            Gain::Db34_5 => 12,
            Gain::Db36 => 13,
            Gain::Db37_5 => 14,
        }
    }
}

/// One row of the clock-coefficient table.
#[derive(Debug, Clone, Copy, PartialEq, Eq, Structural)]
pub struct Coeff {
    /// Master clock, Hz.
    pub mclk: u32,
    /// LRCK (sample rate), Hz.
    pub lrck: u32,
    /// Single / double speed.
    pub ss_ds: u8,
    /// ADC clock divider (`MAINCLK_REG02` low bits).
    pub adc_div: u8,
    /// DLL bypass (`MAINCLK_REG02` bit 7).
    pub dll: u8,
    /// Clock doubler (`MAINCLK_REG02` bit 6).
    pub doubler: u8,
    /// Oversampling (`OSR_REG07`).
    pub osr: u8,
    /// MCLK source select.
    pub mclk_src: u8,
    /// LRCK divider, high byte (`LRCK_DIVH_REG04`).
    pub lrck_h: u8,
    /// LRCK divider, low byte (`LRCK_DIVL_REG05`).
    pub lrck_l: u8,
}

/// The vendor driver's clock coefficients; the columns are the fields of
/// [`Coeff`] in order.
pub const COEFF: [[u32; 10]; 25] = [
    // 8k
    [12_288_000, 8000, 0x00, 0x03, 0x01, 0x00, 0x20, 0x00, 0x06, 0x00],
    [16_384_000, 8000, 0x00, 0x04, 0x01, 0x00, 0x20, 0x00, 0x08, 0x00],
    [19_200_000, 8000, 0x00, 0x1e, 0x00, 0x01, 0x28, 0x00, 0x09, 0x60],
    [4_096_000, 8000, 0x00, 0x01, 0x01, 0x00, 0x20, 0x00, 0x02, 0x00],
    // 11.025k
    [11_289_600, 11025, 0x00, 0x02, 0x01, 0x00, 0x20, 0x00, 0x01, 0x00],
    // 12k
    [12_288_000, 12000, 0x00, 0x02, 0x01, 0x00, 0x20, 0x00, 0x04, 0x00],
    [19_200_000, 12000, 0x00, 0x14, 0x00, 0x01, 0x28, 0x00, 0x06, 0x40],
    // 16k
    [4_096_000, 16000, 0x00, 0x01, 0x01, 0x01, 0x20, 0x00, 0x01, 0x00],
    [19_200_000, 16000, 0x00, 0x0a, 0x00, 0x00, 0x1e, 0x00, 0x04, 0x80],
    [16_384_000, 16000, 0x00, 0x02, 0x01, 0x00, 0x20, 0x00, 0x04, 0x00],
    [12_288_000, 16000, 0x00, 0x03, 0x01, 0x01, 0x20, 0x00, 0x03, 0x00],
    // 22.05k
    [11_289_600, 22050, 0x00, 0x01, 0x01, 0x00, 0x20, 0x00, 0x02, 0x00],
    // 24k
    [12_288_000, 24000, 0x00, 0x01, 0x01, 0x00, 0x20, 0x00, 0x02, 0x00],
    [19_200_000, 24000, 0x00, 0x0a, 0x00, 0x01, 0x28, 0x00, 0x03, 0x20],
    // 32k
    [12_288_000, 32000, 0x00, 0x03, 0x00, 0x00, 0x20, 0x00, 0x01, 0x80],
    [16_384_000, 32000, 0x00, 0x01, 0x01, 0x00, 0x20, 0x00, 0x02, 0x00],
    [19_200_000, 32000, 0x00, 0x05, 0x00, 0x00, 0x1e, 0x00, 0x02, 0x58],
    // 44.1k
    [11_289_600, 44100, 0x00, 0x01, 0x01, 0x01, 0x20, 0x00, 0x01, 0x00],
    // 48k
    [12_288_000, 48000, 0x00, 0x01, 0x01, 0x01, 0x20, 0x00, 0x01, 0x00],
    [19_200_000, 48000, 0x00, 0x05, 0x00, 0x01, 0x28, 0x00, 0x01, 0x90],
    // 64k
    [16_384_000, 64000, 0x01, 0x01, 0x01, 0x00, 0x20, 0x00, 0x01, 0x00],
    [19_200_000, 64000, 0x00, 0x05, 0x00, 0x01, 0x1e, 0x00, 0x01, 0x2c],
    // 88.2k
    [11_289_600, 88200, 0x01, 0x01, 0x01, 0x01, 0x20, 0x00, 0x00, 0x80],
    // 96k
    [12_288_000, 96000, 0x01, 0x01, 0x01, 0x01, 0x20, 0x00, 0x00, 0x80],
    [19_200_000, 96000, 0x01, 0x05, 0x00, 0x01, 0x28, 0x00, 0x00, 0xc8],
];

/// Row `i` of the table.
#[verifier::opaque]
pub open spec fn row(i: int) -> Coeff {
    let cells = COEFF@[i]@;
    Coeff {
        mclk: cells[0],
        lrck: cells[1],
        ss_ds: cells[2] as u8,
        adc_div: cells[3] as u8,
        dll: cells[4] as u8,
        doubler: cells[5] as u8,
        osr: cells[6] as u8,
        mclk_src: cells[7] as u8,
        lrck_h: cells[8] as u8,
        lrck_l: cells[9] as u8,
    }
}

/// The first row from row `from` on for a (MCLK, rate) pair.
pub open spec fn find(mclk_hz: u32, rate_hz: u32, from: int) -> Option<Coeff>
    decreases 25 - from,
{
    if from >= 25 {
        None
    } else if row(from).mclk == mclk_hz && row(from).lrck == rate_hz {
        Some(row(from))
    } else {
        find(mclk_hz, rate_hz, from + 1)
    }
}

/// The coefficient row for a (MCLK, rate) pair, if the chip supports it.
pub fn coeff(mclk_hz: u32, rate_hz: u32) -> (r: Option<Coeff>)
    ensures
        r == find(mclk_hz, rate_hz, 0),
        r matches Some(c) ==> c.mclk == mclk_hz && c.lrck == rate_hz,
{
    let mut i: usize = 0;
    while i < 25
        invariant
            i <= 25,
            find(mclk_hz, rate_hz, 0) == find(mclk_hz, rate_hz, i as int),
        decreases 25 - i,
    {
        let c: Coeff = coeff_row(i);
        if c.mclk == mclk_hz && c.lrck == rate_hz {
            return Some(c);
        }
        i += 1;
    }
    None
}

/// Row `i` of the table.
pub fn coeff_row(i: usize) -> (r: Coeff)
    requires
        i < 25,
    ensures
        r == row(i as int),
{
    proof {
        reveal(row);
    }
    let cells: [u32; 10] = COEFF[i];
    Coeff {
        mclk: cells[0],
        lrck: cells[1],
        ss_ds: cells[2] as u8,
        adc_div: cells[3] as u8,
        dll: cells[4] as u8,
        doubler: cells[5] as u8,
        osr: cells[6] as u8,
        mclk_src: cells[7] as u8,
        lrck_h: cells[8] as u8,
        lrck_l: cells[9] as u8,
    }
}

/// The default master clock for a rate: 256 times the rate.
pub fn mclk_for(rate_hz: u32) -> (r: u32)
    requires
        rate_hz * 256 <= u32::MAX,
    ensures
        r == rate_hz * 256,
{
    rate_hz * 256
}

/// In master mode, where the chip's MCLK comes from.
#[derive(Debug, Clone, Copy, PartialEq, Eq, Structural)]
pub enum MclkSource {
    /// The MCLK pad.
    Pad,
    /// The internal clock doubler (the vendor driver's default).
    Doubler,
}

/// Bring-up parameters.
#[derive(Debug, Clone, Copy, PartialEq, Eq, Structural)]
pub struct Config {
    /// Who drives BCLK / LRCK.
    pub mode: Mode,
    /// MCLK source in master mode.
    pub mclk: MclkSource,
    /// Inputs to enable.
    pub mics: Mics,
    /// PGA gain for the enabled inputs.
    pub gain: Gain,
    /// Sample rate, Hz.
    pub sample_rate_hz: u32,
    /// Master clock, Hz.
    pub mclk_hz: u32,
    /// Switch the serial port to TDM when at least this many inputs are on
    /// (the vendor driver's choice is 3).
    pub tdm_from_mics: u8,
    /// Use the vendor's alternative DSP framing byte (`0x13` instead of `0x03`).
    pub dsp_mode_alt: bool,
}

impl Config {
    /// The vendor driver's defaults: slave, doubler, inputs 1 + 2 at 24 dB,
    /// TDM from three inputs, 256 times the rate.
    pub fn slave(sample_rate_hz: u32) -> (r: Self)
        requires
            sample_rate_hz * 256 <= u32::MAX,
        ensures
            r == (Config {
                mode: Mode::Slave,
                mclk: MclkSource::Doubler,
                mics: Mics(MIC12),
                gain: Gain::Db24,
                sample_rate_hz,
                mclk_hz: (sample_rate_hz * 256) as u32,
                tdm_from_mics: 3,
                dsp_mode_alt: false,
            }),
    {
        Config {
            mode: Mode::Slave,
            mclk: MclkSource::Doubler,
            mics: Mics(MIC12),
            gain: Gain::Db24,
            sample_rate_hz,
            mclk_hz: mclk_for(sample_rate_hz),
            tdm_from_mics: 3,
            dsp_mode_alt: false,
        }
    }
}

/// Reset, clocks on, state-machine timing, the high-pass quick setup.
pub const RESET: [(u8, u8); 9] = [
    (reg::RESET_REG00, 0xFF),
    (reg::RESET_REG00, 0x41),
    (reg::CLOCK_OFF_REG01, 0x3F),
    (reg::TIME_CONTROL0_REG09, 0x30),
    (reg::TIME_CONTROL1_REG0A, 0x30),
    (reg::ADC12_HPF2_REG23, 0x2A),
    (reg::ADC12_HPF1_REG22, 0x0A),
    (reg::ADC34_HPF2_REG20, 0x0A),
    (reg::ADC34_HPF1_REG21, 0x2A),
];

/// Analog on (VDDA 3.3 V, VMID 5 kOhm start), mic bias 2.87 V, oversampling,
/// the main clock.
pub const ANALOG_ON: [(u8, u8); 5] = [
    (reg::ANALOG_REG40, 0x43),
    (reg::MIC12_BIAS_REG41, 0x70),
    (reg::MIC34_BIAS_REG42, 0x70),
    (reg::OSR_REG07, 0x20),
    (reg::MAINCLK_REG02, 0xC1),
];

/// Power up, analog on, mic powers.
pub const POWER_UP: [(u8, u8); 6] = [
    (reg::POWER_DOWN_REG06, 0x00),
    (reg::ANALOG_REG40, 0x43),
    (reg::MIC1_POWER_REG47, 0x08),
    (reg::MIC2_POWER_REG48, 0x08),
    (reg::MIC3_POWER_REG49, 0x08),
    (reg::MIC4_POWER_REG4A, 0x08),
];

/// Every mic and ADC pair off, analog off, clocks off, power down.
pub const POWER_DOWN: [(u8, u8); 9] = [
    (reg::MIC1_POWER_REG47, 0xFF),
    (reg::MIC2_POWER_REG48, 0xFF),
    (reg::MIC3_POWER_REG49, 0xFF),
    (reg::MIC4_POWER_REG4A, 0xFF),
    (reg::MIC12_POWER_REG4B, 0xFF),
    (reg::MIC34_POWER_REG4C, 0xFF),
    (reg::ANALOG_REG40, 0xC0),
    (reg::CLOCK_OFF_REG01, 0x7F),
    (reg::POWER_DOWN_REG06, 0x07),
];

/// Master or slave; as a master, also where MCLK comes from.
pub open spec fn mode_script(mode: Mode, mclk: MclkSource, then: Script) -> Script {
    if mode == Mode::Master {
        modify(
            reg::MODE_CONFIG_REG08,
            0x01,
            0x01,
            modify(
                reg::MASTER_CLK_REG03,
                0x80,
                if mclk == MclkSource::Pad {
                    0x00
                } else {
                    0x80
                },
                then,
            ),
        )
    } else {
        modify(reg::MODE_CONFIG_REG08, 0x01, 0x00, then)
    }
}

/// Exchanges that setting the mode takes.
pub open spec fn mode_len(mode: Mode) -> nat {
    if mode == Mode::Master {
        4
    } else {
        2
    }
}

/// Exchanges of a bring-up ahead of the input selection: the reset, the mode,
/// the analog part and the rate.
pub open spec fn init_head_len(mode: Mode) -> nat {
    18 + mode_len(mode)
}

/// The row's dividers into `MAINCLK_REG02`, oversampling, and the LRCK divider
/// pair.
pub open spec fn rate_script(c: Coeff, then: Script) -> Script {
    store(
        reg::MAINCLK_REG02,
        (c.adc_div | (c.doubler << 6u8)) | (c.dll << 7u8),
        store(
            reg::OSR_REG07,
            c.osr,
            store(
                reg::LRCK_DIVH_REG04,
                c.lrck_h,
                store(reg::LRCK_DIVL_REG05, c.lrck_l, then),
            ),
        ),
    )
}

/// The clocks for a rate, or the refusal of a pair the table does not have.
pub open spec fn clock_script(mclk_hz: u32, rate_hz: u32, then: Script) -> Script {
    match find(mclk_hz, rate_hz, 0) {
        None => Script::Refuse(Error::Unsupported),
        Some(c) => rate_script(c, then),
    }
}

/// One input powered: the clocks of its ADC pair (`clock_mask`), the pair, the
/// PGA and its gain; nothing for an input that is not on.
pub open spec fn input_script(
    on: bool,
    clock_mask: u8,
    power: u8,
    gain_reg: u8,
    gain: u8,
    then: Script,
) -> Script {
    if on {
        modify(
            reg::CLOCK_OFF_REG01,
            clock_mask,
            0x00,
            store(
                power,
                0x00,
                modify(gain_reg, 0x10, 0x10, modify(gain_reg, 0x0F, gain, then)),
            ),
        )
    } else {
        then
    }
}

/// Every PGA off, and both ADC pairs.
pub open spec fn inputs_off_script(then: Script) -> Script {
    modify(
        reg::MIC1_GAIN_REG43,
        0x10,
        0x00,
        modify(
            reg::MIC2_GAIN_REG44,
            0x10,
            0x00,
            modify(
                reg::MIC3_GAIN_REG45,
                0x10,
                0x00,
                modify(
                    reg::MIC4_GAIN_REG46,
                    0x10,
                    0x00,
                    store(
                        reg::MIC12_POWER_REG4B,
                        0xFF,
                        store(reg::MIC34_POWER_REG4C, 0xFF, then),
                    ),
                ),
            ),
        ),
    )
}

/// TDM on the serial port, or not.
pub open spec fn tdm_script(mics: Mics, tdm_from_mics: u8, then: Script) -> Script {
    store(
        reg::SDP_INTERFACE2_REG12,
        if mics.size() >= tdm_from_mics {
            0x02
        } else {
            0x00
        },
        then,
    )
}

/// The chosen inputs powered, their PGAs and the ADC pairs they sit on, and
/// TDM once enough are on; no input at all is refused.
pub open spec fn mics_script(mics: Mics, gain: Gain, tdm_from_mics: u8, then: Script) -> Script {
    if mics.0 % 16 == 0 {
        Script::Refuse(Error::Unsupported)
    } else {
        let g = gain.code_spec();
        let four = input_script(
            mics.holds(4),
            0x15,
            reg::MIC34_POWER_REG4C,
            reg::MIC4_GAIN_REG46,
            g,
            tdm_script(mics, tdm_from_mics, then),
        );
        let three = input_script(
            mics.holds(3),
            0x15,
            reg::MIC34_POWER_REG4C,
            reg::MIC3_GAIN_REG45,
            g,
            four,
        );
        let two = input_script(
            mics.holds(2),
            0x0B,
            reg::MIC12_POWER_REG4B,
            reg::MIC2_GAIN_REG44,
            g,
            three,
        );
        let one = input_script(
            mics.holds(1),
            0x0B,
            reg::MIC12_POWER_REG4B,
            reg::MIC1_GAIN_REG43,
            g,
            two,
        );
        inputs_off_script(one)
    }
}

/// The gain of one input, if it is on.
pub open spec fn gain_of_script(on: bool, gain_reg: u8, gain: Gain, then: Script) -> Script {
    if on {
        modify(gain_reg, 0x0F, gain.code_spec(), then)
    } else {
        then
    }
}

/// The gain of the inputs in `mics`.
pub open spec fn gains_script(mics: Mics, gain: Gain, then: Script) -> Script {
    gain_of_script(
        mics.holds(1),
        reg::MIC1_GAIN_REG43,
        gain,
        gain_of_script(
            mics.holds(2),
            reg::MIC2_GAIN_REG44,
            gain,
            gain_of_script(
                mics.holds(3),
                reg::MIC3_GAIN_REG45,
                gain,
                gain_of_script(mics.holds(4), reg::MIC4_GAIN_REG46, gain, then),
            ),
        ),
    )
}

/// The bring-up: reset, clocks on, timing, high-pass, master/slave and MCLK
/// source, analog power and mic bias, oversampling, the main clock, then the
/// rate, the inputs and their gain.
pub open spec fn init_script(cfg: Config) -> Script {
    stores(
        RESET@,
        mode_script(
            cfg.mode,
            cfg.mclk,
            stores(
                ANALOG_ON@,
                clock_script(
                    cfg.mclk_hz,
                    cfg.sample_rate_hz,
                    mics_script(
                        cfg.mics,
                        cfg.gain,
                        cfg.tdm_from_mics,
                        gains_script(cfg.mics, cfg.gain, done()),
                    ),
                ),
            ),
        ),
    )
}

/// The clock register to keep, after it read `live`: what a stop leaves is not
/// worth keeping.
pub open spec fn kept_clock(held: u8, live: u8) -> u8 {
    if live != 0x7F && live != 0xFF {
        live
    } else {
        held
    }
}

/// The clock register to keep after a start or stop that took the exchanges
/// from `before` to `after`: the first of them reads the register.
pub open spec fn clock_after(held: u8, before: Seq<Transfer>, after: Seq<Transfer>) -> u8 {
    if after.len() > before.len() {
        match after[before.len() as int] {
            Transfer::Read { reply: Some(live), .. } => kept_clock(held, live),
            _ => held,
        }
    } else {
        held
    }
}

/// The driver.
pub struct Es7210<I> {
    /// The chip's registers.
    pub regs: I2cRegs<I>,
    /// The inputs selected.
    pub mics: Mics,
    /// Their gain.
    pub gain: Gain,
    /// TDM from this many inputs on.
    pub tdm_from_mics: u8,
    /// The alternative DSP framing byte.
    pub dsp_mode_alt: bool,
    /// `CLOCK_OFF_REG01` as it was before the last stop, restored by start.
    pub clock_reg: u8,
}

impl<I: Bus> Es7210<I> {
    /// Over `i2c` at the chip's 7-bit `addr` ([`ADDR_00`] on the reference boards).
    pub fn new(i2c: I, addr: u8) -> (r: Self)
        ensures
            r.regs.i2c == i2c,
            r.regs.addr == addr,
            r.mics == Mics(MIC12),
            r.gain == Gain::Db24,
            r.tdm_from_mics == 3,
            !r.dsp_mode_alt,
            r.clock_reg == 0x3F,
    {
        Es7210 {
            regs: I2cRegs::new(i2c, addr),
            mics: Mics(MIC12),
            gain: Gain::Db24,
            tdm_from_mics: 3,
            dsp_mode_alt: false,
            clock_reg: 0x3F,
        }
    }

    /// Give the bus back.
    pub fn release(self) -> (r: I)
        ensures
            r == self.regs.i2c,
    {
        self.regs.release()
    }

    /// The register map, for anything the driver does not wrap.
    pub fn regs(&mut self) -> (r: &mut I2cRegs<I>)
        ensures
            *r == old(self).regs,
            *final(self) == (Es7210 { regs: *final(r), ..*old(self) }),
    {
        &mut self.regs
    }

    /// The inputs currently selected.
    pub fn mics(&self) -> (r: Mics)
        ensures
            r == self.mics,
    {
        self.mics
    }

    /// Only the registers may differ.
    pub open spec fn same_settings(self, other: Es7210<I>) -> bool {
        &&& self.regs.addr == other.regs.addr
        &&& self.mics == other.mics
        &&& self.gain == other.gain
        &&& self.tdm_from_mics == other.tdm_from_mics
        &&& self.dsp_mode_alt == other.dsp_mode_alt
        &&& self.clock_reg == other.clock_reg
    }

    /// Power one input, as `script` asks for next.
    fn power_input(
        &mut self,
        clock_mask: u8,
        power: u8,
        gain_reg: u8,
        gain: u8,
        Ghost(script): Ghost<Script>,
        Ghost(start): Ghost<Seq<Transfer>>,
        Ghost(then): Ghost<Script>,
    ) -> (r: Result<()>)
        requires
            old(self).regs.rest(script, start) == Some(
                input_script(true, clock_mask, power, gain_reg, gain, then),
            ),
        ensures
            final(self).same_settings(*old(self)),
            old(self).regs.i2c.log().is_prefix_of(final(self).regs.i2c.log()),
            r is Ok ==> final(self).regs.rest(script, start) == Some(then),
            r matches Err(e) ==> e == Error::Hardware && extends(
                script,
                start,
                final(self).regs.i2c.log(),
                old(self).regs.addr,
                Err(e),
            ),
    {
        let ghost tuned = modify(gain_reg, 0x0F, gain, then);
        let ghost opened = modify(gain_reg, 0x10, 0x10, tuned);
        let ghost powered = store(power, 0x00, opened);
        self.regs.change(
            reg::CLOCK_OFF_REG01,
            clock_mask,
            0x00,
            Ghost(script),
            Ghost(start),
            Ghost(powered),
        )?;
        self.regs.put(power, 0x00, Ghost(script), Ghost(start))?;
        self.regs.change(gain_reg, 0x10, 0x10, Ghost(script), Ghost(start), Ghost(tuned))?;
        self.regs.change(gain_reg, 0x0F, gain, Ghost(script), Ghost(start), Ghost(then))
    }

    /// Every PGA and both ADC pairs off, as `script` asks for next.
    fn inputs_off(
        &mut self,
        Ghost(script): Ghost<Script>,
        Ghost(start): Ghost<Seq<Transfer>>,
        Ghost(then): Ghost<Script>,
    ) -> (r: Result<()>)
        requires
            old(self).regs.rest(script, start) == Some(inputs_off_script(then)),
        ensures
            final(self).regs.i2c.log().len() > old(self).regs.i2c.log().len(),
            final(self).same_settings(*old(self)),
            old(self).regs.i2c.log().is_prefix_of(final(self).regs.i2c.log()),
            r is Ok ==> final(self).regs.rest(script, start) == Some(then),
            r matches Err(e) ==> e == Error::Hardware && extends(
                script,
                start,
                final(self).regs.i2c.log(),
                old(self).regs.addr,
                Err(e),
            ),
    {
        let ghost pairs = store(
            reg::MIC12_POWER_REG4B,
            0xFF,
            store(reg::MIC34_POWER_REG4C, 0xFF, then),
        );
        let ghost four = modify(reg::MIC4_GAIN_REG46, 0x10, 0x00, pairs);
        let ghost three = modify(reg::MIC3_GAIN_REG45, 0x10, 0x00, four);
        let ghost two = modify(reg::MIC2_GAIN_REG44, 0x10, 0x00, three);
        self.regs.change(
            reg::MIC1_GAIN_REG43,
            0x10,
            0x00,
            Ghost(script),
            Ghost(start),
            Ghost(two),
        )?;
        self.regs.change(
            reg::MIC2_GAIN_REG44,
            0x10,
            0x00,
            Ghost(script),
            Ghost(start),
            Ghost(three),
        )?;
        self.regs.change(
            reg::MIC3_GAIN_REG45,
            0x10,
            0x00,
            Ghost(script),
            Ghost(start),
            Ghost(four),
        )?;
        self.regs.change(
            reg::MIC4_GAIN_REG46,
            0x10,
            0x00,
            Ghost(script),
            Ghost(start),
            Ghost(pairs),
        )?;
        self.regs.put(reg::MIC12_POWER_REG4B, 0xFF, Ghost(script), Ghost(start))?;
        self.regs.put(reg::MIC34_POWER_REG4C, 0xFF, Ghost(script), Ghost(start))
    }

    /// Select inputs, as `script` asks for next.
    fn put_mics(
        &mut self,
        mics: Mics,
        Ghost(script): Ghost<Script>,
        Ghost(start): Ghost<Seq<Transfer>>,
        Ghost(then): Ghost<Script>,
    ) -> (r: Result<()>)
        requires
            old(self).regs.rest(script, start) == Some(
                mics_script(mics, old(self).gain, old(self).tdm_from_mics, then),
            ),
        ensures
            mics.0 % 16 == 0 ==> *final(self) == *old(self) && r == Err::<(), Error>(
                Error::Unsupported,
            ),
            mics.0 % 16 != 0 ==> final(self).same_settings((Es7210 { mics, ..*old(self) }))
                && final(self).regs.i2c.log().len() > old(self).regs.i2c.log().len(),
            old(self).regs.i2c.log().is_prefix_of(final(self).regs.i2c.log()),
            r is Ok ==> final(self).regs.rest(script, start) == Some(then),
            r matches Err(e) ==> extends(
                script,
                start,
                final(self).regs.i2c.log(),
                old(self).regs.addr,
                Err(e),
            ),
    {
        if mics.0 % 16 == 0 {
            proof {
                lemma_end(
                    script,
                    start,
                    self.regs.i2c.log(),
                    self.regs.addr,
                    Err(Error::Unsupported),
                );
            }
            return Err(Error::Unsupported);
        }
        self.mics = mics;
        let g: u8 = self.gain.code();
        let ghost tdm_part = tdm_script(mics, self.tdm_from_mics, then);
        let ghost four = input_script(
            mics.holds(4),
            0x15,
            reg::MIC34_POWER_REG4C,
            reg::MIC4_GAIN_REG46,
            g,
            tdm_part,
        );
        let ghost three = input_script(
            mics.holds(3),
            0x15,
            reg::MIC34_POWER_REG4C,
            reg::MIC3_GAIN_REG45,
            g,
            four,
        );
        let ghost two = input_script(
            mics.holds(2),
            0x0B,
            reg::MIC12_POWER_REG4B,
            reg::MIC2_GAIN_REG44,
            g,
            three,
        );
        let ghost one = input_script(
            mics.holds(1),
            0x0B,
            reg::MIC12_POWER_REG4B,
            reg::MIC1_GAIN_REG43,
            g,
            two,
        );
        self.inputs_off(Ghost(script), Ghost(start), Ghost(one))?;
        if mics.has(1) {
            self.power_input(
                0x0B,
                reg::MIC12_POWER_REG4B,
                reg::MIC1_GAIN_REG43,
                g,
                Ghost(script),
                Ghost(start),
                Ghost(two),
            )?;
        }
        if mics.has(2) {
            self.power_input(
                0x0B,
                reg::MIC12_POWER_REG4B,
                reg::MIC2_GAIN_REG44,
                g,
                Ghost(script),
                Ghost(start),
                Ghost(three),
            )?;
        }
        if mics.has(3) {
            self.power_input(
                0x15,
                reg::MIC34_POWER_REG4C,
                reg::MIC3_GAIN_REG45,
                g,
                Ghost(script),
                Ghost(start),
                Ghost(four),
            )?;
        }
        if mics.has(4) {
            self.power_input(
                0x15,
                reg::MIC34_POWER_REG4C,
                reg::MIC4_GAIN_REG46,
                g,
                Ghost(script),
                Ghost(start),
                Ghost(tdm_part),
            )?;
        }
        let tdm: bool = mics.count() >= self.tdm_from_mics;
        let v: u8 = if tdm {
            0x02
        } else {
            0x00
        };
        self.regs.put(reg::SDP_INTERFACE2_REG12, v, Ghost(script), Ghost(start))
    }

    /// Power the chosen inputs, their PGAs and the ADC pairs they sit on, and
    /// pick TDM once enough are on.
    pub fn select_mics(&mut self, mics: Mics) -> (r: Result<()>)
        ensures
            mics.0 % 16 == 0 ==> *final(self) == *old(self) && r == Err::<(), Error>(
                Error::Unsupported,
            ),
            mics.0 % 16 != 0 ==> final(self).same_settings((Es7210 { mics, ..*old(self) })),
            extends(
                mics_script(mics, old(self).gain, old(self).tdm_from_mics, done()),
                old(self).regs.i2c.log(),
                final(self).regs.i2c.log(),
                old(self).regs.addr,
                plain(r),
            ),
    {
        let ghost script = mics_script(mics, self.gain, self.tdm_from_mics, done());
        let ghost start = self.regs.i2c.log();
        proof {
            lemma_begin(script, start, self.regs.addr);
        }
        self.put_mics(mics, Ghost(script), Ghost(start), Ghost(done()))?;
        proof {
            lemma_end(script, start, self.regs.i2c.log(), self.regs.addr, Ok(Seq::empty()));
        }
        Ok(())
    }

    /// Set the gain of the inputs in `mics`, as `script` asks for next.
    fn put_gains(
        &mut self,
        mics: Mics,
        gain: Gain,
        Ghost(script): Ghost<Script>,
        Ghost(start): Ghost<Seq<Transfer>>,
        Ghost(then): Ghost<Script>,
    ) -> (r: Result<()>)
        requires
            old(self).regs.rest(script, start) == Some(gains_script(mics, gain, then)),
        ensures
            final(self).same_settings((Es7210 { gain, ..*old(self) })),
            old(self).regs.i2c.log().is_prefix_of(final(self).regs.i2c.log()),
            r is Ok ==> final(self).regs.rest(script, start) == Some(then),
            r matches Err(e) ==> e == Error::Hardware && extends(
                script,
                start,
                final(self).regs.i2c.log(),
                old(self).regs.addr,
                Err(e),
            ),
    {
        self.gain = gain;
        let g: u8 = gain.code();
        let ghost four = gain_of_script(mics.holds(4), reg::MIC4_GAIN_REG46, gain, then);
        let ghost three = gain_of_script(mics.holds(3), reg::MIC3_GAIN_REG45, gain, four);
        let ghost two = gain_of_script(mics.holds(2), reg::MIC2_GAIN_REG44, gain, three);
        if mics.has(1) {
            self.regs.change(
                reg::MIC1_GAIN_REG43,
                0x0F,
                g,
                Ghost(script),
                Ghost(start),
                Ghost(two),
            )?;
        }
        if mics.has(2) {
            self.regs.change(
                reg::MIC2_GAIN_REG44,
                0x0F,
                g,
                Ghost(script),
                Ghost(start),
                Ghost(three),
            )?;
        }
        if mics.has(3) {
            self.regs.change(
                reg::MIC3_GAIN_REG45,
                0x0F,
                g,
                Ghost(script),
                Ghost(start),
                Ghost(four),
            )?;
        }
        if mics.has(4) {
            self.regs.change(
                reg::MIC4_GAIN_REG46,
                0x0F,
                g,
                Ghost(script),
                Ghost(start),
                Ghost(then),
            )?;
        }
        Ok(())
    }

    /// The gain for the inputs in `mics`.
    pub fn set_gain(&mut self, mics: Mics, gain: Gain) -> (r: Result<()>)
        ensures
            final(self).same_settings((Es7210 { gain, ..*old(self) })),
            extends(
                gains_script(mics, gain, done()),
                old(self).regs.i2c.log(),
                final(self).regs.i2c.log(),
                old(self).regs.addr,
                plain(r),
            ),
    {
        let ghost script = gains_script(mics, gain, done());
        let ghost start = self.regs.i2c.log();
        proof {
            lemma_begin(script, start, self.regs.addr);
        }
        self.put_gains(mics, gain, Ghost(script), Ghost(start), Ghost(done()))?;
        proof {
            lemma_end(script, start, self.regs.i2c.log(), self.regs.addr, Ok(Seq::empty()));
        }
        Ok(())
    }

    /// Clock the chip by the row `c`, as `script` asks for next.
    fn clock_by(
        &mut self,
        c: Coeff,
        Ghost(script): Ghost<Script>,
        Ghost(start): Ghost<Seq<Transfer>>,
        Ghost(then): Ghost<Script>,
    ) -> (r: Result<()>)
        requires
            old(self).regs.rest(script, start) == Some(rate_script(c, then)),
        ensures
            final(self).regs.i2c.log().len() <= old(self).regs.i2c.log().len() + 4,
            r is Ok ==> final(self).regs.i2c.log().len() == old(self).regs.i2c.log().len() + 4,
            final(self).same_settings(*old(self)),
            old(self).regs.i2c.log().is_prefix_of(final(self).regs.i2c.log()),
            r is Ok ==> final(self).regs.rest(script, start) == Some(then),
            r matches Err(e) ==> e == Error::Hardware && extends(
                script,
                start,
                final(self).regs.i2c.log(),
                old(self).regs.addr,
                Err(e),
            ),
    {
        let v: u8 = (c.adc_div | (c.doubler << 6u8)) | (c.dll << 7u8);
        self.regs.put(reg::MAINCLK_REG02, v, Ghost(script), Ghost(start))?;
        self.regs.put(reg::OSR_REG07, c.osr, Ghost(script), Ghost(start))?;
        self.regs.put(reg::LRCK_DIVH_REG04, c.lrck_h, Ghost(script), Ghost(start))?;
        self.regs.put(reg::LRCK_DIVL_REG05, c.lrck_l, Ghost(script), Ghost(start))
    }

    /// Master or slave, as `script` asks for next.
    fn put_mode(
        &mut self,
        mode: Mode,
        mclk: MclkSource,
        Ghost(script): Ghost<Script>,
        Ghost(start): Ghost<Seq<Transfer>>,
        Ghost(then): Ghost<Script>,
    ) -> (r: Result<()>)
        requires
            old(self).regs.rest(script, start) == Some(mode_script(mode, mclk, then)),
        ensures
            final(self).regs.i2c.log().len() <= old(self).regs.i2c.log().len() + mode_len(mode),
            r is Ok ==> final(self).regs.i2c.log().len() == old(self).regs.i2c.log().len() + mode_len(
                mode,
            ),
            final(self).same_settings(*old(self)),
            old(self).regs.i2c.log().is_prefix_of(final(self).regs.i2c.log()),
            r is Ok ==> final(self).regs.rest(script, start) == Some(then),
            r matches Err(e) ==> e == Error::Hardware && extends(
                script,
                start,
                final(self).regs.i2c.log(),
                old(self).regs.addr,
                Err(e),
            ),
    {
        match mode {
            Mode::Master => {
                let src: u8 = match mclk {
                    MclkSource::Pad => 0x00,
                    MclkSource::Doubler => 0x80,
                };
                let ghost sourced = modify(reg::MASTER_CLK_REG03, 0x80, src, then);
                self.regs.change(
                    reg::MODE_CONFIG_REG08,
                    0x01,
                    0x01,
                    Ghost(script),
                    Ghost(start),
                    Ghost(sourced),
                )?;
                self.regs.change(
                    reg::MASTER_CLK_REG03,
                    0x80,
                    src,
                    Ghost(script),
                    Ghost(start),
                    Ghost(then),
                )
            },
            Mode::Slave => self.regs.change(
                reg::MODE_CONFIG_REG08,
                0x01,
                0x00,
                Ghost(script),
                Ghost(start),
                Ghost(then),
            ),
        }
    }

    /// The bring-up ([`init_script`]). The inputs are taken over once the rate
    /// is set, if there are any.
    pub fn init(&mut self, cfg: &Config) -> (r: Result<()>)
        ensures
            final(self).regs.addr == old(self).regs.addr,
            final(self).gain == cfg.gain,
            final(self).tdm_from_mics == cfg.tdm_from_mics,
            final(self).dsp_mode_alt == cfg.dsp_mode_alt,
            final(self).clock_reg == old(self).clock_reg,
            final(self).mics == (if cfg.mics.0 % 16 != 0 && final(self).regs.i2c.log().len() > old(
                self,
            ).regs.i2c.log().len() + init_head_len(cfg.mode) {
                cfg.mics
            } else {
                old(self).mics
            }),
            extends(
                init_script(*cfg),
                old(self).regs.i2c.log(),
                final(self).regs.i2c.log(),
                old(self).regs.addr,
                plain(r),
            ),
    {
        self.tdm_from_mics = cfg.tdm_from_mics;
        self.dsp_mode_alt = cfg.dsp_mode_alt;
        self.gain = cfg.gain;
        let ghost script = init_script(*cfg);
        let ghost start = self.regs.i2c.log();
        let ghost tuned = gains_script(cfg.mics, cfg.gain, done());
        let ghost listening = mics_script(cfg.mics, cfg.gain, cfg.tdm_from_mics, tuned);
        let ghost clocked = clock_script(cfg.mclk_hz, cfg.sample_rate_hz, listening);
        let ghost analog = stores(ANALOG_ON@, clocked);
        let ghost mode = mode_script(cfg.mode, cfg.mclk, analog);
        proof {
            lemma_begin(script, start, self.regs.addr);
        }
        self.regs.put_all(RESET.as_slice(), Ghost(script), Ghost(start), Ghost(mode))?;
        self.put_mode(cfg.mode, cfg.mclk, Ghost(script), Ghost(start), Ghost(analog))?;
        self.regs.put_all(ANALOG_ON.as_slice(), Ghost(script), Ghost(start), Ghost(clocked))?;
        let c: Coeff = match coeff(cfg.mclk_hz, cfg.sample_rate_hz) {
            Some(c) => c,
            None => {
                proof {
                    lemma_end(
                        script,
                        start,
                        self.regs.i2c.log(),
                        self.regs.addr,
                        Err(Error::Unsupported),
                    );
                }
                return Err(Error::Unsupported);
            },
        };
        self.clock_by(c, Ghost(script), Ghost(start), Ghost(listening))?;
        self.put_mics(cfg.mics, Ghost(script), Ghost(start), Ghost(tuned))?;
        self.put_gains(cfg.mics, cfg.gain, Ghost(script), Ghost(start), Ghost(done()))?;
        proof {
            lemma_end(script, start, self.regs.i2c.log(), self.regs.addr, Ok(Seq::empty()));
        }
        Ok(())
    }
}

/// The framing bits of `SDP_INTERFACE1_REG11`.
pub open spec fn framing(fmt: I2sFormat, dsp_mode_alt: bool) -> u8 {
    match fmt {
        I2sFormat::Standard => 0x00,
        I2sFormat::LeftJustified => 0x01,
        I2sFormat::Dsp => if dsp_mode_alt {
            0x13
        } else {
            0x03
        },
    }
}

/// The width bits of `SDP_INTERFACE1_REG11`.
pub open spec fn width(bits: Bits) -> u8 {
    match bits {
        Bits::B16 => 0x60,
        Bits::B24 => 0x00,
        Bits::B32 => 0x80,
    }
}

/// The start once `CLOCK_OFF_REG01` is known: the clock register back, power,
/// the inputs again.
pub open spec fn resume_script(clock: u8, mics: Mics, gain: Gain, tdm_from_mics: u8) -> Script {
    store(
        reg::CLOCK_OFF_REG01,
        clock,
        stores(POWER_UP@, mics_script(mics, gain, tdm_from_mics, done())),
    )
}

impl<I: Bus> CodecChip for Es7210<I> {
    open spec fn log(&self) -> Seq<Transfer> {
        self.regs.i2c.log()
    }

    open spec fn address(&self) -> u8 {
        self.regs.addr
    }

    open spec fn sample_rate_script(&self, sample_rate_hz: u32, mclk_hz: u32) -> Script {
        clock_script(mclk_hz, sample_rate_hz, done())
    }

    open spec fn format_script(&self, fmt: I2sFormat, bits: Bits) -> Script {
        let alt = self.dsp_mode_alt;
        load(
            reg::SDP_INTERFACE1_REG11,
            |v: u8|
                store(
                    reg::SDP_INTERFACE1_REG11,
                    (v & 0xFC) | framing(fmt, alt),
                    load(
                        reg::SDP_INTERFACE1_REG11,
                        |w: u8|
                            store(
                                reg::SDP_INTERFACE1_REG11,
                                (w & 0x1F) | width(bits),
                                done(),
                            ),
                    ),
                ),
        )
    }

    open spec fn start_script(&self, module: Module) -> Script {
        let held = self.clock_reg;
        let mics = self.mics;
        let gain = self.gain;
        let tdm = self.tdm_from_mics;
        if module == Module::Dac {
            Script::Refuse(Error::Unsupported)
        } else {
            load(
                reg::CLOCK_OFF_REG01,
                |live: u8| resume_script(kept_clock(held, live), mics, gain, tdm),
            )
        }
    }

    open spec fn stop_script(&self) -> Script {
        load(reg::CLOCK_OFF_REG01, |live: u8| stores(POWER_DOWN@, done()))
    }

    open spec fn mute_script(&self, mute: bool) -> Script {
        let v: u8 = if mute {
            0x03
        } else {
            0x00
        };
        modify(
            reg::ADC34_MUTERANGE_REG14,
            0x03,
            v,
            modify(reg::ADC12_MUTERANGE_REG15, 0x03, v, done()),
        )
    }

    /// The row's dividers into `MAINCLK_REG02`, oversampling, and the LRCK
    /// divider pair; a pair that the table does not have is refused before any
    /// write.
    fn set_sample_rate(&mut self, sample_rate_hz: u32, mclk_hz: u32) -> (r: Result<()>)
        ensures
            final(self).same_settings(*old(self)),
    {
        let ghost script = self.sample_rate_script(sample_rate_hz, mclk_hz);
        let ghost start = self.regs.i2c.log();
        proof {
            lemma_begin(script, start, self.regs.addr);
        }
        let c: Coeff = match coeff(mclk_hz, sample_rate_hz) {
            Some(c) => c,
            None => {
                return Err(Error::Unsupported);
            },
        };
        self.clock_by(c, Ghost(script), Ghost(start), Ghost(done()))?;
        proof {
            lemma_end(script, start, self.regs.i2c.log(), self.regs.addr, Ok(Seq::empty()));
        }
        Ok(())
    }

    /// Framing, then width, both in `SDP_INTERFACE1_REG11`.
    fn set_format(&mut self, fmt: I2sFormat, bits: Bits) -> (r: Result<()>)
        ensures
            final(self).same_settings(*old(self)),
    {
        let ghost script = self.format_script(fmt, bits);
        let ghost start = self.regs.i2c.log();
        proof {
            lemma_begin(script, start, self.regs.addr);
        }
        let f: u8 = match fmt {
            I2sFormat::Standard => 0x00,
            I2sFormat::LeftJustified => 0x01,
            I2sFormat::Dsp => if self.dsp_mode_alt {
                0x13
            } else {
                0x03
            },
        };
        let b: u8 = match bits {
            Bits::B16 => 0x60,
            Bits::B24 => 0x00,
            Bits::B32 => 0x80,
        };
        let v: u8 = self.regs.get(reg::SDP_INTERFACE1_REG11, Ghost(script), Ghost(start))?;
        self.regs.put(reg::SDP_INTERFACE1_REG11, (v & 0xFC) | f, Ghost(script), Ghost(start))?;
        let v: u8 = self.regs.get(reg::SDP_INTERFACE1_REG11, Ghost(script), Ghost(start))?;
        self.regs.put(reg::SDP_INTERFACE1_REG11, (v & 0x1F) | b, Ghost(script), Ghost(start))?;
        proof {
            lemma_end(script, start, self.regs.i2c.log(), self.regs.addr, Ok(Seq::empty()));
        }
        Ok(())
    }

    /// Clocks back as they were before the stop, power up, analog on, mic
    /// powers, then the input selection again. The ES7210 has no DAC:
    /// [`Module::Dac`] is refused.
    fn start(&mut self, module: Module) -> (r: Result<()>)
        ensures
            final(self).mics == old(self).mics,
            final(self).gain == old(self).gain,
            final(self).tdm_from_mics == old(self).tdm_from_mics,
            final(self).dsp_mode_alt == old(self).dsp_mode_alt,
            final(self).clock_reg == clock_after(
                old(self).clock_reg,
                old(self).regs.i2c.log(),
                final(self).regs.i2c.log(),
            ),
    {
        let ghost script = self.start_script(module);
        let ghost start = self.regs.i2c.log();
        proof {
            lemma_begin(script, start, self.regs.addr);
        }
        if module == Module::Dac {
            return Err(Error::Unsupported);
        }
        let live: u8 = self.regs.get(reg::CLOCK_OFF_REG01, Ghost(script), Ghost(start))?;
        if live != 0x7F && live != 0xFF {
            self.clock_reg = live;
        }
        let clock: u8 = self.clock_reg;
        let mics: Mics = self.mics;
        let ghost listening = mics_script(mics, self.gain, self.tdm_from_mics, done());
        self.regs.put(reg::CLOCK_OFF_REG01, clock, Ghost(script), Ghost(start))?;
        self.regs.put_all(POWER_UP.as_slice(), Ghost(script), Ghost(start), Ghost(listening))?;
        self.put_mics(mics, Ghost(script), Ghost(start), Ghost(done()))?;
        proof {
            lemma_end(script, start, self.regs.i2c.log(), self.regs.addr, Ok(Seq::empty()));
        }
        Ok(())
    }

    /// Every mic and ADC pair off, analog off, clocks off, power down;
    /// remembering the clock register for the next start.
    fn stop(&mut self) -> (r: Result<()>)
        ensures
            final(self).mics == old(self).mics,
            final(self).gain == old(self).gain,
            final(self).tdm_from_mics == old(self).tdm_from_mics,
            final(self).dsp_mode_alt == old(self).dsp_mode_alt,
            final(self).clock_reg == clock_after(
                old(self).clock_reg,
                old(self).regs.i2c.log(),
                final(self).regs.i2c.log(),
            ),
    {
        let ghost script = self.stop_script();
        let ghost start = self.regs.i2c.log();
        proof {
            lemma_begin(script, start, self.regs.addr);
        }
        let live: u8 = self.regs.get(reg::CLOCK_OFF_REG01, Ghost(script), Ghost(start))?;
        if live != 0x7F && live != 0xFF {
            self.clock_reg = live;
        }
        self.regs.put_all(POWER_DOWN.as_slice(), Ghost(script), Ghost(start), Ghost(done()))?;
        proof {
            lemma_end(script, start, self.regs.i2c.log(), self.regs.addr, Ok(Seq::empty()));
        }
        Ok(())
    }

    /// The mute-range bits of both ADC pairs.
    fn set_mute(&mut self, mute: bool) -> (r: Result<()>)
        ensures
            final(self).same_settings(*old(self)),
    {
        let ghost script = self.mute_script(mute);
        let ghost start = self.regs.i2c.log();
        proof {
            lemma_begin(script, start, self.regs.addr);
        }
        let v: u8 = if mute {
            0x03
        } else {
            0x00
        };
        let ghost then = modify(reg::ADC12_MUTERANGE_REG15, 0x03, v, done());
        self.regs.change(
            reg::ADC34_MUTERANGE_REG14,
            0x03,
            v,
            Ghost(script),
            Ghost(start),
            Ghost(then),
        )?;
        self.regs.change(
            reg::ADC12_MUTERANGE_REG15,
            0x03,
            v,
            Ghost(script),
            Ghost(start),
            Ghost(done()),
        )?;
        proof {
            lemma_end(script, start, self.regs.i2c.log(), self.regs.addr, Ok(Seq::empty()));
        }
        Ok(())
    }
}

/// Start restores the clock register that stop replaced: where the stop found
/// `clock` in it and the start finds what the stop left, `clock` is written
/// back before anything else.
pub proof fn lemma_start_restores_the_clock<I: Bus>(
    running: Es7210<I>,
    stopped: Es7210<I>,
    started: Es7210<I>,
    module: Module,
    clock: u8,
)
    requires
        clock != 0x7F && clock != 0xFF,
        running.regs.i2c.log().len() < stopped.regs.i2c.log().len() < started.regs.i2c.log().len(),
        stopped.regs.i2c.log()[running.regs.i2c.log().len() as int] == (Transfer::Read {
            address: running.regs.addr,
            sent: seq![reg::CLOCK_OFF_REG01],
            reply: Some(clock),
        }),
        stopped.clock_reg == clock_after(
            running.clock_reg,
            running.regs.i2c.log(),
            stopped.regs.i2c.log(),
        ),
        started.regs.i2c.log()[stopped.regs.i2c.log().len() as int] == (Transfer::Read {
            address: stopped.regs.addr,
            sent: seq![reg::CLOCK_OFF_REG01],
            reply: Some(0x7Fu8),
        }),
        extends(
            stopped.start_script(module),
            stopped.regs.i2c.log(),
            started.regs.i2c.log(),
            stopped.regs.addr,
            Ok(Seq::empty()),
        ),
    ensures
        started.regs.i2c.log().len() > stopped.regs.i2c.log().len() + 1,
        started.regs.i2c.log()[stopped.regs.i2c.log().len() as int + 1] == written(
            (reg::CLOCK_OFF_REG01, clock),
            stopped.regs.addr,
        ),
{
    let n = stopped.regs.i2c.log().len() as int;
    let made = started.regs.i2c.log().skip(n);
    let script = stopped.start_script(module);
    let address = stopped.regs.addr;
    if module == Module::Dac {
        lemma_refusal_touches_nothing(
            Error::Unsupported,
            stopped.regs.i2c.log(),
            started.regs.i2c.log(),
            address,
            Ok(Seq::empty()),
        );
    }
    lemma_first_exchange(script, made, address, Seq::empty());
    assert(made[0] == started.regs.i2c.log()[n]);
    let resumed = resume_script(clock, stopped.mics, stopped.gain, stopped.tdm_from_mics);
    assert(advanced(script, made[0], address) == Some(resumed));
    lemma_first_exchange(resumed, made.skip(1), address, Seq::empty());
    assert(made.skip(1)[0] == started.regs.i2c.log()[n + 1]);
}

/// A register file after one input was powered, or was not.
pub open spec fn input_file(
    on: bool,
    clock_mask: u8,
    power: u8,
    gain_reg: u8,
    gain: u8,
    file: Seq<u8>,
) -> Seq<u8> {
    if on {
        let clocked = file.update(1, replaced(file[1], clock_mask, 0x00)).update(power as int, 0);
        let amplified = clocked.update(
            gain_reg as int,
            replaced(clocked[gain_reg as int], 0x10, 0x10),
        );
        amplified.update(gain_reg as int, replaced(amplified[gain_reg as int], 0x0F, gain))
    } else {
        file
    }
}

/// Powering one input played on a register file.
pub proof fn lemma_input_played(
    on: bool,
    clock_mask: u8,
    power: u8,
    gain_reg: u8,
    gain: u8,
    then: Script,
    file: Seq<u8>,
)
    ensures
        ({
            let p = played(input_script(on, clock_mask, power, gain_reg, gain, then), file);
            let q = played(then, input_file(on, clock_mask, power, gain_reg, gain, file));
            &&& p.file == q.file
            &&& p.answer == q.answer
        }),
{
    if on {
        let last = modify(gain_reg, 0x0F, gain, then);
        let amplifier = modify(gain_reg, 0x10, 0x10, last);
        let powered = store(power, 0x00, amplifier);
        let f1 = file.update(1, replaced(file[1], clock_mask, 0x00));
        let f2 = f1.update(power as int, 0);
        let f3 = f2.update(gain_reg as int, replaced(f2[gain_reg as int], 0x10, 0x10));
        lemma_modify_played(reg::CLOCK_OFF_REG01, clock_mask, 0x00, powered, file);
        lemma_write_played(powered, f1);
        lemma_modify_played(gain_reg, 0x10, 0x10, last, f2);
        lemma_modify_played(gain_reg, 0x0F, gain, then, f3);
    }
}

/// Every input off, played on a register file.
pub proof fn lemma_inputs_off_played(then: Script, file: Seq<u8>)
    requires
        file.len() == 256,
    ensures
        ({
            let off = file.update(0x43, replaced(file[0x43], 0x10, 0)).update(
                0x44,
                replaced(file[0x44], 0x10, 0),
            ).update(0x45, replaced(file[0x45], 0x10, 0)).update(
                0x46,
                replaced(file[0x46], 0x10, 0),
            ).update(0x4B, 0xFF).update(0x4C, 0xFF);
            &&& played(inputs_off_script(then), file).file == played(then, off).file
            &&& played(inputs_off_script(then), file).answer == played(then, off).answer
        }),
{
    let p2 = store(reg::MIC34_POWER_REG4C, 0xFF, then);
    let p1 = store(reg::MIC12_POWER_REG4B, 0xFF, p2);
    let m4 = modify(reg::MIC4_GAIN_REG46, 0x10, 0x00, p1);
    let m3 = modify(reg::MIC3_GAIN_REG45, 0x10, 0x00, m4);
    let m2 = modify(reg::MIC2_GAIN_REG44, 0x10, 0x00, m3);
    let f1 = file.update(0x43, replaced(file[0x43], 0x10, 0));
    let f2 = f1.update(0x44, replaced(file[0x44], 0x10, 0));
    let f3 = f2.update(0x45, replaced(file[0x45], 0x10, 0));
    let f4 = f3.update(0x46, replaced(file[0x46], 0x10, 0));
    lemma_modify_played(reg::MIC1_GAIN_REG43, 0x10, 0x00, m2, file);
    lemma_modify_played(reg::MIC2_GAIN_REG44, 0x10, 0x00, m3, f1);
    lemma_modify_played(reg::MIC3_GAIN_REG45, 0x10, 0x00, m4, f2);
    lemma_modify_played(reg::MIC4_GAIN_REG46, 0x10, 0x00, p1, f3);
    lemma_write_played(p1, f4);
    lemma_write_played(p2, f4.update(0x4B, 0xFF));
}

/// The gain register of an input that is on, and of one that is not.
proof fn lemma_gain_bits(held: u8, gain: u8)
    requires
        gain < 16,
    ensures
        ({
            let off = replaced(held, 0x10, 0x00);
            let on = replaced(replaced(off, 0x10, 0x10), 0x0F, gain);
            &&& off & 0x10 == 0
            &&& on & 0x10 == 0x10
            &&& on & 0x0F == gain
        }),
{
    assert((((held & !0x10u8) | (0u8 & 0x10u8)) & 0x10u8) == 0) by (bit_vector);
    let off = replaced(held, 0x10, 0x00);
    assert(((((off & !0x10u8) | (0x10u8 & 0x10u8)) & !0x0Fu8) | (gain & 0x0Fu8)) & 0x10u8 == 0x10)
        by (bit_vector)
        requires
            gain < 16,
    ;
    assert(((((off & !0x10u8) | (0x10u8 & 0x10u8)) & !0x0Fu8) | (gain & 0x0Fu8)) & 0x0Fu8 == gain)
        by (bit_vector)
        requires
            gain < 16,
    ;
}

/// What the registers of a selection hold in the end.
pub open spec fn selected(mics: Mics, gain: Gain, tdm_from_mics: u8, end: Seq<u8>) -> bool {
    &&& forall|n: u8|
        1 <= n <= 4 ==> ((end[0x42 + n] & 0x10 == 0x10) == #[trigger] mics.holds(n) && (mics.holds(n)
            ==> end[0x42 + n] & 0x0F == gain.code_spec()))
    &&& end[0x4B] == (if mics.holds(1) || mics.holds(2) {
        0x00u8
    } else {
        0xFFu8
    })
    &&& end[0x4C] == (if mics.holds(3) || mics.holds(4) {
        0x00u8
    } else {
        0xFFu8
    })
    &&& end[0x12] == (if mics.size() >= tdm_from_mics {
        0x02u8
    } else {
        0x00u8
    })
}

/// On a register file that never fails, a selection of some input succeeds:
/// exactly the chosen PGAs are on, at the gain, exactly the ADC pairs they sit
/// on are powered, and TDM is on once enough inputs are.
pub proof fn lemma_select_mics_on_a_register_file(
    mics: Mics,
    gain: Gain,
    tdm_from_mics: u8,
    file: Seq<u8>,
    before: Seq<Transfer>,
    after: Seq<Transfer>,
    address: u8,
    r: Result<()>,
)
    requires
        mics.0 % 16 != 0,
        file.len() == 256,
        extends(mics_script(mics, gain, tdm_from_mics, done()), before, after, address, plain(r)),
        file_answers(file, after.skip(before.len() as int)),
    ensures
        r is Ok,
        selected(mics, gain, tdm_from_mics, registers(file, after.skip(before.len() as int))),
{
    let script = mics_script(mics, gain, tdm_from_mics, done());
    lemma_played_on_a_register_file(script, file, before, after, address, plain(r));
    lemma_selection_played(mics, gain, tdm_from_mics, file);
}

proof fn lemma_selection_played(mics: Mics, gain: Gain, tdm_from_mics: u8, file: Seq<u8>)
    requires
        mics.0 % 16 != 0,
        file.len() == 256,
    ensures
        ({
            let p = played(mics_script(mics, gain, tdm_from_mics, done()), file);
            p.answer is Ok && selected(mics, gain, tdm_from_mics, p.file)
        }),
{
    let g = gain.code_spec();
    let tdm = tdm_script(mics, tdm_from_mics, done());
    let four = input_script(mics.holds(4), 0x15, 0x4C, 0x46, g, tdm);
    let three = input_script(mics.holds(3), 0x15, 0x4C, 0x45, g, four);
    let two = input_script(mics.holds(2), 0x0B, 0x4B, 0x44, g, three);
    let one = input_script(mics.holds(1), 0x0B, 0x4B, 0x43, g, two);
    let off = file.update(0x43, replaced(file[0x43], 0x10, 0)).update(
        0x44,
        replaced(file[0x44], 0x10, 0),
    ).update(0x45, replaced(file[0x45], 0x10, 0)).update(0x46, replaced(file[0x46], 0x10, 0)).update(
        0x4B,
        0xFF,
    ).update(0x4C, 0xFF);
    lemma_inputs_off_played(one, file);
    let f1 = input_file(mics.holds(1), 0x0B, 0x4B, 0x43, g, off);
    let f2 = input_file(mics.holds(2), 0x0B, 0x4B, 0x44, g, f1);
    let f3 = input_file(mics.holds(3), 0x15, 0x4C, 0x45, g, f2);
    let f4 = input_file(mics.holds(4), 0x15, 0x4C, 0x46, g, f3);
    lemma_input_played(mics.holds(1), 0x0B, 0x4B, 0x43, g, two, off);
    lemma_input_played(mics.holds(2), 0x0B, 0x4B, 0x44, g, three, f1);
    lemma_input_played(mics.holds(3), 0x15, 0x4C, 0x45, g, four, f2);
    lemma_input_played(mics.holds(4), 0x15, 0x4C, 0x46, g, tdm, f3);
    lemma_write_played(tdm, f4);
    lemma_gain_bits(file[0x43], g);
    lemma_gain_bits(file[0x44], g);
    lemma_gain_bits(file[0x45], g);
    lemma_gain_bits(file[0x46], g);
}

/// Powering an input refuses nothing, if what follows does not.
proof fn lemma_input_refuses_nothing(
    on: bool,
    clock_mask: u8,
    power: u8,
    gain_reg: u8,
    gain: u8,
    then: Script,
)
    requires
        refuses_nothing(then),
    ensures
        refuses_nothing(input_script(on, clock_mask, power, gain_reg, gain, then)),
{
    if on {
        let last = modify(gain_reg, 0x0F, gain, then);
        let amplifier = modify(gain_reg, 0x10, 0x10, last);
        lemma_modify_refuses_nothing(gain_reg, 0x0F, gain, then);
        lemma_modify_refuses_nothing(gain_reg, 0x10, 0x10, last);
        lemma_modify_refuses_nothing(
            reg::CLOCK_OFF_REG01,
            clock_mask,
            0x00,
            store(power, 0x00, amplifier),
        );
    }
}

/// A selection of some input refuses nothing, if what follows does not.
pub proof fn lemma_selection_refuses_nothing(
    mics: Mics,
    gain: Gain,
    tdm_from_mics: u8,
    then: Script,
)
    requires
        mics.0 % 16 != 0,
        refuses_nothing(then),
    ensures
        refuses_nothing(mics_script(mics, gain, tdm_from_mics, then)),
{
    let g = gain.code_spec();
    let tdm = tdm_script(mics, tdm_from_mics, then);
    let four = input_script(mics.holds(4), 0x15, 0x4C, 0x46, g, tdm);
    let three = input_script(mics.holds(3), 0x15, 0x4C, 0x45, g, four);
    let two = input_script(mics.holds(2), 0x0B, 0x4B, 0x44, g, three);
    let one = input_script(mics.holds(1), 0x0B, 0x4B, 0x43, g, two);
    lemma_input_refuses_nothing(mics.holds(4), 0x15, 0x4C, 0x46, g, tdm);
    lemma_input_refuses_nothing(mics.holds(3), 0x15, 0x4C, 0x45, g, four);
    lemma_input_refuses_nothing(mics.holds(2), 0x0B, 0x4B, 0x44, g, three);
    lemma_input_refuses_nothing(mics.holds(1), 0x0B, 0x4B, 0x43, g, two);
    let p2 = store(reg::MIC34_POWER_REG4C, 0xFF, one);
    let p1 = store(reg::MIC12_POWER_REG4B, 0xFF, p2);
    let m4 = modify(reg::MIC4_GAIN_REG46, 0x10, 0x00, p1);
    let m3 = modify(reg::MIC3_GAIN_REG45, 0x10, 0x00, m4);
    let m2 = modify(reg::MIC2_GAIN_REG44, 0x10, 0x00, m3);
    assert(refuses_nothing(p2));
    assert(refuses_nothing(p1));
    lemma_modify_refuses_nothing(reg::MIC4_GAIN_REG46, 0x10, 0x00, p1);
    lemma_modify_refuses_nothing(reg::MIC3_GAIN_REG45, 0x10, 0x00, m4);
    lemma_modify_refuses_nothing(reg::MIC2_GAIN_REG44, 0x10, 0x00, m3);
    lemma_modify_refuses_nothing(reg::MIC1_GAIN_REG43, 0x10, 0x00, m2);
}

/// What a driver accepts it refuses nowhere: on a bus that does not fail, every
/// call succeeds but the choice of an unknown clock pair, the start of a DAC,
/// and a start without inputs.
pub proof fn lemma_accepted_is_not_refused<I: Bus>(
    chip: Es7210<I>,
    rate_hz: u32,
    mclk_hz: u32,
    fmt: I2sFormat,
    bits: Bits,
    module: Module,
    mute: bool,
)
    ensures
        find(mclk_hz, rate_hz, 0) is Some ==> refuses_nothing(
            chip.sample_rate_script(rate_hz, mclk_hz),
        ),
        refuses_nothing(chip.format_script(fmt, bits)),
        module != Module::Dac && chip.mics.0 % 16 != 0 ==> refuses_nothing(
            chip.start_script(module),
        ),
        refuses_nothing(chip.stop_script()),
        refuses_nothing(chip.mute_script(mute)),
{
    assert(find(mclk_hz, rate_hz, 0) is Some ==> refuses_nothing(
        chip.sample_rate_script(rate_hz, mclk_hz),
    )) by {
        reveal_with_fuel(refuses_nothing, 6);
    }
    assert(refuses_nothing(chip.format_script(fmt, bits))) by {
        reveal_with_fuel(refuses_nothing, 6);
    }
    if module != Module::Dac && chip.mics.0 % 16 != 0 {
        let inputs = mics_script(chip.mics, chip.gain, chip.tdm_from_mics, done());
        lemma_selection_refuses_nothing(chip.mics, chip.gain, chip.tdm_from_mics, done());
        lemma_table_refuses_nothing(POWER_UP@, inputs);
        lemma_load_refuses_nothing(chip.start_script(module));
    }
    lemma_table_refuses_nothing(POWER_DOWN@, done());
    assert(refuses_nothing(chip.stop_script())) by {
        reveal_with_fuel(refuses_nothing, 2);
    }
    let v: u8 = if mute {
        0x03
    } else {
        0x00
    };
    let second = modify(reg::ADC12_MUTERANGE_REG15, 0x03, v, done());
    lemma_modify_refuses_nothing(reg::ADC12_MUTERANGE_REG15, 0x03, v, done());
    lemma_modify_refuses_nothing(reg::ADC34_MUTERANGE_REG14, 0x03, v, second);
}

} // verus!
