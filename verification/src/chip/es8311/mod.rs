//! ES8311: Everest's mono low-power ADC + DAC, the speaker-and-mic codec on the
//! ESP32-S3-BOX, Korvo-2 and S3-EYE.
//!
//! The register map, the clock-coefficient table and the bring-up, start and
//! stop sequences are those of the vendor's driver: the same registers in the
//! same order with the same values, as data, with the arithmetic on the
//! coefficient rows spelled out in [`rate_script`]. The volume register's
//! meaning is the datasheet's: `0xBF` is 0 dB, one step is 0.5 dB, `0x00` is
//! -95.5 dB, `0xFF` is +32 dB.
//!
//! Not here: the PA-enable GPIO (a board pin the firmware drives) and the bus
//! itself.

use vstd::prelude::*;

use super::script::{
    done, extends, file_answers, filled, lemma_begin, lemma_end, lemma_played_on_a_register_file,
    lemma_read_played, lemma_refusal_touches_nothing, lemma_table_played,
    lemma_table_refuses_nothing, lemma_unfailing_bus_succeeds, lemma_write_played, load, plain,
    played, refuses_nothing, store, stores, unfailing, writes_of, Script, Transfer,
};
use super::{Bits, Bus, CodecChip, I2cRegs, I2sFormat, Mode, Module};
use crate::esp_core::error::{Error, Result};

pub mod laws;
pub mod reg;

verus! {

/// 7-bit I2C address (the vendor driver's 8-bit `0x30`).
pub const ADDR: u8 = 0x18;

/// The chip-id bytes `CHD1_REGFD` / `CHD2_REGFE` read back on a real part.
pub const CHIP_ID: (u8, u8) = (0x83, 0x11);

/// One row of the clock-coefficient table: how to derive ADC/DAC clocks, LRCK
/// and BCLK for a (MCLK, sample rate) pair.
#[derive(Debug, Clone, Copy, PartialEq, Eq, Structural)]
pub struct Coeff {
    /// Master clock, Hz.
    pub mclk: u32,
    /// Sample rate, Hz.
    pub rate: u32,
    /// Pre-divider, 1..=8.
    pub pre_div: u8,
    /// Pre-multiplier: 1, 2, 4 or 8.
    pub pre_multi: u8,
    /// ADC clock divider.
    pub adc_div: u8,
    /// DAC clock divider.
    pub dac_div: u8,
    /// 0 = single speed, 1 = double speed.
    pub fs_mode: u8,
    /// LRCK divider, high byte.
    pub lrck_h: u8,
    /// LRCK divider, low byte.
    pub lrck_l: u8,
    /// BCLK divider.
    pub bclk_div: u8,
    /// ADC oversampling.
    pub adc_osr: u8,
    /// DAC oversampling.
    pub dac_osr: u8,
}

/// The vendor driver's clock coefficients; the columns are the fields of
/// [`Coeff`] in order.
pub const COEFF: [[u32; 12]; 75] = [
    // 8k
    [12_288_000, 8000, 0x06, 0x01, 0x01, 0x01, 0x00, 0x00, 0xff, 0x04, 0x10, 0x20],
    [18_432_000, 8000, 0x03, 0x02, 0x03, 0x03, 0x00, 0x05, 0xff, 0x18, 0x10, 0x20],
    [16_384_000, 8000, 0x08, 0x01, 0x01, 0x01, 0x00, 0x00, 0xff, 0x04, 0x10, 0x20],
    [8_192_000, 8000, 0x04, 0x01, 0x01, 0x01, 0x00, 0x00, 0xff, 0x04, 0x10, 0x20],
    [6_144_000, 8000, 0x03, 0x01, 0x01, 0x01, 0x00, 0x00, 0xff, 0x04, 0x10, 0x20],
    [4_096_000, 8000, 0x02, 0x01, 0x01, 0x01, 0x00, 0x00, 0xff, 0x04, 0x10, 0x20],
    [3_072_000, 8000, 0x01, 0x01, 0x01, 0x01, 0x00, 0x00, 0xff, 0x04, 0x10, 0x20],
    [2_048_000, 8000, 0x01, 0x01, 0x01, 0x01, 0x00, 0x00, 0xff, 0x04, 0x10, 0x20],
    [1_536_000, 8000, 0x03, 0x04, 0x01, 0x01, 0x00, 0x00, 0xff, 0x04, 0x10, 0x20],
    [1_024_000, 8000, 0x01, 0x02, 0x01, 0x01, 0x00, 0x00, 0xff, 0x04, 0x10, 0x20],
    // 11.025k
    [11_289_600, 11025, 0x04, 0x01, 0x01, 0x01, 0x00, 0x00, 0xff, 0x04, 0x10, 0x20],
    [5_644_800, 11025, 0x02, 0x01, 0x01, 0x01, 0x00, 0x00, 0xff, 0x04, 0x10, 0x20],
    [2_822_400, 11025, 0x01, 0x01, 0x01, 0x01, 0x00, 0x00, 0xff, 0x04, 0x10, 0x20],
    [1_411_200, 11025, 0x01, 0x02, 0x01, 0x01, 0x00, 0x00, 0xff, 0x04, 0x10, 0x20],
    // 12k
    [12_288_000, 12000, 0x04, 0x01, 0x01, 0x01, 0x00, 0x00, 0xff, 0x04, 0x10, 0x20],
    [6_144_000, 12000, 0x02, 0x01, 0x01, 0x01, 0x00, 0x00, 0xff, 0x04, 0x10, 0x20],
    [3_072_000, 12000, 0x01, 0x01, 0x01, 0x01, 0x00, 0x00, 0xff, 0x04, 0x10, 0x20],
    [1_536_000, 12000, 0x01, 0x02, 0x01, 0x01, 0x00, 0x00, 0xff, 0x04, 0x10, 0x20],
    // 16k
    [12_288_000, 16000, 0x03, 0x01, 0x01, 0x01, 0x00, 0x00, 0xff, 0x04, 0x10, 0x20],
    [18_432_000, 16000, 0x03, 0x02, 0x03, 0x03, 0x00, 0x02, 0xff, 0x0c, 0x10, 0x20],
    [16_384_000, 16000, 0x04, 0x01, 0x01, 0x01, 0x00, 0x00, 0xff, 0x04, 0x10, 0x20],
    [8_192_000, 16000, 0x02, 0x01, 0x01, 0x01, 0x00, 0x00, 0xff, 0x04, 0x10, 0x20],
    [6_144_000, 16000, 0x03, 0x02, 0x01, 0x01, 0x00, 0x00, 0xff, 0x04, 0x10, 0x20],
    [4_096_000, 16000, 0x01, 0x01, 0x01, 0x01, 0x00, 0x00, 0xff, 0x04, 0x10, 0x20],
    [3_072_000, 16000, 0x03, 0x04, 0x01, 0x01, 0x00, 0x00, 0xff, 0x04, 0x10, 0x20],
    [2_048_000, 16000, 0x01, 0x02, 0x01, 0x01, 0x00, 0x00, 0xff, 0x04, 0x10, 0x20],
    [1_536_000, 16000, 0x03, 0x08, 0x01, 0x01, 0x00, 0x00, 0xff, 0x04, 0x10, 0x20],
    [1_024_000, 16000, 0x01, 0x04, 0x01, 0x01, 0x00, 0x00, 0xff, 0x04, 0x10, 0x20],
    // 22.05k
    [11_289_600, 22050, 0x02, 0x01, 0x01, 0x01, 0x00, 0x00, 0xff, 0x04, 0x10, 0x10],
    [5_644_800, 22050, 0x01, 0x01, 0x01, 0x01, 0x00, 0x00, 0xff, 0x04, 0x10, 0x10],
    [2_822_400, 22050, 0x01, 0x02, 0x01, 0x01, 0x00, 0x00, 0xff, 0x04, 0x10, 0x10],
    [1_411_200, 22050, 0x01, 0x04, 0x01, 0x01, 0x00, 0x00, 0xff, 0x04, 0x10, 0x10],
    // 24k
    [12_288_000, 24000, 0x02, 0x01, 0x01, 0x01, 0x00, 0x00, 0xff, 0x04, 0x10, 0x10],
    [18_432_000, 24000, 0x03, 0x01, 0x01, 0x01, 0x00, 0x00, 0xff, 0x04, 0x10, 0x10],
    [6_144_000, 24000, 0x01, 0x01, 0x01, 0x01, 0x00, 0x00, 0xff, 0x04, 0x10, 0x10],
    [3_072_000, 24000, 0x01, 0x02, 0x01, 0x01, 0x00, 0x00, 0xff, 0x04, 0x10, 0x10],
    [1_536_000, 24000, 0x01, 0x04, 0x01, 0x01, 0x00, 0x00, 0xff, 0x04, 0x10, 0x10],
    // 32k
    [12_288_000, 32000, 0x03, 0x02, 0x01, 0x01, 0x00, 0x00, 0xff, 0x04, 0x10, 0x10],
    [18_432_000, 32000, 0x03, 0x04, 0x03, 0x03, 0x00, 0x02, 0xff, 0x0c, 0x10, 0x10],
    [16_384_000, 32000, 0x02, 0x01, 0x01, 0x01, 0x00, 0x00, 0xff, 0x04, 0x10, 0x10],
    [8_192_000, 32000, 0x01, 0x01, 0x01, 0x01, 0x00, 0x00, 0xff, 0x04, 0x10, 0x10],
    [6_144_000, 32000, 0x03, 0x04, 0x01, 0x01, 0x00, 0x00, 0xff, 0x04, 0x10, 0x10],
    [4_096_000, 32000, 0x01, 0x02, 0x01, 0x01, 0x00, 0x00, 0xff, 0x04, 0x10, 0x10],
    [3_072_000, 32000, 0x03, 0x08, 0x01, 0x01, 0x00, 0x00, 0xff, 0x04, 0x10, 0x10],
    [2_048_000, 32000, 0x01, 0x04, 0x01, 0x01, 0x00, 0x00, 0xff, 0x04, 0x10, 0x10],
    [1_536_000, 32000, 0x03, 0x08, 0x01, 0x01, 0x01, 0x00, 0x7f, 0x02, 0x10, 0x10],
    [1_024_000, 32000, 0x01, 0x08, 0x01, 0x01, 0x00, 0x00, 0xff, 0x04, 0x10, 0x10],
    // 44.1k
    [11_289_600, 44100, 0x01, 0x01, 0x01, 0x01, 0x00, 0x00, 0xff, 0x04, 0x10, 0x10],
    [5_644_800, 44100, 0x01, 0x02, 0x01, 0x01, 0x00, 0x00, 0xff, 0x04, 0x10, 0x10],
    [2_822_400, 44100, 0x01, 0x04, 0x01, 0x01, 0x00, 0x00, 0xff, 0x04, 0x10, 0x10],
    [1_411_200, 44100, 0x01, 0x08, 0x01, 0x01, 0x00, 0x00, 0xff, 0x04, 0x10, 0x10],
    // 48k
    [12_288_000, 48000, 0x01, 0x01, 0x01, 0x01, 0x00, 0x00, 0xff, 0x04, 0x10, 0x10],
    [18_432_000, 48000, 0x03, 0x02, 0x01, 0x01, 0x00, 0x00, 0xff, 0x04, 0x10, 0x10],
    [6_144_000, 48000, 0x01, 0x02, 0x01, 0x01, 0x00, 0x00, 0xff, 0x04, 0x10, 0x10],
    [3_072_000, 48000, 0x01, 0x04, 0x01, 0x01, 0x00, 0x00, 0xff, 0x04, 0x10, 0x10],
    [1_536_000, 48000, 0x01, 0x08, 0x01, 0x01, 0x00, 0x00, 0xff, 0x04, 0x10, 0x10],
    // 64k
    [12_288_000, 64000, 0x03, 0x04, 0x01, 0x01, 0x00, 0x00, 0xff, 0x04, 0x10, 0x10],
    [18_432_000, 64000, 0x03, 0x04, 0x03, 0x03, 0x01, 0x01, 0x7f, 0x06, 0x10, 0x10],
    [16_384_000, 64000, 0x01, 0x01, 0x01, 0x01, 0x00, 0x00, 0xff, 0x04, 0x10, 0x10],
    [8_192_000, 64000, 0x01, 0x02, 0x01, 0x01, 0x00, 0x00, 0xff, 0x04, 0x10, 0x10],
    [6_144_000, 64000, 0x01, 0x04, 0x03, 0x03, 0x01, 0x01, 0x7f, 0x06, 0x10, 0x10],
    [4_096_000, 64000, 0x01, 0x04, 0x01, 0x01, 0x00, 0x00, 0xff, 0x04, 0x10, 0x10],
    [3_072_000, 64000, 0x01, 0x08, 0x03, 0x03, 0x01, 0x01, 0x7f, 0x06, 0x10, 0x10],
    [2_048_000, 64000, 0x01, 0x08, 0x01, 0x01, 0x00, 0x00, 0xff, 0x04, 0x10, 0x10],
    [1_536_000, 64000, 0x01, 0x08, 0x01, 0x01, 0x01, 0x00, 0xbf, 0x03, 0x18, 0x18],
    [1_024_000, 64000, 0x01, 0x08, 0x01, 0x01, 0x01, 0x00, 0x7f, 0x02, 0x10, 0x10],
    // 88.2k
    [11_289_600, 88200, 0x01, 0x02, 0x01, 0x01, 0x00, 0x00, 0xff, 0x04, 0x10, 0x10],
    [5_644_800, 88200, 0x01, 0x04, 0x01, 0x01, 0x00, 0x00, 0xff, 0x04, 0x10, 0x10],
    [2_822_400, 88200, 0x01, 0x08, 0x01, 0x01, 0x00, 0x00, 0xff, 0x04, 0x10, 0x10],
    [1_411_200, 88200, 0x01, 0x08, 0x01, 0x01, 0x01, 0x00, 0x7f, 0x02, 0x10, 0x10],
    // 96k
    [12_288_000, 96000, 0x01, 0x02, 0x01, 0x01, 0x00, 0x00, 0xff, 0x04, 0x10, 0x10],
    [18_432_000, 96000, 0x03, 0x04, 0x01, 0x01, 0x00, 0x00, 0xff, 0x04, 0x10, 0x10],
    [6_144_000, 96000, 0x01, 0x04, 0x01, 0x01, 0x00, 0x00, 0xff, 0x04, 0x10, 0x10],
    [3_072_000, 96000, 0x01, 0x08, 0x01, 0x01, 0x00, 0x00, 0xff, 0x04, 0x10, 0x10],
    [1_536_000, 96000, 0x01, 0x08, 0x01, 0x01, 0x01, 0x00, 0x7f, 0x02, 0x10, 0x10],
];

/// Row `i` of the table.
#[verifier::opaque]
pub open spec fn row(i: int) -> Coeff {
    let cells = COEFF@[i]@;
    Coeff {
        mclk: cells[0],
        rate: cells[1],
        pre_div: cells[2] as u8,
        pre_multi: cells[3] as u8,
        adc_div: cells[4] as u8,
        dac_div: cells[5] as u8,
        fs_mode: cells[6] as u8,
        lrck_h: cells[7] as u8,
        lrck_l: cells[8] as u8,
        bclk_div: cells[9] as u8,
        adc_osr: cells[10] as u8,
        dac_osr: cells[11] as u8,
    }
}

impl Coeff {
    /// The dividers are positive, and the pre-divider and pre-multiplier are
    /// ones the chip has.
    pub open spec fn sound(self) -> bool {
        &&& 1 <= self.pre_div <= 8
        &&& (self.pre_multi == 1 || self.pre_multi == 2 || self.pre_multi == 4 || self.pre_multi
            == 8)
        &&& self.adc_div >= 1
        &&& self.dac_div >= 1
        &&& self.bclk_div >= 1
    }
}

/// Every row of the table is sound.
pub proof fn lemma_rows_are_sound(i: int)
    requires
        0 <= i < 75,
    ensures
        row(i).sound(),
{
    reveal(row);
}

/// The first row from row `from` on for a (MCLK, rate) pair.
pub open spec fn find(mclk_hz: u32, rate_hz: u32, from: int) -> Option<Coeff>
    decreases 75 - from,
{
    if from >= 75 {
        None
    } else if row(from).mclk == mclk_hz && row(from).rate == rate_hz {
        Some(row(from))
    } else {
        find(mclk_hz, rate_hz, from + 1)
    }
}

/// The coefficient row for a (MCLK, rate) pair, if the chip supports it.
pub fn coeff(mclk_hz: u32, rate_hz: u32) -> (r: Option<Coeff>)
    ensures
        r == find(mclk_hz, rate_hz, 0),
        r matches Some(c) ==> c.sound() && c.mclk == mclk_hz && c.rate == rate_hz,
{
    let mut i: usize = 0;
    while i < 75
        invariant
            i <= 75,
            find(mclk_hz, rate_hz, 0) == find(mclk_hz, rate_hz, i as int),
        decreases 75 - i,
    {
        let c: Coeff = coeff_row(i);
        if c.mclk == mclk_hz && c.rate == rate_hz {
            proof {
                lemma_rows_are_sound(i as int);
            }
            return Some(c);
        }
        i += 1;
    }
    None
}

/// Row `i` of the table.
pub fn coeff_row(i: usize) -> (r: Coeff)
    requires
        i < 75,
    ensures
        r == row(i as int),
{
    proof {
        reveal(row);
    }
    let cells: [u32; 12] = COEFF[i];
    Coeff {
        mclk: cells[0],
        rate: cells[1],
        pre_div: cells[2] as u8,
        pre_multi: cells[3] as u8,
        adc_div: cells[4] as u8,
        dac_div: cells[5] as u8,
        fs_mode: cells[6] as u8,
        lrck_h: cells[7] as u8,
        lrck_l: cells[8] as u8,
        bclk_div: cells[9] as u8,
        adc_osr: cells[10] as u8,
        dac_osr: cells[11] as u8,
    }
}

/// The default master clock for a rate: 256 times the rate.
pub fn mclk_for(rate_hz: u32) -> (r: u32)
    requires
        rate_hz * 256 <= u32::MAX,
    ensures
        r == rate_hz * 256,
{
    rate_hz * 256
}

/// Where the chip's internal MCLK comes from.
#[derive(Debug, Clone, Copy, PartialEq, Eq, Structural)]
pub enum MclkSource {
    /// The MCLK pin (the other side drives a clock of 256 times the rate).
    Pin,
    /// Multiplied up from BCLK (no MCLK wire: `DIG_MCLK = LRCK * 256 = BCLK * 8`).
    Sclk,
}

/// Analog microphone PGA gain (`ADC_REG16`), in 6 dB steps.
#[derive(Debug, Clone, Copy, PartialEq, Eq, Structural)]
pub enum MicGain {
    /// 0 dB.
    Db0,
    /// 6 dB.
    Db6,
    /// 12 dB.
    Db12,
    /// 18 dB.
    Db18,
    /// 24 dB.
    Db24,
    /// 30 dB.
    Db30,
    /// 36 dB.
    Db36,
    /// 42 dB.
    Db42,
}

impl MicGain {
    /// The register code: one per 6 dB.
    pub open spec fn code_spec(self) -> u8 {
        match self {
            MicGain::Db0 => 0,
            MicGain::Db6 => 1,
            MicGain::Db12 => 2,
            MicGain::Db18 => 3,
            MicGain::Db24 => 4,
            MicGain::Db30 => 5,
            MicGain::Db36 => 6,
            MicGain::Db42 => 7,
        }
    }

    /// The register code: one per 6 dB.
    pub fn code(self) -> (r: u8)
        ensures
            r == self.code_spec(),
    {
        match self {
            MicGain::Db0 => 0,
            MicGain::Db6 => 1,
            MicGain::Db12 => 2,
            MicGain::Db18 => 3,
            MicGain::Db24 => 4,
            MicGain::Db30 => 5,
            MicGain::Db36 => 6,
            MicGain::Db42 => 7,
        }
    }
}

/// Bring-up parameters.
#[derive(Debug, Clone, Copy, PartialEq, Eq, Structural)]
pub struct Config {
    /// Who drives BCLK / LRCK.
    pub mode: Mode,
    /// Internal MCLK source.
    pub mclk: MclkSource,
    /// Invert the MCLK input.
    pub invert_mclk: bool,
    /// Invert BCLK.
    pub invert_sclk: bool,
    /// The microphone is a PDM digital mic, not analog.
    pub dmic: bool,
    /// Sample rate, Hz.
    pub sample_rate_hz: u32,
    /// Master clock, Hz (the coefficient table must have the pair).
    pub mclk_hz: u32,
}

impl Config {
    /// The vendor driver's defaults: slave, MCLK from the pin, nothing
    /// inverted, analog mic, 256 times the rate.
    pub fn slave(sample_rate_hz: u32) -> (r: Self)
        requires
            sample_rate_hz * 256 <= u32::MAX,
        ensures
            r == (Config {
                mode: Mode::Slave,
                mclk: MclkSource::Pin,
                invert_mclk: false,
                invert_sclk: false,
                dmic: false,
                sample_rate_hz,
                mclk_hz: (sample_rate_hz * 256) as u32,
            }),
    {
        Config {
            mode: Mode::Slave,
            mclk: MclkSource::Pin,
            invert_mclk: false,
            invert_sclk: false,
            dmic: false,
            sample_rate_hz,
            mclk_hz: mclk_for(sample_rate_hz),
        }
    }
}

/// The volume register for a level in half-decibels.
pub open spec fn volume_code(half_db: int) -> u8 {
    let v = 0xBF + half_db;
    (if v < 0 {
        0
    } else if v > 0xFF {
        0xFF
    } else {
        v
    }) as u8
}

/// The DAC volume register for a level in half-decibels: `0` is `0xBF` (0 dB),
/// `+64` is `0xFF` (+32 dB), `-191` is `0x00` (-95.5 dB); clamped.
pub fn dac_volume_reg(half_db: i16) -> (r: u8)
    ensures
        r == volume_code(half_db as int),
{
    let v: i32 = 0xBF + half_db as i32;
    if v < 0 {
        0
    } else if v > 0xFF {
        0xFF
    } else {
        v as u8
    }
}

/// A louder level never has a lower register value.
pub proof fn lemma_volume_rises(a: int, b: int)
    requires
        a <= b,
    ensures
        volume_code(a) <= volume_code(b),
{
}

/// The code for a pre-multiplier; with MCLK taken from BCLK, the one that
/// makes 256 times the rate of it (at 8 kHz BCLK is 512 kHz).
pub open spec fn multiplier_code(c: Coeff, source: MclkSource, rate_hz: u32) -> u8 {
    if source == MclkSource::Sclk {
        if rate_hz == 8000 {
            2
        } else {
            3
        }
    } else if c.pre_multi == 2 {
        1
    } else if c.pre_multi == 4 {
        2
    } else if c.pre_multi == 8 {
        3
    } else {
        0
    }
}

/// The coefficient row's fields into `CLK_MANAGER_REG02..REG08`, keeping the
/// bits that are not its own.
pub open spec fn rate_script(c: Coeff, source: MclkSource, rate_hz: u32, then: Script) -> Script {
    let multi = multiplier_code(c, source, rate_hz);
    let dividers = (((c.adc_div - 1) as u8) << 4u8) | ((c.dac_div - 1) as u8);
    let bclk = if c.bclk_div < 19 {
        (c.bclk_div - 1) as u8
    } else {
        c.bclk_div
    };
    load(
        reg::CLK_MANAGER_REG02,
        |v2: u8|
            store(
                reg::CLK_MANAGER_REG02,
                ((v2 & 0x07) | (((c.pre_div - 1) as u8) << 5u8)) | (multi << 3u8),
                store(
                    reg::CLK_MANAGER_REG05,
                    dividers,
                    load(
                        reg::CLK_MANAGER_REG03,
                        |v3: u8|
                            store(
                                reg::CLK_MANAGER_REG03,
                                ((v3 & 0x80) | (c.fs_mode << 6u8)) | c.adc_osr,
                                load(
                                    reg::CLK_MANAGER_REG04,
                                    |v4: u8|
                                        store(
                                            reg::CLK_MANAGER_REG04,
                                            (v4 & 0x80) | c.dac_osr,
                                            load(
                                                reg::CLK_MANAGER_REG07,
                                                |v7: u8|
                                                    store(
                                                        reg::CLK_MANAGER_REG07,
                                                        (v7 & 0xC0) | c.lrck_h,
                                                        store(
                                                            reg::CLK_MANAGER_REG08,
                                                            c.lrck_l,
                                                            modify_divider(bclk, then),
                                                        ),
                                                    ),
                                            ),
                                        ),
                                ),
                            ),
                    ),
                ),
            ),
    )
}

/// The BCLK divider into the low bits of `CLK_MANAGER_REG06`.
pub open spec fn modify_divider(bclk: u8, then: Script) -> Script {
    load(
        reg::CLK_MANAGER_REG06,
        |v6: u8| store(reg::CLK_MANAGER_REG06, (v6 & 0xE0) | bclk, then),
    )
}

/// The clocks for a rate, or the refusal of a pair the table does not have.
pub open spec fn clock_script(
    mclk_hz: u32,
    rate_hz: u32,
    source: MclkSource,
    then: Script,
) -> Script {
    match find(mclk_hz, rate_hz, 0) {
        None => Script::Refuse(Error::Unsupported),
        Some(c) => rate_script(c, source, rate_hz, then),
    }
}

/// The fixed writes that bring-up begins with. The first one is written twice
/// because the first write to the chip occasionally fails.
pub const BRING_UP: [(u8, u8); 13] = [
    (reg::GPIO_REG44, 0x08),
    (reg::GPIO_REG44, 0x08),
    (reg::CLK_MANAGER_REG01, 0x30),
    (reg::CLK_MANAGER_REG02, 0x00),
    (reg::CLK_MANAGER_REG03, 0x10),
    (reg::ADC_REG16, 0x24),
    (reg::CLK_MANAGER_REG04, 0x10),
    (reg::CLK_MANAGER_REG05, 0x00),
    (reg::SYSTEM_REG0B, 0x00),
    (reg::SYSTEM_REG0C, 0x00),
    (reg::SYSTEM_REG10, 0x1F),
    (reg::SYSTEM_REG11, 0x7F),
    (reg::RESET_REG00, 0x80),
];

/// The ADC front-end defaults that bring-up ends with.
pub const FRONT_END: [(u8, u8); 3] = [
    (reg::SYSTEM_REG13, 0x10),
    (reg::ADC_REG1B, 0x0A),
    (reg::ADC_REG1C, 0x6A),
];

/// `v` with the bits of `mask` set or cleared.
pub open spec fn with_bits(v: u8, mask: u8, set: bool) -> u8 {
    if set {
        v | mask
    } else {
        v & !mask
    }
}

/// The bring-up: the fixed writes, master or slave, the MCLK source, the clock
/// coefficients, the inversions, the ADC front-end defaults.
pub open spec fn init_script(cfg: Config) -> Script {
    stores(BRING_UP@, init_rest(cfg))
}

/// The bring-up after the fixed writes.
pub open spec fn init_rest(cfg: Config) -> Script {
    load(
        reg::RESET_REG00,
        |v: u8|
            store(
                reg::RESET_REG00,
                with_bits(v, 0x40, cfg.mode == Mode::Master),
                store(
                    reg::CLK_MANAGER_REG01,
                    0x3F,
                    load(
                        reg::CLK_MANAGER_REG01,
                        |w: u8|
                            store(
                                reg::CLK_MANAGER_REG01,
                                with_bits(w, 0x80, cfg.mclk == MclkSource::Sclk),
                                clock_script(
                                    cfg.mclk_hz,
                                    cfg.sample_rate_hz,
                                    cfg.mclk,
                                    inversion_script(cfg),
                                ),
                            ),
                    ),
                ),
            ),
    )
}

/// The end of bring-up: the inversions and the front end.
pub open spec fn inversion_script(cfg: Config) -> Script {
    load(
        reg::CLK_MANAGER_REG01,
        |v: u8|
            store(
                reg::CLK_MANAGER_REG01,
                with_bits(v, 0x40, cfg.invert_mclk),
                load(
                    reg::CLK_MANAGER_REG06,
                    |w: u8|
                        store(
                            reg::CLK_MANAGER_REG06,
                            with_bits(w, 0x20, cfg.invert_sclk),
                            stores(FRONT_END@, done()),
                        ),
                ),
            ),
    )
}

/// The driver.
pub struct Es8311<I> {
    /// The chip's registers.
    pub regs: I2cRegs<I>,
    /// The microphone is a PDM digital mic.
    pub dmic: bool,
    /// Internal MCLK source.
    pub mclk: MclkSource,
}

impl<I: Bus> Es8311<I> {
    /// Over `i2c` at the chip's 7-bit `addr` (normally [`ADDR`]).
    pub fn new(i2c: I, addr: u8) -> (r: Self)
        ensures
            r.regs.i2c == i2c,
            r.regs.addr == addr,
            !r.dmic,
            r.mclk == MclkSource::Pin,
    {
        Es8311 { regs: I2cRegs::new(i2c, addr), dmic: false, mclk: MclkSource::Pin }
    }

    /// Give the bus back.
    pub fn release(self) -> (r: I)
        ensures
            r == self.regs.i2c,
    {
        self.regs.release()
    }

    /// The register map, for anything the driver does not wrap.
    pub fn regs(&mut self) -> (r: &mut I2cRegs<I>)
        ensures
            *r == old(self).regs,
            *final(self) == (Es8311 { regs: *final(r), ..*old(self) }),
    {
        &mut self.regs
    }

    /// Read the chip id bytes; [`CHIP_ID`] on a real part.
    pub fn chip_id(&mut self) -> (r: Result<(u8, u8)>)
        ensures
            final(self).regs.addr == old(self).regs.addr,
            final(self).dmic == old(self).dmic,
            final(self).mclk == old(self).mclk,
            extends(
                load(
                    reg::CHD1_REGFD,
                    |a: u8| load(reg::CHD2_REGFE, |b: u8| Script::Done(seq![a, b])),
                ),
                old(self).regs.i2c.log(),
                final(self).regs.i2c.log(),
                old(self).regs.addr,
                match r {
                    Ok((a, b)) => Ok(seq![a, b]),
                    Err(e) => Err(e),
                },
            ),
    {
        let ghost script = load(
            reg::CHD1_REGFD,
            |a: u8| load(reg::CHD2_REGFE, |b: u8| Script::Done(seq![a, b])),
        );
        let ghost start = self.regs.i2c.log();
        proof {
            lemma_begin(script, start, self.regs.addr);
        }
        let a: u8 = self.regs.get(reg::CHD1_REGFD, Ghost(script), Ghost(start))?;
        let b: u8 = self.regs.get(reg::CHD2_REGFE, Ghost(script), Ghost(start))?;
        proof {
            lemma_end(script, start, self.regs.i2c.log(), self.regs.addr, Ok(seq![a, b]));
        }
        Ok((a, b))
    }

    /// Clock the chip by the row `c`, as `script` asks for next.
    fn clock_by(
        &mut self,
        c: Coeff,
        rate_hz: u32,
        Ghost(script): Ghost<Script>,
        Ghost(start): Ghost<Seq<Transfer>>,
        Ghost(then): Ghost<Script>,
    ) -> (r: Result<()>)
        requires
            c.sound(),
            old(self).regs.rest(script, start) == Some(
                rate_script(c, old(self).mclk, rate_hz, then),
            ),
        ensures
            final(self).regs.addr == old(self).regs.addr,
            final(self).dmic == old(self).dmic,
            final(self).mclk == old(self).mclk,
            r is Ok ==> final(self).regs.rest(script, start) == Some(then),
            r matches Err(e) ==> e == Error::Hardware && extends(
                script,
                start,
                final(self).regs.i2c.log(),
                old(self).regs.addr,
                Err(e),
            ),
    {
        let multi: u8 = if self.mclk == MclkSource::Sclk {
            if rate_hz == 8000 {
                2
            } else {
                3
            }
        } else if c.pre_multi == 2 {
            1
        } else if c.pre_multi == 4 {
            2
        } else if c.pre_multi == 8 {
            3
        } else {
            0
        };
        let v: u8 = self.regs.get(reg::CLK_MANAGER_REG02, Ghost(script), Ghost(start))?;
        let v: u8 = ((v & 0x07) | ((c.pre_div - 1) << 5u8)) | (multi << 3u8);
        self.regs.put(reg::CLK_MANAGER_REG02, v, Ghost(script), Ghost(start))?;
        let v: u8 = ((c.adc_div - 1) << 4u8) | (c.dac_div - 1);
        self.regs.put(reg::CLK_MANAGER_REG05, v, Ghost(script), Ghost(start))?;
        let v: u8 = self.regs.get(reg::CLK_MANAGER_REG03, Ghost(script), Ghost(start))?;
        let v: u8 = ((v & 0x80) | (c.fs_mode << 6u8)) | c.adc_osr;
        self.regs.put(reg::CLK_MANAGER_REG03, v, Ghost(script), Ghost(start))?;
        let v: u8 = self.regs.get(reg::CLK_MANAGER_REG04, Ghost(script), Ghost(start))?;
        self.regs.put(reg::CLK_MANAGER_REG04, (v & 0x80) | c.dac_osr, Ghost(script), Ghost(start))?;
        let v: u8 = self.regs.get(reg::CLK_MANAGER_REG07, Ghost(script), Ghost(start))?;
        self.regs.put(reg::CLK_MANAGER_REG07, (v & 0xC0) | c.lrck_h, Ghost(script), Ghost(start))?;
        self.regs.put(reg::CLK_MANAGER_REG08, c.lrck_l, Ghost(script), Ghost(start))?;
        let v: u8 = self.regs.get(reg::CLK_MANAGER_REG06, Ghost(script), Ghost(start))?;
        let bclk: u8 = if c.bclk_div < 19 {
            c.bclk_div - 1
        } else {
            c.bclk_div
        };
        self.regs.put(reg::CLK_MANAGER_REG06, (v & 0xE0) | bclk, Ghost(script), Ghost(start))
    }

    /// The bring-up ([`init_script`]).
    pub fn init(&mut self, cfg: &Config) -> (r: Result<()>)
        ensures
            final(self).regs.addr == old(self).regs.addr,
            final(self).dmic == cfg.dmic,
            final(self).mclk == cfg.mclk,
            extends(
                init_script(*cfg),
                old(self).regs.i2c.log(),
                final(self).regs.i2c.log(),
                old(self).regs.addr,
                plain(r),
            ),
    {
        self.dmic = cfg.dmic;
        self.mclk = cfg.mclk;
        let ghost script = init_script(*cfg);
        let ghost start = self.regs.i2c.log();
        let ghost body = load(
            reg::RESET_REG00,
            |v: u8|
                store(
                    reg::RESET_REG00,
                    with_bits(v, 0x40, cfg.mode == Mode::Master),
                    store(
                        reg::CLK_MANAGER_REG01,
                        0x3F,
                        load(
                            reg::CLK_MANAGER_REG01,
                            |w: u8|
                                store(
                                    reg::CLK_MANAGER_REG01,
                                    with_bits(w, 0x80, cfg.mclk == MclkSource::Sclk),
                                    clock_script(
                                        cfg.mclk_hz,
                                        cfg.sample_rate_hz,
                                        cfg.mclk,
                                        inversion_script(*cfg),
                                    ),
                                ),
                        ),
                    ),
                ),
        );
        proof {
            lemma_begin(script, start, self.regs.addr);
        }
        self.regs.put_all(BRING_UP.as_slice(), Ghost(script), Ghost(start), Ghost(body))?;
        let v: u8 = self.regs.get(reg::RESET_REG00, Ghost(script), Ghost(start))?;
        let v: u8 = match cfg.mode {
            Mode::Master => v | 0x40,
            Mode::Slave => v & !0x40,
        };
        self.regs.put(reg::RESET_REG00, v, Ghost(script), Ghost(start))?;
        self.regs.put(reg::CLK_MANAGER_REG01, 0x3F, Ghost(script), Ghost(start))?;
        let v: u8 = self.regs.get(reg::CLK_MANAGER_REG01, Ghost(script), Ghost(start))?;
        let v: u8 = match cfg.mclk {
            MclkSource::Pin => v & !0x80,
            MclkSource::Sclk => v | 0x80,
        };
        self.regs.put(reg::CLK_MANAGER_REG01, v, Ghost(script), Ghost(start))?;
        let c: Coeff = match coeff(cfg.mclk_hz, cfg.sample_rate_hz) {
            Some(c) => c,
            None => {
                proof {
                    lemma_end(
                        script,
                        start,
                        self.regs.i2c.log(),
                        self.regs.addr,
                        Err(Error::Unsupported),
                    );
                }
                return Err(Error::Unsupported);
            },
        };
        self.clock_by(
            c,
            cfg.sample_rate_hz,
            Ghost(script),
            Ghost(start),
            Ghost(inversion_script(*cfg)),
        )?;
        let v: u8 = self.regs.get(reg::CLK_MANAGER_REG01, Ghost(script), Ghost(start))?;
        let v: u8 = if cfg.invert_mclk {
            v | 0x40
        } else {
            v & !0x40
        };
        self.regs.put(reg::CLK_MANAGER_REG01, v, Ghost(script), Ghost(start))?;
        let v: u8 = self.regs.get(reg::CLK_MANAGER_REG06, Ghost(script), Ghost(start))?;
        let v: u8 = if cfg.invert_sclk {
            v | 0x20
        } else {
            v & !0x20
        };
        self.regs.put(reg::CLK_MANAGER_REG06, v, Ghost(script), Ghost(start))?;
        self.regs.put_all(FRONT_END.as_slice(), Ghost(script), Ghost(start), Ghost(done()))?;
        proof {
            lemma_end(script, start, self.regs.i2c.log(), self.regs.addr, Ok(Seq::empty()));
        }
        Ok(())
    }

    /// Write one register.
    fn write_one(&mut self, register: u8, value: u8) -> (r: Result<()>)
        ensures
            final(self).regs.addr == old(self).regs.addr,
            final(self).dmic == old(self).dmic,
            final(self).mclk == old(self).mclk,
            extends(
                store(register, value, done()),
                old(self).regs.i2c.log(),
                final(self).regs.i2c.log(),
                old(self).regs.addr,
                plain(r),
            ),
    {
        let ghost script = store(register, value, done());
        let ghost start = self.regs.i2c.log();
        proof {
            lemma_begin(script, start, self.regs.addr);
        }
        self.regs.put(register, value, Ghost(script), Ghost(start))?;
        proof {
            lemma_end(script, start, self.regs.i2c.log(), self.regs.addr, Ok(Seq::empty()));
        }
        Ok(())
    }

    /// DAC volume register, straight ([`dac_volume_reg`] maps half-dB to it).
    pub fn set_dac_volume_reg(&mut self, value: u8) -> (r: Result<()>)
        ensures
            final(self).regs.addr == old(self).regs.addr,
            final(self).dmic == old(self).dmic,
            final(self).mclk == old(self).mclk,
            extends(
                store(reg::DAC_REG32, value, done()),
                old(self).regs.i2c.log(),
                final(self).regs.i2c.log(),
                old(self).regs.addr,
                plain(r),
            ),
    {
        self.write_one(reg::DAC_REG32, value)
    }

    /// Analog mic gain (`ADC_REG16`).
    pub fn set_mic_gain(&mut self, gain: MicGain) -> (r: Result<()>)
        ensures
            final(self).regs.addr == old(self).regs.addr,
            final(self).dmic == old(self).dmic,
            final(self).mclk == old(self).mclk,
            extends(
                store(reg::ADC_REG16, gain.code_spec(), done()),
                old(self).regs.i2c.log(),
                final(self).regs.i2c.log(),
                old(self).regs.addr,
                plain(r),
            ),
    {
        self.write_one(reg::ADC_REG16, gain.code())
    }
}

/// A serial port register with its framing bits set.
pub open spec fn framed(v: u8, fmt: I2sFormat) -> u8 {
    match fmt {
        I2sFormat::Standard => v & 0xFC,
        I2sFormat::LeftJustified => (v & 0xFC) | 0x01,
        I2sFormat::Dsp => (v & 0xDC) | 0x03,
    }
}

/// A serial port register with its width bits set.
pub open spec fn widened(v: u8, bits: Bits) -> u8 {
    match bits {
        Bits::B16 => v | 0x0C,
        Bits::B24 => v,
        Bits::B32 => v | 0x10,
    }
}

/// A serial port register, unmuted or not (bit 6 mutes).
pub open spec fn opened(v: u8, on: bool) -> u8 {
    if on {
        ((v & 0xBF) | 0x40) & !0x40u8
    } else {
        (v & 0xBF) | 0x40
    }
}

fn frame(v: u8, fmt: I2sFormat) -> (r: u8)
    ensures
        r == framed(v, fmt),
{
    match fmt {
        I2sFormat::Standard => v & 0xFC,
        I2sFormat::LeftJustified => (v & 0xFC) | 0x01,
        I2sFormat::Dsp => (v & 0xDC) | 0x03,
    }
}

fn widen(v: u8, bits: Bits) -> (r: u8)
    ensures
        r == widened(v, bits),
{
    match bits {
        Bits::B16 => v | 0x0C,
        Bits::B24 => v,
        Bits::B32 => v | 0x10,
    }
}

fn open_port(v: u8, on: bool) -> (r: u8)
    ensures
        r == opened(v, on),
{
    let closed: u8 = (v & 0xBF) | 0x40;
    if on {
        closed & !0x40
    } else {
        closed
    }
}

/// The width bits of both serial ports: `SDPIN_REG09` (DAC), `SDPOUT_REG0A`
/// (ADC).
pub open spec fn width_script(bits: Bits) -> Script {
    load(
        reg::SDPIN_REG09,
        |dac: u8|
            load(
                reg::SDPOUT_REG0A,
                |adc: u8|
                    store(
                        reg::SDPIN_REG09,
                        widened(dac, bits),
                        store(reg::SDPOUT_REG0A, widened(adc, bits), done()),
                    ),
            ),
    )
}

/// Analog blocks on, ahead of the microphone choice.
pub const POWER_UP: [(u8, u8); 4] = [
    (reg::ADC_REG17, 0xBF),
    (reg::SYSTEM_REG0E, 0x02),
    (reg::SYSTEM_REG12, 0x00),
    (reg::SYSTEM_REG14, 0x1A),
];

/// The ADC and DAC ramps and the internal reference signal (ADCL + DACR).
pub const RAMPS: [(u8, u8); 5] = [
    (reg::SYSTEM_REG0D, 0x01),
    (reg::ADC_REG15, 0x40),
    (reg::DAC_REG37, 0x08),
    (reg::GP_REG45, 0x00),
    (reg::GPIO_REG44, 0x58),
];

/// Volumes to minimum, analog blocks off.
pub const SUSPEND: [(u8, u8); 8] = [
    (reg::DAC_REG32, 0x00),
    (reg::ADC_REG17, 0x00),
    (reg::SYSTEM_REG0E, 0xFF),
    (reg::SYSTEM_REG12, 0x02),
    (reg::SYSTEM_REG14, 0x00),
    (reg::SYSTEM_REG0D, 0xFA),
    (reg::ADC_REG15, 0x00),
    (reg::GP_REG45, 0x01),
];

/// The analog or the PDM microphone, then the ramps.
pub open spec fn microphone_script(dmic: bool) -> Script {
    load(
        reg::SYSTEM_REG14,
        |v: u8| store(reg::SYSTEM_REG14, with_bits(v, 0x40, dmic), stores(RAMPS@, done())),
    )
}

impl<I: Bus> CodecChip for Es8311<I> {
    open spec fn log(&self) -> Seq<Transfer> {
        self.regs.i2c.log()
    }

    open spec fn address(&self) -> u8 {
        self.regs.addr
    }

    open spec fn sample_rate_script(&self, sample_rate_hz: u32, mclk_hz: u32) -> Script {
        clock_script(mclk_hz, sample_rate_hz, self.mclk, done())
    }

    open spec fn format_script(&self, fmt: I2sFormat, bits: Bits) -> Script {
        load(
            reg::SDPIN_REG09,
            |dac: u8|
                load(
                    reg::SDPOUT_REG0A,
                    |adc: u8|
                        store(
                            reg::SDPIN_REG09,
                            framed(dac, fmt),
                            store(reg::SDPOUT_REG0A, framed(adc, fmt), width_script(bits)),
                        ),
                ),
        )
    }

    open spec fn start_script(&self, module: Module) -> Script {
        let dmic = self.dmic;
        load(
            reg::SDPIN_REG09,
            |dac: u8|
                load(
                    reg::SDPOUT_REG0A,
                    |adc: u8|
                        store(
                            reg::SDPIN_REG09,
                            opened(dac, module != Module::Adc),
                            store(
                                reg::SDPOUT_REG0A,
                                opened(adc, module != Module::Dac),
                                stores(POWER_UP@, microphone_script(dmic)),
                            ),
                        ),
                ),
        )
    }

    open spec fn stop_script(&self) -> Script {
        stores(SUSPEND@, done())
    }

    open spec fn mute_script(&self, mute: bool) -> Script {
        load(
            reg::DAC_REG31,
            |v: u8|
                store(
                    reg::DAC_REG31,
                    if mute {
                        (v & 0x9F) | 0x60
                    } else {
                        v & 0x9F
                    },
                    done(),
                ),
        )
    }

    /// The coefficient row's fields into the clock manager; a pair that the
    /// table does not have is refused before any write.
    fn set_sample_rate(&mut self, sample_rate_hz: u32, mclk_hz: u32) -> (r: Result<()>)
        ensures
            final(self).dmic == old(self).dmic,
            final(self).mclk == old(self).mclk,
    {
        let ghost script = self.sample_rate_script(sample_rate_hz, mclk_hz);
        let ghost start = self.regs.i2c.log();
        proof {
            lemma_begin(script, start, self.regs.addr);
        }
        let c: Coeff = match coeff(mclk_hz, sample_rate_hz) {
            Some(c) => c,
            None => {
                return Err(Error::Unsupported);
            },
        };
        self.clock_by(c, sample_rate_hz, Ghost(script), Ghost(start), Ghost(done()))?;
        proof {
            lemma_end(script, start, self.regs.i2c.log(), self.regs.addr, Ok(Seq::empty()));
        }
        Ok(())
    }

    /// The framing, then the slot width, on the DAC (`SDPIN_REG09`) and ADC
    /// (`SDPOUT_REG0A`) serial ports.
    fn set_format(&mut self, fmt: I2sFormat, bits: Bits) -> (r: Result<()>)
        ensures
            final(self).dmic == old(self).dmic,
            final(self).mclk == old(self).mclk,
    {
        let ghost script = self.format_script(fmt, bits);
        let ghost start = self.regs.i2c.log();
        proof {
            lemma_begin(script, start, self.regs.addr);
        }
        let dac: u8 = self.regs.get(reg::SDPIN_REG09, Ghost(script), Ghost(start))?;
        let adc: u8 = self.regs.get(reg::SDPOUT_REG0A, Ghost(script), Ghost(start))?;
        self.regs.put(reg::SDPIN_REG09, frame(dac, fmt), Ghost(script), Ghost(start))?;
        self.regs.put(reg::SDPOUT_REG0A, frame(adc, fmt), Ghost(script), Ghost(start))?;
        let dac: u8 = self.regs.get(reg::SDPIN_REG09, Ghost(script), Ghost(start))?;
        let adc: u8 = self.regs.get(reg::SDPOUT_REG0A, Ghost(script), Ghost(start))?;
        self.regs.put(reg::SDPIN_REG09, widen(dac, bits), Ghost(script), Ghost(start))?;
        self.regs.put(reg::SDPOUT_REG0A, widen(adc, bits), Ghost(script), Ghost(start))?;
        proof {
            lemma_end(script, start, self.regs.i2c.log(), self.regs.addr, Ok(Seq::empty()));
        }
        Ok(())
    }

    /// Unmute the chosen serial ports, power the analog blocks, choose the
    /// analog or PDM mic, set the ADC/DAC ramps and the internal reference.
    fn start(&mut self, module: Module) -> (r: Result<()>)
        ensures
            final(self).dmic == old(self).dmic,
            final(self).mclk == old(self).mclk,
    {
        let ghost script = self.start_script(module);
        let ghost start = self.regs.i2c.log();
        let ghost then = microphone_script(self.dmic);
        proof {
            lemma_begin(script, start, self.regs.addr);
        }
        let dac: u8 = self.regs.get(reg::SDPIN_REG09, Ghost(script), Ghost(start))?;
        let adc: u8 = self.regs.get(reg::SDPOUT_REG0A, Ghost(script), Ghost(start))?;
        let dac: u8 = open_port(dac, module != Module::Adc);
        let adc: u8 = open_port(adc, module != Module::Dac);
        self.regs.put(reg::SDPIN_REG09, dac, Ghost(script), Ghost(start))?;
        self.regs.put(reg::SDPOUT_REG0A, adc, Ghost(script), Ghost(start))?;
        self.regs.put_all(POWER_UP.as_slice(), Ghost(script), Ghost(start), Ghost(then))?;
        let v: u8 = self.regs.get(reg::SYSTEM_REG14, Ghost(script), Ghost(start))?;
        let v: u8 = if self.dmic {
            v | 0x40
        } else {
            v & !0x40
        };
        self.regs.put(reg::SYSTEM_REG14, v, Ghost(script), Ghost(start))?;
        self.regs.put_all(RAMPS.as_slice(), Ghost(script), Ghost(start), Ghost(done()))?;
        proof {
            lemma_end(script, start, self.regs.i2c.log(), self.regs.addr, Ok(Seq::empty()));
        }
        Ok(())
    }

    /// [`SUSPEND`].
    fn stop(&mut self) -> (r: Result<()>)
        ensures
            final(self).dmic == old(self).dmic,
            final(self).mclk == old(self).mclk,
    {
        let ghost script = self.stop_script();
        let ghost start = self.regs.i2c.log();
        proof {
            lemma_begin(script, start, self.regs.addr);
        }
        self.regs.put_all(SUSPEND.as_slice(), Ghost(script), Ghost(start), Ghost(done()))?;
        proof {
            lemma_end(script, start, self.regs.i2c.log(), self.regs.addr, Ok(Seq::empty()));
        }
        Ok(())
    }

    /// DAC mute bits in `DAC_REG31`.
    fn set_mute(&mut self, mute: bool) -> (r: Result<()>)
        ensures
            final(self).dmic == old(self).dmic,
            final(self).mclk == old(self).mclk,
    {
        let ghost script = self.mute_script(mute);
        let ghost start = self.regs.i2c.log();
        proof {
            lemma_begin(script, start, self.regs.addr);
        }
        let v: u8 = self.regs.get(reg::DAC_REG31, Ghost(script), Ghost(start))?;
        let v: u8 = if mute {
            (v & 0x9F) | 0x60
        } else {
            v & 0x9F
        };
        self.regs.put(reg::DAC_REG31, v, Ghost(script), Ghost(start))?;
        proof {
            lemma_end(script, start, self.regs.i2c.log(), self.regs.addr, Ok(Seq::empty()));
        }
        Ok(())
    }
}

/// The BCLK divider's code.
pub open spec fn bclk_code(c: Coeff) -> u8 {
    if c.bclk_div < 19 {
        (c.bclk_div - 1) as u8
    } else {
        c.bclk_div
    }
}

/// The registers that a clock row writes on a register file.
pub open spec fn rate_writes(c: Coeff, source: MclkSource, rate_hz: u32, file: Seq<u8>) -> Seq<
    (u8, u8),
> {
    seq![
        (
            reg::CLK_MANAGER_REG02,
            ((file[2] & 0x07) | (((c.pre_div - 1) as u8) << 5u8)) | (multiplier_code(
                c,
                source,
                rate_hz,
            ) << 3u8),
        ),
        (
            reg::CLK_MANAGER_REG05,
            (((c.adc_div - 1) as u8) << 4u8) | ((c.dac_div - 1) as u8),
        ),
        (reg::CLK_MANAGER_REG03, ((file[3] & 0x80) | (c.fs_mode << 6u8)) | c.adc_osr),
        (reg::CLK_MANAGER_REG04, (file[4] & 0x80) | c.dac_osr),
        (reg::CLK_MANAGER_REG07, (file[7] & 0xC0) | c.lrck_h),
        (reg::CLK_MANAGER_REG08, c.lrck_l),
        (reg::CLK_MANAGER_REG06, (file[6] & 0xE0) | bclk_code(c)),
    ]
}

/// The registers that a bring-up with the clock row `c` writes on a register
/// file, in order.
pub open spec fn init_writes(cfg: Config, c: Coeff, file: Seq<u8>) -> Seq<(u8, u8)> {
    let ready = filled(file, BRING_UP@);
    let source = with_bits(0x3F, 0x80, cfg.mclk == MclkSource::Sclk);
    BRING_UP@ + seq![
        (reg::RESET_REG00, with_bits(0x80, 0x40, cfg.mode == Mode::Master)),
        (reg::CLK_MANAGER_REG01, 0x3Fu8),
        (reg::CLK_MANAGER_REG01, source),
    ] + rate_writes(c, cfg.mclk, cfg.sample_rate_hz, ready) + seq![
        (reg::CLK_MANAGER_REG01, with_bits(source, 0x40, cfg.invert_mclk)),
        (
            reg::CLK_MANAGER_REG06,
            with_bits((file[6] & 0xE0) | bclk_code(c), 0x20, cfg.invert_sclk),
        ),
    ] + FRONT_END@
}

/// A clock row played on a register file.
pub proof fn lemma_rate_played(
    c: Coeff,
    source: MclkSource,
    rate_hz: u32,
    then: Script,
    file: Seq<u8>,
)
    requires
        file.len() == 256,
    ensures
        ({
            let p = played(rate_script(c, source, rate_hz, then), file);
            let writes = rate_writes(c, source, rate_hz, file);
            let q = played(then, filled(file, writes));
            &&& p.writes == writes + q.writes
            &&& p.file == q.file
            &&& p.answer == q.answer
            &&& filled(file, writes).len() == 256
            &&& filled(file, writes)[1] == file[1]
            &&& filled(file, writes)[6] == (file[6] & 0xE0) | bclk_code(c)
        }),
{
    let w = rate_writes(c, source, rate_hz, file);
    let s0 = rate_script(c, source, rate_hz, then);
    let s1 = (s0->Read_next)(file[2]);
    lemma_read_played(s0, file);
    let f1 = file.update(2, w[0].1);
    let s2 = *s1->Write_then;
    lemma_write_played(s1, file);
    let f2 = f1.update(5, w[1].1);
    let s3 = *s2->Write_then;
    lemma_write_played(s2, f1);
    let s4 = (s3->Read_next)(f2[3]);
    lemma_read_played(s3, f2);
    let f3 = f2.update(3, w[2].1);
    let s5 = *s4->Write_then;
    lemma_write_played(s4, f2);
    let s6 = (s5->Read_next)(f3[4]);
    lemma_read_played(s5, f3);
    let f4 = f3.update(4, w[3].1);
    let s7 = *s6->Write_then;
    lemma_write_played(s6, f3);
    let s8 = (s7->Read_next)(f4[7]);
    lemma_read_played(s7, f4);
    let f5 = f4.update(7, w[4].1);
    let s9 = *s8->Write_then;
    lemma_write_played(s8, f4);
    let f6 = f5.update(8, w[5].1);
    let s10 = *s9->Write_then;
    lemma_write_played(s9, f5);
    let s11 = (s10->Read_next)(f6[6]);
    lemma_read_played(s10, f6);
    let f7 = f6.update(6, w[6].1);
    lemma_write_played(s11, f6);
    assert(*s11->Write_then == then);
    lemma_rate_filled(w, file);
    let q = played(then, f7);
    assert(played(s0, file).writes =~= w + q.writes);
}

/// The register file after the writes of a clock row.
pub proof fn lemma_rate_filled(w: Seq<(u8, u8)>, file: Seq<u8>)
    requires
        w.len() == 7,
        file.len() == 256,
    ensures
        filled(file, w) == file.update(w[0].0 as int, w[0].1).update(
            w[1].0 as int,
            w[1].1,
        ).update(w[2].0 as int, w[2].1).update(w[3].0 as int, w[3].1).update(
            w[4].0 as int,
            w[4].1,
        ).update(w[5].0 as int, w[5].1).update(w[6].0 as int, w[6].1),
{
    reveal_with_fuel(filled, 8);
}

/// On a register file that never fails, a bring-up whose clock pair is in the
/// table succeeds and writes exactly the registers it should, in order.
pub proof fn lemma_init_on_a_register_file(
    cfg: Config,
    file: Seq<u8>,
    before: Seq<Transfer>,
    after: Seq<Transfer>,
    address: u8,
    r: Result<()>,
)
    requires
        find(cfg.mclk_hz, cfg.sample_rate_hz, 0) is Some,
        file.len() == 256,
        extends(init_script(cfg), before, after, address, plain(r)),
        file_answers(file, after.skip(before.len() as int)),
    ensures
        r is Ok,
        writes_of(after.skip(before.len() as int)) == init_writes(
            cfg,
            find(cfg.mclk_hz, cfg.sample_rate_hz, 0)->0,
            file,
        ),
{
    let c = find(cfg.mclk_hz, cfg.sample_rate_hz, 0)->0;
    lemma_played_on_a_register_file(init_script(cfg), file, before, after, address, plain(r));
    lemma_init_played(cfg, c, file);
}

/// A bring-up played on a register file.
proof fn lemma_init_played(cfg: Config, c: Coeff, file: Seq<u8>)
    requires
        find(cfg.mclk_hz, cfg.sample_rate_hz, 0) == Some(c),
        file.len() == 256,
    ensures
        played(init_script(cfg), file).answer == Ok::<Seq<u8>, Error>(Seq::empty()),
        played(init_script(cfg), file).writes == init_writes(cfg, c, file),
{
    let ready = filled(file, BRING_UP@);
    lemma_bring_up_leaves(file);
    let master = with_bits(0x80, 0x40, cfg.mode == Mode::Master);
    let source = with_bits(0x3F, 0x80, cfg.mclk == MclkSource::Sclk);
    let f1 = ready.update(0, master);
    let f2 = f1.update(1, 0x3F);
    let f3 = f2.update(1, source);
    let tail = inversion_script(cfg);
    let clocked = rate_writes(c, cfg.mclk, cfg.sample_rate_hz, ready);
    assert(rate_writes(c, cfg.mclk, cfg.sample_rate_hz, f3) =~= clocked);
    let f4 = filled(f3, clocked);
    lemma_rate_played(c, cfg.mclk, cfg.sample_rate_hz, tail, f3);
    let m1 = (reg::CLK_MANAGER_REG01, with_bits(source, 0x40, cfg.invert_mclk));
    let m6 = (
        reg::CLK_MANAGER_REG06,
        with_bits((file[6] & 0xE0) | bclk_code(c), 0x20, cfg.invert_sclk),
    );
    let f5 = f4.update(1, m1.1);
    let f6 = f5.update(6, m6.1);
    lemma_table_played(FRONT_END@, done(), f6);
    assert(played(tail, f4).writes =~= seq![m1, m6] + FRONT_END@ && played(tail, f4).answer == Ok::<
        Seq<u8>,
        Error,
    >(Seq::empty())) by {
        let t1 = (tail->Read_next)(f4[1]);
        lemma_read_played(tail, f4);
        lemma_write_played(t1, f4);
        let t2 = *t1->Write_then;
        let t3 = (t2->Read_next)(f5[6]);
        lemma_read_played(t2, f5);
        lemma_write_played(t3, f5);
        assert(*t3->Write_then == stores(FRONT_END@, done()));
        let nothing = played(done(), filled(f6, FRONT_END@));
        assert(seq![m1] + (seq![m6] + (FRONT_END@ + nothing.writes)) =~= seq![m1, m6] + FRONT_END@);
    }
    let clocks = clock_script(cfg.mclk_hz, cfg.sample_rate_hz, cfg.mclk, tail);
    let p = played(clocks, f3);
    let middle = seq![
        (reg::RESET_REG00, master),
        (reg::CLK_MANAGER_REG01, 0x3Fu8),
        (reg::CLK_MANAGER_REG01, source),
    ];
    let chosen = init_rest(cfg);
    assert(played(chosen, ready).writes =~= middle + p.writes && played(chosen, ready).answer
        == p.answer) by {
        let t1 = (chosen->Read_next)(ready[0]);
        lemma_read_played(chosen, ready);
        lemma_write_played(t1, ready);
        let t2 = *t1->Write_then;
        lemma_write_played(t2, f1);
        let t3 = *t2->Write_then;
        let t4 = (t3->Read_next)(f2[1]);
        lemma_read_played(t3, f2);
        lemma_write_played(t4, f2);
        assert(*t4->Write_then == clocks);
        assert(seq![middle[0]] + (seq![middle[1]] + (seq![middle[2]] + p.writes)) =~= middle
            + p.writes);
    }
    lemma_table_played(BRING_UP@, chosen, file);
    assert(played(init_script(cfg), file).writes =~= init_writes(cfg, c, file));
}

/// What the fixed writes leave in the registers that bring-up reads.
proof fn lemma_bring_up_leaves(file: Seq<u8>)
    requires
        file.len() == 256,
    ensures
        ({
            let ready = filled(file, BRING_UP@);
            &&& ready.len() == 256
            &&& ready[0] == 0x80
            &&& ready[6] == file[6]
        }),
{
    reveal_with_fuel(filled, 14);
    let t = BRING_UP@;
    assert(t.skip(1)[0] == t[1]);
    assert(t.skip(1).skip(1)[0] == t[2]);
}

/// On a bus that did not fail, a bring-up whose clock pair is in the table
/// succeeds.
pub proof fn lemma_init_on_an_unfailing_bus(
    cfg: Config,
    before: Seq<Transfer>,
    after: Seq<Transfer>,
    address: u8,
    r: Result<()>,
)
    requires
        find(cfg.mclk_hz, cfg.sample_rate_hz, 0) is Some,
        extends(init_script(cfg), before, after, address, plain(r)),
        unfailing(after.skip(before.len() as int)),
    ensures
        r is Ok,
{
    lemma_table_refuses_nothing(FRONT_END@, done());
    assert(refuses_nothing(init_rest(cfg))) by {
        reveal_with_fuel(refuses_nothing, 24);
    }
    lemma_table_refuses_nothing(BRING_UP@, init_rest(cfg));
    lemma_unfailing_bus_succeeds(init_script(cfg), before, after, address, plain(r));
}

/// A clock pair that the table does not have is refused, and the bus is left
/// untouched.
pub proof fn lemma_unknown_clock_pair_is_refused(
    mclk_hz: u32,
    rate_hz: u32,
    source: MclkSource,
    before: Seq<Transfer>,
    after: Seq<Transfer>,
    address: u8,
    r: Result<()>,
)
    requires
        find(mclk_hz, rate_hz, 0) is None,
        extends(clock_script(mclk_hz, rate_hz, source, done()), before, after, address, plain(r)),
    ensures
        r == Err::<(), Error>(Error::Unsupported),
        after == before,
{
    lemma_refusal_touches_nothing(Error::Unsupported, before, after, address, plain(r));
}

/// What a driver accepts it refuses nowhere: on a bus that does not fail, every
/// call but the choice of an unknown clock pair succeeds.
pub proof fn lemma_accepted_is_not_refused<I: Bus>(
    chip: Es8311<I>,
    rate_hz: u32,
    mclk_hz: u32,
    fmt: I2sFormat,
    bits: Bits,
    module: Module,
    mute: bool,
)
    ensures
        find(mclk_hz, rate_hz, 0) is Some ==> refuses_nothing(
            chip.sample_rate_script(rate_hz, mclk_hz),
        ),
        refuses_nothing(chip.format_script(fmt, bits)),
        refuses_nothing(chip.start_script(module)),
        refuses_nothing(chip.stop_script()),
        refuses_nothing(chip.mute_script(mute)),
{
    assert(find(mclk_hz, rate_hz, 0) is Some ==> refuses_nothing(
        chip.sample_rate_script(rate_hz, mclk_hz),
    )) by {
        reveal_with_fuel(refuses_nothing, 14);
    }
    assert(refuses_nothing(chip.format_script(fmt, bits))) by {
        reveal_with_fuel(refuses_nothing, 10);
    }
    lemma_table_refuses_nothing(RAMPS@, done());
    assert(refuses_nothing(microphone_script(chip.dmic))) by {
        reveal_with_fuel(refuses_nothing, 3);
    }
    lemma_table_refuses_nothing(POWER_UP@, microphone_script(chip.dmic));
    assert(refuses_nothing(chip.start_script(module))) by {
        reveal_with_fuel(refuses_nothing, 6);
    }
    lemma_table_refuses_nothing(SUSPEND@, done());
    assert(refuses_nothing(chip.mute_script(mute))) by {
        reveal_with_fuel(refuses_nothing, 3);
    }
}

} // verus!
