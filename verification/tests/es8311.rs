//! The ES8311 driver.

use std::collections::BTreeMap;

use rusty_esp_audio::chip::es8311::{
    coeff, coeff_row, dac_volume_reg, mclk_for, Config, Es8311, MclkSource, MicGain, ADDR, CHIP_ID, COEFF,
};
use rusty_esp_audio::chip::{Bits, Bus, BusFault, CodecChip, I2sFormat, Mode, Module};
use rusty_esp_audio::esp_core::error::Error;

/// A register map behind a bus, with a record of every write.
#[derive(Debug, Default)]
struct FakeCodec {
    regs: BTreeMap<u8, u8>,
    writes: Vec<(u8, u8)>,
    addr_seen: Option<u8>,
}

#[allow(dead_code)]
impl FakeCodec {
    /// Preload registers, as a chip's reset defaults would.
    fn with_defaults(defaults: &[(u8, u8)]) -> Self {
        let mut f = FakeCodec::default();
        for &(r, v) in defaults {
            f.regs.insert(r, v);
        }
        f
    }

    /// The value a register holds now.
    fn reg(&self, r: u8) -> u8 {
        *self.regs.get(&r).unwrap_or(&0)
    }

    /// Every value written to `r`, in order.
    fn history(&self, r: u8) -> Vec<u8> {
        self.writes
            .iter()
            .filter(|(a, _)| *a == r)
            .map(|(_, v)| *v)
            .collect()
    }
}

impl Bus for FakeCodec {
    fn write(&mut self, address: u8, bytes: &[u8]) -> Result<(), BusFault> {
        self.addr_seen = Some(address);
        self.regs.insert(bytes[0], bytes[1]);
        self.writes.push((bytes[0], bytes[1]));
        Ok(())
    }

    fn write_read(&mut self, address: u8, bytes: &[u8]) -> Result<u8, BusFault> {
        self.addr_seen = Some(address);
        Ok(self.reg(bytes[0]))
    }

    fn pause(&mut self, _ms: u16) {}
}

/// A bus that fails from its nth transfer on.
#[allow(dead_code)]
struct FailingBus {
    left: usize,
}

impl Bus for FailingBus {
    fn write(&mut self, _address: u8, _bytes: &[u8]) -> Result<(), BusFault> {
        if self.left == 0 {
            return Err(BusFault);
        }
        self.left -= 1;
        Ok(())
    }

    fn write_read(&mut self, _address: u8, _bytes: &[u8]) -> Result<u8, BusFault> {
        if self.left == 0 {
            return Err(BusFault);
        }
        self.left -= 1;
        Ok(0)
    }

    fn pause(&mut self, _ms: u16) {}
}

#[test]
fn coefficient_table_is_complete_and_findable() {
    assert_eq!(COEFF.len(), 75, "the vendor table's 75 rows");
    assert!(coeff(4_096_000, 16000).is_some());
    assert!(coeff(12_288_000, 48000).is_some());
    assert!(coeff(4_096_000, 48000).is_none());
    assert_eq!(mclk_for(16000), 4_096_000);
    for i in 0..COEFF.len() {
        let c = coeff_row(i);
        assert!((1..=8).contains(&c.pre_div), "{c:?}");
        assert!(matches!(c.pre_multi, 1 | 2 | 4 | 8), "{c:?}");
        assert!(c.adc_div >= 1 && c.dac_div >= 1, "{c:?}");
    }
}

#[test]
fn volume_register_is_half_db_from_zero_at_bf() {
    assert_eq!(dac_volume_reg(0), 0xBF);
    assert_eq!(dac_volume_reg(64), 0xFF);
    assert_eq!(dac_volume_reg(65), 0xFF);
    assert_eq!(dac_volume_reg(-191), 0x00);
    assert_eq!(dac_volume_reg(-200), 0x00);
    assert_eq!(dac_volume_reg(-100), 0x5B, "the driver's -50 dB point");
}

/// The bring-up writes the vendor driver makes, in its order, for the
/// default slave configuration at 16 kHz with a 4.096 MHz MCLK.
#[test]
fn es8311_init_reproduces_the_vendor_sequence() {
    let mut chip = Es8311::new(FakeCodec::default(), ADDR);
    chip.init(&Config::slave(16_000)).unwrap();
    let bus = chip.release();
    assert_eq!(bus.addr_seen, Some(0x18));
    let expected: &[(u8, u8)] = &[
        (0x44, 0x08),
        (0x44, 0x08),
        (0x01, 0x30),
        (0x02, 0x00),
        (0x03, 0x10),
        (0x16, 0x24),
        (0x04, 0x10),
        (0x05, 0x00),
        (0x0B, 0x00),
        (0x0C, 0x00),
        (0x10, 0x1F),
        (0x11, 0x7F),
        (0x00, 0x80),
        (0x00, 0x80), // slave: bit 6 cleared
        (0x01, 0x3F),
        (0x01, 0x3F), // MCLK from the pin: bit 7 cleared
        // the 16 kHz / 4.096 MHz row: pre_div 1, ×1, dividers 1, ss, lrck 0x00ff, bclk 4
        (0x02, 0x00),
        (0x05, 0x00),
        (0x03, 0x10),
        (0x04, 0x20), // DAC OSR 0x20 in the 8 to 16 kHz rows
        (0x07, 0x00),
        (0x08, 0xFF),
        (0x06, 0x03),
        (0x01, 0x3F), // MCLK not inverted
        (0x06, 0x03), // BCLK not inverted
        (0x13, 0x10),
        (0x1B, 0x0A),
        (0x1C, 0x6A),
    ];
    assert_eq!(bus.writes, expected);
}

#[test]
fn master_mode_and_sclk_derived_mclk_set_their_bits() {
    let mut chip = Es8311::new(FakeCodec::default(), ADDR);
    chip.init(&Config {
        mode: Mode::Master,
        mclk: MclkSource::Sclk,
        invert_mclk: true,
        invert_sclk: true,
        dmic: true,
        sample_rate_hz: 8000,
        mclk_hz: mclk_for(8000),
    })
    .unwrap();
    let bus = chip.release();
    assert_eq!(bus.reg(0x00), 0xC0, "master bit on top of the reset value");
    assert_eq!(bus.reg(0x01), 0xFF, "MCLK from BCLK, inverted");
    // 8 kHz / 2.048 MHz over BCLK: pre_div 1 (bits 7..5 clear), multiplier x4 (datmp 2) in bits 4..3
    assert_eq!(bus.reg(0x02), 2 << 3);
    assert!(bus.reg(0x06) & 0x20 != 0, "BCLK inverted");
    assert_eq!(bus.reg(0x1C), 0x6A);
}

#[test]
fn format_start_stop_mute_and_gain() {
    let mut chip = Es8311::new(FakeCodec::default(), ADDR);
    chip.init(&Config::slave(48_000)).unwrap();
    chip.set_format(I2sFormat::Standard, Bits::B16).unwrap();
    chip.start(Module::AdcDac).unwrap();
    {
        let bus = chip.regs().bus();
        assert_eq!(bus.reg(0x09) & 0x4F, 0x0C, "DAC port: 16-bit, unmuted");
        assert_eq!(bus.reg(0x0A) & 0x4F, 0x0C, "ADC port: 16-bit, unmuted");
        assert_eq!(bus.reg(0x14), 0x1A, "analog mic, PGA on");
        assert_eq!(bus.reg(0x44), 0x58);
        assert_eq!(bus.reg(0x45), 0x00);
    }
    chip.set_format(I2sFormat::Dsp, Bits::B32).unwrap();
    chip.start(Module::Dac).unwrap();
    {
        let bus = chip.regs().bus();
        assert_eq!(bus.reg(0x09) & 0x53, 0x13, "DAC: DSP, 32-bit, on");
        assert_eq!(
            bus.reg(0x0A) & 0x40,
            0x40,
            "ADC port muted when only the DAC starts"
        );
    }
    chip.set_mute(true).unwrap();
    assert_eq!(chip.regs().bus().reg(0x31) & 0x60, 0x60);
    chip.set_mute(false).unwrap();
    assert_eq!(chip.regs().bus().reg(0x31) & 0x60, 0x00);
    chip.set_mic_gain(MicGain::Db24).unwrap();
    chip.set_dac_volume_reg(dac_volume_reg(-12)).unwrap();
    chip.stop().unwrap();
    let bus = chip.release();
    assert_eq!(bus.reg(0x16), 4);
    assert_eq!(
        bus.history(0x32),
        [0xB3, 0x00],
        "volume then the suspend's zero"
    );
    assert_eq!(bus.reg(0x0D), 0xFA);
    assert_eq!(bus.reg(0x45), 0x01);
    assert_eq!(bus.reg(0x0E), 0xFF);
}

#[test]
fn unsupported_clock_pair_is_refused_before_any_write() {
    let mut chip = Es8311::new(FakeCodec::default(), ADDR);
    assert_eq!(
        chip.set_sample_rate(44_100, 4_096_000),
        Err(Error::Unsupported)
    );
    assert!(chip.release().writes.is_empty());
}

#[test]
fn chip_id_reads_the_id_registers() {
    let mut chip = Es8311::new(
        FakeCodec::with_defaults(&[(0xFD, 0x83), (0xFE, 0x11)]),
        ADDR,
    );
    assert_eq!(chip.chip_id().unwrap(), CHIP_ID);
}

#[test]
fn es8311_rows_gains_and_failures() {
    let c = coeff(4_096_000, 16_000).unwrap();
    assert_eq!((c.mclk, c.rate), (4_096_000, 16_000));
    assert_eq!((c.pre_div, c.pre_multi, c.dac_osr), (1, 1, 0x20));
    assert_eq!(coeff_row(74).rate, COEFF[74][1]);
    assert_eq!(MicGain::Db24.code(), 4);
    assert_eq!(MicGain::Db0.code(), 0);
    for left in 0..20 {
        let mut chip = Es8311::new(FailingBus { left }, ADDR);
        assert_eq!(chip.init(&Config::slave(16_000)), Err(Error::Hardware));
    }
}

#[test]
fn es8311_volume_rises_with_the_level() {
    let mut last = 0;
    for half_db in -220..=80i16 {
        let v = dac_volume_reg(half_db);
        assert!(v >= last);
        last = v;
    }
    assert_eq!(last, 0xFF);
}
