//! The ES7210 driver.

use std::collections::BTreeMap;

use rusty_esp_audio::chip::es7210::{
    coeff, coeff_row, mclk_for, Config, Es7210, Gain, MclkSource, Mics, ADDR_00, ADDR_11, ALL, COEFF, MIC12,
};
use rusty_esp_audio::chip::{Bits, Bus, BusFault, CodecChip, I2sFormat, Mode, Module};
use rusty_esp_audio::esp_core::error::Error;

/// A register map behind a bus, with a record of every write.
#[derive(Debug, Default)]
struct FakeCodec {
    regs: BTreeMap<u8, u8>,
    writes: Vec<(u8, u8)>,
    addr_seen: Option<u8>,
}

#[allow(dead_code)]
impl FakeCodec {
    /// Preload registers, as a chip's reset defaults would.
    fn with_defaults(defaults: &[(u8, u8)]) -> Self {
        let mut f = FakeCodec::default();
        for &(r, v) in defaults {
            f.regs.insert(r, v);
        }
        f
    }

    /// The value a register holds now.
    fn reg(&self, r: u8) -> u8 {
        *self.regs.get(&r).unwrap_or(&0)
    }

    /// Every value written to `r`, in order.
    fn history(&self, r: u8) -> Vec<u8> {
        self.writes
            .iter()
            .filter(|(a, _)| *a == r)
            .map(|(_, v)| *v)
            .collect()
    }
}

impl Bus for FakeCodec {
    fn write(&mut self, address: u8, bytes: &[u8]) -> Result<(), BusFault> {
        self.addr_seen = Some(address);
        self.regs.insert(bytes[0], bytes[1]);
        self.writes.push((bytes[0], bytes[1]));
        Ok(())
    }

    fn write_read(&mut self, address: u8, bytes: &[u8]) -> Result<u8, BusFault> {
        self.addr_seen = Some(address);
        Ok(self.reg(bytes[0]))
    }

    fn pause(&mut self, _ms: u16) {}
}

/// A bus that fails from its nth transfer on.
#[allow(dead_code)]
struct FailingBus {
    left: usize,
}

impl Bus for FailingBus {
    fn write(&mut self, _address: u8, _bytes: &[u8]) -> Result<(), BusFault> {
        if self.left == 0 {
            return Err(BusFault);
        }
        self.left -= 1;
        Ok(())
    }

    fn write_read(&mut self, _address: u8, _bytes: &[u8]) -> Result<u8, BusFault> {
        if self.left == 0 {
            return Err(BusFault);
        }
        self.left -= 1;
        Ok(0)
    }

    fn pause(&mut self, _ms: u16) {}
}

#[test]
fn coefficient_table_and_mic_sets() {
    assert_eq!(COEFF.len(), 25);
    assert!(coeff(4_096_000, 16000).is_some());
    assert!(coeff(19_200_000, 96000).is_some());
    assert!(coeff(4_096_000, 48000).is_none());
    assert_eq!(Mics(MIC12).count(), 2);
    assert!(Mics(MIC12).has(1) && Mics(MIC12).has(2) && !Mics(MIC12).has(3));
    assert!(!Mics(ALL).has(0) && !Mics(ALL).has(5));
    assert_eq!(Mics(ALL).count(), 4);
}

/// The vendor bring-up, register for register, in the default slave
/// configuration at 16 kHz / 4.096 MHz with inputs 1 + 2 at 24 dB.
#[test]
fn es7210_init_reproduces_the_vendor_sequence() {
    let mut chip = Es7210::new(FakeCodec::default(), ADDR_00);
    chip.init(&Config::slave(16_000)).unwrap();
    let bus = chip.release();
    assert_eq!(bus.addr_seen, Some(0x40));
    let head: &[(u8, u8)] = &[
        (0x00, 0xFF),
        (0x00, 0x41),
        (0x01, 0x3F),
        (0x09, 0x30),
        (0x0A, 0x30),
        (0x23, 0x2A),
        (0x22, 0x0A),
        (0x20, 0x0A),
        (0x21, 0x2A),
        (0x08, 0x00), // slave
        (0x40, 0x43),
        (0x41, 0x70),
        (0x42, 0x70),
        (0x07, 0x20),
        (0x02, 0xC1),
        // 16 kHz / 4.096 MHz: adc_div 1, doubler, dll bypass -> 0xC1; osr 0x20; lrck 0x0100
        (0x02, 0xC1),
        (0x07, 0x20),
        (0x04, 0x01),
        (0x05, 0x00),
    ];
    assert_eq!(&bus.writes[..head.len()], head);
    // after mic select + gain: inputs 1 and 2 powered, PGA on, 24 dB; TDM off
    assert_eq!(bus.reg(0x4B), 0x00, "ADC12 pair powered");
    assert_eq!(bus.reg(0x4C), 0xFF, "ADC34 pair off");
    assert_eq!(bus.reg(0x43), 0x18, "mic 1: PGA on, 24 dB");
    assert_eq!(bus.reg(0x44), 0x18);
    assert_eq!(bus.reg(0x45) & 0x10, 0x00, "mic 3 PGA off");
    assert_eq!(bus.reg(0x01), 0x3F & !0x0B, "ADC12 clocks on");
    assert_eq!(bus.reg(0x12), 0x00, "two mics: no TDM");
}

#[test]
fn four_mics_in_master_mode_turn_on_tdm_and_the_doubler() {
    let mut chip = Es7210::new(FakeCodec::default(), ADDR_11);
    chip.init(&Config {
        mode: Mode::Master,
        mclk: MclkSource::Doubler,
        mics: Mics(ALL),
        gain: Gain::Db30,
        sample_rate_hz: 48_000,
        mclk_hz: mclk_for(48_000),
        tdm_from_mics: 3,
        dsp_mode_alt: false,
    })
    .unwrap();
    let bus = chip.release();
    assert_eq!(bus.addr_seen, Some(0x43));
    assert_eq!(bus.reg(0x08) & 0x01, 0x01, "master");
    assert_eq!(bus.reg(0x03) & 0x80, 0x80, "MCLK from the doubler");
    assert_eq!(bus.reg(0x12), 0x02, "four mics: TDM");
    for r in 0x43..=0x46u8 {
        assert_eq!(bus.reg(r), 0x10 | 10, "every PGA on at 30 dB");
    }
    assert_eq!(bus.reg(0x01), 0x3F & !0x0B & !0x15);
    assert_eq!(bus.reg(0x4C), 0x00);
}

#[test]
fn format_start_stop_and_mute() {
    let mut chip = Es7210::new(FakeCodec::default(), ADDR_00);
    chip.init(&Config::slave(16_000)).unwrap();
    chip.set_format(I2sFormat::Standard, Bits::B16).unwrap();
    assert_eq!(chip.regs().bus().reg(0x11), 0x60);
    chip.set_format(I2sFormat::Dsp, Bits::B32).unwrap();
    assert_eq!(chip.regs().bus().reg(0x11), 0x83);
    assert_eq!(chip.start(Module::Dac), Err(Error::Unsupported));
    chip.start(Module::Adc).unwrap();
    {
        let bus = chip.regs().bus();
        assert_eq!(bus.reg(0x06), 0x00);
        assert_eq!(bus.reg(0x47), 0x08);
        assert_eq!(bus.reg(0x4A), 0x08);
    }
    let clock_before = chip.regs().bus().reg(0x01);
    chip.stop().unwrap();
    {
        let bus = chip.regs().bus();
        assert_eq!(bus.reg(0x01), 0x7F);
        assert_eq!(bus.reg(0x06), 0x07);
        assert_eq!(bus.reg(0x40), 0xC0);
        assert_eq!(bus.reg(0x47), 0xFF);
    }
    chip.start(Module::AdcDac).unwrap();
    assert_eq!(
        chip.regs().bus().history(0x01).last().copied(),
        Some(clock_before),
        "start restores the clock register the stop replaced with 0x7F"
    );
    chip.set_mute(true).unwrap();
    assert_eq!(chip.regs().bus().reg(0x14) & 0x03, 0x03);
    assert_eq!(chip.regs().bus().reg(0x15) & 0x03, 0x03);
    chip.set_mute(false).unwrap();
    assert_eq!(chip.regs().bus().reg(0x15) & 0x03, 0x00);
    assert_eq!(chip.select_mics(Mics(0)), Err(Error::Unsupported));
}

#[test]
fn es7210_rows_gains_and_failures() {
    let c = coeff(4_096_000, 16_000).unwrap();
    assert_eq!((c.mclk, c.lrck), (4_096_000, 16_000));
    assert_eq!((c.adc_div, c.doubler, c.dll, c.osr), (1, 1, 1, 0x20));
    assert_eq!((c.lrck_h, c.lrck_l), (1, 0));
    assert_eq!(coeff_row(0).lrck, 8000);
    assert_eq!(mclk_for(48_000), 12_288_000);
    assert_eq!(Gain::Db24.code(), 8);
    assert_eq!(Gain::Db30.code(), 10);
    let mut chip = Es7210::new(FailingBus { left: 3 }, ADDR_00);
    assert_eq!(chip.init(&Config::slave(16_000)), Err(Error::Hardware));
    assert_eq!(chip.stop(), Err(Error::Hardware));
}

#[test]
fn es7210_refuses_a_clock_pair_before_any_write() {
    let mut chip = Es7210::new(FakeCodec::default(), ADDR_00);
    assert_eq!(
        chip.set_sample_rate(44_100, 4_096_000),
        Err(Error::Unsupported)
    );
    assert_eq!(chip.start(Module::Dac), Err(Error::Unsupported));
    assert!(chip.release().writes.is_empty());
}

#[test]
fn es7210_gain_reaches_the_chosen_inputs_only() {
    let mut chip = Es7210::new(FakeCodec::default(), ADDR_00);
    chip.set_gain(Mics(0x05), Gain::Db30).unwrap();
    let bus = chip.release();
    assert_eq!(bus.writes, [(0x43, 10), (0x45, 10)]);
}

#[test]
fn es7210_selection_ends_in_its_registers() {
    for mics in 1..=15u8 {
        let mut chip = Es7210::new(FakeCodec::default(), ADDR_00);
        chip.select_mics(Mics(mics)).unwrap();
        assert_eq!(chip.mics(), Mics(mics));
        let bus = chip.release();
        for n in 1..=4u8 {
            let on = Mics(mics).has(n);
            assert_eq!(bus.reg(0x42 + n), if on { 0x18 } else { 0x00 });
        }
        assert_eq!(bus.reg(0x4B), if mics & 0x03 != 0 { 0x00 } else { 0xFF });
        assert_eq!(bus.reg(0x4C), if mics & 0x0C != 0 { 0x00 } else { 0xFF });
        assert_eq!(bus.reg(0x12), if mics.count_ones() >= 3 { 0x02 } else { 0x00 });
    }
}
