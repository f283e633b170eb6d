//! The ES8388 driver.

use std::collections::BTreeMap;

use rusty_esp_audio::chip::es8388::{
    lrck_ratio_code, volume_reg, AdcInput, Config, DacOutputs, Es8388, ADDR, LINE1, LINE2,
};
use rusty_esp_audio::chip::{Bits, Bus, BusFault, CodecChip, I2sFormat, Mode, Module};
use rusty_esp_audio::esp_core::error::Error;

/// A register map behind a bus, with a record of every write.
#[derive(Debug, Default)]
struct FakeCodec {
    regs: BTreeMap<u8, u8>,
    writes: Vec<(u8, u8)>,
    addr_seen: Option<u8>,
}

#[allow(dead_code)]
impl FakeCodec {
    /// Preload registers, as a chip's reset defaults would.
    fn with_defaults(defaults: &[(u8, u8)]) -> Self {
        let mut f = FakeCodec::default();
        for &(r, v) in defaults {
            f.regs.insert(r, v);
        }
        f
    }

    /// The value a register holds now.
    fn reg(&self, r: u8) -> u8 {
        *self.regs.get(&r).unwrap_or(&0)
    }

    /// Every value written to `r`, in order.
    fn history(&self, r: u8) -> Vec<u8> {
        self.writes
            .iter()
            .filter(|(a, _)| *a == r)
            .map(|(_, v)| *v)
            .collect()
    }
}

impl Bus for FakeCodec {
    fn write(&mut self, address: u8, bytes: &[u8]) -> Result<(), BusFault> {
        self.addr_seen = Some(address);
        self.regs.insert(bytes[0], bytes[1]);
        self.writes.push((bytes[0], bytes[1]));
        Ok(())
    }

    fn write_read(&mut self, address: u8, bytes: &[u8]) -> Result<u8, BusFault> {
        self.addr_seen = Some(address);
        Ok(self.reg(bytes[0]))
    }

    fn pause(&mut self, _ms: u16) {}
}

/// A bus that fails from its nth transfer on.
#[allow(dead_code)]
struct FailingBus {
    left: usize,
}

impl Bus for FailingBus {
    fn write(&mut self, _address: u8, _bytes: &[u8]) -> Result<(), BusFault> {
        if self.left == 0 {
            return Err(BusFault);
        }
        self.left -= 1;
        Ok(())
    }

    fn write_read(&mut self, _address: u8, _bytes: &[u8]) -> Result<u8, BusFault> {
        if self.left == 0 {
            return Err(BusFault);
        }
        self.left -= 1;
        Ok(0)
    }

    fn pause(&mut self, _ms: u16) {}
}

#[test]
fn es8388_init_reproduces_the_vendor_sequence() {
    let mut chip = Es8388::new(FakeCodec::default(), ADDR);
    chip.init(&Config::slave()).unwrap();
    let bus = chip.release();
    assert_eq!(bus.addr_seen, Some(0x10));
    let expected: &[(u8, u8)] = &[
        (0x19, 0x04),
        (0x01, 0x50),
        (0x02, 0x00),
        (0x35, 0xA0),
        (0x37, 0xD0),
        (0x39, 0xD0),
        (0x08, 0x00), // slave
        (0x04, 0xC0),
        (0x00, 0x12),
        (0x17, 0x18),
        (0x18, 0x02),
        (0x26, 0x00),
        (0x27, 0x90),
        (0x2A, 0x90),
        (0x2B, 0x80),
        (0x2D, 0x00),
        (0x2E, 0x1E),
        (0x2F, 0x1E),
        (0x30, 0x00),
        (0x31, 0x00),
        (0x04, 0x3C), // every output
        (0x03, 0xFF),
        (0x09, 0xBB),
        (0x0A, 0x00), // line input 1
        (0x0B, 0x02),
        (0x0C, 0x0C),
        (0x0D, 0x02),
        (0x10, 0x00), // ADC volume 0 dB, left
        (0x11, 0x00), // right
        (0x03, 0x09),
    ];
    assert_eq!(bus.writes, expected);
}

#[test]
fn master_line2_and_a_microphone_set_their_registers() {
    let mut chip = Es8388::new(FakeCodec::default(), ADDR);
    chip.init(&Config {
        mode: Mode::Master,
        dac_output: DacOutputs(LINE2),
        adc_input: AdcInput::Mic1,
    })
    .unwrap();
    let bus = chip.release();
    assert_eq!(bus.reg(0x08), 0x01, "master");
    assert_eq!(bus.reg(0x04), 0x28, "LOUT2 | ROUT2");
    assert_eq!(bus.reg(0x0A), 0x05, "mic 1");
}

#[test]
fn start_stop_pulse_the_state_machine_only_when_the_clock_register_changes() {
    let mut chip = Es8388::new(FakeCodec::default(), ADDR);
    chip.init(&Config::slave()).unwrap();
    chip.start(Module::AdcDac).unwrap();
    {
        let bus = chip.regs().bus();
        assert_eq!(
            bus.history(0x02),
            [0x00],
            "no pulse: DACCONTROL21 was already 0x80"
        );
        assert_eq!(bus.reg(0x03), 0x00, "ADC powered");
        assert_eq!(bus.reg(0x04), 0x3C, "DAC and outputs powered");
        assert_eq!(bus.reg(0x19) & 0x04, 0, "unmuted");
    }
    chip.stop().unwrap();
    {
        let bus = chip.regs().bus();
        assert_eq!(bus.reg(0x04), 0x00);
        assert_eq!(bus.reg(0x19) & 0x04, 0x04, "muted");
        assert_eq!(bus.reg(0x03), 0xFF);
        assert_eq!(bus.reg(0x2B), 0x9C, "MCLK off");
    }
    chip.start(Module::Dac).unwrap();
    let bus = chip.release();
    assert_eq!(
        bus.history(0x02),
        [0x00, 0xF0, 0x00],
        "the pulse after 0x9C -> 0x80"
    );
    assert_eq!(
        bus.reg(0x03),
        0xFF,
        "the ADC stays down when only the DAC starts"
    );
}

#[test]
fn format_width_rate_volume_gain_and_bypass() {
    let mut chip = Es8388::new(FakeCodec::default(), ADDR);
    chip.init(&Config::slave()).unwrap();
    chip.set_format(I2sFormat::Standard, Bits::B16).unwrap();
    assert_eq!(chip.regs().bus().reg(0x0C), 0x0C);
    assert_eq!(chip.regs().bus().reg(0x17), 0x18);
    chip.set_format(I2sFormat::Dsp, Bits::B32).unwrap();
    assert_eq!(chip.regs().bus().reg(0x0C), 0x13);
    assert_eq!(chip.regs().bus().reg(0x17), 0x26);
    chip.set_sample_rate(48_000, 48_000 * 384).unwrap();
    assert_eq!(chip.regs().bus().reg(0x0D), 3);
    assert_eq!(chip.regs().bus().reg(0x18), 3);
    let writes_before = chip.regs().bus().writes.len();
    assert_eq!(
        chip.set_sample_rate(44_100, 4_096_000),
        Err(Error::Unsupported)
    );
    assert_eq!(chip.set_sample_rate(0, 4_096_000), Err(Error::Unsupported));
    assert_eq!(
        chip.regs().bus().writes.len(),
        writes_before,
        "refused before any write"
    );
    chip.set_volume(Module::Dac, -100).unwrap();
    assert_eq!(
        chip.regs().bus().reg(0x1A),
        0x64,
        "-50 dB, the vendor comment's point"
    );
    assert_eq!(chip.regs().bus().reg(0x1B), 0x64);
    chip.set_mic_gain(24).unwrap();
    assert_eq!(chip.regs().bus().reg(0x09), 0x88);
    chip.set_mic_gain(9).unwrap();
    assert_eq!(chip.regs().bus().reg(0x09), 0x33);
    assert_eq!(chip.set_mic_gain(10), Err(Error::Unsupported));
    chip.set_dac_outputs(DacOutputs(LINE1)).unwrap();
    assert_eq!(chip.regs().bus().reg(0x04) & 0x3C, 0x14);
    chip.set_adc_input(AdcInput::Line2).unwrap();
    assert_eq!(chip.regs().bus().reg(0x0A), 0x50);
    chip.start_line_bypass().unwrap();
    {
        let bus = chip.regs().bus();
        assert_eq!(bus.reg(0x26), 0x09);
        assert_eq!(bus.reg(0x27), 0x50);
        assert_eq!(bus.reg(0x2A), 0x50);
        assert_eq!(bus.reg(0x2B), 0xC0);
        assert_eq!(bus.history(0x02), [0x00, 0xF0, 0x00], "0x80 -> 0xC0 pulses");
    }
    chip.stop_line_bypass().unwrap();
    let bus = chip.release();
    assert_eq!(
        (bus.reg(0x2B), bus.reg(0x26), bus.reg(0x27), bus.reg(0x2A)),
        (0x80, 0x00, 0x90, 0x90)
    );
}

#[test]
fn volume_and_ratio_tables() {
    assert_eq!(volume_reg(0), 0x00);
    assert_eq!(volume_reg(-1), 0x01);
    assert_eq!(volume_reg(-192), 0xC0);
    assert_eq!(volume_reg(-300), 0xC0);
    assert_eq!(volume_reg(20), 0x00);
    assert_eq!(lrck_ratio_code(256), Some(2));
    assert_eq!(lrck_ratio_code(1500), Some(27));
    assert_eq!(lrck_ratio_code(300), None);
}

#[test]
fn es8388_failures_and_inputs() {
    for left in 0..30 {
        let mut chip = Es8388::new(FailingBus { left }, ADDR);
        assert_eq!(chip.init(&Config::slave()), Err(Error::Hardware));
    }
    assert_eq!(AdcInput::Line2.code(), 0x50);
    assert_eq!(AdcInput::Mic1.code(), 0x05);
    let mut chip = Es8388::new(FakeCodec::default(), ADDR);
    chip.set_clock_dividers(4, 2).unwrap();
    assert_eq!(chip.regs().bus().writes, [(0x08, 4), (0x0D, 2), (0x18, 2)]);
    chip.stop_module(Module::Dac).unwrap();
    assert_eq!(chip.regs().bus().reg(0x04), 0x00);
}
