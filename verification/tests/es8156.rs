//! The ES8156 driver.

use std::collections::BTreeMap;

use rusty_esp_audio::chip::es8156::{volume_reg, Es8156, ADDR, INIT, RESUME, STANDBY};
use rusty_esp_audio::chip::{Bits, Bus, BusFault, CodecChip, I2sFormat, Module};
use rusty_esp_audio::esp_core::error::Error;

/// A register map behind a bus, with a record of every write.
#[derive(Debug, Default)]
struct FakeCodec {
    regs: BTreeMap<u8, u8>,
    writes: Vec<(u8, u8)>,
    addr_seen: Option<u8>,
}

#[allow(dead_code)]
impl FakeCodec {
    /// Preload registers, as a chip's reset defaults would.
    fn with_defaults(defaults: &[(u8, u8)]) -> Self {
        let mut f = FakeCodec::default();
        for &(r, v) in defaults {
            f.regs.insert(r, v);
        }
        f
    }

    /// The value a register holds now.
    fn reg(&self, r: u8) -> u8 {
        *self.regs.get(&r).unwrap_or(&0)
    }

    /// Every value written to `r`, in order.
    fn history(&self, r: u8) -> Vec<u8> {
        self.writes
            .iter()
            .filter(|(a, _)| *a == r)
            .map(|(_, v)| *v)
            .collect()
    }
}

impl Bus for FakeCodec {
    fn write(&mut self, address: u8, bytes: &[u8]) -> Result<(), BusFault> {
        self.addr_seen = Some(address);
        self.regs.insert(bytes[0], bytes[1]);
        self.writes.push((bytes[0], bytes[1]));
        Ok(())
    }

    fn write_read(&mut self, address: u8, bytes: &[u8]) -> Result<u8, BusFault> {
        self.addr_seen = Some(address);
        Ok(self.reg(bytes[0]))
    }

    fn pause(&mut self, _ms: u16) {}
}

/// A bus that fails from its nth transfer on.
#[allow(dead_code)]
struct FailingBus {
    left: usize,
}

impl Bus for FailingBus {
    fn write(&mut self, _address: u8, _bytes: &[u8]) -> Result<(), BusFault> {
        if self.left == 0 {
            return Err(BusFault);
        }
        self.left -= 1;
        Ok(())
    }

    fn write_read(&mut self, _address: u8, _bytes: &[u8]) -> Result<u8, BusFault> {
        if self.left == 0 {
            return Err(BusFault);
        }
        self.left -= 1;
        Ok(0)
    }

    fn pause(&mut self, _ms: u16) {}
}

#[test]
fn init_resume_standby_are_the_vendor_tables_in_order() {
    let mut chip = Es8156::new(FakeCodec::default(), ADDR);
    chip.init().unwrap();
    chip.start(Module::Dac).unwrap();
    chip.stop().unwrap();
    let bus = chip.release();
    assert_eq!(bus.addr_seen, Some(0x08));
    let expected: Vec<(u8, u8)> = INIT.iter().chain(RESUME.iter()).chain(STANDBY.iter()).copied().collect();
    assert_eq!(bus.writes, expected);
    assert_eq!(INIT.len(), 16);
    assert_eq!(bus.reg(0x14), 0x00, "standby leaves the volume at minimum");
}

#[test]
fn mute_volume_format_and_the_refusals() {
    let mut chip = Es8156::new(
        FakeCodec::with_defaults(&[(0xFD, 0x81), (0xFE, 0x56)]),
        ADDR,
    );
    chip.init().unwrap();
    chip.set_mute(true).unwrap();
    assert_eq!(chip.regs().bus().reg(0x13) & 0x06, 0x06);
    chip.set_mute(false).unwrap();
    assert_eq!(chip.regs().bus().reg(0x13) & 0x06, 0x00);
    chip.set_volume_reg(volume_reg(0)).unwrap();
    assert_eq!(chip.regs().bus().reg(0x14), 0xBF);
    chip.set_volume_reg(volume_reg(-12)).unwrap();
    assert_eq!(
        chip.regs().bus().reg(0x14),
        0xB3,
        "-6 dB is what the bring-up left"
    );
    chip.set_format(I2sFormat::Standard, Bits::B16).unwrap();
    let writes = chip.regs().bus().writes.len();
    assert_eq!(
        chip.set_format(I2sFormat::Dsp, Bits::B32),
        Err(Error::Unsupported)
    );
    assert_eq!(
        chip.set_format(I2sFormat::Standard, Bits::B24),
        Err(Error::Unsupported)
    );
    assert_eq!(chip.start(Module::Adc), Err(Error::Unsupported));
    assert_eq!(
        chip.regs().bus().writes.len(),
        writes,
        "refusals write nothing"
    );
    chip.set_sample_rate(48_000, 12_288_000).unwrap();
    assert_eq!(
        chip.regs().bus().writes.len(),
        writes,
        "a slave follows LRCK; nothing written"
    );
    assert_eq!(chip.chip_id().unwrap(), (0x81, 0x56));
}

#[test]
fn es8156_stops_at_the_first_failure() {
    for left in 0..INIT.len() {
        let mut chip = Es8156::new(FailingBus { left }, ADDR);
        assert_eq!(chip.init(), Err(Error::Hardware));
    }
    let mut chip = Es8156::new(FailingBus { left: 1 }, ADDR);
    assert_eq!(chip.chip_id(), Err(Error::Hardware));
}
