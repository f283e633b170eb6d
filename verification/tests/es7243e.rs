//! The ES7243E driver.

use std::collections::BTreeMap;

use rusty_esp_audio::chip::es7243e::{
    Es7243e, ADDR, INIT, REG_PGA1, REG_PGA2, START, STOP,
};
use rusty_esp_audio::chip::{Bits, Bus, BusFault, CodecChip, I2sFormat, Module};
use rusty_esp_audio::esp_core::error::Error;

/// A register map behind a bus, with a record of every write.
#[derive(Debug, Default)]
struct FakeCodec {
    regs: BTreeMap<u8, u8>,
    writes: Vec<(u8, u8)>,
    addr_seen: Option<u8>,
}

#[allow(dead_code)]
impl FakeCodec {
    /// Preload registers, as a chip's reset defaults would.
    fn with_defaults(defaults: &[(u8, u8)]) -> Self {
        let mut f = FakeCodec::default();
        for &(r, v) in defaults {
            f.regs.insert(r, v);
        }
        f
    }

    /// The value a register holds now.
    fn reg(&self, r: u8) -> u8 {
        *self.regs.get(&r).unwrap_or(&0)
    }

    /// Every value written to `r`, in order.
    fn history(&self, r: u8) -> Vec<u8> {
        self.writes
            .iter()
            .filter(|(a, _)| *a == r)
            .map(|(_, v)| *v)
            .collect()
    }
}

impl Bus for FakeCodec {
    fn write(&mut self, address: u8, bytes: &[u8]) -> Result<(), BusFault> {
        self.addr_seen = Some(address);
        self.regs.insert(bytes[0], bytes[1]);
        self.writes.push((bytes[0], bytes[1]));
        Ok(())
    }

    fn write_read(&mut self, address: u8, bytes: &[u8]) -> Result<u8, BusFault> {
        self.addr_seen = Some(address);
        Ok(self.reg(bytes[0]))
    }

    fn pause(&mut self, _ms: u16) {}
}

/// A bus that fails from its nth transfer on.
#[allow(dead_code)]
struct FailingBus {
    left: usize,
}

impl Bus for FailingBus {
    fn write(&mut self, _address: u8, _bytes: &[u8]) -> Result<(), BusFault> {
        if self.left == 0 {
            return Err(BusFault);
        }
        self.left -= 1;
        Ok(())
    }

    fn write_read(&mut self, _address: u8, _bytes: &[u8]) -> Result<u8, BusFault> {
        if self.left == 0 {
            return Err(BusFault);
        }
        self.left -= 1;
        Ok(0)
    }

    fn pause(&mut self, _ms: u16) {}
}

#[test]
fn init_start_stop_are_the_vendor_tables_in_order() {
    let mut chip = Es7243e::new(FakeCodec::default(), ADDR);
    chip.init().unwrap();
    chip.start(Module::Adc).unwrap();
    chip.stop().unwrap();
    let bus = chip.release();
    assert_eq!(bus.addr_seen, Some(0x10));
    let expected: Vec<(u8, u8)> = INIT.iter().chain(START.iter()).chain(STOP.iter()).copied().collect();
    assert_eq!(bus.writes, expected);
    assert_eq!((INIT.len(), START.len(), STOP.len()), (37, 9, 13));
    assert_eq!(bus.reg(REG_PGA1), 0x00, "stop leaves the PGAs off");
}

#[test]
fn pga_and_the_refusals() {
    let mut chip = Es7243e::new(FakeCodec::default(), ADDR);
    chip.init().unwrap();
    assert_eq!(chip.regs().bus().reg(REG_PGA1), 0x1A);
    chip.set_pga_code(0x10).unwrap();
    assert_eq!(chip.regs().bus().reg(REG_PGA2), 0x10);
    let writes = chip.regs().bus().writes.len();
    assert_eq!(chip.start(Module::Dac), Err(Error::Unsupported));
    assert_eq!(chip.set_mute(true), Err(Error::Unsupported));
    assert_eq!(
        chip.set_format(I2sFormat::LeftJustified, Bits::B16),
        Err(Error::Unsupported)
    );
    chip.set_format(I2sFormat::Standard, Bits::B16).unwrap();
    chip.set_sample_rate(16_000, 4_096_000).unwrap();
    assert_eq!(
        chip.regs().bus().writes.len(),
        writes,
        "nothing written by any of those"
    );
}

#[test]
fn es7243e_stops_at_the_first_failure() {
    for left in 0..INIT.len() {
        let mut chip = Es7243e::new(FailingBus { left }, ADDR);
        assert_eq!(chip.init(), Err(Error::Hardware));
        assert_eq!(chip.regs().bus().left, 0);
    }
}
