//! The register map.

use std::collections::BTreeMap;

use rusty_esp_audio::chip::register_file::RegisterFile;
use rusty_esp_audio::chip::{Bus, BusFault, I2cRegs, RegOp, Register};
use rusty_esp_audio::esp_core::error::Error;

/// A register map behind a bus, with a record of every write.
#[derive(Debug, Default)]
struct FakeCodec {
    regs: BTreeMap<u8, u8>,
    writes: Vec<(u8, u8)>,
    addr_seen: Option<u8>,
    /// Each pause, and how many writes there had been.
    pauses: Vec<(u16, usize)>,
}

#[allow(dead_code)]
impl FakeCodec {
    /// Preload registers, as a chip's reset defaults would.
    fn with_defaults(defaults: &[(u8, u8)]) -> Self {
        let mut f = FakeCodec::default();
        for &(r, v) in defaults {
            f.regs.insert(r, v);
        }
        f
    }

    /// The value a register holds now.
    fn reg(&self, r: u8) -> u8 {
        *self.regs.get(&r).unwrap_or(&0)
    }

    /// Every value written to `r`, in order.
    fn history(&self, r: u8) -> Vec<u8> {
        self.writes
            .iter()
            .filter(|(a, _)| *a == r)
            .map(|(_, v)| *v)
            .collect()
    }
}

impl Bus for FakeCodec {
    fn write(&mut self, address: u8, bytes: &[u8]) -> Result<(), BusFault> {
        self.addr_seen = Some(address);
        self.regs.insert(bytes[0], bytes[1]);
        self.writes.push((bytes[0], bytes[1]));
        Ok(())
    }

    fn write_read(&mut self, address: u8, bytes: &[u8]) -> Result<u8, BusFault> {
        self.addr_seen = Some(address);
        Ok(self.reg(bytes[0]))
    }

    fn pause(&mut self, ms: u16) {
        self.pauses.push((ms, self.writes.len()));
    }
}

/// A bus that fails from its nth transfer on.
#[allow(dead_code)]
struct FailingBus {
    left: usize,
    waited: u32,
}

impl Bus for FailingBus {
    fn write(&mut self, _address: u8, _bytes: &[u8]) -> Result<(), BusFault> {
        if self.left == 0 {
            return Err(BusFault);
        }
        self.left -= 1;
        Ok(())
    }

    fn write_read(&mut self, _address: u8, _bytes: &[u8]) -> Result<u8, BusFault> {
        if self.left == 0 {
            return Err(BusFault);
        }
        self.left -= 1;
        Ok(0)
    }

    fn pause(&mut self, ms: u16) {
        self.waited += u32::from(ms);
    }
}

#[test]
fn write_read_update_apply() {
    let mut regs = I2cRegs::new(FakeCodec::default(), 0x18);
    assert_eq!(regs.addr(), 0x18);
    regs.write(0x10, 0xA5).unwrap();
    assert_eq!(regs.read(0x10).unwrap(), 0xA5);
    regs.update(0x10, 0x0F, 0x03).unwrap();
    assert_eq!(regs.read(0x10).unwrap(), 0xA3);
    let n = regs
        .apply(&[
            RegOp::Write {
                addr: 0x11,
                value: 1,
            },
            RegOp::DelayMs(2),
            RegOp::Update {
                addr: 0x11,
                mask: 0xF0,
                value: 0x20,
            },
        ])
        .unwrap();
    let delays = regs.bus().pauses.len();
    assert_eq!((n, delays), (2, 1));
    let bus = regs.release();
    // Two writes before the sequence, one of it before the pause.
    assert_eq!(bus.pauses, [(2, 3)]);
    assert_eq!(bus.reg(0x11), 0x21);
    assert_eq!(bus.addr_seen, Some(0x18));
    assert_eq!(bus.history(0x10), [0xA5, 0xA3]);
}

#[test]
fn a_failed_transfer_is_a_hardware_fault() {
    let mut regs = I2cRegs::new(FailingBus { left: 0, waited: 0 }, 0x18);
    assert_eq!(regs.write(0x10, 1), Err(Error::Hardware));
    assert_eq!(regs.read(0x10), Err(Error::Hardware));
    // The read of an update goes through, its write does not.
    regs.bus_mut().left = 1;
    assert_eq!(regs.update(0x10, 0x0F, 0x03), Err(Error::Hardware));
    // A sequence stops at the first failure.
    regs.bus_mut().left = 1;
    let table = [
        RegOp::Write { addr: 1, value: 1 },
        RegOp::Write { addr: 2, value: 2 },
        RegOp::DelayMs(5),
    ];
    assert_eq!(regs.apply(&table), Err(Error::Hardware));
    assert_eq!(regs.bus().waited, 0);
    assert_eq!(regs.bus().left, 0);
}

#[test]
fn an_update_keeps_the_other_bits() {
    for old in 0..=255u8 {
        let mut regs = I2cRegs::new(FakeCodec::with_defaults(&[(7, old)]), 0x18);
        regs.update(7, 0x3C, 0xFF).unwrap();
        assert_eq!(regs.bus().reg(7), old | 0x3C);
        regs.update(7, 0x3C, 0x14).unwrap();
        assert_eq!(regs.bus().reg(7), (old & 0xC3) | 0x14);
    }
}

#[test]
fn a_register_write_is_its_two_bytes() {
    let r = Register::new(0x12, 0x34);
    assert_eq!((r.addr, r.value), (0x12, 0x34));
}

#[test]
fn a_register_file_keeps_what_is_written() {
    let mut file = RegisterFile::new();
    assert_eq!(file.cell(7), 0);
    assert_eq!(file.write(0x18, &[7, 0xA5]), Ok(()));
    assert_eq!(file.write_read(0x18, &[7]), Ok(0xA5));
    assert_eq!(file.write_read(0x18, &[8]), Ok(0));
    assert_eq!(file.write(0x18, &[7]), Err(BusFault));
    assert_eq!(file.write_read(0x18, &[]), Err(BusFault));
    let mut regs = I2cRegs::new(file, 0x18);
    regs.update(7, 0x0F, 0x02).unwrap();
    assert_eq!(regs.release().cell(7), 0xA2);
}

#[test]
fn a_pause_comes_between_its_neighbours() {
    let mut regs = I2cRegs::new(FakeCodec::default(), 0x18);
    let table = [
        RegOp::DelayMs(1),
        RegOp::Write { addr: 1, value: 1 },
        RegOp::DelayMs(20),
        RegOp::DelayMs(3),
        RegOp::Write { addr: 2, value: 2 },
        RegOp::Write { addr: 3, value: 3 },
        RegOp::DelayMs(400),
    ];
    assert_eq!(regs.apply(&table), Ok(3));
    let bus = regs.release();
    assert_eq!(bus.pauses, [(1, 0), (20, 1), (3, 1), (400, 3)]);
    assert_eq!(bus.writes, [(1, 1), (2, 2), (3, 3)]);
    // Registers in memory do not wait, and a pause changes none of them.
    let mut regs = I2cRegs::new(RegisterFile::new(), 0x18);
    assert_eq!(regs.apply(&table), Ok(3));
    let file = regs.release();
    assert_eq!((file.cell(1), file.cell(2), file.cell(3)), (1, 2, 3));
}
