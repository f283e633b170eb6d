//! ES7243E: Everest's stereo ADC, the capture half of the ESP32-S3-BOX-Lite
//! (its playback half is the [`super::es8156`]).
//!
//! The part's registers are known by number only. Three tables (bring-up,
//! start, stop) are the whole contract: the vendor's driver configures no
//! format, no rate and no volume through it (the bring-up sets SCLK = MCLK/4
//! and LRCK = MCLK/256 for master mode and the part follows the bus as a
//! slave), so those methods accept only what the tables leave and refuse the
//! rest.

use vstd::prelude::*;

use super::script::{
    done, extends, lemma_begin, lemma_end, lemma_table_refuses_nothing, plain, refuses_nothing,
    store, stores, Script, Transfer,
};
use super::{Bits, Bus, CodecChip, I2cRegs, I2sFormat, Module};
use crate::esp_core::error::{Error, Result};

verus! {

/// 7-bit I2C address (the vendor driver's 8-bit `0x20`); the AD pins move it.
pub const ADDR: u8 = 0x10;

/// PGA gain register of channel 1; the value is the part's code: `0x10` after
/// [`START`], `0x1A` (+30 dB by the vendor's comment) after [`INIT`].
pub const REG_PGA1: u8 = 0x20;

/// PGA gain register of channel 2.
pub const REG_PGA2: u8 = 0x21;

/// The bring-up.
pub const INIT: [(u8, u8); 37] = [
    (0x01, 0x3A),
    (0x00, 0x80),
    (0xF9, 0x00),
    (0x04, 0x02),
    (0x04, 0x01),
    (0xF9, 0x01),
    (0x00, 0x1E),
    (0x01, 0x00),
    (0x02, 0x00),
    (0x03, 0x20),
    (0x04, 0x01),
    (0x0D, 0x00),
    (0x05, 0x00),
    (0x06, 0x03), // SCLK = MCLK/4
    (0x07, 0x00), // LRCK = MCLK/256
    (0x08, 0xFF), // LRCK = MCLK/256
    (0x09, 0xCA),
    (0x0A, 0x85),
    (0x0B, 0x00),
    (0x0E, 0xBF),
    (0x0F, 0x80),
    (0x14, 0x0C),
    (0x15, 0x0C),
    (0x17, 0x02),
    (0x18, 0x26),
    (0x19, 0x77),
    (0x1A, 0xF4),
    (0x1B, 0x66),
    (0x1C, 0x44),
    (0x1E, 0x00),
    (0x1F, 0x0C),
    (REG_PGA1, 0x1A), // PGA gain +30 dB
    (REG_PGA2, 0x1A), // PGA gain +30 dB
    (0x00, 0x80),     // slave mode
    (0x01, 0x3A),
    (0x16, 0x3F),
    (0x16, 0x00),
];

/// The start: analog up, PGAs to the running code, clocks on.
pub const START: [(u8, u8); 9] = [
    (0xF9, 0x00),
    (0x04, 0x01),
    (0x17, 0x01),
    (REG_PGA1, 0x10),
    (REG_PGA2, 0x10),
    (0x00, 0x80),
    (0x01, 0x3A),
    (0x16, 0x3F),
    (0x16, 0x00),
];

/// The stop: mute, PGAs off, analog and clocks down.
pub const STOP: [(u8, u8); 13] = [
    (0x04, 0x02),
    (0x04, 0x01),
    (0xF7, 0x30),
    (0xF9, 0x01),
    (0x16, 0xFF),
    (0x17, 0x00),
    (0x01, 0x38),
    (REG_PGA1, 0x00),
    (REG_PGA2, 0x00),
    (0x00, 0x00),
    (0x00, 0x1E),
    (0x01, 0x30),
    (0x01, 0x00),
];

/// The driver.
pub struct Es7243e<I> {
    /// The chip's registers.
    pub regs: I2cRegs<I>,
}

impl<I: Bus> Es7243e<I> {
    /// Over `i2c` at the chip's 7-bit `addr` (normally [`ADDR`]).
    pub fn new(i2c: I, addr: u8) -> (r: Self)
        ensures
            r.regs.i2c == i2c,
            r.regs.addr == addr,
    {
        Es7243e { regs: I2cRegs::new(i2c, addr) }
    }

    /// Give the bus back.
    pub fn release(self) -> (r: I)
        ensures
            r == self.regs.i2c,
    {
        self.regs.release()
    }

    /// The register map, for anything the driver does not wrap.
    pub fn regs(&mut self) -> (r: &mut I2cRegs<I>)
        ensures
            *r == old(self).regs,
            final(self).regs == *final(r),
    {
        &mut self.regs
    }

    /// Write all of `table`.
    fn write_all(&mut self, table: &[(u8, u8)]) -> (r: Result<()>)
        ensures
            final(self).regs.addr == old(self).regs.addr,
            extends(
                stores(table@, done()),
                old(self).regs.i2c.log(),
                final(self).regs.i2c.log(),
                old(self).regs.addr,
                plain(r),
            ),
    {
        let ghost script = stores(table@, done());
        let ghost start = self.regs.i2c.log();
        proof {
            lemma_begin(script, start, self.regs.addr);
        }
        self.regs.put_all(table, Ghost(script), Ghost(start), Ghost(done()))?;
        proof {
            lemma_end(script, start, self.regs.i2c.log(), self.regs.addr, Ok(Seq::empty()));
        }
        Ok(())
    }

    /// The bring-up ([`INIT`]).
    pub fn init(&mut self) -> (r: Result<()>)
        ensures
            final(self).regs.addr == old(self).regs.addr,
            extends(
                stores(INIT@, done()),
                old(self).regs.i2c.log(),
                final(self).regs.i2c.log(),
                old(self).regs.addr,
                plain(r),
            ),
    {
        self.write_all(INIT.as_slice())
    }

    /// Both PGA gain registers to the part's `code` (the vendor uses `0x10`
    /// running and `0x1A` for +30 dB).
    pub fn set_pga_code(&mut self, code: u8) -> (r: Result<()>)
        ensures
            final(self).regs.addr == old(self).regs.addr,
            extends(
                store(REG_PGA1, code, store(REG_PGA2, code, done())),
                old(self).regs.i2c.log(),
                final(self).regs.i2c.log(),
                old(self).regs.addr,
                plain(r),
            ),
    {
        let ghost script = store(REG_PGA1, code, store(REG_PGA2, code, done()));
        let ghost start = self.regs.i2c.log();
        proof {
            lemma_begin(script, start, self.regs.addr);
        }
        self.regs.put(REG_PGA1, code, Ghost(script), Ghost(start))?;
        self.regs.put(REG_PGA2, code, Ghost(script), Ghost(start))?;
        proof {
            lemma_end(script, start, self.regs.i2c.log(), self.regs.addr, Ok(Seq::empty()));
        }
        Ok(())
    }
}

impl<I: Bus> CodecChip for Es7243e<I> {
    open spec fn log(&self) -> Seq<Transfer> {
        self.regs.i2c.log()
    }

    open spec fn address(&self) -> u8 {
        self.regs.addr
    }

    open spec fn sample_rate_script(&self, sample_rate_hz: u32, mclk_hz: u32) -> Script {
        done()
    }

    open spec fn format_script(&self, fmt: I2sFormat, bits: Bits) -> Script {
        if fmt == I2sFormat::Standard && bits == Bits::B16 {
            done()
        } else {
            Script::Refuse(Error::Unsupported)
        }
    }

    open spec fn start_script(&self, module: Module) -> Script {
        if module == Module::Dac {
            Script::Refuse(Error::Unsupported)
        } else {
            stores(START@, done())
        }
    }

    open spec fn stop_script(&self) -> Script {
        stores(STOP@, done())
    }

    open spec fn mute_script(&self, mute: bool) -> Script {
        Script::Refuse(Error::Unsupported)
    }

    /// A slave ES7243E follows the bus; nothing is written.
    fn set_sample_rate(&mut self, _sample_rate_hz: u32, _mclk_hz: u32) -> (r: Result<()>) {
        proof {
            lemma_begin(done(), self.regs.i2c.log(), self.regs.addr);
        }
        Ok(())
    }

    /// Only the framing the bring-up leaves (I2S, 16-bit) is accepted, and it
    /// is already in place, so nothing is written; anything else is
    /// `Unsupported`.
    fn set_format(&mut self, fmt: I2sFormat, bits: Bits) -> (r: Result<()>) {
        proof {
            lemma_begin(self.format_script(fmt, bits), self.regs.i2c.log(), self.regs.addr);
        }
        if fmt == I2sFormat::Standard && bits == Bits::B16 {
            Ok(())
        } else {
            Err(Error::Unsupported)
        }
    }

    /// [`START`]; the part has no DAC, so [`Module::Dac`] is refused.
    fn start(&mut self, module: Module) -> (r: Result<()>) {
        if module == Module::Dac {
            proof {
                lemma_begin(self.start_script(module), self.regs.i2c.log(), self.regs.addr);
            }
            return Err(Error::Unsupported);
        }
        self.write_all(START.as_slice())
    }

    /// [`STOP`].
    fn stop(&mut self) -> (r: Result<()>) {
        self.write_all(STOP.as_slice())
    }

    /// The part has no mute (its stop sequence is the mute); `Unsupported`.
    fn set_mute(&mut self, _mute: bool) -> (r: Result<()>) {
        proof {
            lemma_begin(self.mute_script(_mute), self.regs.i2c.log(), self.regs.addr);
        }
        Err(Error::Unsupported)
    }
}

/// What a driver accepts it refuses nowhere: on a bus that does not fail, every
/// call succeeds but another framing or width, the start of a DAC alone, and
/// muting.
pub proof fn lemma_accepted_is_not_refused<I: Bus>(chip: Es7243e<I>, module: Module)
    ensures
        refuses_nothing(stores(INIT@, done())),
        module != Module::Dac ==> refuses_nothing(chip.start_script(module)),
        refuses_nothing(chip.stop_script()),
{
    lemma_table_refuses_nothing(INIT@, done());
    lemma_table_refuses_nothing(START@, done());
    lemma_table_refuses_nothing(STOP@, done());
}

} // verus!
