//! ES8156: Everest's mono DAC with a headphone/line driver, the playback half
//! of the ESP32-S3-BOX-Lite (its capture half is the [`super::es7243e`]).
//!
//! The vendor's driver never reconfigures the serial port or the clocks after
//! bring-up (in slave mode the part follows the incoming LRCK), so
//! [`CodecChip::set_sample_rate`] writes nothing here and
//! [`CodecChip::set_format`] accepts only the framing the bring-up leaves (I2S,
//! 16-bit) and refuses the rest.
//!
//! Volume is the datasheet's, shared with the ES8311: `0xBF` is 0 dB, one step
//! 0.5 dB, `0x00` -95.5 dB, `0xFF` +32 dB; the bring-up leaves `0xB3` (-6 dB).

use vstd::prelude::*;

use super::script::{
    done, extends, lemma_begin, lemma_end, lemma_load_refuses_nothing,
    lemma_table_refuses_nothing, load, plain, refuses_nothing, store, stores, Script, Transfer,
};
/// The volume register for a level in half-decibels: the ES8311's map.
pub use super::es8311::dac_volume_reg as volume_reg;
use super::{Bits, Bus, CodecChip, I2cRegs, I2sFormat, Module};
use crate::esp_core::error::{Error, Result};

pub mod reg;

verus! {

/// 7-bit I2C address (the vendor driver's 8-bit `0x10`).
pub const ADDR: u8 = 0x08;

/// The bring-up.
pub const INIT: [(u8, u8); 16] = [
    (reg::SCLK_MODE_REG02, 0x04),
    (reg::ANALOG_SYS1_REG20, 0x2A),
    (reg::ANALOG_SYS2_REG21, 0x3C),
    (reg::ANALOG_SYS3_REG22, 0x00),
    (reg::ANALOG_LP_REG24, 0x07),
    (reg::ANALOG_SYS4_REG23, 0x00),
    (reg::TIME_CONTROL1_REG0A, 0x01),
    (reg::TIME_CONTROL2_REG0B, 0x01),
    (reg::DAC_SDP_REG11, 0x00),
    (reg::VOLUME_CONTROL_REG14, 0xB3), // 179: -6 dB, the vendor's "70 %"
    (reg::P2S_CONTROL_REG0D, 0x14),
    (reg::MISC_CONTROL3_REG18, 0x00),
    (reg::CLOCK_ON_OFF_REG08, 0x3F),
    (reg::RESET_REG00, 0x02),
    (reg::RESET_REG00, 0x03),
    (reg::ANALOG_SYS5_REG25, 0x20),
];

/// The resume: clocks on, analog up, volume back.
pub const RESUME: [(u8, u8); 8] = [
    (reg::CLOCK_ON_OFF_REG08, 0x3F),
    (reg::MISC_CONTROL2_REG09, 0x00),
    (reg::MISC_CONTROL3_REG18, 0x00),
    (reg::ANALOG_SYS5_REG25, 0x20),
    (reg::ANALOG_SYS3_REG22, 0x00),
    (reg::ANALOG_SYS2_REG21, 0x3C),
    (reg::EQ_CONTROL1_REG19, 0x20),
    (reg::VOLUME_CONTROL_REG14, 0xB3),
];

/// The standby: volume to minimum, analog down, clocks off.
pub const STANDBY: [(u8, u8); 10] = [
    (reg::VOLUME_CONTROL_REG14, 0x00),
    (reg::EQ_CONTROL1_REG19, 0x02),
    (reg::ANALOG_SYS2_REG21, 0x1F),
    (reg::ANALOG_SYS3_REG22, 0x02),
    (reg::ANALOG_SYS5_REG25, 0x21),
    (reg::ANALOG_SYS5_REG25, 0xA1),
    (reg::MISC_CONTROL3_REG18, 0x01),
    (reg::MISC_CONTROL2_REG09, 0x02),
    (reg::MISC_CONTROL2_REG09, 0x01),
    (reg::CLOCK_ON_OFF_REG08, 0x00),
];

/// The driver.
pub struct Es8156<I> {
    /// The chip's registers.
    pub regs: I2cRegs<I>,
}

impl<I: Bus> Es8156<I> {
    /// Over `i2c` at the chip's 7-bit `addr` (normally [`ADDR`]).
    pub fn new(i2c: I, addr: u8) -> (r: Self)
        ensures
            r.regs.i2c == i2c,
            r.regs.addr == addr,
    {
        Es8156 { regs: I2cRegs::new(i2c, addr) }
    }

    /// Give the bus back.
    pub fn release(self) -> (r: I)
        ensures
            r == self.regs.i2c,
    {
        self.regs.release()
    }

    /// The register map, for anything the driver does not wrap.
    pub fn regs(&mut self) -> (r: &mut I2cRegs<I>)
        ensures
            *r == old(self).regs,
            final(self).regs == *final(r),
    {
        &mut self.regs
    }

    /// Write all of `table`.
    fn write_all(&mut self, table: &[(u8, u8)]) -> (r: Result<()>)
        ensures
            final(self).regs.addr == old(self).regs.addr,
            extends(
                stores(table@, done()),
                old(self).regs.i2c.log(),
                final(self).regs.i2c.log(),
                old(self).regs.addr,
                plain(r),
            ),
    {
        let ghost script = stores(table@, done());
        let ghost start = self.regs.i2c.log();
        proof {
            lemma_begin(script, start, self.regs.addr);
        }
        self.regs.put_all(table, Ghost(script), Ghost(start), Ghost(done()))?;
        proof {
            lemma_end(script, start, self.regs.i2c.log(), self.regs.addr, Ok(Seq::empty()));
        }
        Ok(())
    }

    /// Read the chip id bytes `CHIPID1_REGFD` / `CHIPID0_REGFE`.
    pub fn chip_id(&mut self) -> (r: Result<(u8, u8)>)
        ensures
            final(self).regs.addr == old(self).regs.addr,
            extends(
                load(
                    reg::CHIPID1_REGFD,
                    |a: u8| load(reg::CHIPID0_REGFE, |b: u8| Script::Done(seq![a, b])),
                ),
                old(self).regs.i2c.log(),
                final(self).regs.i2c.log(),
                old(self).regs.addr,
                match r {
                    Ok((a, b)) => Ok(seq![a, b]),
                    Err(e) => Err(e),
                },
            ),
    {
        let ghost script = load(
            reg::CHIPID1_REGFD,
            |a: u8| load(reg::CHIPID0_REGFE, |b: u8| Script::Done(seq![a, b])),
        );
        let ghost start = self.regs.i2c.log();
        proof {
            lemma_begin(script, start, self.regs.addr);
        }
        let a: u8 = self.regs.get(reg::CHIPID1_REGFD, Ghost(script), Ghost(start))?;
        let b: u8 = self.regs.get(reg::CHIPID0_REGFE, Ghost(script), Ghost(start))?;
        proof {
            lemma_end(script, start, self.regs.i2c.log(), self.regs.addr, Ok(seq![a, b]));
        }
        Ok((a, b))
    }

    /// The bring-up ([`INIT`]).
    pub fn init(&mut self) -> (r: Result<()>)
        ensures
            final(self).regs.addr == old(self).regs.addr,
            extends(
                stores(INIT@, done()),
                old(self).regs.i2c.log(),
                final(self).regs.i2c.log(),
                old(self).regs.addr,
                plain(r),
            ),
    {
        self.write_all(INIT.as_slice())
    }

    /// DAC volume register, straight ([`volume_reg`] maps half-dB to
    /// it).
    pub fn set_volume_reg(&mut self, value: u8) -> (r: Result<()>)
        ensures
            final(self).regs.addr == old(self).regs.addr,
            extends(
                store(reg::VOLUME_CONTROL_REG14, value, done()),
                old(self).regs.i2c.log(),
                final(self).regs.i2c.log(),
                old(self).regs.addr,
                plain(r),
            ),
    {
        let ghost script = store(reg::VOLUME_CONTROL_REG14, value, done());
        let ghost start = self.regs.i2c.log();
        proof {
            lemma_begin(script, start, self.regs.addr);
        }
        self.regs.put(reg::VOLUME_CONTROL_REG14, value, Ghost(script), Ghost(start))?;
        proof {
            lemma_end(script, start, self.regs.i2c.log(), self.regs.addr, Ok(Seq::empty()));
        }
        Ok(())
    }
}

/// The mute register holding `old`, muted or not: bits 1 and 2.
pub open spec fn muted(old: u8, mute: bool) -> u8 {
    if mute {
        old | 0x06
    } else {
        old & !0x06u8
    }
}

impl<I: Bus> CodecChip for Es8156<I> {
    open spec fn log(&self) -> Seq<Transfer> {
        self.regs.i2c.log()
    }

    open spec fn address(&self) -> u8 {
        self.regs.addr
    }

    open spec fn sample_rate_script(&self, sample_rate_hz: u32, mclk_hz: u32) -> Script {
        done()
    }

    open spec fn format_script(&self, fmt: I2sFormat, bits: Bits) -> Script {
        if fmt == I2sFormat::Standard && bits == Bits::B16 {
            store(reg::DAC_SDP_REG11, 0x00, done())
        } else {
            Script::Refuse(Error::Unsupported)
        }
    }

    open spec fn start_script(&self, module: Module) -> Script {
        if module == Module::Adc {
            Script::Refuse(Error::Unsupported)
        } else {
            stores(RESUME@, done())
        }
    }

    open spec fn stop_script(&self) -> Script {
        stores(STANDBY@, done())
    }

    open spec fn mute_script(&self, mute: bool) -> Script {
        load(
            reg::DAC_MUTE_REG13,
            |v: u8| store(reg::DAC_MUTE_REG13, muted(v, mute), done()),
        )
    }

    /// A slave ES8156 follows the LRCK it is given; nothing is written.
    fn set_sample_rate(&mut self, _sample_rate_hz: u32, _mclk_hz: u32) -> (r: Result<()>) {
        proof {
            lemma_begin(done(), self.regs.i2c.log(), self.regs.addr);
        }
        Ok(())
    }

    /// Only the framing the bring-up leaves (I2S, 16-bit slots) is accepted
    /// (`DAC_SDP_REG11 = 0x00`); anything else is `Unsupported`.
    fn set_format(&mut self, fmt: I2sFormat, bits: Bits) -> (r: Result<()>) {
        let ghost script = self.format_script(fmt, bits);
        let ghost start = self.regs.i2c.log();
        proof {
            lemma_begin(script, start, self.regs.addr);
        }
        if fmt == I2sFormat::Standard && bits == Bits::B16 {
            self.regs.put(reg::DAC_SDP_REG11, 0x00, Ghost(script), Ghost(start))?;
            proof {
                lemma_end(script, start, self.regs.i2c.log(), self.regs.addr, Ok(Seq::empty()));
            }
            Ok(())
        } else {
            Err(Error::Unsupported)
        }
    }

    /// [`RESUME`]; the part has no ADC, so [`Module::Adc`] is refused.
    fn start(&mut self, module: Module) -> (r: Result<()>) {
        if module == Module::Adc {
            proof {
                lemma_begin(self.start_script(module), self.regs.i2c.log(), self.regs.addr);
            }
            return Err(Error::Unsupported);
        }
        self.write_all(RESUME.as_slice())
    }

    /// [`STANDBY`].
    fn stop(&mut self) -> (r: Result<()>) {
        self.write_all(STANDBY.as_slice())
    }

    /// `DAC_MUTE_REG13` bits 1 and 2.
    fn set_mute(&mut self, mute: bool) -> (r: Result<()>) {
        let ghost script = self.mute_script(mute);
        let ghost start = self.regs.i2c.log();
        proof {
            lemma_begin(script, start, self.regs.addr);
        }
        let v: u8 = self.regs.get(reg::DAC_MUTE_REG13, Ghost(script), Ghost(start))?;
        let v: u8 = if mute {
            v | 0x06
        } else {
            v & !0x06
        };
        self.regs.put(reg::DAC_MUTE_REG13, v, Ghost(script), Ghost(start))?;
        proof {
            lemma_end(script, start, self.regs.i2c.log(), self.regs.addr, Ok(Seq::empty()));
        }
        Ok(())
    }
}

/// What a driver accepts it refuses nowhere: on a bus that does not fail, every
/// call succeeds but another framing or width and the start of an ADC alone.
pub proof fn lemma_accepted_is_not_refused<I: Bus>(chip: Es8156<I>, module: Module, mute: bool)
    ensures
        refuses_nothing(stores(INIT@, done())),
        refuses_nothing(chip.format_script(I2sFormat::Standard, Bits::B16)),
        module != Module::Adc ==> refuses_nothing(chip.start_script(module)),
        refuses_nothing(chip.stop_script()),
        refuses_nothing(chip.mute_script(mute)),
{
    lemma_table_refuses_nothing(INIT@, done());
    lemma_table_refuses_nothing(RESUME@, done());
    lemma_table_refuses_nothing(STANDBY@, done());
    lemma_load_refuses_nothing(chip.mute_script(mute));
    assert(refuses_nothing(chip.format_script(I2sFormat::Standard, Bits::B16))) by {
        reveal_with_fuel(refuses_nothing, 2);
    }
}

} // verus!
