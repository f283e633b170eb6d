//! ES8388: Everest's stereo ADC + DAC with line-in bypass, the codec on the
//! ESP32-LyraT (v4.2 / v4.3) and the boards that copied it.
//!
//! Unlike the ES8311 there is no clock-coefficient table: the chip takes an
//! MCLK/LRCK ratio (`ADCCONTROL5` / `DACCONTROL2`) and, in master mode, a BCLK
//! divider (`MASTERMODE`); setting the sample rate turns a (MCLK, rate) pair
//! into that ratio and refuses one the chip has no code for.
//!
//! Volume is the datasheet's: `0x00` is 0 dB, one step is -0.5 dB, `0xC0` is
//! -96 dB, for the DAC (`DACCONTROL4/5`) and the ADC (`ADCCONTROL8/9`) alike.
//! The PA-enable GPIO and the headphone-detect pin are the board's.

use vstd::prelude::*;

use super::script::{
    done, extends, lemma_begin, lemma_end, lemma_load_refuses_nothing,
    lemma_table_refuses_nothing, load, plain, refuses_nothing, store, stores, Script, Transfer,
};
use super::{Bits, Bus, CodecChip, I2cRegs, I2sFormat, Mode, Module};
use crate::esp_core::error::{Error, Result};

pub mod laws;
pub mod reg;

verus! {

/// 7-bit I2C address with CE low (the vendor driver's 8-bit `0x20`); `0x11`
/// with CE high.
pub const ADDR: u8 = 0x10;

/// Which line outputs the DAC drives (`DACPOWER` bits; OR them).
#[derive(Debug, Clone, Copy, PartialEq, Eq, Structural)]
pub struct DacOutputs(pub u8);

/// Left, output 1.
pub const LOUT1: u8 = 0x04;

/// Left, output 2.
pub const LOUT2: u8 = 0x08;

/// Right, output 1.
pub const ROUT1: u8 = 0x10;

/// Right, output 2.
pub const ROUT2: u8 = 0x20;

/// Both channels of output 1 (the vendor's "line 2" board wiring).
pub const LINE1: u8 = 0x14;

/// Both channels of output 2 (the vendor's "line 1" board wiring).
pub const LINE2: u8 = 0x28;

/// Every output.
pub const ALL: u8 = 0x3C;

/// Where the ADC listens (`ADCCONTROL2` high nibble and the two mic codes).
#[derive(Debug, Clone, Copy, PartialEq, Eq, Structural)]
pub enum AdcInput {
    /// LINPUT1 / RINPUT1.
    Line1,
    /// Microphone 1.
    Mic1,
    /// Microphone 2.
    Mic2,
    /// LINPUT2 / RINPUT2.
    Line2,
    /// The differential pair.
    Difference,
}

impl AdcInput {
    /// The register code.
    pub open spec fn code_spec(self) -> u8 {
        match self {
            AdcInput::Line1 => 0x00,
            AdcInput::Mic1 => 0x05,
            AdcInput::Mic2 => 0x06,
            AdcInput::Line2 => 0x50,
            AdcInput::Difference => 0xF0,
        }
    }

    /// The register code.
    pub fn code(self) -> (r: u8)
        ensures
            r == self.code_spec(),
    {
        match self {
            AdcInput::Line1 => 0x00,
            AdcInput::Mic1 => 0x05,
            AdcInput::Mic2 => 0x06,
            AdcInput::Line2 => 0x50,
            AdcInput::Difference => 0xF0,
        }
    }
}

/// Bring-up parameters.
#[derive(Debug, Clone, Copy, PartialEq, Eq, Structural)]
pub struct Config {
    /// Who drives BCLK / LRCK.
    pub mode: Mode,
    /// The line outputs to power.
    pub dac_output: DacOutputs,
    /// The ADC input to select.
    pub adc_input: AdcInput,
}

impl Config {
    /// The vendor driver's defaults: slave, every output, line input 1.
    pub fn slave() -> (r: Self)
        ensures
            r == (Config {
                mode: Mode::Slave,
                dac_output: DacOutputs(ALL),
                adc_input: AdcInput::Line1,
            }),
    {
        Config { mode: Mode::Slave, dac_output: DacOutputs(ALL), adc_input: AdcInput::Line1 }
    }
}

/// The volume register for a level in half-decibels at or below zero.
pub open spec fn volume_code(half_db: int) -> u8 {
    let v = -half_db;
    (if v < 0 {
        0
    } else if v > 0xC0 {
        0xC0
    } else {
        v
    }) as u8
}

/// The volume register for a level in half-decibels at or below zero: `0` is
/// `0x00` (0 dB), `-100` is `0x64` (-50 dB), `-192` is `0xC0` (-96 dB); clamped
/// at both ends.
pub fn volume_reg(half_db: i16) -> (r: u8)
    ensures
        r == volume_code(half_db as int),
{
    let v: i32 = -(half_db as i32);
    if v < 0 {
        0
    } else if v > 0xC0 {
        0xC0
    } else {
        v as u8
    }
}

/// A louder level never has a higher register value.
pub proof fn lemma_volume_falls(a: int, b: int)
    requires
        a <= b,
    ensures
        volume_code(b) <= volume_code(a),
{
}

/// The `ADCCONTROL5` / `DACCONTROL2` code for an MCLK : LRCK ratio.
pub open spec fn ratio_code(ratio: u32) -> Option<u8> {
    if ratio == 128 {
        Some(0)
    } else if ratio == 192 {
        Some(1)
    } else if ratio == 256 {
        Some(2)
    } else if ratio == 384 {
        Some(3)
    } else if ratio == 512 {
        Some(4)
    } else if ratio == 576 {
        Some(5)
    } else if ratio == 768 {
        Some(6)
    } else if ratio == 1024 {
        Some(7)
    } else if ratio == 1152 {
        Some(8)
    } else if ratio == 1408 {
        Some(9)
    } else if ratio == 1536 {
        Some(10)
    } else if ratio == 2112 {
        Some(11)
    } else if ratio == 2304 {
        Some(12)
    } else if ratio == 125 {
        Some(16)
    } else if ratio == 136 {
        Some(17)
    } else if ratio == 250 {
        Some(18)
    } else if ratio == 272 {
        Some(19)
    } else if ratio == 375 {
        Some(20)
    } else if ratio == 500 {
        Some(21)
    } else if ratio == 544 {
        Some(22)
    } else if ratio == 750 {
        Some(23)
    } else if ratio == 1000 {
        Some(24)
    } else if ratio == 1088 {
        Some(25)
    } else if ratio == 1496 {
        Some(26)
    } else if ratio == 1500 {
        Some(27)
    } else {
        None
    }
}

/// The `ADCCONTROL5` / `DACCONTROL2` code for an MCLK : LRCK ratio, or `None`
/// when the chip has none.
pub fn lrck_ratio_code(ratio: u32) -> (r: Option<u8>)
    ensures
        r == ratio_code(ratio),
{
    match ratio {
        128 => Some(0),
        192 => Some(1),
        256 => Some(2),
        384 => Some(3),
        512 => Some(4),
        576 => Some(5),
        768 => Some(6),
        1024 => Some(7),
        1152 => Some(8),
        1408 => Some(9),
        1536 => Some(10),
        2112 => Some(11),
        2304 => Some(12),
        125 => Some(16),
        136 => Some(17),
        250 => Some(18),
        272 => Some(19),
        375 => Some(20),
        500 => Some(21),
        544 => Some(22),
        750 => Some(23),
        1000 => Some(24),
        1088 => Some(25),
        1496 => Some(26),
        1500 => Some(27),
        _ => None,
    }
}

/// No two ratios share a code.
pub proof fn lemma_ratio_codes_differ(a: u32, b: u32)
    requires
        ratio_code(a) is Some,
        ratio_code(a) == ratio_code(b),
    ensures
        a == b,
{
}

/// Bring-up ahead of master/slave: the DAC muted while the rest comes up, chip
/// power, three analog trims.
pub const POWER_ON: [(u8, u8); 6] = [
    (reg::DACCONTROL3, 0x04),
    (reg::CONTROL2, 0x50),
    (reg::CHIPPOWER, 0x00),
    (0x35, 0xA0),
    (0x37, 0xD0),
    (0x39, 0xD0),
];

/// The DAC path: 16-bit I2S, single speed, ratio 256, mixers at 0 dB.
pub const DAC_PATH: [(u8, u8); 13] = [
    (reg::DACPOWER, 0xC0),
    (reg::CONTROL1, 0x12),
    (reg::DACCONTROL1, 0x18),
    (reg::DACCONTROL2, 0x02),
    (reg::DACCONTROL16, 0x00),
    (reg::DACCONTROL17, 0x90),
    (reg::DACCONTROL20, 0x90),
    (reg::DACCONTROL21, 0x80),
    (reg::DACCONTROL23, 0x00),
    (reg::DACCONTROL24, 0x1E),
    (reg::DACCONTROL25, 0x1E),
    (reg::DACCONTROL26, 0),
    (reg::DACCONTROL27, 0),
];

/// The ADC's framing: 16-bit I2S, ratio 256.
pub const ADC_PATH: [(u8, u8); 3] = [
    (reg::ADCCONTROL3, 0x02),
    (reg::ADCCONTROL4, 0x0C),
    (reg::ADCCONTROL5, 0x02),
];

/// Line-in through the mixers to line-out, the DAC still summed in.
pub const BYPASS_ON: [(u8, u8); 4] = [
    (reg::DACCONTROL16, 0x09),
    (reg::DACCONTROL17, 0x50),
    (reg::DACCONTROL20, 0x50),
    (reg::DACCONTROL21, 0xC0),
];

/// Mixers back to DAC only.
pub const BYPASS_OFF: [(u8, u8); 4] = [
    (reg::DACCONTROL21, 0x80),
    (reg::DACCONTROL16, 0x00),
    (reg::DACCONTROL17, 0x90),
    (reg::DACCONTROL20, 0x90),
];

/// The bring-up.
pub open spec fn init_script(cfg: Config) -> Script {
    stores(
        POWER_ON@,
        store(
            reg::MASTERMODE,
            if cfg.mode == Mode::Master {
                0x01
            } else {
                0x00
            },
            stores(
                DAC_PATH@,
                store(
                    reg::DACPOWER,
                    cfg.dac_output.0,
                    store(
                        reg::ADCPOWER,
                        0xFF,
                        store(
                            reg::ADCCONTROL1,
                            0xBB,
                            store(
                                reg::ADCCONTROL2,
                                cfg.adc_input.code_spec(),
                                stores(
                                    ADC_PATH@,
                                    volume_script(
                                        Module::Adc,
                                        0,
                                        store(reg::ADCPOWER, 0x09, done()),
                                    ),
                                ),
                            ),
                        ),
                    ),
                ),
            ),
        ),
    )
}

/// The volume registers of the ADC, the DAC or both.
pub open spec fn volume_script(module: Module, half_db: int, then: Script) -> Script {
    let v = volume_code(half_db);
    let dac = if module != Module::Adc {
        store(reg::DACCONTROL5, v, store(reg::DACCONTROL4, v, then))
    } else {
        then
    };
    if module != Module::Dac {
        store(reg::ADCCONTROL8, v, store(reg::ADCCONTROL9, v, dac))
    } else {
        dac
    }
}

/// The DAC's mute bit, bit 2 of `DACCONTROL3`.
pub open spec fn mute_bit_script(mute: bool, then: Script) -> Script {
    load(
        reg::DACCONTROL3,
        |v: u8|
            store(
                reg::DACCONTROL3,
                (v & 0xFB) | (if mute {
                    0x04
                } else {
                    0x00
                }),
                then,
            ),
    )
}

/// The "start state machine" pulse on `CHIPPOWER`, issued only when
/// `DACCONTROL21` is not what it was.
pub open spec fn pulse_script(prev: u8, then: Script) -> Script {
    load(
        reg::DACCONTROL21,
        |now: u8|
            if now != prev {
                store(reg::CHIPPOWER, 0xF0, store(reg::CHIPPOWER, 0x00, then))
            } else {
                then
            },
    )
}

/// The converters asked for powered up, and the DAC unmuted.
pub open spec fn power_script(module: Module) -> Script {
    let dac = if module != Module::Adc {
        store(reg::DACPOWER, 0x3C, mute_bit_script(false, done()))
    } else {
        done()
    };
    if module != Module::Dac {
        store(reg::ADCPOWER, 0x00, dac)
    } else {
        dac
    }
}

/// The converters of `module` powered down.
pub open spec fn stop_module_script(module: Module) -> Script {
    let clock = if module == Module::AdcDac {
        store(reg::DACCONTROL21, 0x9C, done())
    } else {
        done()
    };
    let adc = if module != Module::Dac {
        store(reg::ADCPOWER, 0xFF, clock)
    } else {
        clock
    };
    if module != Module::Adc {
        store(reg::DACPOWER, 0x00, mute_bit_script(true, adc))
    } else {
        adc
    }
}

/// The line outputs into `DACPOWER`.
pub open spec fn outputs_script(outputs: DacOutputs) -> Script {
    load(reg::DACPOWER, |v: u8| store(reg::DACPOWER, (v & 0xC3) | outputs.0, done()))
}

/// The input's code into `ADCCONTROL2`.
pub open spec fn listen_script(input: AdcInput) -> Script {
    load(
        reg::ADCCONTROL2,
        |v: u8| store(reg::ADCCONTROL2, (v & 0x0F) | input.code_spec(), done()),
    )
}

/// The line-in bypass.
pub open spec fn bypass_script() -> Script {
    load(
        reg::DACCONTROL21,
        |prev: u8|
            stores(
                BYPASS_ON@,
                pulse_script(
                    prev,
                    store(
                        reg::ADCPOWER,
                        0x00,
                        store(reg::DACPOWER, 0x3C, mute_bit_script(false, done())),
                    ),
                ),
            ),
    )
}

/// The driver.
pub struct Es8388<I> {
    /// The chip's registers.
    pub regs: I2cRegs<I>,
}

impl<I: Bus> Es8388<I> {
    /// Over `i2c` at the chip's 7-bit `addr` (normally [`ADDR`]).
    pub fn new(i2c: I, addr: u8) -> (r: Self)
        ensures
            r.regs.i2c == i2c,
            r.regs.addr == addr,
    {
        Es8388 { regs: I2cRegs::new(i2c, addr) }
    }

    /// Give the bus back.
    pub fn release(self) -> (r: I)
        ensures
            r == self.regs.i2c,
    {
        self.regs.release()
    }

    /// The register map, for anything the driver does not wrap.
    pub fn regs(&mut self) -> (r: &mut I2cRegs<I>)
        ensures
            *r == old(self).regs,
            final(self).regs == *final(r),
    {
        &mut self.regs
    }

    /// Write the volume registers, as `script` asks for next.
    fn put_volume(
        &mut self,
        module: Module,
        half_db: i16,
        Ghost(script): Ghost<Script>,
        Ghost(start): Ghost<Seq<Transfer>>,
        Ghost(then): Ghost<Script>,
    ) -> (r: Result<()>)
        requires
            old(self).regs.rest(script, start) == Some(
                volume_script(module, half_db as int, then),
            ),
        ensures
            final(self).regs.addr == old(self).regs.addr,
            r is Ok ==> final(self).regs.rest(script, start) == Some(then),
            r matches Err(e) ==> e == Error::Hardware && extends(
                script,
                start,
                final(self).regs.i2c.log(),
                old(self).regs.addr,
                Err(e),
            ),
    {
        let v: u8 = volume_reg(half_db);
        if module != Module::Dac {
            self.regs.put(reg::ADCCONTROL8, v, Ghost(script), Ghost(start))?;
            self.regs.put(reg::ADCCONTROL9, v, Ghost(script), Ghost(start))?;
        }
        if module != Module::Adc {
            self.regs.put(reg::DACCONTROL5, v, Ghost(script), Ghost(start))?;
            self.regs.put(reg::DACCONTROL4, v, Ghost(script), Ghost(start))?;
        }
        Ok(())
    }

    /// Set the mute bit, as `script` asks for next.
    fn put_mute(
        &mut self,
        mute: bool,
        Ghost(script): Ghost<Script>,
        Ghost(start): Ghost<Seq<Transfer>>,
        Ghost(then): Ghost<Script>,
    ) -> (r: Result<()>)
        requires
            old(self).regs.rest(script, start) == Some(mute_bit_script(mute, then)),
        ensures
            final(self).regs.addr == old(self).regs.addr,
            r is Ok ==> final(self).regs.rest(script, start) == Some(then),
            r matches Err(e) ==> e == Error::Hardware && extends(
                script,
                start,
                final(self).regs.i2c.log(),
                old(self).regs.addr,
                Err(e),
            ),
    {
        let v: u8 = self.regs.get(reg::DACCONTROL3, Ghost(script), Ghost(start))?;
        let bit: u8 = if mute {
            0x04
        } else {
            0x00
        };
        self.regs.put(reg::DACCONTROL3, (v & 0xFB) | bit, Ghost(script), Ghost(start))
    }

    /// The state-machine pulse, issued only when `DACCONTROL21` changed, as
    /// `script` asks for next.
    fn restart_if_changed(
        &mut self,
        prev: u8,
        Ghost(script): Ghost<Script>,
        Ghost(start): Ghost<Seq<Transfer>>,
        Ghost(then): Ghost<Script>,
    ) -> (r: Result<()>)
        requires
            old(self).regs.rest(script, start) == Some(pulse_script(prev, then)),
        ensures
            final(self).regs.addr == old(self).regs.addr,
            r is Ok ==> final(self).regs.rest(script, start) == Some(then),
            r matches Err(e) ==> e == Error::Hardware && extends(
                script,
                start,
                final(self).regs.i2c.log(),
                old(self).regs.addr,
                Err(e),
            ),
    {
        let now: u8 = self.regs.get(reg::DACCONTROL21, Ghost(script), Ghost(start))?;
        if now != prev {
            self.regs.put(reg::CHIPPOWER, 0xF0, Ghost(script), Ghost(start))?;
            self.regs.put(reg::CHIPPOWER, 0x00, Ghost(script), Ghost(start))?;
        }
        Ok(())
    }

    /// The bring-up ([`init_script`]).
    pub fn init(&mut self, cfg: &Config) -> (r: Result<()>)
        ensures
            final(self).regs.addr == old(self).regs.addr,
            extends(
                init_script(*cfg),
                old(self).regs.i2c.log(),
                final(self).regs.i2c.log(),
                old(self).regs.addr,
                plain(r),
            ),
    {
        let ghost script = init_script(*cfg);
        let ghost start = self.regs.i2c.log();
        proof {
            lemma_begin(script, start, self.regs.addr);
        }
        let ghost powered = store(reg::ADCPOWER, 0x09, done());
        let ghost leveled = volume_script(Module::Adc, 0, powered);
        let ghost listening = store(
            reg::DACPOWER,
            cfg.dac_output.0,
            store(
                reg::ADCPOWER,
                0xFF,
                store(
                    reg::ADCCONTROL1,
                    0xBB,
                    store(
                        reg::ADCCONTROL2,
                        cfg.adc_input.code_spec(),
                        stores(ADC_PATH@, leveled),
                    ),
                ),
            ),
        );
        let mode: u8 = match cfg.mode {
            Mode::Slave => 0x00,
            Mode::Master => 0x01,
        };
        let ghost clocked = store(reg::MASTERMODE, mode, stores(DAC_PATH@, listening));
        self.regs.put_all(POWER_ON.as_slice(), Ghost(script), Ghost(start), Ghost(clocked))?;
        self.regs.put(reg::MASTERMODE, mode, Ghost(script), Ghost(start))?;
        self.regs.put_all(DAC_PATH.as_slice(), Ghost(script), Ghost(start), Ghost(listening))?;
        self.regs.put(reg::DACPOWER, cfg.dac_output.0, Ghost(script), Ghost(start))?;
        self.regs.put(reg::ADCPOWER, 0xFF, Ghost(script), Ghost(start))?;
        self.regs.put(reg::ADCCONTROL1, 0xBB, Ghost(script), Ghost(start))?;
        self.regs.put(reg::ADCCONTROL2, cfg.adc_input.code(), Ghost(script), Ghost(start))?;
        self.regs.put_all(ADC_PATH.as_slice(), Ghost(script), Ghost(start), Ghost(leveled))?;
        self.put_volume(Module::Adc, 0, Ghost(script), Ghost(start), Ghost(powered))?;
        self.regs.put(reg::ADCPOWER, 0x09, Ghost(script), Ghost(start))?;
        proof {
            lemma_end(script, start, self.regs.i2c.log(), self.regs.addr, Ok(Seq::empty()));
        }
        Ok(())
    }

    /// `half_db` at or below zero, in 0.5 dB steps, clamped at -96 dB, for the ADC,
    /// the DAC or both.
    pub fn set_volume(&mut self, module: Module, half_db: i16) -> (r: Result<()>)
        ensures
            final(self).regs.addr == old(self).regs.addr,
            extends(
                volume_script(module, half_db as int, done()),
                old(self).regs.i2c.log(),
                final(self).regs.i2c.log(),
                old(self).regs.addr,
                plain(r),
            ),
    {
        let ghost script = volume_script(module, half_db as int, done());
        let ghost start = self.regs.i2c.log();
        proof {
            lemma_begin(script, start, self.regs.addr);
        }
        self.put_volume(module, half_db, Ghost(script), Ghost(start), Ghost(done()))?;
        proof {
            lemma_end(script, start, self.regs.i2c.log(), self.regs.addr, Ok(Seq::empty()));
        }
        Ok(())
    }

    /// Master mode: the BCLK divider code into `MASTERMODE` and the LRCK ratio code
    /// into both `ADCCONTROL5` and `DACCONTROL2`.
    pub fn set_clock_dividers(&mut self, sclk_div_code: u8, lrck_ratio_code: u8) -> (r: Result<()>)
        ensures
            final(self).regs.addr == old(self).regs.addr,
            extends(
                store(
                    reg::MASTERMODE,
                    sclk_div_code,
                    store(
                        reg::ADCCONTROL5,
                        lrck_ratio_code,
                        store(reg::DACCONTROL2, lrck_ratio_code, done()),
                    ),
                ),
                old(self).regs.i2c.log(),
                final(self).regs.i2c.log(),
                old(self).regs.addr,
                plain(r),
            ),
    {
        let ghost script = store(
            reg::MASTERMODE,
            sclk_div_code,
            store(
                reg::ADCCONTROL5,
                lrck_ratio_code,
                store(reg::DACCONTROL2, lrck_ratio_code, done()),
            ),
        );
        let ghost start = self.regs.i2c.log();
        proof {
            lemma_begin(script, start, self.regs.addr);
        }
        self.regs.put(reg::MASTERMODE, sclk_div_code, Ghost(script), Ghost(start))?;
        self.regs.put(reg::ADCCONTROL5, lrck_ratio_code, Ghost(script), Ghost(start))?;
        self.regs.put(reg::DACCONTROL2, lrck_ratio_code, Ghost(script), Ghost(start))?;
        proof {
            lemma_end(script, start, self.regs.i2c.log(), self.regs.addr, Ok(Seq::empty()));
        }
        Ok(())
    }

    /// Which line outputs the DAC drives.
    pub fn set_dac_outputs(&mut self, outputs: DacOutputs) -> (r: Result<()>)
        ensures
            final(self).regs.addr == old(self).regs.addr,
            extends(
                outputs_script(outputs),
                old(self).regs.i2c.log(),
                final(self).regs.i2c.log(),
                old(self).regs.addr,
                plain(r),
            ),
    {
        let ghost script = outputs_script(outputs);
        let ghost start = self.regs.i2c.log();
        proof {
            lemma_begin(script, start, self.regs.addr);
        }
        let v: u8 = self.regs.get(reg::DACPOWER, Ghost(script), Ghost(start))?;
        self.regs.put(reg::DACPOWER, (v & 0xC3) | outputs.0, Ghost(script), Ghost(start))?;
        proof {
            lemma_end(script, start, self.regs.i2c.log(), self.regs.addr, Ok(Seq::empty()));
        }
        Ok(())
    }

    /// Where the ADC listens.
    pub fn set_adc_input(&mut self, input: AdcInput) -> (r: Result<()>)
        ensures
            final(self).regs.addr == old(self).regs.addr,
            extends(
                listen_script(input),
                old(self).regs.i2c.log(),
                final(self).regs.i2c.log(),
                old(self).regs.addr,
                plain(r),
            ),
    {
        let ghost script = listen_script(input);
        let ghost start = self.regs.i2c.log();
        proof {
            lemma_begin(script, start, self.regs.addr);
        }
        let v: u8 = self.regs.get(reg::ADCCONTROL2, Ghost(script), Ghost(start))?;
        self.regs.put(reg::ADCCONTROL2, (v & 0x0F) | input.code(), Ghost(script), Ghost(start))?;
        proof {
            lemma_end(script, start, self.regs.i2c.log(), self.regs.addr, Ok(Seq::empty()));
        }
        Ok(())
    }

    /// 0 to 24 dB in 3 dB steps, both PGAs; anything else is refused before any
    /// write.
    pub fn set_mic_gain(&mut self, gain_db: u8) -> (r: Result<()>)
        ensures
            final(self).regs.addr == old(self).regs.addr,
            extends(
                mic_gain_script(gain_db),
                old(self).regs.i2c.log(),
                final(self).regs.i2c.log(),
                old(self).regs.addr,
                plain(r),
            ),
    {
        let ghost script = mic_gain_script(gain_db);
        let ghost start = self.regs.i2c.log();
        proof {
            lemma_begin(script, start, self.regs.addr);
        }
        if gain_db > 24 || gain_db % 3 != 0 {
            return Err(Error::Unsupported);
        }
        let n: u8 = gain_db / 3;
        self.regs.put(reg::ADCCONTROL1, (n << 4u8) | n, Ghost(script), Ghost(start))?;
        proof {
            lemma_end(script, start, self.regs.i2c.log(), self.regs.addr, Ok(Seq::empty()));
        }
        Ok(())
    }

    /// Line-in through the mixers to line-out, the DAC still summed in.
    pub fn start_line_bypass(&mut self) -> (r: Result<()>)
        ensures
            final(self).regs.addr == old(self).regs.addr,
            extends(
                bypass_script(),
                old(self).regs.i2c.log(),
                final(self).regs.i2c.log(),
                old(self).regs.addr,
                plain(r),
            ),
    {
        let ghost script = bypass_script();
        let ghost start = self.regs.i2c.log();
        proof {
            lemma_begin(script, start, self.regs.addr);
        }
        let ghost unmuted = mute_bit_script(false, done());
        let ghost powered = store(reg::ADCPOWER, 0x00, store(reg::DACPOWER, 0x3C, unmuted));
        let prev: u8 = self.regs.get(reg::DACCONTROL21, Ghost(script), Ghost(start))?;
        let ghost pulsed = pulse_script(prev, powered);
        self.regs.put_all(BYPASS_ON.as_slice(), Ghost(script), Ghost(start), Ghost(pulsed))?;
        self.restart_if_changed(prev, Ghost(script), Ghost(start), Ghost(powered))?;
        self.regs.put(reg::ADCPOWER, 0x00, Ghost(script), Ghost(start))?;
        self.regs.put(reg::DACPOWER, 0x3C, Ghost(script), Ghost(start))?;
        self.put_mute(false, Ghost(script), Ghost(start), Ghost(done()))?;
        proof {
            lemma_end(script, start, self.regs.i2c.log(), self.regs.addr, Ok(Seq::empty()));
        }
        Ok(())
    }

    /// Mixers back to DAC only.
    pub fn stop_line_bypass(&mut self) -> (r: Result<()>)
        ensures
            final(self).regs.addr == old(self).regs.addr,
            extends(
                stores(BYPASS_OFF@, done()),
                old(self).regs.i2c.log(),
                final(self).regs.i2c.log(),
                old(self).regs.addr,
                plain(r),
            ),
    {
        let ghost script = stores(BYPASS_OFF@, done());
        let ghost start = self.regs.i2c.log();
        proof {
            lemma_begin(script, start, self.regs.addr);
        }
        self.regs.put_all(BYPASS_OFF.as_slice(), Ghost(script), Ghost(start), Ghost(done()))?;
        proof {
            lemma_end(script, start, self.regs.i2c.log(), self.regs.addr, Ok(Seq::empty()));
        }
        Ok(())
    }

    /// Power down one module (stopping the chip is both).
    pub fn stop_module(&mut self, module: Module) -> (r: Result<()>)
        ensures
            final(self).regs.addr == old(self).regs.addr,
            extends(
                stop_module_script(module),
                old(self).regs.i2c.log(),
                final(self).regs.i2c.log(),
                old(self).regs.addr,
                plain(r),
            ),
    {
        let ghost script = stop_module_script(module);
        let ghost start = self.regs.i2c.log();
        proof {
            lemma_begin(script, start, self.regs.addr);
        }
        let ghost clock = if module == Module::AdcDac {
            store(reg::DACCONTROL21, 0x9C, done())
        } else {
            done()
        };
        let ghost adc = if module != Module::Dac {
            store(reg::ADCPOWER, 0xFF, clock)
        } else {
            clock
        };
        if module != Module::Adc {
            self.regs.put(reg::DACPOWER, 0x00, Ghost(script), Ghost(start))?;
            self.put_mute(true, Ghost(script), Ghost(start), Ghost(adc))?;
        }
        if module != Module::Dac {
            self.regs.put(reg::ADCPOWER, 0xFF, Ghost(script), Ghost(start))?;
        }
        if module == Module::AdcDac {
            self.regs.put(reg::DACCONTROL21, 0x9C, Ghost(script), Ghost(start))?;
        }
        proof {
            lemma_end(script, start, self.regs.i2c.log(), self.regs.addr, Ok(Seq::empty()));
        }
        Ok(())
    }
}

/// The microphone gain of both PGAs, or the refusal of one they do not have.
pub open spec fn mic_gain_script(gain_db: u8) -> Script {
    if gain_db > 24 || gain_db % 3 != 0 {
        Script::Refuse(Error::Unsupported)
    } else {
        let n = gain_db / 3;
        store(reg::ADCCONTROL1, (n << 4u8) | n, done())
    }
}

/// The framing code.
pub open spec fn framing(fmt: I2sFormat) -> u8 {
    match fmt {
        I2sFormat::Standard => 0,
        I2sFormat::LeftJustified => 1,
        I2sFormat::Dsp => 3,
    }
}

/// The slot width code.
pub open spec fn width(bits: Bits) -> u8 {
    match bits {
        Bits::B16 => 0x03,
        Bits::B24 => 0x00,
        Bits::B32 => 0x04,
    }
}

/// The slot width into both converters: `ADCCONTROL4` bits 4:2, `DACCONTROL1`
/// bits 5:3.
pub open spec fn width_script(b: u8) -> Script {
    load(
        reg::ADCCONTROL4,
        |adc: u8|
            store(
                reg::ADCCONTROL4,
                (adc & 0xE3) | (b << 2u8),
                load(
                    reg::DACCONTROL1,
                    |dac: u8| store(reg::DACCONTROL1, (dac & 0xC7) | (b << 3u8), done()),
                ),
            ),
    )
}

impl<I: Bus> CodecChip for Es8388<I> {
    open spec fn log(&self) -> Seq<Transfer> {
        self.regs.i2c.log()
    }

    open spec fn address(&self) -> u8 {
        self.regs.addr
    }

    open spec fn sample_rate_script(&self, sample_rate_hz: u32, mclk_hz: u32) -> Script {
        if sample_rate_hz == 0 || mclk_hz % sample_rate_hz != 0 {
            Script::Refuse(Error::Unsupported)
        } else {
            match ratio_code(mclk_hz / sample_rate_hz) {
                None => Script::Refuse(Error::Unsupported),
                Some(code) => store(
                    reg::ADCCONTROL5,
                    code,
                    store(reg::DACCONTROL2, code, done()),
                ),
            }
        }
    }

    open spec fn format_script(&self, fmt: I2sFormat, bits: Bits) -> Script {
        load(
            reg::ADCCONTROL4,
            |adc: u8|
                store(
                    reg::ADCCONTROL4,
                    (adc & 0xFC) | framing(fmt),
                    load(
                        reg::DACCONTROL1,
                        |dac: u8|
                            store(
                                reg::DACCONTROL1,
                                (dac & 0xF9) | (framing(fmt) << 1u8),
                                width_script(width(bits)),
                            ),
                    ),
                ),
        )
    }

    open spec fn start_script(&self, module: Module) -> Script {
        load(
            reg::DACCONTROL21,
            |prev: u8|
                store(reg::DACCONTROL21, 0x80, pulse_script(prev, power_script(module))),
        )
    }

    open spec fn stop_script(&self) -> Script {
        stop_module_script(Module::AdcDac)
    }

    open spec fn mute_script(&self, mute: bool) -> Script {
        mute_bit_script(mute, done())
    }

    /// The MCLK : LRCK ratio into both converters' clock registers (single
    /// speed); a ratio the chip has no code for is `Unsupported`, and nothing
    /// is written.
    fn set_sample_rate(&mut self, sample_rate_hz: u32, mclk_hz: u32) -> (r: Result<()>) {
        let ghost script = self.sample_rate_script(sample_rate_hz, mclk_hz);
        let ghost start = self.regs.i2c.log();
        proof {
            lemma_begin(script, start, self.regs.addr);
        }
        if sample_rate_hz == 0 || mclk_hz % sample_rate_hz != 0 {
            return Err(Error::Unsupported);
        }
        let code: u8 = match lrck_ratio_code(mclk_hz / sample_rate_hz) {
            Some(code) => code,
            None => {
                return Err(Error::Unsupported);
            },
        };
        self.regs.put(reg::ADCCONTROL5, code, Ghost(script), Ghost(start))?;
        self.regs.put(reg::DACCONTROL2, code, Ghost(script), Ghost(start))?;
        proof {
            lemma_end(script, start, self.regs.i2c.log(), self.regs.addr, Ok(Seq::empty()));
        }
        Ok(())
    }

    /// Framing and width on both converters: `ADCCONTROL4` bits 1:0 / 4:2,
    /// `DACCONTROL1` bits 2:1 / 5:3.
    fn set_format(&mut self, fmt: I2sFormat, bits: Bits) -> (r: Result<()>) {
        let ghost script = self.format_script(fmt, bits);
        let ghost start = self.regs.i2c.log();
        proof {
            lemma_begin(script, start, self.regs.addr);
        }
        let f: u8 = match fmt {
            I2sFormat::Standard => 0,
            I2sFormat::LeftJustified => 1,
            I2sFormat::Dsp => 3,
        };
        let b: u8 = match bits {
            Bits::B16 => 0x03,
            Bits::B24 => 0x00,
            Bits::B32 => 0x04,
        };
        let adc: u8 = self.regs.get(reg::ADCCONTROL4, Ghost(script), Ghost(start))?;
        self.regs.put(reg::ADCCONTROL4, (adc & 0xFC) | f, Ghost(script), Ghost(start))?;
        let dac: u8 = self.regs.get(reg::DACCONTROL1, Ghost(script), Ghost(start))?;
        self.regs.put(reg::DACCONTROL1, (dac & 0xF9) | (f << 1u8), Ghost(script), Ghost(start))?;
        let adc: u8 = self.regs.get(reg::ADCCONTROL4, Ghost(script), Ghost(start))?;
        self.regs.put(reg::ADCCONTROL4, (adc & 0xE3) | (b << 2u8), Ghost(script), Ghost(start))?;
        let dac: u8 = self.regs.get(reg::DACCONTROL1, Ghost(script), Ghost(start))?;
        self.regs.put(reg::DACCONTROL1, (dac & 0xC7) | (b << 3u8), Ghost(script), Ghost(start))?;
        proof {
            lemma_end(script, start, self.regs.i2c.log(), self.regs.addr, Ok(Seq::empty()));
        }
        Ok(())
    }

    /// Enable the DAC clocks, pulse the state machine if that changed anything,
    /// power the converters asked for, unmute.
    fn start(&mut self, module: Module) -> (r: Result<()>) {
        let ghost script = self.start_script(module);
        let ghost start = self.regs.i2c.log();
        let ghost power = power_script(module);
        proof {
            lemma_begin(script, start, self.regs.addr);
        }
        let prev: u8 = self.regs.get(reg::DACCONTROL21, Ghost(script), Ghost(start))?;
        self.regs.put(reg::DACCONTROL21, 0x80, Ghost(script), Ghost(start))?;
        self.restart_if_changed(prev, Ghost(script), Ghost(start), Ghost(power))?;
        if module != Module::Dac {
            self.regs.put(reg::ADCPOWER, 0x00, Ghost(script), Ghost(start))?;
        }
        if module != Module::Adc {
            self.regs.put(reg::DACPOWER, 0x3C, Ghost(script), Ghost(start))?;
            self.put_mute(false, Ghost(script), Ghost(start), Ghost(done()))?;
        }
        proof {
            lemma_end(script, start, self.regs.i2c.log(), self.regs.addr, Ok(Seq::empty()));
        }
        Ok(())
    }

    /// Both modules down.
    fn stop(&mut self) -> (r: Result<()>) {
        self.stop_module(Module::AdcDac)
    }

    /// `DACCONTROL3` bit 2.
    fn set_mute(&mut self, mute: bool) -> (r: Result<()>) {
        let ghost script = self.mute_script(mute);
        let ghost start = self.regs.i2c.log();
        proof {
            lemma_begin(script, start, self.regs.addr);
        }
        self.put_mute(mute, Ghost(script), Ghost(start), Ghost(done()))?;
        proof {
            lemma_end(script, start, self.regs.i2c.log(), self.regs.addr, Ok(Seq::empty()));
        }
        Ok(())
    }
}

/// Muting refuses nothing, if what follows does not.
proof fn lemma_mute_refuses_nothing(mute: bool, then: Script)
    requires
        refuses_nothing(then),
    ensures
        refuses_nothing(mute_bit_script(mute, then)),
{
    lemma_load_refuses_nothing(mute_bit_script(mute, then));
}

/// The pulse refuses nothing, if what follows does not.
proof fn lemma_pulse_refuses_nothing(prev: u8, then: Script)
    requires
        refuses_nothing(then),
        then is Done || then is Write,
    ensures
        refuses_nothing(pulse_script(prev, then)),
{
    assert(refuses_nothing(store(reg::CHIPPOWER, 0x00, then)));
    lemma_load_refuses_nothing(pulse_script(prev, then));
}

/// What a driver accepts it refuses nowhere: on a bus that does not fail, every
/// call but the choice of an unknown clock ratio succeeds.
pub proof fn lemma_accepted_is_not_refused<I: Bus>(
    chip: Es8388<I>,
    cfg: Config,
    rate_hz: u32,
    mclk_hz: u32,
    fmt: I2sFormat,
    bits: Bits,
    module: Module,
    mute: bool,
)
    ensures
        refuses_nothing(init_script(cfg)),
        rate_hz > 0 && mclk_hz % rate_hz == 0 && ratio_code(mclk_hz / rate_hz) is Some
            ==> refuses_nothing(chip.sample_rate_script(rate_hz, mclk_hz)),
        refuses_nothing(chip.format_script(fmt, bits)),
        refuses_nothing(chip.start_script(module)),
        refuses_nothing(chip.stop_script()),
        refuses_nothing(chip.mute_script(mute)),
{
    lemma_mute_refuses_nothing(mute, done());
    lemma_mute_refuses_nothing(false, done());
    assert(refuses_nothing(chip.format_script(fmt, bits))) by {
        reveal_with_fuel(refuses_nothing, 10);
    }
    assert(rate_hz > 0 && mclk_hz % rate_hz == 0 && ratio_code(mclk_hz / rate_hz) is Some
        ==> refuses_nothing(chip.sample_rate_script(rate_hz, mclk_hz))) by {
        reveal_with_fuel(refuses_nothing, 4);
    }
    let power = power_script(module);
    assert(refuses_nothing(power)) by {
        reveal_with_fuel(refuses_nothing, 3);
    }
    assert forall|prev: u8| refuses_nothing(#[trigger] pulse_script(prev, power)) by {
        lemma_pulse_refuses_nothing(prev, power);
    }
    lemma_load_refuses_nothing(chip.start_script(module));
    let clock = store(reg::DACCONTROL21, 0x9C, done());
    let adc = store(reg::ADCPOWER, 0xFF, clock);
    assert(refuses_nothing(clock));
    assert(refuses_nothing(adc));
    lemma_mute_refuses_nothing(true, adc);
    assert(refuses_nothing(chip.stop_script()));
    let last = store(reg::ADCPOWER, 0x09, done());
    let volume = volume_script(Module::Adc, 0, last);
    assert(refuses_nothing(volume)) by {
        reveal_with_fuel(refuses_nothing, 5);
    }
    lemma_table_refuses_nothing(ADC_PATH@, volume);
    let t4 = store(reg::ADCCONTROL2, cfg.adc_input.code_spec(), stores(ADC_PATH@, volume));
    let t3 = store(reg::ADCCONTROL1, 0xBB, t4);
    let t2 = store(reg::ADCPOWER, 0xFF, t3);
    let t1 = store(reg::DACPOWER, cfg.dac_output.0, t2);
    assert(refuses_nothing(t4));
    assert(refuses_nothing(t3));
    assert(refuses_nothing(t2));
    assert(refuses_nothing(t1));
    lemma_table_refuses_nothing(DAC_PATH@, t1);
    let mode: u8 = if cfg.mode == Mode::Master {
        0x01
    } else {
        0x00
    };
    let body = store(reg::MASTERMODE, mode, stores(DAC_PATH@, t1));
    assert(refuses_nothing(body));
    lemma_table_refuses_nothing(POWER_ON@, body);
}

} // verus!
