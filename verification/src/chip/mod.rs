//! Codec chips as register data.
//!
//! A codec chip is an I2C register map and a handful of sequences: bring-up,
//! clocking for a sample rate, the serial-port format, start, stop, gain and
//! mute. Each chip module here carries those as data (register constants, a
//! clock-coefficient table, ordered write lists) with the arithmetic the
//! vendor's drivers perform on them. What a driver does is stated as a
//! [`script`](script::Script) over the bus's [`log`](Bus::log).
//!
//! What a driver here does not do: touch a GPIO (the PA-enable pin is the
//! board's, handed to the firmware), own a clock (the bus, which is the caller's,
//! does the waiting), or map "volume 0..100" to a register through a hidden curve: the register
//! value and the dB it means are the interface, and a product puts its own
//! taste on top.

use vstd::prelude::*;

use crate::esp_core::error::{Error, Result};
use script::{
    advanced, carries_out, done, extends, lemma_begin, lemma_end, lemma_first_exchange,
    lemma_nothing_after_the_end, lemma_one_more, modify, pause, plain, progress, replaced, store,
    stores, written, Script, Transfer,
};

pub mod es7210;
pub mod es7243e;
pub mod es8156;
pub mod es8311;
pub mod es8388;
pub mod laws;
pub mod register_file;
pub mod script;

verus! {

/// A transfer that the bus could not complete.
#[derive(Debug, Clone, Copy, PartialEq, Eq, Structural)]
pub struct BusFault;

/// The bus a chip sits on. Nothing is known of what comes back over it; what
/// was handed to it, and what came back, is its log, the pauses in between
/// included.
pub trait Bus {
    /// The transfers and pauses made so far, the oldest first.
    open spec fn log(&self) -> Seq<Transfer> {
        Seq::empty()
    }

    /// Send `bytes` to the device at the 7-bit `address`.
    fn write(&mut self, address: u8, bytes: &[u8]) -> (r: core::result::Result<(), BusFault>)
        ensures
            final(self).log() == old(self).log().push(
                Transfer::Write { address, sent: bytes@, ok: r is Ok },
            ),
    ;

    /// Send `bytes` to the device at the 7-bit `address` and read one byte
    /// back, in one transaction.
    fn write_read(&mut self, address: u8, bytes: &[u8]) -> (r: core::result::Result<u8, BusFault>)
        ensures
            final(self).log() == old(self).log().push(
                Transfer::Read {
                    address,
                    sent: bytes@,
                    reply: match r {
                        Ok(v) => Some(v),
                        Err(_) => None,
                    },
                },
            ),
    ;

    /// Wait `ms` milliseconds before the next transfer.
    fn pause(&mut self, ms: u16)
        ensures
            final(self).log() == old(self).log().push(Transfer::Pause { ms }),
    ;
}

/// One register write.
#[derive(Debug, Clone, Copy, PartialEq, Eq, Structural)]
pub struct Register {
    /// Register address.
    pub addr: u8,
    /// Value.
    pub value: u8,
}

impl Register {
    /// Build a register write.
    pub fn new(addr: u8, value: u8) -> (r: Self)
        ensures
            r == (Register { addr, value }),
    {
        Register { addr, value }
    }
}

/// One step of a register sequence.
#[derive(Debug, Clone, Copy, PartialEq, Eq, Structural)]
pub enum RegOp {
    /// Write `value` to `addr`.
    Write {
        /// Register address.
        addr: u8,
        /// Value.
        value: u8,
    },
    /// Read `addr`, replace the bits under `mask` with `value`'s, write it back.
    Update {
        /// Register address.
        addr: u8,
        /// The bits that change.
        mask: u8,
        /// Their new value (masked).
        value: u8,
    },
    /// Wait this many milliseconds before the next step.
    DelayMs(u16),
}

/// Which converters a start or stop applies to.
#[derive(Debug, Clone, Copy, PartialEq, Eq, Structural)]
pub enum Module {
    /// Capture only.
    Adc,
    /// Playback only.
    Dac,
    /// Both.
    AdcDac,
}

/// Who drives the serial clocks.
#[derive(Debug, Clone, Copy, PartialEq, Eq, Structural)]
pub enum Mode {
    /// The chip generates BCLK / LRCK.
    Master,
    /// The I2S peripheral on the other side does.
    Slave,
}

/// Serial data port framing.
#[derive(Debug, Clone, Copy, PartialEq, Eq, Structural)]
pub enum I2sFormat {
    /// Philips I2S (one BCLK delay after LRCK).
    Standard,
    /// Left-justified (the vendor drivers treat right-justified the same).
    LeftJustified,
    /// DSP / PCM mode A.
    Dsp,
}

/// Bits per sample slot on the serial port.
#[derive(Debug, Clone, Copy, PartialEq, Eq, Structural)]
pub enum Bits {
    /// 16.
    B16,
    /// 24.
    B24,
    /// 32.
    B32,
}

/// The register map every codec chip exposes over I2C: one address byte, one
/// data byte, and a read that is a write of the address followed by a read of
/// the value.
pub struct I2cRegs<I> {
    /// The bus.
    pub i2c: I,
    /// The chip's 7-bit address.
    pub addr: u8,
}

impl<I: Bus> I2cRegs<I> {
    /// Talk to the chip at 7-bit address `addr`.
    pub fn new(i2c: I, addr: u8) -> (r: Self)
        ensures
            r.i2c == i2c,
            r.addr == addr,
    {
        I2cRegs { i2c, addr }
    }

    /// The 7-bit bus address.
    pub fn addr(&self) -> (r: u8)
        ensures
            r == self.addr,
    {
        self.addr
    }

    /// Give the bus back.
    pub fn release(self) -> (r: I)
        ensures
            r == self.i2c,
    {
        self.i2c
    }

    /// The bus, borrowed.
    pub fn bus(&self) -> (r: &I)
        ensures
            *r == self.i2c,
    {
        &self.i2c
    }

    /// The bus, borrowed mutably (for a transaction the driver does not wrap).
    pub fn bus_mut(&mut self) -> (r: &mut I)
        ensures
            *r == old(self).i2c,
            *final(self) == (I2cRegs { i2c: *final(r), ..*old(self) }),
    {
        &mut self.i2c
    }

    /// Write one register.
    pub fn write(&mut self, reg: u8, value: u8) -> (r: Result<()>)
        ensures
            final(self).addr == old(self).addr,
            final(self).i2c.log() == old(self).i2c.log().push(
                Transfer::Write { address: old(self).addr, sent: seq![reg, value], ok: r is Ok },
            ),
            r matches Err(e) ==> e == Error::Hardware,
    {
        let frame: [u8; 2] = [reg, value];
        let answer = self.i2c.write(self.addr, frame.as_slice());
        assert(frame@ =~= seq![reg, value]);
        match answer {
            Ok(_) => Ok(()),
            Err(_) => Err(Error::Hardware),
        }
    }

    /// Read one register.
    pub fn read(&mut self, reg: u8) -> (r: Result<u8>)
        ensures
            final(self).addr == old(self).addr,
            final(self).i2c.log() == old(self).i2c.log().push(
                Transfer::Read {
                    address: old(self).addr,
                    sent: seq![reg],
                    reply: match r {
                        Ok(v) => Some(v),
                        Err(_) => None,
                    },
                },
            ),
            r matches Err(e) ==> e == Error::Hardware,
    {
        let frame: [u8; 1] = [reg];
        let answer = self.i2c.write_read(self.addr, frame.as_slice());
        assert(frame@ =~= seq![reg]);
        match answer {
            Ok(v) => Ok(v),
            Err(_) => Err(Error::Hardware),
        }
    }

    /// What is left of `script`, begun at `start`.
    pub open spec fn rest(self, script: Script, start: Seq<Transfer>) -> Option<Script> {
        progress(script, start, self.i2c.log(), self.addr)
    }

    /// Write the register that `script` asks for next.
    pub(crate) fn put(
        &mut self,
        reg: u8,
        value: u8,
        Ghost(script): Ghost<Script>,
        Ghost(start): Ghost<Seq<Transfer>>,
    ) -> (r: Result<()>)
        requires
            old(self).rest(script, start) is Some,
            old(self).rest(script, start)->0 is Write,
            old(self).rest(script, start)->0->Write_reg == reg,
            old(self).rest(script, start)->0->Write_value == value,
        ensures
            final(self).addr == old(self).addr,
            old(self).i2c.log().is_prefix_of(final(self).i2c.log()),
            final(self).i2c.log().len() == old(self).i2c.log().len() + 1,
            r is Ok ==> final(self).rest(script, start) == Some(
                *(old(self).rest(script, start)->0->Write_then),
            ),
            r matches Err(e) ==> e == Error::Hardware && extends(
                script,
                start,
                final(self).i2c.log(),
                old(self).addr,
                Err(e),
            ),
    {
        let ghost log = self.i2c.log();
        let r: Result<()> = self.write(reg, value);
        proof {
            lemma_one_more(script, start, log, self.i2c.log().last(), self.addr);
        }
        r
    }

    /// Read the register that `script` asks for next.
    pub(crate) fn get(
        &mut self,
        reg: u8,
        Ghost(script): Ghost<Script>,
        Ghost(start): Ghost<Seq<Transfer>>,
    ) -> (r: Result<u8>)
        requires
            old(self).rest(script, start) is Some,
            old(self).rest(script, start)->0 is Read,
            old(self).rest(script, start)->0->Read_reg == reg,
        ensures
            final(self).addr == old(self).addr,
            old(self).i2c.log().is_prefix_of(final(self).i2c.log()),
            final(self).i2c.log().len() == old(self).i2c.log().len() + 1,
            r matches Ok(v) ==> final(self).i2c.log().last() == (Transfer::Read {
                address: old(self).addr,
                sent: seq![reg],
                reply: Some(v),
            }),
            r is Err ==> final(self).i2c.log().last() == (Transfer::Read {
                address: old(self).addr,
                sent: seq![reg],
                reply: None,
            }),
            r matches Ok(v) ==> final(self).rest(script, start) == Some(
                (old(self).rest(script, start)->0->Read_next)(v),
            ),
            r matches Err(e) ==> e == Error::Hardware && extends(
                script,
                start,
                final(self).i2c.log(),
                old(self).addr,
                Err(e),
            ),
    {
        let ghost log = self.i2c.log();
        let r: Result<u8> = self.read(reg);
        proof {
            lemma_one_more(script, start, log, self.i2c.log().last(), self.addr);
        }
        r
    }

    /// Replace bits of a register, as `script` asks for next.
    pub(crate) fn change(
        &mut self,
        reg: u8,
        mask: u8,
        value: u8,
        Ghost(script): Ghost<Script>,
        Ghost(start): Ghost<Seq<Transfer>>,
        Ghost(then): Ghost<Script>,
    ) -> (r: Result<()>)
        requires
            old(self).rest(script, start) == Some(modify(reg, mask, value, then)),
        ensures
            final(self).addr == old(self).addr,
            old(self).i2c.log().is_prefix_of(final(self).i2c.log()),
            old(self).i2c.log().len() < final(self).i2c.log().len() <= old(self).i2c.log().len() + 2,
            r is Ok ==> final(self).i2c.log().len() == old(self).i2c.log().len() + 2,
            r is Ok ==> final(self).rest(script, start) == Some(then),
            r matches Err(e) ==> e == Error::Hardware && extends(
                script,
                start,
                final(self).i2c.log(),
                old(self).addr,
                Err(e),
            ),
    {
        let held: u8 = self.get(reg, Ghost(script), Ghost(start))?;
        self.put(reg, (held & !mask) | (value & mask), Ghost(script), Ghost(start))
    }

    /// Write the registers of `table`, as `script` asks for next.
    pub(crate) fn put_all(
        &mut self,
        table: &[(u8, u8)],
        Ghost(script): Ghost<Script>,
        Ghost(start): Ghost<Seq<Transfer>>,
        Ghost(then): Ghost<Script>,
    ) -> (r: Result<()>)
        requires
            old(self).rest(script, start) == Some(stores(table@, then)),
        ensures
            final(self).addr == old(self).addr,
            old(self).i2c.log().is_prefix_of(final(self).i2c.log()),
            final(self).i2c.log().len() <= old(self).i2c.log().len() + table@.len(),
            r is Ok ==> final(self).i2c.log().len() == old(self).i2c.log().len() + table@.len(),
            r is Ok ==> final(self).rest(script, start) == Some(then),
            r matches Err(e) ==> e == Error::Hardware && extends(
                script,
                start,
                final(self).i2c.log(),
                old(self).addr,
                Err(e),
            ),
    {
        let mut i: usize = 0;
        assert(table@.skip(0) =~= table@);
        while i < table.len()
            invariant
                i <= table@.len(),
                self.addr == old(self).addr,
                old(self).i2c.log().is_prefix_of(self.i2c.log()),
                self.i2c.log().len() == old(self).i2c.log().len() + i,
                self.rest(script, start) == Some(stores(table@.skip(i as int), then)),
            decreases table@.len() - i,
        {
            assert(table@.skip(i as int).skip(1) =~= table@.skip(i + 1));
            self.put(table[i].0, table[i].1, Ghost(script), Ghost(start))?;
            i += 1;
        }
        Ok(())
    }

    /// Replace the bits under `mask` with `value`'s (the vendor drivers'
    /// `update_reg_bit`: `(old & !mask) | (value & mask)`).
    pub fn update(&mut self, reg: u8, mask: u8, value: u8) -> (r: Result<()>)
        ensures
            final(self).addr == old(self).addr,
            extends(
                modify(reg, mask, value, done()),
                old(self).i2c.log(),
                final(self).i2c.log(),
                old(self).addr,
                plain(r),
            ),
    {
        let ghost script = modify(reg, mask, value, done());
        let ghost start = self.i2c.log();
        proof {
            lemma_begin(script, start, self.addr);
        }
        self.change(reg, mask, value, Ghost(script), Ghost(start), Ghost(done()))?;
        proof {
            lemma_end(script, start, self.i2c.log(), self.addr, Ok(Seq::empty()));
        }
        Ok(())
    }

    /// Pause, as `script` asks for next.
    pub(crate) fn wait_for(
        &mut self,
        ms: u16,
        Ghost(script): Ghost<Script>,
        Ghost(start): Ghost<Seq<Transfer>>,
    )
        requires
            old(self).rest(script, start) is Some,
            old(self).rest(script, start)->0 is Pause,
            old(self).rest(script, start)->0->Pause_ms == ms,
        ensures
            final(self).addr == old(self).addr,
            final(self).i2c.log() == old(self).i2c.log().push(Transfer::Pause { ms }),
            final(self).rest(script, start) == Some(
                *(old(self).rest(script, start)->0->Pause_then),
            ),
    {
        let ghost log = self.i2c.log();
        self.i2c.pause(ms);
        proof {
            lemma_one_more(script, start, log, Transfer::Pause { ms }, self.addr);
        }
    }

    /// Run a register sequence. The bus pauses at each [`RegOp::DelayMs`] step,
    /// before the step that follows. Returns the number of registers written.
    pub fn apply(&mut self, table: &[RegOp]) -> (r: Result<usize>)
        ensures
            final(self).addr == old(self).addr,
            extends(
                sequence(table@, done()),
                old(self).i2c.log(),
                final(self).i2c.log(),
                old(self).addr,
                match r {
                    Ok(_) => Ok(Seq::empty()),
                    Err(e) => Err(e),
                },
            ),
            r matches Ok(n) ==> n == written_by(table@),
    {
        let ghost script = sequence(table@, done());
        let ghost start = self.i2c.log();
        proof {
            lemma_begin(script, start, self.addr);
            assert(table@.skip(0) =~= table@);
            assert(table@.take(0) =~= Seq::<RegOp>::empty());
        }
        let mut written: usize = 0;
        let mut i: usize = 0;
        while i < table.len()
            invariant
                written <= i <= table@.len(),
                written == written_by(table@.take(i as int)),
                self.addr == old(self).addr,
                start == old(self).i2c.log(),
                script == sequence(table@, done()),
                self.rest(script, start) == Some(sequence(table@.skip(i as int), done())),
            decreases table@.len() - i,
        {
            let ghost then = sequence(table@.skip(i + 1), done());
            proof {
                assert(table@.skip(i as int).skip(1) =~= table@.skip(i + 1));
                assert(table@.take(i + 1).drop_last() =~= table@.take(i as int));
            }
            match table[i] {
                RegOp::Write { addr, value } => {
                    self.put(addr, value, Ghost(script), Ghost(start))?;
                    written += 1;
                },
                RegOp::Update { addr, mask, value } => {
                    self.change(addr, mask, value, Ghost(script), Ghost(start), Ghost(then))?;
                    written += 1;
                },
                RegOp::DelayMs(ms) => {
                    self.wait_for(ms, Ghost(script), Ghost(start));
                },
            }
            i += 1;
        }
        proof {
            assert(table@.take(i as int) =~= table@);
            lemma_end(script, start, self.i2c.log(), self.addr, Ok(Seq::empty()));
        }
        Ok(written)
    }
}

/// The script of a register sequence.
pub open spec fn sequence(table: Seq<RegOp>, then: Script) -> Script
    decreases table.len(),
{
    if table.len() == 0 {
        then
    } else {
        let rest = sequence(table.skip(1), then);
        match table[0] {
            RegOp::Write { addr, value } => store(addr, value, rest),
            RegOp::Update { addr, mask, value } => modify(addr, mask, value, rest),
            RegOp::DelayMs(ms) => pause(ms, rest),
        }
    }
}

/// Registers that a sequence writes.
pub open spec fn written_by(table: Seq<RegOp>) -> nat
    decreases table.len(),
{
    if table.len() == 0 {
        0
    } else {
        written_by(table.drop_last()) + if table.last() is DelayMs {
            0nat
        } else {
            1nat
        }
    }
}

/// What went over the bus is `table`, step by step: a write for a write, a read
/// and the write of its value with the bits replaced for an update, a pause for
/// a delay, and nothing else.
pub open spec fn step_by_step(table: Seq<RegOp>, made: Seq<Transfer>, address: u8) -> bool
    decreases table.len(),
{
    if table.len() == 0 {
        made.len() == 0
    } else {
        match table[0] {
            RegOp::Write { addr, value } => {
                &&& made.len() >= 1
                &&& made[0] == written((addr, value), address)
                &&& step_by_step(table.skip(1), made.skip(1), address)
            },
            RegOp::Update { addr, mask, value } => {
                &&& made.len() >= 2
                &&& made[0] == (Transfer::Read {
                    address,
                    sent: seq![addr],
                    reply: Some(made[0]->reply->0),
                })
                &&& made[1] == written(
                    (addr, replaced(made[0]->reply->0, mask, value)),
                    address,
                )
                &&& step_by_step(table.skip(1), made.skip(2), address)
            },
            RegOp::DelayMs(ms) => {
                &&& made.len() >= 1
                &&& made[0] == (Transfer::Pause { ms })
                &&& step_by_step(table.skip(1), made.skip(1), address)
            },
        }
    }
}

/// A sequence that was run to its end went over the bus step by step, each pause
/// in its place.
pub proof fn lemma_sequence_step_by_step(
    table: Seq<RegOp>,
    before: Seq<Transfer>,
    after: Seq<Transfer>,
    address: u8,
)
    requires
        extends(sequence(table, done()), before, after, address, Ok(Seq::empty())),
    ensures
        step_by_step(table, after.skip(before.len() as int), address),
{
    lemma_steps_made(table, after.skip(before.len() as int), address);
}

proof fn lemma_steps_made(table: Seq<RegOp>, made: Seq<Transfer>, address: u8)
    requires
        carries_out(sequence(table, done()), made, address, Ok(Seq::empty())),
    ensures
        step_by_step(table, made, address),
    decreases table.len(),
{
    let script = sequence(table, done());
    if table.len() == 0 {
        lemma_nothing_after_the_end(script, made, address);
    } else {
        lemma_first_exchange(script, made, address, Seq::empty());
        if table[0] is Update {
            let then = advanced(script, made[0], address)->0;
            lemma_first_exchange(then, made.skip(1), address, Seq::empty());
            assert(made.skip(1).skip(1) =~= made.skip(2));
            lemma_steps_made(table.skip(1), made.skip(2), address);
        } else {
            lemma_steps_made(table.skip(1), made.skip(1), address);
        }
    }
}

/// What a firmware asks of any codec chip, whichever one the board carries.
pub trait CodecChip {
    /// The log of the chip's bus.
    spec fn log(&self) -> Seq<Transfer>;

    /// The chip's 7-bit address.
    spec fn address(&self) -> u8;

    /// What [`set_sample_rate`](Self::set_sample_rate) does.
    spec fn sample_rate_script(&self, sample_rate_hz: u32, mclk_hz: u32) -> Script;

    /// What [`set_format`](Self::set_format) does.
    spec fn format_script(&self, fmt: I2sFormat, bits: Bits) -> Script;

    /// What [`start`](Self::start) does.
    spec fn start_script(&self, module: Module) -> Script;

    /// What [`stop`](Self::stop) does.
    spec fn stop_script(&self) -> Script;

    /// What [`set_mute`](Self::set_mute) does.
    spec fn mute_script(&self, mute: bool) -> Script;

    /// Clock the converters for `sample_rate_hz` from a master clock of
    /// `mclk_hz` (a chip supports only the pairs in its coefficient table).
    fn set_sample_rate(&mut self, sample_rate_hz: u32, mclk_hz: u32) -> (r: Result<()>)
        ensures
            final(self).address() == old(self).address(),
            extends(
                old(self).sample_rate_script(sample_rate_hz, mclk_hz),
                old(self).log(),
                final(self).log(),
                old(self).address(),
                plain(r),
            ),
    ;

    /// Serial port framing and slot width.
    fn set_format(&mut self, fmt: I2sFormat, bits: Bits) -> (r: Result<()>)
        ensures
            final(self).address() == old(self).address(),
            extends(
                old(self).format_script(fmt, bits),
                old(self).log(),
                final(self).log(),
                old(self).address(),
                plain(r),
            ),
    ;

    /// Power the converters up and unmute the port.
    fn start(&mut self, module: Module) -> (r: Result<()>)
        ensures
            final(self).address() == old(self).address(),
            extends(
                old(self).start_script(module),
                old(self).log(),
                final(self).log(),
                old(self).address(),
                plain(r),
            ),
    ;

    /// Power down.
    fn stop(&mut self) -> (r: Result<()>)
        ensures
            final(self).address() == old(self).address(),
            extends(
                old(self).stop_script(),
                old(self).log(),
                final(self).log(),
                old(self).address(),
                plain(r),
            ),
    ;

    /// Mute without changing gain.
    fn set_mute(&mut self, mute: bool) -> (r: Result<()>)
        ensures
            final(self).address() == old(self).address(),
            extends(
                old(self).mute_script(mute),
                old(self).log(),
                final(self).log(),
                old(self).address(),
                plain(r),
            ),
    ;
}

} // verus!
