//! Calls of one chip or another, and of the register map under them.

use vstd::prelude::*;

use crate::chip::es7210::{self, Es7210, Gain, Mics};
use crate::chip::es7243e::{self, Es7243e};
use crate::chip::es8156::{self, Es8156};
use crate::chip::es8311::{self, Es8311, MicGain};
use crate::chip::es8388::{self, AdcInput, DacOutputs, Es8388};
use crate::chip::script::{
    done, extends, file_answers, lemma_modify_played, lemma_played_on_a_register_file, modify, plain,
    played, registers, store, stores, Script, Transfer,
};
use crate::chip::{lemma_sequence_step_by_step, step_by_step, Bus, I2cRegs, Module, RegOp};
use crate::esp_core::error::{Error, Result};

verus! {

/// On registers that never fail, what went over the bus left them as `script` does
/// when it is played, and `r` is its answer. What the scripts leave is told register
/// by register, chip by chip.
pub open spec fn did(
    script: Script,
    file: Seq<u8>,
    before: Seq<Transfer>,
    after: Seq<Transfer>,
    r: Result<()>,
) -> bool {
    let made = after.skip(before.len() as int);
    file_answers(file, made) ==> {
        &&& plain(r) == played(script, file).answer
        &&& registers(file, made) == played(script, file).file
    }
}

proof fn lemma_did(
    script: Script,
    file: Seq<u8>,
    before: Seq<Transfer>,
    after: Seq<Transfer>,
    address: u8,
    r: Result<()>,
)
    requires
        extends(script, before, after, address, plain(r)),
    ensures
        did(script, file, before, after, r),
{
    if file_answers(file, after.skip(before.len() as int)) {
        lemma_played_on_a_register_file(script, file, before, after, address, plain(r));
    }
}

/// Every other call of an ES8311.
pub proof fn law_es8311_calls<I: Bus>(file: Seq<u8>, cfg: es8311::Config, value: u8, gain: MicGain, r: Result<()>)
    ensures
        forall|chip: &mut Es8311<I>| #[trigger]
            call_ensures(Es8311::<I>::init, (chip, &cfg), r) ==> did(
                es8311::init_script(cfg),
                file,
                chip.regs.i2c.log(),
                final(chip).regs.i2c.log(),
                r,
            ),
        forall|chip: &mut Es8311<I>| #[trigger]
            call_ensures(Es8311::<I>::set_dac_volume_reg, (chip, value), r) ==> did(
                store(0x32, value, done()),
                file,
                chip.regs.i2c.log(),
                final(chip).regs.i2c.log(),
                r,
            ),
        forall|chip: &mut Es8311<I>| #[trigger]
            call_ensures(Es8311::<I>::set_mic_gain, (chip, gain), r) ==> did(
                store(0x16, gain.code_spec(), done()),
                file,
                chip.regs.i2c.log(),
                final(chip).regs.i2c.log(),
                r,
            ),
{
    assert forall|chip: &mut Es8311<I>| #[trigger]
        call_ensures(Es8311::<I>::init, (chip, &cfg), r) implies did(
        es8311::init_script(cfg),
        file,
        chip.regs.i2c.log(),
        final(chip).regs.i2c.log(),
        r,
    ) by {
        lemma_did(
            es8311::init_script(cfg),
            file,
            chip.regs.i2c.log(),
            final(chip).regs.i2c.log(),
            chip.regs.addr,
            r,
        );
    }
    assert forall|chip: &mut Es8311<I>| #[trigger]
        call_ensures(Es8311::<I>::set_dac_volume_reg, (chip, value), r) implies did(
        store(0x32, value, done()),
        file,
        chip.regs.i2c.log(),
        final(chip).regs.i2c.log(),
        r,
    ) by {
        lemma_did(
            store(0x32, value, done()),
            file,
            chip.regs.i2c.log(),
            final(chip).regs.i2c.log(),
            chip.regs.addr,
            r,
        );
    }
    assert forall|chip: &mut Es8311<I>| #[trigger]
        call_ensures(Es8311::<I>::set_mic_gain, (chip, gain), r) implies did(
        store(0x16, gain.code_spec(), done()),
        file,
        chip.regs.i2c.log(),
        final(chip).regs.i2c.log(),
        r,
    ) by {
        lemma_did(
            store(0x16, gain.code_spec(), done()),
            file,
            chip.regs.i2c.log(),
            final(chip).regs.i2c.log(),
            chip.regs.addr,
            r,
        );
    }
}

/// Every other call of an ES8388.
pub proof fn law_es8388_calls<I: Bus>(
    file: Seq<u8>,
    cfg: es8388::Config,
    module: Module,
    half_db: i16,
    a: u8,
    b: u8,
    outputs: DacOutputs,
    input: AdcInput,
    r: Result<()>,
)
    ensures
        forall|chip: &mut Es8388<I>| #[trigger]
            call_ensures(Es8388::<I>::init, (chip, &cfg), r) ==> did(
                es8388::init_script(cfg),
                file,
                chip.regs.i2c.log(),
                final(chip).regs.i2c.log(),
                r,
            ),
        forall|chip: &mut Es8388<I>| #[trigger]
            call_ensures(Es8388::<I>::set_volume, (chip, module, half_db), r) ==> did(
                es8388::volume_script(module, half_db as int, done()),
                file,
                chip.regs.i2c.log(),
                final(chip).regs.i2c.log(),
                r,
            ),
        forall|chip: &mut Es8388<I>| #[trigger]
            call_ensures(Es8388::<I>::set_clock_dividers, (chip, a, b), r) ==> did(
                store(0x08, a, store(0x0D, b, store(0x18, b, done()))),
                file,
                chip.regs.i2c.log(),
                final(chip).regs.i2c.log(),
                r,
            ),
        forall|chip: &mut Es8388<I>| #[trigger]
            call_ensures(Es8388::<I>::set_dac_outputs, (chip, outputs), r) ==> did(
                es8388::outputs_script(outputs),
                file,
                chip.regs.i2c.log(),
                final(chip).regs.i2c.log(),
                r,
            ),
        forall|chip: &mut Es8388<I>| #[trigger]
            call_ensures(Es8388::<I>::set_adc_input, (chip, input), r) ==> did(
                es8388::listen_script(input),
                file,
                chip.regs.i2c.log(),
                final(chip).regs.i2c.log(),
                r,
            ),
        forall|chip: &mut Es8388<I>| #[trigger]
            call_ensures(Es8388::<I>::set_mic_gain, (chip, a), r) ==> did(
                es8388::mic_gain_script(a),
                file,
                chip.regs.i2c.log(),
                final(chip).regs.i2c.log(),
                r,
            ),
        forall|chip: &mut Es8388<I>| #[trigger]
            call_ensures(Es8388::<I>::start_line_bypass, (chip,), r) ==> did(
                es8388::bypass_script(),
                file,
                chip.regs.i2c.log(),
                final(chip).regs.i2c.log(),
                r,
            ),
        forall|chip: &mut Es8388<I>| #[trigger]
            call_ensures(Es8388::<I>::stop_line_bypass, (chip,), r) ==> did(
                stores(seq![(0x2Bu8, 0x80u8), (0x26, 0x00), (0x27, 0x90), (0x2A, 0x90)], done()),
                file,
                chip.regs.i2c.log(),
                final(chip).regs.i2c.log(),
                r,
            ),
        forall|chip: &mut Es8388<I>| #[trigger]
            call_ensures(Es8388::<I>::stop_module, (chip, module), r) ==> did(
                es8388::stop_module_script(module),
                file,
                chip.regs.i2c.log(),
                final(chip).regs.i2c.log(),
                r,
            ),
{
    assert forall|chip: &mut Es8388<I>| #[trigger]
        call_ensures(Es8388::<I>::init, (chip, &cfg), r) implies did(
        es8388::init_script(cfg),
        file,
        chip.regs.i2c.log(),
        final(chip).regs.i2c.log(),
        r,
    ) by {
        lemma_did(
            es8388::init_script(cfg),
            file,
            chip.regs.i2c.log(),
            final(chip).regs.i2c.log(),
            chip.regs.addr,
            r,
        );
    }
    assert forall|chip: &mut Es8388<I>| #[trigger]
        call_ensures(Es8388::<I>::set_volume, (chip, module, half_db), r) implies did(
        es8388::volume_script(module, half_db as int, done()),
        file,
        chip.regs.i2c.log(),
        final(chip).regs.i2c.log(),
        r,
    ) by {
        lemma_did(
            es8388::volume_script(module, half_db as int, done()),
            file,
            chip.regs.i2c.log(),
            final(chip).regs.i2c.log(),
            chip.regs.addr,
            r,
        );
    }
    assert forall|chip: &mut Es8388<I>| #[trigger]
        call_ensures(Es8388::<I>::set_clock_dividers, (chip, a, b), r) implies did(
        store(0x08, a, store(0x0D, b, store(0x18, b, done()))),
        file,
        chip.regs.i2c.log(),
        final(chip).regs.i2c.log(),
        r,
    ) by {
        lemma_did(
            store(0x08, a, store(0x0D, b, store(0x18, b, done()))),
            file,
            chip.regs.i2c.log(),
            final(chip).regs.i2c.log(),
            chip.regs.addr,
            r,
        );
    }
    assert forall|chip: &mut Es8388<I>| #[trigger]
        call_ensures(Es8388::<I>::set_dac_outputs, (chip, outputs), r) implies did(
        es8388::outputs_script(outputs),
        file,
        chip.regs.i2c.log(),
        final(chip).regs.i2c.log(),
        r,
    ) by {
        lemma_did(
            es8388::outputs_script(outputs),
            file,
            chip.regs.i2c.log(),
            final(chip).regs.i2c.log(),
            chip.regs.addr,
            r,
        );
    }
    assert forall|chip: &mut Es8388<I>| #[trigger]
        call_ensures(Es8388::<I>::set_adc_input, (chip, input), r) implies did(
        es8388::listen_script(input),
        file,
        chip.regs.i2c.log(),
        final(chip).regs.i2c.log(),
        r,
    ) by {
        lemma_did(
            es8388::listen_script(input),
            file,
            chip.regs.i2c.log(),
            final(chip).regs.i2c.log(),
            chip.regs.addr,
            r,
        );
    }
    assert forall|chip: &mut Es8388<I>| #[trigger]
        call_ensures(Es8388::<I>::set_mic_gain, (chip, a), r) implies did(
        es8388::mic_gain_script(a),
        file,
        chip.regs.i2c.log(),
        final(chip).regs.i2c.log(),
        r,
    ) by {
        lemma_did(
            es8388::mic_gain_script(a),
            file,
            chip.regs.i2c.log(),
            final(chip).regs.i2c.log(),
            chip.regs.addr,
            r,
        );
    }
    assert forall|chip: &mut Es8388<I>| #[trigger]
        call_ensures(Es8388::<I>::start_line_bypass, (chip,), r) implies did(
        es8388::bypass_script(),
        file,
        chip.regs.i2c.log(),
        final(chip).regs.i2c.log(),
        r,
    ) by {
        lemma_did(
            es8388::bypass_script(),
            file,
            chip.regs.i2c.log(),
            final(chip).regs.i2c.log(),
            chip.regs.addr,
            r,
        );
    }
    assert(es8388::BYPASS_OFF@ =~= seq![
        (0x2Bu8, 0x80u8),
        (0x26, 0x00),
        (0x27, 0x90),
        (0x2A, 0x90),
    ]);
    assert forall|chip: &mut Es8388<I>| #[trigger]
        call_ensures(Es8388::<I>::stop_line_bypass, (chip,), r) implies did(
        stores(seq![(0x2Bu8, 0x80u8), (0x26, 0x00), (0x27, 0x90), (0x2A, 0x90)], done()),
        file,
        chip.regs.i2c.log(),
        final(chip).regs.i2c.log(),
        r,
    ) by {
        lemma_did(
            stores(seq![(0x2Bu8, 0x80u8), (0x26, 0x00), (0x27, 0x90), (0x2A, 0x90)], done()),
            file,
            chip.regs.i2c.log(),
            final(chip).regs.i2c.log(),
            chip.regs.addr,
            r,
        );
    }
    assert forall|chip: &mut Es8388<I>| #[trigger]
        call_ensures(Es8388::<I>::stop_module, (chip, module), r) implies did(
        es8388::stop_module_script(module),
        file,
        chip.regs.i2c.log(),
        final(chip).regs.i2c.log(),
        r,
    ) by {
        lemma_did(
            es8388::stop_module_script(module),
            file,
            chip.regs.i2c.log(),
            final(chip).regs.i2c.log(),
            chip.regs.addr,
            r,
        );
    }
}

/// Every other call of an ES7210.
pub proof fn law_es7210_calls<I: Bus>(file: Seq<u8>, cfg: es7210::Config, mics: Mics, gain: Gain, r: Result<()>)
    ensures
        forall|chip: &mut Es7210<I>| #[trigger]
            call_ensures(Es7210::<I>::init, (chip, &cfg), r) ==> did(
                es7210::init_script(cfg),
                file,
                chip.regs.i2c.log(),
                final(chip).regs.i2c.log(),
                r,
            ),
        forall|chip: &mut Es7210<I>| #[trigger]
            call_ensures(Es7210::<I>::select_mics, (chip, mics), r) ==> did(
                es7210::mics_script(mics, chip.gain, chip.tdm_from_mics, done()),
                file,
                chip.regs.i2c.log(),
                final(chip).regs.i2c.log(),
                r,
            ),
        forall|chip: &mut Es7210<I>| #[trigger]
            call_ensures(Es7210::<I>::set_gain, (chip, mics, gain), r) ==> did(
                es7210::gains_script(mics, gain, done()),
                file,
                chip.regs.i2c.log(),
                final(chip).regs.i2c.log(),
                r,
            ),
{
    assert forall|chip: &mut Es7210<I>| #[trigger]
        call_ensures(Es7210::<I>::init, (chip, &cfg), r) implies did(
        es7210::init_script(cfg),
        file,
        chip.regs.i2c.log(),
        final(chip).regs.i2c.log(),
        r,
    ) by {
        lemma_did(
            es7210::init_script(cfg),
            file,
            chip.regs.i2c.log(),
            final(chip).regs.i2c.log(),
            chip.regs.addr,
            r,
        );
    }
    assert forall|chip: &mut Es7210<I>| #[trigger]
        call_ensures(Es7210::<I>::select_mics, (chip, mics), r) implies did(
        es7210::mics_script(mics, chip.gain, chip.tdm_from_mics, done()),
        file,
        chip.regs.i2c.log(),
        final(chip).regs.i2c.log(),
        r,
    ) by {
        lemma_did(
            es7210::mics_script(mics, chip.gain, chip.tdm_from_mics, done()),
            file,
            chip.regs.i2c.log(),
            final(chip).regs.i2c.log(),
            chip.regs.addr,
            r,
        );
    }
    assert forall|chip: &mut Es7210<I>| #[trigger]
        call_ensures(Es7210::<I>::set_gain, (chip, mics, gain), r) implies did(
        es7210::gains_script(mics, gain, done()),
        file,
        chip.regs.i2c.log(),
        final(chip).regs.i2c.log(),
        r,
    ) by {
        lemma_did(
            es7210::gains_script(mics, gain, done()),
            file,
            chip.regs.i2c.log(),
            final(chip).regs.i2c.log(),
            chip.regs.addr,
            r,
        );
    }
}

/// Every other call of an ES8156.
pub proof fn law_es8156_calls<I: Bus>(file: Seq<u8>, value: u8, r: Result<()>)
    ensures
        forall|chip: &mut Es8156<I>| #[trigger]
            call_ensures(Es8156::<I>::init, (chip,), r) ==> did(
                stores(es8156::INIT@, done()),
                file,
                chip.regs.i2c.log(),
                final(chip).regs.i2c.log(),
                r,
            ),
        forall|chip: &mut Es8156<I>| #[trigger]
            call_ensures(Es8156::<I>::set_volume_reg, (chip, value), r) ==> did(
                store(0x14, value, done()),
                file,
                chip.regs.i2c.log(),
                final(chip).regs.i2c.log(),
                r,
            ),
{
    assert forall|chip: &mut Es8156<I>| #[trigger]
        call_ensures(Es8156::<I>::init, (chip,), r) implies did(
        stores(es8156::INIT@, done()),
        file,
        chip.regs.i2c.log(),
        final(chip).regs.i2c.log(),
        r,
    ) by {
        lemma_did(
            stores(es8156::INIT@, done()),
            file,
            chip.regs.i2c.log(),
            final(chip).regs.i2c.log(),
            chip.regs.addr,
            r,
        );
    }
    assert forall|chip: &mut Es8156<I>| #[trigger]
        call_ensures(Es8156::<I>::set_volume_reg, (chip, value), r) implies did(
        store(0x14, value, done()),
        file,
        chip.regs.i2c.log(),
        final(chip).regs.i2c.log(),
        r,
    ) by {
        lemma_did(
            store(0x14, value, done()),
            file,
            chip.regs.i2c.log(),
            final(chip).regs.i2c.log(),
            chip.regs.addr,
            r,
        );
    }
}

/// Every other call of an ES7243E.
pub proof fn law_es7243e_calls<I: Bus>(file: Seq<u8>, code: u8, r: Result<()>)
    ensures
        forall|chip: &mut Es7243e<I>| #[trigger]
            call_ensures(Es7243e::<I>::init, (chip,), r) ==> did(
                stores(es7243e::INIT@, done()),
                file,
                chip.regs.i2c.log(),
                final(chip).regs.i2c.log(),
                r,
            ),
        forall|chip: &mut Es7243e<I>| #[trigger]
            call_ensures(Es7243e::<I>::set_pga_code, (chip, code), r) ==> did(
                store(0x20, code, store(0x21, code, done())),
                file,
                chip.regs.i2c.log(),
                final(chip).regs.i2c.log(),
                r,
            ),
{
    assert forall|chip: &mut Es7243e<I>| #[trigger]
        call_ensures(Es7243e::<I>::init, (chip,), r) implies did(
        stores(es7243e::INIT@, done()),
        file,
        chip.regs.i2c.log(),
        final(chip).regs.i2c.log(),
        r,
    ) by {
        lemma_did(
            stores(es7243e::INIT@, done()),
            file,
            chip.regs.i2c.log(),
            final(chip).regs.i2c.log(),
            chip.regs.addr,
            r,
        );
    }
    assert forall|chip: &mut Es7243e<I>| #[trigger]
        call_ensures(Es7243e::<I>::set_pga_code, (chip, code), r) implies did(
        store(0x20, code, store(0x21, code, done())),
        file,
        chip.regs.i2c.log(),
        final(chip).regs.i2c.log(),
        r,
    ) by {
        lemma_did(
            store(0x20, code, store(0x21, code, done())),
            file,
            chip.regs.i2c.log(),
            final(chip).regs.i2c.log(),
            chip.regs.addr,
            r,
        );
    }
}

/// Every call of the register map: a write sends the register and its value, a read
/// the register; what fails is a hardware fault. An update reads, and writes the
/// value with the bits under the mask replaced; and a sequence goes over the bus
/// step by step.
pub proof fn law_register_map<I: Bus>(
    reg: u8,
    value: u8,
    mask: u8,
    r: Result<()>,
    v: Result<u8>,
    table: &[RegOp],
    n: Result<usize>,
    file: Seq<u8>,
)
    requires
        file.len() == 256,
    ensures
        forall|m: &mut I2cRegs<I>| #[trigger]
            call_ensures(I2cRegs::<I>::write, (m, reg, value), r) ==> {
                &&& final(m).i2c.log() == m.i2c.log().push(
                    Transfer::Write { address: m.addr, sent: seq![reg, value], ok: r is Ok },
                )
                &&& r is Err ==> r == Err::<(), Error>(Error::Hardware)
            },
        forall|m: &mut I2cRegs<I>| #[trigger]
            call_ensures(I2cRegs::<I>::read, (m, reg), v) ==> {
                &&& v matches Ok(x) ==> final(m).i2c.log() == m.i2c.log().push(
                    Transfer::Read { address: m.addr, sent: seq![reg], reply: Some(x) },
                )
                &&& v is Err ==> v == Err::<u8, Error>(Error::Hardware)
            },
        forall|m: &mut I2cRegs<I>| #[trigger]
            call_ensures(I2cRegs::<I>::update, (m, reg, mask, value), r) && file_answers(
                file,
                final(m).i2c.log().skip(m.i2c.log().len() as int),
            ) ==> {
                let after = registers(file, final(m).i2c.log().skip(m.i2c.log().len() as int));
                &&& r is Ok
                &&& after == file.update(reg as int, after[reg as int])
                &&& after[reg as int] & mask == value & mask
                &&& after[reg as int] & !mask == file[reg as int] & !mask
            },
        forall|m: &mut I2cRegs<I>| #[trigger]
            call_ensures(I2cRegs::<I>::apply, (m, table), n) && n is Ok ==> step_by_step(
                table@,
                final(m).i2c.log().skip(m.i2c.log().len() as int),
                m.addr,
            ),
{
    assert forall|m: &mut I2cRegs<I>| #[trigger]
        call_ensures(I2cRegs::<I>::update, (m, reg, mask, value), r) && file_answers(
            file,
            final(m).i2c.log().skip(m.i2c.log().len() as int),
        ) implies {
        let after = registers(file, final(m).i2c.log().skip(m.i2c.log().len() as int));
        &&& r is Ok
        &&& after == file.update(reg as int, after[reg as int])
        &&& after[reg as int] & mask == value & mask
        &&& after[reg as int] & !mask == file[reg as int] & !mask
    } by {
        let script = modify(reg, mask, value, done());
        lemma_played_on_a_register_file(
            script,
            file,
            m.i2c.log(),
            final(m).i2c.log(),
            m.addr,
            plain(r),
        );
        lemma_modify_played(reg, mask, value, done(), file);
        crate::chip::script::lemma_other_bits_stay(file[reg as int], mask, value);
    }
    assert forall|m: &mut I2cRegs<I>| #[trigger]
        call_ensures(I2cRegs::<I>::apply, (m, table), n) && n is Ok implies step_by_step(
        table@,
        final(m).i2c.log().skip(m.i2c.log().len() as int),
        m.addr,
    ) by {
        lemma_sequence_step_by_step(table@, m.i2c.log(), final(m).i2c.log(), m.addr);
    }
}

} // verus!
