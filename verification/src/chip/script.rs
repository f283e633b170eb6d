//! What a driver does on the bus, as a script: the registers it writes and
//! reads and the pauses it makes, in order, where what it writes may depend on
//! what it read.

use vstd::prelude::*;

use crate::esp_core::error::{Error, Result};

verus! {

/// One exchange with a chip, as it went over the bus.
pub enum Transfer {
    /// Bytes sent to the device at `address`.
    Write {
        /// 7-bit address.
        address: u8,
        /// The bytes.
        sent: Seq<u8>,
        /// Whether the device took them.
        ok: bool,
    },
    /// Bytes sent, and one byte asked for.
    Read {
        /// 7-bit address.
        address: u8,
        /// The bytes.
        sent: Seq<u8>,
        /// The reply, unless the transfer failed.
        reply: Option<u8>,
    },
    /// Nothing sent for so many milliseconds.
    Pause {
        /// Milliseconds.
        ms: u16,
    },
}

/// What is to be done on the bus, up to its end or to the first failure.
pub enum Script {
    /// Nothing more; the bytes are the answer.
    Done(Seq<u8>),
    /// Nothing more; the refusal is the answer.
    Refuse(Error),
    /// Write a register, go on.
    Write {
        /// Register address.
        reg: u8,
        /// Value.
        value: u8,
        /// What follows.
        then: Box<Script>,
    },
    /// Read a register, go on as its value says.
    Read {
        /// Register address.
        reg: u8,
        /// What follows, for each value.
        next: spec_fn(u8) -> Script,
    },
    /// Pause, go on.
    Pause {
        /// Milliseconds.
        ms: u16,
        /// What follows.
        then: Box<Script>,
    },
}

/// The script that does nothing.
pub open spec fn done() -> Script {
    Script::Done(Seq::empty())
}

/// Write `value` to `reg`, then `then`.
pub open spec fn store(reg: u8, value: u8, then: Script) -> Script {
    Script::Write { reg, value, then: Box::new(then) }
}

/// Read `reg`, then what `next` says for its value.
pub open spec fn load(reg: u8, next: spec_fn(u8) -> Script) -> Script {
    Script::Read { reg, next }
}

/// Pause for `ms` milliseconds, then `then`.
pub open spec fn pause(ms: u16, then: Script) -> Script {
    Script::Pause { ms, then: Box::new(then) }
}

/// The writes in `table`, in order, then `then`.
pub open spec fn stores(table: Seq<(u8, u8)>, then: Script) -> Script
    decreases table.len(),
{
    if table.len() == 0 {
        then
    } else {
        store(table[0].0, table[0].1, stores(table.skip(1), then))
    }
}

/// `old` with the bits under `mask` replaced by those of `value`.
pub open spec fn replaced(old: u8, mask: u8, value: u8) -> u8 {
    (old & !mask) | (value & mask)
}

/// Read `reg`, replace the bits under `mask`, write it back, then `then`.
pub open spec fn modify(reg: u8, mask: u8, value: u8, then: Script) -> Script {
    load(reg, |old: u8| store(reg, replaced(old, mask, value), then))
}

/// What is left of `script` after the exchange `t`, if `t` is the next one it
/// asks for and it succeeded.
pub open spec fn advanced(script: Script, t: Transfer, address: u8) -> Option<Script> {
    match (script, t) {
        (Script::Write { reg, value, then }, Transfer::Write { address: a, sent, ok }) => if a
            == address && sent == seq![reg, value] && ok {
            Some(*then)
        } else {
            None
        },
        (Script::Read { reg, next }, Transfer::Read { address: a, sent, reply }) => if a == address
            && sent == seq![reg] && reply is Some {
            Some(next(reply->0))
        } else {
            None
        },
        (Script::Pause { ms, then }, Transfer::Pause { ms: made }) => if made == ms {
            Some(*then)
        } else {
            None
        },
        _ => None,
    }
}

/// The exchange `t` is the next one that `script` asks for, and it failed.
pub open spec fn failed(script: Script, t: Transfer, address: u8) -> bool {
    match (script, t) {
        (Script::Write { reg, value, .. }, Transfer::Write { address: a, sent, ok }) => a == address
            && sent == seq![reg, value] && !ok,
        (Script::Read { reg, .. }, Transfer::Read { address: a, sent, reply }) => a == address
            && sent == seq![reg] && reply is None,
        _ => false,
    }
}

/// What is left of `script` after the exchanges `done`, if they are those it
/// asks for and all succeeded.
pub open spec fn left_over(script: Script, done: Seq<Transfer>, address: u8) -> Option<Script>
    decreases done.len(),
{
    if done.len() == 0 {
        Some(script)
    } else {
        match left_over(script, done.drop_last(), address) {
            Some(rest) => advanced(rest, done.last(), address),
            None => None,
        }
    }
}

/// The exchanges `done` carry out `script` and come to the answer `r`: all of
/// it, or up to the first that failed, which is answered as a hardware fault.
pub open spec fn carries_out(
    script: Script,
    done: Seq<Transfer>,
    address: u8,
    r: Result<Seq<u8>>,
) -> bool {
    ||| left_over(script, done, address) == Some(Script::Done(r->Ok_0)) && r is Ok
    ||| left_over(script, done, address) == Some(Script::Refuse(r->Err_0)) && r is Err
    ||| {
        &&& done.len() > 0
        &&& left_over(script, done.drop_last(), address) is Some
        &&& failed(left_over(script, done.drop_last(), address)->0, done.last(), address)
        &&& r == Err::<Seq<u8>, Error>(Error::Hardware)
    }
}

/// `after` is `before` and the exchanges that carry out `script` to `r`.
pub open spec fn extends(
    script: Script,
    before: Seq<Transfer>,
    after: Seq<Transfer>,
    address: u8,
    r: Result<Seq<u8>>,
) -> bool {
    &&& before.is_prefix_of(after)
    &&& carries_out(script, after.skip(before.len() as int), address, r)
}

/// An answer without a value.
pub open spec fn plain(r: Result<()>) -> Result<Seq<u8>> {
    match r {
        Ok(_) => Ok(Seq::empty()),
        Err(e) => Err(e),
    }
}

/// What is left of `script`, begun when `start` was all that had gone over the
/// bus, now that `log` has.
pub open spec fn progress(
    script: Script,
    start: Seq<Transfer>,
    log: Seq<Transfer>,
    address: u8,
) -> Option<Script> {
    if start.is_prefix_of(log) {
        left_over(script, log.skip(start.len() as int), address)
    } else {
        None
    }
}

/// At its beginning all of a script is left.
pub proof fn lemma_begin(script: Script, start: Seq<Transfer>, address: u8)
    ensures
        progress(script, start, start, address) == Some(script),
{
    assert(start.skip(start.len() as int) =~= Seq::<Transfer>::empty());
}

/// One more exchange takes a script one step on, or fails it.
pub proof fn lemma_one_more(
    script: Script,
    start: Seq<Transfer>,
    log: Seq<Transfer>,
    t: Transfer,
    address: u8,
)
    requires
        progress(script, start, log, address) is Some,
    ensures
        progress(script, start, log.push(t), address) == advanced(
            progress(script, start, log, address)->0,
            t,
            address,
        ),
        failed(progress(script, start, log, address)->0, t, address) ==> extends(
            script,
            start,
            log.push(t),
            address,
            Err(Error::Hardware),
        ),
{
    let n = start.len() as int;
    let done = log.skip(n);
    let more = log.push(t).skip(n);
    assert(more =~= done.push(t));
    assert(more.drop_last() =~= done);
}

/// Where a script has come to its end, its answer is the one it names.
pub proof fn lemma_end(
    script: Script,
    start: Seq<Transfer>,
    log: Seq<Transfer>,
    address: u8,
    r: Result<Seq<u8>>,
)
    requires
        r is Ok ==> progress(script, start, log, address) == Some(Script::Done(r->Ok_0)),
        r is Err ==> progress(script, start, log, address) == Some(Script::Refuse(r->Err_0)),
    ensures
        extends(script, start, log, address, r),
{
}

/// A refusal touches nothing: no exchange takes place, and the refusal is the
/// answer.
pub proof fn lemma_refusal_touches_nothing(
    e: Error,
    before: Seq<Transfer>,
    after: Seq<Transfer>,
    address: u8,
    r: Result<Seq<u8>>,
)
    requires
        extends(Script::Refuse(e), before, after, address, r),
    ensures
        after == before,
        r == Err::<Seq<u8>, Error>(e),
{
    let made = after.skip(before.len() as int);
    lemma_nothing_after_the_end(Script::Refuse(e), made, address);
    if made.len() > 0 {
        lemma_nothing_after_the_end(Script::Refuse(e), made.drop_last(), address);
    }
    assert(after =~= before + made);
    assert(made.len() == 0);
    assert(after =~= before);
}

/// At its end a script asks for no exchange.
pub proof fn lemma_nothing_after_the_end(script: Script, made: Seq<Transfer>, address: u8)
    requires
        script is Refuse || script is Done,
    ensures
        made.len() > 0 ==> left_over(script, made, address) is None,
    decreases made.len(),
{
    if made.len() > 0 {
        lemma_nothing_after_the_end(script, made.drop_last(), address);
    }
}

/// What went over the bus determines the answer: the same exchanges are never
/// answered in two ways.
pub proof fn lemma_answer_is_determined(
    script: Script,
    before: Seq<Transfer>,
    after: Seq<Transfer>,
    address: u8,
    a: Result<Seq<u8>>,
    b: Result<Seq<u8>>,
)
    requires
        extends(script, before, after, address, a),
        extends(script, before, after, address, b),
    ensures
        a == b,
{
}

/// Exchanges are taken one by one from the front.
proof fn lemma_front(script: Script, made: Seq<Transfer>, address: u8)
    requires
        made.len() > 0,
    ensures
        left_over(script, made, address) == (match advanced(script, made[0], address) {
            Some(next) => left_over(next, made.skip(1), address),
            None => None,
        }),
    decreases made.len(),
{
    let rest = made.skip(1);
    if made.len() == 1 {
        assert(made.drop_last() =~= Seq::<Transfer>::empty());
        assert(rest =~= Seq::<Transfer>::empty());
        assert(left_over(script, made.drop_last(), address) == Some(script));
    } else {
        lemma_front(script, made.drop_last(), address);
        assert(made.drop_last().skip(1) =~= rest.drop_last());
        assert(made.drop_last()[0] == made[0]);
        assert(rest.last() == made.last());
    }
}

/// A script that was carried out began with the exchange that it asks for
/// first, and the others carried out what follows.
pub proof fn lemma_first_exchange(
    script: Script,
    made: Seq<Transfer>,
    address: u8,
    answer: Seq<u8>,
)
    requires
        carries_out(script, made, address, Ok(answer)),
        !(script is Done),
    ensures
        made.len() > 0,
        advanced(script, made[0], address) is Some,
        carries_out(advanced(script, made[0], address)->0, made.skip(1), address, Ok(answer)),
{
    if made.len() > 0 {
        lemma_front(script, made, address);
    }
}

/// The write of one table entry, as it goes over the bus.
pub open spec fn written(entry: (u8, u8), address: u8) -> Transfer {
    Transfer::Write { address, sent: seq![entry.0, entry.1], ok: true }
}

/// A table that was written was written whole and in order.
pub proof fn lemma_table_in_order(
    table: Seq<(u8, u8)>,
    then: Script,
    made: Seq<Transfer>,
    address: u8,
    answer: Seq<u8>,
)
    requires
        carries_out(stores(table, then), made, address, Ok(answer)),
    ensures
        made.len() >= table.len(),
        forall|i: int|
            0 <= i < table.len() ==> #[trigger] made[i] == written(table[i], address),
        carries_out(then, made.skip(table.len() as int), address, Ok(answer)),
    decreases table.len(),
{
    if table.len() == 0 {
        assert(made.skip(0) =~= made);
    } else {
        let script = stores(table, then);
        lemma_first_exchange(script, made, address, answer);
        assert(made[0] == written(table[0], address));
        lemma_table_in_order(table.skip(1), then, made.skip(1), address, answer);
        assert(made.skip(1).skip(table.len() - 1) =~= made.skip(table.len() as int));
        assert forall|i: int| 0 <= i < table.len() implies #[trigger] made[i] == written(
            table[i],
            address,
        ) by {
            if i > 0 {
                assert(made.skip(1)[i - 1] == written(table.skip(1)[i - 1], address));
            }
        }
    }
}

/// Replacing bits changes those under the mask and no others.
pub proof fn lemma_other_bits_stay(old_value: u8, mask: u8, value: u8)
    ensures
        replaced(old_value, mask, value) & !mask == old_value & !mask,
        replaced(old_value, mask, value) & mask == value & mask,
{
    assert(((old_value & !mask) | (value & mask)) & !mask == old_value & !mask) by (bit_vector);
    assert(((old_value & !mask) | (value & mask)) & mask == value & mask) by (bit_vector);
}

/// No transfer of these failed.
pub open spec fn unfailing(made: Seq<Transfer>) -> bool {
    forall|k: int|
        0 <= k < made.len() ==> match #[trigger] made[k] {
            Transfer::Write { ok, .. } => ok,
            Transfer::Read { reply, .. } => reply is Some,
            Transfer::Pause { .. } => true,
        }
}

/// On a bus that did not fail, a script is carried out to its end: the answer
/// is the one that the end names, and never a hardware fault of the bus.
pub proof fn lemma_unfailing_bus_reaches_the_end(
    script: Script,
    before: Seq<Transfer>,
    after: Seq<Transfer>,
    address: u8,
    r: Result<Seq<u8>>,
)
    requires
        extends(script, before, after, address, r),
        unfailing(after.skip(before.len() as int)),
    ensures
        progress(script, before, after, address) == Some(
            match r {
                Ok(bytes) => Script::Done(bytes),
                Err(e) => Script::Refuse(e),
            },
        ),
{
    let made = after.skip(before.len() as int);
    if made.len() > 0 {
        let last = made[made.len() - 1];
        assert(last == made.last());
    }
}

/// A register file after one transfer: a register and its value are taken.
pub open spec fn file_after(file: Seq<u8>, t: Transfer) -> Seq<u8> {
    match t {
        Transfer::Write { sent, ok, .. } => if ok && sent.len() == 2 {
            file.update(sent[0] as int, sent[1])
        } else {
            file
        },
        Transfer::Read { .. } => file,
        Transfer::Pause { .. } => file,
    }
}

/// A register file after transfers: what was written stays until it is written
/// again.
pub open spec fn registers(file: Seq<u8>, made: Seq<Transfer>) -> Seq<u8>
    decreases made.len(),
{
    if made.len() == 0 {
        file
    } else {
        file_after(registers(file, made.drop_last()), made.last())
    }
}

/// The transfer is one of a register file that never fails: a write is taken,
/// and a read is answered with what the register holds.
pub open spec fn file_takes(file: Seq<u8>, t: Transfer) -> bool {
    match t {
        Transfer::Write { sent, ok, .. } => sent.len() == 2 ==> ok,
        Transfer::Read { sent, reply, .. } => sent.len() == 1 ==> reply == Some(
            file[sent[0] as int],
        ),
        Transfer::Pause { .. } => true,
    }
}

/// The transfers are those of a register file that never fails.
pub open spec fn file_answers(file: Seq<u8>, made: Seq<Transfer>) -> bool {
    forall|k: int|
        0 <= k < made.len() ==> file_takes(registers(file, made.take(k)), #[trigger] made[k])
}

/// The registers that a transfer writes.
pub open spec fn write_of(t: Transfer) -> Seq<(u8, u8)> {
    match t {
        Transfer::Write { sent, ok, .. } => if ok && sent.len() == 2 {
            seq![(sent[0], sent[1])]
        } else {
            Seq::empty()
        },
        Transfer::Read { .. } => Seq::empty(),
        Transfer::Pause { .. } => Seq::empty(),
    }
}

/// The registers written, in order.
pub open spec fn writes_of(made: Seq<Transfer>) -> Seq<(u8, u8)>
    decreases made.len(),
{
    if made.len() == 0 {
        Seq::empty()
    } else {
        writes_of(made.drop_last()) + write_of(made.last())
    }
}

/// What a script comes to on a register file.
pub struct Played {
    /// The registers written, in order.
    pub writes: Seq<(u8, u8)>,
    /// The register file afterwards.
    pub file: Seq<u8>,
    /// The answer.
    pub answer: Result<Seq<u8>>,
}

/// A script on a register file that never fails.
pub open spec fn played(script: Script, file: Seq<u8>) -> Played
    decreases script,
{
    match script {
        Script::Done(bytes) => Played { writes: Seq::empty(), file, answer: Ok(bytes) },
        Script::Refuse(e) => Played { writes: Seq::empty(), file, answer: Err(e) },
        Script::Write { reg, value, then } => {
            let rest = played(*then, file.update(reg as int, value));
            Played { writes: seq![(reg, value)] + rest.writes, ..rest }
        },
        Script::Read { reg, next } => played(next(file[reg as int]), file),
        Script::Pause { then, .. } => played(*then, file),
    }
}

/// Transfers are taken one by one from the front here too.
proof fn lemma_file_front(file: Seq<u8>, made: Seq<Transfer>)
    requires
        made.len() > 0,
    ensures
        registers(file, made) == registers(file_after(file, made[0]), made.skip(1)),
        writes_of(made) == write_of(made[0]) + writes_of(made.skip(1)),
    decreases made.len(),
{
    let rest = made.skip(1);
    if made.len() == 1 {
        assert(made.drop_last() =~= Seq::<Transfer>::empty());
        assert(rest =~= Seq::<Transfer>::empty());
        assert(made.last() == made[0]);
        assert(registers(file, made.drop_last()) == file);
        assert(writes_of(made.drop_last()) =~= Seq::<(u8, u8)>::empty());
        assert(writes_of(rest) =~= Seq::<(u8, u8)>::empty());
    } else {
        lemma_file_front(file, made.drop_last());
        assert(made.drop_last().skip(1) =~= rest.drop_last());
        assert(made.drop_last()[0] == made[0]);
        assert(rest.last() == made.last());
    }
    assert(writes_of(made) =~= write_of(made[0]) + writes_of(rest));
}

/// What a register file answers after a transfer it answers as one.
proof fn lemma_answers_on(file: Seq<u8>, made: Seq<Transfer>)
    requires
        made.len() > 0,
        file_answers(file, made),
    ensures
        file_takes(file, made[0]),
        file_answers(file_after(file, made[0]), made.skip(1)),
{
    let rest = made.skip(1);
    let next_file = file_after(file, made[0]);
    assert(made.take(0) =~= Seq::<Transfer>::empty());
    assert(file_takes(registers(file, made.take(0)), made[0]));
    assert forall|k: int| 0 <= k < rest.len() implies file_takes(
        registers(next_file, rest.take(k)),
        #[trigger] rest[k],
    ) by {
        assert(rest[k] == made[k + 1]);
        lemma_file_front(file, made.take(k + 1));
        assert(made.take(k + 1).skip(1) =~= rest.take(k));
        assert(made.take(k + 1)[0] == made[0]);
    }
}

/// A script that came to its end on a register file came to what is played.
proof fn lemma_played_to(
    script: Script,
    end: Script,
    file: Seq<u8>,
    made: Seq<Transfer>,
    address: u8,
)
    requires
        left_over(script, made, address) == Some(end),
        end is Done || end is Refuse,
        file_answers(file, made),
    ensures
        played(script, file) == (Played {
            writes: writes_of(made),
            file: registers(file, made),
            answer: played(end, file).answer,
        }),
    decreases made.len(),
{
    if made.len() > 0 {
        let rest = made.skip(1);
        let t = made[0];
        lemma_front(script, made, address);
        lemma_file_front(file, made);
        lemma_answers_on(file, made);
        let next = advanced(script, t, address)->0;
        lemma_played_to(next, end, file_after(file, t), rest, address);
        assert(write_of(t) + writes_of(rest) =~= writes_of(made));
        if !(script is Write) {
            assert(write_of(t) + writes_of(rest) =~= writes_of(rest));
        }
    }
}

/// On a register file that never fails, a driver writes the registers that its
/// script writes there, leaves the file as it does, and answers as it does.
pub proof fn lemma_played_on_a_register_file(
    script: Script,
    file: Seq<u8>,
    before: Seq<Transfer>,
    after: Seq<Transfer>,
    address: u8,
    r: Result<Seq<u8>>,
)
    requires
        extends(script, before, after, address, r),
        file_answers(file, after.skip(before.len() as int)),
    ensures
        ({
            let made = after.skip(before.len() as int);
            let p = played(script, file);
            &&& r == p.answer
            &&& writes_of(made) == p.writes
            &&& registers(file, made) == p.file
        }),
{
    let made = after.skip(before.len() as int);
    let n = made.len() as int;
    if n > 0 {
        assert(file_takes(registers(file, made.take(n - 1)), made[n - 1]));
        assert(made.last() == made[n - 1]);
    }
    let end = left_over(script, made, address)->0;
    lemma_played_to(script, end, file, made, address);
}

/// A write played: it is made, and the rest is played on the register file that
/// it leaves.
pub proof fn lemma_write_played(script: Script, file: Seq<u8>)
    requires
        script is Write,
    ensures
        ({
            let w = (script->Write_reg, script->Write_value);
            let q = played(*script->Write_then, file.update(w.0 as int, w.1));
            &&& played(script, file).writes == seq![w] + q.writes
            &&& played(script, file).file == q.file
            &&& played(script, file).answer == q.answer
        }),
{
}

/// A read played: what the register holds says how it goes on.
pub proof fn lemma_read_played(script: Script, file: Seq<u8>)
    requires
        script is Read,
    ensures
        played(script, file) == played(
            (script->Read_next)(file[script->Read_reg as int]),
            file,
        ),
{
}

/// Replacing bits played: the register is written with them replaced.
pub proof fn lemma_modify_played(reg: u8, mask: u8, value: u8, then: Script, file: Seq<u8>)
    ensures
        ({
            let w = (reg, replaced(file[reg as int], mask, value));
            let p = played(modify(reg, mask, value, then), file);
            let q = played(then, file.update(reg as int, w.1));
            &&& p.writes == seq![w] + q.writes
            &&& p.file == q.file
            &&& p.answer == q.answer
        }),
{
    let script = modify(reg, mask, value, then);
    lemma_read_played(script, file);
    lemma_write_played((script->Read_next)(file[reg as int]), file);
}

/// A table played is written whole and in order.
pub proof fn lemma_table_played(table: Seq<(u8, u8)>, then: Script, file: Seq<u8>)
    ensures
        ({
            let p = played(stores(table, then), file);
            let q = played(then, filled(file, table));
            &&& p.writes == table + q.writes
            &&& p.file == q.file
            &&& p.answer == q.answer
        }),
    decreases table.len(),
{
    if table.len() == 0 {
        assert(table + played(then, file).writes =~= played(then, file).writes);
    } else {
        let rest = table.skip(1);
        lemma_table_played(rest, then, file.update(table[0].0 as int, table[0].1));
        let q = played(then, filled(file, table));
        assert(seq![(table[0].0, table[0].1)] + (rest + q.writes) =~= table + q.writes);
    }
}

/// A register file with a table written to it.
pub open spec fn filled(file: Seq<u8>, table: Seq<(u8, u8)>) -> Seq<u8>
    decreases table.len(),
{
    if table.len() == 0 {
        file
    } else {
        filled(file.update(table[0].0 as int, table[0].1), table.skip(1))
    }
}

/// A script that refuses nothing, whatever is read.
pub open spec fn refuses_nothing(script: Script) -> bool
    decreases script,
{
    match script {
        Script::Done(_) => true,
        Script::Refuse(_) => false,
        Script::Write { then, .. } => refuses_nothing(*then),
        Script::Read { next, .. } => forall|v: u8| refuses_nothing(#[trigger] next(v)),
        Script::Pause { then, .. } => refuses_nothing(*then),
    }
}

/// A script that refuses nothing, on a bus that did not fail, is answered with
/// success.
pub proof fn lemma_unfailing_bus_succeeds(
    script: Script,
    before: Seq<Transfer>,
    after: Seq<Transfer>,
    address: u8,
    r: Result<Seq<u8>>,
)
    requires
        refuses_nothing(script),
        extends(script, before, after, address, r),
        unfailing(after.skip(before.len() as int)),
    ensures
        r is Ok,
{
    lemma_unfailing_bus_reaches_the_end(script, before, after, address, r);
    lemma_still_refuses_nothing(script, after.skip(before.len() as int), address);
}

proof fn lemma_still_refuses_nothing(script: Script, made: Seq<Transfer>, address: u8)
    requires
        refuses_nothing(script),
        left_over(script, made, address) is Some,
    ensures
        refuses_nothing(left_over(script, made, address)->0),
    decreases made.len(),
{
    if made.len() > 0 {
        lemma_still_refuses_nothing(script, made.drop_last(), address);
        let rest = left_over(script, made.drop_last(), address)->0;
        if rest is Read {
            let next = rest->Read_next;
            assert(forall|v: u8| refuses_nothing(#[trigger] next(v)));
        }
    }
}

/// A table refuses nothing, if what follows does not.
pub proof fn lemma_table_refuses_nothing(table: Seq<(u8, u8)>, then: Script)
    requires
        refuses_nothing(then),
    ensures
        refuses_nothing(stores(table, then)),
    decreases table.len(),
{
    if table.len() > 0 {
        lemma_table_refuses_nothing(table.skip(1), then);
    }
}

/// A read refuses nothing, if what follows it does not, whatever is read.
pub proof fn lemma_load_refuses_nothing(script: Script)
    requires
        script is Read,
        forall|v: u8| refuses_nothing_after(#[trigger] (script->Read_next)(v)),
    ensures
        refuses_nothing(script),
{
    let next = script->Read_next;
    assert forall|v: u8| refuses_nothing(#[trigger] next(v)) by {
        assert(refuses_nothing_after(next(v)));
    }
}

/// A write after which nothing is refused, or nothing refused at all.
pub open spec fn refuses_nothing_after(script: Script) -> bool {
    match script {
        Script::Write { then, .. } => refuses_nothing(*then),
        _ => refuses_nothing(script),
    }
}

/// Replacing bits refuses nothing, if what follows does not.
pub proof fn lemma_modify_refuses_nothing(reg: u8, mask: u8, value: u8, then: Script)
    requires
        refuses_nothing(then),
    ensures
        refuses_nothing(modify(reg, mask, value, then)),
{
    lemma_load_refuses_nothing(modify(reg, mask, value, then));
}

/// The transfer failed.
pub open spec fn broke(t: Transfer) -> bool {
    match t {
        Transfer::Write { ok, .. } => !ok,
        Transfer::Read { reply, .. } => reply is None,
        Transfer::Pause { .. } => false,
    }
}

/// The first failure ends a call: the transfer that failed is the last one made,
/// and the answer is a hardware fault.
pub proof fn lemma_first_failure_ends_it(
    script: Script,
    before: Seq<Transfer>,
    after: Seq<Transfer>,
    address: u8,
    r: Result<Seq<u8>>,
    k: int,
)
    requires
        extends(script, before, after, address, r),
        before.len() <= k < after.len(),
        broke(after[k]),
    ensures
        k == after.len() - 1,
        r == Err::<Seq<u8>, Error>(Error::Hardware),
{
    let made = after.skip(before.len() as int);
    let j = k - before.len();
    assert(made[j] == after[k]);
    if left_over(script, made, address) is Some {
        lemma_none_broke(script, made, address, j);
    } else if j < made.len() - 1 {
        assert(made.drop_last()[j] == made[j]);
        lemma_none_broke(script, made.drop_last(), address, j);
    }
}

proof fn lemma_none_broke(script: Script, made: Seq<Transfer>, address: u8, k: int)
    requires
        left_over(script, made, address) is Some,
        0 <= k < made.len(),
    ensures
        !broke(made[k]),
    decreases made.len(),
{
    if k < made.len() - 1 {
        assert(made.drop_last()[k] == made[k]);
        lemma_none_broke(script, made.drop_last(), address, k);
    }
}

/// Every transfer goes to the chip's address, and tells a register, or a register
/// and its value.
pub proof fn lemma_transfers_go_to_the_chip(
    script: Script,
    before: Seq<Transfer>,
    after: Seq<Transfer>,
    address: u8,
    r: Result<Seq<u8>>,
    k: int,
)
    requires
        extends(script, before, after, address, r),
        before.len() <= k < after.len(),
    ensures
        match after[k] {
            Transfer::Write { address: a, sent, .. } => a == address && sent.len() == 2,
            Transfer::Read { address: a, sent, .. } => a == address && sent.len() == 1,
            Transfer::Pause { .. } => true,
        },
{
    let made = after.skip(before.len() as int);
    let j = k - before.len();
    assert(made[j] == after[k]);
    if left_over(script, made, address) is Some {
        lemma_addressed(script, made, address, j);
    } else if j < made.len() - 1 {
        assert(made.drop_last()[j] == made[j]);
        lemma_addressed(script, made.drop_last(), address, j);
    }
}

proof fn lemma_addressed(script: Script, made: Seq<Transfer>, address: u8, k: int)
    requires
        left_over(script, made, address) is Some,
        0 <= k < made.len(),
    ensures
        match made[k] {
            Transfer::Write { address: a, sent, .. } => a == address && sent.len() == 2,
            Transfer::Read { address: a, sent, .. } => a == address && sent.len() == 1,
            Transfer::Pause { .. } => true,
        },
    decreases made.len(),
{
    if k < made.len() - 1 {
        assert(made.drop_last()[k] == made[k]);
        lemma_addressed(script, made.drop_last(), address, k);
    }
}

} // verus!
