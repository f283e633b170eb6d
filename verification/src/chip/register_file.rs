//! [`RegisterFile`]: registers in memory, in place of a chip on a bus.

use vstd::prelude::*;

use super::script::{file_after, file_answers, file_takes, registers, Transfer};
use super::{Bus, BusFault};

verus! {

/// Registers that read zero until they are written, and never fail: a chip for
/// trying a driver without hardware. Every address is its own.
pub struct RegisterFile {
    cells: [u8; 256],
    transfers: Ghost<Seq<Transfer>>,
}

/// Registers that were never written.
pub open spec fn blank() -> Seq<u8> {
    Seq::new(256, |i: int| 0u8)
}

impl RegisterFile {
    #[verifier::type_invariant]
    spec fn kept(&self) -> bool {
        &&& self.cells@ == registers(blank(), self.transfers@)
        &&& file_answers(blank(), self.transfers@)
    }

    /// Registers that were never written.
    pub fn new() -> (r: Self)
        ensures
            r.log() == Seq::<Transfer>::empty(),
    {
        let cells: [u8; 256] = [0; 256];
        assert(cells@ =~= registers(blank(), Seq::<Transfer>::empty()));
        RegisterFile { cells, transfers: Ghost(Seq::empty()) }
    }

    /// What a register holds: what the transfers so far make of it, each of
    /// which the registers answered.
    pub fn cell(&self, reg: u8) -> (r: u8)
        ensures
            r == registers(blank(), self.log())[reg as int],
            file_answers(blank(), self.log()),
    {
        proof {
            use_type_invariant(self);
        }
        self.cells[reg as usize]
    }
}

/// One more transfer that is answered leaves all of them answered.
proof fn lemma_one_more_answer(made: Seq<Transfer>, t: Transfer)
    requires
        file_answers(blank(), made),
        file_takes(registers(blank(), made), t),
    ensures
        file_answers(blank(), made.push(t)),
        registers(blank(), made.push(t)) == file_after(registers(blank(), made), t),
{
    let more = made.push(t);
    assert(more.drop_last() =~= made);
    assert forall|k: int| 0 <= k < more.len() implies file_takes(
        registers(blank(), more.take(k)),
        #[trigger] more[k],
    ) by {
        if k < made.len() {
            assert(more.take(k) =~= made.take(k));
            assert(more[k] == made[k]);
        } else {
            assert(more.take(k) =~= made);
        }
    }
}

impl Bus for RegisterFile {
    closed spec fn log(&self) -> Seq<Transfer> {
        self.transfers@
    }

    fn write(&mut self, address: u8, bytes: &[u8]) -> (r: core::result::Result<(), BusFault>)
        ensures
            bytes@.len() == 2 ==> r is Ok,
    {
        proof {
            use_type_invariant(&*self);
        }
        let taken: bool = bytes.len() == 2;
        let ghost t = Transfer::Write { address, sent: bytes@, ok: taken };
        let mut cells: [u8; 256] = self.cells;
        if taken {
            cells[bytes[0] as usize] = bytes[1];
        }
        proof {
            lemma_one_more_answer(self.transfers@, t);
        }
        *self = RegisterFile { cells, transfers: Ghost(self.transfers@.push(t)) };
        if taken {
            Ok(())
        } else {
            Err(BusFault)
        }
    }

    fn write_read(&mut self, address: u8, bytes: &[u8]) -> (r: core::result::Result<u8, BusFault>)
        ensures
            bytes@.len() == 1 ==> r is Ok,
    {
        proof {
            use_type_invariant(&*self);
        }
        let reply: Option<u8> = if bytes.len() == 1 {
            Some(self.cells[bytes[0] as usize])
        } else {
            None
        };
        let ghost t = Transfer::Read { address, sent: bytes@, reply };
        proof {
            lemma_one_more_answer(self.transfers@, t);
        }
        *self = RegisterFile { cells: self.cells, transfers: Ghost(self.transfers@.push(t)) };
        match reply {
            Some(v) => Ok(v),
            None => Err(BusFault),
        }
    }

    /// Registers in memory have nothing to wait for: the pause is only recorded.
    fn pause(&mut self, ms: u16) {
        proof {
            use_type_invariant(&*self);
            lemma_one_more_answer(self.transfers@, Transfer::Pause { ms });
        }
        *self = RegisterFile {
            cells: self.cells,
            transfers: Ghost(self.transfers@.push(Transfer::Pause { ms })),
        };
    }
}

} // verus!
