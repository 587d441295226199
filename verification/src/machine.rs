//! The abstract machine: what each operation does to the tape, to the two
//! pointers and to the output.

use vstd::prelude::*;
use crate::error::Error;
use crate::input::cell_value;
use crate::program::OPERATION;

verus! {

/// Number of cells on the tape.
pub const TAPE_LEN: usize = 30000;

/// The tape: `TAPE_LEN` cells of one byte each. A fresh tape holds zeros.
pub type Cells = [u8; TAPE_LEN];

/// Why `interpret` handed control back without a fault.
#[derive(Clone, Copy, Debug, PartialEq, Eq, Structural)]
pub enum Status {
    /// The instruction pointer has left the program: the run is complete.
    Halted,
    /// The next operation is `Input`. The prompt has been written; the run
    /// goes on once a line has been supplied.
    AwaitingInput,
    /// The step budget is used up. Nothing is lost: call again to go on.
    Suspended,
}

/// The whole state of a run, as mathematics sees it.
pub struct Machine {
    /// Instruction pointer: address of the next operation.
    pub ip: nat,
    /// Data pointer: index of the current cell.
    pub cp: nat,
    /// The tape.
    pub cells: Seq<u8>,
    /// Every byte written so far.
    pub output: Seq<u8>,
}

/// The cell value after `Add`.
pub open spec fn increment(v: u8) -> u8 {
    if v == 255 {
        0
    } else {
        (v + 1) as u8
    }
}

/// The cell value after `Subtract`.
pub open spec fn decrement(v: u8) -> u8 {
    if v == 0 {
        255
    } else {
        (v - 1) as u8
    }
}

/// The bytes written before a line of input is read: `input> `.
pub open spec fn prompt() -> Seq<u8> {
    seq![105u8, 110u8, 112u8, 117u8, 116u8, 62u8, 32u8]
}

impl Machine {
    /// The cell under the data pointer.
    pub open spec fn current(self) -> u8
        recommends
            self.on_tape(),
    {
        self.cells[self.cp as int]
    }

    /// The data pointer is on the tape.
    pub open spec fn on_tape(self) -> bool {
        self.cp < self.cells.len()
    }

    /// The same machine with `v` in the current cell.
    pub open spec fn with_current(self, v: u8) -> Machine {
        Machine { cells: self.cells.update(self.cp as int, v), ..self }
    }

    /// The same machine with the instruction pointer on the next address.
    pub open spec fn advance(self) -> Machine {
        Machine { ip: self.ip + 1, ..self }
    }

    /// A taken jump: the run continues after `target`. The successor of
    /// `target` has to fit the instruction pointer.
    pub open spec fn jump(self, target: usize) -> Result<Machine, Error> {
        if target < usize::MAX {
            Ok(Machine { ip: (target + 1) as nat, ..self })
        } else {
            Err(Error::AddressOverflow)
        }
    }

    /// One operation, carried out on a machine whose data pointer is on the
    /// tape. A fault leaves no successor. `Input` cannot act by itself (see
    /// [`Machine::store`]) and stays where it is.
    pub open spec fn step(self, op: OPERATION) -> Result<Machine, Error>
        recommends
            self.on_tape(),
    {
        match op {
            OPERATION::Add => Ok(self.with_current(increment(self.current())).advance()),
            OPERATION::Subtract => Ok(self.with_current(decrement(self.current())).advance()),
            OPERATION::PointerRight => if self.cp + 1 < self.cells.len() {
                Ok(Machine { cp: self.cp + 1, ..self }.advance())
            } else {
                Err(Error::PointerOutOfRange)
            },
            OPERATION::PointerLeft => if self.cp > 0 {
                Ok(Machine { cp: (self.cp - 1) as nat, ..self }.advance())
            } else {
                Err(Error::PointerOutOfRange)
            },
            OPERATION::Output => Ok(
                Machine { output: self.output.push(self.current()), ..self }.advance(),
            ),
            OPERATION::Input => Ok(self),
            OPERATION::JumpIfZero(target) => if self.current() == 0 {
                self.jump(target)
            } else {
                Ok(self.advance())
            },
            OPERATION::JumpIfNonZero(target) => if self.current() != 0 {
                self.jump(target)
            } else {
                Ok(self.advance())
            },
        }
    }

    /// What `Input` does once the number `v` has been read.
    pub open spec fn store(self, v: u8) -> Machine {
        self.with_current(v).advance()
    }

    /// The next operation is `Input`.
    pub open spec fn awaits_input(self, program: Seq<OPERATION>) -> bool {
        self.ip < program.len() && program[self.ip as int] is Input
    }

    /// The `Input` operation, carried out with the outcome of reading a line:
    /// the text of the line, or `None` where the stream could not be read.
    pub open spec fn receive(self, program: Seq<OPERATION>, line: Option<Seq<char>>) -> Result<
        Machine,
        Error,
    > {
        if !self.awaits_input(program) {
            Err(Error::InputNotAwaited)
        } else if !self.on_tape() {
            Err(Error::PointerOutOfRange)
        } else {
            match line {
                None => Err(Error::InputReadFailure),
                Some(text) => match cell_value(text) {
                    Some(v) => Ok(self.store(v)),
                    None => Err(Error::InputParseFailure),
                },
            }
        }
    }

    /// A run of at most `fuel` operations from this state, and the state it
    /// stops in. It stops when the program is left, at a fault, at an `Input`
    /// (after writing the prompt), or when the fuel is spent.
    pub open spec fn run(self, program: Seq<OPERATION>, fuel: nat) -> (Result<Status, Error>, Machine)
        decreases fuel,
    {
        if self.ip >= program.len() {
            (Ok(Status::Halted), self)
        } else if !self.on_tape() {
            (Err(Error::PointerOutOfRange), self)
        } else if self.awaits_input(program) {
            (Ok(Status::AwaitingInput), Machine { output: self.output + prompt(), ..self })
        } else if fuel == 0 {
            (Ok(Status::Suspended), self)
        } else {
            match self.step(program[self.ip as int]) {
                Ok(next) => next.run(program, (fuel - 1) as nat),
                Err(e) => (Err(e), self),
            }
        }
    }
}

} // verus!
