//! Carrying a program out on the caller's tape.
//!
//! [`interpret`] runs until the program is over, until it wants a line of
//! input, or until it has carried out as many operations as it was given fuel
//! for. [`supply_input`] hands it the line it wanted.

use vstd::prelude::*;
use crate::error::Error;
use crate::input::parse_cell;
use crate::machine::{prompt, Cells, Machine, Status, TAPE_LEN};
use crate::program::OPERATION;

verus! {

/// The machine made of the caller's tape, data pointer, instruction pointer
/// and output.
pub open spec fn machine_of(cells: Cells, cp: usize, ip: usize, output: Seq<u8>) -> Machine {
    Machine { ip: ip as nat, cp: cp as nat, cells: cells@, output }
}

fn write_prompt(output: &mut Vec<u8>)
    ensures
        final(output)@ == old(output)@ + prompt(),
{
    output.push(105);
    output.push(110);
    output.push(112);
    output.push(117);
    output.push(116);
    output.push(62);
    output.push(32);
    assert(output@ =~= old(output)@ + prompt());
}

/// Carries out one operation other than `Input`.
fn execute(
    op: OPERATION,
    cells: &mut Cells,
    cp: &mut usize,
    ip: &mut usize,
    output: &mut Vec<u8>,
) -> (r: Result<(), Error>)
    requires
        *old(cp) < TAPE_LEN,
        *old(ip) < usize::MAX,
    ensures
        match machine_of(*old(cells), *old(cp), *old(ip), old(output)@).step(op) {
            Ok(next) => r is Ok && machine_of(*final(cells), *final(cp), *final(ip), final(output)@)
                == next,
            Err(e) => r == Err::<(), Error>(e) && *final(cells) == *old(cells) && *final(cp)
                == *old(cp) && *final(ip) == *old(ip) && final(output)@ == old(output)@,
        },
{
    match op {
        OPERATION::Add => {
            let v = cells[*cp];
            cells[*cp] = v.wrapping_add(1);
            *ip = *ip + 1;
        },
        OPERATION::Subtract => {
            let v = cells[*cp];
            cells[*cp] = v.wrapping_sub(1);
            *ip = *ip + 1;
        },
        OPERATION::PointerRight => {
            if *cp + 1 < TAPE_LEN {
                *cp = *cp + 1;
                *ip = *ip + 1;
            } else {
                return Err(Error::PointerOutOfRange);
            }
        },
        OPERATION::PointerLeft => {
            if *cp > 0 {
                *cp = *cp - 1;
                *ip = *ip + 1;
            } else {
                return Err(Error::PointerOutOfRange);
            }
        },
        OPERATION::Output => {
            output.push(cells[*cp]);
            *ip = *ip + 1;
        },
        OPERATION::Input => {},
        OPERATION::JumpIfZero(target) => {
            if cells[*cp] == 0 {
                if target == usize::MAX {
                    return Err(Error::AddressOverflow);
                }
                *ip = target + 1;
            } else {
                *ip = *ip + 1;
            }
        },
        OPERATION::JumpIfNonZero(target) => {
            if cells[*cp] != 0 {
                if target == usize::MAX {
                    return Err(Error::AddressOverflow);
                }
                *ip = target + 1;
            } else {
                *ip = *ip + 1;
            }
        },
    }
    Ok(())
}

/// Runs `operations` on the caller's tape from the address in `ip`, for at
/// most `fuel` operations, and appends what the program writes to `output`.
///
/// The run stops where [`Machine::run`] stops, and the result says why:
/// - `Ok(Halted)`: `ip` is at or behind the end of the program.
/// - `Ok(AwaitingInput)`: the operation at `ip` is `Input`, and the prompt
///   has been written. Read a line, hand it to [`supply_input`], call again.
/// - `Ok(Suspended)`: `fuel` operations have been carried out and the
///   program is not over. Call again to go on.
/// - `Err(PointerOutOfRange)`: the data pointer is off the tape, or the
///   operation at `ip` would move it off the tape.
/// - `Err(AddressOverflow)`: the operation at `ip` is a jump that is taken
///   and holds the largest address there is.
///
/// The tape, both pointers and the output are left as they were when the run
/// stopped; an operation that fails changes nothing. A fresh run starts with
/// `ip` at 0; a fresh tape holds zeros and has `cp` at 0.
pub fn interpret(
    operations: &Vec<OPERATION>,
    cells: &mut Cells,
    cp: &mut usize,
    ip: &mut usize,
    output: &mut Vec<u8>,
    fuel: u64,
) -> (r: Result<Status, Error>)
    ensures
        r == machine_of(*old(cells), *old(cp), *old(ip), old(output)@).run(
            operations@,
            fuel as nat,
        ).0,
        machine_of(*final(cells), *final(cp), *final(ip), final(output)@) == machine_of(
            *old(cells),
            *old(cp),
            *old(ip),
            old(output)@,
        ).run(operations@, fuel as nat).1,
{
    let mut left: u64 = fuel;
    loop
        invariant
            machine_of(*cells, *cp, *ip, output@).run(operations@, left as nat) == machine_of(
                *old(cells),
                *old(cp),
                *old(ip),
                old(output)@,
            ).run(operations@, fuel as nat),
        decreases left,
    {
        if *ip >= operations.len() {
            return Ok(Status::Halted);
        }
        if *cp >= TAPE_LEN {
            return Err(Error::PointerOutOfRange);
        }
        let op = operations[*ip];
        if let OPERATION::Input = op {
            write_prompt(output);
            return Ok(Status::AwaitingInput);
        }
        if left == 0 {
            return Ok(Status::Suspended);
        }
        match execute(op, cells, cp, ip, output) {
            Ok(()) => {},
            Err(e) => {
                return Err(e);
            },
        }
        left = left - 1;
    }
}

/// The machine made of the caller's tape and pointers, with nothing written.
pub open spec fn silent(cells: Cells, cp: usize, ip: usize) -> Machine {
    machine_of(cells, cp, ip, Seq::empty())
}

/// The text of a line that was read, if one was.
pub open spec fn text_of(line: Option<&str>) -> Option<Seq<char>> {
    match line {
        Some(text) => Some(text@),
        None => None,
    }
}

/// Carries out the `Input` operation at the address in `ip` with the outcome
/// of reading a line: `Some` with the line as it was read, or `None` where
/// the stream could not be read.
///
/// Where the line holds a value (see [`parse_cell`]), the value goes into the
/// current cell and `ip` moves on. Everything else is an error and changes
/// nothing: no `Input` at `ip`, a data pointer off the tape, a stream that
/// could not be read, a line that holds no value.
pub fn supply_input(
    operations: &Vec<OPERATION>,
    cells: &mut Cells,
    cp: usize,
    ip: &mut usize,
    line: Option<&str>,
) -> (r: Result<(), Error>)
    ensures
        match silent(*old(cells), cp, *old(ip)).receive(operations@, text_of(line)) {
            Ok(next) => r is Ok && silent(*final(cells), cp, *final(ip)) == next,
            Err(e) => r == Err::<(), Error>(e) && *final(cells) == *old(cells) && *final(ip)
                == *old(ip),
        },
{
    if *ip >= operations.len() {
        return Err(Error::InputNotAwaited);
    }
    match operations[*ip] {
        OPERATION::Input => {},
        _ => {
            return Err(Error::InputNotAwaited);
        },
    }
    if cp >= TAPE_LEN {
        return Err(Error::PointerOutOfRange);
    }
    match line {
        None => Err(Error::InputReadFailure),
        Some(text) => match parse_cell(text) {
            Some(v) => {
                cells[cp] = v;
                *ip = *ip + 1;
                Ok(())
            },
            None => Err(Error::InputParseFailure),
        },
    }
}

} // verus!
