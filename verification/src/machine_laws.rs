//! What holds of every run.

use vstd::prelude::*;
use crate::brackets::{lemma_close_is_unique, lemma_open_is_unique, paired};
use crate::error::Error;
use crate::lexing::{assembles, commands, lexed, operation_for};
use crate::lexing_laws::lemma_lexed_jumps_stay_inside;
use crate::machine::{decrement, increment, Machine, Status};
use crate::program::{jumps_stay_inside, OPERATION};

verus! {

/// The cell value after `n` times `Add`.
pub open spec fn add_times(v: u8, n: nat) -> u8
    decreases n,
{
    if n == 0 {
        v
    } else {
        increment(add_times(v, (n - 1) as nat))
    }
}

/// Cells count modulo 256.
pub proof fn lemma_add_times_is_modular(v: u8, n: nat)
    ensures
        add_times(v, n) == (v + n) % 256,
    decreases n,
{
    if n > 0 {
        lemma_add_times_is_modular(v, (n - 1) as nat);
    }
}

/// `Add` and `Subtract` undo each other, also across the wrap: 255 + 1 is 0
/// and 0 - 1 is 255.
pub proof fn lemma_add_and_subtract_are_inverse(v: u8)
    ensures
        decrement(increment(v)) == v,
        increment(decrement(v)) == v,
        increment(255) == 0,
        decrement(0) == 255,
{
}

/// `Subtract` on a cell that holds 0 leaves 255 in it, and `Add` on a cell
/// that holds 255 leaves 0 in it; nothing else changes but the instruction
/// pointer, which moves on.
pub proof fn lemma_cells_wrap(m: Machine)
    requires
        m.on_tape(),
    ensures
        m.current() == 0 ==> m.step(OPERATION::Subtract) == Ok::<Machine, Error>(
            m.with_current(255).advance(),
        ),
        m.current() == 255 ==> m.step(OPERATION::Add) == Ok::<Machine, Error>(
            m.with_current(0).advance(),
        ),
{
}

/// The machine after `n` times `Add` on the current cell.
pub open spec fn after_adds(m: Machine, n: nat) -> Machine {
    Machine { ip: m.ip + n, cells: m.cells.update(m.cp as int, add_times(m.current(), n)), ..m }
}

/// A stretch of `n` operations `Add` adds `n` to the current cell, modulo
/// 256, and changes nothing else: with fuel for all of them, the run goes on
/// behind the stretch from the machine `after_adds`.
pub proof fn lemma_run_of_adds(m: Machine, program: Seq<OPERATION>, n: nat, fuel: nat)
    requires
        m.on_tape(),
        m.ip + n <= program.len(),
        forall|k: int| m.ip <= k < m.ip + n ==> program[k] == OPERATION::Add,
        n <= fuel,
    ensures
        m.run(program, fuel) == after_adds(m, n).run(program, (fuel - n) as nat),
    decreases n,
{
    if n == 0 {
        assert(m.cells.update(m.cp as int, m.current()) =~= m.cells);
    } else {
        let before = (n - 1) as nat;
        lemma_run_of_adds(m, program, before, fuel);
        let mid = after_adds(m, before);
        assert(program[mid.ip as int] == OPERATION::Add);
        assert(mid.step(OPERATION::Add) == Ok::<Machine, Error>(after_adds(m, n))) by {
            assert(mid.cells.update(mid.cp as int, increment(mid.current())) =~= m.cells.update(
                m.cp as int,
                add_times(m.current(), n),
            ));
        }
    }
}

/// 256 times `Add` in a row leave the tape as it was.
pub proof fn lemma_256_adds_restore_the_cell(m: Machine, program: Seq<OPERATION>, fuel: nat)
    requires
        m.on_tape(),
        m.ip + 256 <= program.len(),
        forall|k: int| m.ip <= k < m.ip + 256 ==> program[k] == OPERATION::Add,
        256 <= fuel,
    ensures
        m.run(program, fuel) == (Machine { ip: m.ip + 256, ..m }).run(
            program,
            (fuel - 256) as nat,
        ),
{
    lemma_run_of_adds(m, program, 256, fuel);
    lemma_add_times_is_modular(m.current(), 256);
    assert(m.cells.update(m.cp as int, m.current()) =~= m.cells);
}

/// The result of a run that the fuel cut short.
pub open spec fn suspended() -> Result<Status, Error> {
    Ok(Status::Suspended)
}

/// A run that was suspended and is taken up again does what one run with
/// the fuel of both does.
pub proof fn lemma_run_resumes(m: Machine, program: Seq<OPERATION>, first: nat, second: nat)
    ensures
        (m.run(program, first).0 == suspended()) ==> m.run(program, first + second) == m.run(
            program,
            first,
        ).1.run(program, second),
        (m.run(program, first).0 != suspended()) ==> m.run(program, first + second) == m.run(
            program,
            first,
        ),
    decreases first,
{
    if m.ip >= program.len() || !m.on_tape() || m.awaits_input(program) {
    } else if first == 0 {
    } else {
        match m.step(program[m.ip as int]) {
            Ok(next) => {
                lemma_run_resumes(next, program, (first - 1) as nat, second);
            },
            Err(_) => {},
        }
    }
}

/// What the result of a run says of the state it stopped in.
pub proof fn lemma_status_tells_the_state(m: Machine, program: Seq<OPERATION>, fuel: nat)
    ensures
        ({
            let (r, end) = m.run(program, fuel);
            &&& r == Ok::<Status, Error>(Status::Halted) <==> end.ip >= program.len()
            &&& r == Ok::<Status, Error>(Status::AwaitingInput) ==> end.awaits_input(program)
                && end.on_tape()
            &&& r == Ok::<Status, Error>(Status::Suspended) ==> end.ip < program.len()
                && end.on_tape() && !end.awaits_input(program)
            &&& r is Err ==> end.ip < program.len() && (r == Err::<Status, Error>(
                Error::PointerOutOfRange,
            ) || r == Err::<Status, Error>(Error::AddressOverflow))
        }),
    decreases fuel,
{
    if m.ip >= program.len() || !m.on_tape() || m.awaits_input(program) {
    } else if fuel == 0 {
    } else {
        match m.step(program[m.ip as int]) {
            Ok(next) => {
                lemma_status_tells_the_state(next, program, (fuel - 1) as nat);
            },
            Err(_) => {},
        }
    }
}

/// A run never changes the length of the tape, never takes the data pointer
/// off the tape, and only adds to the output.
pub proof fn lemma_run_keeps_the_tape(m: Machine, program: Seq<OPERATION>, fuel: nat)
    ensures
        ({
            let end = m.run(program, fuel).1;
            &&& end.cells.len() == m.cells.len()
            &&& m.on_tape() ==> end.on_tape()
            &&& m.output.is_prefix_of(end.output)
        }),
    decreases fuel,
{
    if m.ip >= program.len() || !m.on_tape() {
    } else if m.awaits_input(program) {
    } else if fuel == 0 {
    } else {
        match m.step(program[m.ip as int]) {
            Ok(next) => {
                lemma_run_keeps_the_tape(next, program, (fuel - 1) as nat);
            },
            Err(_) => {},
        }
    }
}

/// A program whose jumps stay inside it, and that is no longer than an
/// address can tell, never fails with `AddressOverflow`: of the faults, only
/// a data pointer that leaves the tape can end its run.
pub proof fn lemma_jumps_inside_never_overflow(m: Machine, program: Seq<OPERATION>, fuel: nat)
    requires
        jumps_stay_inside(program),
        program.len() <= usize::MAX,
    ensures
        m.run(program, fuel).0 is Err ==> m.run(program, fuel).0 == Err::<Status, Error>(
            Error::PointerOutOfRange,
        ),
    decreases fuel,
{
    if m.ip >= program.len() || !m.on_tape() || m.awaits_input(program) {
    } else if fuel == 0 {
    } else {
        match m.step(program[m.ip as int]) {
            Ok(next) => {
                lemma_jumps_inside_never_overflow(next, program, (fuel - 1) as nat);
            },
            Err(_) => {},
        }
    }
}

/// A program that `lexer` gave never fails with `AddressOverflow`.
pub proof fn lemma_lexed_program_never_overflows(
    text: Seq<char>,
    program: Vec<OPERATION>,
    m: Machine,
    fuel: nat,
)
    requires
        lexed(text, Ok(program)),
    ensures
        m.run(program@, fuel).0 != Err::<Status, Error>(Error::AddressOverflow),
{
    assert(program.len() == program@.len());
    lemma_lexed_jumps_stay_inside(commands(text), program@);
    lemma_jumps_inside_never_overflow(m, program@, fuel);
}

/// The jumps of a loop land where the loop needs them. Taken at the start
/// of the loop, because the cell is zero, the jump continues behind the end of
/// the loop; taken at the end, because the cell is not zero, it continues
/// with the first operation of the body.
pub proof fn lemma_taken_jumps_land_on_the_loop(
    cmds: Seq<char>,
    ops: Seq<OPERATION>,
    open: int,
    close: int,
    m: Machine,
)
    requires
        assembles(cmds, ops),
        paired(cmds, open, close),
        ops.len() <= usize::MAX,
    ensures
        m.current() == 0 ==> m.step(ops[open]) == Ok::<Machine, Error>(
            Machine { ip: (close + 1) as nat, ..m },
        ),
        m.current() != 0 ==> m.step(ops[close]) == Ok::<Machine, Error>(
            Machine { ip: (open + 1) as nat, ..m },
        ),
{
    assert(operation_for(cmds, open, ops[open]));
    assert(operation_for(cmds, close, ops[close]));
    match ops[open] {
        OPERATION::JumpIfZero(t) => {
            lemma_close_is_unique(cmds, open, t as int, close);
        },
        _ => {},
    }
    match ops[close] {
        OPERATION::JumpIfNonZero(t) => {
            lemma_open_is_unique(cmds, t as int, open, close);
        },
        _ => {},
    }
}

/// The loop `[-]` stands at address `a` of `program`.
pub open spec fn clear_loop_at(program: Seq<OPERATION>, a: nat) -> bool {
    &&& a + 2 < program.len() <= usize::MAX
    &&& program[a as int] == OPERATION::JumpIfZero((a + 2) as usize)
    &&& program[a as int + 1] == OPERATION::Subtract
    &&& program[a as int + 2] == OPERATION::JumpIfNonZero(a as usize)
}

/// The machine behind the loop `[-]` that `m` is about to enter or is in.
pub open spec fn cleared(m: Machine, a: nat) -> Machine {
    Machine { ip: a + 3, cells: m.cells.update(m.cp as int, 0), ..m }
}

/// The body of `[-]`, entered with `v` in the current cell, is carried out
/// `v` times.
proof fn lemma_clear_loop_body(m: Machine, program: Seq<OPERATION>, a: nat, fuel: nat)
    requires
        clear_loop_at(program, a),
        m.on_tape(),
        m.ip == a + 1,
        m.current() > 0,
        fuel >= 2 * m.current(),
    ensures
        m.run(program, fuel) == cleared(m, a).run(program, (fuel - 2 * m.current()) as nat),
    decreases m.current(),
{
    let v = m.current();
    let m1 = m.with_current(decrement(v)).advance();
    assert(m.step(OPERATION::Subtract) == Ok::<Machine, Error>(m1));
    assert(m.run(program, fuel) == m1.run(program, (fuel - 1) as nat));
    assert(m1.current() == v - 1);
    if v == 1 {
        let m2 = m1.advance();
        assert(m1.step(program[m1.ip as int]) == Ok::<Machine, Error>(m2));
        assert(m1.run(program, (fuel - 1) as nat) == m2.run(program, (fuel - 2) as nat));
        assert(m2 == cleared(m, a));
    } else {
        let m2 = Machine { ip: a + 1, ..m1 };
        assert(m1.step(program[m1.ip as int]) == Ok::<Machine, Error>(m2));
        assert(m1.run(program, (fuel - 1) as nat) == m2.run(program, (fuel - 2) as nat));
        lemma_clear_loop_body(m2, program, a, (fuel - 2) as nat);
        assert(cleared(m2, a) == cleared(m, a)) by {
            assert(m2.cells.update(m2.cp as int, 0) =~= m.cells.update(m.cp as int, 0));
        }
    }
}

/// The loop `[-]` always ends, with zero in the current cell and with
/// nothing else changed. Entered with `v` in the cell, it carries out its
/// body `v` times: `2 * v + 1` operations in all.
pub proof fn lemma_clear_loop_ends(m: Machine, program: Seq<OPERATION>, fuel: nat)
    requires
        clear_loop_at(program, m.ip),
        m.on_tape(),
        fuel >= 2 * m.current() + 1,
    ensures
        m.run(program, fuel) == cleared(m, m.ip).run(
            program,
            (fuel - (2 * m.current() + 1)) as nat,
        ),
{
    let a = m.ip;
    if m.current() == 0 {
        let m1 = Machine { ip: a + 3, ..m };
        assert(m.step(program[a as int]) == Ok::<Machine, Error>(m1));
        assert(m.run(program, fuel) == m1.run(program, (fuel - 1) as nat));
        assert(m.cells.update(m.cp as int, 0) =~= m.cells);
    } else {
        let m1 = m.advance();
        assert(m.step(program[a as int]) == Ok::<Machine, Error>(m1));
        assert(m.run(program, fuel) == m1.run(program, (fuel - 1) as nat));
        lemma_clear_loop_body(m1, program, a, (fuel - 1) as nat);
    }
}

} // verus!
