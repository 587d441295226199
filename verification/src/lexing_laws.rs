//! What holds of every lexed program.

use vstd::prelude::*;
use crate::brackets::{
    balanced, depth, lemma_balanced_closes_every_loop, lemma_close_is_unique, lemma_depth_next,
    lemma_depth_push, lemma_open_is_unique, lemma_take_push, paired, unclosed,
};
use crate::error::Error;
use crate::lexing::{assembles, commands, is_command, lemma_commands_push, lexed, operation_for};
use crate::program::{jumps_stay_inside, OPERATION};

verus! {

/// Two results of lexing are the same: both programs with the same
/// operations, or both the same error.
pub open spec fn same_result(
    r1: Result<Vec<OPERATION>, Error>,
    r2: Result<Vec<OPERATION>, Error>,
) -> bool {
    match (r1, r2) {
        (Ok(a), Ok(b)) => a@ == b@,
        (Err(e1), Err(e2)) => e1 == e2,
        _ => false,
    }
}

/// A command has one operation.
proof fn lemma_operation_is_unique(cmds: Seq<char>, a: int, x: OPERATION, y: OPERATION)
    requires
        0 <= a < cmds.len(),
        operation_for(cmds, a, x),
        operation_for(cmds, a, y),
    ensures
        x == y,
{
    match (x, y) {
        (OPERATION::JumpIfZero(t1), OPERATION::JumpIfZero(t2)) => {
            if paired(cmds, a, t1 as int) && paired(cmds, a, t2 as int) {
                lemma_close_is_unique(cmds, a, t1 as int, t2 as int);
            }
        },
        (OPERATION::JumpIfNonZero(t1), OPERATION::JumpIfNonZero(t2)) => {
            lemma_open_is_unique(cmds, t1 as int, t2 as int, a);
        },
        _ => {},
    }
}

/// Lexing is a function of the program text: whatever two results meet the
/// contract of `lexer` for one text are the same result.
pub proof fn lemma_lexing_is_deterministic(
    text: Seq<char>,
    r1: Result<Vec<OPERATION>, Error>,
    r2: Result<Vec<OPERATION>, Error>,
)
    requires
        lexed(text, r1),
        lexed(text, r2),
    ensures
        same_result(r1, r2),
{
    match (r1, r2) {
        (Ok(a), Ok(b)) => {
            let cmds = commands(text);
            assert forall|i: int| 0 <= i < a@.len() implies a@[i] == b@[i] by {
                lemma_operation_is_unique(cmds, i, a@[i], b@[i]);
            }
            assert(a@ =~= b@);
        },
        (Err(Error::UnmatchedClosingBracket(here)), Err(Error::UnmatchedClosingBracket(there))) => {
            lemma_depth_next(text, here - 1);
            lemma_depth_next(text, there - 1);
            if here < there {
                assert(depth(text.take(here as int)) >= 0);
            } else if there < here {
                assert(depth(text.take(there as int)) >= 0);
            }
        },
        (Ok(_), Err(Error::UnmatchedClosingBracket(p))) => {
            lemma_depth_next(text, p - 1);
            assert(depth(text.take(p as int)) >= 0);
        },
        (Err(Error::UnmatchedClosingBracket(p)), Ok(_)) => {
            lemma_depth_next(text, p - 1);
            assert(depth(text.take(p as int)) >= 0);
        },
        _ => {},
    }
}

/// Comments do not count for the depth.
proof fn lemma_depth_of_commands(text: Seq<char>)
    ensures
        depth(commands(text)) == depth(text),
    decreases text.len(),
{
    if text.len() == 0 {
        assert(commands(text) =~= text) by {
            reveal(Seq::filter);
        }
    } else {
        let s = text.drop_last();
        let c = text.last();
        assert(text =~= s.push(c));
        lemma_depth_of_commands(s);
        lemma_commands_push(s, c);
        lemma_depth_push(commands(s), c);
    }
}

/// The commands before an address are the commands of a prefix of the text.
proof fn lemma_commands_prefix(text: Seq<char>, k: int) -> (i: int)
    requires
        0 <= k <= commands(text).len(),
    ensures
        0 <= i <= text.len(),
        commands(text.take(i)) == commands(text).take(k),
    decreases text.len(),
{
    if k == commands(text).len() {
        assert(text.take(text.len() as int) =~= text);
        assert(commands(text).take(k) =~= commands(text));
        text.len() as int
    } else {
        let s = text.drop_last();
        let c = text.last();
        assert(text =~= s.push(c));
        lemma_commands_push(s, c);
        let i = lemma_commands_prefix(s, k);
        lemma_take_push(s, c, i);
        if is_command(c) {
            lemma_take_push(commands(s), c, k);
        }
        i
    }
}

/// The commands of a balanced text are balanced.
pub proof fn lemma_commands_of_balanced_text_are_balanced(text: Seq<char>)
    requires
        balanced(text),
    ensures
        balanced(commands(text)),
{
    let cmds = commands(text);
    lemma_depth_of_commands(text);
    assert forall|k: int| 0 <= k <= cmds.len() implies depth(#[trigger] cmds.take(k)) >= 0 by {
        let i = lemma_commands_prefix(text, k);
        lemma_depth_of_commands(text.take(i));
    }
}

/// The jump that ends a loop and the jump that starts it hold each other's
/// address.
pub proof fn lemma_closing_jump_has_its_opening(cmds: Seq<char>, ops: Seq<OPERATION>, a: int)
    requires
        assembles(cmds, ops),
        0 <= a < ops.len(),
        ops[a] is JumpIfNonZero,
    ensures
        0 <= ops[a]->JumpIfNonZero_0 < a,
        ops[ops[a]->JumpIfNonZero_0 as int] == OPERATION::JumpIfZero(a as usize),
{
    let t = ops[a]->JumpIfNonZero_0 as int;
    assert(operation_for(cmds, a, ops[a]));
    assert(operation_for(cmds, t, ops[t]));
    match ops[t] {
        OPERATION::JumpIfZero(x) => {
            if paired(cmds, t, x as int) {
                lemma_close_is_unique(cmds, t, x as int, a);
            }
        },
        _ => {},
    }
}

/// The jump that starts a closed loop and the jump that ends it hold each
/// other's address.
pub proof fn lemma_opening_jump_has_its_closing(cmds: Seq<char>, ops: Seq<OPERATION>, a: int)
    requires
        assembles(cmds, ops),
        0 <= a < ops.len(),
        ops[a] is JumpIfZero,
        !unclosed(cmds, a),
    ensures
        a < ops[a]->JumpIfZero_0 < ops.len(),
        ops[ops[a]->JumpIfZero_0 as int] == OPERATION::JumpIfNonZero(a as usize),
{
    let t = ops[a]->JumpIfZero_0 as int;
    assert(operation_for(cmds, a, ops[a]));
    assert(operation_for(cmds, t, ops[t]));
    match ops[t] {
        OPERATION::JumpIfNonZero(x) => {
            lemma_open_is_unique(cmds, x as int, a, t);
        },
        _ => {},
    }
}

/// In the program of a balanced text every jump has a partner: the
/// operation at the address it holds is the other jump of its loop and holds
/// its address in turn.
pub proof fn lemma_balanced_program_pairs_its_jumps(
    text: Seq<char>,
    ops: Seq<OPERATION>,
    a: int,
)
    requires
        balanced(text),
        assembles(commands(text), ops),
        0 <= a < ops.len(),
    ensures
        ops[a] matches OPERATION::JumpIfZero(t) ==> a < t < ops.len() && ops[t as int]
            == OPERATION::JumpIfNonZero(a as usize),
        ops[a] matches OPERATION::JumpIfNonZero(t) ==> 0 <= t < a && ops[t as int]
            == OPERATION::JumpIfZero(a as usize),
{
    let cmds = commands(text);
    assert(operation_for(cmds, a, ops[a]));
    match ops[a] {
        OPERATION::JumpIfZero(_) => {
            lemma_commands_of_balanced_text_are_balanced(text);
            lemma_balanced_closes_every_loop(cmds, a);
            lemma_opening_jump_has_its_closing(cmds, ops, a);
        },
        OPERATION::JumpIfNonZero(_) => {
            lemma_closing_jump_has_its_opening(cmds, ops, a);
        },
        _ => {},
    }
}

/// The jumps of a lexed program stay inside it.
pub proof fn lemma_lexed_jumps_stay_inside(cmds: Seq<char>, ops: Seq<OPERATION>)
    requires
        assembles(cmds, ops),
    ensures
        jumps_stay_inside(ops),
{
    assert forall|a: int| 0 <= a < ops.len() implies match #[trigger] ops[a] {
        OPERATION::JumpIfZero(t) => t < ops.len(),
        OPERATION::JumpIfNonZero(t) => t < ops.len(),
        _ => true,
    } by {
        assert(operation_for(cmds, a, ops[a]));
    }
}

} // verus!
