//! From program text to operations.
//!
//! Eight characters are commands; every other character is a comment. Each
//! command becomes one operation, so the address of an operation is the number
//! of commands before it. A `[` and the `]` that closes it become a pair of
//! jumps that hold each other's address.

use vstd::prelude::*;
use vstd::string::StrSliceExecFns;
use crate::brackets::{
    closes_only_open_loops, depth, first_stray_close, lemma_depth_push, lemma_paired_push,
    lemma_take_push, paired, unclosed,
};
use crate::error::Error;
use crate::program::OPERATION;

verus! {

/// The eight characters that stand for an operation.
pub open spec fn is_command(c: char) -> bool {
    c == '+' || c == '-' || c == '>' || c == '<' || c == '.' || c == ',' || c == '[' || c == ']'
}

/// The commands of `text` in order, with the comments left out.
pub open spec fn commands(text: Seq<char>) -> Seq<char> {
    text.filter(|c: char| is_command(c))
}

/// `op` is the operation for the command at address `a` of `cmds`.
///
/// A `[` that is never closed holds the address 0.
pub open spec fn operation_for(cmds: Seq<char>, a: int, op: OPERATION) -> bool {
    match op {
        OPERATION::Add => cmds[a] == '+',
        OPERATION::Subtract => cmds[a] == '-',
        OPERATION::PointerRight => cmds[a] == '>',
        OPERATION::PointerLeft => cmds[a] == '<',
        OPERATION::Output => cmds[a] == '.',
        OPERATION::Input => cmds[a] == ',',
        OPERATION::JumpIfZero(target) => cmds[a] == '[' && (paired(cmds, a, target as int) || (
            target == 0 && unclosed(cmds, a))),
        OPERATION::JumpIfNonZero(target) => cmds[a] == ']' && paired(cmds, target as int, a),
    }
}

/// `ops` is the program for the commands `cmds`.
pub open spec fn assembles(cmds: Seq<char>, ops: Seq<OPERATION>) -> bool {
    &&& ops.len() == cmds.len()
    &&& forall|a: int| 0 <= a < cmds.len() ==> operation_for(cmds, a, #[trigger] ops[a])
}

/// `r` is what lexing `text` gives: the program for its commands, or the
/// position, counted from 1, of the first `]` that has no `[` to close.
pub open spec fn lexed(text: Seq<char>, r: Result<Vec<OPERATION>, Error>) -> bool {
    match r {
        Ok(ops) => closes_only_open_loops(text) && assembles(commands(text), ops@),
        Err(e) => e matches Error::UnmatchedClosingBracket(position) && first_stray_close(
            text,
            position - 1,
        ),
    }
}

/// The loop that `[` at address `p` opens is still open at the end of `cmds`,
/// with `t` loops open around it.
spec fn open_loop(cmds: Seq<char>, p: int, t: int) -> bool {
    &&& 0 <= p < cmds.len()
    &&& cmds[p] == '['
    &&& depth(cmds.take(p)) == t
    &&& forall|k: int| p < k <= cmds.len() ==> depth(#[trigger] cmds.take(k)) > t
}

/// `stack` holds the addresses of the loops still open at the end of `cmds`,
/// outermost first.
spec fn open_loops(cmds: Seq<char>, stack: Seq<usize>) -> bool {
    &&& stack.len() == depth(cmds)
    &&& forall|t: int| 0 <= t < stack.len() ==> open_loop(cmds, #[trigger] stack[t] as int, t)
}

/// The commands of a text with one more character.
pub(crate) proof fn lemma_commands_push(s: Seq<char>, c: char)
    ensures
        commands(s.push(c)) == if is_command(c) {
            commands(s).push(c)
        } else {
            commands(s)
        },
{
    s.lemma_filter_push(c, |c: char| is_command(c));
}

/// An operation stays the right one when a command is added behind it, unless
/// the new command closes its loop.
proof fn lemma_operation_kept(cmds: Seq<char>, c: char, a: int, op: OPERATION)
    requires
        0 <= a < cmds.len(),
        operation_for(cmds, a, op),
        !paired(cmds.push(c), a, cmds.len() as int),
    ensures
        operation_for(cmds.push(c), a, op),
{
    let next = cmds.push(c);
    match op {
        OPERATION::JumpIfZero(target) => {
            if paired(cmds, a, target as int) {
                lemma_paired_push(cmds, c, a, target as int);
            } else {
                assert forall|close: int| !paired(next, a, close) by {
                    if close < cmds.len() {
                        lemma_paired_push(cmds, c, a, close);
                    }
                }
            }
        },
        OPERATION::JumpIfNonZero(target) => {
            lemma_paired_push(cmds, c, target as int, a);
        },
        _ => {},
    }
}

/// A loop that is open stays open when a command is added that leaves more
/// loops open than there are around it.
proof fn lemma_open_loop_kept(cmds: Seq<char>, c: char, p: int, t: int)
    requires
        open_loop(cmds, p, t),
        depth(cmds.push(c)) > t,
    ensures
        open_loop(cmds.push(c), p, t),
{
    let next = cmds.push(c);
    lemma_take_push(cmds, c, p);
    assert forall|k: int| p < k <= next.len() implies depth(#[trigger] next.take(k)) > t by {
        if k <= cmds.len() {
            lemma_take_push(cmds, c, k);
        } else {
            assert(next.take(k) =~= next);
        }
    }
}

/// Of the loops that are open, only the innermost can be closed by the next command.
proof fn lemma_only_innermost_closes(cmds: Seq<char>, stack: Seq<usize>, c: char, a: int)
    requires
        open_loops(cmds, stack),
        stack.len() > 0,
        0 <= a < cmds.len(),
        paired(cmds.push(c), a, cmds.len() as int),
    ensures
        a == stack.last(),
{
    let next = cmds.push(c);
    let n = cmds.len() as int;
    lemma_depth_push(cmds, c);
    assert(next.take(n + 1) =~= next);
    assert(next.take(n) =~= cmds);
    lemma_take_push(cmds, c, a);
    // the depth before `a` is the depth after the new command
    assert(depth(cmds.take(a)) == depth(cmds) - 1);
    assert(depth(next.take(n)) > depth(next.take(a)));
    let p = stack.last() as int;
    assert(open_loop(cmds, stack[stack.len() - 1] as int, stack.len() - 1));
    if a < p {
        lemma_take_push(cmds, c, p);
        assert(depth(next.take(p)) > depth(next.take(a)));
    } else if a > p {
        assert(depth(cmds.take(a)) > stack.len() - 1);
    }
}

/// Lexing one more command that is no bracket.
proof fn lemma_push_plain(
    cmds: Seq<char>,
    ops: Seq<OPERATION>,
    stack: Seq<usize>,
    c: char,
    op: OPERATION,
)
    requires
        assembles(cmds, ops),
        open_loops(cmds, stack),
        c != '[' && c != ']',
        operation_for(cmds.push(c), cmds.len() as int, op),
    ensures
        assembles(cmds.push(c), ops.push(op)),
        open_loops(cmds.push(c), stack),
{
    let next = cmds.push(c);
    lemma_depth_push(cmds, c);
    assert forall|a: int| 0 <= a < next.len() implies operation_for(
        next,
        a,
        #[trigger] ops.push(op)[a],
    ) by {
        if a < cmds.len() {
            lemma_operation_kept(cmds, c, a, ops[a]);
        }
    }
    assert forall|t: int| 0 <= t < stack.len() implies open_loop(
        next,
        #[trigger] stack[t] as int,
        t,
    ) by {
        lemma_open_loop_kept(cmds, c, stack[t] as int, t);
    }
}

/// Lexing one more `[`: a loop opens, and nothing closes it yet.
proof fn lemma_push_open(cmds: Seq<char>, ops: Seq<OPERATION>, stack: Seq<usize>)
    requires
        assembles(cmds, ops),
        open_loops(cmds, stack),
        cmds.len() <= usize::MAX,
    ensures
        assembles(cmds.push('['), ops.push(OPERATION::JumpIfZero(0))),
        open_loops(cmds.push('['), stack.push(cmds.len() as usize)),
{
    let c = '[';
    let n = cmds.len() as int;
    let next = cmds.push(c);
    let grown = stack.push(n as usize);
    lemma_depth_push(cmds, c);
    assert forall|a: int| 0 <= a < next.len() implies operation_for(
        next,
        a,
        #[trigger] ops.push(OPERATION::JumpIfZero(0))[a],
    ) by {
        if a < n {
            lemma_operation_kept(cmds, c, a, ops[a]);
        }
    }
    assert forall|t: int| 0 <= t < grown.len() implies open_loop(
        next,
        #[trigger] grown[t] as int,
        t,
    ) by {
        if t < stack.len() {
            lemma_open_loop_kept(cmds, c, stack[t] as int, t);
        } else {
            assert(next.take(n) =~= cmds);
            assert forall|k: int| n < k <= next.len() implies depth(#[trigger] next.take(k))
                > t by {
                assert(next.take(k) =~= next);
            }
        }
    }
}

/// Lexing one more `]` while a loop is open: it closes the innermost one, and
/// the two jumps get each other's address.
proof fn lemma_push_close(cmds: Seq<char>, ops: Seq<OPERATION>, stack: Seq<usize>)
    requires
        assembles(cmds, ops),
        open_loops(cmds, stack),
        stack.len() > 0,
        cmds.len() <= usize::MAX,
    ensures
        0 <= stack.last() < cmds.len(),
        assembles(
            cmds.push(']'),
            ops.update(stack.last() as int, OPERATION::JumpIfZero(cmds.len() as usize)).push(
                OPERATION::JumpIfNonZero(stack.last()),
            ),
        ),
        open_loops(cmds.push(']'), stack.drop_last()),
{
    let c = ']';
    let n = cmds.len() as int;
    let p = stack.last() as int;
    let next = cmds.push(c);
    let patched = ops.update(p, OPERATION::JumpIfZero(n as usize)).push(
        OPERATION::JumpIfNonZero(p as usize),
    );
    let rest = stack.drop_last();
    lemma_depth_push(cmds, c);
    assert(open_loop(cmds, stack[stack.len() - 1] as int, stack.len() - 1));
    assert(paired(next, p, n)) by {
        lemma_take_push(cmds, c, p);
        assert(next.take(n + 1) =~= next);
        assert forall|k: int| p < k <= n implies depth(#[trigger] next.take(k)) > depth(
            next.take(p),
        ) by {
            lemma_take_push(cmds, c, k);
        }
    }
    assert forall|a: int| 0 <= a < next.len() implies operation_for(
        next,
        a,
        #[trigger] patched[a],
    ) by {
        if a < n && a != p {
            if paired(next, a, n) {
                lemma_only_innermost_closes(cmds, stack, c, a);
            }
            lemma_operation_kept(cmds, c, a, ops[a]);
        }
    }
    assert forall|t: int| 0 <= t < rest.len() implies open_loop(
        next,
        #[trigger] rest[t] as int,
        t,
    ) by {
        assert(open_loop(cmds, stack[t] as int, t));
        lemma_open_loop_kept(cmds, c, stack[t] as int, t);
    }
}

/// Lexes program text into operations.
///
/// Every command becomes one operation, in order; comments are skipped. The
/// two jumps of a loop hold each other's address. A `[` that is never closed
/// is not an error: its jump holds the address 0.
///
/// The one error is a `]` with no loop to close: lexing stops at the first
/// such `]` and reports its position, counted in characters from 1.
pub fn lexer(data: &String) -> (r: Result<Vec<OPERATION>, Error>)
    ensures
        lexed(data@, r),
        r is Ok <==> closes_only_open_loops(data@),
{
    let text = data.as_str();
    let total = text.unicode_len();
    let mut bracket_stack: Vec<usize> = Vec::new();
    let mut operations: Vec<OPERATION> = Vec::new();
    let mut position: usize = 0;
    proof {
        assert(text@.take(0) =~= Seq::<char>::empty());
        assert(commands(Seq::<char>::empty()) =~= Seq::<char>::empty()) by {
            reveal(Seq::filter);
        }
    }
    for c in it: text.chars()
        invariant
            it.seq() == text@,
            text@ == data@,
            total == text@.len(),
            position == it.index(),
            forall|k: int| 0 <= k <= position ==> depth(#[trigger] text@.take(k)) >= 0,
            depth(text@.take(position as int)) == depth(commands(text@.take(position as int))),
            assembles(commands(text@.take(position as int)), operations@),
            open_loops(commands(text@.take(position as int)), bracket_stack@),
    {
        let ghost read = text@.take(position as int);
        let ghost cmds = commands(read);
        proof {
            assert(text@.take(position + 1) =~= read.push(c));
            lemma_commands_push(read, c);
            lemma_depth_push(read, c);
            lemma_depth_push(cmds, c);
        }
        let ghost earlier = operations@;
        position += 1;
        match c {
            '-' => {
                operations.push(OPERATION::Subtract);
            },
            '+' => {
                operations.push(OPERATION::Add);
            },
            '>' => {
                operations.push(OPERATION::PointerRight);
            },
            '<' => {
                operations.push(OPERATION::PointerLeft);
            },
            '.' => {
                operations.push(OPERATION::Output);
            },
            ',' => {
                operations.push(OPERATION::Input);
            },
            '[' => {
                proof {
                    lemma_push_open(cmds, operations@, bracket_stack@);
                }
                bracket_stack.push(operations.len());
                operations.push(OPERATION::JumpIfZero(0));
            },
            ']' => match bracket_stack.pop() {
                Some(pop_index) => {
                    proof {
                        lemma_push_close(cmds, operations@, bracket_stack@.push(pop_index));
                        assert(bracket_stack@.push(pop_index).drop_last() =~= bracket_stack@);
                    }
                    operations[pop_index] = OPERATION::JumpIfZero(operations.len());
                    operations.push(OPERATION::JumpIfNonZero(pop_index));
                },
                None => {
                    return Err(Error::UnmatchedClosingBracket(position));
                },
            },
            _ => {},
        }
        proof {
            if is_command(c) && c != '[' && c != ']' {
                lemma_push_plain(cmds, earlier, bracket_stack@, c, operations@.last());
            }
        }
    }
    proof {
        assert(text@.take(text@.len() as int) =~= text@);
    }
    Ok(operations)
}

} // verus!
