//! The instruction set.

use vstd::prelude::*;

verus! {

/// One instruction of a program. Its position in the program is its address.
#[allow(non_camel_case_types)]
#[derive(Clone, Copy, Debug, PartialEq, Eq, Structural)]
pub enum OPERATION {
    /// Add one to the current cell, wrapping from 255 to 0.
    Add,
    /// Subtract one from the current cell, wrapping from 0 to 255.
    Subtract,
    /// Move the data pointer one cell to the right. On the last cell of the
    /// tape this is a fault: the pointer never wraps around.
    PointerRight,
    /// Move the data pointer one cell to the left. On the first cell of the
    /// tape this is a fault: the pointer never wraps around.
    PointerLeft,
    /// Write a prompt, read a line, and put the number it holds into the
    /// current cell.
    Input,
    /// Write the current cell as one byte.
    Output,
    /// Start of a loop. If the current cell is zero, continue after the
    /// address held here, which is the address of the loop's closing
    /// `JumpIfNonZero`.
    JumpIfZero(usize),
    /// End of a loop. If the current cell is not zero, continue after the
    /// address held here, which is the address of the loop's opening
    /// `JumpIfZero`.
    JumpIfNonZero(usize),
}

/// Every jump of `program` holds an address of `program`.
pub open spec fn jumps_stay_inside(program: Seq<OPERATION>) -> bool {
    forall|a: int|
        0 <= a < program.len() ==> match #[trigger] program[a] {
            OPERATION::JumpIfZero(t) => t < program.len(),
            OPERATION::JumpIfNonZero(t) => t < program.len(),
            _ => true,
        }
}

} // verus!
