//! Everything that ends a run early.

use vstd::prelude::*;

verus! {

/// A fatal condition. None of them is recovered from: the run that met it is over.
#[derive(Clone, Copy, Debug, PartialEq, Eq, Structural)]
pub enum Error {
    /// A `]` with no `[` left for it to close. Holds the position of that
    /// `]` in the program text, counted in characters from 1.
    UnmatchedClosingBracket(usize),
    /// The input stream could not be read when an `Input` operation asked for a line.
    InputReadFailure,
    /// The line read for an `Input` operation is not a number from 0 to 255.
    InputParseFailure,
    /// The data pointer is not on the tape, or a move would take it off the tape.
    PointerOutOfRange,
    /// A jump to an address whose successor does not fit the instruction pointer.
    AddressOverflow,
    /// A line of input was handed over while no `Input` operation was waiting for one.
    InputNotAwaited,
}

} // verus!
