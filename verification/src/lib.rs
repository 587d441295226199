//! A small virtual machine for an eight-command tape language.
//!
//! [`lexer`] turns program text into a sequence of [`OPERATION`]s, with each
//! pair of loop brackets resolved to a pair of jump addresses. [`interpret`]
//! carries that sequence out on a tape of byte cells that the caller owns.
//!
//! The library itself reads and writes nothing. What a program writes is
//! appended to a buffer of the caller's. When a program wants to read,
//! `interpret` hands control back; the caller reads a line and passes it to
//! [`supply_input`], then calls `interpret` again. `interpret` also hands
//! control back when it has carried out as many operations as the caller
//! allowed, so that a program that never ends cannot hold the caller for ever.

pub mod brackets;
pub mod error;
pub mod input;
pub mod interpreter;
pub mod lexing;
pub mod lexing_laws;
pub mod machine;
pub mod machine_laws;
pub mod program;

pub use error::Error;
pub use input::parse_cell;
pub use interpreter::{interpret, supply_input};
pub use lexing::lexer;
pub use machine::{Cells, Machine, Status, TAPE_LEN};
pub use program::OPERATION;
