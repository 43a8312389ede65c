//! An interpreter for a minimal tape-machine language.
//!
//! Source text is turned into instructions, runs of identical cell and
//! pointer operations are folded into counted instructions, loop brackets are
//! resolved into direct jump targets, and the resulting program is executed
//! against a growable tape of bytes.

pub mod brackets;
pub mod error;
pub mod instruction;
pub mod machine;
pub mod optimizer;

pub use error::Error;
pub use instruction::Instruction;
pub use machine::Brainfuck;
