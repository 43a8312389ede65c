//! The ways in which loading or running a program can fail.

use vstd::prelude::*;

verus! {

/// A fatal condition. Each one names the index of the instruction at which
/// it was found.
#[derive(Clone, Copy, Debug, PartialEq, Eq, Structural)]
pub enum Error {
    /// A loop bracket without a counterpart.
    UnbalancedBrackets { position: usize },
    /// A move to the left of the first cell.
    TapeUnderflow { position: usize },
    /// A move to the right beyond what the machine can address.
    TapeOverflow { position: usize },
    /// A read from an input stream that has no byte left.
    InputExhausted { position: usize },
}

} // verus!
