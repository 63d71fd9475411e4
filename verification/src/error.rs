//! The errors that constructing or composing the language can raise.

use vstd::prelude::*;

verus! {

/// Why a construction was rejected.
#[derive(Clone, Copy, Debug, PartialEq, Eq, Structural)]
pub enum Error {
    /// Operands of different widths, or a width that is not admissible.
    Sort,
    /// A graph lacks the entry or the exit that was needed, or the block
    /// that was to become one.
    GraphMissingTerminal,
    /// An edge names a block that its graph does not hold.
    EdgeTargetMissing,
    /// A block's index is already used in its graph.
    BlockIndexCollision,
    /// An instruction's index is already used in its block.
    InstructionIndexCollision,
    /// A program already holds a function at the address.
    AddressCollision,
}

} // verus!
