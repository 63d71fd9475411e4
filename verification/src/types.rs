//! Vocabulary shared by the analyses.

use vstd::prelude::*;

verus! {

/// A truth value that may be unknown.
///
/// `Unknown` is not `False`: it says that nothing is guaranteed either way.
#[derive(Clone, Copy, Debug, PartialEq, Eq, Structural)]
pub enum PartialBoolean {
    True,
    False,
    Unknown,
}

} // verus!
