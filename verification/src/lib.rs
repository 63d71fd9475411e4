//! A small intermediate language for lifted machine code, the control-flow
//! containers built over it, and a model of calling conventions.
//!
//! Every construct of the language has a width in bits. The constructors
//! check the widths of their operands, so a value that was built through
//! them satisfies its `well_formed` predicate, and the operations on blocks
//! and graphs preserve it. A value that was built by hand from the variants
//! of an enum, or read from its serialized form, need not be well formed:
//! `is_well_formed` tells.

pub mod analysis;
pub mod error;
pub mod il;
pub mod types;
