//! The intermediate language.
//!
//! Terminals are `Constant`, `Scalar` and `Array`. An `Expression` computes
//! a value from scalars and constants. An `Operation` changes state. An
//! `Instruction` gives an operation a position; a `Block` is a sequence of
//! instructions; a `ControlFlowGraph` links blocks by `Edge`s. A `Function`
//! gives a graph an address, and a `Program` holds functions.

use vstd::prelude::*;

pub mod array;
pub mod block;
pub mod constant;
pub mod control_flow_graph;
pub mod edge;
pub mod expression;
pub mod function;
pub mod instruction;
pub mod operation;
pub mod program;
pub mod scalar;
pub mod serial;
pub mod text;
pub mod variable;

pub use self::array::Array;
pub use self::block::Block;
pub use self::constant::Constant;
pub use self::control_flow_graph::ControlFlowGraph;
pub use self::edge::Edge;
pub use self::expression::Expression;
pub use self::function::Function;
pub use self::instruction::Instruction;
pub use self::operation::Operation;
pub use self::program::Program;
pub use self::scalar::Scalar;
pub use self::variable::{Variable, VariableMut};

verus! {

/// Create a constant. Of `value` the low `bits` bits are kept.
pub fn const_(value: u64, bits: usize) -> (constant: Constant)
    requires
        self::scalar::admissible_bits(bits),
    ensures
        constant@.bits == bits,
        constant@.value == self::constant::trimmed(value, bits),
        constant.well_formed(),
{
    Constant::new(value, bits)
}

/// Create the expression that is a constant.
pub fn expr_const(value: u64, bits: usize) -> (e: Expression)
    requires
        self::scalar::admissible_bits(bits),
    ensures
        e matches Expression::Constant(constant) && constant@.bits == bits && constant@.value
            == self::constant::trimmed(value, bits),
        e.well_formed(),
{
    Expression::constant(Constant::new(value, bits))
}

/// Create a scalar without SSA index.
pub fn scalar(name: &str, bits: usize) -> (scalar: Scalar)
    requires
        self::scalar::admissible_bits(bits),
    ensures
        scalar@ == (self::scalar::ScalarView { name: name@, bits: bits, ssa: None }),
        scalar.well_formed(),
{
    Scalar::new(name, bits)
}

/// Create the expression that reads a scalar without SSA index.
pub fn expr_scalar(name: &str, bits: usize) -> (e: Expression)
    requires
        self::scalar::admissible_bits(bits),
    ensures
        e matches Expression::Scalar(scalar) && scalar@ == (self::scalar::ScalarView {
            name: name@,
            bits: bits,
            ssa: None,
        }),
        e.well_formed(),
{
    Expression::scalar(Scalar::new(name, bits))
}

/// Create an array without SSA index.
pub fn array(name: &str, size: u64) -> (array: Array)
    ensures
        array@ == (self::array::ArrayView { name: name@, size: size, ssa: None }),
{
    Array::new(name, size)
}

} // verus!
