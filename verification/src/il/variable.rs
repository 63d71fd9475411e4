//! What scalars and arrays have in common: a name and an optional SSA index.

use vstd::prelude::*;
use crate::il::array::{Array, ArrayView};
use crate::il::scalar::{Scalar, ScalarView};

verus! {

/// What a variable is: what the scalar or the array is that it refers to.
pub enum VariableView {
    Scalar(ScalarView),
    Array(ArrayView),
}

impl VariableView {
    /// The name of the variable.
    pub open spec fn name(self) -> Seq<char> {
        match self {
            VariableView::Scalar(scalar) => scalar.name,
            VariableView::Array(array) => array.name,
        }
    }

    /// The SSA index of the variable.
    pub open spec fn ssa(self) -> Option<u32> {
        match self {
            VariableView::Scalar(scalar) => scalar.ssa,
            VariableView::Array(array) => array.ssa,
        }
    }

    /// The same variable with another SSA index.
    pub open spec fn with_ssa(self, ssa: Option<u32>) -> VariableView {
        match self {
            VariableView::Scalar(scalar) => VariableView::Scalar(ScalarView { ssa: ssa, ..scalar }),
            VariableView::Array(array) => VariableView::Array(ArrayView { ssa: ssa, ..array }),
        }
    }
}

/// A variable of an operation, to read: a scalar or an array.
#[derive(Debug, PartialEq, Eq)]
pub enum Variable<'a> {
    Scalar(&'a Scalar),
    Array(&'a Array),
}

/// A variable of an operation, in its place: what is written through it is
/// written into the operation.
#[derive(Debug, PartialEq, Eq)]
pub enum VariableMut<'a> {
    Scalar(&'a mut Scalar),
    Array(&'a mut Array),
}

impl<'a> View for Variable<'a> {
    type V = VariableView;

    open spec fn view(&self) -> VariableView {
        match self {
            Variable::Scalar(scalar) => VariableView::Scalar(scalar@),
            Variable::Array(array) => VariableView::Array(array@),
        }
    }
}

impl<'a> View for VariableMut<'a> {
    type V = VariableView;

    open spec fn view(&self) -> VariableView {
        match self {
            VariableMut::Scalar(scalar) => VariableView::Scalar(scalar@),
            VariableMut::Array(array) => VariableView::Array(array@),
        }
    }
}

/// The variables that a sequence of scalars stands for.
pub open spec fn scalar_variables(scalars: Seq<Scalar>) -> Seq<VariableView> {
    scalars.map_values(|scalar: Scalar| VariableView::Scalar(scalar@))
}

/// What each variable of a sequence is.
pub open spec fn variable_views(variables: Seq<Variable<'_>>) -> Seq<VariableView> {
    variables.map_values(|variable: Variable<'_>| variable@)
}

impl<'a> Variable<'a> {
    /// The name of this variable.
    pub fn name(&self) -> (name: &str)
        ensures
            name@ == self@.name(),
    {
        match self {
            Variable::Scalar(scalar) => scalar.name(),
            Variable::Array(array) => array.name(),
        }
    }

    /// The SSA index of this variable, if it has one.
    pub fn ssa(&self) -> (ssa: Option<u32>)
        ensures
            ssa == self@.ssa(),
    {
        match self {
            Variable::Scalar(scalar) => scalar.ssa(),
            Variable::Array(array) => array.ssa(),
        }
    }
}

impl<'a> VariableMut<'a> {
    /// The name of this variable.
    pub fn name(&self) -> (name: &str)
        ensures
            name@ == self@.name(),
    {
        match self {
            VariableMut::Scalar(scalar) => scalar.name(),
            VariableMut::Array(array) => array.name(),
        }
    }

    /// The SSA index of this variable, if it has one.
    pub fn ssa(&self) -> (ssa: Option<u32>)
        ensures
            ssa == self@.ssa(),
    {
        match self {
            VariableMut::Scalar(scalar) => scalar.ssa(),
            VariableMut::Array(array) => array.ssa(),
        }
    }

    /// Set or clear the SSA index of the variable, in its place.
    pub fn set_ssa(self, ssa: Option<u32>)
        ensures
            match self {
                VariableMut::Scalar(scalar) => final(scalar)@ == (ScalarView { ssa: ssa, ..scalar@ }),
                VariableMut::Array(array) => final(array)@ == (ArrayView { ssa: ssa, ..array@ }),
            },
    {
        match self {
            VariableMut::Scalar(scalar) => scalar.set_ssa(ssa),
            VariableMut::Array(array) => array.set_ssa(ssa),
        }
    }
}

} // verus!
