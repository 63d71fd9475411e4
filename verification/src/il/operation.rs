//! The operations that change state.

use vstd::prelude::*;
use vstd::string::StringExecFns;
use crate::error::Error;
use crate::il::array::Array;
use crate::il::array::lemma_array_is_unique;
use crate::il::expression::{
    Expression, lemma_alike_expressions_agree, lemma_alike_is_reflexive, lemma_alike_is_symmetric,
    lemma_alike_is_transitive, lemma_with_scalar_replaces_one, lemma_expression_is_unique, targets,
};
use crate::il::scalar::Scalar;
use crate::il::scalar::lemma_scalar_is_unique;
use crate::il::serial::{
    encodes, fits, lemma_encodes_byte, lemma_encodes_split, lemma_encodes_whole,
};
use crate::il::variable::{scalar_variables, Variable, variable_views, VariableMut, VariableView};

verus! {

/// The number of bits in a byte: loads and stores move whole bytes.
pub const BYTE_BITS: usize = 8;

/// An operation: the unit of change in the language.
#[allow(inconsistent_fields)]
#[derive(Debug, PartialEq, Eq, Hash, PartialOrd, Ord)]
pub enum Operation {
    /// Give the scalar `dst` the value of `src`.
    Assign { dst: Scalar, src: Expression },
    /// Write the value of `src` into the array `dst` at `index`.
    Store { dst: Array, index: Expression, src: Expression },
    /// Read the scalar `dst` from the array `src` at `index`.
    Load { dst: Scalar, index: Expression, src: Array },
    /// Branch to `target` where `condition` is 1.
    Brc { target: Expression, condition: Expression },
    /// Raise what `expr` stands for. Its meaning belongs to the architecture.
    Raise { expr: Expression },
}

impl Operation {
    /// The sort discipline of operations. An assignment's source is as wide
    /// as its destination. A store writes, and a load reads, a whole number
    /// of bytes. The condition of a branch is one bit wide. And every part
    /// is itself well formed.
    pub open spec fn well_formed(&self) -> bool {
        match self {
            Operation::Assign { dst, src } => {
                &&& dst.well_formed()
                &&& src.well_formed()
                &&& src.spec_bits() == dst@.bits
            },
            Operation::Store { dst, index, src } => {
                &&& index.well_formed()
                &&& src.well_formed()
                &&& src.spec_bits() % BYTE_BITS == 0
            },
            Operation::Load { dst, index, src } => {
                &&& dst.well_formed()
                &&& index.well_formed()
                &&& dst@.bits % BYTE_BITS == 0
            },
            Operation::Brc { target, condition } => {
                &&& target.well_formed()
                &&& condition.well_formed()
                &&& condition.spec_bits() == 1
            },
            Operation::Raise { expr } => expr.well_formed(),
        }
    }

    /// The variable that this operation writes. A store writes its array:
    /// the state of the array changes.
    pub open spec fn written(&self) -> Option<VariableView> {
        match self {
            Operation::Assign { dst, .. } => Some(VariableView::Scalar(dst@)),
            Operation::Store { dst, .. } => Some(VariableView::Array(dst@)),
            Operation::Load { dst, .. } => Some(VariableView::Scalar(dst@)),
            Operation::Brc { .. } => None,
            Operation::Raise { .. } => None,
        }
    }

    /// The variables that this operation reads, each as often as it occurs.
    /// An array comes before the scalars of the index; a store reads the
    /// array that it writes.
    pub open spec fn read(&self) -> Seq<VariableView> {
        match self {
            Operation::Assign { src, .. } => scalar_variables(src.scalars()),
            Operation::Store { dst, index, src } => seq![VariableView::Array(dst@)]
                + scalar_variables(index.scalars()) + scalar_variables(src.scalars()),
            Operation::Load { index, src, .. } => seq![VariableView::Array(src@)]
                + scalar_variables(index.scalars()),
            Operation::Brc { target, condition } => scalar_variables(target.scalars())
                + scalar_variables(condition.scalars()),
            Operation::Raise { expr } => scalar_variables(expr.scalars()),
        }
    }

    /// The number of bytes that a store or a load moves.
    pub open spec fn spec_transfer_size(&self) -> Option<usize> {
        match self {
            Operation::Store { src, .. } => Some((src.spec_bits() / BYTE_BITS) as usize),
            Operation::Load { dst, .. } => Some((dst@.bits / BYTE_BITS) as usize),
            _ => None,
        }
    }

    /// What `assign` returns: the assignment where `src` is as wide as
    /// `dst`, a sort error where it is not.
    pub open spec fn checked_assign(dst: Scalar, src: Expression) -> Result<Operation, Error> {
        if src.spec_bits() == dst@.bits {
            Ok(Operation::Assign { dst, src })
        } else {
            Err(Error::Sort)
        }
    }

    /// What `store` returns: the store where `src` is a whole number of
    /// bytes wide, a sort error where it is not.
    pub open spec fn checked_store(dst: Array, index: Expression, src: Expression) -> Result<
        Operation,
        Error,
    > {
        if src.spec_bits() % BYTE_BITS == 0 {
            Ok(Operation::Store { dst, index, src })
        } else {
            Err(Error::Sort)
        }
    }

    /// What `load` returns: the load where `dst` is a whole number of bytes
    /// wide, a sort error where it is not.
    pub open spec fn checked_load(dst: Scalar, index: Expression, src: Array) -> Result<
        Operation,
        Error,
    > {
        if dst@.bits % BYTE_BITS == 0 {
            Ok(Operation::Load { dst, index, src })
        } else {
            Err(Error::Sort)
        }
    }

    /// What `brc` returns: the branch where `condition` is one bit wide, a
    /// sort error where it is not.
    pub open spec fn checked_brc(target: Expression, condition: Expression) -> Result<
        Operation,
        Error,
    > {
        if condition.spec_bits() == 1 {
            Ok(Operation::Brc { target, condition })
        } else {
            Err(Error::Sort)
        }
    }

    /// Assign `src` to `dst`. A sort error unless they are equally wide.
    pub fn assign(dst: Scalar, src: Expression) -> (r: Result<Operation, Error>)
        ensures
            r == Operation::checked_assign(dst, src),
            dst.well_formed() && src.well_formed() && r is Ok ==> r->Ok_0.well_formed(),
    {
        if src.bits() == dst.bits() {
            Ok(Operation::Assign { dst, src })
        } else {
            Err(Error::Sort)
        }
    }

    /// Store `src` into `dst` at `index`. A sort error unless `src` is a
    /// whole number of bytes wide.
    pub fn store(dst: Array, index: Expression, src: Expression) -> (r: Result<Operation, Error>)
        ensures
            r == Operation::checked_store(dst, index, src),
            index.well_formed() && src.well_formed() && r is Ok ==> r->Ok_0.well_formed(),
    {
        if src.bits() % BYTE_BITS == 0 {
            Ok(Operation::Store { dst, index, src })
        } else {
            Err(Error::Sort)
        }
    }

    /// Load `dst` from `src` at `index`. A sort error unless `dst` is a
    /// whole number of bytes wide.
    pub fn load(dst: Scalar, index: Expression, src: Array) -> (r: Result<Operation, Error>)
        ensures
            r == Operation::checked_load(dst, index, src),
            dst.well_formed() && index.well_formed() && r is Ok ==> r->Ok_0.well_formed(),
    {
        if dst.bits() % BYTE_BITS == 0 {
            Ok(Operation::Load { dst, index, src })
        } else {
            Err(Error::Sort)
        }
    }

    /// Branch to `target` where `condition` holds. A sort error unless
    /// `condition` is one bit wide.
    pub fn brc(target: Expression, condition: Expression) -> (r: Result<Operation, Error>)
        ensures
            r == Operation::checked_brc(target, condition),
            target.well_formed() && condition.well_formed() && r is Ok ==> r->Ok_0.well_formed(),
    {
        if condition.bits() == 1 {
            Ok(Operation::Brc { target, condition })
        } else {
            Err(Error::Sort)
        }
    }

    /// Raise `expr`. No width is asked of it.
    pub fn raise(expr: Expression) -> (operation: Operation)
        ensures
            operation == (Operation::Raise { expr }),
            expr.well_formed() ==> operation.well_formed(),
    {
        Operation::Raise { expr }
    }

    /// Whether this operation is an assignment.
    pub fn is_assign(&self) -> (r: bool)
        ensures
            r == (self is Assign),
    {
        match self {
            Operation::Assign { .. } => true,
            _ => false,
        }
    }

    /// Whether this operation is a store.
    pub fn is_store(&self) -> (r: bool)
        ensures
            r == (self is Store),
    {
        match self {
            Operation::Store { .. } => true,
            _ => false,
        }
    }

    /// Whether this operation is a load.
    pub fn is_load(&self) -> (r: bool)
        ensures
            r == (self is Load),
    {
        match self {
            Operation::Load { .. } => true,
            _ => false,
        }
    }

    /// Whether this operation is a conditional branch.
    pub fn is_brc(&self) -> (r: bool)
        ensures
            r == (self is Brc),
    {
        match self {
            Operation::Brc { .. } => true,
            _ => false,
        }
    }

    /// Whether this operation is a raise.
    pub fn is_raise(&self) -> (r: bool)
        ensures
            r == (self is Raise),
    {
        match self {
            Operation::Raise { .. } => true,
            _ => false,
        }
    }

    /// The number of bytes that this operation moves between a scalar and an
    /// array, if it is a store or a load.
    pub fn transfer_size(&self) -> (size: Option<usize>)
        ensures
            size == self.spec_transfer_size(),
    {
        match self {
            Operation::Store { src, .. } => Some(src.bits() / BYTE_BITS),
            Operation::Load { dst, .. } => Some(dst.bits() / BYTE_BITS),
            _ => None,
        }
    }

    /// The variable that this operation writes, if it writes one.
    pub fn variable_written(&self) -> (variable: Option<Variable<'_>>)
        ensures
            match variable {
                Some(variable) => self.written() == Some(variable@),
                None => self.written() is None,
            },
    {
        match self {
            Operation::Assign { dst, .. } => Some(Variable::Scalar(dst)),
            Operation::Store { dst, .. } => Some(Variable::Array(dst)),
            Operation::Load { dst, .. } => Some(Variable::Scalar(dst)),
            Operation::Brc { .. } => None,
            Operation::Raise { .. } => None,
        }
    }

    /// This operation with `scalar` in the place of the scalar that it
    /// writes. Where it writes none, it is the operation itself.
    pub open spec fn with_written_scalar(&self, scalar: Scalar) -> Operation {
        match self {
            Operation::Assign { dst, src } => Operation::Assign { dst: scalar, src: *src },
            Operation::Load { dst, index, src } => Operation::Load {
                dst: scalar,
                index: *index,
                src: *src,
            },
            _ => *self,
        }
    }

    /// This operation with `array` in the place of the array that it writes.
    /// Where it writes none, it is the operation itself.
    pub open spec fn with_written_array(&self, array: Array) -> Operation {
        match self {
            Operation::Store { dst, index, src } => Operation::Store {
                dst: array,
                index: *index,
                src: *src,
            },
            _ => *self,
        }
    }

    /// The variable that this operation writes, in its place.
    ///
    /// What the caller writes through the place is written into the
    /// operation, and nothing else of the operation changes.
    pub fn variable_written_mut(&mut self) -> (variable: Option<VariableMut<'_>>)
        ensures
            old(self).written() is Some ==> ({
                &&& variable matches Some(variable)
                &&& Some(variable@) == old(self).written()
                &&& variable matches VariableMut::Scalar(place) ==> *final(self) == old(
                    self,
                ).with_written_scalar(*final(place))
                &&& variable matches VariableMut::Array(place) ==> *final(self) == old(
                    self,
                ).with_written_array(*final(place))
            }),
            old(self).written() is None ==> variable is None && *final(self) == *old(self),
    {
        match self {
            Operation::Assign { dst, .. } => Some(VariableMut::Scalar(dst)),
            Operation::Store { dst, .. } => Some(VariableMut::Array(dst)),
            Operation::Load { dst, .. } => Some(VariableMut::Scalar(dst)),
            Operation::Brc { .. } => None,
            Operation::Raise { .. } => None,
        }
    }

    /// This operation with `scalar` in the place of the scalar that is read
    /// at `position` of `read()`. Where no scalar is read there, it is the
    /// operation itself.
    pub open spec fn with_read_scalar(&self, position: int, scalar: Scalar) -> Operation {
        match self {
            Operation::Assign { dst, src } => Operation::Assign {
                dst: *dst,
                src: src.with_scalar(position, scalar),
            },
            Operation::Store { dst, index, src } => if position < 1 {
                *self
            } else if position - 1 < index.scalars().len() {
                Operation::Store {
                    dst: *dst,
                    index: index.with_scalar(position - 1, scalar),
                    src: *src,
                }
            } else {
                Operation::Store {
                    dst: *dst,
                    index: *index,
                    src: src.with_scalar(position - 1 - index.scalars().len(), scalar),
                }
            },
            Operation::Load { dst, index, src } => if position < 1 {
                *self
            } else {
                Operation::Load {
                    dst: *dst,
                    index: index.with_scalar(position - 1, scalar),
                    src: *src,
                }
            },
            Operation::Brc { target, condition } => if position < target.scalars().len() {
                Operation::Brc {
                    target: target.with_scalar(position, scalar),
                    condition: *condition,
                }
            } else {
                Operation::Brc {
                    target: *target,
                    condition: condition.with_scalar(position - target.scalars().len(), scalar),
                }
            },
            Operation::Raise { expr } => Operation::Raise {
                expr: expr.with_scalar(position, scalar),
            },
        }
    }

    /// This operation with `array` in the place of the array that it reads.
    /// Where it reads none, it is the operation itself.
    pub open spec fn with_read_array(&self, array: Array) -> Operation {
        match self {
            Operation::Store { dst, index, src } => Operation::Store {
                dst: array,
                index: *index,
                src: *src,
            },
            Operation::Load { dst, index, src } => Operation::Load {
                dst: *dst,
                index: *index,
                src: array,
            },
            _ => *self,
        }
    }

    /// The variables that this operation reads.
    pub fn variables_read(&self) -> (variables: Vec<Variable<'_>>)
        ensures
            variable_views(variables@) == self.read(),
    {
        let mut variables: Vec<Variable<'_>> = Vec::new();
        assert(variable_views(variables@) =~= Seq::<VariableView>::empty());
        match self {
            Operation::Assign { src, .. } => {
                push_scalars(&mut variables, src.collect_scalars());
            },
            Operation::Store { dst, index, src } => {
                variables.push(Variable::Array(dst));
                assert(variable_views(variables@) =~= seq![VariableView::Array(dst@)]);
                push_scalars(&mut variables, index.collect_scalars());
                push_scalars(&mut variables, src.collect_scalars());
            },
            Operation::Load { index, src, .. } => {
                variables.push(Variable::Array(src));
                assert(variable_views(variables@) =~= seq![VariableView::Array(src@)]);
                push_scalars(&mut variables, index.collect_scalars());
            },
            Operation::Brc { target, condition } => {
                push_scalars(&mut variables, target.collect_scalars());
                push_scalars(&mut variables, condition.collect_scalars());
            },
            Operation::Raise { expr } => {
                push_scalars(&mut variables, expr.collect_scalars());
            },
        }
        assert(variable_views(variables@) =~= self.read());
        variables
    }
    /// The variable that is read at `position` of `read()`, in its place;
    /// `None` where the operation reads no such variable.
    ///
    /// What the caller writes through the place is written into the
    /// operation, and nothing else of it changes.
    pub fn variables_read_mut(&mut self, position: usize) -> (variable: Option<VariableMut<'_>>)
        ensures
            position < old(self).read().len() ==> ({
                &&& variable matches Some(variable)
                &&& variable@ == old(self).read()[position as int]
                &&& variable matches VariableMut::Scalar(place) ==> *final(self) == old(
                    self,
                ).with_read_scalar(position as int, *final(place))
                &&& variable matches VariableMut::Array(place) ==> *final(self) == old(
                    self,
                ).with_read_array(*final(place))
            }),
            position >= old(self).read().len() ==> variable is None && *final(self) == *old(self),
    {
        match self {
            Operation::Assign { src, .. } => scalar_place(src.scalar_mut(position)),
            Operation::Store { dst, index, src } => {
                if position == 0 {
                    Some(VariableMut::Array(dst))
                } else {
                    let in_index = index.collect_scalars().len();
                    if position - 1 < in_index {
                        scalar_place(index.scalar_mut(position - 1))
                    } else {
                        scalar_place(src.scalar_mut(position - 1 - in_index))
                    }
                }
            },
            Operation::Load { index, src, .. } => {
                if position == 0 {
                    Some(VariableMut::Array(src))
                } else {
                    scalar_place(index.scalar_mut(position - 1))
                }
            },
            Operation::Brc { target, condition } => {
                let in_target = target.collect_scalars().len();
                if position < in_target {
                    scalar_place(target.scalar_mut(position))
                } else {
                    scalar_place(condition.scalar_mut(position - in_target))
                }
            },
            Operation::Raise { expr } => scalar_place(expr.scalar_mut(position)),
        }
    }
}

/// The place of a scalar as the place of a variable.
fn scalar_place<'a>(place: Option<&'a mut Scalar>) -> (variable: Option<VariableMut<'a>>)
    ensures
        place is None ==> variable is None,
        place matches Some(scalar) ==> variable matches Some(VariableMut::Scalar(same)) && *same
            == *scalar && *final(same) == *final(scalar),
{
    match place {
        Some(scalar) => Some(VariableMut::Scalar(scalar)),
        None => None,
    }
}

/// Append to `variables` the variables that `scalars` stand for.
fn push_scalars<'a>(variables: &mut Vec<Variable<'a>>, scalars: Vec<&'a Scalar>)
    ensures
        variable_views(final(variables)@) == variable_views(old(variables)@) + scalar_variables(
            targets(scalars@),
        ),
{
    let mut i: usize = 0;
    while i < scalars.len()
        invariant
            i <= scalars.len(),
            variable_views(variables@) == variable_views(old(variables)@) + scalar_variables(
                targets(scalars@).take(i as int),
            ),
        decreases scalars.len() - i,
    {
        let ghost before = variables@;
        variables.push(Variable::Scalar(scalars[i]));
        proof {
            let all = targets(scalars@);
            assert(all.take(i + 1) =~= all.take(i as int).push(all[i as int]));
            assert(variable_views(variables@) =~= variable_views(before).push(
                VariableView::Scalar(all[i as int]@),
            ));
            assert(scalar_variables(all.take(i + 1)) =~= scalar_variables(all.take(i as int)).push(
                VariableView::Scalar(all[i as int]@),
            ));
        }
        i += 1;
    }
    assert(targets(scalars@).take(i as int) =~= targets(scalars@));
}

impl Clone for Operation {
    fn clone(&self) -> (operation: Self)
        ensures
            operation == *self,
    {
        match self {
            Operation::Assign { dst, src } => Operation::Assign {
                dst: dst.clone(),
                src: src.clone(),
            },
            Operation::Store { dst, index, src } => Operation::Store {
                dst: dst.clone(),
                index: index.clone(),
                src: src.clone(),
            },
            Operation::Load { dst, index, src } => Operation::Load {
                dst: dst.clone(),
                index: index.clone(),
                src: src.clone(),
            },
            Operation::Brc { target, condition } => Operation::Brc {
                target: target.clone(),
                condition: condition.clone(),
            },
            Operation::Raise { expr } => Operation::Raise { expr: expr.clone() },
        }
    }
}

impl Operation {
    /// The text of this operation.
    pub open spec fn rendered(&self) -> Seq<char> {
        match self {
            Operation::Assign { dst, src } => dst@.rendered() + " = "@ + src.rendered(),
            Operation::Store { dst, index, src } => dst@.rendered() + "["@ + index.rendered()
                + "] = "@ + src.rendered(),
            Operation::Load { dst, index, src } => dst@.rendered() + " = "@ + src@.rendered() + "["@
                + index.rendered() + "]"@,
            Operation::Brc { target, condition } => "brc "@ + target.rendered() + " ? "@
                + condition.rendered(),
            Operation::Raise { expr } => "raise("@ + expr.rendered() + ")"@,
        }
    }

    /// Append the text of this operation.
    pub fn render_into(&self, text: &mut String)
        ensures
            final(text)@ == old(text)@ + self.rendered(),
    {
        match self {
            Operation::Assign { dst, src } => {
                dst.render_into(text);
                text.append(" = ");
                src.render_into(text);
            },
            Operation::Store { dst, index, src } => {
                dst.render_into(text);
                text.append("[");
                index.render_into(text);
                text.append("] = ");
                src.render_into(text);
            },
            Operation::Load { dst, index, src } => {
                dst.render_into(text);
                text.append(" = ");
                src.render_into(text);
                text.append("[");
                index.render_into(text);
                text.append("]");
            },
            Operation::Brc { target, condition } => {
                text.append("brc ");
                target.render_into(text);
                text.append(" ? ");
                condition.render_into(text);
            },
            Operation::Raise { expr } => {
                text.append("raise(");
                expr.render_into(text);
                text.append(")");
            },
        }
        assert(text@ =~= old(text)@ + self.rendered());
    }

    /// The text of this operation.
    pub fn render(&self) -> (text: String)
        ensures
            text@ == self.rendered(),
    {
        let mut text = String::new();
        self.render_into(&mut text);
        assert(text@ =~= self.rendered());
        text
    }
}

impl Operation {
    /// The byte that names the kind of this operation in its serialized
    /// form.
    pub open spec fn tag(&self) -> u8 {
        match self {
            Operation::Assign { .. } => 0,
            Operation::Store { .. } => 1,
            Operation::Load { .. } => 2,
            Operation::Brc { .. } => 3,
            Operation::Raise { .. } => 4,
        }
    }

    /// The serialized form of this operation: the byte that names its kind,
    /// then its parts in the order of their declaration.
    pub open spec fn serialized(&self) -> Seq<u8> {
        match self {
            Operation::Assign { dst, src } => seq![0u8] + dst@.serialized() + src.serialized(),
            Operation::Store { dst, index, src } => seq![1u8] + dst@.serialized()
                + index.serialized() + src.serialized(),
            Operation::Load { dst, index, src } => seq![2u8] + dst@.serialized()
                + index.serialized() + src@.serialized(),
            Operation::Brc { target, condition } => seq![3u8] + target.serialized()
                + condition.serialized(),
            Operation::Raise { expr } => seq![4u8] + expr.serialized(),
        }
    }

    /// Whether this operation and `other` are the same but for where they
    /// are held: they have the same kind and like parts.
    pub open spec fn alike(&self, other: Operation) -> bool {
        match self {
            Operation::Assign { dst, src } => other matches Operation::Assign {
                dst: same_dst,
                src: same_src,
            } && dst@ == same_dst@ && src.alike(same_src),
            Operation::Store { dst, index, src } => other matches Operation::Store {
                dst: same_dst,
                index: same_index,
                src: same_src,
            } && dst@ == same_dst@ && index.alike(same_index) && src.alike(same_src),
            Operation::Load { dst, index, src } => other matches Operation::Load {
                dst: same_dst,
                index: same_index,
                src: same_src,
            } && dst@ == same_dst@ && index.alike(same_index) && src@ == same_src@,
            Operation::Brc { target, condition } => other matches Operation::Brc {
                target: same_target,
                condition: same_condition,
            } && target.alike(same_target) && condition.alike(same_condition),
            Operation::Raise { expr } => other matches Operation::Raise { expr: same }
                && expr.alike(same),
        }
    }
}

/// Where the parts of a serialized operation stand: the byte that names the
/// kind first, the parts behind it, one after the other.
pub proof fn lemma_operation_layout(bytes: Seq<u8>, start: int, operation: Operation)
    ensures
        encodes(bytes, start, operation.serialized()) <==> 0 <= start < bytes.len() && bytes[start]
            == operation.tag() && match operation {
            Operation::Assign { dst, src } => encodes(bytes, start + 1, dst@.serialized())
                && encodes(bytes, start + 1 + dst@.serialized().len(), src.serialized()),
            Operation::Store { dst, index, src } => encodes(bytes, start + 1, dst@.serialized())
                && encodes(bytes, start + 1 + dst@.serialized().len(), index.serialized())
                && encodes(
                bytes,
                start + 1 + dst@.serialized().len() + index.serialized().len(),
                src.serialized(),
            ),
            Operation::Load { dst, index, src } => encodes(bytes, start + 1, dst@.serialized())
                && encodes(bytes, start + 1 + dst@.serialized().len(), index.serialized())
                && encodes(
                bytes,
                start + 1 + dst@.serialized().len() + index.serialized().len(),
                src@.serialized(),
            ),
            Operation::Brc { target, condition } => encodes(bytes, start + 1, target.serialized())
                && encodes(bytes, start + 1 + target.serialized().len(), condition.serialized()),
            Operation::Raise { expr } => encodes(bytes, start + 1, expr.serialized()),
        },
        operation.serialized().len() == 1 + match operation {
            Operation::Assign { dst, src } => dst@.serialized().len() + src.serialized().len(),
            Operation::Store { dst, index, src } => dst@.serialized().len()
                + index.serialized().len() + src.serialized().len(),
            Operation::Load { dst, index, src } => dst@.serialized().len()
                + index.serialized().len() + src@.serialized().len(),
            Operation::Brc { target, condition } => target.serialized().len()
                + condition.serialized().len(),
            Operation::Raise { expr } => expr.serialized().len(),
        },
{
    let tag = seq![operation.tag()];
    lemma_encodes_byte(bytes, start, operation.tag());
    match operation {
        Operation::Assign { dst, src } => {
            lemma_encodes_split(bytes, start, tag + dst@.serialized(), src.serialized());
            lemma_encodes_split(bytes, start, tag, dst@.serialized());
        },
        Operation::Store { dst, index, src } => {
            lemma_encodes_split(
                bytes,
                start,
                tag + dst@.serialized() + index.serialized(),
                src.serialized(),
            );
            lemma_encodes_split(bytes, start, tag + dst@.serialized(), index.serialized());
            lemma_encodes_split(bytes, start, tag, dst@.serialized());
        },
        Operation::Load { dst, index, src } => {
            lemma_encodes_split(
                bytes,
                start,
                tag + dst@.serialized() + index.serialized(),
                src@.serialized(),
            );
            lemma_encodes_split(bytes, start, tag + dst@.serialized(), index.serialized());
            lemma_encodes_split(bytes, start, tag, dst@.serialized());
        },
        Operation::Brc { target, condition } => {
            lemma_encodes_split(bytes, start, tag + target.serialized(), condition.serialized());
            lemma_encodes_split(bytes, start, tag, target.serialized());
        },
        Operation::Raise { expr } => {
            lemma_encodes_split(bytes, start, tag, expr.serialized());
        },
    }
}

impl Operation {
    /// Append the serialized form of this operation.
    pub fn encode_into(&self, out: &mut Vec<u8>)
        ensures
            final(out)@ == old(out)@ + self.serialized(),
    {
        match self {
            Operation::Assign { dst, src } => {
                out.push(0);
                dst.encode_into(out);
                src.encode_into(out);
            },
            Operation::Store { dst, index, src } => {
                out.push(1);
                dst.encode_into(out);
                index.encode_into(out);
                src.encode_into(out);
            },
            Operation::Load { dst, index, src } => {
                out.push(2);
                dst.encode_into(out);
                index.encode_into(out);
                src.encode_into(out);
            },
            Operation::Brc { target, condition } => {
                out.push(3);
                target.encode_into(out);
                condition.encode_into(out);
            },
            Operation::Raise { expr } => {
                out.push(4);
                expr.encode_into(out);
            },
        }
        assert(out@ =~= old(out)@ + self.serialized());
    }

    /// Read the operation whose serialized form stands at `start`, and say
    /// where it ends. `None` where no operation stands there.
    pub fn decode_at(bytes: &[u8], start: usize) -> (r: Option<(Operation, usize)>)
        ensures
            r matches Some((operation, end)) ==> encodes(
                bytes@,
                start as int,
                operation.serialized(),
            ) && end == start + operation.serialized().len(),
            forall|operation: Operation|
                encodes(bytes@, start as int, #[trigger] operation.serialized()) ==> ({
                    &&& r matches Some((read, end))
                    &&& read.alike(operation)
                    &&& end == start + operation.serialized().len()
                }),
    {
        proof {
            assert forall|operation: Operation|
                encodes(bytes@, start as int, #[trigger] operation.serialized()) implies start
                < bytes@.len() && bytes@[start as int] == operation.tag() && match operation {
                Operation::Assign { dst, src } => encodes(bytes@, start + 1, dst@.serialized())
                    && encodes(bytes@, start + 1 + dst@.serialized().len(), src.serialized()),
                Operation::Store { dst, index, src } => encodes(
                    bytes@,
                    start + 1,
                    dst@.serialized(),
                ) && encodes(bytes@, start + 1 + dst@.serialized().len(), index.serialized())
                    && encodes(
                    bytes@,
                    start + 1 + dst@.serialized().len() + index.serialized().len(),
                    src.serialized(),
                ),
                Operation::Load { dst, index, src } => encodes(
                    bytes@,
                    start + 1,
                    dst@.serialized(),
                ) && encodes(bytes@, start + 1 + dst@.serialized().len(), index.serialized())
                    && encodes(
                    bytes@,
                    start + 1 + dst@.serialized().len() + index.serialized().len(),
                    src@.serialized(),
                ),
                Operation::Brc { target, condition } => encodes(
                    bytes@,
                    start + 1,
                    target.serialized(),
                ) && encodes(
                    bytes@,
                    start + 1 + target.serialized().len(),
                    condition.serialized(),
                ),
                Operation::Raise { expr } => encodes(bytes@, start + 1, expr.serialized()),
            } && operation.serialized().len() == 1 + match operation {
                Operation::Assign { dst, src } => dst@.serialized().len()
                    + src.serialized().len(),
                Operation::Store { dst, index, src } => dst@.serialized().len()
                    + index.serialized().len() + src.serialized().len(),
                Operation::Load { dst, index, src } => dst@.serialized().len()
                    + index.serialized().len() + src@.serialized().len(),
                Operation::Brc { target, condition } => target.serialized().len()
                    + condition.serialized().len(),
                Operation::Raise { expr } => expr.serialized().len(),
            } by {
                lemma_operation_layout(bytes@, start as int, operation);
            }
        }
        if start >= bytes.len() {
            return None;
        }
        let tag = bytes[start];
        let operation = if tag == 0 {
            let (dst, middle) = match Scalar::decode_at(bytes, start + 1) {
                Some(read) => read,
                None => {
                    return None;
                },
            };
            let (src, end) = match Expression::decode_at(bytes, middle) {
                Some(read) => read,
                None => {
                    return None;
                },
            };
            (Operation::Assign { dst, src }, end)
        } else if tag == 1 {
            let (dst, first) = match Array::decode_at(bytes, start + 1) {
                Some(read) => read,
                None => {
                    return None;
                },
            };
            let (index, second) = match Expression::decode_at(bytes, first) {
                Some(read) => read,
                None => {
                    return None;
                },
            };
            let (src, end) = match Expression::decode_at(bytes, second) {
                Some(read) => read,
                None => {
                    return None;
                },
            };
            (Operation::Store { dst, index, src }, end)
        } else if tag == 2 {
            let (dst, first) = match Scalar::decode_at(bytes, start + 1) {
                Some(read) => read,
                None => {
                    return None;
                },
            };
            let (index, second) = match Expression::decode_at(bytes, first) {
                Some(read) => read,
                None => {
                    return None;
                },
            };
            let (src, end) = match Array::decode_at(bytes, second) {
                Some(read) => read,
                None => {
                    return None;
                },
            };
            (Operation::Load { dst, index, src }, end)
        } else if tag == 3 {
            let (target, middle) = match Expression::decode_at(bytes, start + 1) {
                Some(read) => read,
                None => {
                    return None;
                },
            };
            let (condition, end) = match Expression::decode_at(bytes, middle) {
                Some(read) => read,
                None => {
                    return None;
                },
            };
            (Operation::Brc { target, condition }, end)
        } else if tag == 4 {
            let (expr, end) = match Expression::decode_at(bytes, start + 1) {
                Some(read) => read,
                None => {
                    return None;
                },
            };
            (Operation::Raise { expr }, end)
        } else {
            return None;
        };
        proof {
            lemma_operation_layout(bytes@, start as int, operation.0);
        }
        Some(operation)
    }
}

impl Operation {
    /// The serialized form of this operation.
    pub fn serialize(&self) -> (bytes: Vec<u8>)
        ensures
            bytes@ == self.serialized(),
    {
        let mut bytes: Vec<u8> = Vec::new();
        self.encode_into(&mut bytes);
        assert(bytes@ =~= self.serialized());
        bytes
    }

    /// The operation of which `bytes` is the serialized form; `None` where it is
    /// the serialized form of none. What `serialize` returned for a operation
    /// gives that operation back.
    pub fn deserialize(bytes: &[u8]) -> (r: Option<Operation>)
        ensures
            r matches Some(read) ==> bytes@ == read.serialized(),
            forall|other: Operation|
                bytes@ == #[trigger] other.serialized() ==> ({
                    &&& r matches Some(read)
                    &&& read.alike(other)
                }),
    {
        proof {
            assert forall|other: Operation| bytes@ == #[trigger] other.serialized() implies encodes(
                bytes@,
                0,
                other.serialized(),
            ) by {
                lemma_encodes_whole(bytes@, other.serialized());
            }
        }
        match Operation::decode_at(bytes, 0) {
            Some((read, end)) => {
                if end == bytes.len() {
                    proof {
                        lemma_encodes_whole(bytes@, read.serialized());
                    }
                    Some(read)
                } else {
                    None
                }
            },
            None => None,
        }
    }
}

impl Operation {
    /// Whether this operation is well formed.
    pub fn is_well_formed(&self) -> (r: bool)
        ensures
            r == self.well_formed(),
    {
        match self {
            Operation::Assign { dst, src } => dst.is_well_formed() && src.is_well_formed()
                && src.bits() == dst.bits(),
            Operation::Store { dst, index, src } => index.is_well_formed() && src.is_well_formed()
                && src.bits() % BYTE_BITS == 0,
            Operation::Load { dst, index, src } => dst.is_well_formed() && index.is_well_formed()
                && dst.bits() % BYTE_BITS == 0,
            Operation::Brc { target, condition } => target.is_well_formed()
                && condition.is_well_formed() && condition.bits() == 1,
            Operation::Raise { expr } => expr.is_well_formed(),
        }
    }
}

impl Operation {
    /// The scalars that occur in this operation, each as often as it
    /// occurs: the scalar that it writes, if it writes one, then those that
    /// it reads.
    pub open spec fn scalars(&self) -> Seq<Scalar> {
        match self {
            Operation::Assign { dst, src } => seq![*dst] + src.scalars(),
            Operation::Store { index, src, .. } => index.scalars() + src.scalars(),
            Operation::Load { dst, index, .. } => seq![*dst] + index.scalars(),
            Operation::Brc { target, condition } => target.scalars() + condition.scalars(),
            Operation::Raise { expr } => expr.scalars(),
        }
    }

    /// Every scalar of this operation.
    pub fn collect_scalars(&self) -> (found: Vec<&Scalar>)
        ensures
            targets(found@) == self.scalars(),
    {
        let mut found: Vec<&Scalar> = Vec::new();
        match self {
            Operation::Assign { dst, src } => {
                found.push(dst);
                let mut more = src.collect_scalars();
                found.append(&mut more);
            },
            Operation::Store { index, src, .. } => {
                let mut first = index.collect_scalars();
                found.append(&mut first);
                let mut more = src.collect_scalars();
                found.append(&mut more);
            },
            Operation::Load { dst, index, .. } => {
                found.push(dst);
                let mut more = index.collect_scalars();
                found.append(&mut more);
            },
            Operation::Brc { target, condition } => {
                let mut first = target.collect_scalars();
                found.append(&mut first);
                let mut more = condition.collect_scalars();
                found.append(&mut more);
            },
            Operation::Raise { expr } => {
                let mut more = expr.collect_scalars();
                found.append(&mut more);
            },
        }
        assert(targets(found@) =~= self.scalars());
        found
    }
}

/// Being alike is an equivalence of operations: every operation is like
/// itself; where one is like another, the other is like it; and where one is
/// like a second and the second like a third, the first is like the third.
pub proof fn lemma_alike_operations_are_equivalent(a: Operation, b: Operation, c: Operation)
    ensures
        a.alike(a),
        a.alike(b) ==> b.alike(a),
        a.alike(b) && b.alike(c) ==> a.alike(c),
{
    match a {
        Operation::Assign { src, .. } => {
            lemma_alike_is_reflexive(src);
            if let Operation::Assign { src: second, .. } = b {
                if a.alike(b) {
                    lemma_alike_is_symmetric(src, second);
                    if let Operation::Assign { src: third, .. } = c {
                        if b.alike(c) {
                            lemma_alike_is_transitive(src, second, third);
                        }
                    }
                }
            }
        },
        Operation::Store { index, src, .. } => {
            lemma_alike_is_reflexive(index);
            lemma_alike_is_reflexive(src);
            if let Operation::Store { index: second_index, src: second, .. } = b {
                if a.alike(b) {
                    lemma_alike_is_symmetric(index, second_index);
                    lemma_alike_is_symmetric(src, second);
                    if let Operation::Store { index: third_index, src: third, .. } = c {
                        if b.alike(c) {
                            lemma_alike_is_transitive(index, second_index, third_index);
                            lemma_alike_is_transitive(src, second, third);
                        }
                    }
                }
            }
        },
        Operation::Load { index, .. } => {
            lemma_alike_is_reflexive(index);
            if let Operation::Load { index: second, .. } = b {
                if a.alike(b) {
                    lemma_alike_is_symmetric(index, second);
                    if let Operation::Load { index: third, .. } = c {
                        if b.alike(c) {
                            lemma_alike_is_transitive(index, second, third);
                        }
                    }
                }
            }
        },
        Operation::Brc { target, condition } => {
            lemma_alike_is_reflexive(target);
            lemma_alike_is_reflexive(condition);
            if let Operation::Brc { target: second_target, condition: second } = b {
                if a.alike(b) {
                    lemma_alike_is_symmetric(target, second_target);
                    lemma_alike_is_symmetric(condition, second);
                    if let Operation::Brc { target: third_target, condition: third } = c {
                        if b.alike(c) {
                            lemma_alike_is_transitive(target, second_target, third_target);
                            lemma_alike_is_transitive(condition, second, third);
                        }
                    }
                }
            }
        },
        Operation::Raise { expr } => {
            lemma_alike_is_reflexive(expr);
            if let Operation::Raise { expr: second } = b {
                if a.alike(b) {
                    lemma_alike_is_symmetric(expr, second);
                    if let Operation::Raise { expr: third } = c {
                        if b.alike(c) {
                            lemma_alike_is_transitive(expr, second, third);
                        }
                    }
                }
            }
        },
    }
}

/// Like operations have the same serialized form and the same text, and are
/// well formed together.
pub proof fn lemma_alike_operations_agree(a: Operation, b: Operation)
    requires
        a.alike(b),
    ensures
        a.serialized() == b.serialized(),
        a.rendered() == b.rendered(),
        a.well_formed() == b.well_formed(),
{
    match a {
        Operation::Assign { src, .. } => {
            if let Operation::Assign { src: other, .. } = b {
                lemma_alike_expressions_agree(src, other);
            }
        },
        Operation::Store { index, src, .. } => {
            if let Operation::Store { index: other_index, src: other, .. } = b {
                lemma_alike_expressions_agree(index, other_index);
                lemma_alike_expressions_agree(src, other);
            }
        },
        Operation::Load { index, .. } => {
            if let Operation::Load { index: other, .. } = b {
                lemma_alike_expressions_agree(index, other);
            }
        },
        Operation::Brc { target, condition } => {
            if let Operation::Brc { target: other_target, condition: other } = b {
                lemma_alike_expressions_agree(target, other_target);
                lemma_alike_expressions_agree(condition, other);
            }
        },
        Operation::Raise { expr } => {
            if let Operation::Raise { expr: other } = b {
                lemma_alike_expressions_agree(expr, other);
            }
        },
    }
}

/// At one place stands one operation at most: two operations whose
/// serialized forms stand at one place are alike.
pub proof fn lemma_operation_is_unique(bytes: Seq<u8>, start: int, a: Operation, b: Operation)
    requires
        fits(bytes),
        encodes(bytes, start, a.serialized()),
        encodes(bytes, start, b.serialized()),
    ensures
        a.alike(b),
{
    lemma_operation_layout(bytes, start, a);
    lemma_operation_layout(bytes, start, b);
    match a {
        Operation::Assign { dst, src } => {
            if let Operation::Assign { dst: other_dst, src: other_src } = b {
                lemma_scalar_is_unique(bytes, start + 1, dst@, other_dst@);
                lemma_expression_is_unique(
                    bytes,
                    start + 1 + dst@.serialized().len(),
                    src,
                    other_src,
                );
            }
        },
        Operation::Store { dst, index, src } => {
            if let Operation::Store { dst: other_dst, index: other_index, src: other_src } = b {
                lemma_array_is_unique(bytes, start + 1, dst@, other_dst@);
                let at_index = start + 1 + dst@.serialized().len();
                lemma_expression_is_unique(bytes, at_index, index, other_index);
                lemma_alike_expressions_agree(index, other_index);
                lemma_expression_is_unique(
                    bytes,
                    at_index + index.serialized().len(),
                    src,
                    other_src,
                );
            }
        },
        Operation::Load { dst, index, src } => {
            if let Operation::Load { dst: other_dst, index: other_index, src: other_src } = b {
                lemma_scalar_is_unique(bytes, start + 1, dst@, other_dst@);
                let at_index = start + 1 + dst@.serialized().len();
                lemma_expression_is_unique(bytes, at_index, index, other_index);
                lemma_alike_expressions_agree(index, other_index);
                lemma_array_is_unique(
                    bytes,
                    at_index + index.serialized().len(),
                    src@,
                    other_src@,
                );
            }
        },
        Operation::Brc { target, condition } => {
            if let Operation::Brc { target: other_target, condition: other_condition } = b {
                lemma_expression_is_unique(bytes, start + 1, target, other_target);
                lemma_alike_expressions_agree(target, other_target);
                lemma_expression_is_unique(
                    bytes,
                    start + 1 + target.serialized().len(),
                    condition,
                    other_condition,
                );
            }
        },
        Operation::Raise { expr } => {
            if let Operation::Raise { expr: other } = b {
                lemma_expression_is_unique(bytes, start + 1, expr, other);
            }
        },
    }
}

/// Operations have the same serialized form exactly where they are alike.
/// The law speaks of forms whose length a number can hold.
pub proof fn lemma_operations_serialize_apart(a: Operation, b: Operation)
    requires
        fits(a.serialized()),
    ensures
        a.serialized() == b.serialized() <==> a.alike(b),
{
    if a.serialized() == b.serialized() {
        lemma_encodes_whole(a.serialized(), a.serialized());
        lemma_operation_is_unique(a.serialized(), 0, a, b);
    }
    if a.alike(b) {
        lemma_alike_operations_agree(a, b);
    }
}

/// Renaming keeps an operation well formed: a well-formed operation stays
/// well formed where a scalar that it reads or writes is replaced by a
/// well-formed scalar of the same width, or an array by any array.
pub proof fn lemma_renaming_keeps_well_formed(
    operation: Operation,
    position: int,
    scalar: Scalar,
    array: Array,
)
    requires
        operation.well_formed(),
        scalar.well_formed(),
    ensures
        operation.with_read_array(array).well_formed(),
        operation.with_written_array(array).well_formed(),
        (operation.written() matches Some(VariableView::Scalar(written)) && written.bits
            == scalar@.bits) ==> operation.with_written_scalar(scalar).well_formed(),
        0 <= position < operation.read().len() && (operation.read()[position]
            matches VariableView::Scalar(read) && read.bits == scalar@.bits)
            ==> operation.with_read_scalar(position, scalar).well_formed(),
{
    if 0 <= position < operation.read().len() {
        match operation {
            Operation::Assign { src, .. } => {
                lemma_with_scalar_replaces_one(src, position, scalar);
            },
            Operation::Store { index, src, .. } => {
                if position >= 1 {
                    if position - 1 < index.scalars().len() {
                        lemma_with_scalar_replaces_one(index, position - 1, scalar);
                    } else {
                        lemma_with_scalar_replaces_one(
                            src,
                            position - 1 - index.scalars().len(),
                            scalar,
                        );
                    }
                }
            },
            Operation::Load { index, .. } => {
                if position >= 1 {
                    lemma_with_scalar_replaces_one(index, position - 1, scalar);
                }
            },
            Operation::Brc { target, condition } => {
                if position < target.scalars().len() {
                    lemma_with_scalar_replaces_one(target, position, scalar);
                } else {
                    lemma_with_scalar_replaces_one(
                        condition,
                        position - target.scalars().len(),
                        scalar,
                    );
                }
            },
            Operation::Raise { expr } => {
                lemma_with_scalar_replaces_one(expr, position, scalar);
            },
        }
    }
}

} // verus!
