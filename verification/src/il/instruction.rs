//! Instructions: operations with a position.

use vstd::prelude::*;
use vstd::string::StringExecFns;
use crate::error::Error;
use crate::il::array::Array;
use crate::il::expression::Expression;
use crate::il::operation::Operation;
use crate::il::scalar::Scalar;
use crate::il::serial::{
    encodes, fits, lemma_encodes_split, lemma_encodes_whole, number_bytes, optional_number_bytes,
    optional_string_bytes, put_number, put_optional_number, put_optional_string, take_number,
    take_optional_number, take_optional_string,
};
use crate::il::text::{characters, hex, hex_two, push_hex, push_hex_two};
use crate::il::variable::{Variable, variable_views, VariableMut};

verus! {

/// What an `Instruction` is: its operation, its index in its block, and
/// what is known of where it came from.
pub struct InstructionView {
    pub operation: Operation,
    pub index: u64,
    pub comment: Option<Seq<char>>,
    pub address: Option<u64>,
}

/// An operation at a position. The index names the instruction within its
/// block; the address, where there is one, is that of the machine
/// instruction it was lifted from.
///
/// Blocks make instructions through their own methods, which choose the
/// index. One made here has the index that the caller gives.
#[derive(Debug, PartialEq, Eq, Hash, PartialOrd, Ord)]
pub struct Instruction {
    operation: Operation,
    index: u64,
    comment: Option<String>,
    address: Option<u64>,
}

impl View for Instruction {
    type V = InstructionView;

    closed spec fn view(&self) -> InstructionView {
        InstructionView {
            operation: self.operation,
            index: self.index,
            comment: characters(self.comment),
            address: self.address,
        }
    }
}

/// The instruction that `new` makes of an operation: no comment, no address.
pub open spec fn bare(index: u64, operation: Operation) -> InstructionView {
    InstructionView { operation: operation, index: index, comment: None, address: None }
}

/// What the constructors of instructions return for what the constructor of
/// the operation returned: the bare instruction that holds the operation,
/// or the same error.
pub open spec fn holds_checked(
    r: Result<Instruction, Error>,
    index: u64,
    operation: Result<Operation, Error>,
) -> bool {
    match operation {
        Ok(operation) => r is Ok && r->Ok_0@ == bare(index, operation),
        Err(error) => r == Err::<Instruction, Error>(error),
    }
}

impl Instruction {
    /// An instruction is well formed when its operation is.
    pub open spec fn well_formed(&self) -> bool {
        self@.operation.well_formed()
    }

    /// Create an instruction with the given index and operation, without
    /// comment or address.
    pub fn new(index: u64, operation: Operation) -> (instruction: Instruction)
        ensures
            instruction@ == bare(index, operation),
    {
        Instruction { operation: operation, index: index, comment: None, address: None }
    }

    /// Create an instruction that assigns `src` to `dst`.
    pub fn assign(index: u64, dst: Scalar, src: Expression) -> (r: Result<Instruction, Error>)
        ensures
            holds_checked(r, index, Operation::checked_assign(dst, src)),
    {
        match Operation::assign(dst, src) {
            Ok(operation) => Ok(Instruction::new(index, operation)),
            Err(error) => Err(error),
        }
    }

    /// Create an instruction that stores `src` into `dst` at `dst_index`.
    pub fn store(instruction_index: u64, dst: Array, dst_index: Expression, src: Expression) -> (r:
        Result<Instruction, Error>)
        ensures
            holds_checked(r, instruction_index, Operation::checked_store(dst, dst_index, src)),
    {
        match Operation::store(dst, dst_index, src) {
            Ok(operation) => Ok(Instruction::new(instruction_index, operation)),
            Err(error) => Err(error),
        }
    }

    /// Create an instruction that loads `dst` from `src` at `src_index`.
    pub fn load(instruction_index: u64, dst: Scalar, src_index: Expression, src: Array) -> (r:
        Result<Instruction, Error>)
        ensures
            holds_checked(r, instruction_index, Operation::checked_load(dst, src_index, src)),
    {
        match Operation::load(dst, src_index, src) {
            Ok(operation) => Ok(Instruction::new(instruction_index, operation)),
            Err(error) => Err(error),
        }
    }

    /// Create an instruction that branches to `target` where `condition`
    /// holds.
    pub fn brc(index: u64, target: Expression, condition: Expression) -> (r: Result<
        Instruction,
        Error,
    >)
        ensures
            holds_checked(r, index, Operation::checked_brc(target, condition)),
    {
        match Operation::brc(target, condition) {
            Ok(operation) => Ok(Instruction::new(index, operation)),
            Err(error) => Err(error),
        }
    }

    /// Create an instruction that raises `expr`.
    pub fn raise(index: u64, expr: Expression) -> (instruction: Instruction)
        ensures
            instruction@ == bare(index, Operation::Raise { expr }),
    {
        Instruction::new(index, Operation::raise(expr))
    }

    /// Whether the operation of this instruction is an assignment.
    pub fn is_assign(&self) -> (r: bool)
        ensures
            r == (self@.operation is Assign),
    {
        self.operation.is_assign()
    }

    /// Whether the operation of this instruction is a store.
    pub fn is_store(&self) -> (r: bool)
        ensures
            r == (self@.operation is Store),
    {
        self.operation.is_store()
    }

    /// Whether the operation of this instruction is a load.
    pub fn is_load(&self) -> (r: bool)
        ensures
            r == (self@.operation is Load),
    {
        self.operation.is_load()
    }

    /// Whether the operation of this instruction is a conditional branch.
    pub fn is_brc(&self) -> (r: bool)
        ensures
            r == (self@.operation is Brc),
    {
        self.operation.is_brc()
    }

    /// Whether the operation of this instruction is a raise.
    pub fn is_raise(&self) -> (r: bool)
        ensures
            r == (self@.operation is Raise),
    {
        self.operation.is_raise()
    }

    /// The operation of this instruction.
    pub fn operation(&self) -> (operation: &Operation)
        ensures
            *operation == self@.operation,
    {
        &self.operation
    }

    /// The operation of this instruction, in its place. What the caller
    /// writes through it becomes the operation; index, comment and address
    /// stay.
    pub fn operation_mut(&mut self) -> (operation: &mut Operation)
        ensures
            *operation == old(self)@.operation,
            final(self)@ == (InstructionView { operation: *final(operation), ..old(self)@ }),
    {
        &mut self.operation
    }

    /// The index of this instruction: its name within its block.
    pub fn index(&self) -> (index: u64)
        ensures
            index == self@.index,
    {
        self.index
    }

    /// The comment of this instruction, if it has one.
    pub fn comment(&self) -> (comment: &Option<String>)
        ensures
            characters(*comment) == self@.comment,
    {
        &self.comment
    }

    /// Set or clear the comment.
    pub fn set_comment(&mut self, comment: Option<String>)
        ensures
            final(self)@ == (InstructionView { comment: characters(comment), ..old(self)@ }),
    {
        self.comment = comment;
    }

    /// The address of this instruction, if it has one.
    pub fn address(&self) -> (address: Option<u64>)
        ensures
            address == self@.address,
    {
        self.address
    }

    /// Set or clear the address.
    pub fn set_address(&mut self, address: Option<u64>)
        ensures
            final(self)@ == (InstructionView { address: address, ..old(self)@ }),
    {
        self.address = address;
    }

    /// A copy of this instruction under another index.
    pub fn clone_new_index(&self, index: u64) -> (instruction: Instruction)
        ensures
            instruction@ == (InstructionView { index: index, ..self@ }),
    {
        Instruction {
            operation: self.operation.clone(),
            index: index,
            comment: clone_comment(&self.comment),
            address: self.address,
        }
    }

    /// The variable that this instruction writes, if it writes one.
    pub fn variable_written(&self) -> (variable: Option<Variable<'_>>)
        ensures
            match variable {
                Some(variable) => self@.operation.written() == Some(variable@),
                None => self@.operation.written() is None,
            },
    {
        self.operation.variable_written()
    }

    /// The variables that this instruction reads.
    pub fn variables_read(&self) -> (variables: Vec<Variable<'_>>)
        ensures
            variable_views(variables@) == self@.operation.read(),
    {
        self.operation.variables_read()
    }
    /// The variable that this instruction writes, in its place.
    ///
    /// What the caller writes through the place is written into the
    /// operation, and nothing else of the instruction changes.
    pub fn variable_written_mut(&mut self) -> (variable: Option<VariableMut<'_>>)
        ensures
            old(self)@.operation.written() is Some ==> ({
                &&& variable matches Some(variable)
                &&& Some(variable@) == old(self)@.operation.written()
                &&& variable matches VariableMut::Scalar(place) ==> final(self)@ == (
                InstructionView {
                    operation: old(self)@.operation.with_written_scalar(*final(place)),
                    ..old(self)@
                })
                &&& variable matches VariableMut::Array(place) ==> final(self)@ == (
                InstructionView {
                    operation: old(self)@.operation.with_written_array(*final(place)),
                    ..old(self)@
                })
            }),
            old(self)@.operation.written() is None ==> variable is None && *final(self) == *old(
                self,
            ),
    {
        self.operation.variable_written_mut()
    }

    /// The variable that is read at `position` of the operation's `read()`,
    /// in its place; `None` where the operation reads no such variable.
    ///
    /// What the caller writes through the place is written into the
    /// operation, and nothing else of the instruction changes.
    pub fn variables_read_mut(&mut self, position: usize) -> (variable: Option<VariableMut<'_>>)
        ensures
            position < old(self)@.operation.read().len() ==> ({
                &&& variable matches Some(variable)
                &&& variable@ == old(self)@.operation.read()[position as int]
                &&& variable matches VariableMut::Scalar(place) ==> final(self)@ == (
                InstructionView {
                    operation: old(self)@.operation.with_read_scalar(
                        position as int,
                        *final(place),
                    ),
                    ..old(self)@
                })
                &&& variable matches VariableMut::Array(place) ==> final(self)@ == (
                InstructionView {
                    operation: old(self)@.operation.with_read_array(*final(place)),
                    ..old(self)@
                })
            }),
            position >= old(self)@.operation.read().len() ==> variable is None && *final(self)
                == *old(self),
    {
        self.operation.variables_read_mut(position)
    }
}

/// A copy of an optional comment.
fn clone_comment(comment: &Option<String>) -> (copy: Option<String>)
    ensures
        copy == *comment,
{
    match comment {
        Some(comment) => Some(comment.clone()),
        None => None,
    }
}

impl Clone for Instruction {
    fn clone(&self) -> (instruction: Self)
        ensures
            instruction == *self,
    {
        Instruction {
            operation: self.operation.clone(),
            index: self.index,
            comment: clone_comment(&self.comment),
            address: self.address,
        }
    }
}

impl InstructionView {
    /// The text of an instruction: its address in hexadecimal and a space,
    /// where it has an address; its index in hexadecimal with at least two
    /// digits; a space and its operation; and ` // ` and its comment, where
    /// it has a comment.
    pub open spec fn rendered(self) -> Seq<char> {
        (match self.address {
            Some(address) => hex(address as nat) + " "@,
            None => Seq::<char>::empty(),
        }) + hex_two(self.index as nat) + " "@ + self.operation.rendered() + (match self.comment {
            Some(comment) => " // "@ + comment,
            None => Seq::<char>::empty(),
        })
    }
}

impl Instruction {
    /// Append the text of this instruction.
    pub fn render_into(&self, text: &mut String)
        ensures
            final(text)@ == old(text)@ + self@.rendered(),
    {
        match self.address {
            Some(address) => {
                push_hex(text, address);
                text.append(" ");
            },
            None => {},
        }
        push_hex_two(text, self.index);
        text.append(" ");
        self.operation.render_into(text);
        match &self.comment {
            Some(comment) => {
                text.append(" // ");
                text.append(comment.as_str());
            },
            None => {},
        }
        assert(text@ =~= old(text)@ + self@.rendered());
    }

    /// The text of this instruction.
    pub fn render(&self) -> (text: String)
        ensures
            text@ == self@.rendered(),
    {
        let mut text = String::new();
        self.render_into(&mut text);
        assert(text@ =~= self@.rendered());
        text
    }
}

impl InstructionView {
    /// The serialized form of an instruction: its operation, its index, its
    /// comment, its address.
    pub open spec fn serialized(self) -> Seq<u8> {
        self.operation.serialized() + number_bytes(self.index) + optional_string_bytes(
            self.comment,
        ) + optional_number_bytes(self.address)
    }

    /// Whether this instruction and `other` are the same but for where they
    /// are held: they have like operations, the same index, the same
    /// comment and the same address.
    pub open spec fn alike(self, other: InstructionView) -> bool {
        &&& self.operation.alike(other.operation)
        &&& self.index == other.index
        &&& self.comment == other.comment
        &&& self.address == other.address
    }
}

/// Where the parts of a serialized instruction stand.
pub proof fn lemma_instruction_layout(bytes: Seq<u8>, start: int, instruction: InstructionView)
    ensures
        encodes(bytes, start, instruction.serialized()) <==> {
            &&& encodes(bytes, start, instruction.operation.serialized())
            &&& encodes(
                bytes,
                start + instruction.operation.serialized().len(),
                number_bytes(instruction.index),
            )
            &&& encodes(
                bytes,
                start + instruction.operation.serialized().len() + number_bytes(
                    instruction.index,
                ).len(),
                optional_string_bytes(instruction.comment),
            )
            &&& encodes(
                bytes,
                start + instruction.operation.serialized().len() + number_bytes(
                    instruction.index,
                ).len() + optional_string_bytes(instruction.comment).len(),
                optional_number_bytes(instruction.address),
            )
        },
        instruction.serialized().len() == instruction.operation.serialized().len() + number_bytes(
            instruction.index,
        ).len() + optional_string_bytes(instruction.comment).len() + optional_number_bytes(
            instruction.address,
        ).len(),
{
    let operation = instruction.operation.serialized();
    let index = number_bytes(instruction.index);
    let comment = optional_string_bytes(instruction.comment);
    let address = optional_number_bytes(instruction.address);
    lemma_encodes_split(bytes, start, operation + index + comment, address);
    lemma_encodes_split(bytes, start, operation + index, comment);
    lemma_encodes_split(bytes, start, operation, index);
}

impl Instruction {
    /// Append the serialized form of this instruction.
    pub fn encode_into(&self, out: &mut Vec<u8>)
        ensures
            final(out)@ == old(out)@ + self@.serialized(),
    {
        self.operation.encode_into(out);
        put_number(out, self.index);
        put_optional_string(out, &self.comment);
        put_optional_number(out, self.address);
        assert(out@ =~= old(out)@ + self@.serialized());
    }

    /// Read the instruction whose serialized form stands at `start`, and
    /// say where it ends. `None` where no instruction stands there.
    pub fn decode_at(bytes: &[u8], start: usize) -> (r: Option<(Instruction, usize)>)
        ensures
            r matches Some((instruction, end)) ==> encodes(
                bytes@,
                start as int,
                instruction@.serialized(),
            ) && end == start + instruction@.serialized().len(),
            forall|instruction: InstructionView|
                encodes(bytes@, start as int, #[trigger] instruction.serialized()) ==> ({
                    &&& r matches Some((read, end))
                    &&& read@.alike(instruction)
                    &&& end == start + instruction.serialized().len()
                }),
    {
        proof {
            assert forall|instruction: InstructionView|
                encodes(bytes@, start as int, #[trigger] instruction.serialized()) implies {
                &&& encodes(bytes@, start as int, instruction.operation.serialized())
                &&& encodes(
                    bytes@,
                    start + instruction.operation.serialized().len(),
                    number_bytes(instruction.index),
                )
                &&& encodes(
                    bytes@,
                    start + instruction.operation.serialized().len() + number_bytes(
                        instruction.index,
                    ).len(),
                    optional_string_bytes(instruction.comment),
                )
                &&& encodes(
                    bytes@,
                    start + instruction.operation.serialized().len() + number_bytes(
                        instruction.index,
                    ).len() + optional_string_bytes(instruction.comment).len(),
                    optional_number_bytes(instruction.address),
                )
                &&& instruction.serialized().len() == instruction.operation.serialized().len()
                    + number_bytes(instruction.index).len() + optional_string_bytes(
                    instruction.comment,
                ).len() + optional_number_bytes(instruction.address).len()
            } by {
                lemma_instruction_layout(bytes@, start as int, instruction);
            }
        }
        let (operation, first) = match Operation::decode_at(bytes, start) {
            Some(read) => read,
            None => {
                return None;
            },
        };
        let (index, second) = match take_number(bytes, first) {
            Some(read) => read,
            None => {
                return None;
            },
        };
        let (comment, third) = match take_optional_string(bytes, second) {
            Some(read) => read,
            None => {
                return None;
            },
        };
        let (address, end) = match take_optional_number(bytes, third) {
            Some(read) => read,
            None => {
                return None;
            },
        };
        let instruction = Instruction {
            operation: operation,
            index: index,
            comment: comment,
            address: address,
        };
        proof {
            lemma_instruction_layout(bytes@, start as int, instruction@);
        }
        Some((instruction, end))
    }
}

impl Instruction {
    /// The serialized form of this instruction.
    pub fn serialize(&self) -> (bytes: Vec<u8>)
        ensures
            bytes@ == self@.serialized(),
    {
        let mut bytes: Vec<u8> = Vec::new();
        self.encode_into(&mut bytes);
        assert(bytes@ =~= self@.serialized());
        bytes
    }

    /// The instruction of which `bytes` is the serialized form; `None` where it is
    /// the serialized form of none. What `serialize` returned for a instruction
    /// gives that instruction back.
    pub fn deserialize(bytes: &[u8]) -> (r: Option<Instruction>)
        ensures
            r matches Some(read) ==> bytes@ == read@.serialized(),
            forall|other: InstructionView|
                bytes@ == #[trigger] other.serialized() ==> ({
                    &&& r matches Some(read)
                    &&& read@.alike(other)
                }),
    {
        proof {
            assert forall|other: InstructionView| bytes@ == #[trigger] other.serialized() implies encodes(
                bytes@,
                0,
                other.serialized(),
            ) by {
                lemma_encodes_whole(bytes@, other.serialized());
            }
        }
        match Instruction::decode_at(bytes, 0) {
            Some((read, end)) => {
                if end == bytes.len() {
                    proof {
                        lemma_encodes_whole(bytes@, read@.serialized());
                    }
                    Some(read)
                } else {
                    None
                }
            },
            None => None,
        }
    }
}

impl Instruction {
    /// Whether this instruction is well formed.
    pub fn is_well_formed(&self) -> (r: bool)
        ensures
            r == self.well_formed(),
    {
        self.operation.is_well_formed()
    }
}

/// Being alike is an equivalence of instructions, and like instructions
/// have the same serialized form and the same text.
pub proof fn lemma_alike_instructions(a: InstructionView, b: InstructionView, c: InstructionView)
    ensures
        a.alike(a),
        a.alike(b) ==> b.alike(a),
        a.alike(b) && b.alike(c) ==> a.alike(c),
        a.alike(b) ==> a.serialized() == b.serialized() && a.rendered() == b.rendered(),
{
    crate::il::operation::lemma_alike_operations_are_equivalent(
        a.operation,
        b.operation,
        c.operation,
    );
    if a.alike(b) {
        crate::il::operation::lemma_alike_operations_agree(a.operation, b.operation);
    }
}

/// At one place stands one instruction at most: two instructions whose
/// serialized forms stand at one place are alike.
pub proof fn lemma_instruction_is_unique(
    bytes: Seq<u8>,
    start: int,
    a: InstructionView,
    b: InstructionView,
)
    requires
        fits(bytes),
        encodes(bytes, start, a.serialized()),
        encodes(bytes, start, b.serialized()),
    ensures
        a.alike(b),
        a.serialized() == b.serialized(),
{
    lemma_instruction_layout(bytes, start, a);
    lemma_instruction_layout(bytes, start, b);
    crate::il::operation::lemma_operation_is_unique(bytes, start, a.operation, b.operation);
    crate::il::operation::lemma_alike_operations_agree(a.operation, b.operation);
    let index = start + a.operation.serialized().len();
    crate::il::serial::lemma_number_is_unique(bytes, index, a.index, b.index);
    let comment = index + number_bytes(a.index).len();
    crate::il::serial::lemma_optional_string_is_unique(bytes, comment, a.comment, b.comment);
    let address = comment + optional_string_bytes(a.comment).len();
    crate::il::serial::lemma_optional_number_is_unique(bytes, address, a.address, b.address);
}

/// Instructions have the same serialized form exactly where they are alike.
/// The law speaks of forms whose length a number can hold.
pub proof fn lemma_instructions_serialize_apart(a: InstructionView, b: InstructionView)
    requires
        fits(a.serialized()),
    ensures
        a.serialized() == b.serialized() <==> a.alike(b),
{
    if a.serialized() == b.serialized() {
        lemma_encodes_whole(a.serialized(), a.serialized());
        lemma_instruction_is_unique(a.serialized(), 0, a, b);
    }
    lemma_alike_instructions(a, b, b);
}

} // verus!
