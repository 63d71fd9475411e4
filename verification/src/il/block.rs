//! Basic blocks: sequences of instructions.

use vstd::prelude::*;
use vstd::string::StringExecFns;
use crate::error::Error;
use crate::il::array::Array;
use crate::il::expression::{Expression, targets};
use crate::il::instruction::{bare, Instruction, InstructionView};
use crate::il::operation::Operation;
use crate::il::scalar::Scalar;
use crate::il::serial::{
    encodes, fits, items_bytes, lemma_encodes_split, lemma_encodes_whole, lemma_item_stands,
    lemma_items_bytes_len, lemma_items_bytes_push, lemma_same_items_agree, lemma_sequence_is_unique,
    number_bytes, optional_number_bytes, put_number, put_optional_number, reads_uniquely,
    sequence_bytes, take_number, take_optional_number,
};
use crate::il::text::{hex, push_hex};

verus! {

/// What a `Block` is: its index in its graph and its instructions in the
/// order in which they were added.
pub struct BlockView {
    pub index: u64,
    pub instructions: Seq<Instruction>,
}

/// A sequence of instructions. The index names the block within its graph.
///
/// The block gives each instruction that it makes an index of its own,
/// greater than any that it has held. Indices need be neither contiguous
/// nor in order, but no two instructions of a block share one.
#[derive(Debug, PartialEq, Eq, Hash, PartialOrd, Ord)]
pub struct Block {
    index: u64,
    instructions: Vec<Instruction>,
    /// The greatest index that an instruction of this block has had.
    greatest: Option<u64>,
}

impl View for Block {
    type V = BlockView;

    closed spec fn view(&self) -> BlockView {
        BlockView { index: self.index, instructions: self.instructions@ }
    }
}

/// Whether the indices of `instructions` are pairwise different.
pub open spec fn distinct_indices(instructions: Seq<Instruction>) -> bool {
    forall|i: int, j: int|
        0 <= i < instructions.len() && 0 <= j < instructions.len() && i != j
            ==> instructions[i]@.index != instructions[j]@.index
}

/// Whether the indices of `instructions` grow from each to the next.
pub open spec fn ascending_indices(instructions: Seq<Instruction>) -> bool {
    forall|i: int, j: int|
        0 <= i < j < instructions.len() ==> instructions[i]@.index < instructions[j]@.index
}

/// Whether an instruction of `instructions` has the index `index`.
pub open spec fn holds_index(instructions: Seq<Instruction>, index: u64) -> bool {
    exists|i: int| 0 <= i < instructions.len() && (#[trigger] instructions[i])@.index == index
}

/// The position in `instructions` of the first instruction with the index
/// `index`.
#[verifier::opaque]
pub open spec fn first_position(instructions: Seq<Instruction>, index: u64) -> int {
    choose|i: int|
        0 <= i < instructions.len() && (#[trigger] instructions[i])@.index == index
            && forall|k: int| 0 <= k < i ==> (#[trigger] instructions[k])@.index != index
}

/// Whether `after` is `before` with one more instruction at its end, which
/// is `added`.
pub open spec fn extended(before: BlockView, after: BlockView, added: InstructionView) -> bool {
    &&& after.index == before.index
    &&& after.instructions.len() == before.instructions.len() + 1
    &&& after.instructions.drop_last() == before.instructions
    &&& after.instructions.last()@ == added
}

impl Block {
    /// The index that the next instruction made by this block gets. It is
    /// greater than the index of every instruction that the block has held.
    pub closed spec fn fresh_index(&self) -> int {
        match self.greatest {
            Some(greatest) => greatest + 1,
            None => 0,
        }
    }

    /// A block is well formed when its instructions are well formed, no two
    /// of them share an index, and every index is below `fresh_index()`.
    pub open spec fn well_formed(&self) -> bool {
        &&& forall|i: int|
            0 <= i < self@.instructions.len() ==> (#[trigger] self@.instructions[i]).well_formed()
        &&& forall|i: int|
            0 <= i < self@.instructions.len() ==> (#[trigger] self@.instructions[i])@.index
                < self.fresh_index()
        &&& distinct_indices(self@.instructions)
        &&& 0 <= self.fresh_index() <= u64::MAX + 1
    }

    /// What a method that makes an instruction leaves, for what the
    /// constructor of the operation returned: with an operation, the block
    /// extended by the bare instruction that holds it under the fresh
    /// index, and that index as the result; with an error, the block as it
    /// was and the error.
    pub open spec fn made(
        before: Block,
        after: Block,
        r: Result<u64, Error>,
        operation: Result<Operation, Error>,
    ) -> bool {
        match operation {
            Ok(operation) => {
                &&& r == Ok::<u64, Error>(before.fresh_index() as u64)
                &&& extended(before@, after@, bare(before.fresh_index() as u64, operation))
                &&& after.fresh_index() == before.fresh_index() + 1
            },
            Err(error) => r == Err::<u64, Error>(error) && after == before,
        }
    }

    /// Create an empty block with the given index.
    pub fn new(index: u64) -> (block: Block)
        ensures
            block@ == (BlockView { index: index, instructions: seq![] }),
            block.fresh_index() == 0,
            block.well_formed(),
    {
        Block { index: index, instructions: Vec::new(), greatest: None }
    }

    /// The index of this block: its name within its graph.
    pub fn index(&self) -> (index: u64)
        ensures
            index == self@.index,
    {
        self.index
    }

    /// The instructions of this block, in the order in which they were
    /// added.
    pub fn instructions(&self) -> (instructions: &Vec<Instruction>)
        ensures
            instructions@ == self@.instructions,
    {
        &self.instructions
    }

    /// The number of instructions of this block.
    pub fn len(&self) -> (len: usize)
        ensures
            len == self@.instructions.len(),
    {
        self.instructions.len()
    }

    /// Whether this block has no instruction.
    pub fn is_empty(&self) -> (empty: bool)
        ensures
            empty == (self@.instructions.len() == 0),
    {
        self.instructions.len() == 0
    }

    /// The position of the first instruction with the given index.
    fn position(&self, index: u64) -> (position: Option<usize>)
        ensures
            match position {
                Some(position) => {
                    &&& holds_index(self@.instructions, index)
                    &&& position == first_position(self@.instructions, index)
                    &&& position < self@.instructions.len()
                    &&& self@.instructions[position as int]@.index == index
                },
                None => !holds_index(self@.instructions, index),
            },
    {
        let mut i: usize = 0;
        while i < self.instructions.len()
            invariant
                i <= self.instructions.len(),
                forall|k: int| 0 <= k < i ==> (#[trigger] self.instructions@[k])@.index != index,
            decreases self.instructions.len() - i,
        {
            if self.instructions[i].index() == index {
                proof {
                    reveal(first_position);
                    let first = first_position(self@.instructions, index);
                    assert(self@.instructions[i as int]@.index == index);
                    if first < i {
                        assert(self@.instructions[first]@.index != index);
                    }
                    if i < first {
                        assert(self@.instructions[i as int]@.index != index);
                    }
                }
                return Some(i);
            }
            i += 1;
        }
        None
    }

    /// The instruction with the given index, if the block holds one.
    pub fn instruction(&self, index: u64) -> (instruction: Option<&Instruction>)
        ensures
            match instruction {
                Some(instruction) => holds_index(self@.instructions, index) && *instruction
                    == self@.instructions[first_position(self@.instructions, index)],
                None => !holds_index(self@.instructions, index),
            },
    {
        match self.position(index) {
            Some(position) => Some(&self.instructions[position]),
            None => None,
        }
    }

    /// The instruction with the given index, in its place, if the block
    /// holds one.
    ///
    /// What the caller writes through the place is written into the block,
    /// and nothing else of it changes.
    pub fn instruction_mut(&mut self, index: u64) -> (instruction: Option<&mut Instruction>)
        ensures
            holds_index(old(self)@.instructions, index) ==> ({
                &&& instruction matches Some(place)
                &&& *place == old(self)@.instructions[first_position(
                    old(self)@.instructions,
                    index,
                )]
                &&& final(self)@ == (BlockView {
                    instructions: old(self)@.instructions.update(
                        first_position(old(self)@.instructions, index),
                        *final(place),
                    ),
                    ..old(self)@
                })
                &&& final(self).fresh_index() == old(self).fresh_index()
            }),
            !holds_index(old(self)@.instructions, index) ==> instruction is None && *final(self)
                == *old(self),
    {
        match self.position(index) {
            Some(position) => Some(&mut self.instructions[position]),
            None => None,
        }
    }

    /// Append the bare instruction that holds `operation`, under the fresh
    /// index, which has to fit.
    fn push_fresh(&mut self, operation: Operation) -> (index: u64)
        requires
            old(self).fresh_index() <= u64::MAX,
        ensures
            index == old(self).fresh_index(),
            extended(old(self)@, final(self)@, bare(index, operation)),
            final(self).fresh_index() == old(self).fresh_index() + 1,
            old(self).well_formed() && operation.well_formed() ==> final(self).well_formed(),
    {
        let index: u64 = match self.greatest {
            Some(greatest) => greatest + 1,
            None => 0,
        };
        self.instructions.push(Instruction::new(index, operation));
        self.greatest = Some(index);
        proof {
            assert(self@.instructions.drop_last() =~= old(self)@.instructions);
        }
        index
    }

    /// Append an instruction that assigns `src` to `dst`, and return its
    /// index.
    pub fn assign(&mut self, dst: Scalar, src: Expression) -> (r: Result<u64, Error>)
        requires
            old(self).fresh_index() <= u64::MAX,
        ensures
            Block::made(*old(self), *final(self), r, Operation::checked_assign(dst, src)),
            old(self).well_formed() && dst.well_formed() && src.well_formed() ==> final(self).well_formed(),
    {
        match Operation::assign(dst, src) {
            Ok(operation) => Ok(self.push_fresh(operation)),
            Err(error) => Err(error),
        }
    }

    /// Append an instruction that stores `src` into `dst` at `index`, and
    /// return its index.
    pub fn store(&mut self, dst: Array, index: Expression, src: Expression) -> (r: Result<
        u64,
        Error,
    >)
        requires
            old(self).fresh_index() <= u64::MAX,
        ensures
            Block::made(*old(self), *final(self), r, Operation::checked_store(dst, index, src)),
            old(self).well_formed() && index.well_formed() && src.well_formed() ==> final(self).well_formed(),
    {
        match Operation::store(dst, index, src) {
            Ok(operation) => Ok(self.push_fresh(operation)),
            Err(error) => Err(error),
        }
    }

    /// Append an instruction that loads `dst` from `src` at `index`, and
    /// return its index.
    pub fn load(&mut self, dst: Scalar, index: Expression, src: Array) -> (r: Result<u64, Error>)
        requires
            old(self).fresh_index() <= u64::MAX,
        ensures
            Block::made(*old(self), *final(self), r, Operation::checked_load(dst, index, src)),
            old(self).well_formed() && dst.well_formed() && index.well_formed() ==> final(self).well_formed(),
    {
        match Operation::load(dst, index, src) {
            Ok(operation) => Ok(self.push_fresh(operation)),
            Err(error) => Err(error),
        }
    }

    /// Append an instruction that branches to `target` where `condition`
    /// holds, and return its index.
    pub fn brc(&mut self, target: Expression, condition: Expression) -> (r: Result<u64, Error>)
        requires
            old(self).fresh_index() <= u64::MAX,
        ensures
            Block::made(*old(self), *final(self), r, Operation::checked_brc(target, condition)),
            old(self).well_formed() && target.well_formed() && condition.well_formed()
                ==> final(self).well_formed(),
    {
        match Operation::brc(target, condition) {
            Ok(operation) => Ok(self.push_fresh(operation)),
            Err(error) => Err(error),
        }
    }

    /// Append an instruction that raises `expr`, and return its index.
    pub fn raise(&mut self, expr: Expression) -> (index: u64)
        requires
            old(self).fresh_index() <= u64::MAX,
        ensures
            Block::made(
                *old(self),
                *final(self),
                Ok(index),
                Ok(Operation::Raise { expr }),
            ),
            old(self).well_formed() && expr.well_formed() ==> final(self).well_formed(),
    {
        self.push_fresh(Operation::raise(expr))
    }

    /// Append an instruction that was made elsewhere, under the index that
    /// it has. An error, and no change, where the block already holds an
    /// instruction with that index.
    pub fn push(&mut self, instruction: Instruction) -> (r: Result<(), Error>)
        ensures
            !holds_index(old(self)@.instructions, instruction@.index) ==> ({
                &&& r is Ok
                &&& final(self)@ == (BlockView {
                    instructions: old(self)@.instructions.push(instruction),
                    ..old(self)@
                })
                &&& final(self).fresh_index() == if instruction@.index < old(self).fresh_index() {
                    old(self).fresh_index()
                } else {
                    instruction@.index + 1
                }
            }),
            holds_index(old(self)@.instructions, instruction@.index) ==> r == Err::<(), Error>(
                Error::InstructionIndexCollision,
            ) && *final(self) == *old(self),
            old(self).well_formed() && instruction.well_formed() ==> final(self).well_formed(),
    {
        let index = instruction.index();
        match self.position(index) {
            Some(_) => Err(Error::InstructionIndexCollision),
            None => {
                let greater = match self.greatest {
                    Some(greatest) => index > greatest,
                    None => true,
                };
                if greater {
                    self.greatest = Some(index);
                }
                self.instructions.push(instruction);
                Ok(())
            },
        }
    }

    /// Append copies of the instructions of `other`, in their order, each
    /// under a fresh index.
    pub fn append(&mut self, other: &Block)
        requires
            old(self).fresh_index() + other@.instructions.len() <= u64::MAX + 1,
        ensures
            final(self)@.index == old(self)@.index,
            final(self)@.instructions.len() == old(self)@.instructions.len()
                + other@.instructions.len(),
            final(self)@.instructions.take(old(self)@.instructions.len() as int) == old(
                self,
            )@.instructions,
            forall|i: int|
                0 <= i < other@.instructions.len() ==> (#[trigger] final(self)@.instructions[old(
                    self,
                )@.instructions.len() + i])@ == (InstructionView {
                    index: (old(self).fresh_index() + i) as u64,
                    ..other@.instructions[i]@
                }),
            final(self).fresh_index() == old(self).fresh_index() + other@.instructions.len(),
            old(self).well_formed() && other.well_formed() ==> final(self).well_formed(),
    {
        let mut i: usize = 0;
        while i < other.instructions.len()
            invariant
                i <= other.instructions.len(),
                old(self).fresh_index() + other@.instructions.len() <= u64::MAX + 1,
                self@.index == old(self)@.index,
                self@.instructions.len() == old(self)@.instructions.len() + i,
                self@.instructions.take(old(self)@.instructions.len() as int) == old(
                    self,
                )@.instructions,
                forall|k: int|
                    0 <= k < i ==> (#[trigger] self@.instructions[old(self)@.instructions.len()
                        + k])@ == (InstructionView {
                        index: (old(self).fresh_index() + k) as u64,
                        ..other@.instructions[k]@
                    }),
                self.fresh_index() == old(self).fresh_index() + i,
                old(self).well_formed() && other.well_formed() ==> self.well_formed(),
            decreases other.instructions.len() - i,
        {
            let index: u64 = match self.greatest {
                Some(greatest) => greatest + 1,
                None => 0,
            };
            let ghost before = self@.instructions;
            self.instructions.push(other.instructions[i].clone_new_index(index));
            self.greatest = Some(index);
            proof {
                assert(self@.instructions.take(old(self)@.instructions.len() as int)
                    =~= before.take(old(self)@.instructions.len() as int));
                assert forall|k: int| 0 <= k < i + 1 implies (#[trigger] self@.instructions[old(
                    self,
                )@.instructions.len() + k])@ == (InstructionView {
                    index: (old(self).fresh_index() + k) as u64,
                    ..other@.instructions[k]@
                }) by {
                    if k < i {
                        assert(self@.instructions[old(self)@.instructions.len() + k]
                            == before[old(self)@.instructions.len() + k]);
                    }
                }
                if old(self).well_formed() && other.well_formed() {
                    assert(other@.instructions[i as int].well_formed());
                    assert forall|a: int| 0 <= a < self@.instructions.len() implies (
                    #[trigger] self@.instructions[a]).well_formed() && self@.instructions[a]@.index
                        < self.fresh_index() by {
                        if a < before.len() {
                            assert(self@.instructions[a] == before[a]);
                        }
                    }
                    assert forall|a: int, b: int|
                        0 <= a < self@.instructions.len() && 0 <= b < self@.instructions.len() && a
                            != b implies self@.instructions[a]@.index
                        != self@.instructions[b]@.index by {
                        if a < before.len() {
                            assert(self@.instructions[a] == before[a]);
                        }
                        if b < before.len() {
                            assert(self@.instructions[b] == before[b]);
                        }
                    }
                }
            }
            i += 1;
        }
    }
}

/// No two instructions of a well-formed block share an index.
pub proof fn lemma_instruction_indices_are_unique(block: Block, i: int, j: int)
    requires
        block.well_formed(),
        0 <= i < block@.instructions.len(),
        0 <= j < block@.instructions.len(),
        i != j,
    ensures
        block@.instructions[i]@.index != block@.instructions[j]@.index,
{
}

/// An instruction that a block makes gets an index above those that the
/// block holds: where the indices grew from each instruction to the next
/// before, they still do after.
pub proof fn lemma_made_indices_ascend(before: Block, after: Block, added: InstructionView)
    requires
        before.well_formed(),
        extended(before@, after@, added),
        added.index == before.fresh_index(),
    ensures
        forall|i: int|
            0 <= i < before@.instructions.len() ==> (#[trigger] before@.instructions[i])@.index
                < added.index,
        ascending_indices(before@.instructions) ==> ascending_indices(after@.instructions),
{
    if ascending_indices(before@.instructions) {
        assert forall|i: int, j: int|
            0 <= i < j < after@.instructions.len() implies after@.instructions[i]@.index
            < after@.instructions[j]@.index by {
            assert(after@.instructions[i] == after@.instructions.drop_last()[i]);
            if j < before@.instructions.len() {
                assert(after@.instructions[j] == after@.instructions.drop_last()[j]);
            }
        }
    }
}

impl Block {
    /// A copy of this block under another index. The copy holds the same
    /// instructions under the same indices.
    pub fn clone_new_index(&self, index: u64) -> (block: Block)
        ensures
            block@ == (BlockView { index: index, ..self@ }),
            block.fresh_index() == self.fresh_index(),
    {
        let mut block = self.clone();
        block.index = index;
        block
    }
}

impl Clone for Block {
    fn clone(&self) -> (block: Self)
        ensures
            block@ == self@,
            block.fresh_index() == self.fresh_index(),
    {
        let mut instructions: Vec<Instruction> = Vec::new();
        let mut i: usize = 0;
        while i < self.instructions.len()
            invariant
                i <= self.instructions.len(),
                instructions@ == self.instructions@.take(i as int),
            decreases self.instructions.len() - i,
        {
            instructions.push(self.instructions[i].clone());
            assert(instructions@ =~= self.instructions@.take(i + 1));
            i += 1;
        }
        assert(instructions@ =~= self.instructions@);
        Block { index: self.index, instructions: instructions, greatest: self.greatest }
    }
}

/// The serialized form of an instruction, as a function.
pub open spec fn instruction_form() -> spec_fn(Instruction) -> Seq<u8> {
    |instruction: Instruction| instruction@.serialized()
}

/// Whether two sequences of instructions are equally long and hold like
/// instructions at each position.
pub open spec fn alike_instructions(read: Seq<Instruction>, other: Seq<Instruction>) -> bool {
    &&& read.len() == other.len()
    &&& forall|k: int| 0 <= k < read.len() ==> (#[trigger] read[k])@.alike(other[k]@)
}

/// Read the instructions whose serialized form stands at `start`, and say
/// where it ends.
fn decode_instructions(bytes: &[u8], start: usize) -> (r: Option<(Vec<Instruction>, usize)>)
    ensures
        r matches Some((instructions, end)) ==> encodes(
            bytes@,
            start as int,
            sequence_bytes(instructions@, instruction_form()),
        ) && end == start + sequence_bytes(instructions@, instruction_form()).len(),
        forall|other: Seq<Instruction>|
            encodes(bytes@, start as int, #[trigger] sequence_bytes(other, instruction_form()))
                ==> ({
                &&& r matches Some((instructions, end))
                &&& alike_instructions(instructions@, other)
                &&& end == start + sequence_bytes(other, instruction_form()).len()
            }),
{
    let form = Ghost(instruction_form());
    let total = bytes.len();
    proof {
        assert forall|item: Instruction| (#[trigger] form@(item)).len() >= 1 by {
            crate::il::instruction::lemma_instruction_layout(bytes@, 0, item@);
            crate::il::serial::lemma_number(item@.index);
        }
        assert forall|other: Seq<Instruction>|
            encodes(bytes@, start as int, #[trigger] sequence_bytes(other, form@)) implies encodes(
            bytes@,
            start as int,
            number_bytes(other.len() as u64),
        ) && encodes(bytes@, start + 8, items_bytes(other, form@)) && other.len() <= total by {
            crate::il::serial::lemma_number(other.len() as u64);
            lemma_encodes_split(
                bytes@,
                start as int,
                number_bytes(other.len() as u64),
                items_bytes(other, form@),
            );
            lemma_items_bytes_len(other, form@);
        }
    }
    let (count, first) = match take_number(bytes, start) {
        Some(read) => read,
        None => {
            return None;
        },
    };
    if count > total as u64 {
        return None;
    }
    let mut instructions: Vec<Instruction> = Vec::new();
    let mut position = first;
    let mut i: u64 = 0;
    proof {
        crate::il::serial::lemma_number(count);
        assert(bytes@.subrange(first as int, first as int) =~= Seq::<u8>::empty());
        assert(instructions@.take(0) =~= instructions@);
    }
    while i < count
        invariant
            i <= count,
            count <= total,
            total == bytes@.len(),
            form@ == instruction_form(),
            first == start + 8,
            forall|other: Seq<Instruction>|
                encodes(bytes@, start as int, #[trigger] sequence_bytes(other, form@))
                    ==> other.len() == count && encodes(
                    bytes@,
                    first as int,
                    items_bytes(other, form@),
                ),
            instructions@.len() == i,
            encodes(bytes@, first as int, items_bytes(instructions@, form@)),
            position == first + items_bytes(instructions@, form@).len(),
            forall|other: Seq<Instruction>|
                other.len() == count && encodes(
                    bytes@,
                    first as int,
                    #[trigger] items_bytes(other, form@),
                ) ==> position == first + items_bytes(other.take(i as int), form@).len()
                    && forall|k: int|
                    0 <= k < i ==> (#[trigger] instructions@[k])@.alike(other[k]@),
        decreases count - i,
    {
        proof {
            assert forall|other: Seq<Instruction>|
                other.len() == count && encodes(
                    bytes@,
                    first as int,
                    #[trigger] items_bytes(other, form@),
                ) implies encodes(bytes@, position as int, other[i as int]@.serialized())
                && items_bytes(other.take(i + 1), form@) == items_bytes(
                other.take(i as int),
                form@,
            ) + other[i as int]@.serialized() by {
                lemma_item_stands(bytes@, first as int, other, form@, i as int);
            }
        }
        let (instruction, next) = match Instruction::decode_at(bytes, position) {
            Some(read) => read,
            None => {
                return None;
            },
        };
        proof {
            lemma_items_bytes_push(instructions@, instruction, form@);
            lemma_encodes_split(
                bytes@,
                first as int,
                items_bytes(instructions@, form@),
                instruction@.serialized(),
            );
        }
        instructions.push(instruction);
        position = next;
        i += 1;
    }
    proof {
        crate::il::serial::lemma_number(count);
        lemma_encodes_split(
            bytes@,
            start as int,
            number_bytes(count),
            items_bytes(instructions@, form@),
        );
        assert forall|other: Seq<Instruction>|
            encodes(bytes@, start as int, #[trigger] sequence_bytes(other, form@)) implies other.len()
            == count && other.take(count as int) == other by {
            crate::il::serial::lemma_number(other.len() as u64);
            assert(other.take(other.len() as int) =~= other);
        }
    }
    Some((instructions, position))
}

/// Append the serialized form of a sequence of instructions.
fn encode_instructions(instructions: &Vec<Instruction>, out: &mut Vec<u8>)
    ensures
        final(out)@ == old(out)@ + sequence_bytes(instructions@, instruction_form()),
{
    put_number(out, instructions.len() as u64);
    let mut i: usize = 0;
    assert(instructions@.take(0) =~= Seq::<Instruction>::empty());
    while i < instructions.len()
        invariant
            i <= instructions.len(),
            out@ == old(out)@ + number_bytes(instructions@.len() as u64) + items_bytes(
                instructions@.take(i as int),
                instruction_form(),
            ),
        decreases instructions.len() - i,
    {
        instructions[i].encode_into(out);
        proof {
            assert(instructions@.take(i + 1) =~= instructions@.take(i as int).push(
                instructions@[i as int],
            ));
            lemma_items_bytes_push(
                instructions@.take(i as int),
                instructions@[i as int],
                instruction_form(),
            );
            assert(out@ =~= old(out)@ + number_bytes(instructions@.len() as u64) + items_bytes(
                instructions@.take(i + 1),
                instruction_form(),
            ));
        }
        i += 1;
    }
    assert(instructions@.take(i as int) =~= instructions@);
    assert(out@ =~= old(out)@ + sequence_bytes(instructions@, instruction_form()));
}

impl Block {
    /// The serialized form of this block: its index, the greatest index
    /// that one of its instructions has had, and its instructions.
    pub closed spec fn serialized(&self) -> Seq<u8> {
        number_bytes(self.index) + optional_number_bytes(self.greatest) + sequence_bytes(
            self.instructions@,
            instruction_form(),
        )
    }

    /// Whether this block and `other` are the same but for where they are
    /// held: they have the same index, the same fresh index, and like
    /// instructions in the same order.
    pub open spec fn alike(&self, other: Block) -> bool {
        &&& self@.index == other@.index
        &&& self.fresh_index() == other.fresh_index()
        &&& alike_instructions(self@.instructions, other@.instructions)
    }

    /// Where the parts of a serialized block stand.
    proof fn lemma_layout(bytes: Seq<u8>, start: int, block: Block)
        ensures
            encodes(bytes, start, block.serialized()) <==> {
                &&& encodes(bytes, start, number_bytes(block.index))
                &&& encodes(
                    bytes,
                    start + number_bytes(block.index).len(),
                    optional_number_bytes(block.greatest),
                )
                &&& encodes(
                    bytes,
                    start + number_bytes(block.index).len() + optional_number_bytes(
                        block.greatest,
                    ).len(),
                    sequence_bytes(block.instructions@, instruction_form()),
                )
            },
            block.serialized().len() == number_bytes(block.index).len() + optional_number_bytes(
                block.greatest,
            ).len() + sequence_bytes(block.instructions@, instruction_form()).len(),
            block.serialized().len() >= 1,
    {
        let index = number_bytes(block.index);
        let greatest = optional_number_bytes(block.greatest);
        let instructions = sequence_bytes(block.instructions@, instruction_form());
        lemma_encodes_split(bytes, start, index + greatest, instructions);
        lemma_encodes_split(bytes, start, index, greatest);
        crate::il::serial::lemma_number(block.index);
    }

    /// A serialized block is not empty.
    pub proof fn lemma_serialized_is_not_empty(block: Block)
        ensures
            block.serialized().len() >= 1,
    {
        Block::lemma_layout(Seq::<u8>::empty(), 0, block);
    }

    /// Append the serialized form of this block.
    pub fn encode_into(&self, out: &mut Vec<u8>)
        ensures
            final(out)@ == old(out)@ + self.serialized(),
    {
        put_number(out, self.index);
        put_optional_number(out, self.greatest);
        encode_instructions(&self.instructions, out);
        assert(out@ =~= old(out)@ + self.serialized());
    }

    /// Read the block whose serialized form stands at `start`, and say
    /// where it ends. `None` where no block stands there.
    pub fn decode_at(bytes: &[u8], start: usize) -> (r: Option<(Block, usize)>)
        ensures
            r matches Some((block, end)) ==> encodes(bytes@, start as int, block.serialized())
                && end == start + block.serialized().len(),
            forall|block: Block|
                encodes(bytes@, start as int, #[trigger] block.serialized()) ==> ({
                    &&& r matches Some((read, end))
                    &&& read.alike(block)
                    &&& end == start + block.serialized().len()
                }),
    {
        proof {
            assert forall|block: Block|
                encodes(bytes@, start as int, #[trigger] block.serialized()) implies {
                &&& encodes(bytes@, start as int, number_bytes(block.index))
                &&& encodes(
                    bytes@,
                    start + number_bytes(block.index).len(),
                    optional_number_bytes(block.greatest),
                )
                &&& encodes(
                    bytes@,
                    start + number_bytes(block.index).len() + optional_number_bytes(
                        block.greatest,
                    ).len(),
                    sequence_bytes(block.instructions@, instruction_form()),
                )
                &&& block.serialized().len() == number_bytes(block.index).len()
                    + optional_number_bytes(block.greatest).len() + sequence_bytes(
                    block.instructions@,
                    instruction_form(),
                ).len()
            } by {
                Block::lemma_layout(bytes@, start as int, block);
            }
        }
        let (index, first) = match take_number(bytes, start) {
            Some(read) => read,
            None => {
                return None;
            },
        };
        let (greatest, second) = match take_optional_number(bytes, first) {
            Some(read) => read,
            None => {
                return None;
            },
        };
        let (instructions, end) = match decode_instructions(bytes, second) {
            Some(read) => read,
            None => {
                return None;
            },
        };
        let block = Block { index: index, instructions: instructions, greatest: greatest };
        proof {
            Block::lemma_layout(bytes@, start as int, block);
        }
        Some((block, end))
    }

    /// The serialized form of this block.
    pub fn serialize(&self) -> (bytes: Vec<u8>)
        ensures
            bytes@ == self.serialized(),
    {
        let mut bytes: Vec<u8> = Vec::new();
        self.encode_into(&mut bytes);
        assert(bytes@ =~= self.serialized());
        bytes
    }

    /// The block of which `bytes` is the serialized form; `None` where it
    /// is the serialized form of none. What `serialize` returned for a
    /// block gives that block back.
    pub fn deserialize(bytes: &[u8]) -> (r: Option<Block>)
        ensures
            r matches Some(read) ==> bytes@ == read.serialized(),
            forall|other: Block|
                bytes@ == #[trigger] other.serialized() ==> ({
                    &&& r matches Some(read)
                    &&& read.alike(other)
                }),
    {
        proof {
            assert forall|other: Block| bytes@ == #[trigger] other.serialized() implies encodes(
                bytes@,
                0,
                other.serialized(),
            ) by {
                lemma_encodes_whole(bytes@, other.serialized());
            }
        }
        match Block::decode_at(bytes, 0) {
            Some((read, end)) => {
                if end == bytes.len() {
                    proof {
                        lemma_encodes_whole(bytes@, read.serialized());
                    }
                    Some(read)
                } else {
                    None
                }
            },
            None => None,
        }
    }
}

impl Block {
    /// Whether this block is well formed.
    pub fn is_well_formed(&self) -> (r: bool)
        ensures
            r == self.well_formed(),
    {
        let mut i: usize = 0;
        while i < self.instructions.len()
            invariant
                i <= self.instructions.len(),
                forall|k: int| 0 <= k < i ==> (#[trigger] self@.instructions[k]).well_formed(),
                forall|k: int|
                    0 <= k < i ==> (#[trigger] self@.instructions[k])@.index < self.fresh_index(),
                forall|a: int, b: int|
                    0 <= a < b < i ==> self@.instructions[a]@.index != self@.instructions[b]@.index,
            decreases self.instructions.len() - i,
        {
            let instruction = &self.instructions[i];
            if !instruction.is_well_formed() {
                return false;
            }
            let below = match self.greatest {
                Some(greatest) => instruction.index() <= greatest,
                None => false,
            };
            if !below {
                return false;
            }
            let mut j: usize = 0;
            while j < i
                invariant
                    j <= i < self.instructions.len(),
                    *instruction == self@.instructions[i as int],
                    forall|a: int|
                        0 <= a < j ==> self@.instructions[a]@.index != instruction@.index,
                decreases i - j,
            {
                if self.instructions[j].index() == instruction.index() {
                    return false;
                }
                j += 1;
            }
            i += 1;
        }
        true
    }
}

impl Block {
    /// Whether the block can give `count` more instructions an index each:
    /// what `append` asks for a block of `count` instructions, and the
    /// methods that make one instruction for a count of 1.
    pub fn has_room_for(&self, count: usize) -> (r: bool)
        ensures
            r == (self.fresh_index() + count <= u64::MAX + 1),
    {
        match self.greatest {
            Some(greatest) => count as u64 <= u64::MAX - greatest,
            None => true,
        }
    }
}

/// The scalars that occur in a sequence of instructions, in the order of
/// the instructions.
pub open spec fn instructions_scalars(instructions: Seq<Instruction>) -> Seq<Scalar>
    decreases instructions.len(),
{
    if instructions.len() == 0 {
        Seq::<Scalar>::empty()
    } else {
        instructions_scalars(instructions.drop_last()) + instructions.last()@.operation.scalars()
    }
}

impl Block {
    /// Every scalar of this block, in the order of the instructions.
    pub fn collect_scalars(&self) -> (found: Vec<&Scalar>)
        ensures
            targets(found@) == instructions_scalars(self@.instructions),
    {
        let mut found: Vec<&Scalar> = Vec::new();
        let mut i: usize = 0;
        assert(targets(found@) =~= instructions_scalars(self@.instructions.take(0)));
        while i < self.instructions.len()
            invariant
                i <= self.instructions.len(),
                targets(found@) == instructions_scalars(self@.instructions.take(i as int)),
            decreases self.instructions.len() - i,
        {
            let mut more = self.instructions[i].operation().collect_scalars();
            let ghost before = found@;
            found.append(&mut more);
            proof {
                assert(self@.instructions.take(i + 1).drop_last() =~= self@.instructions.take(
                    i as int,
                ));
                assert(targets(found@) =~= targets(before)
                    + self@.instructions[i as int]@.operation.scalars());
            }
            i += 1;
        }
        assert(self@.instructions.take(i as int) =~= self@.instructions);
        found
    }
}

/// The text of a sequence of instructions: each on a line of its own.
pub open spec fn instructions_rendered(instructions: Seq<Instruction>) -> Seq<char>
    decreases instructions.len(),
{
    if instructions.len() == 0 {
        Seq::<char>::empty()
    } else {
        instructions_rendered(instructions.drop_last()) + instructions.last()@.rendered() + "\n"@
    }
}

impl BlockView {
    /// The text of a block: a line `[ Block: 0x`, its index in hexadecimal,
    /// ` ]`, then its instructions, each on a line of its own.
    pub open spec fn rendered(self) -> Seq<char> {
        "[ Block: 0x"@ + hex(self.index as nat) + " ]\n"@ + instructions_rendered(
            self.instructions,
        )
    }
}

impl Block {
    /// Append the text of this block.
    pub fn render_into(&self, text: &mut String)
        ensures
            final(text)@ == old(text)@ + self@.rendered(),
    {
        text.append("[ Block: 0x");
        push_hex(text, self.index);
        text.append(" ]\n");
        let ghost head = text@;
        let mut i: usize = 0;
        assert(text@ =~= head + instructions_rendered(self@.instructions.take(0)));
        while i < self.instructions.len()
            invariant
                i <= self.instructions.len(),
                text@ == head + instructions_rendered(self@.instructions.take(i as int)),
            decreases self.instructions.len() - i,
        {
            self.instructions[i].render_into(text);
            text.append("\n");
            proof {
                assert(self@.instructions.take(i + 1).drop_last() =~= self@.instructions.take(
                    i as int,
                ));
                assert(text@ =~= head + instructions_rendered(self@.instructions.take(i + 1)));
            }
            i += 1;
        }
        assert(self@.instructions.take(i as int) =~= self@.instructions);
        assert(text@ =~= old(text)@ + self@.rendered());
    }

    /// The text of this block.
    pub fn render(&self) -> (text: String)
        ensures
            text@ == self@.rendered(),
    {
        let mut text = String::new();
        self.render_into(&mut text);
        assert(text@ =~= self@.rendered());
        text
    }
}

/// Being alike is an equivalence of sequences of instructions, and like
/// sequences have the same serialized form.
pub proof fn lemma_alike_instruction_sequences(
    a: Seq<Instruction>,
    b: Seq<Instruction>,
    c: Seq<Instruction>,
)
    ensures
        alike_instructions(a, a),
        alike_instructions(a, b) ==> alike_instructions(b, a),
        alike_instructions(a, b) && alike_instructions(b, c) ==> alike_instructions(a, c),
        alike_instructions(a, b) ==> sequence_bytes(a, instruction_form()) == sequence_bytes(
            b,
            instruction_form(),
        ),
{
    assert forall|k: int| 0 <= k < a.len() implies (#[trigger] a[k])@.alike(a[k]@) by {
        crate::il::instruction::lemma_alike_instructions(a[k]@, a[k]@, a[k]@);
    }
    if alike_instructions(a, b) {
        assert forall|k: int| 0 <= k < b.len() implies (#[trigger] b[k])@.alike(a[k]@) by {
            assert(a[k]@.alike(b[k]@));
            crate::il::instruction::lemma_alike_instructions(a[k]@, b[k]@, b[k]@);
        }
        assert forall|k: int| 0 <= k < a.len() implies instruction_form()(#[trigger] a[k])
            == instruction_form()(b[k]) by {
            assert(a[k]@.alike(b[k]@));
            crate::il::instruction::lemma_alike_instructions(a[k]@, b[k]@, b[k]@);
        }
        lemma_same_items_agree(a, b, instruction_form());
        if alike_instructions(b, c) {
            assert forall|k: int| 0 <= k < a.len() implies (#[trigger] a[k])@.alike(c[k]@) by {
                assert(a[k]@.alike(b[k]@));
                assert(b[k]@.alike(c[k]@));
                crate::il::instruction::lemma_alike_instructions(a[k]@, b[k]@, c[k]@);
            }
        }
    }
}

/// At each place of a sequence of bytes that fits stands one instruction at
/// most.
pub proof fn lemma_instructions_read_uniquely(bytes: Seq<u8>)
    requires
        fits(bytes),
    ensures
        reads_uniquely(bytes, instruction_form()),
        forall|item: Instruction| (#[trigger] instruction_form()(item)).len() >= 1,
{
    assert forall|start: int, x: Instruction, y: Instruction|
        #![trigger encodes(bytes, start, instruction_form()(x)), encodes(bytes, start, instruction_form()(y))]
        encodes(bytes, start, instruction_form()(x)) && encodes(
            bytes,
            start,
            instruction_form()(y),
        ) implies instruction_form()(x) == instruction_form()(y) by {
        crate::il::instruction::lemma_instruction_is_unique(bytes, start, x@, y@);
    }
    assert forall|item: Instruction| (#[trigger] instruction_form()(item)).len() >= 1 by {
        crate::il::instruction::lemma_instruction_layout(bytes, 0, item@);
        crate::il::serial::lemma_number(item@.index);
    }
}

impl Block {
    /// Being alike is an equivalence of blocks, and like blocks have the
    /// same serialized form.
    pub proof fn lemma_alike(a: Block, b: Block, c: Block)
        ensures
            a.alike(a),
            a.alike(b) ==> b.alike(a),
            a.alike(b) && b.alike(c) ==> a.alike(c),
            a.alike(b) ==> a.serialized() == b.serialized(),
    {
        lemma_alike_instruction_sequences(a@.instructions, b@.instructions, c@.instructions);
    }

    /// At one place stands one block at most: two blocks whose serialized
    /// forms stand at one place are alike.
    pub proof fn lemma_is_unique(bytes: Seq<u8>, start: int, a: Block, b: Block)
        requires
            fits(bytes),
            encodes(bytes, start, a.serialized()),
            encodes(bytes, start, b.serialized()),
        ensures
            a.alike(b),
            a.serialized() == b.serialized(),
    {
        Block::lemma_layout(bytes, start, a);
        Block::lemma_layout(bytes, start, b);
        crate::il::serial::lemma_number_is_unique(bytes, start, a.index, b.index);
        let greatest = start + number_bytes(a.index).len();
        crate::il::serial::lemma_optional_number_is_unique(
            bytes,
            greatest,
            a.greatest,
            b.greatest,
        );
        let instructions = greatest + optional_number_bytes(a.greatest).len();
        lemma_instructions_read_uniquely(bytes);
        lemma_sequence_is_unique(
            bytes,
            instructions,
            a.instructions@,
            b.instructions@,
            instruction_form(),
        );
        assert forall|k: int| 0 <= k < a@.instructions.len() implies (
        #[trigger] a@.instructions[k])@.alike(b@.instructions[k]@) by {
            assert(instruction_form()(a.instructions@[k]) == instruction_form()(
                b.instructions@[k],
            ));
            crate::il::instruction::lemma_instructions_serialize_apart(
                a@.instructions[k]@,
                b@.instructions[k]@,
            );
        }
    }

    /// Blocks have the same serialized form exactly where they are alike.
    /// The law speaks of forms whose length a number can hold.
    pub proof fn lemma_serialize_apart(a: Block, b: Block)
        requires
            fits(a.serialized()),
        ensures
            a.serialized() == b.serialized() <==> a.alike(b),
    {
        if a.serialized() == b.serialized() {
            lemma_encodes_whole(a.serialized(), a.serialized());
            Block::lemma_is_unique(a.serialized(), 0, a, b);
        }
        Block::lemma_alike(a, b, b);
    }
}

/// A well-formed block stays well formed where one of its instructions is
/// replaced by a well-formed instruction with the same index: what was
/// written through the place that `instruction_mut` gave may change
/// anything of the instruction but its index.
pub proof fn lemma_changed_instruction_keeps_well_formed(
    before: Block,
    after: Block,
    position: int,
    instruction: Instruction,
)
    requires
        before.well_formed(),
        0 <= position < before@.instructions.len(),
        after@ == (BlockView {
            instructions: before@.instructions.update(position, instruction),
            ..before@
        }),
        after.fresh_index() == before.fresh_index(),
        instruction@.index == before@.instructions[position]@.index,
        instruction.well_formed(),
    ensures
        after.well_formed(),
{
    assert forall|i: int| 0 <= i < after@.instructions.len() implies (
    #[trigger] after@.instructions[i]).well_formed() && after@.instructions[i]@.index
        < after.fresh_index() by {
        if i != position {
            assert(after@.instructions[i] == before@.instructions[i]);
        } else {
            assert(before@.instructions[position]@.index < before.fresh_index());
        }
    }
    assert forall|i: int, j: int|
        0 <= i < after@.instructions.len() && 0 <= j < after@.instructions.len() && i
            != j implies after@.instructions[i]@.index != after@.instructions[j]@.index by {
        assert(after@.instructions[i]@.index == before@.instructions[i]@.index);
        assert(after@.instructions[j]@.index == before@.instructions[j]@.index);
    }
}

/// The first position of an index that is held is a position at which it is
/// held, and it is held at no position before.
pub proof fn lemma_first_position(instructions: Seq<Instruction>, index: u64)
    requires
        holds_index(instructions, index),
    ensures
        0 <= first_position(instructions, index) < instructions.len(),
        instructions[first_position(instructions, index)]@.index == index,
        forall|k: int|
            0 <= k < first_position(instructions, index) ==> (#[trigger] instructions[k])@.index != index,
{
    reveal(first_position);
    let held = choose|i: int| 0 <= i < instructions.len() && (#[trigger] instructions[i])@.index == index;
    lemma_least_position(instructions, index, held);
}

/// Where an index is held at a position, it is held at a least position.
proof fn lemma_least_position(instructions: Seq<Instruction>, index: u64, held: int)
    requires
        0 <= held < instructions.len(),
        instructions[held]@.index == index,
    ensures
        exists|i: int|
            0 <= i < instructions.len() && (#[trigger] instructions[i])@.index == index && forall|k: int|
                0 <= k < i ==> (#[trigger] instructions[k])@.index != index,
    decreases held,
{
    if exists|k: int| 0 <= k < held && (#[trigger] instructions[k])@.index == index {
        let before = choose|k: int| 0 <= k < held && (#[trigger] instructions[k])@.index == index;
        lemma_least_position(instructions, index, before);
    }
}

} // verus!
