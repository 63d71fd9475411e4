//! Programs: functions by address.

use vstd::prelude::*;
use crate::error::Error;
use crate::il::function::{Function, FunctionView};
use crate::il::serial::{
    encodes, fits, items_bytes, lemma_encodes_split, lemma_encodes_whole, lemma_item_stands,
    lemma_items_bytes_len, lemma_items_bytes_push, lemma_same_items_agree, lemma_sequence_is_unique,
    number_bytes, put_number, sequence_bytes, take_number,
};

verus! {

/// What a `Program` is: its functions, in the order in which it received
/// them.
pub struct ProgramView {
    pub functions: Seq<Function>,
}

/// Whether a function of `functions` lies at `address`.
pub open spec fn holds_address(functions: Seq<Function>, address: u64) -> bool {
    exists|i: int| 0 <= i < functions.len() && (#[trigger] functions[i])@.address == address
}

/// The position in `functions` of the first function at `address`.
#[verifier::opaque]
pub open spec fn first_position(functions: Seq<Function>, address: u64) -> int {
    choose|i: int|
        0 <= i < functions.len() && (#[trigger] functions[i])@.address == address
            && forall|k: int| 0 <= k < i ==> (#[trigger] functions[k])@.address != address
}

/// Functions, at most one at each address. A function that a program holds
/// has as its index its position in the program.
#[derive(Debug, PartialEq, Eq, Hash, PartialOrd, Ord)]
pub struct Program {
    functions: Vec<Function>,
}

impl View for Program {
    type V = ProgramView;

    closed spec fn view(&self) -> ProgramView {
        ProgramView { functions: self.functions@ }
    }
}

impl Program {
    /// A program is well formed when its functions are well formed, no two
    /// of them lie at one address, and each has its position as its index.
    pub open spec fn well_formed(&self) -> bool {
        &&& forall|i: int|
            0 <= i < self@.functions.len() ==> (#[trigger] self@.functions[i]).well_formed()
                && self@.functions[i]@.index == Some(i as u64)
        &&& forall|i: int, j: int|
            0 <= i < self@.functions.len() && 0 <= j < self@.functions.len() && i != j ==> (
            #[trigger] self@.functions[i])@.address != (#[trigger] self@.functions[j])@.address
    }

    /// Create a program without functions.
    pub fn new() -> (program: Program)
        ensures
            program@.functions == Seq::<Function>::empty(),
            program.well_formed(),
    {
        Program { functions: Vec::new() }
    }

    /// The functions of this program, in the order in which it received
    /// them.
    pub fn functions(&self) -> (functions: &Vec<Function>)
        ensures
            functions@ == self@.functions,
    {
        &self.functions
    }

    /// The position of the first function at the given address.
    fn position(&self, address: u64) -> (position: Option<usize>)
        ensures
            match position {
                Some(position) => {
                    &&& holds_address(self@.functions, address)
                    &&& position == first_position(self@.functions, address)
                    &&& position < self@.functions.len()
                    &&& self@.functions[position as int]@.address == address
                },
                None => !holds_address(self@.functions, address),
            },
    {
        let mut i: usize = 0;
        while i < self.functions.len()
            invariant
                i <= self.functions.len(),
                forall|k: int| 0 <= k < i ==> (#[trigger] self.functions@[k])@.address != address,
            decreases self.functions.len() - i,
        {
            if self.functions[i].address() == address {
                proof {
                    reveal(first_position);
                    let first = first_position(self@.functions, address);
                    assert(self@.functions[i as int]@.address == address);
                    if first < i {
                        assert(self@.functions[first]@.address != address);
                    }
                    if i < first {
                        assert(self@.functions[i as int]@.address != address);
                    }
                }
                return Some(i);
            }
            i += 1;
        }
        None
    }

    /// The function at the given address, if the program holds one.
    pub fn function_by_address(&self, address: u64) -> (function: Option<&Function>)
        ensures
            match function {
                Some(function) => holds_address(self@.functions, address) && *function
                    == self@.functions[first_position(self@.functions, address)],
                None => !holds_address(self@.functions, address),
            },
    {
        match self.position(address) {
            Some(position) => Some(&self.functions[position]),
            None => None,
        }
    }

    /// The function at the given position, if the program holds so many.
    pub fn function(&self, index: u64) -> (function: Option<&Function>)
        ensures
            index < self@.functions.len() ==> ({
                &&& function matches Some(function)
                &&& *function == self@.functions[index as int]
            }),
            index >= self@.functions.len() ==> function is None,
    {
        if index < self.functions.len() as u64 {
            Some(&self.functions[index as usize])
        } else {
            None
        }
    }

    /// Add a function, and return its position in the program, which
    /// becomes its index. An error, and no change, where the program
    /// already holds a function at the address.
    pub fn add_function(&mut self, function: Function) -> (r: Result<u64, Error>)
        ensures
            holds_address(old(self)@.functions, function@.address) ==> r == Err::<u64, Error>(
                Error::AddressCollision,
            ) && *final(self) == *old(self),
            !holds_address(old(self)@.functions, function@.address) ==> ({
                &&& r == Ok::<u64, Error>(old(self)@.functions.len() as u64)
                &&& final(self)@.functions.len() == old(self)@.functions.len() + 1
                &&& final(self)@.functions.drop_last() == old(self)@.functions
                &&& final(self)@.functions.last()@ == (FunctionView {
                    index: Some(old(self)@.functions.len() as u64),
                    ..function@
                })
            }),
            old(self).well_formed() && function.well_formed() ==> final(self).well_formed(),
    {
        if self.position(function.address()).is_some() {
            return Err(Error::AddressCollision);
        }
        let index = self.functions.len() as u64;
        let mut function = function;
        function.set_index(Some(index));
        self.functions.push(function);
        proof {
            assert(self@.functions.drop_last() =~= old(self)@.functions);
        }
        Ok(index)
    }
}

/// No two functions of a well-formed program lie at one address, and each
/// has its position as its index.
pub proof fn lemma_program_is_consistent(program: Program, i: int, j: int)
    requires
        program.well_formed(),
        0 <= i < program@.functions.len(),
        0 <= j < program@.functions.len(),
    ensures
        program@.functions[i]@.index == Some(i as u64),
        i != j ==> program@.functions[i]@.address != program@.functions[j]@.address,
{
}

/// The serialized form of a function, as a function.
pub open spec fn function_form() -> spec_fn(Function) -> Seq<u8> {
    |function: Function| function@.serialized()
}

/// Whether two sequences of functions are equally long and hold like
/// functions at each position.
pub open spec fn alike_functions(read: Seq<Function>, other: Seq<Function>) -> bool {
    &&& read.len() == other.len()
    &&& forall|k: int| 0 <= k < read.len() ==> (#[trigger] read[k])@.alike(other[k]@)
}

/// Read the functions whose serialized form stands at `start`, and say
/// where it ends.
fn decode_functions(bytes: &[u8], start: usize) -> (r: Option<(Vec<Function>, usize)>)
    ensures
        r matches Some((functions, end)) ==> encodes(
            bytes@,
            start as int,
            sequence_bytes(functions@, function_form()),
        ) && end == start + sequence_bytes(functions@, function_form()).len(),
        forall|other: Seq<Function>|
            encodes(bytes@, start as int, #[trigger] sequence_bytes(other, function_form()))
                ==> ({
                &&& r matches Some((functions, end))
                &&& alike_functions(functions@, other)
                &&& end == start + sequence_bytes(other, function_form()).len()
            }),
{
    let form = Ghost(function_form());
    let total = bytes.len();
    proof {
        assert forall|item: Function| (#[trigger] form@(item)).len() >= 1 by {
            crate::il::function::lemma_function_layout(bytes@, 0, item@);
        }
        assert forall|other: Seq<Function>|
            encodes(bytes@, start as int, #[trigger] sequence_bytes(other, form@)) implies encodes(
            bytes@,
            start as int,
            number_bytes(other.len() as u64),
        ) && encodes(bytes@, start + 8, items_bytes(other, form@)) && other.len() <= total by {
            crate::il::serial::lemma_number(other.len() as u64);
            lemma_encodes_split(
                bytes@,
                start as int,
                number_bytes(other.len() as u64),
                items_bytes(other, form@),
            );
            lemma_items_bytes_len(other, form@);
        }
    }
    let (count, first) = match take_number(bytes, start) {
        Some(read) => read,
        None => {
            return None;
        },
    };
    if count > total as u64 {
        return None;
    }
    let mut functions: Vec<Function> = Vec::new();
    let mut position = first;
    let mut i: u64 = 0;
    proof {
        crate::il::serial::lemma_number(count);
        assert(bytes@.subrange(first as int, first as int) =~= Seq::<u8>::empty());
        assert(functions@.take(0) =~= functions@);
    }
    while i < count
        invariant
            i <= count,
            count <= total,
            total == bytes@.len(),
            form@ == function_form(),
            first == start + 8,
            forall|other: Seq<Function>|
                encodes(bytes@, start as int, #[trigger] sequence_bytes(other, form@))
                    ==> other.len() == count && encodes(
                    bytes@,
                    first as int,
                    items_bytes(other, form@),
                ),
            functions@.len() == i,
            encodes(bytes@, first as int, items_bytes(functions@, form@)),
            position == first + items_bytes(functions@, form@).len(),
            forall|other: Seq<Function>|
                other.len() == count && encodes(
                    bytes@,
                    first as int,
                    #[trigger] items_bytes(other, form@),
                ) ==> position == first + items_bytes(other.take(i as int), form@).len()
                    && forall|k: int|
                    0 <= k < i ==> (#[trigger] functions@[k])@.alike(other[k]@),
        decreases count - i,
    {
        proof {
            assert forall|other: Seq<Function>|
                other.len() == count && encodes(
                    bytes@,
                    first as int,
                    #[trigger] items_bytes(other, form@),
                ) implies encodes(bytes@, position as int, other[i as int]@.serialized())
                && items_bytes(other.take(i + 1), form@) == items_bytes(
                other.take(i as int),
                form@,
            ) + other[i as int]@.serialized() by {
                lemma_item_stands(bytes@, first as int, other, form@, i as int);
            }
        }
        let (function, next) = match Function::decode_at(bytes, position) {
            Some(read) => read,
            None => {
                return None;
            },
        };
        proof {
            lemma_items_bytes_push(functions@, function, form@);
            lemma_encodes_split(
                bytes@,
                first as int,
                items_bytes(functions@, form@),
                function@.serialized(),
            );
        }
        functions.push(function);
        position = next;
        i += 1;
    }
    proof {
        crate::il::serial::lemma_number(count);
        lemma_encodes_split(
            bytes@,
            start as int,
            number_bytes(count),
            items_bytes(functions@, form@),
        );
        assert forall|other: Seq<Function>|
            encodes(bytes@, start as int, #[trigger] sequence_bytes(other, form@)) implies other.len()
            == count && other.take(count as int) == other by {
            crate::il::serial::lemma_number(other.len() as u64);
            assert(other.take(other.len() as int) =~= other);
        }
    }
    Some((functions, position))
}

/// Append the serialized form of a sequence of functions.
fn encode_functions(functions: &Vec<Function>, out: &mut Vec<u8>)
    ensures
        final(out)@ == old(out)@ + sequence_bytes(functions@, function_form()),
{
    put_number(out, functions.len() as u64);
    let mut i: usize = 0;
    assert(functions@.take(0) =~= Seq::<Function>::empty());
    while i < functions.len()
        invariant
            i <= functions.len(),
            out@ == old(out)@ + number_bytes(functions@.len() as u64) + items_bytes(
                functions@.take(i as int),
                function_form(),
            ),
        decreases functions.len() - i,
    {
        functions[i].encode_into(out);
        proof {
            assert(functions@.take(i + 1) =~= functions@.take(i as int).push(
                functions@[i as int],
            ));
            lemma_items_bytes_push(
                functions@.take(i as int),
                functions@[i as int],
                function_form(),
            );
            assert(out@ =~= old(out)@ + number_bytes(functions@.len() as u64) + items_bytes(
                functions@.take(i + 1),
                function_form(),
            ));
        }
        i += 1;
    }
    assert(functions@.take(i as int) =~= functions@);
    assert(out@ =~= old(out)@ + sequence_bytes(functions@, function_form()));
}


impl ProgramView {
    /// The serialized form of a program: its functions.
    pub open spec fn serialized(self) -> Seq<u8> {
        sequence_bytes(self.functions, function_form())
    }

    /// Whether this program and `other` are the same but for where they are
    /// held: they hold like functions in the same order.
    pub open spec fn alike(self, other: ProgramView) -> bool {
        alike_functions(self.functions, other.functions)
    }
}

impl Program {
    /// The serialized form of this program.
    pub fn serialize(&self) -> (bytes: Vec<u8>)
        ensures
            bytes@ == self@.serialized(),
    {
        let mut bytes: Vec<u8> = Vec::new();
        encode_functions(&self.functions, &mut bytes);
        assert(bytes@ =~= self@.serialized());
        bytes
    }

    /// The program of which `bytes` is the serialized form; `None` where it
    /// is the serialized form of none. What `serialize` returned for a
    /// program gives that program back.
    pub fn deserialize(bytes: &[u8]) -> (r: Option<Program>)
        ensures
            r matches Some(read) ==> bytes@ == read@.serialized(),
            forall|other: ProgramView|
                bytes@ == #[trigger] other.serialized() ==> ({
                    &&& r matches Some(read)
                    &&& read@.alike(other)
                }),
    {
        proof {
            assert forall|other: ProgramView|
                bytes@ == #[trigger] other.serialized() implies encodes(
                bytes@,
                0,
                sequence_bytes(other.functions, function_form()),
            ) by {
                lemma_encodes_whole(bytes@, other.serialized());
            }
        }
        match decode_functions(bytes, 0) {
            Some((functions, end)) => {
                if end == bytes.len() {
                    let read = Program { functions: functions };
                    proof {
                        lemma_encodes_whole(bytes@, read@.serialized());
                    }
                    Some(read)
                } else {
                    None
                }
            },
            None => None,
        }
    }
}

impl Program {
    /// Whether this program is well formed.
    pub fn is_well_formed(&self) -> (r: bool)
        ensures
            r == self.well_formed(),
    {
        let mut i: usize = 0;
        while i < self.functions.len()
            invariant
                i <= self.functions.len(),
                forall|k: int|
                    0 <= k < i ==> (#[trigger] self@.functions[k]).well_formed()
                        && self@.functions[k]@.index == Some(k as u64),
                forall|a: int, b: int|
                    0 <= a < b < i ==> (#[trigger] self@.functions[a])@.address != (
                    #[trigger] self@.functions[b])@.address,
            decreases self.functions.len() - i,
        {
            let function = &self.functions[i];
            if !function.is_well_formed() {
                return false;
            }
            let placed = match function.index() {
                Some(index) => index == i as u64,
                None => false,
            };
            if !placed {
                return false;
            }
            let mut j: usize = 0;
            while j < i
                invariant
                    j <= i < self.functions.len(),
                    *function == self@.functions[i as int],
                    forall|a: int|
                        0 <= a < j ==> (#[trigger] self@.functions[a])@.address
                            != function@.address,
                decreases i - j,
            {
                if self.functions[j].address() == function.address() {
                    assert(self@.functions[j as int]@.address == self@.functions[i as int]@.address);
                    return false;
                }
                j += 1;
            }
            i += 1;
        }
        proof {
            assert forall|a: int, b: int|
                0 <= a < self@.functions.len() && 0 <= b < self@.functions.len() && a
                    != b implies (#[trigger] self@.functions[a])@.address != (
            #[trigger] self@.functions[b])@.address by {
                if a < b {
                    assert(self@.functions[a]@.address != self@.functions[b]@.address);
                } else {
                    assert(self@.functions[b]@.address != self@.functions[a]@.address);
                }
            }
        }
        true
    }
}

impl Clone for Program {
    fn clone(&self) -> (program: Self)
        ensures
            program@.functions.len() == self@.functions.len(),
            forall|k: int|
                0 <= k < self@.functions.len() ==> (#[trigger] program@.functions[k])@.same(
                    self@.functions[k]@,
                ),
            self.well_formed() ==> program.well_formed(),
    {
        let mut functions: Vec<Function> = Vec::new();
        let mut i: usize = 0;
        while i < self.functions.len()
            invariant
                i <= self.functions.len(),
                functions@.len() == i,
                forall|k: int|
                    0 <= k < i ==> (#[trigger] functions@[k])@.same(self.functions@[k]@),
                forall|k: int|
                    0 <= k < i && self.functions@[k].well_formed() ==> (
                    #[trigger] functions@[k]).well_formed(),
            decreases self.functions.len() - i,
        {
            functions.push(self.functions[i].clone());
            i += 1;
        }
        let program = Program { functions: functions };
        proof {
            if self.well_formed() {
                assert forall|k: int| 0 <= k < program@.functions.len() implies (
                #[trigger] program@.functions[k]).well_formed() && program@.functions[k]@.index
                    == Some(k as u64) by {
                    assert(self@.functions[k].well_formed());
                }
                assert forall|a: int, b: int|
                    0 <= a < program@.functions.len() && 0 <= b < program@.functions.len() && a
                        != b implies (#[trigger] program@.functions[a])@.address != (
                #[trigger] program@.functions[b])@.address by {
                    assert(self@.functions[a]@.address != self@.functions[b]@.address);
                }
            }
        }
        program
    }
}

/// The text of a sequence of functions: one after the other.
pub open spec fn functions_rendered(functions: Seq<Function>) -> Seq<char>
    decreases functions.len(),
{
    if functions.len() == 0 {
        Seq::<char>::empty()
    } else {
        functions_rendered(functions.drop_last()) + functions.last()@.rendered()
    }
}

impl ProgramView {
    /// The text of a program: its functions, one after the other.
    pub open spec fn rendered(self) -> Seq<char> {
        functions_rendered(self.functions)
    }
}

impl Program {
    /// The text of this program.
    pub fn render(&self) -> (text: String)
        ensures
            text@ == self@.rendered(),
    {
        let mut text = String::new();
        let mut i: usize = 0;
        assert(text@ =~= functions_rendered(self@.functions.take(0)));
        while i < self.functions.len()
            invariant
                i <= self.functions.len(),
                text@ == functions_rendered(self@.functions.take(i as int)),
            decreases self.functions.len() - i,
        {
            self.functions[i].render_into(&mut text);
            proof {
                assert(self@.functions.take(i + 1).drop_last() =~= self@.functions.take(i as int));
            }
            i += 1;
        }
        assert(self@.functions.take(i as int) =~= self@.functions);
        text
    }
}

/// Programs have the same serialized form exactly where they are alike. The
/// law speaks of forms whose length a number can hold.
pub proof fn lemma_programs_serialize_apart(a: ProgramView, b: ProgramView)
    requires
        fits(a.serialized()),
    ensures
        a.serialized() == b.serialized() <==> a.alike(b),
{
    let bytes = a.serialized();
    if a.serialized() == b.serialized() {
        lemma_encodes_whole(bytes, bytes);
        assert forall|start: int, x: Function, y: Function|
            #![trigger encodes(bytes, start, function_form()(x)), encodes(bytes, start, function_form()(y))]
            encodes(bytes, start, function_form()(x)) && encodes(
                bytes,
                start,
                function_form()(y),
            ) implies function_form()(x) == function_form()(y) by {
            crate::il::function::lemma_function_is_unique(bytes, start, x@, y@);
        }
        assert forall|item: Function| (#[trigger] function_form()(item)).len() >= 1 by {
            crate::il::function::lemma_function_layout(bytes, 0, item@);
        }
        lemma_sequence_is_unique(bytes, 0, a.functions, b.functions, function_form());
        assert forall|k: int| 0 <= k < a.functions.len() implies (#[trigger] a.functions[k])@.alike(
            b.functions[k]@,
        ) by {
            assert(function_form()(a.functions[k]) == function_form()(b.functions[k]));
            crate::il::function::lemma_functions_serialize_apart(
                a.functions[k]@,
                b.functions[k]@,
            );
        }
    }
    if a.alike(b) {
        assert forall|k: int| 0 <= k < a.functions.len() implies function_form()(
            #[trigger] a.functions[k],
        ) == function_form()(b.functions[k]) by {
            assert(a.functions[k]@.alike(b.functions[k]@));
            crate::il::function::lemma_alike_functions(
                a.functions[k]@,
                b.functions[k]@,
                b.functions[k]@,
            );
        }
        lemma_same_items_agree(a.functions, b.functions, function_form());
    }
}

/// The first position of an address at which a function lies is a position
/// at which one lies there, and none lies there at a position before.
pub proof fn lemma_first_position(functions: Seq<Function>, address: u64)
    requires
        holds_address(functions, address),
    ensures
        0 <= first_position(functions, address) < functions.len(),
        functions[first_position(functions, address)]@.address == address,
        forall|k: int|
            0 <= k < first_position(functions, address) ==> (#[trigger] functions[k])@.address
                != address,
{
    reveal(first_position);
    let held = choose|i: int|
        0 <= i < functions.len() && (#[trigger] functions[i])@.address == address;
    lemma_least_position(functions, address, held);
}

/// Where a function lies at an address at a position, one lies there at a
/// least position.
proof fn lemma_least_position(functions: Seq<Function>, address: u64, held: int)
    requires
        0 <= held < functions.len(),
        functions[held]@.address == address,
    ensures
        exists|i: int|
            0 <= i < functions.len() && (#[trigger] functions[i])@.address == address
                && forall|k: int| 0 <= k < i ==> (#[trigger] functions[k])@.address != address,
    decreases held,
{
    if exists|k: int| 0 <= k < held && (#[trigger] functions[k])@.address == address {
        let before = choose|k: int|
            0 <= k < held && (#[trigger] functions[k])@.address == address;
        lemma_least_position(functions, address, before);
    }
}

} // verus!
