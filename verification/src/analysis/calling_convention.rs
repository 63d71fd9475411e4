//! Calling conventions: which registers carry arguments, which survive a
//! call, and where the arguments on the stack lie.

use vstd::prelude::*;
use crate::il::scalar::{Scalar, ScalarView};
use crate::types::PartialBoolean;

verus! {

/// The calling conventions that this crate knows.
#[derive(Clone, Copy, Debug, PartialEq, Eq, Structural)]
pub enum CallingConventionType {
    MipsSystemV,
    MipselSystemV,
    Cdecl,
}

/// Where a function finds the address to return to.
#[derive(Debug, PartialEq, Eq)]
pub enum ReturnAddressType {
    /// In a register.
    Register(Scalar),
    /// On the stack, at this offset in bytes from the stack pointer at
    /// entry.
    Stack(usize),
}

/// Where a function finds one of its arguments.
#[derive(Debug, PartialEq, Eq)]
pub enum ArgumentType {
    /// In a register.
    Register(Scalar),
    /// On the stack, at this offset in bytes from the stack pointer at
    /// entry.
    Stack(usize),
}

/// A place where a function finds a value: what a `ReturnAddressType` or an
/// `ArgumentType` is.
pub enum Location {
    Register(ScalarView),
    Stack(usize),
}

impl View for ReturnAddressType {
    type V = Location;

    open spec fn view(&self) -> Location {
        match self {
            ReturnAddressType::Register(scalar) => Location::Register(scalar@),
            ReturnAddressType::Stack(offset) => Location::Stack(*offset),
        }
    }
}

impl View for ArgumentType {
    type V = Location;

    open spec fn view(&self) -> Location {
        match self {
            ArgumentType::Register(scalar) => Location::Register(scalar@),
            ArgumentType::Stack(offset) => Location::Stack(*offset),
        }
    }
}

/// The width in bits of the registers of the conventions that this crate
/// knows.
pub const REGISTER_BITS: usize = 32;

/// The register of the given name: a scalar of `REGISTER_BITS` bits without
/// SSA index.
pub open spec fn register(name: Seq<char>) -> ScalarView {
    ScalarView { name: name, bits: REGISTER_BITS, ssa: None }
}

/// The registers of the given names, in their order.
pub open spec fn registers_named(names: Seq<Seq<char>>) -> Seq<ScalarView> {
    names.map_values(|name: Seq<char>| register(name))
}

/// What each scalar of a sequence is.
pub open spec fn scalar_views(scalars: Seq<Scalar>) -> Seq<ScalarView> {
    scalars.map_values(|scalar: Scalar| scalar@)
}

/// The registers that carry the first arguments under the MIPS System V conventions.
pub open spec fn mips_argument_names() -> Seq<Seq<char>> {
    seq![
        "$a0"@,
        "$a1"@,
        "$a2"@,
        "$a3"@,
    ]
}

/// The registers that a call preserves under the MIPS System V conventions:
/// `$s0` to `$s8`, the stack pointer and the return address.
pub open spec fn mips_preserved_names() -> Seq<Seq<char>> {
    seq![
        "$s0"@,
        "$s1"@,
        "$s2"@,
        "$s3"@,
        "$s4"@,
        "$s5"@,
        "$s6"@,
        "$s7"@,
        "$s8"@,
        "$sp"@,
        "$ra"@,
    ]
}

/// The registers that a call may overwrite under the MIPS System V conventions.
pub open spec fn mips_trashed_names() -> Seq<Seq<char>> {
    seq![
        "$at"@,
        "$v0"@,
        "$v1"@,
        "$a0"@,
        "$a1"@,
        "$a2"@,
        "$a3"@,
        "$t0"@,
        "$t1"@,
        "$t2"@,
        "$t3"@,
        "$t4"@,
        "$t5"@,
        "$t6"@,
        "$t7"@,
        "$t8"@,
        "$t9"@,
    ]
}

/// The registers that a call preserves under cdecl.
pub open spec fn cdecl_preserved_names() -> Seq<Seq<char>> {
    seq![
        "ebx"@,
        "edi"@,
        "esi"@,
        "ebp"@,
        "esp"@,
    ]
}

/// The registers that a call may overwrite under cdecl.
pub open spec fn cdecl_trashed_names() -> Seq<Seq<char>> {
    seq![
        "eax"@,
        "ecx"@,
        "edx"@,
    ]
}

/// What a calling convention is.
pub struct CallingConventionView {
    /// The registers that carry the first arguments, in their order.
    pub argument_registers: Seq<ScalarView>,
    /// The registers that keep their value across a call.
    pub preserved_registers: Set<ScalarView>,
    /// The registers that a call may overwrite.
    pub trashed_registers: Set<ScalarView>,
    /// The offset in bytes, from the stack pointer at entry, of the first
    /// argument that is passed on the stack.
    pub stack_argument_offset: usize,
    /// The distance in bytes between two arguments on the stack.
    pub stack_argument_length: usize,
    /// Where a function finds the address to return to.
    pub return_address_type: Location,
    /// The register that carries the value that a function returns.
    pub return_register: ScalarView,
}

impl CallingConventionView {
    /// No register is both preserved and trashed.
    pub open spec fn well_formed(self) -> bool {
        self.preserved_registers.disjoint(self.trashed_registers)
    }

    /// The offset on the stack of argument `n`, counted from 0, where no
    /// register carries it. Such arguments lie one after the other from
    /// `stack_argument_offset` on, `stack_argument_length` bytes apart.
    pub open spec fn stack_offset(self, n: int) -> int {
        self.stack_argument_offset + self.stack_argument_length * (n
            - self.argument_registers.len())
    }

    /// Where argument `n` lies, counted from 0: in its register where one
    /// carries it, else on the stack at `stack_offset(n)`.
    pub open spec fn argument_type(self, n: int) -> Location {
        if n < self.argument_registers.len() {
            Location::Register(self.argument_registers[n])
        } else {
            Location::Stack(self.stack_offset(n) as usize)
        }
    }

    /// Whether a call preserves `scalar`: true where the scalar is among the
    /// preserved registers, false where it is among the trashed ones,
    /// unknown where it is among neither.
    pub open spec fn is_preserved(self, scalar: ScalarView) -> PartialBoolean {
        if self.preserved_registers.contains(scalar) {
            PartialBoolean::True
        } else if self.trashed_registers.contains(scalar) {
            PartialBoolean::False
        } else {
            PartialBoolean::Unknown
        }
    }

    /// Whether a call may overwrite `scalar`: true where the scalar is among
    /// the trashed registers, false where it is among the preserved ones,
    /// unknown where it is among neither.
    pub open spec fn is_trashed(self, scalar: ScalarView) -> PartialBoolean {
        if self.trashed_registers.contains(scalar) {
            PartialBoolean::True
        } else if self.preserved_registers.contains(scalar) {
            PartialBoolean::False
        } else {
            PartialBoolean::Unknown
        }
    }

    /// The table of a convention that this crate knows.
    pub open spec fn of(typ: CallingConventionType) -> CallingConventionView {
        match typ {
            CallingConventionType::MipsSystemV | CallingConventionType::MipselSystemV => {
                CallingConventionView {
                    argument_registers: registers_named(mips_argument_names()),
                    preserved_registers: registers_named(mips_preserved_names()).to_set(),
                    trashed_registers: registers_named(mips_trashed_names()).to_set(),
                    stack_argument_offset: 0,
                    stack_argument_length: 4,
                    return_address_type: Location::Register(register("$ra"@)),
                    return_register: register("$v0"@),
                }
            },
            CallingConventionType::Cdecl => CallingConventionView {
                argument_registers: seq![],
                preserved_registers: registers_named(cdecl_preserved_names()).to_set(),
                trashed_registers: registers_named(cdecl_trashed_names()).to_set(),
                stack_argument_offset: 4,
                stack_argument_length: 4,
                return_address_type: Location::Register(register("esp"@)),
                return_register: register("eax"@),
            },
        }
    }
}

/// The calling convention of a platform.
///
/// A register that is neither among the preserved nor among the trashed
/// ones is one of which nothing is known.
pub struct CallingConvention {
    argument_registers: Vec<Scalar>,
    preserved_registers: Vec<Scalar>,
    trashed_registers: Vec<Scalar>,
    stack_argument_offset: usize,
    stack_argument_length: usize,
    return_address_type: ReturnAddressType,
    return_register: Scalar,
}

impl View for CallingConvention {
    type V = CallingConventionView;

    closed spec fn view(&self) -> CallingConventionView {
        CallingConventionView {
            argument_registers: scalar_views(self.argument_registers@),
            preserved_registers: scalar_views(self.preserved_registers@).to_set(),
            trashed_registers: scalar_views(self.trashed_registers@).to_set(),
            stack_argument_offset: self.stack_argument_offset,
            stack_argument_length: self.stack_argument_length,
            return_address_type: self.return_address_type@,
            return_register: self.return_register@,
        }
    }
}

impl CallingConvention {
    /// Whether each of the preserved registers, and each of the trashed
    /// ones, is held once.
    pub closed spec fn holds_each_once(&self) -> bool {
        &&& scalar_views(self.preserved_registers@).no_duplicates()
        &&& scalar_views(self.trashed_registers@).no_duplicates()
    }

    /// A calling convention is well formed when no register is both
    /// preserved and trashed, and it holds each register of the two sets
    /// once.
    pub open spec fn well_formed(&self) -> bool {
        &&& self@.well_formed()
        &&& self.holds_each_once()
    }

    /// The calling convention of the given type.
    ///
    /// The return address of cdecl is given as the register `esp`: the
    /// register that points to it at entry.
    pub fn new(typ: CallingConventionType) -> (convention: CallingConvention)
        ensures
            convention@ == CallingConventionView::of(typ),
            convention.well_formed(),
    {
        match typ {
            CallingConventionType::MipsSystemV | CallingConventionType::MipselSystemV => {
                proof {
                    lemma_mips_registers_are_disjoint();
                }
                CallingConvention {
                    argument_registers: mips_arguments(),
                    preserved_registers: mips_preserved(),
                    trashed_registers: mips_trashed(),
                    stack_argument_offset: 0,
                    stack_argument_length: 4,
                    return_address_type: ReturnAddressType::Register(
                        Scalar::new("$ra", REGISTER_BITS),
                    ),
                    return_register: Scalar::new("$v0", REGISTER_BITS),
                }
            },
            CallingConventionType::Cdecl => {
                proof {
                    lemma_cdecl_registers_are_disjoint();
                }
                let convention = CallingConvention {
                    argument_registers: Vec::new(),
                    preserved_registers: cdecl_preserved(),
                    trashed_registers: cdecl_trashed(),
                    stack_argument_offset: 4,
                    stack_argument_length: 4,
                    return_address_type: ReturnAddressType::Register(
                        Scalar::new("esp", REGISTER_BITS),
                    ),
                    return_register: Scalar::new("eax", REGISTER_BITS),
                };
                assert(convention@.argument_registers =~= Seq::<ScalarView>::empty());
                convention
            },
        }
    }

    /// The registers that carry the first arguments, in their order.
    pub fn argument_registers(&self) -> (registers: &[Scalar])
        ensures
            scalar_views(registers@) == self@.argument_registers,
    {
        self.argument_registers.as_slice()
    }

    /// The registers that keep their value across a call, each once.
    pub fn preserved_registers(&self) -> (registers: &Vec<Scalar>)
        ensures
            scalar_views(registers@).to_set() == self@.preserved_registers,
            self.well_formed() ==> scalar_views(registers@).no_duplicates(),
    {
        &self.preserved_registers
    }

    /// The registers that a call may overwrite, each once.
    pub fn trashed_registers(&self) -> (registers: &Vec<Scalar>)
        ensures
            scalar_views(registers@).to_set() == self@.trashed_registers,
            self.well_formed() ==> scalar_views(registers@).no_duplicates(),
    {
        &self.trashed_registers
    }

    /// The distance between two arguments on the stack, in bytes.
    pub fn stack_argument_length(&self) -> (length: usize)
        ensures
            length == self@.stack_argument_length,
    {
        self.stack_argument_length
    }

    /// The offset of the first argument on the stack, in bytes from the
    /// stack pointer at entry.
    pub fn stack_argument_offset(&self) -> (offset: usize)
        ensures
            offset == self@.stack_argument_offset,
    {
        self.stack_argument_offset
    }

    /// Where a function finds the address to return to.
    pub fn return_address_type(&self) -> (place: &ReturnAddressType)
        ensures
            place@ == self@.return_address_type,
    {
        &self.return_address_type
    }

    /// The register that carries the value that a function returns.
    pub fn return_register(&self) -> (register: &Scalar)
        ensures
            register@ == self@.return_register,
    {
        &self.return_register
    }

    /// Where argument `argument_number` lies, counted from 0.
    ///
    /// The offset of an argument on the stack has to fit in `usize`.
    pub fn argument_type(&self, argument_number: usize) -> (place: ArgumentType)
        requires
            argument_number >= self@.argument_registers.len() ==> self@.stack_offset(
                argument_number as int,
            ) <= usize::MAX,
        ensures
            place@ == self@.argument_type(argument_number as int),
    {
        if argument_number >= self.argument_registers.len() {
            let n = argument_number - self.argument_registers.len();
            let offset = self.stack_argument_offset + self.stack_argument_length * n;
            ArgumentType::Stack(offset)
        } else {
            ArgumentType::Register(self.argument_registers[argument_number].clone())
        }
    }

    /// Whether a call preserves `scalar`.
    pub fn is_preserved(&self, scalar: &Scalar) -> (class: PartialBoolean)
        ensures
            class == self@.is_preserved(scalar@),
    {
        if holds(&self.preserved_registers, scalar) {
            PartialBoolean::True
        } else if holds(&self.trashed_registers, scalar) {
            PartialBoolean::False
        } else {
            PartialBoolean::Unknown
        }
    }

    /// Whether a call may overwrite `scalar`.
    pub fn is_trashed(&self, scalar: &Scalar) -> (class: PartialBoolean)
        ensures
            class == self@.is_trashed(scalar@),
    {
        if holds(&self.trashed_registers, scalar) {
            PartialBoolean::True
        } else if holds(&self.preserved_registers, scalar) {
            PartialBoolean::False
        } else {
            PartialBoolean::Unknown
        }
    }
}

/// Whether `scalar` is among `registers`.
fn holds(registers: &Vec<Scalar>, scalar: &Scalar) -> (found: bool)
    ensures
        found == scalar_views(registers@).to_set().contains(scalar@),
{
    let mut i: usize = 0;
    while i < registers.len()
        invariant
            i <= registers.len(),
            forall|k: int| 0 <= k < i ==> scalar_views(registers@)[k] != scalar@,
        decreases registers.len() - i,
    {
        if registers[i] == *scalar {
            assert(scalar_views(registers@)[i as int] == scalar@);
            return true;
        }
        i += 1;
    }
    false
}

/// The two classifications agree. Of a preserved register, `is_preserved`
/// is true and `is_trashed` false; of a trashed register, `is_trashed` is
/// true and `is_preserved` false; of any other scalar both are unknown.
pub proof fn lemma_classes_agree(convention: CallingConventionView, scalar: ScalarView)
    requires
        convention.well_formed(),
    ensures
        convention.preserved_registers.contains(scalar) ==> convention.is_preserved(scalar)
            == PartialBoolean::True && convention.is_trashed(scalar) == PartialBoolean::False,
        convention.trashed_registers.contains(scalar) ==> convention.is_preserved(scalar)
            == PartialBoolean::False && convention.is_trashed(scalar) == PartialBoolean::True,
        !convention.preserved_registers.contains(scalar) && !convention.trashed_registers.contains(
            scalar,
        ) ==> convention.is_preserved(scalar) == PartialBoolean::Unknown
            && convention.is_trashed(scalar) == PartialBoolean::Unknown,
{
}

/// The argument registers of the MIPS System V conventions.
fn mips_arguments() -> (registers: Vec<Scalar>)
    ensures
        scalar_views(registers@) == registers_named(mips_argument_names()),
        scalar_views(registers@).no_duplicates(),
{
    let mut registers: Vec<Scalar> = Vec::new();
    registers.push(Scalar::new("$a0", REGISTER_BITS));
    registers.push(Scalar::new("$a1", REGISTER_BITS));
    registers.push(Scalar::new("$a2", REGISTER_BITS));
    registers.push(Scalar::new("$a3", REGISTER_BITS));
    proof {
        reveal_strlit("$a0");
        reveal_strlit("$a1");
        reveal_strlit("$a2");
        reveal_strlit("$a3");
        assert(scalar_views(registers@) =~= registers_named(mips_argument_names()));
        let views = scalar_views(registers@);
        assert forall|i: int, j: int|
            0 <= i < views.len() && 0 <= j < views.len() && i != j implies views[i]
            != views[j] by {
            assert(views[i].name[1] != views[j].name[1] || views[i].name[2] != views[j].name[2]);
        }
    }
    registers
}

/// The preserved registers of the MIPS System V conventions.
fn mips_preserved() -> (registers: Vec<Scalar>)
    ensures
        scalar_views(registers@) == registers_named(mips_preserved_names()),
        scalar_views(registers@).no_duplicates(),
{
    let mut registers: Vec<Scalar> = Vec::new();
    registers.push(Scalar::new("$s0", REGISTER_BITS));
    registers.push(Scalar::new("$s1", REGISTER_BITS));
    registers.push(Scalar::new("$s2", REGISTER_BITS));
    registers.push(Scalar::new("$s3", REGISTER_BITS));
    registers.push(Scalar::new("$s4", REGISTER_BITS));
    registers.push(Scalar::new("$s5", REGISTER_BITS));
    registers.push(Scalar::new("$s6", REGISTER_BITS));
    registers.push(Scalar::new("$s7", REGISTER_BITS));
    registers.push(Scalar::new("$s8", REGISTER_BITS));
    registers.push(Scalar::new("$sp", REGISTER_BITS));
    registers.push(Scalar::new("$ra", REGISTER_BITS));
    proof {
        reveal_strlit("$s0");
        reveal_strlit("$s1");
        reveal_strlit("$s2");
        reveal_strlit("$s3");
        reveal_strlit("$s4");
        reveal_strlit("$s5");
        reveal_strlit("$s6");
        reveal_strlit("$s7");
        reveal_strlit("$s8");
        reveal_strlit("$sp");
        reveal_strlit("$ra");
        assert(scalar_views(registers@) =~= registers_named(mips_preserved_names()));
        let views = scalar_views(registers@);
        assert forall|i: int, j: int|
            0 <= i < views.len() && 0 <= j < views.len() && i != j implies views[i]
            != views[j] by {
            assert(views[i].name[1] != views[j].name[1] || views[i].name[2] != views[j].name[2]);
        }
    }
    registers
}

/// The trashed registers of the MIPS System V conventions.
fn mips_trashed() -> (registers: Vec<Scalar>)
    ensures
        scalar_views(registers@) == registers_named(mips_trashed_names()),
        scalar_views(registers@).no_duplicates(),
{
    let mut registers: Vec<Scalar> = Vec::new();
    registers.push(Scalar::new("$at", REGISTER_BITS));
    registers.push(Scalar::new("$v0", REGISTER_BITS));
    registers.push(Scalar::new("$v1", REGISTER_BITS));
    registers.push(Scalar::new("$a0", REGISTER_BITS));
    registers.push(Scalar::new("$a1", REGISTER_BITS));
    registers.push(Scalar::new("$a2", REGISTER_BITS));
    registers.push(Scalar::new("$a3", REGISTER_BITS));
    registers.push(Scalar::new("$t0", REGISTER_BITS));
    registers.push(Scalar::new("$t1", REGISTER_BITS));
    registers.push(Scalar::new("$t2", REGISTER_BITS));
    registers.push(Scalar::new("$t3", REGISTER_BITS));
    registers.push(Scalar::new("$t4", REGISTER_BITS));
    registers.push(Scalar::new("$t5", REGISTER_BITS));
    registers.push(Scalar::new("$t6", REGISTER_BITS));
    registers.push(Scalar::new("$t7", REGISTER_BITS));
    registers.push(Scalar::new("$t8", REGISTER_BITS));
    registers.push(Scalar::new("$t9", REGISTER_BITS));
    proof {
        reveal_strlit("$at");
        reveal_strlit("$v0");
        reveal_strlit("$v1");
        reveal_strlit("$a0");
        reveal_strlit("$a1");
        reveal_strlit("$a2");
        reveal_strlit("$a3");
        reveal_strlit("$t0");
        reveal_strlit("$t1");
        reveal_strlit("$t2");
        reveal_strlit("$t3");
        reveal_strlit("$t4");
        reveal_strlit("$t5");
        reveal_strlit("$t6");
        reveal_strlit("$t7");
        reveal_strlit("$t8");
        reveal_strlit("$t9");
        assert(scalar_views(registers@) =~= registers_named(mips_trashed_names()));
        let views = scalar_views(registers@);
        assert forall|i: int, j: int|
            0 <= i < views.len() && 0 <= j < views.len() && i != j implies views[i]
            != views[j] by {
            assert(views[i].name[1] != views[j].name[1] || views[i].name[2] != views[j].name[2]);
        }
    }
    registers
}

/// The preserved registers of cdecl.
fn cdecl_preserved() -> (registers: Vec<Scalar>)
    ensures
        scalar_views(registers@) == registers_named(cdecl_preserved_names()),
        scalar_views(registers@).no_duplicates(),
{
    let mut registers: Vec<Scalar> = Vec::new();
    registers.push(Scalar::new("ebx", REGISTER_BITS));
    registers.push(Scalar::new("edi", REGISTER_BITS));
    registers.push(Scalar::new("esi", REGISTER_BITS));
    registers.push(Scalar::new("ebp", REGISTER_BITS));
    registers.push(Scalar::new("esp", REGISTER_BITS));
    proof {
        reveal_strlit("ebx");
        reveal_strlit("edi");
        reveal_strlit("esi");
        reveal_strlit("ebp");
        reveal_strlit("esp");
        assert(scalar_views(registers@) =~= registers_named(cdecl_preserved_names()));
        let views = scalar_views(registers@);
        assert forall|i: int, j: int|
            0 <= i < views.len() && 0 <= j < views.len() && i != j implies views[i]
            != views[j] by {
            assert(views[i].name[1] != views[j].name[1] || views[i].name[2] != views[j].name[2]);
        }
    }
    registers
}

/// The trashed registers of cdecl.
fn cdecl_trashed() -> (registers: Vec<Scalar>)
    ensures
        scalar_views(registers@) == registers_named(cdecl_trashed_names()),
        scalar_views(registers@).no_duplicates(),
{
    let mut registers: Vec<Scalar> = Vec::new();
    registers.push(Scalar::new("eax", REGISTER_BITS));
    registers.push(Scalar::new("ecx", REGISTER_BITS));
    registers.push(Scalar::new("edx", REGISTER_BITS));
    proof {
        reveal_strlit("eax");
        reveal_strlit("ecx");
        reveal_strlit("edx");
        assert(scalar_views(registers@) =~= registers_named(cdecl_trashed_names()));
        let views = scalar_views(registers@);
        assert forall|i: int, j: int|
            0 <= i < views.len() && 0 <= j < views.len() && i != j implies views[i]
            != views[j] by {
            assert(views[i].name[1] != views[j].name[1] || views[i].name[2] != views[j].name[2]);
        }
    }
    registers
}

/// No register of the MIPS System V conventions is both preserved and
/// trashed.
proof fn lemma_mips_registers_are_disjoint()
    ensures
        registers_named(mips_preserved_names()).to_set().disjoint(
            registers_named(mips_trashed_names()).to_set(),
        ),
{
    reveal_strlit("$s0");
    reveal_strlit("$s1");
    reveal_strlit("$s2");
    reveal_strlit("$s3");
    reveal_strlit("$s4");
    reveal_strlit("$s5");
    reveal_strlit("$s6");
    reveal_strlit("$s7");
    reveal_strlit("$s8");
    reveal_strlit("$sp");
    reveal_strlit("$ra");
    reveal_strlit("$at");
    reveal_strlit("$v0");
    reveal_strlit("$v1");
    reveal_strlit("$a0");
    reveal_strlit("$a1");
    reveal_strlit("$a2");
    reveal_strlit("$a3");
    reveal_strlit("$t0");
    reveal_strlit("$t1");
    reveal_strlit("$t2");
    reveal_strlit("$t3");
    reveal_strlit("$t4");
    reveal_strlit("$t5");
    reveal_strlit("$t6");
    reveal_strlit("$t7");
    reveal_strlit("$t8");
    reveal_strlit("$t9");
    let preserved = registers_named(mips_preserved_names());
    let trashed = registers_named(mips_trashed_names());
    assert forall|i: int, j: int| 0 <= i < preserved.len() && 0 <= j < trashed.len() implies preserved[i]
        != trashed[j] by {
        assert(preserved[i].name[1] == 's' || preserved[i].name[1] == 'r');
        assert(trashed[j].name[1] != 's' && trashed[j].name[1] != 'r');
    }
}

/// No register of cdecl is both preserved and trashed.
proof fn lemma_cdecl_registers_are_disjoint()
    ensures
        registers_named(cdecl_preserved_names()).to_set().disjoint(
            registers_named(cdecl_trashed_names()).to_set(),
        ),
{
    reveal_strlit("ebx");
    reveal_strlit("edi");
    reveal_strlit("esi");
    reveal_strlit("ebp");
    reveal_strlit("esp");
    reveal_strlit("eax");
    reveal_strlit("ecx");
    reveal_strlit("edx");
    let preserved = registers_named(cdecl_preserved_names());
    let trashed = registers_named(cdecl_trashed_names());
    assert forall|i: int, j: int| 0 <= i < preserved.len() && 0 <= j < trashed.len() implies preserved[i]
        != trashed[j] by {
        assert(preserved[i].name[2] != 'x' || preserved[i].name[1] == 'b');
        assert(trashed[j].name[2] == 'x' && trashed[j].name[1] != 'b');
    }
}

} // verus!
