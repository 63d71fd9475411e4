use falcon::analysis::calling_convention::{
    ArgumentType, CallingConvention, CallingConventionType, ReturnAddressType,
};
use falcon::il::scalar;
use falcon::types::PartialBoolean;

#[test]
fn mips_system_v_classifies_registers() {
    let convention = CallingConvention::new(CallingConventionType::MipsSystemV);
    assert_eq!(convention.is_preserved(&scalar("$s3", 32)), PartialBoolean::True);
    assert_eq!(convention.is_preserved(&scalar("$t0", 32)), PartialBoolean::False);
    assert_eq!(convention.is_preserved(&scalar("$gp", 32)), PartialBoolean::Unknown);
    assert_eq!(convention.is_trashed(&scalar("$s3", 32)), PartialBoolean::False);
    assert_eq!(convention.is_trashed(&scalar("$t0", 32)), PartialBoolean::True);
    assert_eq!(convention.is_trashed(&scalar("$gp", 32)), PartialBoolean::Unknown);
}

#[test]
fn mips_system_v_places_arguments() {
    let convention = CallingConvention::new(CallingConventionType::MipsSystemV);
    assert_eq!(convention.argument_type(0), ArgumentType::Register(scalar("$a0", 32)));
    assert_eq!(convention.argument_type(3), ArgumentType::Register(scalar("$a3", 32)));
    assert_eq!(convention.argument_type(4), ArgumentType::Stack(0));
    assert_eq!(convention.argument_type(5), ArgumentType::Stack(4));
}

#[test]
fn mipsel_system_v_is_as_mips_system_v() {
    let mips = CallingConvention::new(CallingConventionType::MipsSystemV);
    let mipsel = CallingConvention::new(CallingConventionType::MipselSystemV);
    assert_eq!(mips.argument_registers(), mipsel.argument_registers());
    assert_eq!(mips.preserved_registers(), mipsel.preserved_registers());
    assert_eq!(mips.trashed_registers(), mipsel.trashed_registers());
    assert_eq!(mips.return_register(), mipsel.return_register());
}

#[test]
fn mips_system_v_tables() {
    let convention = CallingConvention::new(CallingConventionType::MipsSystemV);
    assert_eq!(convention.argument_registers().len(), 4);
    assert_eq!(convention.preserved_registers().len(), 11);
    assert_eq!(convention.trashed_registers().len(), 17);
    assert_eq!(convention.stack_argument_offset(), 0);
    assert_eq!(convention.stack_argument_length(), 4);
    assert_eq!(convention.return_register(), &scalar("$v0", 32));
    assert_eq!(
        convention.return_address_type(),
        &ReturnAddressType::Register(scalar("$ra", 32))
    );
}

#[test]
fn cdecl_classifies_registers_and_places_arguments() {
    let convention = CallingConvention::new(CallingConventionType::Cdecl);
    assert_eq!(convention.argument_type(0), ArgumentType::Stack(4));
    assert_eq!(convention.argument_type(2), ArgumentType::Stack(12));
    assert_eq!(convention.return_register().name(), "eax");
    assert_eq!(convention.is_trashed(&scalar("eax", 32)), PartialBoolean::True);
    assert_eq!(convention.is_trashed(&scalar("ebx", 32)), PartialBoolean::False);
    assert_eq!(convention.is_preserved(&scalar("ebx", 32)), PartialBoolean::True);
    assert_eq!(convention.is_preserved(&scalar("r8", 32)), PartialBoolean::Unknown);
}

#[test]
fn cdecl_tables() {
    let convention = CallingConvention::new(CallingConventionType::Cdecl);
    assert!(convention.argument_registers().is_empty());
    assert_eq!(convention.preserved_registers().len(), 5);
    assert_eq!(convention.trashed_registers().len(), 3);
    assert_eq!(convention.stack_argument_offset(), 4);
    assert_eq!(convention.stack_argument_length(), 4);
    assert_eq!(
        convention.return_address_type(),
        &ReturnAddressType::Register(scalar("esp", 32))
    );
}

#[test]
fn a_register_of_another_width_is_unknown() {
    let convention = CallingConvention::new(CallingConventionType::MipsSystemV);
    assert_eq!(convention.is_preserved(&scalar("$s3", 16)), PartialBoolean::Unknown);
    assert_eq!(convention.is_trashed(&scalar("$t0", 64)), PartialBoolean::Unknown);
}

#[test]
fn a_register_with_an_ssa_index_is_unknown() {
    let convention = CallingConvention::new(CallingConventionType::Cdecl);
    let mut eax = scalar("eax", 32);
    eax.set_ssa(Some(1));
    assert_eq!(convention.is_trashed(&eax), PartialBoolean::Unknown);
}

#[test]
fn no_register_is_both_preserved_and_trashed() {
    for typ in [
        CallingConventionType::MipsSystemV,
        CallingConventionType::MipselSystemV,
        CallingConventionType::Cdecl,
    ] {
        let convention = CallingConvention::new(typ);
        for register in convention.preserved_registers() {
            assert_eq!(convention.is_preserved(register), PartialBoolean::True);
            assert_eq!(convention.is_trashed(register), PartialBoolean::False);
        }
        for register in convention.trashed_registers() {
            assert_eq!(convention.is_preserved(register), PartialBoolean::False);
            assert_eq!(convention.is_trashed(register), PartialBoolean::True);
        }
    }
}
