use falcon::error::Error;
use falcon::il::{const_, expr_const, expr_scalar, scalar, Constant, Expression, Operation, Scalar};

fn x32() -> Expression {
    expr_scalar("x", 32)
}

fn y32() -> Expression {
    expr_scalar("y", 32)
}

fn z16() -> Expression {
    expr_scalar("z", 16)
}

#[test]
fn add_rejects_operands_of_different_widths() {
    let r = Expression::add(expr_scalar("x", 32), expr_const(1, 16));
    assert_eq!(r, Err(Error::Sort));
}

#[test]
fn add_accepts_an_extended_operand() {
    let one = Expression::zext(32, expr_const(1, 16)).unwrap();
    let sum = Expression::add(expr_scalar("x", 32), one).unwrap();
    assert_eq!(sum.bits(), 32);
}

#[test]
fn comparison_is_one_bit_wide() {
    let less = Expression::cmplts(expr_scalar("a", 8), expr_scalar("b", 8)).unwrap();
    assert_eq!(less.bits(), 1);
    assert_eq!(Operation::assign(scalar("f", 32), less.clone()), Err(Error::Sort));
    assert!(Operation::assign(scalar("f", 1), less).is_ok());
}

#[test]
fn terminals_have_their_own_width() {
    assert_eq!(expr_scalar("x", 7).bits(), 7);
    assert_eq!(expr_const(0, 64).bits(), 64);
    assert_eq!(Expression::scalar(scalar("x", 1)), Expression::Scalar(Scalar::new("x", 1)));
    assert_eq!(Expression::constant(const_(5, 8)), Expression::Constant(Constant::new(5, 8)));
}

#[test]
fn constants_keep_their_low_bits() {
    assert_eq!(const_(0x1ff, 8).value(), 0xff);
    assert_eq!(const_(0x100, 8).value(), 0);
    assert_eq!(const_(3, 1).value(), 1);
    assert_eq!(const_(u64::MAX, 64).value(), u64::MAX);
    assert_eq!(const_(u64::MAX, 63).value(), u64::MAX >> 1);
    assert_eq!(const_(0x1_0000_0001, 32).value(), 1);
    assert_eq!(const_(7, 8).bits(), 8);
}

#[test]
fn arithmetic_operators_keep_the_width() {
    let made = [
        Expression::add(x32(), y32()),
        Expression::sub(x32(), y32()),
        Expression::mul(x32(), y32()),
        Expression::divu(x32(), y32()),
        Expression::modu(x32(), y32()),
        Expression::divs(x32(), y32()),
        Expression::mods(x32(), y32()),
        Expression::and(x32(), y32()),
        Expression::or(x32(), y32()),
        Expression::xor(x32(), y32()),
        Expression::shl(x32(), y32()),
        Expression::shr(x32(), y32()),
    ];
    for e in made {
        assert_eq!(e.unwrap().bits(), 32);
    }
}

#[test]
fn arithmetic_operators_build_their_own_form() {
    let b = |e: Expression| Box::new(e);
    assert_eq!(Expression::add(x32(), y32()), Ok(Expression::Add(b(x32()), b(y32()))));
    assert_eq!(Expression::sub(x32(), y32()), Ok(Expression::Sub(b(x32()), b(y32()))));
    assert_eq!(Expression::mul(x32(), y32()), Ok(Expression::Mul(b(x32()), b(y32()))));
    assert_eq!(Expression::divu(x32(), y32()), Ok(Expression::Divu(b(x32()), b(y32()))));
    assert_eq!(Expression::modu(x32(), y32()), Ok(Expression::Modu(b(x32()), b(y32()))));
    assert_eq!(Expression::divs(x32(), y32()), Ok(Expression::Divs(b(x32()), b(y32()))));
    assert_eq!(Expression::mods(x32(), y32()), Ok(Expression::Mods(b(x32()), b(y32()))));
    assert_eq!(Expression::and(x32(), y32()), Ok(Expression::And(b(x32()), b(y32()))));
    assert_eq!(Expression::or(x32(), y32()), Ok(Expression::Or(b(x32()), b(y32()))));
    assert_eq!(Expression::xor(x32(), y32()), Ok(Expression::Xor(b(x32()), b(y32()))));
    assert_eq!(Expression::shl(x32(), y32()), Ok(Expression::Shl(b(x32()), b(y32()))));
    assert_eq!(Expression::shr(x32(), y32()), Ok(Expression::Shr(b(x32()), b(y32()))));
    assert_eq!(Expression::cmpeq(x32(), y32()), Ok(Expression::Cmpeq(b(x32()), b(y32()))));
    assert_eq!(Expression::cmpneq(x32(), y32()), Ok(Expression::Cmpneq(b(x32()), b(y32()))));
    assert_eq!(Expression::cmplts(x32(), y32()), Ok(Expression::Cmplts(b(x32()), b(y32()))));
    assert_eq!(Expression::cmpltu(x32(), y32()), Ok(Expression::Cmpltu(b(x32()), b(y32()))));
}

#[test]
fn every_operator_rejects_operands_of_different_widths() {
    let made = [
        Expression::add(x32(), z16()),
        Expression::sub(x32(), z16()),
        Expression::mul(x32(), z16()),
        Expression::divu(x32(), z16()),
        Expression::modu(x32(), z16()),
        Expression::divs(x32(), z16()),
        Expression::mods(x32(), z16()),
        Expression::and(x32(), z16()),
        Expression::or(x32(), z16()),
        Expression::xor(x32(), z16()),
        Expression::shl(x32(), z16()),
        Expression::shr(x32(), z16()),
        Expression::cmpeq(x32(), z16()),
        Expression::cmpneq(x32(), z16()),
        Expression::cmplts(x32(), z16()),
        Expression::cmpltu(x32(), z16()),
    ];
    for e in made {
        assert_eq!(e, Err(Error::Sort));
    }
}

#[test]
fn comparisons_are_one_bit_wide() {
    let made = [
        Expression::cmpeq(x32(), y32()),
        Expression::cmpneq(x32(), y32()),
        Expression::cmplts(x32(), y32()),
        Expression::cmpltu(x32(), y32()),
    ];
    for e in made {
        assert_eq!(e.unwrap().bits(), 1);
    }
}

#[test]
fn division_by_a_constant_zero_is_an_expression() {
    let e = Expression::divu(x32(), expr_const(0, 32)).unwrap();
    assert_eq!(e.bits(), 32);
    let e = Expression::mods(x32(), expr_const(0, 32)).unwrap();
    assert_eq!(e.bits(), 32);
}

#[test]
fn extension_goes_to_a_greater_width() {
    assert_eq!(
        Expression::zext(32, z16()),
        Ok(Expression::Zext(32, Box::new(z16())))
    );
    assert_eq!(
        Expression::sext(64, z16()),
        Ok(Expression::Sext(64, Box::new(z16())))
    );
    assert_eq!(Expression::zext(32, z16()).unwrap().bits(), 32);
    assert_eq!(Expression::sext(64, z16()).unwrap().bits(), 64);
}

#[test]
fn extension_to_the_same_width_is_the_operand() {
    assert_eq!(Expression::zext(16, z16()), Ok(z16()));
    assert_eq!(Expression::sext(16, z16()), Ok(z16()));
    assert_eq!(Expression::trun(16, z16()), Ok(z16()));
}

#[test]
fn extension_rejects_inadmissible_widths() {
    assert_eq!(Expression::zext(8, z16()), Err(Error::Sort));
    assert_eq!(Expression::sext(15, z16()), Err(Error::Sort));
    assert_eq!(Expression::zext(65, z16()), Err(Error::Sort));
    assert_eq!(Expression::sext(128, z16()), Err(Error::Sort));
    assert_eq!(Expression::zext(0, z16()), Err(Error::Sort));
}

#[test]
fn truncation_goes_to_a_smaller_width() {
    assert_eq!(
        Expression::trun(8, z16()),
        Ok(Expression::Trun(8, Box::new(z16())))
    );
    assert_eq!(Expression::trun(1, z16()).unwrap().bits(), 1);
    assert_eq!(Expression::trun(0, z16()), Err(Error::Sort));
    assert_eq!(Expression::trun(17, z16()), Err(Error::Sort));
    assert_eq!(Expression::trun(64, z16()), Err(Error::Sort));
}

#[test]
fn scalars_and_constants_are_collected_left_to_right() {
    let sum = Expression::add(x32(), expr_const(1, 32)).unwrap();
    let product = Expression::mul(sum, Expression::zext(32, z16()).unwrap()).unwrap();
    let e = Expression::cmpltu(product, Expression::sub(expr_const(2, 32), x32()).unwrap()).unwrap();
    let scalars: Vec<Scalar> = e.collect_scalars().into_iter().cloned().collect();
    assert_eq!(scalars, vec![scalar("x", 32), scalar("z", 16), scalar("x", 32)]);
    let constants: Vec<Constant> = e.collect_constants().into_iter().cloned().collect();
    assert_eq!(constants, vec![const_(1, 32), const_(2, 32)]);
}

#[test]
fn a_terminal_holds_itself() {
    assert_eq!(x32().collect_scalars(), vec![&scalar("x", 32)]);
    assert!(x32().collect_constants().is_empty());
    assert!(expr_const(1, 8).collect_scalars().is_empty());
    assert_eq!(expr_const(1, 8).collect_constants(), vec![&const_(1, 8)]);
}

#[test]
fn a_scalar_is_renamed_in_its_place() {
    let mut e = Expression::add(
        Expression::mul(x32(), y32()).unwrap(),
        Expression::zext(32, z16()).unwrap(),
    )
    .unwrap();
    e.scalar_mut(1).unwrap().set_ssa(Some(4));
    *e.scalar_mut(2).unwrap() = scalar("w", 16);
    assert!(e.scalar_mut(3).is_none());
    let mut y = scalar("y", 32);
    y.set_ssa(Some(4));
    let expected = Expression::add(
        Expression::mul(x32(), Expression::scalar(y)).unwrap(),
        Expression::zext(32, expr_scalar("w", 16)).unwrap(),
    )
    .unwrap();
    assert_eq!(e, expected);
}

#[test]
fn a_constant_has_no_scalar_to_rename() {
    let mut e = expr_const(1, 8);
    assert!(e.scalar_mut(0).is_none());
    assert_eq!(e, expr_const(1, 8));
}

#[test]
fn clone_is_equal() {
    let e = Expression::trun(
        8,
        Expression::xor(x32(), Expression::sext(32, expr_const(0x80, 8)).unwrap()).unwrap(),
    )
    .unwrap();
    assert_eq!(e.clone(), e);
}

#[test]
fn terminals_render_with_their_width() {
    assert_eq!(scalar("eax", 32).render(), "eax:32");
    let mut eax = scalar("eax", 32);
    eax.set_ssa(Some(12));
    assert_eq!(eax.render(), "eax_12:32");
    assert_eq!(const_(0, 1).render(), "0x0:1");
    assert_eq!(const_(0xdeadbeef, 64).render(), "0xdeadbeef:64");
    assert_eq!(const_(255, 8).render(), "0xff:8");
    assert_eq!(const_(16, 8).render(), "0x10:8");
}

#[test]
fn expressions_render_with_their_operators() {
    let signs = [
        (Expression::add(x32(), y32()), "+"),
        (Expression::sub(x32(), y32()), "-"),
        (Expression::mul(x32(), y32()), "*"),
        (Expression::divu(x32(), y32()), "/u"),
        (Expression::modu(x32(), y32()), "%u"),
        (Expression::divs(x32(), y32()), "/s"),
        (Expression::mods(x32(), y32()), "%s"),
        (Expression::and(x32(), y32()), "&"),
        (Expression::or(x32(), y32()), "|"),
        (Expression::xor(x32(), y32()), "^"),
        (Expression::shl(x32(), y32()), "<<"),
        (Expression::shr(x32(), y32()), ">>"),
        (Expression::cmpeq(x32(), y32()), "=="),
        (Expression::cmpneq(x32(), y32()), "!="),
        (Expression::cmplts(x32(), y32()), "<s"),
        (Expression::cmpltu(x32(), y32()), "<u"),
    ];
    for (e, sign) in signs {
        assert_eq!(e.unwrap().render(), format!("(x:32 {} y:32)", sign));
    }
    assert_eq!(Expression::zext(32, z16()).unwrap().render(), "zext.32(z:16)");
    assert_eq!(Expression::sext(64, z16()).unwrap().render(), "sext.64(z:16)");
    assert_eq!(Expression::trun(8, z16()).unwrap().render(), "trun.8(z:16)");
    let nested = Expression::add(
        Expression::zext(32, z16()).unwrap(),
        Expression::mul(x32(), expr_const(10, 32)).unwrap(),
    )
    .unwrap();
    assert_eq!(nested.render(), "(zext.32(z:16) + (x:32 * 0xa:32))");
}
