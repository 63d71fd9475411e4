//! Expressions over scalars and constants.

use vstd::prelude::*;
use vstd::string::StringExecFns;
use crate::error::Error;
use crate::il::constant::Constant;
use crate::il::constant::lemma_constant_is_unique;
use crate::il::scalar::{admissible_bits, MAX_BITS, MIN_BITS, Scalar};
use crate::il::scalar::lemma_scalar_is_unique;
use crate::il::serial::{
    encodes, fits, lemma_encodes_byte, lemma_encodes_split, lemma_encodes_whole,
    lemma_size_and_index_are_unique, put_size, size_bytes, take_size,
};
use crate::il::text::{decimal, push_decimal};

verus! {

/// An expression of the language. There are twenty-one forms: two
/// terminals, twelve arithmetic and logical operators, four comparisons and
/// three operators that change the width.
///
/// Arithmetic is two's complement, modulo two to the power of the width.
/// `Divu`, `Modu` and `Cmpltu` read their operands as unsigned, `Divs`,
/// `Mods` and `Cmplts` as signed. `Shl` and `Shr` fill with zero. A
/// comparison is one bit wide: 1 for true, 0 for false.
#[derive(Debug, PartialEq, Eq, Hash, PartialOrd, Ord)]
pub enum Expression {
    Scalar(Scalar),
    Constant(Constant),
    Add(Box<Expression>, Box<Expression>),
    Sub(Box<Expression>, Box<Expression>),
    Mul(Box<Expression>, Box<Expression>),
    Divu(Box<Expression>, Box<Expression>),
    Modu(Box<Expression>, Box<Expression>),
    Divs(Box<Expression>, Box<Expression>),
    Mods(Box<Expression>, Box<Expression>),
    And(Box<Expression>, Box<Expression>),
    Or(Box<Expression>, Box<Expression>),
    Xor(Box<Expression>, Box<Expression>),
    Shl(Box<Expression>, Box<Expression>),
    Shr(Box<Expression>, Box<Expression>),
    Cmpeq(Box<Expression>, Box<Expression>),
    Cmpneq(Box<Expression>, Box<Expression>),
    Cmplts(Box<Expression>, Box<Expression>),
    Cmpltu(Box<Expression>, Box<Expression>),
    Zext(usize, Box<Expression>),
    Sext(usize, Box<Expression>),
    Trun(usize, Box<Expression>),
}

/// The shape of an expression, apart from its operands.
pub enum Form {
    /// A scalar or a constant.
    Terminal,
    /// An arithmetic or logical operator: as wide as its operands.
    Arithmetic,
    /// A comparison: one bit wide.
    Comparison,
    /// A zero or sign extension to a greater width.
    Extension,
    /// A truncation to a smaller width.
    Truncation,
}

impl Expression {
    /// The shape of this expression.
    pub open spec fn form(&self) -> Form {
        match self {
            Expression::Scalar(_) | Expression::Constant(_) => Form::Terminal,
            Expression::Cmpeq(_, _)
            | Expression::Cmpneq(_, _)
            | Expression::Cmplts(_, _)
            | Expression::Cmpltu(_, _) => Form::Comparison,
            Expression::Zext(_, _) | Expression::Sext(_, _) => Form::Extension,
            Expression::Trun(_, _) => Form::Truncation,
            _ => Form::Arithmetic,
        }
    }

    /// The operands of this expression, left to right.
    pub open spec fn operands(&self) -> Seq<Expression> {
        match self {
            Expression::Scalar(_) | Expression::Constant(_) => seq![],
            Expression::Add(lhs, rhs)
            | Expression::Sub(lhs, rhs)
            | Expression::Mul(lhs, rhs)
            | Expression::Divu(lhs, rhs)
            | Expression::Modu(lhs, rhs)
            | Expression::Divs(lhs, rhs)
            | Expression::Mods(lhs, rhs)
            | Expression::And(lhs, rhs)
            | Expression::Or(lhs, rhs)
            | Expression::Xor(lhs, rhs)
            | Expression::Shl(lhs, rhs)
            | Expression::Shr(lhs, rhs)
            | Expression::Cmpeq(lhs, rhs)
            | Expression::Cmpneq(lhs, rhs)
            | Expression::Cmplts(lhs, rhs)
            | Expression::Cmpltu(lhs, rhs) => seq![**lhs, **rhs],
            Expression::Zext(_, src) | Expression::Sext(_, src) | Expression::Trun(_, src) => seq![
                **src,
            ],
        }
    }

    /// The width in bits of the value of this expression.
    pub open spec fn spec_bits(&self) -> usize
        decreases self,
    {
        match self {
            Expression::Scalar(scalar) => scalar@.bits,
            Expression::Constant(constant) => constant@.bits,
            Expression::Add(lhs, _)
            | Expression::Sub(lhs, _)
            | Expression::Mul(lhs, _)
            | Expression::Divu(lhs, _)
            | Expression::Modu(lhs, _)
            | Expression::Divs(lhs, _)
            | Expression::Mods(lhs, _)
            | Expression::And(lhs, _)
            | Expression::Or(lhs, _)
            | Expression::Xor(lhs, _)
            | Expression::Shl(lhs, _)
            | Expression::Shr(lhs, _) => lhs.spec_bits(),
            Expression::Cmpeq(_, _)
            | Expression::Cmpneq(_, _)
            | Expression::Cmplts(_, _)
            | Expression::Cmpltu(_, _) => 1,
            Expression::Zext(bits, _) | Expression::Sext(bits, _) | Expression::Trun(bits, _) => *bits,
        }
    }

    /// The sort discipline. Terminals have an admissible width. The two
    /// operands of an arithmetic operator, a logical operator or a
    /// comparison are equally wide. An extension is wider than its operand
    /// and at most `MAX_BITS` wide; a truncation is narrower than its
    /// operand and at least `MIN_BITS` wide. And every operand is itself
    /// well formed.
    pub open spec fn well_formed(&self) -> bool
        decreases self,
    {
        match self {
            Expression::Scalar(scalar) => scalar.well_formed(),
            Expression::Constant(constant) => constant.well_formed(),
            Expression::Add(lhs, rhs)
            | Expression::Sub(lhs, rhs)
            | Expression::Mul(lhs, rhs)
            | Expression::Divu(lhs, rhs)
            | Expression::Modu(lhs, rhs)
            | Expression::Divs(lhs, rhs)
            | Expression::Mods(lhs, rhs)
            | Expression::And(lhs, rhs)
            | Expression::Or(lhs, rhs)
            | Expression::Xor(lhs, rhs)
            | Expression::Shl(lhs, rhs)
            | Expression::Shr(lhs, rhs)
            | Expression::Cmpeq(lhs, rhs)
            | Expression::Cmpneq(lhs, rhs)
            | Expression::Cmplts(lhs, rhs)
            | Expression::Cmpltu(lhs, rhs) => {
                &&& lhs.well_formed()
                &&& rhs.well_formed()
                &&& lhs.spec_bits() == rhs.spec_bits()
            },
            Expression::Zext(bits, src) | Expression::Sext(bits, src) => {
                &&& src.well_formed()
                &&& src.spec_bits() < *bits <= MAX_BITS
            },
            Expression::Trun(bits, src) => {
                &&& src.well_formed()
                &&& MIN_BITS <= *bits < src.spec_bits()
            },
        }
    }

    /// The scalars that occur in this expression, left to right, each as
    /// often as it occurs.
    pub open spec fn scalars(&self) -> Seq<Scalar>
        decreases self,
    {
        match self {
            Expression::Scalar(scalar) => seq![*scalar],
            Expression::Constant(_) => seq![],
            Expression::Add(lhs, rhs)
            | Expression::Sub(lhs, rhs)
            | Expression::Mul(lhs, rhs)
            | Expression::Divu(lhs, rhs)
            | Expression::Modu(lhs, rhs)
            | Expression::Divs(lhs, rhs)
            | Expression::Mods(lhs, rhs)
            | Expression::And(lhs, rhs)
            | Expression::Or(lhs, rhs)
            | Expression::Xor(lhs, rhs)
            | Expression::Shl(lhs, rhs)
            | Expression::Shr(lhs, rhs)
            | Expression::Cmpeq(lhs, rhs)
            | Expression::Cmpneq(lhs, rhs)
            | Expression::Cmplts(lhs, rhs)
            | Expression::Cmpltu(lhs, rhs) => lhs.scalars() + rhs.scalars(),
            Expression::Zext(_, src) | Expression::Sext(_, src) | Expression::Trun(_, src) => {
                src.scalars()
            },
        }
    }

    /// The constants that occur in this expression, left to right, each as
    /// often as it occurs.
    pub open spec fn constants(&self) -> Seq<Constant>
        decreases self,
    {
        match self {
            Expression::Scalar(_) => seq![],
            Expression::Constant(constant) => seq![*constant],
            Expression::Add(lhs, rhs)
            | Expression::Sub(lhs, rhs)
            | Expression::Mul(lhs, rhs)
            | Expression::Divu(lhs, rhs)
            | Expression::Modu(lhs, rhs)
            | Expression::Divs(lhs, rhs)
            | Expression::Mods(lhs, rhs)
            | Expression::And(lhs, rhs)
            | Expression::Or(lhs, rhs)
            | Expression::Xor(lhs, rhs)
            | Expression::Shl(lhs, rhs)
            | Expression::Shr(lhs, rhs)
            | Expression::Cmpeq(lhs, rhs)
            | Expression::Cmpneq(lhs, rhs)
            | Expression::Cmplts(lhs, rhs)
            | Expression::Cmpltu(lhs, rhs) => lhs.constants() + rhs.constants(),
            Expression::Zext(_, src) | Expression::Sext(_, src) | Expression::Trun(_, src) => {
                src.constants()
            },
        }
    }

    /// The width in bits of the value of this expression.
    #[verifier::when_used_as_spec(spec_bits)]
    pub fn bits(&self) -> (bits: usize)
        ensures
            bits == self.spec_bits(),
        decreases self,
    {
        match self {
            Expression::Scalar(scalar) => scalar.bits(),
            Expression::Constant(constant) => constant.bits(),
            Expression::Add(lhs, _)
            | Expression::Sub(lhs, _)
            | Expression::Mul(lhs, _)
            | Expression::Divu(lhs, _)
            | Expression::Modu(lhs, _)
            | Expression::Divs(lhs, _)
            | Expression::Mods(lhs, _)
            | Expression::And(lhs, _)
            | Expression::Or(lhs, _)
            | Expression::Xor(lhs, _)
            | Expression::Shl(lhs, _)
            | Expression::Shr(lhs, _) => lhs.bits(),
            Expression::Cmpeq(_, _)
            | Expression::Cmpneq(_, _)
            | Expression::Cmplts(_, _)
            | Expression::Cmpltu(_, _) => 1,
            Expression::Zext(bits, _) | Expression::Sext(bits, _) | Expression::Trun(bits, _) => *bits,
        }
    }
}

/// What a constructor of a two-operand expression returns: `e` where the
/// operands are equally wide, a sort error where they are not.
pub open spec fn checked_binary(lhs: Expression, rhs: Expression, e: Expression) -> Result<
    Expression,
    Error,
> {
    if lhs.spec_bits() == rhs.spec_bits() {
        Ok(e)
    } else {
        Err(Error::Sort)
    }
}

/// What `zext` and `sext` return for the target width `bits` and the operand
/// `src`, where `e` is the extension itself: `src` where it already has the
/// width, `e` where the width is greater and admissible, a sort error
/// otherwise.
pub open spec fn checked_extension(bits: usize, src: Expression, e: Expression) -> Result<
    Expression,
    Error,
> {
    if bits == src.spec_bits() {
        Ok(src)
    } else if src.spec_bits() < bits <= MAX_BITS {
        Ok(e)
    } else {
        Err(Error::Sort)
    }
}

/// What `trun` returns for the target width `bits` and the operand `src`:
/// `src` where it already has the width, the truncation where the width is
/// smaller and admissible, a sort error otherwise.
pub open spec fn checked_truncation(bits: usize, src: Expression) -> Result<Expression, Error> {
    if bits == src.spec_bits() {
        Ok(src)
    } else if MIN_BITS <= bits < src.spec_bits() {
        Ok(Expression::Trun(bits, Box::new(src)))
    } else {
        Err(Error::Sort)
    }
}

/// The values that a sequence of references points to.
pub open spec fn targets<T>(refs: Seq<&T>) -> Seq<T> {
    refs.map_values(|r: &T| *r)
}

impl Expression {
    /// The expression that reads a scalar.
    pub fn scalar(scalar: Scalar) -> (e: Expression)
        ensures
            e == Expression::Scalar(scalar),
    {
        Expression::Scalar(scalar)
    }

    /// The expression that is a constant.
    pub fn constant(constant: Constant) -> (e: Expression)
        ensures
            e == Expression::Constant(constant),
    {
        Expression::Constant(constant)
    }

    /// The sum of two expressions of one width.
    pub fn add(lhs: Expression, rhs: Expression) -> (r: Result<Expression, Error>)
        ensures
            r == checked_binary(lhs, rhs, Expression::Add(Box::new(lhs), Box::new(rhs))),
            lhs.well_formed() && rhs.well_formed() && r is Ok ==> r->Ok_0.well_formed(),
    {
        if lhs.bits() == rhs.bits() {
            Ok(Expression::Add(Box::new(lhs), Box::new(rhs)))
        } else {
            Err(Error::Sort)
        }
    }

    /// The difference of two expressions of one width.
    pub fn sub(lhs: Expression, rhs: Expression) -> (r: Result<Expression, Error>)
        ensures
            r == checked_binary(lhs, rhs, Expression::Sub(Box::new(lhs), Box::new(rhs))),
            lhs.well_formed() && rhs.well_formed() && r is Ok ==> r->Ok_0.well_formed(),
    {
        if lhs.bits() == rhs.bits() {
            Ok(Expression::Sub(Box::new(lhs), Box::new(rhs)))
        } else {
            Err(Error::Sort)
        }
    }

    /// The product of two expressions of one width.
    pub fn mul(lhs: Expression, rhs: Expression) -> (r: Result<Expression, Error>)
        ensures
            r == checked_binary(lhs, rhs, Expression::Mul(Box::new(lhs), Box::new(rhs))),
            lhs.well_formed() && rhs.well_formed() && r is Ok ==> r->Ok_0.well_formed(),
    {
        if lhs.bits() == rhs.bits() {
            Ok(Expression::Mul(Box::new(lhs), Box::new(rhs)))
        } else {
            Err(Error::Sort)
        }
    }

    /// The unsigned quotient of two expressions of one width.
    pub fn divu(lhs: Expression, rhs: Expression) -> (r: Result<Expression, Error>)
        ensures
            r == checked_binary(lhs, rhs, Expression::Divu(Box::new(lhs), Box::new(rhs))),
            lhs.well_formed() && rhs.well_formed() && r is Ok ==> r->Ok_0.well_formed(),
    {
        if lhs.bits() == rhs.bits() {
            Ok(Expression::Divu(Box::new(lhs), Box::new(rhs)))
        } else {
            Err(Error::Sort)
        }
    }

    /// The unsigned remainder of two expressions of one width.
    pub fn modu(lhs: Expression, rhs: Expression) -> (r: Result<Expression, Error>)
        ensures
            r == checked_binary(lhs, rhs, Expression::Modu(Box::new(lhs), Box::new(rhs))),
            lhs.well_formed() && rhs.well_formed() && r is Ok ==> r->Ok_0.well_formed(),
    {
        if lhs.bits() == rhs.bits() {
            Ok(Expression::Modu(Box::new(lhs), Box::new(rhs)))
        } else {
            Err(Error::Sort)
        }
    }

    /// The signed quotient of two expressions of one width.
    pub fn divs(lhs: Expression, rhs: Expression) -> (r: Result<Expression, Error>)
        ensures
            r == checked_binary(lhs, rhs, Expression::Divs(Box::new(lhs), Box::new(rhs))),
            lhs.well_formed() && rhs.well_formed() && r is Ok ==> r->Ok_0.well_formed(),
    {
        if lhs.bits() == rhs.bits() {
            Ok(Expression::Divs(Box::new(lhs), Box::new(rhs)))
        } else {
            Err(Error::Sort)
        }
    }

    /// The signed remainder of two expressions of one width.
    pub fn mods(lhs: Expression, rhs: Expression) -> (r: Result<Expression, Error>)
        ensures
            r == checked_binary(lhs, rhs, Expression::Mods(Box::new(lhs), Box::new(rhs))),
            lhs.well_formed() && rhs.well_formed() && r is Ok ==> r->Ok_0.well_formed(),
    {
        if lhs.bits() == rhs.bits() {
            Ok(Expression::Mods(Box::new(lhs), Box::new(rhs)))
        } else {
            Err(Error::Sort)
        }
    }

    /// The bitwise and of two expressions of one width.
    pub fn and(lhs: Expression, rhs: Expression) -> (r: Result<Expression, Error>)
        ensures
            r == checked_binary(lhs, rhs, Expression::And(Box::new(lhs), Box::new(rhs))),
            lhs.well_formed() && rhs.well_formed() && r is Ok ==> r->Ok_0.well_formed(),
    {
        if lhs.bits() == rhs.bits() {
            Ok(Expression::And(Box::new(lhs), Box::new(rhs)))
        } else {
            Err(Error::Sort)
        }
    }

    /// The bitwise or of two expressions of one width.
    pub fn or(lhs: Expression, rhs: Expression) -> (r: Result<Expression, Error>)
        ensures
            r == checked_binary(lhs, rhs, Expression::Or(Box::new(lhs), Box::new(rhs))),
            lhs.well_formed() && rhs.well_formed() && r is Ok ==> r->Ok_0.well_formed(),
    {
        if lhs.bits() == rhs.bits() {
            Ok(Expression::Or(Box::new(lhs), Box::new(rhs)))
        } else {
            Err(Error::Sort)
        }
    }

    /// The bitwise exclusive or of two expressions of one width.
    pub fn xor(lhs: Expression, rhs: Expression) -> (r: Result<Expression, Error>)
        ensures
            r == checked_binary(lhs, rhs, Expression::Xor(Box::new(lhs), Box::new(rhs))),
            lhs.well_formed() && rhs.well_formed() && r is Ok ==> r->Ok_0.well_formed(),
    {
        if lhs.bits() == rhs.bits() {
            Ok(Expression::Xor(Box::new(lhs), Box::new(rhs)))
        } else {
            Err(Error::Sort)
        }
    }

    /// `lhs` shifted left by `rhs`, filled with zero. Both have one width.
    pub fn shl(lhs: Expression, rhs: Expression) -> (r: Result<Expression, Error>)
        ensures
            r == checked_binary(lhs, rhs, Expression::Shl(Box::new(lhs), Box::new(rhs))),
            lhs.well_formed() && rhs.well_formed() && r is Ok ==> r->Ok_0.well_formed(),
    {
        if lhs.bits() == rhs.bits() {
            Ok(Expression::Shl(Box::new(lhs), Box::new(rhs)))
        } else {
            Err(Error::Sort)
        }
    }

    /// `lhs` shifted right by `rhs`, filled with zero. Both have one width.
    pub fn shr(lhs: Expression, rhs: Expression) -> (r: Result<Expression, Error>)
        ensures
            r == checked_binary(lhs, rhs, Expression::Shr(Box::new(lhs), Box::new(rhs))),
            lhs.well_formed() && rhs.well_formed() && r is Ok ==> r->Ok_0.well_formed(),
    {
        if lhs.bits() == rhs.bits() {
            Ok(Expression::Shr(Box::new(lhs), Box::new(rhs)))
        } else {
            Err(Error::Sort)
        }
    }

    /// One bit that says whether two expressions of one width are equal.
    pub fn cmpeq(lhs: Expression, rhs: Expression) -> (r: Result<Expression, Error>)
        ensures
            r == checked_binary(lhs, rhs, Expression::Cmpeq(Box::new(lhs), Box::new(rhs))),
            lhs.well_formed() && rhs.well_formed() && r is Ok ==> r->Ok_0.well_formed(),
    {
        if lhs.bits() == rhs.bits() {
            Ok(Expression::Cmpeq(Box::new(lhs), Box::new(rhs)))
        } else {
            Err(Error::Sort)
        }
    }

    /// One bit that says whether two expressions of one width differ.
    pub fn cmpneq(lhs: Expression, rhs: Expression) -> (r: Result<Expression, Error>)
        ensures
            r == checked_binary(lhs, rhs, Expression::Cmpneq(Box::new(lhs), Box::new(rhs))),
            lhs.well_formed() && rhs.well_formed() && r is Ok ==> r->Ok_0.well_formed(),
    {
        if lhs.bits() == rhs.bits() {
            Ok(Expression::Cmpneq(Box::new(lhs), Box::new(rhs)))
        } else {
            Err(Error::Sort)
        }
    }

    /// One bit that says whether `lhs` is less than `rhs`, both signed.
    pub fn cmplts(lhs: Expression, rhs: Expression) -> (r: Result<Expression, Error>)
        ensures
            r == checked_binary(lhs, rhs, Expression::Cmplts(Box::new(lhs), Box::new(rhs))),
            lhs.well_formed() && rhs.well_formed() && r is Ok ==> r->Ok_0.well_formed(),
    {
        if lhs.bits() == rhs.bits() {
            Ok(Expression::Cmplts(Box::new(lhs), Box::new(rhs)))
        } else {
            Err(Error::Sort)
        }
    }

    /// One bit that says whether `lhs` is less than `rhs`, both unsigned.
    pub fn cmpltu(lhs: Expression, rhs: Expression) -> (r: Result<Expression, Error>)
        ensures
            r == checked_binary(lhs, rhs, Expression::Cmpltu(Box::new(lhs), Box::new(rhs))),
            lhs.well_formed() && rhs.well_formed() && r is Ok ==> r->Ok_0.well_formed(),
    {
        if lhs.bits() == rhs.bits() {
            Ok(Expression::Cmpltu(Box::new(lhs), Box::new(rhs)))
        } else {
            Err(Error::Sort)
        }
    }

    /// `src` extended with zeros to `bits` bits.
    ///
    /// An extension to the width that `src` already has is `src` itself: no
    /// tree holds an extension that changes nothing. A width below that of
    /// `src` or above `MAX_BITS` is a sort error.
    pub fn zext(bits: usize, src: Expression) -> (r: Result<Expression, Error>)
        ensures
            r == checked_extension(bits, src, Expression::Zext(bits, Box::new(src))),
            src.well_formed() && r is Ok ==> r->Ok_0.well_formed(),
    {
        let src_bits = src.bits();
        if bits == src_bits {
            Ok(src)
        } else if src_bits < bits && bits <= MAX_BITS {
            Ok(Expression::Zext(bits, Box::new(src)))
        } else {
            Err(Error::Sort)
        }
    }

    /// `src` extended with copies of its sign bit to `bits` bits.
    ///
    /// An extension to the width that `src` already has is `src` itself: no
    /// tree holds an extension that changes nothing. A width below that of
    /// `src` or above `MAX_BITS` is a sort error.
    pub fn sext(bits: usize, src: Expression) -> (r: Result<Expression, Error>)
        ensures
            r == checked_extension(bits, src, Expression::Sext(bits, Box::new(src))),
            src.well_formed() && r is Ok ==> r->Ok_0.well_formed(),
    {
        let src_bits = src.bits();
        if bits == src_bits {
            Ok(src)
        } else if src_bits < bits && bits <= MAX_BITS {
            Ok(Expression::Sext(bits, Box::new(src)))
        } else {
            Err(Error::Sort)
        }
    }

    /// The low `bits` bits of `src`.
    ///
    /// A truncation to the width that `src` already has is `src` itself. A
    /// width above that of `src` or below `MIN_BITS` is a sort error.
    pub fn trun(bits: usize, src: Expression) -> (r: Result<Expression, Error>)
        ensures
            r == checked_truncation(bits, src),
            src.well_formed() && r is Ok ==> r->Ok_0.well_formed(),
    {
        let src_bits = src.bits();
        if bits == src_bits {
            Ok(src)
        } else if MIN_BITS <= bits && bits < src_bits {
            Ok(Expression::Trun(bits, Box::new(src)))
        } else {
            Err(Error::Sort)
        }
    }

    /// Every scalar of this expression, left to right.
    pub fn collect_scalars(&self) -> (found: Vec<&Scalar>)
        ensures
            targets(found@) == self.scalars(),
        decreases self,
    {
        match self {
            Expression::Scalar(scalar) => {
                let mut found = Vec::new();
                found.push(scalar);
                assert(targets(found@) =~= self.scalars());
                found
            },
            Expression::Constant(_) => {
                let found = Vec::new();
                assert(targets(found@) =~= self.scalars());
                found
            },
            Expression::Add(lhs, rhs)
            | Expression::Sub(lhs, rhs)
            | Expression::Mul(lhs, rhs)
            | Expression::Divu(lhs, rhs)
            | Expression::Modu(lhs, rhs)
            | Expression::Divs(lhs, rhs)
            | Expression::Mods(lhs, rhs)
            | Expression::And(lhs, rhs)
            | Expression::Or(lhs, rhs)
            | Expression::Xor(lhs, rhs)
            | Expression::Shl(lhs, rhs)
            | Expression::Shr(lhs, rhs)
            | Expression::Cmpeq(lhs, rhs)
            | Expression::Cmpneq(lhs, rhs)
            | Expression::Cmplts(lhs, rhs)
            | Expression::Cmpltu(lhs, rhs) => {
                let mut found = lhs.collect_scalars();
                let mut more = rhs.collect_scalars();
                found.append(&mut more);
                assert(targets(found@) =~= self.scalars());
                found
            },
            Expression::Zext(_, src) | Expression::Sext(_, src) | Expression::Trun(_, src) => {
                src.collect_scalars()
            },
        }
    }

    /// Every constant of this expression, left to right.
    pub fn collect_constants(&self) -> (found: Vec<&Constant>)
        ensures
            targets(found@) == self.constants(),
        decreases self,
    {
        match self {
            Expression::Scalar(_) => {
                let found = Vec::new();
                assert(targets(found@) =~= self.constants());
                found
            },
            Expression::Constant(constant) => {
                let mut found = Vec::new();
                found.push(constant);
                assert(targets(found@) =~= self.constants());
                found
            },
            Expression::Add(lhs, rhs)
            | Expression::Sub(lhs, rhs)
            | Expression::Mul(lhs, rhs)
            | Expression::Divu(lhs, rhs)
            | Expression::Modu(lhs, rhs)
            | Expression::Divs(lhs, rhs)
            | Expression::Mods(lhs, rhs)
            | Expression::And(lhs, rhs)
            | Expression::Or(lhs, rhs)
            | Expression::Xor(lhs, rhs)
            | Expression::Shl(lhs, rhs)
            | Expression::Shr(lhs, rhs)
            | Expression::Cmpeq(lhs, rhs)
            | Expression::Cmpneq(lhs, rhs)
            | Expression::Cmplts(lhs, rhs)
            | Expression::Cmpltu(lhs, rhs) => {
                let mut found = lhs.collect_constants();
                let mut more = rhs.collect_constants();
                found.append(&mut more);
                assert(targets(found@) =~= self.constants());
                found
            },
            Expression::Zext(_, src) | Expression::Sext(_, src) | Expression::Trun(_, src) => {
                src.collect_constants()
            },
        }
    }
}

impl Clone for Expression {
    fn clone(&self) -> (e: Self)
        ensures
            e == *self,
        decreases self,
    {
        match self {
            Expression::Scalar(scalar) => Expression::Scalar(scalar.clone()),
            Expression::Constant(constant) => Expression::Constant(constant.clone()),
            Expression::Add(lhs, rhs) => Expression::Add(
                Box::new((**lhs).clone()),
                Box::new((**rhs).clone()),
            ),
            Expression::Sub(lhs, rhs) => Expression::Sub(
                Box::new((**lhs).clone()),
                Box::new((**rhs).clone()),
            ),
            Expression::Mul(lhs, rhs) => Expression::Mul(
                Box::new((**lhs).clone()),
                Box::new((**rhs).clone()),
            ),
            Expression::Divu(lhs, rhs) => Expression::Divu(
                Box::new((**lhs).clone()),
                Box::new((**rhs).clone()),
            ),
            Expression::Modu(lhs, rhs) => Expression::Modu(
                Box::new((**lhs).clone()),
                Box::new((**rhs).clone()),
            ),
            Expression::Divs(lhs, rhs) => Expression::Divs(
                Box::new((**lhs).clone()),
                Box::new((**rhs).clone()),
            ),
            Expression::Mods(lhs, rhs) => Expression::Mods(
                Box::new((**lhs).clone()),
                Box::new((**rhs).clone()),
            ),
            Expression::And(lhs, rhs) => Expression::And(
                Box::new((**lhs).clone()),
                Box::new((**rhs).clone()),
            ),
            Expression::Or(lhs, rhs) => Expression::Or(
                Box::new((**lhs).clone()),
                Box::new((**rhs).clone()),
            ),
            Expression::Xor(lhs, rhs) => Expression::Xor(
                Box::new((**lhs).clone()),
                Box::new((**rhs).clone()),
            ),
            Expression::Shl(lhs, rhs) => Expression::Shl(
                Box::new((**lhs).clone()),
                Box::new((**rhs).clone()),
            ),
            Expression::Shr(lhs, rhs) => Expression::Shr(
                Box::new((**lhs).clone()),
                Box::new((**rhs).clone()),
            ),
            Expression::Cmpeq(lhs, rhs) => Expression::Cmpeq(
                Box::new((**lhs).clone()),
                Box::new((**rhs).clone()),
            ),
            Expression::Cmpneq(lhs, rhs) => Expression::Cmpneq(
                Box::new((**lhs).clone()),
                Box::new((**rhs).clone()),
            ),
            Expression::Cmplts(lhs, rhs) => Expression::Cmplts(
                Box::new((**lhs).clone()),
                Box::new((**rhs).clone()),
            ),
            Expression::Cmpltu(lhs, rhs) => Expression::Cmpltu(
                Box::new((**lhs).clone()),
                Box::new((**rhs).clone()),
            ),
            Expression::Zext(bits, src) => Expression::Zext(*bits, Box::new((**src).clone())),
            Expression::Sext(bits, src) => Expression::Sext(*bits, Box::new((**src).clone())),
            Expression::Trun(bits, src) => Expression::Trun(*bits, Box::new((**src).clone())),
        }
    }
}

impl Expression {
    /// Whether `part` occurs in this expression: it is the expression
    /// itself, or it occurs in one of the operands.
    pub open spec fn holds(&self, part: Expression) -> bool
        decreases self,
    {
        *self == part || match self {
            Expression::Scalar(_) | Expression::Constant(_) => false,
            Expression::Add(lhs, rhs)
            | Expression::Sub(lhs, rhs)
            | Expression::Mul(lhs, rhs)
            | Expression::Divu(lhs, rhs)
            | Expression::Modu(lhs, rhs)
            | Expression::Divs(lhs, rhs)
            | Expression::Mods(lhs, rhs)
            | Expression::And(lhs, rhs)
            | Expression::Or(lhs, rhs)
            | Expression::Xor(lhs, rhs)
            | Expression::Shl(lhs, rhs)
            | Expression::Shr(lhs, rhs)
            | Expression::Cmpeq(lhs, rhs)
            | Expression::Cmpneq(lhs, rhs)
            | Expression::Cmplts(lhs, rhs)
            | Expression::Cmpltu(lhs, rhs) => lhs.holds(part) || rhs.holds(part),
            Expression::Zext(_, src) | Expression::Sext(_, src) | Expression::Trun(_, src) => {
                src.holds(part)
            },
        }
    }

    /// The sort rule of this expression's form, stated of its own width and
    /// the widths of its operands.
    pub open spec fn obeys_sort_rule(&self) -> bool {
        match self.form() {
            Form::Terminal => admissible_bits(self.spec_bits()),
            Form::Arithmetic => {
                &&& self.operands()[0].spec_bits() == self.operands()[1].spec_bits()
                &&& self.spec_bits() == self.operands()[0].spec_bits()
            },
            Form::Comparison => {
                &&& self.operands()[0].spec_bits() == self.operands()[1].spec_bits()
                &&& self.spec_bits() == 1
            },
            Form::Extension => self.operands()[0].spec_bits() <= self.spec_bits() <= MAX_BITS,
            Form::Truncation => MIN_BITS <= self.spec_bits() <= self.operands()[0].spec_bits(),
        }
    }
}

/// The width of a well-formed expression is admissible.
pub proof fn lemma_width_is_admissible(e: Expression)
    requires
        e.well_formed(),
    ensures
        admissible_bits(e.spec_bits()),
    decreases e,
{
    match e {
        Expression::Scalar(_) | Expression::Constant(_) => {},
        Expression::Cmpeq(_, _)
        | Expression::Cmpneq(_, _)
        | Expression::Cmplts(_, _)
        | Expression::Cmpltu(_, _) => {},
        Expression::Add(lhs, _)
        | Expression::Sub(lhs, _)
        | Expression::Mul(lhs, _)
        | Expression::Divu(lhs, _)
        | Expression::Modu(lhs, _)
        | Expression::Divs(lhs, _)
        | Expression::Mods(lhs, _)
        | Expression::And(lhs, _)
        | Expression::Or(lhs, _)
        | Expression::Xor(lhs, _)
        | Expression::Shl(lhs, _)
        | Expression::Shr(lhs, _) => {
            lemma_width_is_admissible(*lhs);
        },
        Expression::Zext(_, src) | Expression::Sext(_, src) | Expression::Trun(_, src) => {
            lemma_width_is_admissible(*src);
        },
    }
}

/// The sort discipline holds throughout a well-formed expression. Whatever
/// occurs in it is well formed and obeys the rule of its form: the operands
/// of an arithmetic operator, a logical operator or a comparison are equally
/// wide; a comparison is one bit wide; an extension is at least as wide as
/// its operand; a truncation is at most as wide as its operand and at least
/// one bit wide.
pub proof fn lemma_sort_rules_hold_throughout(e: Expression, part: Expression)
    requires
        e.well_formed(),
        e.holds(part),
    ensures
        part.well_formed(),
        part.obeys_sort_rule(),
    decreases e,
{
    if e == part {
        lemma_width_is_admissible(e);
    } else {
        match e {
            Expression::Scalar(_) | Expression::Constant(_) => {},
            Expression::Add(lhs, rhs)
            | Expression::Sub(lhs, rhs)
            | Expression::Mul(lhs, rhs)
            | Expression::Divu(lhs, rhs)
            | Expression::Modu(lhs, rhs)
            | Expression::Divs(lhs, rhs)
            | Expression::Mods(lhs, rhs)
            | Expression::And(lhs, rhs)
            | Expression::Or(lhs, rhs)
            | Expression::Xor(lhs, rhs)
            | Expression::Shl(lhs, rhs)
            | Expression::Shr(lhs, rhs)
            | Expression::Cmpeq(lhs, rhs)
            | Expression::Cmpneq(lhs, rhs)
            | Expression::Cmplts(lhs, rhs)
            | Expression::Cmpltu(lhs, rhs) => {
                if lhs.holds(part) {
                    lemma_sort_rules_hold_throughout(*lhs, part);
                } else {
                    lemma_sort_rules_hold_throughout(*rhs, part);
                }
            },
            Expression::Zext(_, src) | Expression::Sext(_, src) | Expression::Trun(_, src) => {
                lemma_sort_rules_hold_throughout(*src, part);
            },
        }
    }
}

impl Expression {
    /// This expression with other operands: as many as it has, in their order.
    pub open spec fn with_operands(&self, operands: Seq<Expression>) -> Expression {
        match self {
            Expression::Scalar(_) | Expression::Constant(_) => *self,
            Expression::Add(_, _) => Expression::Add(Box::new(operands[0]), Box::new(operands[1])),
            Expression::Sub(_, _) => Expression::Sub(Box::new(operands[0]), Box::new(operands[1])),
            Expression::Mul(_, _) => Expression::Mul(Box::new(operands[0]), Box::new(operands[1])),
            Expression::Divu(_, _) => Expression::Divu(Box::new(operands[0]), Box::new(operands[1])),
            Expression::Modu(_, _) => Expression::Modu(Box::new(operands[0]), Box::new(operands[1])),
            Expression::Divs(_, _) => Expression::Divs(Box::new(operands[0]), Box::new(operands[1])),
            Expression::Mods(_, _) => Expression::Mods(Box::new(operands[0]), Box::new(operands[1])),
            Expression::And(_, _) => Expression::And(Box::new(operands[0]), Box::new(operands[1])),
            Expression::Or(_, _) => Expression::Or(Box::new(operands[0]), Box::new(operands[1])),
            Expression::Xor(_, _) => Expression::Xor(Box::new(operands[0]), Box::new(operands[1])),
            Expression::Shl(_, _) => Expression::Shl(Box::new(operands[0]), Box::new(operands[1])),
            Expression::Shr(_, _) => Expression::Shr(Box::new(operands[0]), Box::new(operands[1])),
            Expression::Cmpeq(_, _) => Expression::Cmpeq(Box::new(operands[0]), Box::new(operands[1])),
            Expression::Cmpneq(_, _) => Expression::Cmpneq(Box::new(operands[0]), Box::new(operands[1])),
            Expression::Cmplts(_, _) => Expression::Cmplts(Box::new(operands[0]), Box::new(operands[1])),
            Expression::Cmpltu(_, _) => Expression::Cmpltu(Box::new(operands[0]), Box::new(operands[1])),
            Expression::Zext(bits, _) => Expression::Zext(*bits, Box::new(operands[0])),
            Expression::Sext(bits, _) => Expression::Sext(*bits, Box::new(operands[0])),
            Expression::Trun(bits, _) => Expression::Trun(*bits, Box::new(operands[0])),
        }
    }

    /// This expression with `scalar` in the place of the scalar at
    /// `position`, counted from 0 and left to right. Where the expression
    /// has no such scalar, it is the expression itself.
    pub open spec fn with_scalar(&self, position: int, scalar: Scalar) -> Expression
        decreases self,
    {
        match self {
            Expression::Scalar(_) => if position == 0 {
                Expression::Scalar(scalar)
            } else {
                *self
            },
            Expression::Constant(_) => *self,
            Expression::Add(lhs, rhs)
            | Expression::Sub(lhs, rhs)
            | Expression::Mul(lhs, rhs)
            | Expression::Divu(lhs, rhs)
            | Expression::Modu(lhs, rhs)
            | Expression::Divs(lhs, rhs)
            | Expression::Mods(lhs, rhs)
            | Expression::And(lhs, rhs)
            | Expression::Or(lhs, rhs)
            | Expression::Xor(lhs, rhs)
            | Expression::Shl(lhs, rhs)
            | Expression::Shr(lhs, rhs)
            | Expression::Cmpeq(lhs, rhs)
            | Expression::Cmpneq(lhs, rhs)
            | Expression::Cmplts(lhs, rhs)
            | Expression::Cmpltu(lhs, rhs) => if position < lhs.scalars().len() {
                self.with_operands(seq![lhs.with_scalar(position, scalar), **rhs])
            } else {
                self.with_operands(
                    seq![**lhs, rhs.with_scalar(position - lhs.scalars().len(), scalar)],
                )
            },
            Expression::Zext(_, src) | Expression::Sext(_, src) | Expression::Trun(_, src) => {
                self.with_operands(seq![src.with_scalar(position, scalar)])
            },
        }
    }

    /// The place of the scalar at `position`, counted from 0 and left to
    /// right; `None` where the expression has no such scalar.
    ///
    /// What the caller writes through the place is written into the
    /// expression, and nothing else of it changes.
    pub fn scalar_mut(&mut self, position: usize) -> (place: Option<&mut Scalar>)
        ensures
            position < old(self).scalars().len() ==> ({
                &&& place matches Some(place)
                &&& *place == old(self).scalars()[position as int]
                &&& *final(self) == old(self).with_scalar(position as int, *final(place))
            }),
            position >= old(self).scalars().len() ==> place is None && *final(self) == *old(self),
        decreases *old(self),
    {
        match self {
            Expression::Scalar(scalar) => {
                if position == 0 {
                    Some(scalar)
                } else {
                    None
                }
            },
            Expression::Constant(_) => None,
            Expression::Add(first, second) => {
                let before = first.collect_scalars().len();
                if position < before {
                    first.scalar_mut(position)
                } else {
                    second.scalar_mut(position - before)
                }
            },
            Expression::Sub(first, second) => {
                let before = first.collect_scalars().len();
                if position < before {
                    first.scalar_mut(position)
                } else {
                    second.scalar_mut(position - before)
                }
            },
            Expression::Mul(first, second) => {
                let before = first.collect_scalars().len();
                if position < before {
                    first.scalar_mut(position)
                } else {
                    second.scalar_mut(position - before)
                }
            },
            Expression::Divu(first, second) => {
                let before = first.collect_scalars().len();
                if position < before {
                    first.scalar_mut(position)
                } else {
                    second.scalar_mut(position - before)
                }
            },
            Expression::Modu(first, second) => {
                let before = first.collect_scalars().len();
                if position < before {
                    first.scalar_mut(position)
                } else {
                    second.scalar_mut(position - before)
                }
            },
            Expression::Divs(first, second) => {
                let before = first.collect_scalars().len();
                if position < before {
                    first.scalar_mut(position)
                } else {
                    second.scalar_mut(position - before)
                }
            },
            Expression::Mods(first, second) => {
                let before = first.collect_scalars().len();
                if position < before {
                    first.scalar_mut(position)
                } else {
                    second.scalar_mut(position - before)
                }
            },
            Expression::And(first, second) => {
                let before = first.collect_scalars().len();
                if position < before {
                    first.scalar_mut(position)
                } else {
                    second.scalar_mut(position - before)
                }
            },
            Expression::Or(first, second) => {
                let before = first.collect_scalars().len();
                if position < before {
                    first.scalar_mut(position)
                } else {
                    second.scalar_mut(position - before)
                }
            },
            Expression::Xor(first, second) => {
                let before = first.collect_scalars().len();
                if position < before {
                    first.scalar_mut(position)
                } else {
                    second.scalar_mut(position - before)
                }
            },
            Expression::Shl(first, second) => {
                let before = first.collect_scalars().len();
                if position < before {
                    first.scalar_mut(position)
                } else {
                    second.scalar_mut(position - before)
                }
            },
            Expression::Shr(first, second) => {
                let before = first.collect_scalars().len();
                if position < before {
                    first.scalar_mut(position)
                } else {
                    second.scalar_mut(position - before)
                }
            },
            Expression::Cmpeq(first, second) => {
                let before = first.collect_scalars().len();
                if position < before {
                    first.scalar_mut(position)
                } else {
                    second.scalar_mut(position - before)
                }
            },
            Expression::Cmpneq(first, second) => {
                let before = first.collect_scalars().len();
                if position < before {
                    first.scalar_mut(position)
                } else {
                    second.scalar_mut(position - before)
                }
            },
            Expression::Cmplts(first, second) => {
                let before = first.collect_scalars().len();
                if position < before {
                    first.scalar_mut(position)
                } else {
                    second.scalar_mut(position - before)
                }
            },
            Expression::Cmpltu(first, second) => {
                let before = first.collect_scalars().len();
                if position < before {
                    first.scalar_mut(position)
                } else {
                    second.scalar_mut(position - before)
                }
            },
            Expression::Zext(_, src) => src.scalar_mut(position),
            Expression::Sext(_, src) => src.scalar_mut(position),
            Expression::Trun(_, src) => src.scalar_mut(position),
        }
    }
}

/// Writing a scalar into a place of an expression changes that one scalar:
/// the scalars of the result are those of the expression, with `scalar` at
/// `position`. The width of the result is that of the expression where the
/// width of the scalar at `position` is kept.
pub proof fn lemma_with_scalar_replaces_one(e: Expression, position: int, scalar: Scalar)
    requires
        0 <= position < e.scalars().len(),
    ensures
        e.with_scalar(position, scalar).scalars() == e.scalars().update(position, scalar),
        scalar@.bits == e.scalars()[position]@.bits ==> e.with_scalar(position, scalar).spec_bits()
            == e.spec_bits(),
        scalar@.bits == e.scalars()[position]@.bits && e.well_formed() ==> e.with_scalar(
            position,
            scalar,
        ).well_formed(),
    decreases e,
{
    match e {
        Expression::Scalar(_) => {
            assert(e.with_scalar(position, scalar).scalars() =~= e.scalars().update(
                position,
                scalar,
            ));
        },
        Expression::Constant(_) => {},
        Expression::Add(lhs, rhs)
            | Expression::Sub(lhs, rhs)
            | Expression::Mul(lhs, rhs)
            | Expression::Divu(lhs, rhs)
            | Expression::Modu(lhs, rhs)
            | Expression::Divs(lhs, rhs)
            | Expression::Mods(lhs, rhs)
            | Expression::And(lhs, rhs)
            | Expression::Or(lhs, rhs)
            | Expression::Xor(lhs, rhs)
            | Expression::Shl(lhs, rhs)
            | Expression::Shr(lhs, rhs)
            | Expression::Cmpeq(lhs, rhs)
            | Expression::Cmpneq(lhs, rhs)
            | Expression::Cmplts(lhs, rhs)
            | Expression::Cmpltu(lhs, rhs) => {
            let left = lhs.scalars().len();
            if position < left {
                lemma_with_scalar_replaces_one(*lhs, position, scalar);
            } else {
                lemma_with_scalar_replaces_one(*rhs, position - left, scalar);
            }
            assert(e.with_scalar(position, scalar).scalars() =~= e.scalars().update(
                position,
                scalar,
            ));
        },
        Expression::Zext(_, src) | Expression::Sext(_, src) | Expression::Trun(_, src) => {
            lemma_with_scalar_replaces_one(*src, position, scalar);
        },
    }
}

impl Expression {
    /// The sign of the operator of this expression; for a terminal, nothing.
    pub open spec fn symbol(&self) -> Seq<char> {
        match self {
            Expression::Scalar(_) | Expression::Constant(_) => ""@,
            Expression::Add(_, _) => "+"@,
            Expression::Sub(_, _) => "-"@,
            Expression::Mul(_, _) => "*"@,
            Expression::Divu(_, _) => "/u"@,
            Expression::Modu(_, _) => "%u"@,
            Expression::Divs(_, _) => "/s"@,
            Expression::Mods(_, _) => "%s"@,
            Expression::And(_, _) => "&"@,
            Expression::Or(_, _) => "|"@,
            Expression::Xor(_, _) => "^"@,
            Expression::Shl(_, _) => "<<"@,
            Expression::Shr(_, _) => ">>"@,
            Expression::Cmpeq(_, _) => "=="@,
            Expression::Cmpneq(_, _) => "!="@,
            Expression::Cmplts(_, _) => "<s"@,
            Expression::Cmpltu(_, _) => "<u"@,
            Expression::Zext(_, _) => "zext"@,
            Expression::Sext(_, _) => "sext"@,
            Expression::Trun(_, _) => "trun"@,
        }
    }

    /// The text of this expression. A terminal is its own text. An
    /// operator with two operands stands between them, in round brackets. An
    /// operator that changes the width is followed by a dot, the new width
    /// in decimal, and its operand in round brackets.
    pub open spec fn rendered(&self) -> Seq<char>
        decreases self,
    {
        match self {
            Expression::Scalar(scalar) => scalar@.rendered(),
            Expression::Constant(constant) => constant@.rendered(),
            Expression::Add(lhs, rhs)
            | Expression::Sub(lhs, rhs)
            | Expression::Mul(lhs, rhs)
            | Expression::Divu(lhs, rhs)
            | Expression::Modu(lhs, rhs)
            | Expression::Divs(lhs, rhs)
            | Expression::Mods(lhs, rhs)
            | Expression::And(lhs, rhs)
            | Expression::Or(lhs, rhs)
            | Expression::Xor(lhs, rhs)
            | Expression::Shl(lhs, rhs)
            | Expression::Shr(lhs, rhs)
            | Expression::Cmpeq(lhs, rhs)
            | Expression::Cmpneq(lhs, rhs)
            | Expression::Cmplts(lhs, rhs)
            | Expression::Cmpltu(lhs, rhs) => {
                "("@ + lhs.rendered() + " "@ + self.symbol() + " "@ + rhs.rendered() + ")"@
            },
            Expression::Zext(bits, src) | Expression::Sext(bits, src) | Expression::Trun(bits, src) => {
                self.symbol() + "."@ + decimal(*bits as nat) + "("@ + src.rendered() + ")"@
            },
        }
    }

    /// The sign of the operator of this expression.
    fn symbol_text(&self) -> (text: &'static str)
        ensures
            text@ == self.symbol(),
    {
        match self {
            Expression::Scalar(_) | Expression::Constant(_) => "",
            Expression::Add(_, _) => "+",
            Expression::Sub(_, _) => "-",
            Expression::Mul(_, _) => "*",
            Expression::Divu(_, _) => "/u",
            Expression::Modu(_, _) => "%u",
            Expression::Divs(_, _) => "/s",
            Expression::Mods(_, _) => "%s",
            Expression::And(_, _) => "&",
            Expression::Or(_, _) => "|",
            Expression::Xor(_, _) => "^",
            Expression::Shl(_, _) => "<<",
            Expression::Shr(_, _) => ">>",
            Expression::Cmpeq(_, _) => "==",
            Expression::Cmpneq(_, _) => "!=",
            Expression::Cmplts(_, _) => "<s",
            Expression::Cmpltu(_, _) => "<u",
            Expression::Zext(_, _) => "zext",
            Expression::Sext(_, _) => "sext",
            Expression::Trun(_, _) => "trun",
        }
    }

    /// Append the text of this expression.
    pub fn render_into(&self, text: &mut String)
        ensures
            final(text)@ == old(text)@ + self.rendered(),
        decreases self,
    {
        match self {
            Expression::Scalar(scalar) => scalar.render_into(text),
            Expression::Constant(constant) => constant.render_into(text),
            Expression::Add(lhs, rhs)
            | Expression::Sub(lhs, rhs)
            | Expression::Mul(lhs, rhs)
            | Expression::Divu(lhs, rhs)
            | Expression::Modu(lhs, rhs)
            | Expression::Divs(lhs, rhs)
            | Expression::Mods(lhs, rhs)
            | Expression::And(lhs, rhs)
            | Expression::Or(lhs, rhs)
            | Expression::Xor(lhs, rhs)
            | Expression::Shl(lhs, rhs)
            | Expression::Shr(lhs, rhs)
            | Expression::Cmpeq(lhs, rhs)
            | Expression::Cmpneq(lhs, rhs)
            | Expression::Cmplts(lhs, rhs)
            | Expression::Cmpltu(lhs, rhs) => {
                text.append("(");
                lhs.render_into(text);
                text.append(" ");
                text.append(self.symbol_text());
                text.append(" ");
                rhs.render_into(text);
                text.append(")");
                assert(text@ =~= old(text)@ + self.rendered());
            },
            Expression::Zext(bits, src) | Expression::Sext(bits, src) | Expression::Trun(bits, src) => {
                text.append(self.symbol_text());
                text.append(".");
                push_decimal(text, *bits as u64);
                text.append("(");
                src.render_into(text);
                text.append(")");
                assert(text@ =~= old(text)@ + self.rendered());
            },
        }
    }

    /// The text of this expression.
    pub fn render(&self) -> (text: String)
        ensures
            text@ == self.rendered(),
    {
        let mut text = String::new();
        self.render_into(&mut text);
        assert(text@ =~= self.rendered());
        text
    }
}

/// The byte that names the first of the width-changing forms.
pub const FIRST_WIDTH_TAG: u8 = 18;

/// The byte that names the last form.
pub const LAST_TAG: u8 = 20;

impl Expression {
    /// The byte that names the form of this expression in its serialized
    /// form.
    pub open spec fn tag(&self) -> u8 {
        match self {
            Expression::Scalar(_) => 0,
            Expression::Constant(_) => 1,
            Expression::Add(_, _) => 2,
            Expression::Sub(_, _) => 3,
            Expression::Mul(_, _) => 4,
            Expression::Divu(_, _) => 5,
            Expression::Modu(_, _) => 6,
            Expression::Divs(_, _) => 7,
            Expression::Mods(_, _) => 8,
            Expression::And(_, _) => 9,
            Expression::Or(_, _) => 10,
            Expression::Xor(_, _) => 11,
            Expression::Shl(_, _) => 12,
            Expression::Shr(_, _) => 13,
            Expression::Cmpeq(_, _) => 14,
            Expression::Cmpneq(_, _) => 15,
            Expression::Cmplts(_, _) => 16,
            Expression::Cmpltu(_, _) => 17,
            Expression::Zext(_, _) => 18,
            Expression::Sext(_, _) => 19,
            Expression::Trun(_, _) => 20,
        }
    }

    /// The serialized form of this expression: the byte that names its
    /// form; then, for a terminal, the terminal; for an operator with two
    /// operands, the operands; for an operator that changes the width, the
    /// new width and the operand.
    pub open spec fn serialized(&self) -> Seq<u8>
        decreases self,
    {
        match self {
            Expression::Scalar(scalar) => seq![self.tag()] + scalar@.serialized(),
            Expression::Constant(constant) => seq![self.tag()] + constant@.serialized(),
            Expression::Add(lhs, rhs)
            | Expression::Sub(lhs, rhs)
            | Expression::Mul(lhs, rhs)
            | Expression::Divu(lhs, rhs)
            | Expression::Modu(lhs, rhs)
            | Expression::Divs(lhs, rhs)
            | Expression::Mods(lhs, rhs)
            | Expression::And(lhs, rhs)
            | Expression::Or(lhs, rhs)
            | Expression::Xor(lhs, rhs)
            | Expression::Shl(lhs, rhs)
            | Expression::Shr(lhs, rhs)
            | Expression::Cmpeq(lhs, rhs)
            | Expression::Cmpneq(lhs, rhs)
            | Expression::Cmplts(lhs, rhs)
            | Expression::Cmpltu(lhs, rhs) => seq![self.tag()] + lhs.serialized() + rhs.serialized(),
            Expression::Zext(bits, src) | Expression::Sext(bits, src) | Expression::Trun(bits, src) => {
                seq![self.tag()] + size_bytes(*bits) + src.serialized()
            },
        }
    }

    /// Whether this expression and `other` are the same but for where they
    /// are held: they have the same form, the same terminals and the same
    /// widths throughout.
    pub open spec fn alike(&self, other: Expression) -> bool
        decreases self,
    {
        self.tag() == other.tag() && match self {
            Expression::Scalar(scalar) => other matches Expression::Scalar(same) && scalar@
                == same@,
            Expression::Constant(constant) => other matches Expression::Constant(same)
                && constant@ == same@,
            Expression::Add(lhs, rhs)
            | Expression::Sub(lhs, rhs)
            | Expression::Mul(lhs, rhs)
            | Expression::Divu(lhs, rhs)
            | Expression::Modu(lhs, rhs)
            | Expression::Divs(lhs, rhs)
            | Expression::Mods(lhs, rhs)
            | Expression::And(lhs, rhs)
            | Expression::Or(lhs, rhs)
            | Expression::Xor(lhs, rhs)
            | Expression::Shl(lhs, rhs)
            | Expression::Shr(lhs, rhs)
            | Expression::Cmpeq(lhs, rhs)
            | Expression::Cmpneq(lhs, rhs)
            | Expression::Cmplts(lhs, rhs)
            | Expression::Cmpltu(lhs, rhs) => {
                lhs.alike(other.operands()[0]) && rhs.alike(other.operands()[1])
            },
            Expression::Zext(bits, src) | Expression::Sext(bits, src) | Expression::Trun(bits, src) => {
                *bits == other.spec_bits() && src.alike(other.operands()[0])
            },
        }
    }
}

/// Where the parts of a serialized expression stand: the byte that names
/// the form first, the parts behind it, one after the other.
pub proof fn lemma_expression_layout(bytes: Seq<u8>, start: int, e: Expression)
    ensures
        encodes(bytes, start, e.serialized()) <==> 0 <= start < bytes.len() && bytes[start]
            == e.tag() && match e {
            Expression::Scalar(scalar) => encodes(bytes, start + 1, scalar@.serialized()),
            Expression::Constant(constant) => encodes(bytes, start + 1, constant@.serialized()),
            Expression::Add(lhs, rhs)
            | Expression::Sub(lhs, rhs)
            | Expression::Mul(lhs, rhs)
            | Expression::Divu(lhs, rhs)
            | Expression::Modu(lhs, rhs)
            | Expression::Divs(lhs, rhs)
            | Expression::Mods(lhs, rhs)
            | Expression::And(lhs, rhs)
            | Expression::Or(lhs, rhs)
            | Expression::Xor(lhs, rhs)
            | Expression::Shl(lhs, rhs)
            | Expression::Shr(lhs, rhs)
            | Expression::Cmpeq(lhs, rhs)
            | Expression::Cmpneq(lhs, rhs)
            | Expression::Cmplts(lhs, rhs)
            | Expression::Cmpltu(lhs, rhs) => encodes(bytes, start + 1, lhs.serialized()) && encodes(
                bytes,
                start + 1 + lhs.serialized().len(),
                rhs.serialized(),
            ),
            Expression::Zext(bits, src) | Expression::Sext(bits, src) | Expression::Trun(bits, src) => {
                encodes(bytes, start + 1, size_bytes(bits)) && encodes(
                    bytes,
                    start + 1 + size_bytes(bits).len(),
                    src.serialized(),
                )
            },
        },
        e.serialized().len() == 1 + match e {
            Expression::Scalar(scalar) => scalar@.serialized().len(),
            Expression::Constant(constant) => constant@.serialized().len(),
            Expression::Add(lhs, rhs)
            | Expression::Sub(lhs, rhs)
            | Expression::Mul(lhs, rhs)
            | Expression::Divu(lhs, rhs)
            | Expression::Modu(lhs, rhs)
            | Expression::Divs(lhs, rhs)
            | Expression::Mods(lhs, rhs)
            | Expression::And(lhs, rhs)
            | Expression::Or(lhs, rhs)
            | Expression::Xor(lhs, rhs)
            | Expression::Shl(lhs, rhs)
            | Expression::Shr(lhs, rhs)
            | Expression::Cmpeq(lhs, rhs)
            | Expression::Cmpneq(lhs, rhs)
            | Expression::Cmplts(lhs, rhs)
            | Expression::Cmpltu(lhs, rhs) => lhs.serialized().len() + rhs.serialized().len(),
            Expression::Zext(bits, src) | Expression::Sext(bits, src) | Expression::Trun(bits, src) => {
                size_bytes(bits).len() + src.serialized().len()
            },
        },
{
    let tag = seq![e.tag()];
    lemma_encodes_byte(bytes, start, e.tag());
    match e {
        Expression::Scalar(scalar) => {
            lemma_encodes_split(bytes, start, tag, scalar@.serialized());
        },
        Expression::Constant(constant) => {
            lemma_encodes_split(bytes, start, tag, constant@.serialized());
        },
        Expression::Add(lhs, rhs)
        | Expression::Sub(lhs, rhs)
        | Expression::Mul(lhs, rhs)
        | Expression::Divu(lhs, rhs)
        | Expression::Modu(lhs, rhs)
        | Expression::Divs(lhs, rhs)
        | Expression::Mods(lhs, rhs)
        | Expression::And(lhs, rhs)
        | Expression::Or(lhs, rhs)
        | Expression::Xor(lhs, rhs)
        | Expression::Shl(lhs, rhs)
        | Expression::Shr(lhs, rhs)
        | Expression::Cmpeq(lhs, rhs)
        | Expression::Cmpneq(lhs, rhs)
        | Expression::Cmplts(lhs, rhs)
        | Expression::Cmpltu(lhs, rhs) => {
            lemma_encodes_split(bytes, start, tag + lhs.serialized(), rhs.serialized());
            lemma_encodes_split(bytes, start, tag, lhs.serialized());
        },
        Expression::Zext(bits, src) | Expression::Sext(bits, src) | Expression::Trun(bits, src) => {
            lemma_encodes_split(bytes, start, tag + size_bytes(bits), src.serialized());
            lemma_encodes_split(bytes, start, tag, size_bytes(bits));
        },
    }
}

/// The expression of the form that `tag` names, with the given operands.
fn binary(tag: u8, lhs: Expression, rhs: Expression) -> (e: Expression)
    requires
        2 <= tag < FIRST_WIDTH_TAG,
    ensures
        e.tag() == tag,
        e.operands() == seq![lhs, rhs],
{
    if tag == 2 {
        Expression::Add(Box::new(lhs), Box::new(rhs))
    } else if tag == 3 {
        Expression::Sub(Box::new(lhs), Box::new(rhs))
    } else if tag == 4 {
        Expression::Mul(Box::new(lhs), Box::new(rhs))
    } else if tag == 5 {
        Expression::Divu(Box::new(lhs), Box::new(rhs))
    } else if tag == 6 {
        Expression::Modu(Box::new(lhs), Box::new(rhs))
    } else if tag == 7 {
        Expression::Divs(Box::new(lhs), Box::new(rhs))
    } else if tag == 8 {
        Expression::Mods(Box::new(lhs), Box::new(rhs))
    } else if tag == 9 {
        Expression::And(Box::new(lhs), Box::new(rhs))
    } else if tag == 10 {
        Expression::Or(Box::new(lhs), Box::new(rhs))
    } else if tag == 11 {
        Expression::Xor(Box::new(lhs), Box::new(rhs))
    } else if tag == 12 {
        Expression::Shl(Box::new(lhs), Box::new(rhs))
    } else if tag == 13 {
        Expression::Shr(Box::new(lhs), Box::new(rhs))
    } else if tag == 14 {
        Expression::Cmpeq(Box::new(lhs), Box::new(rhs))
    } else if tag == 15 {
        Expression::Cmpneq(Box::new(lhs), Box::new(rhs))
    } else if tag == 16 {
        Expression::Cmplts(Box::new(lhs), Box::new(rhs))
    } else {
        Expression::Cmpltu(Box::new(lhs), Box::new(rhs))
    }
}

/// The expression of the width-changing form that `tag` names.
fn width_change(tag: u8, bits: usize, src: Expression) -> (e: Expression)
    requires
        FIRST_WIDTH_TAG <= tag <= LAST_TAG,
    ensures
        e.tag() == tag,
        e.spec_bits() == bits,
        e.operands() == seq![src],
{
    if tag == 18 {
        Expression::Zext(bits, Box::new(src))
    } else if tag == 19 {
        Expression::Sext(bits, Box::new(src))
    } else {
        Expression::Trun(bits, Box::new(src))
    }
}

impl Expression {
    /// The byte that names the form of this expression.
    fn tag_byte(&self) -> (tag: u8)
        ensures
            tag == self.tag(),
    {
        match self {
            Expression::Scalar(_) => 0,
            Expression::Constant(_) => 1,
            Expression::Add(_, _) => 2,
            Expression::Sub(_, _) => 3,
            Expression::Mul(_, _) => 4,
            Expression::Divu(_, _) => 5,
            Expression::Modu(_, _) => 6,
            Expression::Divs(_, _) => 7,
            Expression::Mods(_, _) => 8,
            Expression::And(_, _) => 9,
            Expression::Or(_, _) => 10,
            Expression::Xor(_, _) => 11,
            Expression::Shl(_, _) => 12,
            Expression::Shr(_, _) => 13,
            Expression::Cmpeq(_, _) => 14,
            Expression::Cmpneq(_, _) => 15,
            Expression::Cmplts(_, _) => 16,
            Expression::Cmpltu(_, _) => 17,
            Expression::Zext(_, _) => 18,
            Expression::Sext(_, _) => 19,
            Expression::Trun(_, _) => 20,
        }
    }

    /// Append the serialized form of this expression.
    pub fn encode_into(&self, out: &mut Vec<u8>)
        ensures
            final(out)@ == old(out)@ + self.serialized(),
        decreases self,
    {
        out.push(self.tag_byte());
        match self {
            Expression::Scalar(scalar) => {
                scalar.encode_into(out);
            },
            Expression::Constant(constant) => {
                constant.encode_into(out);
            },
            Expression::Add(lhs, rhs)
            | Expression::Sub(lhs, rhs)
            | Expression::Mul(lhs, rhs)
            | Expression::Divu(lhs, rhs)
            | Expression::Modu(lhs, rhs)
            | Expression::Divs(lhs, rhs)
            | Expression::Mods(lhs, rhs)
            | Expression::And(lhs, rhs)
            | Expression::Or(lhs, rhs)
            | Expression::Xor(lhs, rhs)
            | Expression::Shl(lhs, rhs)
            | Expression::Shr(lhs, rhs)
            | Expression::Cmpeq(lhs, rhs)
            | Expression::Cmpneq(lhs, rhs)
            | Expression::Cmplts(lhs, rhs)
            | Expression::Cmpltu(lhs, rhs) => {
                lhs.encode_into(out);
                rhs.encode_into(out);
            },
            Expression::Zext(bits, src) | Expression::Sext(bits, src) | Expression::Trun(bits, src) => {
                put_size(out, *bits);
                src.encode_into(out);
            },
        }
        assert(out@ =~= old(out)@ + self.serialized());
    }

    /// Read the expression whose serialized form stands at `start`, and say
    /// where it ends. `None` where no expression stands there. The
    /// recursion goes as deep as the expression is nested.
    pub fn decode_at(bytes: &[u8], start: usize) -> (r: Option<(Expression, usize)>)
        ensures
            r matches Some((e, end)) ==> encodes(bytes@, start as int, e.serialized()) && end
                == start + e.serialized().len(),
            forall|e: Expression|
                encodes(bytes@, start as int, #[trigger] e.serialized()) ==> ({
                    &&& r matches Some((read, end))
                    &&& read.alike(e)
                    &&& end == start + e.serialized().len()
                }),
        decreases bytes.len() - start,
    {
        proof {
            assert forall|e: Expression|
                encodes(bytes@, start as int, #[trigger] e.serialized()) implies start
                < bytes@.len() && bytes@[start as int] == e.tag() && match e {
                Expression::Scalar(scalar) => encodes(bytes@, start + 1, scalar@.serialized()),
                Expression::Constant(constant) => encodes(
                    bytes@,
                    start + 1,
                    constant@.serialized(),
                ),
                Expression::Add(lhs, rhs)
            | Expression::Sub(lhs, rhs)
            | Expression::Mul(lhs, rhs)
            | Expression::Divu(lhs, rhs)
            | Expression::Modu(lhs, rhs)
            | Expression::Divs(lhs, rhs)
            | Expression::Mods(lhs, rhs)
            | Expression::And(lhs, rhs)
            | Expression::Or(lhs, rhs)
            | Expression::Xor(lhs, rhs)
            | Expression::Shl(lhs, rhs)
            | Expression::Shr(lhs, rhs)
            | Expression::Cmpeq(lhs, rhs)
            | Expression::Cmpneq(lhs, rhs)
            | Expression::Cmplts(lhs, rhs)
            | Expression::Cmpltu(lhs, rhs) => encodes(bytes@, start + 1, lhs.serialized()) && encodes(
                    bytes@,
                    start + 1 + lhs.serialized().len(),
                    rhs.serialized(),
                ),
                Expression::Zext(bits, src) | Expression::Sext(bits, src) | Expression::Trun(bits, src) => {
                    encodes(bytes@, start + 1, size_bytes(bits)) && encodes(
                        bytes@,
                        start + 1 + size_bytes(bits).len(),
                        src.serialized(),
                    )
                },
            } && e.serialized().len() == 1 + match e {
                Expression::Scalar(scalar) => scalar@.serialized().len(),
                Expression::Constant(constant) => constant@.serialized().len(),
                Expression::Add(lhs, rhs)
            | Expression::Sub(lhs, rhs)
            | Expression::Mul(lhs, rhs)
            | Expression::Divu(lhs, rhs)
            | Expression::Modu(lhs, rhs)
            | Expression::Divs(lhs, rhs)
            | Expression::Mods(lhs, rhs)
            | Expression::And(lhs, rhs)
            | Expression::Or(lhs, rhs)
            | Expression::Xor(lhs, rhs)
            | Expression::Shl(lhs, rhs)
            | Expression::Shr(lhs, rhs)
            | Expression::Cmpeq(lhs, rhs)
            | Expression::Cmpneq(lhs, rhs)
            | Expression::Cmplts(lhs, rhs)
            | Expression::Cmpltu(lhs, rhs) => lhs.serialized().len() + rhs.serialized().len(),
                Expression::Zext(bits, src) | Expression::Sext(bits, src) | Expression::Trun(bits, src) => {
                    size_bytes(bits).len() + src.serialized().len()
                },
            } by {
                lemma_expression_layout(bytes@, start as int, e);
            }
        }
        if start >= bytes.len() {
            return None;
        }
        let tag = bytes[start];
        if tag == 0 {
            match Scalar::decode_at(bytes, start + 1) {
                Some((scalar, end)) => {
                    let e = Expression::Scalar(scalar);
                    proof {
                        lemma_expression_layout(bytes@, start as int, e);
                    }
                    Some((e, end))
                },
                None => None,
            }
        } else if tag == 1 {
            match Constant::decode_at(bytes, start + 1) {
                Some((constant, end)) => {
                    let e = Expression::Constant(constant);
                    proof {
                        lemma_expression_layout(bytes@, start as int, e);
                    }
                    Some((e, end))
                },
                None => None,
            }
        } else if tag < FIRST_WIDTH_TAG {
            let (lhs, middle) = match Expression::decode_at(bytes, start + 1) {
                Some(read) => read,
                None => {
                    return None;
                },
            };
            let (rhs, end) = match Expression::decode_at(bytes, middle) {
                Some(read) => read,
                None => {
                    return None;
                },
            };
            let e = binary(tag, lhs, rhs);
            proof {
                assert(e.operands()[0] == lhs && e.operands()[1] == rhs);
                lemma_expression_layout(bytes@, start as int, e);
            }
            Some((e, end))
        } else if tag <= LAST_TAG {
            let (bits, middle) = match take_size(bytes, start + 1) {
                Some(read) => read,
                None => {
                    return None;
                },
            };
            let (src, end) = match Expression::decode_at(bytes, middle) {
                Some(read) => read,
                None => {
                    return None;
                },
            };
            let e = width_change(tag, bits, src);
            proof {
                assert(e.operands()[0] == src);
                lemma_expression_layout(bytes@, start as int, e);
            }
            Some((e, end))
        } else {
            None
        }
    }
}

impl Expression {
    /// The serialized form of this expression.
    pub fn serialize(&self) -> (bytes: Vec<u8>)
        ensures
            bytes@ == self.serialized(),
    {
        let mut bytes: Vec<u8> = Vec::new();
        self.encode_into(&mut bytes);
        assert(bytes@ =~= self.serialized());
        bytes
    }

    /// The expression of which `bytes` is the serialized form; `None` where it is
    /// the serialized form of none. What `serialize` returned for a expression
    /// gives that expression back.
    pub fn deserialize(bytes: &[u8]) -> (r: Option<Expression>)
        ensures
            r matches Some(read) ==> bytes@ == read.serialized(),
            forall|other: Expression|
                bytes@ == #[trigger] other.serialized() ==> ({
                    &&& r matches Some(read)
                    &&& read.alike(other)
                }),
    {
        proof {
            assert forall|other: Expression| bytes@ == #[trigger] other.serialized() implies encodes(
                bytes@,
                0,
                other.serialized(),
            ) by {
                lemma_encodes_whole(bytes@, other.serialized());
            }
        }
        match Expression::decode_at(bytes, 0) {
            Some((read, end)) => {
                if end == bytes.len() {
                    proof {
                        lemma_encodes_whole(bytes@, read.serialized());
                    }
                    Some(read)
                } else {
                    None
                }
            },
            None => None,
        }
    }
}

impl Expression {
    /// Whether this expression is well formed.
    pub fn is_well_formed(&self) -> (r: bool)
        ensures
            r == self.well_formed(),
        decreases self,
    {
        match self {
            Expression::Scalar(scalar) => scalar.is_well_formed(),
            Expression::Constant(constant) => constant.is_well_formed(),
            Expression::Add(lhs, rhs)
            | Expression::Sub(lhs, rhs)
            | Expression::Mul(lhs, rhs)
            | Expression::Divu(lhs, rhs)
            | Expression::Modu(lhs, rhs)
            | Expression::Divs(lhs, rhs)
            | Expression::Mods(lhs, rhs)
            | Expression::And(lhs, rhs)
            | Expression::Or(lhs, rhs)
            | Expression::Xor(lhs, rhs)
            | Expression::Shl(lhs, rhs)
            | Expression::Shr(lhs, rhs)
            | Expression::Cmpeq(lhs, rhs)
            | Expression::Cmpneq(lhs, rhs)
            | Expression::Cmplts(lhs, rhs)
            | Expression::Cmpltu(lhs, rhs) => {
                lhs.is_well_formed() && rhs.is_well_formed() && lhs.bits() == rhs.bits()
            },
            Expression::Zext(bits, src) | Expression::Sext(bits, src) => {
                src.is_well_formed() && src.bits() < *bits && *bits <= MAX_BITS
            },
            Expression::Trun(bits, src) => {
                src.is_well_formed() && MIN_BITS <= *bits && *bits < src.bits()
            },
        }
    }
}

/// Every expression is like itself.
pub proof fn lemma_alike_is_reflexive(e: Expression)
    ensures
        e.alike(e),
    decreases e,
{
    match e {
        Expression::Scalar(_) | Expression::Constant(_) => {},
        Expression::Add(lhs, rhs)
        | Expression::Sub(lhs, rhs)
        | Expression::Mul(lhs, rhs)
        | Expression::Divu(lhs, rhs)
        | Expression::Modu(lhs, rhs)
        | Expression::Divs(lhs, rhs)
        | Expression::Mods(lhs, rhs)
        | Expression::And(lhs, rhs)
        | Expression::Or(lhs, rhs)
        | Expression::Xor(lhs, rhs)
        | Expression::Shl(lhs, rhs)
        | Expression::Shr(lhs, rhs)
        | Expression::Cmpeq(lhs, rhs)
        | Expression::Cmpneq(lhs, rhs)
        | Expression::Cmplts(lhs, rhs)
        | Expression::Cmpltu(lhs, rhs) => {
            lemma_alike_is_reflexive(*lhs);
            lemma_alike_is_reflexive(*rhs);
        },
        Expression::Zext(_, src) | Expression::Sext(_, src) | Expression::Trun(_, src) => {
            lemma_alike_is_reflexive(*src);
        },
    }
}

/// Where an expression is like another, the other is like it.
pub proof fn lemma_alike_is_symmetric(a: Expression, b: Expression)
    requires
        a.alike(b),
    ensures
        b.alike(a),
    decreases a,
{
    match a {
        Expression::Scalar(_) | Expression::Constant(_) => {},
        Expression::Add(lhs, rhs)
        | Expression::Sub(lhs, rhs)
        | Expression::Mul(lhs, rhs)
        | Expression::Divu(lhs, rhs)
        | Expression::Modu(lhs, rhs)
        | Expression::Divs(lhs, rhs)
        | Expression::Mods(lhs, rhs)
        | Expression::And(lhs, rhs)
        | Expression::Or(lhs, rhs)
        | Expression::Xor(lhs, rhs)
        | Expression::Shl(lhs, rhs)
        | Expression::Shr(lhs, rhs)
        | Expression::Cmpeq(lhs, rhs)
        | Expression::Cmpneq(lhs, rhs)
        | Expression::Cmplts(lhs, rhs)
        | Expression::Cmpltu(lhs, rhs) => {
            lemma_alike_is_symmetric(*lhs, b.operands()[0]);
            lemma_alike_is_symmetric(*rhs, b.operands()[1]);
        },
        Expression::Zext(_, src) | Expression::Sext(_, src) | Expression::Trun(_, src) => {
            lemma_alike_is_symmetric(*src, b.operands()[0]);
        },
    }
}

/// Where an expression is like a second, and the second like a third, the
/// first is like the third.
pub proof fn lemma_alike_is_transitive(a: Expression, b: Expression, c: Expression)
    requires
        a.alike(b),
        b.alike(c),
    ensures
        a.alike(c),
    decreases a,
{
    match a {
        Expression::Scalar(_) | Expression::Constant(_) => {},
        Expression::Add(lhs, rhs)
        | Expression::Sub(lhs, rhs)
        | Expression::Mul(lhs, rhs)
        | Expression::Divu(lhs, rhs)
        | Expression::Modu(lhs, rhs)
        | Expression::Divs(lhs, rhs)
        | Expression::Mods(lhs, rhs)
        | Expression::And(lhs, rhs)
        | Expression::Or(lhs, rhs)
        | Expression::Xor(lhs, rhs)
        | Expression::Shl(lhs, rhs)
        | Expression::Shr(lhs, rhs)
        | Expression::Cmpeq(lhs, rhs)
        | Expression::Cmpneq(lhs, rhs)
        | Expression::Cmplts(lhs, rhs)
        | Expression::Cmpltu(lhs, rhs) => {
            lemma_alike_is_transitive(*lhs, b.operands()[0], c.operands()[0]);
            lemma_alike_is_transitive(*rhs, b.operands()[1], c.operands()[1]);
        },
        Expression::Zext(_, src) | Expression::Sext(_, src) | Expression::Trun(_, src) => {
            lemma_alike_is_transitive(*src, b.operands()[0], c.operands()[0]);
        },
    }
}

/// Like expressions have the same serialized form, the same text and the
/// same width, and are well formed together.
pub proof fn lemma_alike_expressions_agree(a: Expression, b: Expression)
    requires
        a.alike(b),
    ensures
        a.serialized() == b.serialized(),
        a.rendered() == b.rendered(),
        a.spec_bits() == b.spec_bits(),
        a.well_formed() == b.well_formed(),
    decreases a,
{
    match a {
        Expression::Scalar(_) | Expression::Constant(_) => {},
        Expression::Add(lhs, rhs)
        | Expression::Sub(lhs, rhs)
        | Expression::Mul(lhs, rhs)
        | Expression::Divu(lhs, rhs)
        | Expression::Modu(lhs, rhs)
        | Expression::Divs(lhs, rhs)
        | Expression::Mods(lhs, rhs)
        | Expression::And(lhs, rhs)
        | Expression::Or(lhs, rhs)
        | Expression::Xor(lhs, rhs)
        | Expression::Shl(lhs, rhs)
        | Expression::Shr(lhs, rhs)
        | Expression::Cmpeq(lhs, rhs)
        | Expression::Cmpneq(lhs, rhs)
        | Expression::Cmplts(lhs, rhs)
        | Expression::Cmpltu(lhs, rhs) => {
            lemma_alike_expressions_agree(*lhs, b.operands()[0]);
            lemma_alike_expressions_agree(*rhs, b.operands()[1]);
        },
        Expression::Zext(_, src) | Expression::Sext(_, src) | Expression::Trun(_, src) => {
            lemma_alike_expressions_agree(*src, b.operands()[0]);
        },
    }
}

/// At one place stands one expression at most: two expressions whose
/// serialized forms stand at one place are alike.
pub proof fn lemma_expression_is_unique(bytes: Seq<u8>, start: int, a: Expression, b: Expression)
    requires
        fits(bytes),
        encodes(bytes, start, a.serialized()),
        encodes(bytes, start, b.serialized()),
    ensures
        a.alike(b),
    decreases a,
{
    lemma_expression_layout(bytes, start, a);
    lemma_expression_layout(bytes, start, b);
    match a {
        Expression::Scalar(scalar) => {
            if let Expression::Scalar(other) = b {
                lemma_scalar_is_unique(bytes, start + 1, scalar@, other@);
            }
        },
        Expression::Constant(constant) => {
            if let Expression::Constant(other) = b {
                lemma_constant_is_unique(bytes, start + 1, constant@, other@);
            }
        },
        Expression::Add(lhs, rhs)
        | Expression::Sub(lhs, rhs)
        | Expression::Mul(lhs, rhs)
        | Expression::Divu(lhs, rhs)
        | Expression::Modu(lhs, rhs)
        | Expression::Divs(lhs, rhs)
        | Expression::Mods(lhs, rhs)
        | Expression::And(lhs, rhs)
        | Expression::Or(lhs, rhs)
        | Expression::Xor(lhs, rhs)
        | Expression::Shl(lhs, rhs)
        | Expression::Shr(lhs, rhs)
        | Expression::Cmpeq(lhs, rhs)
        | Expression::Cmpneq(lhs, rhs)
        | Expression::Cmplts(lhs, rhs)
        | Expression::Cmpltu(lhs, rhs) => {
            lemma_expression_is_unique(bytes, start + 1, *lhs, b.operands()[0]);
            lemma_alike_expressions_agree(*lhs, b.operands()[0]);
            lemma_expression_is_unique(
                bytes,
                start + 1 + lhs.serialized().len(),
                *rhs,
                b.operands()[1],
            );
        },
        Expression::Zext(bits, src) | Expression::Sext(bits, src) | Expression::Trun(bits, src) => {
            lemma_size_and_index_are_unique(bytes, start + 1, bits, b.spec_bits(), None, None);
            lemma_expression_is_unique(
                bytes,
                start + 1 + size_bytes(bits).len(),
                *src,
                b.operands()[0],
            );
        },
    }
}

/// Expressions have the same serialized form exactly where they are alike.
/// The law speaks of forms whose length a number can hold.
pub proof fn lemma_expressions_serialize_apart(a: Expression, b: Expression)
    requires
        fits(a.serialized()),
    ensures
        a.serialized() == b.serialized() <==> a.alike(b),
{
    if a.serialized() == b.serialized() {
        lemma_encodes_whole(a.serialized(), a.serialized());
        lemma_expression_is_unique(a.serialized(), 0, a, b);
    }
    if a.alike(b) {
        lemma_alike_expressions_agree(a, b);
    }
}

} // verus!
