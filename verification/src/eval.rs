//! The evaluator: a walk over the tree in 32-bit integer arithmetic, in which
//! a division by zero and a result out of range are errors.

use vstd::prelude::*;
use crate::ast::{BinaryOperator, Expression, SpecExpression};
use crate::text::{decimal_value, is_digit, is_numeral};

verus! {

/// Why an expression has no value.
#[derive(Clone, Copy, Debug, PartialEq, Eq, Structural)]
pub enum EvalError {
    /// The right operand of a division is zero.
    DivisionByZero,
    /// A literal or the result of an operation does not fit in an `i32`.
    Overflow,
    /// A literal is empty or holds a character that is not a digit. No tree
    /// that was parsed from a source has such a literal.
    InvalidLiteral,
}

impl EvalError {
    /// The message for the error.
    pub open spec fn text(self) -> Seq<char> {
        match self {
            EvalError::DivisionByZero => "division by zero"@,
            EvalError::Overflow => "integer overflow"@,
            EvalError::InvalidLiteral => "invalid integer literal"@,
        }
    }

    /// The message for the error.
    pub fn message(&self) -> (message: &'static str)
        ensures
            message@ == self.text(),
    {
        match self {
            EvalError::DivisionByZero => "division by zero",
            EvalError::Overflow => "integer overflow",
            EvalError::InvalidLiteral => "invalid integer literal",
        }
    }
}

/// The quotient of `a` by `b`, rounded toward zero. (In specifications `/`
/// rounds toward negative infinity where the divisor is positive.)
pub open spec fn quotient(a: int, b: int) -> int {
    if b == 0 {
        0
    } else if a >= 0 && b > 0 {
        a / b
    } else if a < 0 && b < 0 {
        (-a) / (-b)
    } else if a < 0 {
        -((-a) / b)
    } else {
        -(a / (-b))
    }
}

/// Whether `value` fits in an `i32`.
pub open spec fn in_range(value: int) -> bool {
    i32::MIN <= value <= i32::MAX
}

/// What `operator` makes of two integers, in unbounded arithmetic.
pub open spec fn apply(operator: BinaryOperator, left: int, right: int) -> int {
    match operator {
        BinaryOperator::Plus => left + right,
        BinaryOperator::Minus => left - right,
        BinaryOperator::Times => left * right,
        BinaryOperator::Divided => quotient(left, right),
    }
}

/// The value of a literal: that of its digits, if it is a numeral and the
/// number fits.
pub open spec fn literal_value(digits: Seq<char>) -> Result<int, EvalError> {
    if !is_numeral(digits) {
        Err(EvalError::InvalidLiteral)
    } else if decimal_value(digits) > i32::MAX {
        Err(EvalError::Overflow)
    } else {
        Ok(decimal_value(digits) as int)
    }
}

/// The value of one operation on two values that fit: a division by zero is
/// an error, and so is a result that does not fit.
pub open spec fn operation(operator: BinaryOperator, left: int, right: int) -> Result<
    int,
    EvalError,
> {
    if operator is Divided && right == 0 {
        Err(EvalError::DivisionByZero)
    } else if !in_range(apply(operator, left, right)) {
        Err(EvalError::Overflow)
    } else {
        Ok(apply(operator, left, right))
    }
}

/// The value of an expression. The left operand is evaluated before the
/// right one, and the first error ends the evaluation.
pub open spec fn value_of(tree: SpecExpression) -> Result<int, EvalError>
    decreases tree,
{
    match tree {
        SpecExpression::IntegerLiteral(digits) => literal_value(digits),
        SpecExpression::Binary { operator, left, right } => match value_of(*left) {
            Err(error) => Err(error),
            Ok(a) => match value_of(*right) {
                Err(error) => Err(error),
                Ok(b) => operation(operator, a, b),
            },
        },
    }
}

/// The value of an expression in the arithmetic of all integers, where
/// nothing overflows: the sum, difference and product of the operands, and
/// their quotient rounded toward zero.
pub open spec fn arithmetic(tree: SpecExpression) -> int
    decreases tree,
{
    match tree {
        SpecExpression::IntegerLiteral(digits) => decimal_value(digits) as int,
        SpecExpression::Binary { operator, left, right } => apply(
            operator,
            arithmetic(*left),
            arithmetic(*right),
        ),
    }
}

/// Whether an expression can be evaluated without a fault: every literal is
/// a numeral, no divisor is zero, and the value of every subexpression fits.
pub open spec fn faultless(tree: SpecExpression) -> bool
    decreases tree,
{
    match tree {
        SpecExpression::IntegerLiteral(digits) => is_numeral(digits) && decimal_value(digits)
            <= i32::MAX,
        SpecExpression::Binary { operator, left, right } => {
            &&& faultless(*left)
            &&& faultless(*right)
            &&& !(operator is Divided && arithmetic(*right) == 0)
            &&& in_range(arithmetic(tree))
        },
    }
}

/// Evaluation is arithmetic: an expression has a value exactly if it is
/// faultless, and the value is then the one that the arithmetic of all
/// integers gives.
pub proof fn lemma_value_is_arithmetic(tree: SpecExpression)
    ensures
        value_of(tree) is Ok <==> faultless(tree),
        faultless(tree) ==> value_of(tree) == Ok::<int, EvalError>(arithmetic(tree)),
    decreases tree,
{
    match tree {
        SpecExpression::IntegerLiteral(digits) => {},
        SpecExpression::Binary { operator, left, right } => {
            lemma_value_is_arithmetic(*left);
            lemma_value_is_arithmetic(*right);
        },
    }
}

/// Only a tree that is not well formed has an invalid literal to fail for.
pub proof fn lemma_well_formed_has_no_invalid_literal(tree: SpecExpression)
    requires
        tree.well_formed(),
    ensures
        value_of(tree) != Err::<int, EvalError>(EvalError::InvalidLiteral),
    decreases tree,
{
    match tree {
        SpecExpression::IntegerLiteral(digits) => {},
        SpecExpression::Binary { operator, left, right } => {
            lemma_well_formed_has_no_invalid_literal(*left);
            lemma_well_formed_has_no_invalid_literal(*right);
        },
    }
}

/// The quotient is rounded toward zero: what is left of the dividend is
/// smaller than the divisor and has the sign of the dividend. The quotient of
/// -7 by 2 is therefore -3 with -1 left, not -4 with 1 left.
pub proof fn lemma_quotient_rounds_toward_zero(a: int, b: int)
    requires
        b != 0,
    ensures
        ({
            let rest = a - quotient(a, b) * b;
            &&& if b > 0 {
                -b < rest < b
            } else {
                b < rest < -b
            }
            &&& a >= 0 ==> rest >= 0
            &&& a <= 0 ==> rest <= 0
        }),
        quotient(-a, b) == -quotient(a, b),
        quotient(a, -b) == -quotient(a, b),
{
    let x = if a >= 0 {
        a
    } else {
        -a
    };
    let d = if b > 0 {
        b
    } else {
        -b
    };
    vstd::arithmetic::div_mod::lemma_fundamental_div_mod(x, d);
    vstd::arithmetic::div_mod::lemma_mod_bound(x, d);
    let q = x / d;
    assert(x == d * q + x % d);
    assert(quotient(a, b) == q || quotient(a, b) == -q);
    assert((-q) * b == -(q * b)) by (nonlinear_arith);
    assert(q * (-b) == -(q * b)) by (nonlinear_arith);
    assert((-q) * (-b) == q * b) by (nonlinear_arith);
    assert(d * q == q * d) by (nonlinear_arith);
    if x == 0 {
        assert(q == 0);
    }
}

/// Whether `result` is `expected`, an `i32` standing for the integer it holds.
pub open spec fn agrees(result: Result<i32, EvalError>, expected: Result<int, EvalError>) -> bool {
    match result {
        Ok(value) => expected == Ok::<int, EvalError>(value as int),
        Err(error) => expected == Err::<int, EvalError>(error),
    }
}

/// Evaluates one operation on two values.
fn evaluate_binary(operator: BinaryOperator, left: i32, right: i32) -> (result: Result<
    i32,
    EvalError,
>)
    ensures
        agrees(result, operation(operator, left as int, right as int)),
{
    let value = match operator {
        BinaryOperator::Plus => left.checked_add(right),
        BinaryOperator::Minus => left.checked_sub(right),
        BinaryOperator::Times => left.checked_mul(right),
        BinaryOperator::Divided => {
            if right == 0 {
                return Err(EvalError::DivisionByZero);
            }
            left.checked_div(right)
        },
    };
    match value {
        Some(value) => Ok(value),
        None => Err(EvalError::Overflow),
    }
}

/// Evaluates `expr`: its value, or the first error met on the way, the left
/// operand of every operation before the right one.
pub fn evaluate(expr: Expression) -> (result: Result<i32, EvalError>)
    ensures
        agrees(result, value_of(expr@)),
    decreases expr,
{
    match expr {
        Expression::IntegerLiteral(digits) => evaluate_literal(digits.as_str()),
        Expression::Binary { operator, left, right } => {
            let a = match evaluate(*left) {
                Ok(a) => a,
                Err(error) => {
                    return Err(error);
                },
            };
            let b = match evaluate(*right) {
                Ok(b) => b,
                Err(error) => {
                    return Err(error);
                },
            };
            evaluate_binary(operator, a, b)
        },
    }
}

/// Evaluates a literal from its digits.
pub fn evaluate_literal(digits: &str) -> (result: Result<i32, EvalError>)
    ensures
        agrees(result, literal_value(digits@)),
{
    let mut value: i32 = 0;
    let mut numeral = !digits.is_empty();
    let mut fits = true;
    for c in it: digits.chars()
        invariant
            it.seq() == digits@,
            numeral <==> digits@.len() > 0 && forall|i: int|
                0 <= i < it.index() ==> is_digit(#[trigger] digits@[i]),
            numeral && fits ==> value == decimal_value(digits@.take(it.index())),
            numeral && !fits ==> decimal_value(digits@.take(it.index())) > i32::MAX,
            value >= 0,
    {
        proof {
            let i = it.index();
            assert(digits@.take(i + 1).drop_last() == digits@.take(i));
            assert(digits@.take(i + 1).last() == c);
        }
        if !c.is_ascii_digit() {
            numeral = false;
        } else if numeral && fits {
            let digit = (c as u32 - '0' as u32) as i32;
            let next = match value.checked_mul(10) {
                Some(tens) => tens.checked_add(digit),
                None => None,
            };
            match next {
                Some(next) => {
                    value = next;
                },
                None => {
                    fits = false;
                },
            }
        }
    }
    proof {
        assert(digits@.take(digits@.len() as int) == digits@);
    }
    if !numeral {
        Err(EvalError::InvalidLiteral)
    } else if !fits {
        Err(EvalError::Overflow)
    } else {
        Ok(value)
    }
}

} // verus!
