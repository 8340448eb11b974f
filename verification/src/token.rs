use vstd::prelude::*;

verus! {

/// A lexical unit of an expression: an integer literal, one of the two
/// operators, or a parenthesis. Equality is structural; a token carries no
/// identity beyond its value.
#[derive(Copy, Clone, Debug, PartialEq, Eq, Structural)]
pub enum Token {
    Int(i64),
    Add,
    Mul,
    LParen,
    RParen,
}

/// Why an evaluation was aborted. Every condition is fatal for the
/// expression at hand; none is recovered from mid-expression.
#[derive(Copy, Clone, Debug, PartialEq, Eq, Structural)]
pub enum EvalError {
    /// The token stream ended while an operand or an operator was still
    /// expected.
    UnexpectedEndOfInput,
    /// A token that is neither an integer literal nor `(` stood where an
    /// operand was required.
    IllegalOperandToken,
    /// A token that is neither `+` nor `*` stood where an operator was
    /// required.
    IllegalOperatorToken,
    /// An integer literal, or an intermediate result of a fold, does not
    /// fit in an `i64`.
    Overflow,
}

/// Whether a mathematical integer is representable as an `i64`.
pub open spec fn fits_i64(v: int) -> bool {
    i64::MIN <= v <= i64::MAX
}

/// Folds one operator application `a op b`, reporting overflow of the
/// 64-bit result; any token other than `+` or `*` is illegal in operator
/// position.
pub open spec fn apply_op(op: Token, a: i64, b: i64) -> Result<i64, EvalError> {
    match op {
        Token::Add => if fits_i64(a + b) {
            Ok((a + b) as i64)
        } else {
            Err(EvalError::Overflow)
        },
        Token::Mul => if fits_i64(a * b) {
            Ok((a * b) as i64)
        } else {
            Err(EvalError::Overflow)
        },
        _ => Err(EvalError::IllegalOperatorToken),
    }
}

} // verus!
