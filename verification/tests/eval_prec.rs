use expr_eval::fval;
use expr_eval::EvalError;

#[test]
fn it_can_advanced_eval_literal_expressions() {
    assert_eq!(Ok(123), fval("123"));
}

#[test]
fn it_can_advanced_eval_addition() {
    assert_eq!(Ok(21), fval("10 + 11"));
}

#[test]
fn it_can_advanced_eval_multiplication() {
    assert_eq!(Ok(110), fval("10 * 11"));
}

#[test]
fn it_can_advanced_eval_chained_operations() {
    assert_eq!(Ok(230), fval("10 * 11 + 12"));
}

#[test]
fn it_can_advanced_eval_examples_from_the_question() {
    assert_eq!(Ok(231), fval("1 + 2 * 3 + 4 * 5 + 6"));
    assert_eq!(Ok(51), fval("1 + (2 * 3) + (4 * (5 + 6))"));
    assert_eq!(Ok(46), fval("2 * 3 + (4 * 5)"));
    assert_eq!(Ok(1445), fval("5 + (8 * 3 + 9 + 3 * 4 * 3)"));
    assert_eq!(Ok(669060), fval("5 * 9 * (7 * 3 * 3 + 9 * 3 + (8 + 6 * 4))"));
    assert_eq!(Ok(23340), fval("((2 + 4 * 9) * (6 + 9 * 8 + 6) + 6) + 2 + 4 * 2"));
}

#[test]
fn additions_fold_before_multiplications() {
    assert_eq!(Ok(21), fval("1 + 2 * 3 + 4"));
    assert_eq!(Ok(60), fval("2 * 3 + 2 * 3 + 3"));
}

#[test]
fn advanced_extra_spaces_do_not_change_the_value() {
    assert_eq!(fval("10*11+12"), fval(" 10 *  11 +  12 "));
}

#[test]
fn advanced_eval_shares_the_error_taxonomy() {
    assert_eq!(Err(EvalError::UnexpectedEndOfInput), fval(""));
    assert_eq!(Err(EvalError::IllegalOperandToken), fval("+ 1"));
    assert_eq!(Err(EvalError::UnexpectedEndOfInput), fval("1 *"));
    assert_eq!(Err(EvalError::IllegalOperatorToken), fval("1 2 3"));
    assert_eq!(Err(EvalError::Overflow), fval("9223372036854775808"));
    assert_eq!(Err(EvalError::Overflow), fval("9223372036854775807 + 1"));
    assert_eq!(Err(EvalError::Overflow), fval("4611686018427387904 * 2"));
}

#[test]
fn advanced_unclosed_group_ends_with_the_stream() {
    assert_eq!(Ok(9), fval("(1 + 2) * 3"));
    assert_eq!(Ok(3), fval("(1 + 2"));
}
