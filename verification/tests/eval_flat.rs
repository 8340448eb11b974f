use expr_eval::eval;
use expr_eval::EvalError;

#[test]
fn it_can_eval_a_literal_expression() {
    let result = eval("123");
    assert_eq!(Ok(123), result);
}

#[test]
fn it_can_eval_an_addition() {
    let result = eval("10 + 11");
    assert_eq!(Ok(21), result);
}

#[test]
fn it_can_eval_a_multiplication() {
    assert_eq!(Ok(110), eval("10 * 11"));
}

#[test]
fn it_can_eval_a_chained_expression() {
    assert_eq!(Ok(105), eval("10 + 11 * 5"))
}

#[test]
fn it_can_eval_simple_subexpressions() {
    let result = eval("(10) + (11)");
    assert_eq!(Ok(21), result);
}

#[test]
fn it_can_eval_subexpressions_with_arithmatic() {
    let result = eval("(10 + 10) + (11 * 11)");
    assert_eq!(Ok(141), result);
}

#[test]
fn examples_from_question_parse_correctly() {
    assert_eq!(Ok(26), eval("2 * 3 + (4 * 5)"));
    assert_eq!(Ok(437), eval("5 + (8 * 3 + 9 + 3 * 4 * 3)"));
    assert_eq!(Ok(12240), eval("5 * 9 * (7 * 3 * 3 + 9 * 3 + (8 + 6 * 4))"));
    assert_eq!(Ok(13632), eval("((2 + 4 * 9) * (6 + 9 * 8 + 6) + 6) + 2 + 4 * 2"));
}

#[test]
fn extra_spaces_do_not_change_the_value() {
    assert_eq!(eval("10+11*5"), eval(" 10  +  11 *  5 "));
    assert_eq!(eval("(10+10)+(11*11)"), eval("( 10 + 10 ) + ( 11 * 11 )"));
}

#[test]
fn the_empty_expression_has_no_operand() {
    assert_eq!(Err(EvalError::UnexpectedEndOfInput), eval(""));
    assert_eq!(Err(EvalError::UnexpectedEndOfInput), eval("   "));
}

#[test]
fn an_operator_cannot_open_an_expression() {
    assert_eq!(Err(EvalError::IllegalOperandToken), eval("+ 1"));
    assert_eq!(Err(EvalError::IllegalOperandToken), eval("* 1"));
}

#[test]
fn a_trailing_operator_misses_its_operand() {
    assert_eq!(Err(EvalError::UnexpectedEndOfInput), eval("1 +"));
}

#[test]
fn a_literal_cannot_stand_in_operator_position() {
    assert_eq!(Err(EvalError::IllegalOperatorToken), eval("1 2 3"));
}

#[test]
fn a_literal_wider_than_i64_overflows() {
    assert_eq!(Err(EvalError::Overflow), eval("9223372036854775808"));
}

#[test]
fn a_sum_beyond_i64_overflows() {
    assert_eq!(Err(EvalError::Overflow), eval("9223372036854775807 + 1"));
}

#[test]
fn a_product_beyond_i64_overflows() {
    assert_eq!(Err(EvalError::Overflow), eval("9223372036854775807 * 2"));
}

#[test]
fn the_largest_literal_evaluates_to_itself() {
    assert_eq!(Ok(9223372036854775807), eval("9223372036854775807"));
    assert_eq!(Ok(0), eval("0"));
    assert_eq!(Ok(7), eval("0007"));
}

#[test]
fn an_unclosed_group_ends_with_the_stream() {
    assert_eq!(Ok(3), eval("(1 + 2"));
    assert_eq!(Ok(9), eval("(1 + 2) * 3"));
}

#[test]
fn stray_characters_are_separators() {
    assert_eq!(Ok(3), eval("1a+?2"));
}

#[test]
fn evaluation_is_deterministic() {
    let text = "5 * 9 * (7 * 3 * 3 + 9 * 3 + (8 + 6 * 4))";
    assert_eq!(eval(text), eval(text));
    assert_eq!(expr_eval::fval(text), expr_eval::fval(text));
}
