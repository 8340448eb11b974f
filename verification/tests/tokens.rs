use expr_eval::Token;
use expr_eval::TokenStream;
use expr_eval::Tokenizer;

#[test]
fn tokenizer_produces_correct_tokens() {
    let mut tokenizer = Tokenizer::new("1()+*".chars().collect());
    assert!(matches!(tokenizer.next(), Ok(Some(Token::Int(1)))));
    assert!(matches!(tokenizer.next(), Ok(Some(Token::LParen))));
    assert!(matches!(tokenizer.next(), Ok(Some(Token::RParen))));
    assert!(matches!(tokenizer.next(), Ok(Some(Token::Add))));
    assert!(matches!(tokenizer.next(), Ok(Some(Token::Mul))));
    assert!(matches!(tokenizer.next(), Ok(None)));
}

#[test]
fn tokenizer_skips_unrecognized_characters() {
    let mut tokenizer = Tokenizer::new(" 12 a? 34x".chars().collect());
    assert!(matches!(tokenizer.next(), Ok(Some(Token::Int(12)))));
    assert!(matches!(tokenizer.next(), Ok(Some(Token::Int(34)))));
    assert!(matches!(tokenizer.next(), Ok(None)));
}

#[test]
fn tokenizer_reads_the_largest_literal() {
    let mut tokenizer = Tokenizer::new("9223372036854775807".chars().collect());
    assert!(matches!(tokenizer.next(), Ok(Some(Token::Int(9223372036854775807)))));
    assert!(matches!(tokenizer.next(), Ok(None)));
}

#[test]
fn tokenizer_refuses_a_literal_too_wide_for_i64() {
    let mut tokenizer = Tokenizer::new("9223372036854775808".chars().collect());
    assert!(matches!(tokenizer.next(), Err(expr_eval::EvalError::Overflow)));
}

#[test]
fn parse_num_takes_every_following_digit() {
    let mut tokenizer = Tokenizer::new("23 + 4".chars().collect());
    assert!(matches!(tokenizer.parse_num('1'), Ok(Token::Int(123))));
    assert!(matches!(tokenizer.next(), Ok(Some(Token::Add))));
    assert!(matches!(tokenizer.next(), Ok(Some(Token::Int(4)))));
    assert!(matches!(tokenizer.next(), Ok(None)));
}

#[test]
fn an_exhausted_tokenizer_stays_exhausted() {
    let mut tokenizer = Tokenizer::new(Vec::new());
    assert!(matches!(tokenizer.next(), Ok(None)));
    assert!(matches!(tokenizer.next(), Ok(None)));
}

#[test]
fn stream_peek_does_not_consume() {
    let mut stream = TokenStream::new(vec![Token::Int(7), Token::Add]);
    assert!(matches!(stream.peek(), Some(Token::Int(7))));
    assert!(matches!(stream.peek(), Some(Token::Int(7))));
    assert!(matches!(stream.next(), Some(Token::Int(7))));
    assert!(matches!(stream.peek(), Some(Token::Add)));
    assert!(matches!(stream.next(), Some(Token::Add)));
    assert!(matches!(stream.peek(), None));
    assert!(matches!(stream.next(), None));
}
