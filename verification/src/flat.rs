use vstd::prelude::*;

use crate::stream::TokenStream;
use crate::token::{apply_op, EvalError, Token};
use crate::tokenizer::{chars_of, spec_tokenize, tokenize};

verus! {

/// One operand of the flat grammar — an integer literal, or a
/// parenthesized subexpression evaluated through its matching `)` — with
/// the tokens that remain after it.
pub open spec fn flat_operand(t: Seq<Token>) -> Result<(i64, Seq<Token>), EvalError>
    decreases t.len(), 0int,
{
    if t.len() == 0 {
        Err(EvalError::UnexpectedEndOfInput)
    } else {
        match t[0] {
            Token::Int(n) => Ok((n, t.skip(1))),
            Token::LParen => flat_subexpr(t.skip(1)),
            _ => Err(EvalError::IllegalOperandToken),
        }
    }
}

/// One operator application: consumes the token in operator position and
/// the operand after it, then folds the operand into `cur`. The operand is
/// evaluated before the operator token is examined, so its errors are
/// reported first.
pub open spec fn flat_operation(cur: i64, t: Seq<Token>) -> Result<(i64, Seq<Token>), EvalError>
    decreases t.len(), 1int,
{
    if t.len() == 0 {
        Err(EvalError::UnexpectedEndOfInput)
    } else {
        match flat_operand(t.skip(1)) {
            Err(e) => Err(e),
            Ok((v, rest)) => match apply_op(t[0], cur, v) {
                Err(e) => Err(e),
                Ok(folded) => Ok((folded, rest)),
            },
        }
    }
}

/// The operator loop of a parenthesized subexpression: folds operations
/// left to right until the matching `)` (which it consumes) or, leniently,
/// the end of the stream. The guards on the recursion only restate that an
/// operation always consumes tokens (`lemma_flat_consumes`).
pub open spec fn flat_subexpr_rest(cur: i64, t: Seq<Token>) -> Result<(i64, Seq<Token>), EvalError>
    decreases t.len(), 2int,
{
    if t.len() == 0 {
        Ok((cur, t))
    } else if t[0] == Token::RParen {
        Ok((cur, t.skip(1)))
    } else {
        match flat_operation(cur, t) {
            Err(e) => Err(e),
            Ok((v, rest)) => if rest.len() < t.len() {
                flat_subexpr_rest(v, rest)
            } else {
                Err(EvalError::UnexpectedEndOfInput)
            },
        }
    }
}

/// A parenthesized subexpression after its `(`: an initial operand, then
/// the operator loop.
pub open spec fn flat_subexpr(t: Seq<Token>) -> Result<(i64, Seq<Token>), EvalError>
    decreases t.len(), 3int,
{
    match flat_operand(t) {
        Err(e) => Err(e),
        Ok((v, rest)) => if rest.len() < t.len() {
            flat_subexpr_rest(v, rest)
        } else {
            Err(EvalError::UnexpectedEndOfInput)
        },
    }
}

/// The top-level operator loop: folds operations left to right until the
/// stream is exhausted. Here a `)` stands in operator position and is
/// illegal, as at the top level there is nothing for it to close.
pub open spec fn flat_rest(cur: i64, t: Seq<Token>) -> Result<i64, EvalError>
    decreases t.len(),
{
    if t.len() == 0 {
        Ok(cur)
    } else {
        match flat_operation(cur, t) {
            Err(e) => Err(e),
            Ok((v, rest)) => if rest.len() < t.len() {
                flat_rest(v, rest)
            } else {
                Err(EvalError::UnexpectedEndOfInput)
            },
        }
    }
}

/// The value of a whole token stream under the flat regime: an initial
/// operand, then operations folded strictly left to right, `+` and `*` at
/// equal precedence.
pub open spec fn flat_value(t: Seq<Token>) -> Result<i64, EvalError> {
    match flat_operand(t) {
        Err(e) => Err(e),
        Ok((v, rest)) => flat_rest(v, rest),
    }
}

/// The value of an expression text under the flat regime: scan it into
/// tokens, then fold; a scanning error comes before any evaluation error.
pub open spec fn flat_eval(s: Seq<char>) -> Result<i64, EvalError> {
    match spec_tokenize(s) {
        Err(e) => Err(e),
        Ok(ts) => flat_value(ts),
    }
}

/// An operand or an operation always consumes at least one token, and the
/// operator loop never un-consumes one.
pub proof fn lemma_flat_consumes(cur: i64, t: Seq<Token>)
    ensures
        flat_operand(t) matches Ok((v, rest)) ==> rest.len() < t.len(),
        flat_operation(cur, t) matches Ok((v, rest)) ==> rest.len() < t.len(),
        flat_subexpr_rest(cur, t) matches Ok((v, rest)) ==> rest.len() <= t.len(),
        flat_subexpr(t) matches Ok((v, rest)) ==> rest.len() < t.len(),
    decreases t.len(),
{
    if t.len() > 0 {
        lemma_flat_consumes(cur, t.skip(1));
        if let Ok((v, rest)) = flat_operation(cur, t) {
            lemma_flat_consumes(v, rest);
        }
        if let Ok((v, rest)) = flat_operand(t) {
            lemma_flat_consumes(v, rest);
        }
    }
}

/// The tokens after one well-formed operand, shape alone: an integer
/// literal, or a parenthesized group. `None` where the shape is violated.
pub open spec fn gram_operand(t: Seq<Token>) -> Option<Seq<Token>>
    decreases t.len(), 0int,
{
    if t.len() == 0 {
        None
    } else {
        match t[0] {
            Token::Int(n) => Some(t.skip(1)),
            Token::LParen => gram_group(t.skip(1)),
            _ => None,
        }
    }
}

/// The tokens after one well-formed operator–operand pair.
pub open spec fn gram_operation(t: Seq<Token>) -> Option<Seq<Token>>
    decreases t.len(), 1int,
{
    if t.len() == 0 {
        None
    } else if t[0] == Token::Add || t[0] == Token::Mul {
        gram_operand(t.skip(1))
    } else {
        None
    }
}

/// The shape of a group's operator loop: operator–operand pairs up to the
/// closing `)` (consumed) or the end of the stream.
pub open spec fn gram_group_rest(t: Seq<Token>) -> Option<Seq<Token>>
    decreases t.len(), 2int,
{
    if t.len() == 0 {
        Some(t)
    } else if t[0] == Token::RParen {
        Some(t.skip(1))
    } else {
        match gram_operation(t) {
            None => None,
            Some(rest) => if rest.len() < t.len() {
                gram_group_rest(rest)
            } else {
                None
            },
        }
    }
}

/// The shape of a parenthesized group after its `(`.
pub open spec fn gram_group(t: Seq<Token>) -> Option<Seq<Token>>
    decreases t.len(), 3int,
{
    match gram_operand(t) {
        None => None,
        Some(rest) => if rest.len() < t.len() {
            gram_group_rest(rest)
        } else {
            None
        },
    }
}

/// The shape of the top level after its first operand: operator–operand
/// pairs to the end of the stream.
pub open spec fn gram_tail(t: Seq<Token>) -> bool
    decreases t.len(),
{
    if t.len() == 0 {
        true
    } else {
        match gram_operation(t) {
            None => false,
            Some(rest) => rest.len() < t.len() && gram_tail(rest),
        }
    }
}

/// Whether a token stream is a well-formed expression of the flat
/// regime's grammar: an operand, then operator–operand pairs.
pub open spec fn gram_expr(t: Seq<Token>) -> bool {
    match gram_operand(t) {
        None => false,
        Some(rest) => gram_tail(rest),
    }
}

/// The flat evaluator agrees with its grammar: where the shape holds it
/// consumes exactly the shape's tokens and fails only by overflow, and
/// where it yields a value the shape held.
pub proof fn lemma_flat_matches_grammar(cur: i64, t: Seq<Token>)
    ensures
        gram_operand(t) matches Some(rest) ==> (flat_operand(t) matches Ok(vr) && vr.1 == rest)
            || flat_operand(t) == Err::<(i64, Seq<Token>), EvalError>(EvalError::Overflow),
        flat_operand(t) matches Ok(vr) ==> gram_operand(t) == Some(vr.1),
        gram_operation(t) matches Some(rest) ==> (flat_operation(cur, t) matches Ok(vr) && vr.1
            == rest) || flat_operation(cur, t) == Err::<(i64, Seq<Token>), EvalError>(
            EvalError::Overflow,
        ),
        flat_operation(cur, t) matches Ok(vr) ==> gram_operation(t) == Some(vr.1),
        gram_group_rest(t) matches Some(rest) ==> (flat_subexpr_rest(cur, t) matches Ok(vr)
            && vr.1 == rest) || flat_subexpr_rest(cur, t) == Err::<(i64, Seq<Token>), EvalError>(
            EvalError::Overflow,
        ),
        flat_subexpr_rest(cur, t) matches Ok(vr) ==> gram_group_rest(t) == Some(vr.1),
        gram_group(t) matches Some(rest) ==> (flat_subexpr(t) matches Ok(vr) && vr.1 == rest)
            || flat_subexpr(t) == Err::<(i64, Seq<Token>), EvalError>(EvalError::Overflow),
        flat_subexpr(t) matches Ok(vr) ==> gram_group(t) == Some(vr.1),
        gram_tail(t) ==> (flat_rest(cur, t) matches Ok(v)) || flat_rest(cur, t) == Err::<
            i64,
            EvalError,
        >(EvalError::Overflow),
        flat_rest(cur, t) matches Ok(v) ==> gram_tail(t),
    decreases t.len(),
{
    lemma_flat_consumes(cur, t);
    if t.len() > 0 {
        lemma_flat_matches_grammar(cur, t.skip(1));
        if let Ok(vr) = flat_operation(cur, t) {
            lemma_flat_matches_grammar(vr.0, vr.1);
        }
        if let Ok(vr) = flat_operand(t) {
            lemma_flat_matches_grammar(vr.0, vr.1);
        }
    }
}

/// On a stream of its grammar the flat evaluator is total but for
/// overflow: it yields the value, or reports that an `i64` fold
/// overflowed — never a structure error; and a value certifies that the
/// stream was of the grammar.
pub proof fn lemma_flat_total_on_grammar(t: Seq<Token>)
    ensures
        gram_expr(t) ==> (flat_value(t) matches Ok(v)) || flat_value(t) == Err::<i64, EvalError>(
            EvalError::Overflow,
        ),
        flat_value(t) matches Ok(v) ==> gram_expr(t),
{
    lemma_flat_matches_grammar(0, t);
    if let Ok(vr) = flat_operand(t) {
        lemma_flat_matches_grammar(vr.0, vr.1);
    }
}

/// Evaluates one operand from the stream: an integer literal, or a
/// parenthesized subexpression evaluated through its matching `)`.
pub fn eval_operand(tokens: &mut TokenStream) -> (r: Result<i64, EvalError>)
    requires
        old(tokens).wf(),
    ensures
        final(tokens).wf(),
        match flat_operand(old(tokens).remaining()) {
            Ok(vr) => r == Ok::<i64, EvalError>(vr.0) && final(tokens).remaining() == vr.1,
            Err(e) => r == Err::<i64, EvalError>(e),
        },
    decreases old(tokens).remaining().len(), 0int,
{
    match tokens.next() {
        None => Err(EvalError::UnexpectedEndOfInput),
        Some(Token::Int(n)) => Ok(n),
        Some(Token::LParen) => eval_subexpr(tokens),
        Some(_) => Err(EvalError::IllegalOperandToken),
    }
}

/// Evaluates a parenthesized subexpression after its `(`, consuming the
/// matching `)`; if the stream ends first, the value so far is, leniently,
/// the result.
pub fn eval_subexpr(tokens: &mut TokenStream) -> (r: Result<i64, EvalError>)
    requires
        old(tokens).wf(),
    ensures
        final(tokens).wf(),
        match flat_subexpr(old(tokens).remaining()) {
            Ok(vr) => r == Ok::<i64, EvalError>(vr.0) && final(tokens).remaining() == vr.1,
            Err(e) => r == Err::<i64, EvalError>(e),
        },
    decreases old(tokens).remaining().len(), 2int,
{
    let ghost entry = old(tokens).remaining();
    let mut current = match eval_operand(tokens) {
        Ok(v) => v,
        Err(e) => {
            return Err(e);
        }
    };
    proof {
        lemma_flat_consumes(current, entry);
    }
    loop
        invariant
            tokens.wf(),
            entry == old(tokens).remaining(),
            tokens.remaining().len() <= entry.len(),
            flat_subexpr(entry) == flat_subexpr_rest(current, tokens.remaining()),
        decreases tokens.remaining().len(),
    {
        let ghost cur = tokens.remaining();
        match tokens.peek() {
            None => {
                return Ok(current);
            }
            Some(Token::RParen) => {
                let _ = tokens.next();
                return Ok(current);
            }
            Some(_) => {
                proof {
                    lemma_flat_consumes(current, cur);
                }
                current = match eval_operation(current, tokens) {
                    Ok(v) => v,
                    Err(e) => {
                        return Err(e);
                    }
                };
            }
        }
    }
}

/// Applies one operator: consumes the token in operator position and the
/// operand after it, folding the operand into `loper` left to right.
pub fn eval_operation(loper: i64, tokens: &mut TokenStream) -> (r: Result<i64, EvalError>)
    requires
        old(tokens).wf(),
    ensures
        final(tokens).wf(),
        match flat_operation(loper, old(tokens).remaining()) {
            Ok(vr) => r == Ok::<i64, EvalError>(vr.0) && final(tokens).remaining() == vr.1,
            Err(e) => r == Err::<i64, EvalError>(e),
        },
    decreases old(tokens).remaining().len(), 1int,
{
    let operation = match tokens.next() {
        Some(t) => t,
        None => {
            return Err(EvalError::UnexpectedEndOfInput);
        }
    };
    let roper = match eval_operand(tokens) {
        Ok(v) => v,
        Err(e) => {
            return Err(e);
        }
    };
    match operation {
        Token::Add => match loper.checked_add(roper) {
            Some(v) => Ok(v),
            None => Err(EvalError::Overflow),
        },
        Token::Mul => match loper.checked_mul(roper) {
            Some(v) => Ok(v),
            None => Err(EvalError::Overflow),
        },
        _ => Err(EvalError::IllegalOperatorToken),
    }
}

/// Folds a whole token stream left to right with `+` and `*` at equal
/// precedence, consuming the stream to exhaustion.
pub fn _eval(tokens: &mut TokenStream) -> (r: Result<i64, EvalError>)
    requires
        old(tokens).wf(),
    ensures
        final(tokens).wf(),
        r == flat_value(old(tokens).remaining()),
{
    let ghost entry = old(tokens).remaining();
    let mut current = match eval_operand(tokens) {
        Ok(v) => v,
        Err(e) => {
            return Err(e);
        }
    };
    proof {
        lemma_flat_consumes(current, entry);
    }
    loop
        invariant
            tokens.wf(),
            entry == old(tokens).remaining(),
            flat_value(entry) == flat_rest(current, tokens.remaining()),
        decreases tokens.remaining().len(),
    {
        let ghost cur = tokens.remaining();
        match tokens.peek() {
            None => {
                return Ok(current);
            }
            Some(_) => {
                proof {
                    lemma_flat_consumes(current, cur);
                }
                current = match eval_operation(current, tokens) {
                    Ok(v) => v,
                    Err(e) => {
                        return Err(e);
                    }
                };
            }
        }
    }
}

/// Evaluates an expression with `+` and `*` at equal precedence, folded
/// strictly left to right. The result — the value, or the one fatal
/// condition met first — is pinned by `flat_eval` on the expression's
/// characters.
pub fn eval(expression: &str) -> (r: Result<i64, EvalError>)
    ensures
        r == flat_eval(expression@),
{
    let source = chars_of(expression);
    match tokenize(source) {
        Err(e) => Err(e),
        Ok(toks) => {
            let mut stream = TokenStream::new(toks);
            _eval(&mut stream)
        }
    }
}

} // verus!
