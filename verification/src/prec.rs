use vstd::prelude::*;

use crate::stream::TokenStream;
use crate::token::{apply_op, fits_i64, EvalError, Token};
use crate::tokenizer::{chars_of, spec_tokenize, tokenize};

verus! {

/// A left operand — an integer literal, or a parenthesized subexpression
/// evaluated through its matching `)` — with the tokens that remain.
pub open spec fn prec_loperand(t: Seq<Token>) -> Result<(i64, Seq<Token>), EvalError>
    decreases t.len(), 0int,
{
    if t.len() == 0 {
        Err(EvalError::UnexpectedEndOfInput)
    } else {
        match t[0] {
            Token::Int(n) => Ok((n, t.skip(1))),
            Token::LParen => prec_subexpr(t.skip(1)),
            _ => Err(EvalError::IllegalOperandToken),
        }
    }
}

/// A right operand: the immediate operand and, should a `+` follow it,
/// the whole chain of additions after it, folded to a single value before
/// control returns to the caller. A following `*`, `)` or end of stream
/// leaves the immediate operand unchanged. The guard on the recursion
/// only restates that an operand consumes tokens (`lemma_prec_consumes`).
pub open spec fn prec_roperand(t: Seq<Token>) -> Result<(i64, Seq<Token>), EvalError>
    decreases t.len(), 1int,
{
    match prec_loperand(t) {
        Err(e) => Err(e),
        Ok((v, rest)) => if rest.len() > 0 && rest[0] == Token::Add {
            if rest.len() < t.len() {
                prec_addition(v, rest.skip(1))
            } else {
                Err(EvalError::UnexpectedEndOfInput)
            }
        } else {
            Ok((v, rest))
        },
    }
}

/// Folds `loper` plus the right operand after it, which itself absorbs
/// any further additions; this self-recursion through `prec_roperand` is
/// the entire precedence mechanism.
pub open spec fn prec_addition(loper: i64, t: Seq<Token>) -> Result<(i64, Seq<Token>), EvalError>
    decreases t.len(), 2int,
{
    match prec_roperand(t) {
        Err(e) => Err(e),
        Ok((v, rest)) => if fits_i64(loper + v) {
            Ok(((loper + v) as i64, rest))
        } else {
            Err(EvalError::Overflow)
        },
    }
}

/// One operator application: consumes the token in operator position and
/// the right operand after it — additions folded first — then folds the
/// operand into `cur`. The operand is evaluated before the operator token
/// is examined, so its errors are reported first.
pub open spec fn prec_operation(cur: i64, t: Seq<Token>) -> Result<(i64, Seq<Token>), EvalError>
    decreases t.len(), 3int,
{
    if t.len() == 0 {
        Err(EvalError::UnexpectedEndOfInput)
    } else {
        match prec_roperand(t.skip(1)) {
            Err(e) => Err(e),
            Ok((v, rest)) => match apply_op(t[0], cur, v) {
                Err(e) => Err(e),
                Ok(folded) => Ok((folded, rest)),
            },
        }
    }
}

/// The operator loop of a parenthesized subexpression: folds operations
/// until the matching `)` (which it consumes) or, leniently, the end of
/// the stream.
pub open spec fn prec_subexpr_rest(cur: i64, t: Seq<Token>) -> Result<(i64, Seq<Token>), EvalError>
    decreases t.len(), 4int,
{
    if t.len() == 0 {
        Ok((cur, t))
    } else if t[0] == Token::RParen {
        Ok((cur, t.skip(1)))
    } else {
        match prec_operation(cur, t) {
            Err(e) => Err(e),
            Ok((v, rest)) => if rest.len() < t.len() {
                prec_subexpr_rest(v, rest)
            } else {
                Err(EvalError::UnexpectedEndOfInput)
            },
        }
    }
}

/// A parenthesized subexpression after its `(`: an initial left operand,
/// then the operator loop.
pub open spec fn prec_subexpr(t: Seq<Token>) -> Result<(i64, Seq<Token>), EvalError>
    decreases t.len(), 5int,
{
    match prec_loperand(t) {
        Err(e) => Err(e),
        Ok((v, rest)) => if rest.len() < t.len() {
            prec_subexpr_rest(v, rest)
        } else {
            Err(EvalError::UnexpectedEndOfInput)
        },
    }
}

/// The top-level operator loop: folds operations until the stream is
/// exhausted. Here a `)` stands in operator position and is illegal.
pub open spec fn prec_rest(cur: i64, t: Seq<Token>) -> Result<i64, EvalError>
    decreases t.len(),
{
    if t.len() == 0 {
        Ok(cur)
    } else {
        match prec_operation(cur, t) {
            Err(e) => Err(e),
            Ok((v, rest)) => if rest.len() < t.len() {
                prec_rest(v, rest)
            } else {
                Err(EvalError::UnexpectedEndOfInput)
            },
        }
    }
}

/// The value of a whole token stream under the regime where chains of `+`
/// are folded before they serve as an operand of `*`.
pub open spec fn prec_value(t: Seq<Token>) -> Result<i64, EvalError> {
    match prec_loperand(t) {
        Err(e) => Err(e),
        Ok((v, rest)) => prec_rest(v, rest),
    }
}

/// The value of an expression text under the addition-first regime: scan
/// it into tokens, then fold; a scanning error comes before any
/// evaluation error.
pub open spec fn prec_eval(s: Seq<char>) -> Result<i64, EvalError> {
    match spec_tokenize(s) {
        Err(e) => Err(e),
        Ok(ts) => prec_value(ts),
    }
}

/// An operand, a folded addition chain or an operation always consumes at
/// least one token, and the operator loop never un-consumes one.
pub proof fn lemma_prec_consumes(cur: i64, t: Seq<Token>)
    ensures
        prec_loperand(t) matches Ok((v, rest)) ==> rest.len() < t.len(),
        prec_roperand(t) matches Ok((v, rest)) ==> rest.len() < t.len(),
        prec_addition(cur, t) matches Ok((v, rest)) ==> rest.len() < t.len(),
        prec_operation(cur, t) matches Ok((v, rest)) ==> rest.len() < t.len(),
        prec_subexpr_rest(cur, t) matches Ok((v, rest)) ==> rest.len() <= t.len(),
        prec_subexpr(t) matches Ok((v, rest)) ==> rest.len() < t.len(),
    decreases t.len(),
{
    if t.len() > 0 {
        lemma_prec_consumes(cur, t.skip(1));
        if let Ok((v, rest)) = prec_loperand(t) {
            lemma_prec_consumes(v, rest);
            if rest.len() > 0 && rest[0] == Token::Add && rest.len() < t.len() {
                lemma_prec_consumes(v, rest.skip(1));
            }
        }
        if let Ok((v, rest)) = prec_operation(cur, t) {
            lemma_prec_consumes(v, rest);
        }
    }
}

/// The tokens after one well-formed operand of this regime, shape alone:
/// an integer literal, or a parenthesized group. `None` where the shape
/// is violated.
pub open spec fn pgram_operand(t: Seq<Token>) -> Option<Seq<Token>>
    decreases t.len(), 0int,
{
    if t.len() == 0 {
        None
    } else {
        match t[0] {
            Token::Int(n) => Some(t.skip(1)),
            Token::LParen => pgram_group(t.skip(1)),
            _ => None,
        }
    }
}

/// The tokens after a well-formed right operand: an operand and the whole
/// chain of `+`–operand pairs after it.
pub open spec fn pgram_roperand(t: Seq<Token>) -> Option<Seq<Token>>
    decreases t.len(), 1int,
{
    match pgram_operand(t) {
        None => None,
        Some(rest) => if rest.len() > 0 && rest[0] == Token::Add {
            if rest.len() < t.len() {
                pgram_roperand(rest.skip(1))
            } else {
                None
            }
        } else {
            Some(rest)
        },
    }
}

/// The tokens after one well-formed operator and its right operand.
pub open spec fn pgram_operation(t: Seq<Token>) -> Option<Seq<Token>>
    decreases t.len(), 2int,
{
    if t.len() == 0 {
        None
    } else if t[0] == Token::Add || t[0] == Token::Mul {
        pgram_roperand(t.skip(1))
    } else {
        None
    }
}

/// The shape of a group's operator loop: operator–right-operand pairs up
/// to the closing `)` (consumed) or the end of the stream.
pub open spec fn pgram_group_rest(t: Seq<Token>) -> Option<Seq<Token>>
    decreases t.len(), 3int,
{
    if t.len() == 0 {
        Some(t)
    } else if t[0] == Token::RParen {
        Some(t.skip(1))
    } else {
        match pgram_operation(t) {
            None => None,
            Some(rest) => if rest.len() < t.len() {
                pgram_group_rest(rest)
            } else {
                None
            },
        }
    }
}

/// The shape of a parenthesized group after its `(`.
pub open spec fn pgram_group(t: Seq<Token>) -> Option<Seq<Token>>
    decreases t.len(), 4int,
{
    match pgram_operand(t) {
        None => None,
        Some(rest) => if rest.len() < t.len() {
            pgram_group_rest(rest)
        } else {
            None
        },
    }
}

/// The shape of the top level after its first operand: operator and
/// right-operand pairs to the end of the stream.
pub open spec fn pgram_tail(t: Seq<Token>) -> bool
    decreases t.len(),
{
    if t.len() == 0 {
        true
    } else {
        match pgram_operation(t) {
            None => false,
            Some(rest) => rest.len() < t.len() && pgram_tail(rest),
        }
    }
}

/// Whether a token stream is a well-formed expression of this regime's
/// grammar: an operand, then operator and right-operand pairs.
pub open spec fn pgram_expr(t: Seq<Token>) -> bool {
    match pgram_operand(t) {
        None => false,
        Some(rest) => pgram_tail(rest),
    }
}

/// The addition-first evaluator agrees with its grammar: where the shape
/// holds it consumes exactly the shape's tokens and fails only by
/// overflow, and where it yields a value the shape held.
pub proof fn lemma_prec_matches_grammar(cur: i64, t: Seq<Token>)
    ensures
        pgram_operand(t) matches Some(rest) ==> (prec_loperand(t) matches Ok(vr) && vr.1 == rest)
            || prec_loperand(t) == Err::<(i64, Seq<Token>), EvalError>(EvalError::Overflow),
        prec_loperand(t) matches Ok(vr) ==> pgram_operand(t) == Some(vr.1),
        pgram_roperand(t) matches Some(rest) ==> (prec_roperand(t) matches Ok(vr) && vr.1 == rest)
            || prec_roperand(t) == Err::<(i64, Seq<Token>), EvalError>(EvalError::Overflow),
        prec_roperand(t) matches Ok(vr) ==> pgram_roperand(t) == Some(vr.1),
        pgram_roperand(t) matches Some(rest) ==> (prec_addition(cur, t) matches Ok(vr) && vr.1
            == rest) || prec_addition(cur, t) == Err::<(i64, Seq<Token>), EvalError>(
            EvalError::Overflow,
        ),
        prec_addition(cur, t) matches Ok(vr) ==> pgram_roperand(t) == Some(vr.1),
        pgram_operation(t) matches Some(rest) ==> (prec_operation(cur, t) matches Ok(vr) && vr.1
            == rest) || prec_operation(cur, t) == Err::<(i64, Seq<Token>), EvalError>(
            EvalError::Overflow,
        ),
        prec_operation(cur, t) matches Ok(vr) ==> pgram_operation(t) == Some(vr.1),
        pgram_group_rest(t) matches Some(rest) ==> (prec_subexpr_rest(cur, t) matches Ok(vr)
            && vr.1 == rest) || prec_subexpr_rest(cur, t) == Err::<(i64, Seq<Token>), EvalError>(
            EvalError::Overflow,
        ),
        prec_subexpr_rest(cur, t) matches Ok(vr) ==> pgram_group_rest(t) == Some(vr.1),
        pgram_group(t) matches Some(rest) ==> (prec_subexpr(t) matches Ok(vr) && vr.1 == rest)
            || prec_subexpr(t) == Err::<(i64, Seq<Token>), EvalError>(EvalError::Overflow),
        prec_subexpr(t) matches Ok(vr) ==> pgram_group(t) == Some(vr.1),
        pgram_tail(t) ==> (prec_rest(cur, t) matches Ok(v)) || prec_rest(cur, t) == Err::<
            i64,
            EvalError,
        >(EvalError::Overflow),
        prec_rest(cur, t) matches Ok(v) ==> pgram_tail(t),
    decreases t.len(),
{
    lemma_prec_consumes(cur, t);
    if t.len() > 0 {
        lemma_prec_matches_grammar(cur, t.skip(1));
        if let Ok((v, rest)) = prec_loperand(t) {
            lemma_prec_matches_grammar(v, rest);
            if rest.len() > 0 && rest[0] == Token::Add && rest.len() < t.len() {
                lemma_prec_matches_grammar(v, rest.skip(1));
            }
        }
        if let Ok((v, rest)) = prec_operation(cur, t) {
            lemma_prec_matches_grammar(v, rest);
        }
    }
}

/// On a stream of its grammar the addition-first evaluator is total but
/// for overflow: it yields the value, or reports that an `i64` fold
/// overflowed — never a structure error; and a value certifies that the
/// stream was of the grammar.
pub proof fn lemma_prec_total_on_grammar(t: Seq<Token>)
    ensures
        pgram_expr(t) ==> (prec_value(t) matches Ok(v)) || prec_value(t) == Err::<i64, EvalError>(
            EvalError::Overflow,
        ),
        prec_value(t) matches Ok(v) ==> pgram_expr(t),
{
    lemma_prec_matches_grammar(0, t);
    if let Ok(vr) = prec_loperand(t) {
        lemma_prec_matches_grammar(vr.0, vr.1);
    }
}

/// Evaluates one left operand from the stream: an integer literal, or a
/// parenthesized subexpression evaluated through its matching `)`.
pub fn fval_loperand(tokens: &mut TokenStream) -> (r: Result<i64, EvalError>)
    requires
        old(tokens).wf(),
    ensures
        final(tokens).wf(),
        match prec_loperand(old(tokens).remaining()) {
            Ok(vr) => r == Ok::<i64, EvalError>(vr.0) && final(tokens).remaining() == vr.1,
            Err(e) => r == Err::<i64, EvalError>(e),
        },
    decreases old(tokens).remaining().len(), 0int,
{
    match tokens.next() {
        None => Err(EvalError::UnexpectedEndOfInput),
        Some(Token::Int(n)) => Ok(n),
        Some(Token::LParen) => fval_subexpr(tokens),
        Some(_) => Err(EvalError::IllegalOperandToken),
    }
}

/// Evaluates a right operand: the immediate operand and, should a `+`
/// follow, the whole chain of additions after it, folded in before
/// control returns to the caller.
pub fn fval_roperand(tokens: &mut TokenStream) -> (r: Result<i64, EvalError>)
    requires
        old(tokens).wf(),
    ensures
        final(tokens).wf(),
        match prec_roperand(old(tokens).remaining()) {
            Ok(vr) => r == Ok::<i64, EvalError>(vr.0) && final(tokens).remaining() == vr.1,
            Err(e) => r == Err::<i64, EvalError>(e),
        },
    decreases old(tokens).remaining().len(), 1int,
{
    let ghost entry = old(tokens).remaining();
    let roper = match fval_loperand(tokens) {
        Ok(v) => v,
        Err(e) => {
            return Err(e);
        }
    };
    proof {
        lemma_prec_consumes(roper, entry);
    }
    match tokens.peek() {
        Some(Token::Add) => {
            let _ = tokens.next();
            fval_addition(roper, tokens)
        }
        _ => Ok(roper),
    }
}

/// Folds `loper +` the next right operand, recursing rightward through
/// any further additions; this self-recursion is the entire precedence
/// mechanism.
pub fn fval_addition(loper: i64, tokens: &mut TokenStream) -> (r: Result<i64, EvalError>)
    requires
        old(tokens).wf(),
    ensures
        final(tokens).wf(),
        match prec_addition(loper, old(tokens).remaining()) {
            Ok(vr) => r == Ok::<i64, EvalError>(vr.0) && final(tokens).remaining() == vr.1,
            Err(e) => r == Err::<i64, EvalError>(e),
        },
    decreases old(tokens).remaining().len(), 2int,
{
    let roper = match fval_roperand(tokens) {
        Ok(v) => v,
        Err(e) => {
            return Err(e);
        }
    };
    match loper.checked_add(roper) {
        Some(v) => Ok(v),
        None => Err(EvalError::Overflow),
    }
}

/// Applies one operator: consumes the token in operator position and the
/// right operand after it — additions folded first — and folds it into
/// `loper`.
pub fn fval_operation(loper: i64, tokens: &mut TokenStream) -> (r: Result<i64, EvalError>)
    requires
        old(tokens).wf(),
    ensures
        final(tokens).wf(),
        match prec_operation(loper, old(tokens).remaining()) {
            Ok(vr) => r == Ok::<i64, EvalError>(vr.0) && final(tokens).remaining() == vr.1,
            Err(e) => r == Err::<i64, EvalError>(e),
        },
    decreases old(tokens).remaining().len(), 3int,
{
    let operation = match tokens.next() {
        Some(t) => t,
        None => {
            return Err(EvalError::UnexpectedEndOfInput);
        }
    };
    let roper = match fval_roperand(tokens) {
        Ok(v) => v,
        Err(e) => {
            return Err(e);
        }
    };
    match operation {
        Token::Add => match loper.checked_add(roper) {
            Some(v) => Ok(v),
            None => Err(EvalError::Overflow),
        },
        Token::Mul => match loper.checked_mul(roper) {
            Some(v) => Ok(v),
            None => Err(EvalError::Overflow),
        },
        _ => Err(EvalError::IllegalOperatorToken),
    }
}

/// Evaluates a parenthesized subexpression after its `(`, consuming the
/// matching `)`; if the stream ends first, the value so far is, leniently,
/// the result.
pub fn fval_subexpr(tokens: &mut TokenStream) -> (r: Result<i64, EvalError>)
    requires
        old(tokens).wf(),
    ensures
        final(tokens).wf(),
        match prec_subexpr(old(tokens).remaining()) {
            Ok(vr) => r == Ok::<i64, EvalError>(vr.0) && final(tokens).remaining() == vr.1,
            Err(e) => r == Err::<i64, EvalError>(e),
        },
    decreases old(tokens).remaining().len(), 5int,
{
    let ghost entry = old(tokens).remaining();
    let mut current = match fval_loperand(tokens) {
        Ok(v) => v,
        Err(e) => {
            return Err(e);
        }
    };
    proof {
        lemma_prec_consumes(current, entry);
    }
    loop
        invariant
            tokens.wf(),
            entry == old(tokens).remaining(),
            tokens.remaining().len() <= entry.len(),
            prec_subexpr(entry) == prec_subexpr_rest(current, tokens.remaining()),
        decreases tokens.remaining().len(),
    {
        let ghost cur = tokens.remaining();
        match tokens.peek() {
            None => {
                return Ok(current);
            }
            Some(Token::RParen) => {
                let _ = tokens.next();
                return Ok(current);
            }
            Some(_) => {
                proof {
                    lemma_prec_consumes(current, cur);
                }
                current = match fval_operation(current, tokens) {
                    Ok(v) => v,
                    Err(e) => {
                        return Err(e);
                    }
                };
            }
        }
    }
}

/// Folds a whole token stream under the addition-first regime, consuming
/// the stream to exhaustion.
pub fn _fval(tokens: &mut TokenStream) -> (r: Result<i64, EvalError>)
    requires
        old(tokens).wf(),
    ensures
        final(tokens).wf(),
        r == prec_value(old(tokens).remaining()),
{
    let ghost entry = old(tokens).remaining();
    let mut current = match fval_loperand(tokens) {
        Ok(v) => v,
        Err(e) => {
            return Err(e);
        }
    };
    proof {
        lemma_prec_consumes(current, entry);
    }
    loop
        invariant
            tokens.wf(),
            entry == old(tokens).remaining(),
            prec_value(entry) == prec_rest(current, tokens.remaining()),
        decreases tokens.remaining().len(),
    {
        let ghost cur = tokens.remaining();
        match tokens.peek() {
            None => {
                return Ok(current);
            }
            Some(_) => {
                proof {
                    lemma_prec_consumes(current, cur);
                }
                current = match fval_operation(current, tokens) {
                    Ok(v) => v,
                    Err(e) => {
                        return Err(e);
                    }
                };
            }
        }
    }
}

/// Evaluates an expression under the regime where `+` binds tighter than
/// `*`: every chain of additions is folded before it serves as an operand
/// of a multiplication. The result — the value, or the one fatal
/// condition met first — is pinned by `prec_eval` on the expression's
/// characters.
pub fn fval(line: &str) -> (r: Result<i64, EvalError>)
    ensures
        r == prec_eval(line@),
{
    let source = chars_of(line);
    match tokenize(source) {
        Err(e) => Err(e),
        Ok(toks) => {
            let mut stream = TokenStream::new(toks);
            _fval(&mut stream)
        }
    }
}

} // verus!
