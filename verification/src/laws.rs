use vstd::prelude::*;

use crate::flat::flat_eval;
use crate::prec::prec_eval;
use crate::token::{EvalError, Token};
use crate::tokenizer::{
    digit_run_len, digits_value, is_digit, lemma_digit_run_all_digits, lemma_digit_run_len_is,
    lemma_digit_run_len_le, spec_next, spec_tokenize,
};

verus! {

/// Splicing two texts at this boundary splits no integer literal: not
/// both a digit on the left of the seam and a digit on the right of it.
pub open spec fn clean_boundary(a: Seq<char>, b: Seq<char>) -> bool {
    !(a.len() > 0 && is_digit(a.last()) && b.len() > 0 && is_digit(b[0]))
}

/// The scanning of two texts composes at a boundary that splits no
/// literal: the tokens of the spliced text are the tokens of the left
/// text followed by those of the right, and the first error of either,
/// left first, is the error of the whole.
pub proof fn lemma_tokenize_append(a: Seq<char>, b: Seq<char>)
    requires
        clean_boundary(a, b),
    ensures
        spec_tokenize(a + b) == match spec_tokenize(a) {
            Err(e) => Err::<Seq<Token>, EvalError>(e),
            Ok(ta) => match spec_tokenize(b) {
                Err(e) => Err::<Seq<Token>, EvalError>(e),
                Ok(tb) => Ok::<Seq<Token>, EvalError>(ta + tb),
            },
        },
    decreases a.len(),
{
    if a.len() == 0 {
        assert(a + b =~= b);
        if let Ok(tb) = spec_tokenize(b) {
            assert(Seq::<Token>::empty() + tb =~= tb);
        }
    } else {
        let s = a + b;
        assert(s[0] == a[0]);
        if is_digit(a[0]) {
            lemma_digit_run_append(a, b);
            lemma_digit_run_len_le(a);
            let k = digit_run_len(a) as int;
            assert(digit_run_len(s) == k) by {
                if k == a.len() {
                    lemma_digit_run_all_digits(a);
                    assert(is_digit(a.last()));
                    lemma_digit_run_len_is(b, 0);
                }
            }
            assert(s.take(k) =~= a.take(k));
            if digits_value(a.take(k)) <= i64::MAX {
                assert(s.skip(k) =~= a.skip(k) + b);
                assert(a.skip(k).len() > 0 ==> a.skip(k).last() == a.last());
                lemma_tokenize_append(a.skip(k), b);
                step_glue(Token::Int(digits_value(a.take(k)) as i64), a.skip(k), b);
            }
        } else if a[0] == '+' || a[0] == '*' || a[0] == '(' || a[0] == ')' {
            let t = spec_next_token(a[0]);
            assert(s.skip(1) =~= a.skip(1) + b);
            assert(a.skip(1).len() > 0 ==> a.skip(1).last() == a.last());
            lemma_tokenize_append(a.skip(1), b);
            step_glue(t, a.skip(1), b);
        } else {
            assert(s.skip(1) =~= a.skip(1) + b);
            assert(a.skip(1).len() > 0 ==> a.skip(1).last() == a.last());
            lemma_tokenize_append(a.skip(1), b);
        }
    }
}

/// The token that one operator or delimiter character scans to.
spec fn spec_next_token(c: char) -> Token {
    if c == '+' {
        Token::Add
    } else if c == '*' {
        Token::Mul
    } else if c == '(' {
        Token::LParen
    } else {
        Token::RParen
    }
}

/// After the first token `t` of the left text is peeled off, the two ways
/// of grouping the remaining tokens agree.
proof fn step_glue(t: Token, a1: Seq<char>, b: Seq<char>)
    requires
        spec_tokenize(a1 + b) == match spec_tokenize(a1) {
            Err(e) => Err::<Seq<Token>, EvalError>(e),
            Ok(ta) => match spec_tokenize(b) {
                Err(e) => Err::<Seq<Token>, EvalError>(e),
                Ok(tb) => Ok::<Seq<Token>, EvalError>(ta + tb),
            },
        },
    ensures
        (match spec_tokenize(a1 + b) {
            Err(e) => Err::<Seq<Token>, EvalError>(e),
            Ok(ts) => Ok::<Seq<Token>, EvalError>(seq![t] + ts),
        }) == match (match spec_tokenize(a1) {
            Err(e) => Err::<Seq<Token>, EvalError>(e),
            Ok(ta) => Ok::<Seq<Token>, EvalError>(seq![t] + ta),
        }) {
            Err(e) => Err::<Seq<Token>, EvalError>(e),
            Ok(ta) => match spec_tokenize(b) {
                Err(e) => Err::<Seq<Token>, EvalError>(e),
                Ok(tb) => Ok::<Seq<Token>, EvalError>(ta + tb),
            },
        },
{
    if let Ok(ta) = spec_tokenize(a1) {
        if let Ok(tb) = spec_tokenize(b) {
            assert(seq![t] + (ta + tb) =~= (seq![t] + ta) + tb);
        }
    }
}

/// The maximal digit run of a spliced text: the left text's own run when
/// that run stops before the left text's end, and otherwise the left
/// text, all digits, prolonged by the right text's run.
pub proof fn lemma_digit_run_append(a: Seq<char>, b: Seq<char>)
    ensures
        digit_run_len(a + b) == if digit_run_len(a) < a.len() {
            digit_run_len(a) as int
        } else {
            a.len() + digit_run_len(b) as int
        },
    decreases a.len(),
{
    lemma_digit_run_len_le(a);
    if a.len() == 0 {
        assert(a + b =~= b);
    } else {
        assert((a + b)[0] == a[0]);
        if is_digit(a[0]) {
            assert((a + b).skip(1) =~= a.skip(1) + b);
            lemma_digit_run_append(a.skip(1), b);
        }
    }
}

/// A single space scans to no token at all.
pub proof fn lemma_space_tokenize(b: Seq<char>)
    ensures
        spec_tokenize(seq![' '] + b) == spec_tokenize(b),
{
    lemma_tokenize_append(seq![' '], b);
    assert(spec_tokenize(seq![' ']) == Ok::<Seq<Token>, EvalError>(Seq::empty())) by {
        assert(seq![' '].skip(1) =~= Seq::<char>::empty());
        assert(spec_next(seq![' ']) == spec_next(Seq::<char>::empty()));
    }
    if let Ok(tb) = spec_tokenize(b) {
        assert(Seq::<Token>::empty() + tb =~= tb);
    }
}

/// Inserting an extra space at any boundary that splits no integer
/// literal changes neither the token sequence nor the value that either
/// evaluation regime gives the expression.
pub proof fn lemma_space_insensitive(a: Seq<char>, b: Seq<char>)
    requires
        clean_boundary(a, b),
    ensures
        spec_tokenize(a + seq![' '] + b) == spec_tokenize(a + b),
        flat_eval(a + seq![' '] + b) == flat_eval(a + b),
        prec_eval(a + seq![' '] + b) == prec_eval(a + b),
{
    lemma_tokenize_append(a, seq![' '] + b);
    lemma_space_tokenize(b);
    lemma_tokenize_append(a, b);
    assert(a + seq![' '] + b =~= a + (seq![' '] + b));
}

/// Both regimes are deterministic: the value of an expression — or the
/// error it is refused with — is a function of its text alone, so two
/// evaluations of equal texts agree.
pub proof fn lemma_deterministic(s1: Seq<char>, s2: Seq<char>)
    requires
        s1 == s2,
    ensures
        flat_eval(s1) == flat_eval(s2),
        prec_eval(s1) == prec_eval(s2),
{
}

/// An expression that is one decimal literal evaluates, under either
/// regime, to the literal's value.
pub proof fn lemma_literal_value(s: Seq<char>)
    requires
        s.len() > 0,
        forall|i: int| 0 <= i < s.len() ==> is_digit(#[trigger] s[i]),
        digits_value(s) <= i64::MAX,
    ensures
        flat_eval(s) == Ok::<i64, EvalError>(digits_value(s) as i64),
        prec_eval(s) == Ok::<i64, EvalError>(digits_value(s) as i64),
{
    lemma_digit_run_len_is(s, s.len() as int);
    assert(s.take(s.len() as int) =~= s);
    assert(s.skip(s.len() as int) =~= Seq::<char>::empty());
    let ts = seq![Token::Int(digits_value(s) as i64)];
    assert(spec_tokenize(s) == Ok::<Seq<Token>, EvalError>(ts)) by {
        assert(digits_value(s.take(s.len() as int)) == digits_value(s));
        assert(spec_tokenize(Seq::<char>::empty()) == Ok::<Seq<Token>, EvalError>(Seq::empty()));
        assert(seq![Token::Int(digits_value(s) as i64)] + Seq::<Token>::empty() =~= ts);
    }
    assert(ts.skip(1) =~= Seq::<Token>::empty());
}

} // verus!
