use vstd::prelude::*;
use vstd::string::StrSliceExecFns;

use crate::token::{EvalError, Token};

verus! {

/// Whether `c` is a decimal digit.
pub open spec fn is_digit(c: char) -> bool {
    '0' as u32 <= c as u32 && c as u32 <= '9' as u32
}

/// The numeric value of a decimal digit.
pub open spec fn digit_val(c: char) -> int {
    c as u32 - '0' as u32
}

/// Length of the maximal prefix of `s` made of decimal digits.
pub open spec fn digit_run_len(s: Seq<char>) -> nat
    decreases s.len(),
{
    if s.len() > 0 && is_digit(s[0]) {
        (1 + digit_run_len(s.skip(1))) as nat
    } else {
        0
    }
}

/// The value of a digit string, read most significant digit first.
pub open spec fn digits_value(s: Seq<char>) -> int
    decreases s.len(),
{
    if s.len() == 0 {
        0
    } else {
        digits_value(s.drop_last()) * 10 + digit_val(s.last())
    }
}

/// The first token of `s` together with the characters that remain after
/// it: `Ok(None)` when no token remains, and `Err(Overflow)` when the
/// leading literal does not fit in an `i64`. Characters that start no
/// token (whitespace among them) are skipped silently.
pub open spec fn spec_next(s: Seq<char>) -> Result<Option<(Token, Seq<char>)>, EvalError>
    decreases s.len(),
{
    if s.len() == 0 {
        Ok(None)
    } else if s[0] == '+' {
        Ok(Some((Token::Add, s.skip(1))))
    } else if s[0] == '*' {
        Ok(Some((Token::Mul, s.skip(1))))
    } else if s[0] == '(' {
        Ok(Some((Token::LParen, s.skip(1))))
    } else if s[0] == ')' {
        Ok(Some((Token::RParen, s.skip(1))))
    } else if is_digit(s[0]) {
        if digits_value(s.take(digit_run_len(s) as int)) <= i64::MAX {
            Ok(Some((
                Token::Int(digits_value(s.take(digit_run_len(s) as int)) as i64),
                s.skip(digit_run_len(s) as int),
            )))
        } else {
            Err(EvalError::Overflow)
        }
    } else {
        spec_next(s.skip(1))
    }
}

/// A digit run is never longer than the characters it is read from.
pub proof fn lemma_digit_run_len_le(s: Seq<char>)
    ensures
        digit_run_len(s) <= s.len(),
    decreases s.len(),
{
    if s.len() > 0 && is_digit(s[0]) {
        lemma_digit_run_len_le(s.skip(1));
    }
}

/// A token is made of at least one character.
pub proof fn lemma_spec_next_consumes(s: Seq<char>)
    ensures
        spec_next(s) matches Ok(Some((t, rest))) ==> rest.len() < s.len(),
    decreases s.len(),
{
    if s.len() > 0 {
        if is_digit(s[0]) {
            lemma_digit_run_len_le(s);
            assert(digit_run_len(s) >= 1);
        } else {
            lemma_spec_next_consumes(s.skip(1));
        }
    }
}

/// The complete token sequence of `s`, or the error met while scanning.
pub open spec fn spec_tokenize(s: Seq<char>) -> Result<Seq<Token>, EvalError>
    decreases s.len(),
    via spec_tokenize_decreases
{
    match spec_next(s) {
        Err(e) => Err(e),
        Ok(None) => Ok(Seq::empty()),
        Ok(Some((t, rest))) => match spec_tokenize(rest) {
            Err(e) => Err(e),
            Ok(ts) => Ok(seq![t] + ts),
        },
    }
}

#[via_fn]
proof fn spec_tokenize_decreases(s: Seq<char>) {
    lemma_spec_next_consumes(s);
}

/// Every character inside the maximal digit run is a digit.
pub proof fn lemma_digit_run_all_digits(s: Seq<char>)
    ensures
        forall|j: int| 0 <= j < digit_run_len(s) ==> is_digit(#[trigger] s[j]),
    decreases s.len(),
{
    if s.len() > 0 && is_digit(s[0]) {
        lemma_digit_run_len_le(s);
        lemma_digit_run_len_le(s.skip(1));
        lemma_digit_run_all_digits(s.skip(1));
        assert forall|j: int| 0 <= j < digit_run_len(s) implies is_digit(#[trigger] s[j]) by {
            if j > 0 {
                assert(is_digit(s.skip(1)[j - 1]));
                assert(s.skip(1)[j - 1] == s[j]);
            }
        }
    }
}

/// The maximal digit run is exactly the digits up to the first non-digit.
pub proof fn lemma_digit_run_len_is(s: Seq<char>, m: int)
    requires
        0 <= m <= s.len(),
        forall|j: int| 0 <= j < m ==> is_digit(#[trigger] s[j]),
        m == s.len() || !is_digit(s[m]),
    ensures
        digit_run_len(s) == m,
    decreases m,
{
    if m == 0 {
    } else {
        lemma_digit_run_len_is(s.skip(1), m - 1);
    }
}

/// A prefix of digits bounds the maximal run from below.
pub proof fn lemma_digit_run_len_at_least(s: Seq<char>, m: int)
    requires
        0 <= m <= s.len(),
        forall|j: int| 0 <= j < m ==> is_digit(#[trigger] s[j]),
    ensures
        digit_run_len(s) >= m,
    decreases m,
{
    if m > 0 {
        lemma_digit_run_len_at_least(s.skip(1), m - 1);
    }
}

/// The value of a digit string is never negative.
pub proof fn lemma_digits_value_nonneg(s: Seq<char>)
    requires
        forall|j: int| 0 <= j < s.len() ==> is_digit(#[trigger] s[j]),
    ensures
        digits_value(s) >= 0,
    decreases s.len(),
{
    if s.len() > 0 {
        lemma_digits_value_nonneg(s.drop_last());
    }
}

/// Reading one more digit multiplies the value by ten and adds the digit.
pub proof fn lemma_digits_value_step(s: Seq<char>, m: int)
    requires
        0 <= m < s.len(),
    ensures
        digits_value(s.take(m + 1)) == digits_value(s.take(m)) * 10 + digit_val(s[m]),
{
    assert(s.take(m + 1).drop_last() =~= s.take(m));
    assert(s.take(m + 1).last() == s[m]);
}

/// A digit string's value only grows as more of its digits are read.
pub proof fn lemma_digits_value_mono(s: Seq<char>, m: int, n: int)
    requires
        0 <= m <= n <= s.len(),
        forall|j: int| 0 <= j < n ==> is_digit(#[trigger] s[j]),
    ensures
        digits_value(s.take(m)) <= digits_value(s.take(n)),
    decreases n - m,
{
    if m < n {
        lemma_digits_value_mono(s, m + 1, n);
        lemma_digits_value_step(s, m);
        assert(forall|j: int| 0 <= j < m ==> is_digit(#[trigger] s.take(m)[j]));
        lemma_digits_value_nonneg(s.take(m));
        assert(digit_val(s[m]) >= 0);
    }
}

/// Scans a character sequence into tokens, one call of `next` at a time.
/// The stream is forward-only: consumed characters are never revisited.
pub struct Tokenizer {
    chars: Vec<char>,
    pos: usize,
}

impl Tokenizer {
    /// The characters not yet consumed.
    pub closed spec fn remaining(self) -> Seq<char> {
        self.chars@.skip(self.pos as int)
    }

    /// The read position never passes the end of the source.
    pub closed spec fn wf(self) -> bool {
        self.pos <= self.chars.len()
    }

    pub fn new(source: Vec<char>) -> (t: Tokenizer)
        ensures
            t.wf(),
            t.remaining() == source@,
    {
        let t = Tokenizer { chars: source, pos: 0 };
        proof {
            assert(t.remaining() =~= t.chars@);
        }
        t
    }

    /// Reads the integer literal that starts with the already-consumed
    /// digit `first`, greedily taking every immediately following digit.
    /// The literal's value must fit in an `i64`; a wider one is overflow.
    pub fn parse_num(&mut self, first: char) -> (r: Result<Token, EvalError>)
        requires
            old(self).wf(),
            is_digit(first),
        ensures
            final(self).wf(),
            ({
                let g = seq![first] + old(self).remaining();
                let k = digit_run_len(g) as int;
                if digits_value(g.take(k)) <= i64::MAX {
                    r == Ok::<Token, EvalError>(Token::Int(digits_value(g.take(k)) as i64))
                        && final(self).remaining() == g.skip(k)
                } else {
                    r == Err::<Token, EvalError>(EvalError::Overflow)
                }
            }),
    {
        let ghost g = seq![first] + old(self).remaining();
        let ghost k = digit_run_len(g) as int;
        proof {
            lemma_digit_run_len_le(g);
            lemma_digit_run_all_digits(g);
            assert(g.take(1) =~= seq![first]);
            assert(digits_value(g.take(1)) == digit_val(first)) by {
                assert(g.take(1).len() == 1);
                assert(g.take(1).last() == first);
                assert(g.take(1).drop_last() =~= Seq::<char>::empty());
                assert(digits_value(Seq::<char>::empty()) == 0);
            }
        }
        let mut acc: i64 = (first as u32 - '0' as u32) as i64;
        let mut read: usize = 0;
        loop
            invariant
                self.wf(),
                self.chars@ == old(self).chars@,
                self.pos == old(self).pos + read,
                read < g.len(),
                g == seq![first] + old(self).remaining(),
                k == digit_run_len(g),
                forall|j: int| 0 <= j < read + 1 ==> is_digit(#[trigger] g[j]),
                acc == digits_value(g.take(read + 1)),
                0 <= acc <= i64::MAX,
            decreases g.len() - read,
        {
            proof {
                lemma_digit_run_len_le(g);
                lemma_digit_run_all_digits(g);
            }
            if self.pos == self.chars.len() {
                proof {
                    lemma_digit_run_len_is(g, read + 1);
                }
                return Ok(Token::Int(acc));
            }
            let c = self.chars[self.pos];
            proof {
                assert(c == g[read + 1]);
            }
            let u = c as u32;
            if u < '0' as u32 || u > '9' as u32 {
                proof {
                    lemma_digit_run_len_is(g, read + 1);
                }
                return Ok(Token::Int(acc));
            }
            let d = (u - '0' as u32) as i64;
            proof {
                lemma_digit_run_len_at_least(g, read + 2);
                lemma_digits_value_step(g, read + 1);
            }
            let next = match acc.checked_mul(10) {
                Some(m) => m.checked_add(d),
                None => None,
            };
            match next {
                Some(v) => {
                    acc = v;
                }
                None => {
                    proof {
                        lemma_digits_value_mono(g, read + 2, k);
                    }
                    return Err(EvalError::Overflow);
                }
            }
            self.pos = self.pos + 1;
            read = read + 1;
        }
    }

    /// Produces the next token, skipping characters that start none, or
    /// `Ok(None)` once the source is exhausted.
    pub fn next(&mut self) -> (r: Result<Option<Token>, EvalError>)
        requires
            old(self).wf(),
        ensures
            final(self).wf(),
            match spec_next(old(self).remaining()) {
                Ok(Some((t, rest))) => r == Ok::<Option<Token>, EvalError>(Some(t))
                    && final(self).remaining() == rest,
                Ok(None) => r == Ok::<Option<Token>, EvalError>(None),
                Err(e) => r == Err::<Option<Token>, EvalError>(e),
            },
    {
        loop
            invariant
                self.wf(),
                spec_next(self.remaining()) == spec_next(old(self).remaining()),
            decreases self.remaining().len(),
        {
            if self.pos == self.chars.len() {
                return Ok(None);
            }
            let ghost cur = self.remaining();
            let c = self.chars[self.pos];
            self.pos = self.pos + 1;
            proof {
                assert(c == cur[0]);
                assert(self.remaining() =~= cur.skip(1));
            }
            if c == '+' {
                return Ok(Some(Token::Add));
            } else if c == '*' {
                return Ok(Some(Token::Mul));
            } else if c == '(' {
                return Ok(Some(Token::LParen));
            } else if c == ')' {
                return Ok(Some(Token::RParen));
            } else if '0' as u32 <= c as u32 && c as u32 <= '9' as u32 {
                proof {
                    assert(seq![c] + self.remaining() =~= cur);
                }
                return match self.parse_num(c) {
                    Ok(t) => Ok(Some(t)),
                    Err(e) => Err(e),
                };
            }
        }
    }
}

/// The characters of `s`, in order.
pub fn chars_of(s: &str) -> (r: Vec<char>)
    ensures
        r@ == s@,
{
    let n = s.unicode_len();
    let mut out: Vec<char> = Vec::new();
    let mut i: usize = 0;
    while i < n
        invariant
            i <= n,
            n == s@.len(),
            out@ == s@.take(i as int),
        decreases n - i,
    {
        let c = s.get_char(i);
        out.push(c);
        proof {
            assert(out@ =~= s@.take(i + 1));
        }
        i = i + 1;
    }
    proof {
        assert(s@.take(n as int) =~= s@);
    }
    out
}

/// Scans `source` into its complete token sequence; the first scanning
/// error, if any, is the result.
pub fn tokenize(source: Vec<char>) -> (r: Result<Vec<Token>, EvalError>)
    ensures
        match spec_tokenize(source@) {
            Ok(ts) => r matches Ok(v) && v@ == ts,
            Err(e) => r == Err::<Vec<Token>, EvalError>(e),
        },
{
    let ghost src = source@;
    let mut tk = Tokenizer::new(source);
    let mut out: Vec<Token> = Vec::new();
    loop
        invariant
            tk.wf(),
            src == source@,
            spec_tokenize(src) == (match spec_tokenize(tk.remaining()) {
                Ok(ts) => Ok::<Seq<Token>, EvalError>(out@ + ts),
                Err(e) => Err::<Seq<Token>, EvalError>(e),
            }),
        decreases tk.remaining().len(),
    {
        let ghost cur = tk.remaining();
        let ghost prev = out@;
        match tk.next() {
            Ok(Some(t)) => {
                proof {
                    lemma_spec_next_consumes(cur);
                }
                out.push(t);
                proof {
                    if let Ok(ts) = spec_tokenize(tk.remaining()) {
                        assert(prev + (seq![t] + ts) =~= out@ + ts);
                    }
                }
            }
            Ok(None) => {
                proof {
                    assert(prev + Seq::<Token>::empty() =~= prev);
                }
                return Ok(out);
            }
            Err(e) => {
                return Err(e);
            }
        }
    }
}

} // verus!
