//! An evaluator for arithmetic expressions made of non-negative integer
//! literals, `+`, `*`, and parentheses, under two operator-precedence
//! regimes: a flat one, where `+` and `*` bind equally and fold strictly
//! left to right, and one where chains of `+` are folded before they are
//! used as an operand of `*`.

pub mod token;
pub mod tokenizer;
pub mod stream;
pub mod flat;
pub mod prec;
pub mod laws;

pub use token::{EvalError, Token};
pub use tokenizer::Tokenizer;
pub use stream::TokenStream;
pub use flat::eval;
pub use prec::fval;
