//! A scannerless parser-combinator engine with machine-checked contracts.
//!
//! Every parser is described by a mathematical function from the remaining
//! input to an [`Outcome`]; the executable `parse` of each parser is proved to
//! compute exactly that function.

pub mod outcome;
pub mod text;
pub mod primitives;
pub mod combinators;
pub mod laws;

pub use outcome::{Outcome, ParseResult, Parser};
pub use primitives::{
    is_ascii_digit, is_keyword, parse_identifier, parse_literal, parse_literals, parse_number_token,
    parse_tok_with_rule, Identifier, Literal, Literals, NumberToken, Token,
};
pub use combinators::{
    and, one_or_more, option, or, prefix, suffix, surround, zero_or_more, And, Mapped, OneOrMore,
    Opt, Or, Prefix, Suffix, ZeroOrMore,
};
