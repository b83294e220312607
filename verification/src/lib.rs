//! A byte-oriented parser-combinator library.
//!
//! A parser consumes a prefix of an input byte slice and either succeeds with a
//! value plus the remaining input, or fails with a short reason. Combinators
//! compose parsers into larger parsers (sequencing, alternation, repetition,
//! lookahead, negation) without any shared mutable state: every parser is a pure
//! function of its input and of the parsers it was built from.
//!
//! Each parser carries a specification of its own behaviour — whether it
//! succeeds on a given input, what input it leaves and what value it produces —
//! and its executable side is proved against that specification.

pub mod branch;
pub mod parser;
pub mod repeat;
pub mod scan;
pub mod sequence;
