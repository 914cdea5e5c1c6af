//! A streaming JSON-repair filter.
//!
//! The library consumes a byte stream of "almost-JSON" text and emits a byte
//! stream of syntactically repaired JSON: wrong quoting is normalized, missing
//! or duplicated separators are inserted or dropped, relaxed bareword literals
//! are canonicalized, and mismatched brackets are balanced.  Every byte
//! sequence produces some output; nothing is ever reported as an error.
//!
//! The pipeline has two stages: a byte-driven [`lexer`] that groups raw input
//! into lexemes while carrying their original text, and a repairing [`parser`]
//! that runs a push-down state machine over the lexeme stream and emits a
//! fixed, canonical token stream.  [`pipeline`] wires the stages together
//! over in-memory bytes or over the chunked source of [`chunks`], and
//! [`generator`] produces random valid JSON for seeding tests.

pub mod chunks;
pub mod generator;
pub mod lexer;
pub mod parser;
pub mod pipeline;
