//! Incremental, zero-copy parsers for the lexical core of a line-and-literal
//! text protocol (the IMAP4 primitive grammar): numbers, atoms, quoted
//! strings, length-prefixed literals, and nullable strings.
//!
//! Input may arrive in arbitrary chunks, so every parser distinguishes three
//! outcomes: a value together with the remaining unconsumed suffix of the
//! input, a request for more bytes (retry from the same offset once they
//! arrive), and a definite grammar violation.

pub mod chars;
pub mod combinators;
pub mod laws;
pub mod literal;
pub mod outcome;
pub mod quoted;
pub mod scalars;
pub mod strings;
