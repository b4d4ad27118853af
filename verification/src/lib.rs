//! A verified single-pass lexer for arithmetic expressions.
//!
//! The input is one finite piece of text; the output is the ordered sequence
//! of classified tokens (numbers, the four operators, parentheses), each
//! carrying the line and column range of its matched text. Whitespace and
//! newlines are consumed silently; any other character outside the alphabet
//! is skipped and recorded as a diagnostic, and never stops the scan.

pub mod laws;
pub mod lexer;
pub mod token;
