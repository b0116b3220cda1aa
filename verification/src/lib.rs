//! A small collection of utilities: an arithmetic expression tokenizer with
//! its left-to-right reduction rule, and a command-line flag registry.

pub mod cli;
pub mod math;
pub mod math_lemmas;
pub mod text;
