//! A small register-based virtual machine for an assembly-like language.
//!
//! - `lexer`: source text to tokens.
//! - `parser`: tokens to functions of labelled blocks of textual instructions.
//! - `link`: those functions to a `bytecode::Module`, with labels, function names,
//!   registers and literals resolved to indices.
//! - `value`: the NaN-boxed 64-bit value.
//! - `machina`: the interpreter, driven one instruction at a time.
//!
//! The machine leaves two kinds of work to its host: printing what `WRITE` hands
//! out, and every operation on doubles, which it hands out as a request and
//! takes back as a value.
pub mod value;
pub mod bytecode;
pub mod error;
pub mod lexer;
pub mod parser;
pub mod link;
pub mod machina;
