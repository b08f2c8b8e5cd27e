//! Front end of a compiler for a small typed declaration language: a
//! tokenizer that turns source text into positioned tokens, a streaming
//! declaration parser that consumes one token at a time, and the binary
//! encoding of the declaration section, including the bitmap of `main`'s
//! malleable parameters.

pub mod ast;
pub mod compiler;
pub mod lexer;
