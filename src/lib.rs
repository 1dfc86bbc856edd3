//! A compiler from bracket-structured source text to a flat instruction
//! sequence, and an interpreter that runs that sequence on a tape of bytes.

pub mod interpreter;
pub mod parser;
