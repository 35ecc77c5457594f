//! A verified assembler and disassembler for a small fixed instruction set.
//!
//! Source text is a line-oriented script of semicolon-terminated statements
//! (`mnemonic [operand];`, comments introduced by `//`, `#` or `%`). The
//! assembler translates it into a length-prefixed binary container of
//! `(opcode, operand)` byte pairs; the disassembler performs the inverse
//! translation. Text is handled as bytes throughout; the host turns files
//! into lines of bytes and renders diagnostics.

pub mod ascii;
pub mod compiler;
pub mod decompiler;
pub mod errors;
pub mod lexer;
pub mod roundtrip;
pub mod table;
