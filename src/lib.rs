//! A small expression language: a scanner, a Pratt-style compiler to bytecode,
//! a bytecode chunk with a run-length line table, a stack machine that runs it,
//! and an open-addressing hash table.
//!
//! Numbers are IEEE-754 doubles held as their bit pattern. Everything that needs
//! floating-point hardware (reading a numeric literal, arithmetic, numeric
//! comparison) is done by the caller: the compiler takes the literals' values as
//! bit patterns, and the machine stops with a request whenever it needs one of
//! those operations.

pub mod chunk;
pub mod compiler;
pub mod lexer;
pub mod table;
pub mod token;
pub mod value;
pub mod vm;
