//! A single-pass bytecode compiler and stack-based virtual machine for a
//! small dynamically-typed scripting language.
//!
//! Source text is lexed into tokens, compiled by a precedence-climbing
//! parser directly into a bytecode [`chunk::Chunk`], and executed by the
//! [`vm::VM`] fetch-dispatch loop.  The compiler guarantees that every
//! chunk it produces is well formed (constant-pool indices in range, jump
//! targets inside the code, line table consistent), and the machine is
//! verified never to panic on a well-formed chunk.

pub mod chunk;
pub mod compiler;
pub mod laws;
pub mod scanner;
pub mod token;
pub mod value;
pub mod vm;
