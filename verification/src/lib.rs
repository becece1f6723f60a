//! A compiler and interpreter for a minimal eight-command tape language.
//!
//! Source text is parsed into a tree of operations (`brainfuck`), rewritten by
//! a peephole optimizer, and either evaluated directly against a bounded cell
//! tape (`interp`) or lowered to stack-machine instructions and serialized as
//! a complete WebAssembly binary module (`wasm`), with all variable-length
//! integers produced by the LEB128 codec (`leb128`).

pub mod brainfuck;
pub mod interp;
pub mod leb128;
pub mod wasm;
