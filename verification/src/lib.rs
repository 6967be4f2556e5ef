//! Verified WebAssembly code-manipulation utilities and the canonical WSMM
//! semantic-metadata manifest codec.

pub mod analysis;
pub mod sink;
pub mod tags;
pub mod bytes;
pub mod instr;
pub mod lowering;
pub mod meta;
pub mod rewrite;
