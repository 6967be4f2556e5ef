//! Code analysis utilities for WASM bytecode.
//!
//! - [`dce`]: Dead code elimination analysis
//! - [`scf`]: Structured control flow analysis

pub mod dce;
pub mod scf;
