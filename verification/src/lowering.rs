//! Code transformation (lowering) passes for WASM.
//!
//! - [`clean_rets`]: return values travel through globals and a status code
//! - [`globalize`]: globals travel through parameters, results and locals

pub mod clean_rets;
pub mod globalize;
