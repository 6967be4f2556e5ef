//! Canonical v0.1 WASM semantic metadata manifests.
//!
//! A manifest is source-neutral: it may be carried by a WASM custom section or
//! supplied by an embedding context.  Whether a consumer acts on it is an
//! explicit [`MetadataMode`] decision.

pub mod canonical;
pub mod context;
pub mod decode;
pub mod encode;
pub mod error;
pub mod format;
pub mod hash;
pub mod keys;
pub mod leb;
pub mod manifest;
pub mod model;
pub mod parse;
pub mod roundtrip;
pub mod semantic;
pub mod value;

pub use context::{MetadataContext, MetadataMode, WasmMetadataContext, WasmMetadataMutContext};
pub use error::Error;
pub use hash::{code_hash, data_hash, hash_domain, interface_hash};
pub use keys::is_standard_key;
pub use manifest::{Manifest, MetadataSnapshot, MAGIC, SECTION_NAME, VERSION};
pub use value::{Limits, Value};
