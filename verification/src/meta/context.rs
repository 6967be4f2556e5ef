//! How an embedder hands a manifest, and the decision to act on it, to the
//! code that transforms a module.

use vstd::prelude::*;
use super::format::keys_valid_entries;
use super::manifest::{semantic_digest, semantic_entries, Manifest, MetadataSnapshot};

verus! {

/// Consumers must opt in to semantic effects. `RespectUnstable` is
/// intentionally source-neutral and does not authenticate a manifest.
#[derive(Clone, Copy, Debug, PartialEq, Eq)]
pub enum MetadataMode {
    Ignore,
    RespectUnstable,
    RequireSignature,
}

impl Default for MetadataMode {
    fn default() -> (res: Self)
        ensures
            res == MetadataMode::Ignore,
    {
        MetadataMode::Ignore
    }
}

/// Context capability used by Wax lazy transforms and whole-module adapters.
pub trait WasmMetadataContext {
    fn metadata_snapshot(&self) -> Option<MetadataSnapshot>;

    fn metadata(&self) -> Option<&Manifest>;

    fn metadata_mode(&self) -> MetadataMode;
}

/// A context whose manifest can be edited in place.
pub trait WasmMetadataMutContext: WasmMetadataContext {
    fn metadata_mut(&mut self) -> Option<&mut Manifest>;
}

/// A simple owned context implementation for embedders and tests.
#[derive(Debug)]
pub struct MetadataContext {
    pub manifest: Option<Manifest>,
    pub mode: MetadataMode,
}

impl Default for MetadataContext {
    fn default() -> (res: Self)
        ensures
            res.manifest is None,
            res.mode == MetadataMode::Ignore,
    {
        MetadataContext { manifest: None, mode: MetadataMode::Ignore }
    }
}

impl WasmMetadataContext for MetadataContext {
    /// The snapshot of the manifest, when there is one whose keys are all
    /// canonical.
    fn metadata_snapshot(&self) -> (res: Option<MetadataSnapshot>)
        ensures
            match self.manifest {
                None => res is None,
                Some(m) => if keys_valid_entries(semantic_entries(m@)) {
                    res matches Some(s) && s.0@ == semantic_digest(m@)
                } else {
                    res is None
                },
            },
    {
        match &self.manifest {
            Some(m) => match m.snapshot() {
                Ok(s) => Some(s),
                Err(_) => None,
            },
            None => None,
        }
    }

    fn metadata(&self) -> (res: Option<&Manifest>)
        ensures
            res == match self.manifest {
                Some(m) => Some(&m),
                None => None::<&Manifest>,
            },
    {
        match &self.manifest {
            Some(m) => Some(m),
            None => None,
        }
    }

    fn metadata_mode(&self) -> (res: MetadataMode)
        ensures
            res == self.mode,
    {
        self.mode
    }
}

impl WasmMetadataMutContext for MetadataContext {
    /// The manifest, to edit in place: what is written through the
    /// reference becomes the context's manifest.
    fn metadata_mut(&mut self) -> (res: Option<&mut Manifest>)
        ensures
            final(self).mode == old(self).mode,
            match res {
                Some(r) => old(self).manifest == Some(*r) && final(self).manifest == Some(*final(r)),
                None => old(self).manifest is None && final(self).manifest is None,
            },
    {
        self.manifest.as_mut()
    }
}

} // verus!
