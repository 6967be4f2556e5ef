//! The keys that the v0.1 specification gives a meaning to.

use vstd::prelude::*;
use vstd::string::StringSliceAdditionalSpecFns;
use crate::bytes::{bytes_eq, starts_with};

verus! {

/// Whether `k` starts with the bytes `p`.
pub open spec fn has_prefix(k: Seq<u8>, p: Seq<u8>) -> bool {
    p.len() <= k.len() && k.subrange(0, p.len() as int) == p
}

/// Whether the key with bytes `k` is one the specification defines: one of
/// twelve names, or a name under `memory/`, `data/`, `table/` or `semantic/`.
pub open spec fn standard_key(k: Seq<u8>) -> bool {
    ||| k == "format.version".spec_bytes()
    ||| k == "hash.algorithm".spec_bytes()
    ||| k == "hash.code".spec_bytes()
    ||| k == "hash.data".spec_bytes()
    ||| k == "hash.interface".spec_bytes()
    ||| k == "hash.semantic".spec_bytes()
    ||| k == "memory.count".spec_bytes()
    ||| k == "abi.name".spec_bytes()
    ||| k == "abi.version".spec_bytes()
    ||| k == "abi.entrypoints".spec_bytes()
    ||| k == "semantics.deterministic".spec_bytes()
    ||| k == "semantics.traps".spec_bytes()
    ||| has_prefix(k, "memory/".spec_bytes())
    ||| has_prefix(k, "data/".spec_bytes())
    ||| has_prefix(k, "table/".spec_bytes())
    ||| has_prefix(k, "semantic/".spec_bytes())
}

/// Whether `key` is one the specification defines.
pub fn is_standard_key(key: &str) -> (res: bool)
    ensures
        res == standard_key(key.spec_bytes()),
{
    let k = key.as_bytes();
    bytes_eq(k, "format.version".as_bytes())
        || bytes_eq(k, "hash.algorithm".as_bytes())
        || bytes_eq(k, "hash.code".as_bytes())
        || bytes_eq(k, "hash.data".as_bytes())
        || bytes_eq(k, "hash.interface".as_bytes())
        || bytes_eq(k, "hash.semantic".as_bytes())
        || bytes_eq(k, "memory.count".as_bytes())
        || bytes_eq(k, "abi.name".as_bytes())
        || bytes_eq(k, "abi.version".as_bytes())
        || bytes_eq(k, "abi.entrypoints".as_bytes())
        || bytes_eq(k, "semantics.deterministic".as_bytes())
        || bytes_eq(k, "semantics.traps".as_bytes())
        || starts_with(k, "memory/".as_bytes())
        || starts_with(k, "data/".as_bytes())
        || starts_with(k, "table/".as_bytes())
        || starts_with(k, "semantic/".as_bytes())
}

/// The keys the specification defines include its twelve names and every
/// key under `memory/`, `data/`, `table/` and `semantic/`.
pub proof fn lemma_defined_keys(k: Seq<u8>)
    ensures
        k == "format.version".spec_bytes() || k == "hash.algorithm".spec_bytes() || k == "hash.code".spec_bytes()
            || k == "hash.data".spec_bytes() || k == "hash.interface".spec_bytes() || k == "hash.semantic".spec_bytes()
            || k == "memory.count".spec_bytes() || k == "abi.name".spec_bytes() || k == "abi.version".spec_bytes()
            || k == "abi.entrypoints".spec_bytes() || k == "semantics.deterministic".spec_bytes()
            || k == "semantics.traps".spec_bytes() ==> standard_key(k),
        has_prefix(k, "memory/".spec_bytes()) ==> standard_key(k),
        has_prefix(k, "data/".spec_bytes()) ==> standard_key(k),
        has_prefix(k, "table/".spec_bytes()) ==> standard_key(k),
        has_prefix(k, "semantic/".spec_bytes()) ==> standard_key(k),
{
}

} // verus!
