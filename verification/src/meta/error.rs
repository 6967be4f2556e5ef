use vstd::prelude::*;

verus! {

/// Why a manifest could not be encoded or decoded.
#[derive(Clone, Debug, PartialEq, Eq)]
pub enum Error {
    Magic,
    Version(u8),
    Flags(u8),
    Eof,
    Leb,
    NonCanonicalLeb,
    Utf8,
    InvalidKey,
    DuplicateKey,
    InvalidBool,
    UnknownTag(u8),
    Limit(&'static str),
    TrailingBytes,
    InvalidValue,
}

} // verus!
