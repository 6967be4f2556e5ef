//! Domain-separated SHA3-256 digests of canonical byte strings.

use sha3::Digest;
use vstd::prelude::*;
use vstd::string::StringSliceAdditionalSpecFns;
use super::format::le_bytes;

verus! {

/// The SHA3-256 digest of `data`.
pub uninterp spec fn sha3_256_of(data: Seq<u8>) -> Seq<u8>;

/// `sha3::Sha3_256::digest`, the one-shot SHA3-256 of the `sha3` crate.  The
/// contract claims that the result is the digest of exactly `data`: a
/// function of `data` alone, named [`sha3_256_of`]; nothing more is stated
/// of it.
#[verifier::external_body]
fn sha3_256(data: &[u8]) -> (digest: [u8; 32])
    ensures
        digest@ == sha3_256_of(data@),
{
    sha3::Sha3_256::digest(data).into()
}

/// The message that a domain-separated digest hashes: the domain, a zero
/// byte, the length of `bytes` as eight little-endian bytes, then `bytes`.
pub open spec fn domain_message(domain: Seq<u8>, bytes: Seq<u8>) -> Seq<u8> {
    domain + seq![0u8] + le_bytes(bytes.len(), 8) + bytes
}

/// Produces a domain-separated SHA3-256 digest used by v0.1 bindings.
pub fn hash_domain(domain: &[u8], bytes: &[u8]) -> (res: [u8; 32])
    ensures
        res@ == sha3_256_of(domain_message(domain@, bytes@)),
{
    let mut msg: Vec<u8> = vstd::slice::slice_to_vec(domain);
    msg.push(0);
    let mut len = bytes.len() as u64;
    let ghost start = msg@;
    let mut k: usize = 0;
    while k < 8
        invariant
            k <= 8,
            msg@ + le_bytes(len as nat, (8 - k) as nat) == start + le_bytes(bytes@.len(), 8),
        decreases 8 - k,
    {
        let ghost before = msg@;
        msg.push((len % 256) as u8);
        assert(le_bytes(len as nat, (8 - k) as nat) == seq![(len % 256) as u8] + le_bytes((len / 256) as nat, (8 - k - 1) as nat));
        assert(msg@ + le_bytes((len / 256) as nat, (8 - k - 1) as nat) =~= before + le_bytes(len as nat, (8 - k) as nat));
        len = len / 256;
        k += 1;
    }
    assert(le_bytes(len as nat, 0) =~= Seq::<u8>::empty());
    let mut tail = vstd::slice::slice_to_vec(bytes);
    msg.append(&mut tail);
    assert(msg@ =~= domain_message(domain@, bytes@));
    sha3_256(msg.as_slice())
}

/// The bytes of the domain of code digests.
pub open spec fn code_domain() -> Seq<u8> {
    "portal.wsmm.code.v1".spec_bytes()
}

/// The bytes of the domain of data digests.
pub open spec fn data_domain() -> Seq<u8> {
    "portal.wsmm.data.v1".spec_bytes()
}

/// The bytes of the domain of interface digests.
pub open spec fn interface_domain() -> Seq<u8> {
    "portal.wsmm.interface.v1".spec_bytes()
}

/// The bytes of the domain of semantic digests.
pub open spec fn semantic_domain() -> Seq<u8> {
    "portal.wsmm.semantic.v1".spec_bytes()
}

/// Hashes a canonical code-body sequence supplied by a module adapter.
pub fn code_hash(canonical_bodies: &[u8]) -> (res: [u8; 32])
    ensures
        res@ == sha3_256_of(domain_message(code_domain(), canonical_bodies@)),
{
    hash_domain("portal.wsmm.code.v1".as_bytes(), canonical_bodies)
}

/// Hashes a canonical data-segment sequence supplied by a module adapter.
pub fn data_hash(canonical_segments: &[u8]) -> (res: [u8; 32])
    ensures
        res@ == sha3_256_of(domain_message(data_domain(), canonical_segments@)),
{
    hash_domain("portal.wsmm.data.v1".as_bytes(), canonical_segments)
}

/// Hashes a canonical interface sequence, including table element segments.
pub fn interface_hash(canonical_interface: &[u8]) -> (res: [u8; 32])
    ensures
        res@ == sha3_256_of(domain_message(interface_domain(), canonical_interface@)),
{
    hash_domain("portal.wsmm.interface.v1".as_bytes(), canonical_interface)
}

} // verus!
