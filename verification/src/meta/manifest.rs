//! The manifest: a sorted map from canonical keys to typed values.

use vstd::prelude::*;
use crate::bytes::bytes_eq;
use super::decode::{lex_less, Decoder};
use super::encode::{encode_entries, encode_entry, lemma_keys_valid_entries_prefix, validate_key};
use super::hash::{domain_message, hash_domain, semantic_domain, sha3_256_of};
use vstd::string::StringSliceAdditionalSpecFns;
use super::error::Error;
use super::format::{
    dicts_sorted, dicts_sorted_entries, lemma_dicts_sorted_entries_all, enc_entries, enc_manifest, key_bytes, keys_valid_entries, keys_valid_entry, lemma_key_bytes_injective, lemma_lex_total,
    lemma_lex_transitive, lex_lt, magic_bytes, sorted_keys, valid_key,
};
use super::leb::put_u64;
use super::model::{
    distinct_keys, entries_map, lemma_entries_map, lemma_entries_map_insert,
    lemma_entries_map_remove, lemma_entries_map_update, lemma_sorted_distinct, well_formed,
};
use super::parse::spec_decode;
use super::value::{entries_view, lemma_entries_view, Limits, Value, ValueView};

verus! {

/// The name of the WASM custom section that carries a manifest.
pub const SECTION_NAME: &'static str = "portal.wasm.meta.v1";

/// The magic bytes `WSMM` that open a manifest payload.
pub const MAGIC: [u8; 4] = [87, 83, 77, 77];

/// The format version this library reads and writes.
pub const VERSION: u8 = 1;

const HEADER_LEN: usize = 6;

/// A source-neutral WSMM v0.1 key-value map.
#[derive(Debug, PartialEq, Eq)]
pub struct Manifest {
    entries: Vec<(String, Value)>,
}

impl View for Manifest {
    type V = Seq<(Seq<char>, ValueView)>;

    /// The entries, sorted by the bytes of their keys.
    closed spec fn view(&self) -> Seq<(Seq<char>, ValueView)> {
        entries_view(self.entries@)
    }
}

impl Default for Manifest {
    /// An empty manifest, as [`Manifest::new`].
    fn default() -> (res: Self)
        ensures
            res@ == Seq::<(Seq<char>, ValueView)>::empty(),
    {
        Manifest::new()
    }
}

impl Manifest {
    #[verifier::type_invariant]
    spec fn inv(self) -> bool {
        &&& well_formed(entries_view(self.entries@))
        &&& dicts_sorted_entries(entries_view(self.entries@))
    }

    /// The key-value map the manifest holds.
    pub open spec fn as_map(&self) -> Map<Seq<char>, ValueView> {
        entries_map(self@)
    }

    /// An empty manifest.
    pub fn new() -> (res: Self)
        ensures
            res@ == Seq::<(Seq<char>, ValueView)>::empty(),
    {
        Manifest { entries: Vec::new() }
    }

    /// The entries, sorted by the bytes of their keys.
    pub fn entries(&self) -> (res: &Vec<(String, Value)>)
        ensures
            entries_view(res@) == self@,
            well_formed(self@),
            dicts_sorted_entries(self@),
    {
        proof {
            use_type_invariant(self);
        }
        &self.entries
    }

    /// The value stored under `key`.
    #[verifier::loop_isolation(false)]
    pub fn get(&self, key: &str) -> (res: Option<&Value>)
        ensures
            match res {
                Some(v) => self.as_map().contains_key(key@) && v@ == self.as_map()[key@],
                None => !self.as_map().contains_key(key@),
            },
    {
        proof {
            use_type_invariant(self);
            lemma_entries_view(self.entries@);
            lemma_sorted_distinct(self@);
            lemma_entries_map(self@);
        }
        let kb = key.as_bytes();
        let mut i: usize = 0;
        while i < self.entries.len()
            invariant
                i <= self.entries@.len(),
                kb@ == key_bytes(key@),
                forall|j: int| 0 <= j < i ==> #[trigger] self@[j].0 != key@,
                self@.len() == self.entries@.len(),
                forall|j: int| 0 <= j < self.entries@.len() ==> #[trigger] self@[j] == (self.entries@[j].0@, self.entries@[j].1@),
            decreases self.entries@.len() - i,
        {
            if bytes_eq(self.entries[i].0.as_str().as_bytes(), kb) {
                proof {
                    lemma_key_bytes_injective(self@[i as int].0, key@);
                }
                return Some(&self.entries[i].1);
            }
            proof {
                if self@[i as int].0 == key@ {
                    assert(key_bytes(self@[i as int].0) == kb@);
                }
            }
            i += 1;
        }
        None
    }

    /// Inserts a canonical key. Invalid keys are rejected before they enter
    /// the map.  Every map inside `value` holds its entries in key order.
    pub fn insert(&mut self, key: String, value: Value) -> (res: Result<Option<Value>, Error>)
        requires
            dicts_sorted(value@),
        ensures
            valid_key(key_bytes(key@)) ==> {
                &&& res matches Ok(prev)
                &&& final(self).as_map() == old(self).as_map().insert(key@, value@)
                &&& match prev {
                    Some(p) => old(self).as_map().contains_key(key@) && p@ == old(self).as_map()[key@],
                    None => !old(self).as_map().contains_key(key@),
                }
            },
            !valid_key(key_bytes(key@)) ==> res is Err && res->Err_0 == Error::InvalidKey && final(self)@ == old(self)@,
    {
        validate_key(key.as_str())?;
        proof {
            use_type_invariant(&*self);
        }
        let ghost ev = self@;
        let mut es: Vec<(String, Value)> = Vec::new();
        std::mem::swap(&mut es, &mut self.entries);
        proof {
            lemma_entries_view(es@);
            lemma_sorted_distinct(ev);
            lemma_entries_map(ev);
        }
        let kb = key.as_str().as_bytes();
        let mut i: usize = 0;
        while i < es.len() && lex_less(es[i].0.as_str().as_bytes(), kb)
            invariant
                i <= es@.len(),
                ev == entries_view(es@),
                ev.len() == es@.len(),
                forall|j: int| 0 <= j < es@.len() ==> #[trigger] ev[j] == (es@[j].0@, es@[j].1@),
                kb@ == key_bytes(key@),
                forall|j: int| 0 <= j < i ==> lex_lt(#[trigger] key_bytes(ev[j].0), kb@),
            decreases es@.len() - i,
        {
            i += 1;
        }
        if i < es.len() && bytes_eq(es[i].0.as_str().as_bytes(), kb) {
            proof {
                lemma_key_bytes_injective(ev[i as int].0, key@);
                lemma_entries_map_update(ev, i as int, value@);
            }
            let (k, previous) = es.remove(i);
            es.insert(i, (k, value));
            proof {
                lemma_entries_view(es@);
                let nv = ev.update(i as int, (ev[i as int].0, value@));
                assert(entries_view(es@) =~= nv);
                lemma_dicts_sorted_entries_all(ev);
                lemma_dicts_sorted_entries_all(nv);
            }
            self.entries = es;
            return Ok(Some(previous));
        }
        proof {
            // Every later key comes after the new one.
            if i < es@.len() {
                lemma_lex_total(key_bytes(ev[i as int].0), kb@);
            }
            assert forall|j: int| i <= j < ev.len() implies lex_lt(kb@, #[trigger] key_bytes(ev[j].0)) by {
                if j > i {
                    lemma_lex_transitive(kb@, key_bytes(ev[i as int].0), key_bytes(ev[j].0));
                }
            }
            assert forall|j: int| 0 <= j < ev.len() implies ev[j].0 != key@ by {
                if ev[j].0 == key@ {
                    super::format::lemma_lex_irreflexive(kb@);
                }
            }
            lemma_entries_map_insert(ev, i as int, (key@, value@));
        }
        let ghost new_entry = (key@, value@);
        es.insert(i, (key, value));
        proof {
            lemma_entries_view(es@);
            let nv = ev.insert(i as int, new_entry);
            assert(entries_view(es@) =~= nv);
            lemma_dicts_sorted_entries_all(ev);
            lemma_dicts_sorted_entries_all(nv);
            assert forall|j: int| 0 <= j < nv.len() implies #[trigger] dicts_sorted(nv[j].1) by {
                if j < i {
                    assert(nv[j] == ev[j]);
                } else if j > i {
                    assert(nv[j] == ev[j - 1]);
                }
            }
            assert forall|a: int, b: int| 0 <= a < b < nv.len() implies lex_lt(#[trigger] key_bytes(nv[a].0), #[trigger] key_bytes(nv[b].0)) by {
                if b < i {
                } else if b == i {
                } else if a < i {
                    lemma_lex_transitive(key_bytes(nv[a].0), kb@, key_bytes(nv[b].0));
                } else if a == i {
                } else {
                }
            }
        }
        self.entries = es;
        Ok(None)
    }

    /// Removes `key` and gives back its value.
    #[verifier::loop_isolation(false)]
    pub fn remove(&mut self, key: &str) -> (res: Option<Value>)
        ensures
            final(self).as_map() == old(self).as_map().remove(key@),
            match res {
                Some(v) => old(self).as_map().contains_key(key@) && v@ == old(self).as_map()[key@],
                None => !old(self).as_map().contains_key(key@),
            },
    {
        proof {
            use_type_invariant(&*self);
        }
        let ghost ev = self@;
        let mut es: Vec<(String, Value)> = Vec::new();
        std::mem::swap(&mut es, &mut self.entries);
        proof {
            lemma_entries_view(es@);
            lemma_sorted_distinct(ev);
            lemma_entries_map(ev);
        }
        let kb = key.as_bytes();
        let mut i: usize = 0;
        while i < es.len()
            invariant
                i <= es@.len(),
                ev == entries_view(es@),
                ev.len() == es@.len(),
                forall|j: int| 0 <= j < es@.len() ==> #[trigger] ev[j] == (es@[j].0@, es@[j].1@),
                kb@ == key_bytes(key@),
                forall|j: int| 0 <= j < i ==> #[trigger] ev[j].0 != key@,
            decreases es@.len() - i,
        {
            if bytes_eq(es[i].0.as_str().as_bytes(), kb) {
                proof {
                    lemma_key_bytes_injective(ev[i as int].0, key@);
                    lemma_entries_map_remove(ev, i as int);
                }
                let (_, v) = es.remove(i);
                proof {
                    lemma_entries_view(es@);
                    assert(entries_view(es@) =~= ev.remove(i as int));
                    let nv = ev.remove(i as int);
                    lemma_dicts_sorted_entries_all(ev);
                    lemma_dicts_sorted_entries_all(nv);
                    assert forall|j: int| 0 <= j < nv.len() implies #[trigger] dicts_sorted(nv[j].1) by {
                        let j2 = if j < i { j } else { j + 1 };
                        assert(nv[j] == ev[j2]);
                    }
                    assert forall|a: int, b: int| 0 <= a < b < nv.len() implies lex_lt(#[trigger] key_bytes(nv[a].0), #[trigger] key_bytes(nv[b].0)) by {
                        let a2 = if a < i { a } else { a + 1 };
                        let b2 = if b < i { b } else { b + 1 };
                        assert(nv[a] == ev[a2]);
                        assert(nv[b] == ev[b2]);
                    }
                }
                self.entries = es;
                return Some(v);
            }
            proof {
                if ev[i as int].0 == key@ {
                    assert(key_bytes(ev[i as int].0) == kb@);
                }
            }
            i += 1;
        }
        proof {
            assert(entries_map(ev).remove(key@) =~= entries_map(ev));
        }
        self.entries = es;
        None
    }
}

/// A read gives back the last write: after `insert` of `value` under
/// `key`, `get` of `key` finds `value`, and every other key reads as before.
pub proof fn lemma_get_after_insert(before: Manifest, after: Manifest, key: Seq<char>, value: ValueView)
    requires
        after.as_map() == before.as_map().insert(key, value),
    ensures
        after.as_map().contains_key(key),
        after.as_map()[key] == value,
        forall|k: Seq<char>| k != key ==> (#[trigger] after.as_map().contains_key(k)) == before.as_map().contains_key(k),
        forall|k: Seq<char>| k != key && #[trigger] after.as_map().contains_key(k) ==> after.as_map()[k] == before.as_map()[k],
{
}

/// After `remove` of `key`, `get` of `key` finds nothing, and every other
/// key reads as before.
pub proof fn lemma_get_after_remove(before: Manifest, after: Manifest, key: Seq<char>)
    requires
        after.as_map() == before.as_map().remove(key),
    ensures
        !after.as_map().contains_key(key),
        forall|k: Seq<char>| k != key ==> (#[trigger] after.as_map().contains_key(k)) == before.as_map().contains_key(k),
        forall|k: Seq<char>| k != key && #[trigger] after.as_map().contains_key(k) ==> after.as_map()[k] == before.as_map()[k],
{
}

impl Manifest {
    /// Encodes the deterministic WSMM payload (not a WASM section envelope).
    pub fn encode(&self) -> (res: Result<Vec<u8>, Error>)
        ensures
            keys_valid_entries(self@) ==> (res matches Ok(b) && b@ == enc_manifest(self@)),
            !keys_valid_entries(self@) ==> res is Err && res->Err_0 == Error::InvalidKey,
    {
        proof {
            use_type_invariant(self);
        }
        let mut out: Vec<u8> = Vec::new();
        let mut i: usize = 0;
        while i < 4
            invariant
                i <= 4,
                MAGIC@ == magic_bytes(),
                out@ == magic_bytes().take(i as int),
            decreases 4 - i,
        {
            out.push(MAGIC[i]);
            assert(out@ =~= magic_bytes().take(i + 1));
            i += 1;
        }
        out.push(VERSION);
        out.push(0);
        proof {
            lemma_entries_view(self.entries@);
        }
        put_u64(&mut out, self.entries.len() as u64);
        let ghost head = out@;
        encode_entries(&mut out, &self.entries)?;
        assert(out@ =~= enc_manifest(self@));
        Ok(out)
    }

    /// Decodes a payload within the default [`Limits`].
    pub fn decode(bytes: &[u8]) -> (res: Result<Self, Error>)
        ensures
            match spec_decode(bytes@, Limits::spec_default()) {
                Ok(es) => res matches Ok(m) && m@ == es,
                Err(e) => res is Err && res->Err_0 == e,
            },
    {
        Self::decode_with_limits(bytes, Limits::default())
    }

    /// Decodes untrusted payload bytes within `limits`.
    pub fn decode_with_limits(bytes: &[u8], limits: Limits) -> (res: Result<Self, Error>)
        ensures
            match spec_decode(bytes@, limits) {
                Ok(es) => res matches Ok(m) && m@ == es,
                Err(e) => res is Err && res->Err_0 == e,
            },
    {
        if bytes.len() > limits.max_payload {
            return Err(Error::Limit("payload"));
        }
        if bytes.len() < HEADER_LEN || !crate::bytes::starts_with(bytes, MAGIC.as_slice()) {
            assert(bytes@.len() >= 6 ==> bytes@.subrange(0, 4) != magic_bytes());
            return Err(Error::Magic);
        }
        if bytes[4] != VERSION {
            return Err(Error::Version(bytes[4]));
        }
        if bytes[5] != 0 {
            return Err(Error::Flags(bytes[5]));
        }
        let mut decoder = Decoder { bytes, pos: HEADER_LEN, limits };
        let count = decoder.u64()?;
        if count > limits.max_entries as u64 {
            return Err(Error::Limit("entries"));
        }
        let ghost p = decoder.pos as int;
        let entries = decoder.entries(count as usize, 0)?;
        if decoder.pos != bytes.len() {
            return Err(Error::TrailingBytes);
        }
        proof {
            super::model::lemma_entries_well_formed(bytes@, p, count as int, 0, limits);
            super::canonical::lemma_entries_canonical(bytes@, p, count as int, 0, limits);
            lemma_dicts_sorted_entries_all(entries_view(entries@));
        }
        Ok(Manifest { entries })
    }
}

/// Stable cache identity for the manifest a lazy transformation reads.
#[derive(Clone, Copy, Debug, PartialEq, Eq, PartialOrd, Ord, Hash)]
pub struct MetadataSnapshot(pub [u8; 32]);

/// Whether `k` is a binding key: its bytes start with `hash.`.
pub open spec fn is_hash_key(k: Seq<char>) -> bool {
    let p = "hash.".spec_bytes();
    p.len() <= key_bytes(k).len() && key_bytes(k).subrange(0, p.len() as int) == p
}

/// The entries that the semantic digest covers: all but the `hash.` ones.
pub open spec fn semantic_entries(es: Seq<(Seq<char>, ValueView)>) -> Seq<(Seq<char>, ValueView)>
    decreases es.len(),
{
    if es.len() == 0 {
        es
    } else if is_hash_key(es.last().0) {
        semantic_entries(es.drop_last())
    } else {
        semantic_entries(es.drop_last()).push(es.last())
    }
}

/// The semantic digest of entries `es`: the domain-separated SHA3-256 of the
/// encoding of their non-`hash.` entries.
pub open spec fn semantic_digest(es: Seq<(Seq<char>, ValueView)>) -> Seq<u8> {
    sha3_256_of(domain_message(semantic_domain(), enc_manifest(semantic_entries(es))))
}

proof fn lemma_semantic_prefix(s: Seq<(Seq<char>, ValueView)>, j: int)
    requires
        0 <= j <= s.len(),
    ensures
        semantic_entries(s.take(j)).len() <= semantic_entries(s).len(),
        semantic_entries(s.take(j)) == semantic_entries(s).take(semantic_entries(s.take(j)).len() as int),
    decreases s.len(),
{
    if j == s.len() {
        assert(s.take(j) =~= s);
        assert(semantic_entries(s).take(semantic_entries(s).len() as int) =~= semantic_entries(s));
    } else {
        assert(s.drop_last().take(j) =~= s.take(j));
        lemma_semantic_prefix(s.drop_last(), j);
        let a = semantic_entries(s.take(j));
        let b = semantic_entries(s.drop_last());
        if !is_hash_key(s.last().0) {
            assert(b.push(s.last()).take(a.len() as int) =~= b.take(a.len() as int));
        }
    }
}

impl Manifest {
    /// Canonical bytes suitable for the `hash.semantic` binding value: the
    /// encoding of the manifest without its `hash.` entries.
    pub fn semantic_bytes(&self) -> (res: Result<Vec<u8>, Error>)
        ensures
            keys_valid_entries(semantic_entries(self@)) ==> (res matches Ok(b) && b@ == enc_manifest(semantic_entries(self@))),
            !keys_valid_entries(semantic_entries(self@)) ==> res is Err && res->Err_0 == Error::InvalidKey,
    {
        let ghost ev = self@;
        proof {
            use_type_invariant(self);
            lemma_dicts_sorted_entries_all(ev);
            lemma_entries_view(self.entries@);
        }
        let prefix = "hash.".as_bytes();
        let mut count: u64 = 0;
        let mut i: usize = 0;
        while i < self.entries.len()
            invariant
                i <= self.entries@.len(),
                ev == self@,
                ev.len() == self.entries@.len(),
                forall|j: int| 0 <= j < self.entries@.len() ==> #[trigger] ev[j] == (self.entries@[j].0@, self.entries@[j].1@),
                prefix@ == "hash.".spec_bytes(),
                count == semantic_entries(ev.take(i as int)).len(),
                count <= i,
            decreases self.entries@.len() - i,
        {
            assert(ev.take(i + 1).drop_last() =~= ev.take(i as int));
            if !crate::bytes::starts_with(self.entries[i].0.as_str().as_bytes(), prefix) {
                count += 1;
            }
            i += 1;
        }
        assert(ev.take(ev.len() as int) =~= ev);
        let mut out: Vec<u8> = Vec::new();
        let mut k: usize = 0;
        while k < 4
            invariant
                k <= 4,
                MAGIC@ == magic_bytes(),
                out@ == magic_bytes().take(k as int),
            decreases 4 - k,
        {
            out.push(MAGIC[k]);
            assert(out@ =~= magic_bytes().take(k + 1));
            k += 1;
        }
        out.push(VERSION);
        out.push(0);
        put_u64(&mut out, count);
        let ghost head = out@;
        let mut i: usize = 0;
        while i < self.entries.len()
            invariant
                i <= self.entries@.len(),
                ev == self@,
                ev.len() == self.entries@.len(),
                forall|j: int| 0 <= j < self.entries@.len() ==> #[trigger] ev[j] == (self.entries@[j].0@, self.entries@[j].1@),
                prefix@ == "hash.".spec_bytes(),
                out@ == head + enc_entries(semantic_entries(ev.take(i as int))),
                keys_valid_entries(semantic_entries(ev.take(i as int))),
                forall|j: int| 0 <= j < ev.len() ==> #[trigger] dicts_sorted(ev[j].1),
            decreases self.entries@.len() - i,
        {
            assert(ev.take(i + 1).drop_last() =~= ev.take(i as int));
            assert(ev.take(i + 1).last() == ev[i as int]);
            let (key, value) = &self.entries[i];
            if !crate::bytes::starts_with(key.as_str().as_bytes(), prefix) {
                assert(dicts_sorted(ev[i as int].1));
                let r = encode_entry(&mut out, key, value);
                if r.is_err() {
                    proof {
                        let sp = semantic_entries(ev.take(i + 1));
                        lemma_semantic_prefix(ev, i + 1);
                        if keys_valid_entries(semantic_entries(ev)) {
                            lemma_keys_valid_entries_prefix(semantic_entries(ev), sp.len() as int);
                        }
                    }
                    return Err(Error::InvalidKey);
                }
                assert(semantic_entries(ev.take(i + 1)).drop_last() == semantic_entries(ev.take(i as int)));
            }
            i += 1;
        }
        assert(ev.take(ev.len() as int) =~= ev);
        assert(out@ =~= enc_manifest(semantic_entries(ev)));
        Ok(out)
    }

    /// The semantic digest of the manifest.
    pub fn semantic_hash(&self) -> (res: Result<[u8; 32], Error>)
        ensures
            keys_valid_entries(semantic_entries(self@)) ==> (res matches Ok(h) && h@ == semantic_digest(self@)),
            !keys_valid_entries(semantic_entries(self@)) ==> res is Err && res->Err_0 == Error::InvalidKey,
    {
        let bytes = self.semantic_bytes()?;
        Ok(hash_domain("portal.wsmm.semantic.v1".as_bytes(), bytes.as_slice()))
    }

    /// The snapshot that identifies the manifest's semantic content.
    pub fn snapshot(&self) -> (res: Result<MetadataSnapshot, Error>)
        ensures
            keys_valid_entries(semantic_entries(self@)) ==> (res matches Ok(s) && s.0@ == semantic_digest(self@)),
            !keys_valid_entries(semantic_entries(self@)) ==> res is Err && res->Err_0 == Error::InvalidKey,
    {
        Ok(MetadataSnapshot(self.semantic_hash()?))
    }
}

} // verus!
