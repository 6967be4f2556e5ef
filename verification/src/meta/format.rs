//! The WSMM v0.1 wire format, stated as spec functions: what encoding
//! writes and what decoding accepts.

use vstd::prelude::*;
use vstd::utf8::*;
use super::error::Error;
use super::leb::leb128;
use super::value::ValueView;

verus! {

/// The four magic bytes `WSMM` that open every payload.
pub open spec fn magic_bytes() -> Seq<u8> {
    seq![87u8, 83u8, 77u8, 77u8]
}

/// The header: magic, version `1`, reserved flags `0`.
pub open spec fn header_bytes() -> Seq<u8> {
    magic_bytes() + seq![1u8, 0u8]
}

/// Whether `b` may stand at position `i` of a key.
pub open spec fn key_byte_ok(b: u8, i: int) -> bool {
    (97 <= b <= 122) || (48 <= b <= 57) || (i != 0 && (b == 46 || b == 95 || b == 47 || b == 45))
}

/// A canonical key: non-empty, lower-case ASCII letters and digits, and after
/// the first byte also `.`, `_`, `/` and `-`.
pub open spec fn valid_key(k: Seq<u8>) -> bool {
    k.len() > 0 && forall|i: int| 0 <= i < k.len() ==> #[trigger] key_byte_ok(k[i], i)
}

/// The bytes of a key as the format stores them: its UTF-8 encoding.
pub open spec fn key_bytes(k: Seq<char>) -> Seq<u8> {
    encode_utf8(k)
}

/// Strict lexicographic order on byte strings (the order of Rust's `[u8]`).
pub open spec fn lex_lt(a: Seq<u8>, b: Seq<u8>) -> bool
    decreases a.len(),
{
    if b.len() == 0 {
        false
    } else if a.len() == 0 {
        true
    } else if a[0] != b[0] {
        a[0] < b[0]
    } else {
        lex_lt(a.drop_first(), b.drop_first())
    }
}

/// Keys strictly increasing in byte order, so in particular distinct.
pub open spec fn sorted_keys(es: Seq<(Seq<char>, ValueView)>) -> bool {
    forall|i: int, j: int|
        0 <= i < j < es.len() ==> lex_lt(#[trigger] key_bytes(es[i].0), #[trigger] key_bytes(es[j].0))
}

/// The `n` low-order bytes of `v`, least significant first.
pub open spec fn le_bytes(v: nat, n: nat) -> Seq<u8>
    decreases n,
{
    if n == 0 {
        Seq::empty()
    } else {
        seq![(v % 256) as u8] + le_bytes(v / 256, (n - 1) as nat)
    }
}

/// The number that little-endian bytes `b` denote.
pub open spec fn le_value(b: Seq<u8>) -> nat
    decreases b.len(),
{
    if b.len() == 0 {
        0
    } else {
        b[0] as nat + 256 * le_value(b.drop_first())
    }
}

pub open spec fn tag_u64() -> u8 { 0 }
pub open spec fn tag_i64() -> u8 { 1 }
pub open spec fn tag_bool() -> u8 { 2 }
pub open spec fn tag_string() -> u8 { 3 }
pub open spec fn tag_bytes() -> u8 { 4 }
pub open spec fn tag_digest() -> u8 { 5 }
pub open spec fn tag_list() -> u8 { 6 }
pub open spec fn tag_dict() -> u8 { 7 }

/// The tag byte written for a value.
pub open spec fn value_tag(v: ValueView) -> u8 {
    match v {
        ValueView::U64(_) => tag_u64(),
        ValueView::I64(_) => tag_i64(),
        ValueView::Bool(_) => tag_bool(),
        ValueView::String(_) => tag_string(),
        ValueView::Bytes(_) => tag_bytes(),
        ValueView::Digest(_) => tag_digest(),
        ValueView::List(_) => tag_list(),
        ValueView::Dict(_) => tag_dict(),
    }
}

/// The payload written for a value (between its length and the next value).
pub open spec fn value_payload(v: ValueView) -> Seq<u8>
    decreases v, 0nat,
{
    match v {
        ValueView::U64(x) => leb128(x as nat),
        ValueView::I64(x) => le_bytes((x as u64) as nat, 8),
        ValueView::Bool(b) => seq![if b { 1u8 } else { 0u8 }],
        ValueView::String(s) => encode_utf8(s),
        ValueView::Bytes(b) => b,
        ValueView::Digest(d) => d,
        ValueView::List(vs) => leb128(vs.len()) + enc_values(vs),
        ValueView::Dict(es) => leb128(es.len()) + enc_entries(es),
    }
}

/// A value: tag, payload length, payload.
pub open spec fn enc_value(v: ValueView) -> Seq<u8>
    decreases v, 1nat,
{
    seq![value_tag(v)] + leb128(value_payload(v).len()) + value_payload(v)
}

/// The values of a list, one after the other.
pub open spec fn enc_values(vs: Seq<ValueView>) -> Seq<u8>
    decreases vs, 0nat,
{
    if vs.len() == 0 {
        Seq::empty()
    } else {
        enc_values(vs.drop_last()) + enc_value(vs.last())
    }
}

/// One entry: key length, key bytes, value.
pub open spec fn enc_entry(e: (Seq<char>, ValueView)) -> Seq<u8>
    decreases e, 0nat,
{
    leb128(key_bytes(e.0).len()) + key_bytes(e.0) + enc_value(e.1)
}

/// The entries of a map, in order.
pub open spec fn enc_entries(es: Seq<(Seq<char>, ValueView)>) -> Seq<u8>
    decreases es, 0nat,
{
    if es.len() == 0 {
        Seq::empty()
    } else {
        enc_entries(es.drop_last()) + enc_entry(es.last())
    }
}

/// The whole payload of a manifest with entries `es`.
pub open spec fn enc_manifest(es: Seq<(Seq<char>, ValueView)>) -> Seq<u8> {
    header_bytes() + leb128(es.len()) + enc_entries(es)
}

} // verus!

verus! {

/// Every key of every map inside `v` is canonical.
pub open spec fn keys_valid(v: ValueView) -> bool
    decreases v, 1nat,
{
    match v {
        ValueView::List(vs) => keys_valid_values(vs),
        ValueView::Dict(es) => keys_valid_entries(es),
        _ => true,
    }
}

pub open spec fn keys_valid_values(vs: Seq<ValueView>) -> bool
    decreases vs, 0nat,
{
    if vs.len() == 0 {
        true
    } else {
        keys_valid_values(vs.drop_last()) && keys_valid(vs.last())
    }
}

/// The keys of `es` are canonical, and so are the keys inside their values.
pub open spec fn keys_valid_entries(es: Seq<(Seq<char>, ValueView)>) -> bool
    decreases es, 0nat,
{
    if es.len() == 0 {
        true
    } else {
        keys_valid_entries(es.drop_last()) && keys_valid_entry(es.last())
    }
}

/// The key of `e` is canonical, and so are the keys inside its value.
pub open spec fn keys_valid_entry(e: (Seq<char>, ValueView)) -> bool
    decreases e, 0nat,
{
    valid_key(key_bytes(e.0)) && keys_valid(e.1)
}

/// Every map inside `v` holds its entries in strictly increasing byte order
/// of their keys, so with no key twice: the order in which they are written.
pub open spec fn dicts_sorted(v: ValueView) -> bool
    decreases v, 1nat,
{
    match v {
        ValueView::List(vs) => dicts_sorted_values(vs),
        ValueView::Dict(es) => sorted_keys(es) && dicts_sorted_entries(es),
        _ => true,
    }
}

pub open spec fn dicts_sorted_values(vs: Seq<ValueView>) -> bool
    decreases vs, 0nat,
{
    if vs.len() == 0 {
        true
    } else {
        dicts_sorted_values(vs.drop_last()) && dicts_sorted(vs.last())
    }
}

/// Every map inside the values of `es` is sorted.
pub open spec fn dicts_sorted_entries(es: Seq<(Seq<char>, ValueView)>) -> bool
    decreases es, 0nat,
{
    if es.len() == 0 {
        true
    } else {
        dicts_sorted_entries(es.drop_last()) && dicts_sorted(es.last().1)
    }
}

/// The values of `vs` are sorted inside exactly when each one is.
pub proof fn lemma_dicts_sorted_values_all(vs: Seq<ValueView>)
    ensures
        dicts_sorted_values(vs) <==> forall|i: int| 0 <= i < vs.len() ==> #[trigger] dicts_sorted(vs[i]),
    decreases vs.len(),
{
    if vs.len() > 0 {
        lemma_dicts_sorted_values_all(vs.drop_last());
        if forall|i: int| 0 <= i < vs.len() ==> #[trigger] dicts_sorted(vs[i]) {
            assert forall|i: int| 0 <= i < vs.drop_last().len() implies #[trigger] dicts_sorted(vs.drop_last()[i]) by {
                assert(vs.drop_last()[i] == vs[i]);
            }
            assert(dicts_sorted(vs[vs.len() - 1]));
        }
        if dicts_sorted_values(vs) {
            assert forall|i: int| 0 <= i < vs.len() implies #[trigger] dicts_sorted(vs[i]) by {
                if i < vs.len() - 1 {
                    assert(vs.drop_last()[i] == vs[i]);
                }
            }
        }
    }
}

/// The entries of `es` are sorted inside exactly when each value is.
pub proof fn lemma_dicts_sorted_entries_all(es: Seq<(Seq<char>, ValueView)>)
    ensures
        dicts_sorted_entries(es) <==> forall|i: int| 0 <= i < es.len() ==> #[trigger] dicts_sorted(es[i].1),
    decreases es.len(),
{
    if es.len() > 0 {
        lemma_dicts_sorted_entries_all(es.drop_last());
        if forall|i: int| 0 <= i < es.len() ==> #[trigger] dicts_sorted(es[i].1) {
            assert forall|i: int| 0 <= i < es.drop_last().len() implies #[trigger] dicts_sorted(es.drop_last()[i].1) by {
                assert(es.drop_last()[i] == es[i]);
            }
            assert(dicts_sorted(es[es.len() - 1].1));
        }
        if dicts_sorted_entries(es) {
            assert forall|i: int| 0 <= i < es.len() implies #[trigger] dicts_sorted(es[i].1) by {
                if i < es.len() - 1 {
                    assert(es.drop_last()[i] == es[i]);
                }
            }
        }
    }
}

/// The values of `vs` have canonical keys exactly when each one has.
pub proof fn lemma_keys_valid_values_all(vs: Seq<ValueView>)
    ensures
        keys_valid_values(vs) <==> forall|i: int| 0 <= i < vs.len() ==> #[trigger] keys_valid(vs[i]),
    decreases vs.len(),
{
    if vs.len() > 0 {
        lemma_keys_valid_values_all(vs.drop_last());
        if forall|i: int| 0 <= i < vs.len() ==> #[trigger] keys_valid(vs[i]) {
            assert forall|i: int| 0 <= i < vs.drop_last().len() implies #[trigger] keys_valid(vs.drop_last()[i]) by {
                assert(vs.drop_last()[i] == vs[i]);
            }
            assert(keys_valid(vs[vs.len() - 1]));
        }
        if keys_valid_values(vs) {
            assert forall|i: int| 0 <= i < vs.len() implies #[trigger] keys_valid(vs[i]) by {
                if i < vs.len() - 1 {
                    assert(vs.drop_last()[i] == vs[i]);
                }
            }
        }
    }
}

/// The entries of `es` have canonical keys exactly when each entry has.
pub proof fn lemma_keys_valid_entries_all(es: Seq<(Seq<char>, ValueView)>)
    ensures
        keys_valid_entries(es) <==> forall|i: int| 0 <= i < es.len() ==> #[trigger] keys_valid_entry(es[i]),
    decreases es.len(),
{
    if es.len() > 0 {
        lemma_keys_valid_entries_all(es.drop_last());
        if forall|i: int| 0 <= i < es.len() ==> #[trigger] keys_valid_entry(es[i]) {
            assert forall|i: int| 0 <= i < es.drop_last().len() implies #[trigger] keys_valid_entry(es.drop_last()[i]) by {
                assert(es.drop_last()[i] == es[i]);
            }
            assert(keys_valid_entry(es[es.len() - 1]));
        }
        if keys_valid_entries(es) {
            assert forall|i: int| 0 <= i < es.len() implies #[trigger] keys_valid_entry(es[i]) by {
                if i < es.len() - 1 {
                    assert(es.drop_last()[i] == es[i]);
                }
            }
        }
    }
}

} // verus!

verus! {

/// No byte string comes before itself.
pub proof fn lemma_lex_irreflexive(a: Seq<u8>)
    ensures
        !lex_lt(a, a),
    decreases a.len(),
{
    if a.len() > 0 {
        lemma_lex_irreflexive(a.drop_first());
    }
}

/// Byte order is transitive.
pub proof fn lemma_lex_transitive(a: Seq<u8>, b: Seq<u8>, c: Seq<u8>)
    requires
        lex_lt(a, b),
        lex_lt(b, c),
    ensures
        lex_lt(a, c),
    decreases a.len(),
{
    if a.len() > 0 && b.len() > 0 && c.len() > 0 && a[0] == b[0] && b[0] == c[0] {
        lemma_lex_transitive(a.drop_first(), b.drop_first(), c.drop_first());
    }
}

/// Byte order is total.
pub proof fn lemma_lex_total(a: Seq<u8>, b: Seq<u8>)
    ensures
        lex_lt(a, b) || lex_lt(b, a) || a == b,
    decreases a.len(),
{
    if a.len() > 0 && b.len() > 0 && a[0] == b[0] {
        lemma_lex_total(a.drop_first(), b.drop_first());
        if a.drop_first() == b.drop_first() {
            assert(a =~= seq![a[0]] + a.drop_first());
            assert(b =~= seq![b[0]] + b.drop_first());
        }
    } else if a.len() == 0 && b.len() == 0 {
        assert(a =~= b);
    }
}

/// Distinct keys have distinct bytes.
pub proof fn lemma_key_bytes_injective(a: Seq<char>, b: Seq<char>)
    ensures
        key_bytes(a) == key_bytes(b) ==> a == b,
{
    vstd::utf8::encode_utf8_decode_utf8(a);
    vstd::utf8::encode_utf8_decode_utf8(b);
}

} // verus!
