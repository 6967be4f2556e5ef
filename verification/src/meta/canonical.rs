//! Decoding accepts only canonical bytes: whatever it accepts is exactly
//! what encoding the decoded entries writes.  So every manifest has one
//! encoding, and equal manifests have equal bytes.

use vstd::prelude::*;
use vstd::utf8::*;
use super::decode::{lemma_pow128_bounds, pow256};
use super::error::Error;
use super::format::{
    dicts_sorted, dicts_sorted_entries, dicts_sorted_values, enc_entries, enc_entry, enc_manifest, enc_value, enc_values,
    header_bytes, key_bytes, keys_valid, keys_valid_entries, keys_valid_entry, keys_valid_values, le_bytes, le_value,
    lemma_dicts_sorted_entries_all, lemma_dicts_sorted_values_all, lemma_keys_valid_entries_all,
    lemma_keys_valid_values_all, magic_bytes, sorted_keys, valid_key, value_payload, value_tag,
};
use super::leb::{leb128, pow128};
use super::parse::{leb_scan, lemma_u64_advances, spec_decode, spec_entries, spec_entry_run, spec_payload, spec_take, spec_u64, spec_value, spec_values};
use super::roundtrip::{lemma_enc_entries_first, lemma_enc_values_first};
use super::value::{Limits, ValueView};

verus! {

/// A scan started with less than `128^i` read ends below `2^64`.
proof fn lemma_leb_scan_bound(bytes: Seq<u8>, start: int, i: nat, acc: nat)
    requires
        i <= 9,
        acc < pow128(i),
    ensures
        leb_scan(bytes, start, i, acc) matches Ok((w, _)) ==> w < 0x1_0000_0000_0000_0000,
    decreases 10 - i,
{
    lemma_pow128_bounds(i);
    if let Ok(_) = spec_take(bytes, start + i, 1) {
        let b = bytes[start + i];
        let bm = (b as nat) % 128;
        let p = pow128(i);
        assert(acc + bm * p < 128 * p) by (nonlinear_arith)
            requires acc < p, bm < 128;
        if i < 9 {
            assert(pow128(i + 1) == 128 * p);
            lemma_pow128_bounds(i + 1);
            if b >= 128 {
                lemma_leb_scan_bound(bytes, start, i + 1, acc + bm * p);
            }
        } else if b <= 1 {
            assert(acc + bm * p < 0x1_0000_0000_0000_0000) by (nonlinear_arith)
                requires acc < p, bm <= 1, p == 0x8000_0000_0000_0000;
        }
    }
}

/// A `u64` read successfully stands in its canonical encoding.
pub proof fn lemma_u64_canonical(bytes: Seq<u8>, pos: int)
    ensures
        spec_u64(bytes, pos) matches Ok((v, end)) ==> {
            &&& 0 <= pos < end <= bytes.len()
            &&& bytes.subrange(pos, end) == leb128(v as nat)
        },
{
    lemma_u64_advances(bytes, pos);
    assert(pow128(0) == 1);
    lemma_leb_scan_bound(bytes, pos, 0, 0);
}

/// The bytes that little-endian bytes denote, written back, are those bytes.
proof fn lemma_le_bytes_value(b: Seq<u8>)
    ensures
        le_value(b) < pow256(b.len()),
        le_bytes(le_value(b), b.len()) == b,
    decreases b.len(),
{
    if b.len() > 0 {
        let r = b.drop_first();
        lemma_le_bytes_value(r);
        let x = le_value(b);
        assert(x == b[0] as nat + 256 * le_value(r));
        assert(x % 256 == b[0] as nat && x / 256 == le_value(r)) by (nonlinear_arith)
            requires x == b[0] as nat + 256 * le_value(r), b[0] < 256;
        assert(pow256(b.len()) == 256 * pow256(r.len()));
        assert(x < pow256(b.len())) by (nonlinear_arith)
            requires x == b[0] as nat + 256 * le_value(r), b[0] < 256, le_value(r) < pow256(r.len()),
                pow256(b.len()) == 256 * pow256(r.len());
        assert(le_bytes(x, b.len()) =~= b);
    }
}

/// Eight bytes read as a signed integer are written back as they were.
proof fn lemma_i64_canonical(payload: Seq<u8>)
    requires
        payload.len() == 8,
    ensures
        value_payload(ValueView::I64((le_value(payload.subrange(0, 8)) as u64) as i64)) == payload,
{
    let b = payload.subrange(0, 8);
    assert(b =~= payload);
    lemma_le_bytes_value(b);
    super::decode::lemma_pow256_8();
    let w = le_value(b) as u64;
    assert(((w as i64) as u64) == w) by (bit_vector);
}

/// A list payload read to its end is the count and the values.
proof fn lemma_list_canonical(payload: Seq<u8>, depth: int, lim: Limits)
    requires
        spec_u64(payload, 0) is Ok,
        ({
            let (count, p) = spec_u64(payload, 0)->Ok_0;
            spec_values(payload, p, count as int, depth + 1, lim) matches Ok((_, q)) && q == payload.len()
        }),
    ensures
        ({
            let (count, p) = spec_u64(payload, 0)->Ok_0;
            let vs = spec_values(payload, p, count as int, depth + 1, lim)->Ok_0.0;
            &&& leb128(vs.len()) + enc_values(vs) == payload
            &&& keys_valid_values(vs)
            &&& dicts_sorted_values(vs)
        }),
    decreases payload.len(), 2int, 1int,
{
    let (count, p) = spec_u64(payload, 0)->Ok_0;
    lemma_u64_canonical(payload, 0);
    lemma_values_canonical(payload, p, count as int, depth + 1, lim);
    let vs = spec_values(payload, p, count as int, depth + 1, lim)->Ok_0.0;
    lemma_keys_valid_values_all(vs);
    lemma_dicts_sorted_values_all(vs);
    assert(vs.len() == count as nat);
    if count == 0 {
        assert(enc_values(vs) =~= Seq::<u8>::empty());
        assert(payload =~= payload.subrange(0, p));
    } else {
        assert(payload =~= payload.subrange(0, p) + payload.subrange(p, payload.len() as int));
    }
}

/// A map payload read to its end is the count and the entries.
proof fn lemma_dict_canonical(payload: Seq<u8>, depth: int, lim: Limits)
    requires
        spec_u64(payload, 0) is Ok,
        ({
            let (count, p) = spec_u64(payload, 0)->Ok_0;
            spec_entries(payload, p, count as int, depth + 1, lim) matches Ok((_, q)) && q == payload.len()
        }),
    ensures
        ({
            let (count, p) = spec_u64(payload, 0)->Ok_0;
            let es = spec_entries(payload, p, count as int, depth + 1, lim)->Ok_0.0;
            &&& leb128(es.len()) + enc_entries(es) == payload
            &&& keys_valid_entries(es)
            &&& sorted_keys(es)
            &&& dicts_sorted_entries(es)
        }),
    decreases payload.len(), 2int, 1int,
{
    let (count, p) = spec_u64(payload, 0)->Ok_0;
    lemma_u64_canonical(payload, 0);
    lemma_entries_canonical(payload, p, count as int, depth + 1, lim);
    let es = spec_entries(payload, p, count as int, depth + 1, lim)->Ok_0.0;
    lemma_keys_valid_entries_all(es);
    lemma_dicts_sorted_entries_all(es);
    assert(es.len() == count as nat);
    if count == 0 {
        assert(enc_entries(es) =~= Seq::<u8>::empty());
        assert(payload =~= payload.subrange(0, p));
    } else {
        assert(payload =~= payload.subrange(0, p) + payload.subrange(p, payload.len() as int));
    }
}

/// A payload read to its end is the payload of the value read, under its tag.
pub proof fn lemma_payload_canonical(payload: Seq<u8>, tag: u8, depth: int, lim: Limits)
    ensures
        spec_payload(payload, tag, depth, lim) matches Ok((v, used)) ==> (used == payload.len() ==> {
            &&& value_tag(v) == tag
            &&& value_payload(v) == payload
            &&& keys_valid(v)
            &&& dicts_sorted(v)
        }),
    decreases payload.len(), 3int, 0int,
{
    if let Ok((v, used)) = spec_payload(payload, tag, depth, lim) {
        if used == payload.len() {
            if tag == 0 {
                lemma_u64_canonical(payload, 0);
                assert(payload.subrange(0, used) =~= payload);
            } else if tag == 1 {
                lemma_i64_canonical(payload);
            } else if tag == 2 {
                assert(payload =~= seq![payload[0]]);
            } else if tag == 3 {
                decode_utf8_encode_utf8(payload);
            } else if tag == 6 {
                lemma_list_canonical(payload, depth, lim);
            } else if tag == 7 {
                lemma_dict_canonical(payload, depth, lim);
            }
        }
    }
}

/// A value read successfully stands in its encoding.
pub proof fn lemma_value_canonical(bytes: Seq<u8>, pos: int, depth: int, lim: Limits)
    ensures
        spec_value(bytes, pos, depth, lim) matches Ok((v, end)) ==> {
            &&& 0 <= pos < end <= bytes.len()
            &&& bytes.subrange(pos, end) == enc_value(v)
            &&& keys_valid(v)
            &&& dicts_sorted(v)
        },
    decreases bytes.len(), 0int, 0int,
{
    if let Ok((v, end)) = spec_value(bytes, pos, depth, lim) {
        let p1 = pos + 1;
        let tag = bytes[pos];
        let (len, p2) = spec_u64(bytes, p1)->Ok_0;
        lemma_u64_canonical(bytes, p1);
        let p3 = p2 + len;
        let payload = bytes.subrange(p2, p3);
        lemma_payload_canonical(payload, tag, depth, lim);
        assert(payload.len() == len);
        assert(bytes.subrange(pos, end) =~= seq![tag] + bytes.subrange(p1, p2) + payload);
    }
}

/// Values read successfully stand in their encoding, as many as asked for.
pub proof fn lemma_values_canonical(bytes: Seq<u8>, pos: int, count: int, depth: int, lim: Limits)
    ensures
        spec_values(bytes, pos, count, depth, lim) matches Ok((vs, q)) ==> {
            &&& vs.len() == if count <= 0 { 0 } else { count }
            &&& 0 <= pos <= q <= bytes.len() || (count <= 0 && q == pos)
            &&& count > 0 ==> bytes.subrange(pos, q) == enc_values(vs)
            &&& forall|i: int| 0 <= i < vs.len() ==> keys_valid(#[trigger] vs[i]) && dicts_sorted(vs[i])
        },
    decreases bytes.len(), 1int, count,
{
    if count > 0 {
        if let Ok((vs, q)) = spec_values(bytes, pos, count, depth, lim) {
            let (v, p) = spec_value(bytes, pos, depth, lim)->Ok_0;
            lemma_value_canonical(bytes, pos, depth, lim);
            lemma_values_canonical(bytes, p, count - 1, depth, lim);
            let rest = spec_values(bytes, p, count - 1, depth, lim)->Ok_0.0;
            assert(vs == seq![v] + rest);
            assert forall|i: int| 0 <= i < vs.len() implies keys_valid(#[trigger] vs[i]) && dicts_sorted(vs[i]) by {
                if i > 0 {
                    assert(vs[i] == rest[i - 1]);
                }
            }
            lemma_enc_values_first(vs);
            assert(vs.drop_first() =~= rest);
            if count - 1 <= 0 {
                assert(rest.len() == 0);
                assert(enc_values(rest) =~= Seq::<u8>::empty());
                assert(bytes.subrange(pos, q) =~= bytes.subrange(pos, p));
            } else {
                assert(bytes.subrange(pos, q) =~= bytes.subrange(pos, p) + bytes.subrange(p, q));
            }
            assert(bytes.subrange(pos, q) =~= enc_values(vs));
        }
    }
}

/// Entries read successfully stand in their encoding, as many as asked for.
pub proof fn lemma_entry_run_canonical(
    bytes: Seq<u8>,
    pos: int,
    count: int,
    depth: int,
    lim: Limits,
    prev: Option<Seq<u8>>,
)
    ensures
        spec_entry_run(bytes, pos, count, depth, lim, prev) matches Ok((es, q)) ==> {
            &&& es.len() == if count <= 0 { 0 } else { count }
            &&& 0 <= pos <= q <= bytes.len() || (count <= 0 && q == pos)
            &&& count > 0 ==> bytes.subrange(pos, q) == enc_entries(es)
            &&& forall|i: int| 0 <= i < es.len() ==> keys_valid_entry(#[trigger] es[i]) && dicts_sorted(es[i].1)
        },
    decreases bytes.len(), 1int, count,
{
    if count > 0 {
        if let Ok((es, q)) = spec_entry_run(bytes, pos, count, depth, lim, prev) {
            let (len, p1) = spec_u64(bytes, pos)->Ok_0;
            lemma_u64_canonical(bytes, pos);
            let p2 = p1 + len;
            let raw = bytes.subrange(p1, p2);
            let (v, p3) = spec_value(bytes, p2, depth + 1, lim)->Ok_0;
            lemma_value_canonical(bytes, p2, depth + 1, lim);
            lemma_entry_run_canonical(bytes, p3, count - 1, depth, lim, Some(raw));
            let rest = spec_entry_run(bytes, p3, count - 1, depth, lim, Some(raw))->Ok_0.0;
            let e = (decode_utf8(raw), v);
            assert(es == seq![e] + rest);
            decode_utf8_encode_utf8(raw);
            assert(key_bytes(e.0) == raw);
            assert forall|i: int| 0 <= i < es.len() implies keys_valid_entry(#[trigger] es[i]) && dicts_sorted(es[i].1) by {
                if i > 0 {
                    assert(es[i] == rest[i - 1]);
                }
            }
            assert(raw.len() == len);
            assert(bytes.subrange(pos, p3) =~= bytes.subrange(pos, p1) + raw + bytes.subrange(p2, p3));
            assert(bytes.subrange(pos, p3) == enc_entry(e));
            lemma_enc_entries_first(es);
            assert(es.drop_first() =~= rest);
            if count - 1 <= 0 {
                assert(rest.len() == 0);
                assert(enc_entries(rest) =~= Seq::<u8>::empty());
                assert(bytes.subrange(pos, q) =~= bytes.subrange(pos, p3));
            } else {
                assert(bytes.subrange(pos, q) =~= bytes.subrange(pos, p3) + bytes.subrange(p3, q));
            }
            assert(bytes.subrange(pos, q) =~= enc_entries(es));
        }
    }
}

/// The entries of a map read successfully stand in their encoding.
pub proof fn lemma_entries_canonical(bytes: Seq<u8>, pos: int, count: int, depth: int, lim: Limits)
    ensures
        spec_entries(bytes, pos, count, depth, lim) matches Ok((es, q)) ==> {
            &&& es.len() == if count <= 0 { 0 } else { count }
            &&& 0 <= pos <= q <= bytes.len() || (count <= 0 && q == pos)
            &&& count > 0 ==> bytes.subrange(pos, q) == enc_entries(es)
            &&& forall|i: int| 0 <= i < es.len() ==> keys_valid_entry(#[trigger] es[i]) && dicts_sorted(es[i].1)
            &&& sorted_keys(es)
        },
    decreases bytes.len(), 2int, 0int,
{
    if depth <= lim.max_depth {
        lemma_entry_run_canonical(bytes, pos, count, depth, lim, None);
        super::model::lemma_entries_well_formed(bytes, pos, count, depth, lim);
    }
}

/// Decoding accepts only canonical payloads: bytes that decode to some
/// entries are exactly the encoding of those entries, and those entries,
/// down to every nested map, have canonical keys in increasing order, so
/// that encoding them succeeds and gives the bytes back.  Together with
/// [`super::roundtrip::lemma_decode_encode`], a payload is accepted exactly
/// when it is the encoding of the entries it holds.
pub proof fn lemma_decode_canonical(bytes: Seq<u8>, lim: Limits)
    ensures
        spec_decode(bytes, lim) matches Ok(es) ==> {
            &&& bytes == enc_manifest(es)
            &&& keys_valid_entries(es)
            &&& sorted_keys(es)
            &&& dicts_sorted_entries(es)
        },
{
    if let Ok(es) = spec_decode(bytes, lim) {
        let (count, p) = spec_u64(bytes, 6)->Ok_0;
        lemma_u64_canonical(bytes, 6);
        lemma_entries_canonical(bytes, p, count as int, 0, lim);
        lemma_keys_valid_entries_all(es);
        lemma_dicts_sorted_entries_all(es);
        assert(bytes.subrange(0, 6) =~= header_bytes()) by {
            assert(bytes.subrange(0, 4) == magic_bytes());
            assert forall|k: int| 0 <= k < 4 implies bytes.subrange(0, 6)[k] == header_bytes()[k] by {
                assert(bytes.subrange(0, 4)[k] == bytes[k]);
            }
        }
        assert(es.len() == count as nat);
        if count == 0 {
            assert(enc_entries(es) =~= Seq::<u8>::empty());
            assert(bytes =~= bytes.subrange(0, 6) + bytes.subrange(6, p));
        } else {
            assert(bytes =~= bytes.subrange(0, 6) + bytes.subrange(6, p) + bytes.subrange(p, bytes.len() as int));
        }
    }
}

} // verus!
