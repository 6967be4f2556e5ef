//! The central law of the format: what encoding writes, decoding reads back.

use vstd::prelude::*;
use vstd::utf8::*;
use super::format::{enc_entries, enc_entry, enc_manifest, enc_value, enc_values, header_bytes, key_bytes, le_bytes, le_value, lex_lt, magic_bytes, sorted_keys, valid_key, value_payload, value_tag};
use super::leb::{leb128, pow128};
use super::parse::{leb_scan, spec_decode, spec_entries, spec_entry_run, spec_payload, spec_take, spec_u64, spec_value, spec_values};
use super::value::{Limits, ValueView};

verus! {

proof fn lemma_pow128_9()
    ensures
        pow128(9) == 0x8000_0000_0000_0000,
{
    reveal_with_fuel(pow128, 10);
}

proof fn lemma_pow128_pos(i: nat)
    ensures
        pow128(i) >= 1,
    decreases i,
{
    if i > 0 {
        lemma_pow128_pos((i - 1) as nat);
    }
}

proof fn lemma_pow128_mono(i: nat, j: nat)
    requires
        i <= j,
    ensures
        pow128(i) <= pow128(j),
    decreases j,
{
    if i < j {
        lemma_pow128_mono(i, (j - 1) as nat);
        lemma_pow128_pos((j - 1) as nat);
    }
}

/// The canonical encoding is never empty.
pub proof fn lemma_leb128_len(v: nat)
    ensures
        leb128(v).len() >= 1,
    decreases v,
{
    if v >= 128 {
        lemma_leb128_len(v / 128);
    }
}

/// Scanning the canonical encoding of `w` from byte `i` on, with `acc` the
/// value of the bytes before, ends right after it with the whole value.
proof fn lemma_leb_scan_encoded(bytes: Seq<u8>, start: int, i: nat, acc: nat, w: nat)
    requires
        0 <= start,
        i < 10,
        acc < pow128(i),
        acc + w * pow128(i) < 0x1_0000_0000_0000_0000,
        start + i + leb128(w).len() <= bytes.len(),
        bytes.len() <= usize::MAX,
        bytes.subrange(start + i, start + i + leb128(w).len()) == leb128(w),
    ensures
        leb_scan(bytes, start, i, acc) == Ok::<(nat, int), super::error::Error>(
            (acc + w * pow128(i), start + i + leb128(w).len()),
        ),
    decreases w,
{
    lemma_leb128_len(w);
    let b = bytes[start + i];
    assert(b == leb128(w)[0]);
    lemma_pow128_9();
    lemma_pow128_mono(i, 9);
    if i == 9 {
        assert(w <= 1) by (nonlinear_arith)
            requires acc + w * pow128(i) < 0x1_0000_0000_0000_0000, pow128(i) == 0x8000_0000_0000_0000;
    }
    if w < 128 {
        assert(b == w);
        assert((b as nat) % 128 == w);
    } else {
        let p = pow128(i);
        assert(b as nat == w % 128 + 128);
        assert((b as nat) % 128 == w % 128);
        let acc2 = acc + (w % 128) * p;
        assert(pow128(i + 1) == 128 * p);
        assert(acc2 < pow128(i + 1)) by (nonlinear_arith)
            requires acc < p, w % 128 < 128, acc2 == acc + (w % 128) * p, pow128(i + 1) == 128 * p;
        assert(acc + w * p == acc2 + (w / 128) * pow128(i + 1)) by (nonlinear_arith)
            requires acc2 == acc + (w % 128) * p, pow128(i + 1) == 128 * p, w == 128 * (w / 128) + w % 128;
        assert(leb128(w) == seq![b] + leb128(w / 128));
        let rest = leb128(w / 128);
        assert forall|k: int| 0 <= k < rest.len() implies bytes[start + i + 1 + k] == rest[k] by {
            assert(bytes.subrange(start + i, start + i + leb128(w).len())[1 + k] == leb128(w)[1 + k]);
        }
        assert(bytes.subrange(start + i + 1, start + i + 1 + rest.len()) =~= rest);
        lemma_leb_scan_encoded(bytes, start, i + 1, acc2, w / 128);
    }
}

/// Reading a `u64` where its canonical encoding stands gives it back.
pub proof fn lemma_u64_roundtrip(bytes: Seq<u8>, pos: int, v: u64)
    requires
        0 <= pos,
        pos + leb128(v as nat).len() <= bytes.len(),
        bytes.len() <= usize::MAX,
        bytes.subrange(pos, pos + leb128(v as nat).len()) == leb128(v as nat),
    ensures
        spec_u64(bytes, pos) == Ok::<(u64, int), super::error::Error>((v, pos + leb128(v as nat).len())),
{
    assert(pow128(0) == 1);
    lemma_leb_scan_encoded(bytes, pos, 0, 0, v as nat);
}

} // verus!

verus! {

/// Little-endian bytes denote the number they were made from, when it fits.
pub proof fn lemma_le_roundtrip(x: nat, n: nat)
    requires
        x < super::decode::pow256(n),
    ensures
        le_value(le_bytes(x, n)) == x,
        le_bytes(x, n).len() == n,
    decreases n,
{
    if n == 0 {
    } else {
        let p = super::decode::pow256((n - 1) as nat);
        assert(x / 256 < p) by (nonlinear_arith)
            requires x < 256 * p;
        lemma_le_roundtrip(x / 256, (n - 1) as nat);
        assert(le_bytes(x, n).drop_first() =~= le_bytes(x / 256, (n - 1) as nat));
    }
}

/// A value that decoding gives back as it was encoded at nesting `depth`:
/// within the limits, with canonical sorted keys, and with a digest of
/// thirty-two bytes.
pub open spec fn fits_value(v: ValueView, depth: int, lim: Limits) -> bool
    decreases v, 1nat,
{
    &&& depth <= lim.max_depth
    &&& value_payload(v).len() <= lim.max_value_len
    &&& match v {
        ValueView::Digest(d) => d.len() == 32,
        ValueView::List(vs) => vs.len() <= lim.max_entries && fits_values(vs, depth + 1, lim),
        ValueView::Dict(es) => es.len() <= lim.max_entries && fits_entries(es, depth + 1, lim),
        _ => true,
    }
}

pub open spec fn fits_values(vs: Seq<ValueView>, depth: int, lim: Limits) -> bool
    decreases vs, 0nat,
{
    if vs.len() == 0 {
        true
    } else {
        fits_values(vs.drop_last(), depth, lim) && fits_value(vs.last(), depth, lim)
    }
}

/// Entries that decoding gives back at nesting `depth`.
pub open spec fn fits_entries(es: Seq<(Seq<char>, ValueView)>, depth: int, lim: Limits) -> bool
    decreases es, 1nat,
{
    &&& depth <= lim.max_depth
    &&& sorted_keys(es)
    &&& fits_entry_items(es, depth, lim)
}

pub open spec fn fits_entry_items(es: Seq<(Seq<char>, ValueView)>, depth: int, lim: Limits) -> bool
    decreases es, 0nat,
{
    if es.len() == 0 {
        true
    } else {
        &&& fits_entry_items(es.drop_last(), depth, lim)
        &&& valid_key(key_bytes(es.last().0))
        &&& key_bytes(es.last().0).len() <= lim.max_key_len
        &&& fits_value(es.last().1, depth + 1, lim)
    }
}

proof fn lemma_fits_values_all(vs: Seq<ValueView>, depth: int, lim: Limits)
    requires
        fits_values(vs, depth, lim),
    ensures
        forall|i: int| 0 <= i < vs.len() ==> #[trigger] fits_value(vs[i], depth, lim),
    decreases vs.len(),
{
    if vs.len() > 0 {
        lemma_fits_values_all(vs.drop_last(), depth, lim);
        assert forall|i: int| 0 <= i < vs.len() implies #[trigger] fits_value(vs[i], depth, lim) by {
            if i < vs.len() - 1 {
                assert(vs.drop_last()[i] == vs[i]);
            }
        }
    }
}

proof fn lemma_fits_entries_all(es: Seq<(Seq<char>, ValueView)>, depth: int, lim: Limits)
    requires
        fits_entry_items(es, depth, lim),
    ensures
        forall|i: int| 0 <= i < es.len() ==> {
            &&& valid_key(key_bytes(#[trigger] es[i].0))
            &&& key_bytes(es[i].0).len() <= lim.max_key_len
            &&& fits_value(es[i].1, depth + 1, lim)
        },
    decreases es.len(),
{
    if es.len() > 0 {
        lemma_fits_entries_all(es.drop_last(), depth, lim);
        assert forall|i: int| 0 <= i < es.len() implies {
            &&& valid_key(key_bytes(#[trigger] es[i].0))
            &&& key_bytes(es[i].0).len() <= lim.max_key_len
            &&& fits_value(es[i].1, depth + 1, lim)
        } by {
            if i < es.len() - 1 {
                assert(es.drop_last()[i] == es[i]);
            }
        }
    }
}

/// The values of a list, written first value first.
pub proof fn lemma_enc_values_first(vs: Seq<ValueView>)
    requires
        vs.len() > 0,
    ensures
        enc_values(vs) == enc_value(vs[0]) + enc_values(vs.drop_first()),
    decreases vs.len(),
{
    if vs.len() == 1 {
        assert(vs.drop_last() =~= Seq::<ValueView>::empty());
        assert(vs.drop_first() =~= Seq::<ValueView>::empty());
        assert(enc_values(vs.drop_last()) == Seq::<u8>::empty());
        assert(enc_values(vs.drop_first()) == Seq::<u8>::empty());
        assert(enc_values(vs) =~= enc_value(vs[0]) + enc_values(vs.drop_first()));
    } else {
        lemma_enc_values_first(vs.drop_last());
        assert(vs.drop_last().drop_first() =~= vs.drop_first().drop_last());
        assert(vs.drop_first().last() == vs.last());
        assert(enc_values(vs) =~= enc_value(vs[0]) + enc_values(vs.drop_first()));
    }
}

/// The entries of a map, written first entry first.
pub proof fn lemma_enc_entries_first(es: Seq<(Seq<char>, ValueView)>)
    requires
        es.len() > 0,
    ensures
        enc_entries(es) == enc_entry(es[0]) + enc_entries(es.drop_first()),
    decreases es.len(),
{
    if es.len() == 1 {
        assert(es.drop_last() =~= Seq::<(Seq<char>, ValueView)>::empty());
        assert(es.drop_first() =~= Seq::<(Seq<char>, ValueView)>::empty());
        assert(enc_entries(es.drop_last()) == Seq::<u8>::empty());
        assert(enc_entries(es.drop_first()) == Seq::<u8>::empty());
        assert(enc_entries(es) =~= enc_entry(es[0]) + enc_entries(es.drop_first()));
    } else {
        lemma_enc_entries_first(es.drop_last());
        assert(es.drop_last().drop_first() =~= es.drop_first().drop_last());
        assert(es.drop_first().last() == es.last());
        assert(enc_entries(es) =~= enc_entry(es[0]) + enc_entries(es.drop_first()));
    }
}

} // verus!

verus! {

/// `b` holds `s` from position `pos` on.
pub open spec fn holds_at(b: Seq<u8>, pos: int, s: Seq<u8>) -> bool {
    &&& 0 <= pos
    &&& pos + s.len() <= b.len()
    &&& b.subrange(pos, pos + s.len()) == s
}

proof fn lemma_holds_split(b: Seq<u8>, pos: int, s1: Seq<u8>, s2: Seq<u8>)
    requires
        holds_at(b, pos, s1 + s2),
    ensures
        holds_at(b, pos, s1),
        holds_at(b, pos + s1.len(), s2),
{
    assert forall|k: int| 0 <= k < s1.len() implies b.subrange(pos, pos + s1.len())[k] == s1[k] by {
        assert(b.subrange(pos, pos + (s1 + s2).len())[k] == (s1 + s2)[k]);
    }
    assert(b.subrange(pos, pos + s1.len()) =~= s1);
    assert forall|k: int| 0 <= k < s2.len() implies b.subrange(pos + s1.len(), pos + s1.len() + s2.len())[k] == s2[k] by {
        assert(b.subrange(pos, pos + (s1 + s2).len())[s1.len() + k] == (s1 + s2)[s1.len() + k]);
    }
    assert(b.subrange(pos + s1.len(), pos + s1.len() + s2.len()) =~= s2);
}

/// Decoding a value where its encoding stands gives it back.
pub proof fn lemma_value_roundtrip(v: ValueView, b: Seq<u8>, pos: int, depth: int, lim: Limits)
    requires
        fits_value(v, depth, lim),
        holds_at(b, pos, enc_value(v)),
        b.len() <= usize::MAX,
    ensures
        spec_value(b, pos, depth, lim) == Ok::<(ValueView, int), super::error::Error>((v, pos + enc_value(v).len())),
    decreases v,
{
    let tag = value_tag(v);
    let p = value_payload(v);
    let n = p.len();
    let lp = leb128(n as u64 as nat);
    assert(n as u64 as nat == n);
    assert(enc_value(v) == seq![tag] + lp + p);
    lemma_holds_split(b, pos, seq![tag] + lp, p);
    lemma_holds_split(b, pos, seq![tag], lp);
    assert(b[pos] == tag) by {
        assert(b.subrange(pos, pos + 1)[0] == b[pos]);
    }
    lemma_u64_roundtrip(b, pos + 1, n as u64);
    let p2 = pos + 1 + lp.len();
    assert(spec_take(b, p2, n as int) == Ok::<int, super::error::Error>(p2 + n));
    let payload = b.subrange(p2, p2 + n);
    assert(payload == p);
    assert(n <= usize::MAX);
    match v {
        ValueView::U64(x) => {
            assert(p.subrange(0, p.len() as int) =~= p);
            lemma_u64_roundtrip(p, 0, x);
        },
        ValueView::I64(x) => {
            super::decode::lemma_pow256_8();
            lemma_le_roundtrip((x as u64) as nat, 8);
            assert(p.subrange(0, 8) =~= p);
            assert((x as u64) as i64 == x) by (bit_vector);
        },
        ValueView::Bool(bv) => {
        },
        ValueView::String(s) => {
            encode_utf8_valid_utf8(s);
            encode_utf8_decode_utf8(s);
        },
        ValueView::Bytes(bs) => {
        },
        ValueView::Digest(_) => {
        },
        ValueView::List(vs) => {
            let lc = leb128(vs.len() as u64 as nat);
            assert(vs.len() as u64 as nat == vs.len());
            assert(p == lc + enc_values(vs));
            assert(p.subrange(0, p.len() as int) =~= p);
            lemma_holds_split(p, 0, lc, enc_values(vs));
            assert(p.subrange(0, lc.len() as int) =~= lc);
            lemma_u64_roundtrip(p, 0, vs.len() as u64);
            assert(p.subrange(lc.len() as int, (lc.len() + enc_values(vs).len()) as int) =~= enc_values(vs));
            lemma_values_roundtrip(vs, p, lc.len() as int, depth + 1, lim);
        },
        ValueView::Dict(es) => {
            let lc = leb128(es.len() as u64 as nat);
            assert(es.len() as u64 as nat == es.len());
            assert(p == lc + enc_entries(es));
            assert(p.subrange(0, p.len() as int) =~= p);
            lemma_holds_split(p, 0, lc, enc_entries(es));
            assert(p.subrange(0, lc.len() as int) =~= lc);
            lemma_u64_roundtrip(p, 0, es.len() as u64);
            assert(p.subrange(lc.len() as int, (lc.len() + enc_entries(es).len()) as int) =~= enc_entries(es));
            lemma_entry_run_roundtrip(es, p, lc.len() as int, depth + 1, lim, None);
        },
    }
}

/// Decoding the values of a list where they stand gives them back.
pub proof fn lemma_values_roundtrip(vs: Seq<ValueView>, b: Seq<u8>, pos: int, depth: int, lim: Limits)
    requires
        fits_values(vs, depth, lim),
        holds_at(b, pos, enc_values(vs)),
        b.len() <= usize::MAX,
    ensures
        spec_values(b, pos, vs.len() as int, depth, lim) == Ok::<(Seq<ValueView>, int), super::error::Error>(
            (vs, pos + enc_values(vs).len()),
        ),
    decreases vs,
{
    if vs.len() > 0 {
        lemma_fits_values_all(vs, depth, lim);
        lemma_enc_values_first(vs);
        let rest = vs.drop_first();
        assert forall|i: int| 0 <= i < rest.len() implies #[trigger] fits_value(rest[i], depth, lim) by {
            assert(rest[i] == vs[i + 1]);
        }
        lemma_fits_values_from_all(rest, depth, lim);
        lemma_holds_split(b, pos, enc_value(vs[0]), enc_values(rest));
        lemma_value_roundtrip(vs[0], b, pos, depth, lim);
        lemma_values_roundtrip(rest, b, pos + enc_value(vs[0]).len(), depth, lim);
        assert(seq![vs[0]] + rest =~= vs);
    } else {
        assert(vs =~= Seq::<ValueView>::empty());
    }
}

proof fn lemma_fits_values_from_all(vs: Seq<ValueView>, depth: int, lim: Limits)
    requires
        forall|i: int| 0 <= i < vs.len() ==> #[trigger] fits_value(vs[i], depth, lim),
    ensures
        fits_values(vs, depth, lim),
    decreases vs.len(),
{
    if vs.len() > 0 {
        assert forall|i: int| 0 <= i < vs.drop_last().len() implies #[trigger] fits_value(vs.drop_last()[i], depth, lim) by {
            assert(vs.drop_last()[i] == vs[i]);
        }
        lemma_fits_values_from_all(vs.drop_last(), depth, lim);
        assert(fits_value(vs[vs.len() - 1], depth, lim));
    }
}

proof fn lemma_fits_entries_from_all(es: Seq<(Seq<char>, ValueView)>, depth: int, lim: Limits)
    requires
        forall|i: int| 0 <= i < es.len() ==> {
            &&& valid_key(key_bytes(#[trigger] es[i].0))
            &&& key_bytes(es[i].0).len() <= lim.max_key_len
            &&& fits_value(es[i].1, depth + 1, lim)
        },
    ensures
        fits_entry_items(es, depth, lim),
    decreases es.len(),
{
    if es.len() > 0 {
        assert forall|i: int| 0 <= i < es.drop_last().len() implies {
            &&& valid_key(key_bytes(#[trigger] es.drop_last()[i].0))
            &&& key_bytes(es.drop_last()[i].0).len() <= lim.max_key_len
            &&& fits_value(es.drop_last()[i].1, depth + 1, lim)
        } by {
            assert(es.drop_last()[i] == es[i]);
        }
        lemma_fits_entries_from_all(es.drop_last(), depth, lim);
    }
}

/// Decoding entries where they stand gives them back, when their keys come
/// after `prev`.
pub proof fn lemma_entry_run_roundtrip(
    es: Seq<(Seq<char>, ValueView)>,
    b: Seq<u8>,
    pos: int,
    depth: int,
    lim: Limits,
    prev: Option<Seq<u8>>,
)
    requires
        fits_entries(es, depth, lim),
        holds_at(b, pos, enc_entries(es)),
        b.len() <= usize::MAX,
        prev matches Some(pk) ==> forall|i: int| 0 <= i < es.len() ==> lex_lt(pk, #[trigger] key_bytes(es[i].0)),
    ensures
        spec_entry_run(b, pos, es.len() as int, depth, lim, prev) == Ok::<(Seq<(Seq<char>, ValueView)>, int), super::error::Error>(
            (es, pos + enc_entries(es).len()),
        ),
    decreases es,
{
    if es.len() > 0 {
        lemma_fits_entries_all(es, depth, lim);
        lemma_enc_entries_first(es);
        let e = es[0];
        let rest = es.drop_first();
        let kb = key_bytes(e.0);
        let lk = leb128(kb.len() as u64 as nat);
        assert(kb.len() as u64 as nat == kb.len());
        assert(enc_entry(e) == lk + kb + enc_value(e.1));
        lemma_holds_split(b, pos, enc_entry(e), enc_entries(rest));
        lemma_holds_split(b, pos, lk + kb, enc_value(e.1));
        lemma_holds_split(b, pos, lk, kb);
        lemma_u64_roundtrip(b, pos, kb.len() as u64);
        let p1 = pos + lk.len();
        let p2 = p1 + kb.len();
        assert(spec_take(b, p1, kb.len() as int) == Ok::<int, super::error::Error>(p2));
        assert(b.subrange(p1, p2) == kb);
        encode_utf8_valid_utf8(e.0);
        encode_utf8_decode_utf8(e.0);
        lemma_value_roundtrip(e.1, b, p2, depth + 1, lim);
        assert forall|i: int| 0 <= i < rest.len() implies {
            &&& valid_key(key_bytes(#[trigger] rest[i].0))
            &&& key_bytes(rest[i].0).len() <= lim.max_key_len
            &&& fits_value(rest[i].1, depth + 1, lim)
        } by {
            assert(rest[i] == es[i + 1]);
        }
        lemma_fits_entries_from_all(rest, depth, lim);
        assert(sorted_keys(rest)) by {
            assert forall|a: int, c: int| 0 <= a < c < rest.len() implies lex_lt(#[trigger] key_bytes(rest[a].0), #[trigger] key_bytes(rest[c].0)) by {
                assert(rest[a] == es[a + 1]);
                assert(rest[c] == es[c + 1]);
            }
        }
        assert forall|i: int| 0 <= i < rest.len() implies lex_lt(kb, #[trigger] key_bytes(rest[i].0)) by {
            assert(rest[i] == es[i + 1]);
        }
        lemma_entry_run_roundtrip(rest, b, p2 + enc_value(e.1).len(), depth, lim, Some(kb));
        assert(seq![(e.0, e.1)] + rest =~= es);
    } else {
        assert(es =~= Seq::<(Seq<char>, ValueView)>::empty());
    }
}

} // verus!

verus! {

/// Decoding what encoding writes gives back the entries: for every manifest
/// whose entries fit the limits in the sense of [`fits_entries`] (sorted
/// canonical keys within the key limit, counts, payloads and nesting within
/// their limits, digests of thirty-two bytes), and whose encoding fits the
/// payload limit.
#[verifier::rlimit(60)]
pub proof fn lemma_decode_encode(es: Seq<(Seq<char>, ValueView)>, lim: Limits)
    requires
        fits_entries(es, 0, lim),
        es.len() <= lim.max_entries,
        enc_manifest(es).len() <= lim.max_payload,
    ensures
        spec_decode(enc_manifest(es), lim) == Ok::<Seq<(Seq<char>, ValueView)>, super::error::Error>(es),
{
    let b = enc_manifest(es);
    let lc = leb128(es.len() as u64 as nat);
    assert(es.len() as u64 as nat == es.len());
    assert(b == header_bytes() + lc + enc_entries(es));
    lemma_leb128_len(es.len());
    assert(b.subrange(0, 4) =~= magic_bytes());
    assert(b[4] == 1 && b[5] == 0);
    assert(b.subrange(0, b.len() as int) =~= b);
    lemma_holds_split(b, 0, header_bytes() + lc, enc_entries(es));
    lemma_holds_split(b, 0, header_bytes(), lc);
    lemma_u64_roundtrip(b, 6, es.len() as u64);
    lemma_entry_run_roundtrip(es, b, (6 + lc.len()) as int, 0, lim, None);
}

} // verus!
