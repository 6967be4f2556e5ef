//! Encoding values and entries, proved to write what [`super::format`] states.

use vstd::prelude::*;
use vstd::slice::slice_to_vec;
use super::error::Error;
use super::format::{
    dicts_sorted, dicts_sorted_entries, dicts_sorted_values, enc_entries, enc_entry, enc_value, enc_values, key_bytes, keys_valid,
    keys_valid_entries, keys_valid_entry, keys_valid_values, le_bytes, lemma_dicts_sorted_entries_all, lemma_lex_transitive, lex_lt,
    lemma_dicts_sorted_values_all, sorted_keys, valid_key, value_payload, value_tag,
};
use super::decode::{key_bytes_valid, lex_less};
use super::leb::{leb128, put_u64};
use super::value::{
    entries_view, lemma_entries_view, lemma_entries_view_take, lemma_values_view,
    lemma_values_view_take, values_view, Value, ValueView,
};

verus! {

/// Checks that `key` is canonical.
pub fn validate_key(key: &str) -> (res: Result<(), Error>)
    ensures
        res is Ok <==> valid_key(key_bytes(key@)),
        res is Err ==> res->Err_0 == Error::InvalidKey,
{
    if key_bytes_valid(key.as_bytes()) {
        Ok(())
    } else {
        Err(Error::InvalidKey)
    }
}

proof fn lemma_keys_valid_values_prefix(s: Seq<ValueView>, j: int)
    requires
        0 <= j <= s.len(),
        keys_valid_values(s),
    ensures
        keys_valid_values(s.take(j)),
    decreases s.len(),
{
    if j == s.len() {
        assert(s.take(j) =~= s);
    } else {
        assert(s.drop_last().take(j) =~= s.take(j));
        lemma_keys_valid_values_prefix(s.drop_last(), j);
    }
}

pub proof fn lemma_keys_valid_entries_prefix(s: Seq<(Seq<char>, ValueView)>, j: int)
    requires
        0 <= j <= s.len(),
        keys_valid_entries(s),
    ensures
        keys_valid_entries(s.take(j)),
    decreases s.len(),
{
    if j == s.len() {
        assert(s.take(j) =~= s);
    } else {
        assert(s.drop_last().take(j) =~= s.take(j));
        lemma_keys_valid_entries_prefix(s.drop_last(), j);
    }
}

/// Appends the eight little-endian bytes of `x`.
fn put_i64(out: &mut Vec<u8>, x: i64)
    ensures
        final(out)@ == old(out)@ + le_bytes((x as u64) as nat, 8),
{
    let mut u = x as u64;
    let mut k: usize = 0;
    let ghost start = old(out)@;
    while k < 8
        invariant
            k <= 8,
            start == old(out)@,
            out@ + le_bytes(u as nat, (8 - k) as nat) == start + le_bytes((x as u64) as nat, 8),
        decreases 8 - k,
    {
        let ghost before = out@;
        out.push((u % 256) as u8);
        assert(le_bytes(u as nat, (8 - k) as nat) == seq![(u % 256) as u8] + le_bytes((u / 256) as nat, (8 - k - 1) as nat));
        assert(out@ + le_bytes((u / 256) as nat, (8 - k - 1) as nat) =~= before + le_bytes(u as nat, (8 - k) as nat));
        u = u / 256;
        k += 1;
    }
    assert(le_bytes(u as nat, 0) =~= Seq::<u8>::empty());
    assert(out@ =~= start + le_bytes((x as u64) as nat, 8));
}

/// Appends the encoding of `value`; fails when a key inside it is not
/// canonical.  Every map inside `value` holds its entries in key order, as
/// they are written.
pub fn encode_value(out: &mut Vec<u8>, value: &Value) -> (res: Result<(), Error>)
    requires
        dicts_sorted(value@),
    ensures
        keys_valid(value@) ==> res is Ok && final(out)@ == old(out)@ + enc_value(value@),
        !keys_valid(value@) ==> res is Err && res->Err_0 == Error::InvalidKey,
    decreases value, 0nat,
{
    let mut p: Vec<u8> = Vec::new();
    let tag: u8 = match value {
        Value::U64(v) => {
            put_u64(&mut p, *v);
            assert(p@ == value_payload(value@));
            0
        },
        Value::I64(v) => {
            put_i64(&mut p, *v);
            assert(p@ == value_payload(value@));
            1
        },
        Value::Bool(b) => {
            p.push(if *b { 1u8 } else { 0u8 });
            assert(p@ =~= value_payload(value@));
            2
        },
        Value::String(s) => {
            p = slice_to_vec(s.as_str().as_bytes());
            assert(p@ == value_payload(value@));
            3
        },
        Value::Bytes(b) => {
            p = slice_to_vec(b.as_slice());
            assert(p@ == value_payload(value@));
            4
        },
        Value::Digest(d) => {
            p = slice_to_vec(d.as_slice());
            assert(p@ == value_payload(value@));
            5
        },
        Value::List(values) => {
            put_u64(&mut p, values.len() as u64);
            let ghost vv = values_view(values@);
            proof {
                lemma_values_view(values@);
                lemma_dicts_sorted_values_all(vv);
                assert(value@ == ValueView::List(vv));
                assert(dicts_sorted_values(vv));
            }
            let mut i: usize = 0;
            while i < values.len()
                invariant
                    *value == Value::List(*values),
                    i <= values@.len(),
                    vv == values_view(values@),
                    vv.len() == values@.len(),
                    forall|j: int| 0 <= j < values@.len() ==> #[trigger] vv[j] == values@[j]@,
                    p@ == leb128(values@.len() as nat) + enc_values(vv.take(i as int)),
                    keys_valid_values(vv.take(i as int)),
                    forall|j: int| 0 <= j < vv.len() ==> #[trigger] dicts_sorted(vv[j]),
                decreases values@.len() - i,
            {
                let ghost before = p@;
                assert(dicts_sorted(vv[i as int]));
                let r = encode_value(&mut p, &values[i]);
                assert(vv.take(i + 1).drop_last() =~= vv.take(i as int));
                assert(vv.take(i + 1).last() == values@[i as int]@);
                if r.is_err() {
                    proof {
                        if keys_valid_values(vv) {
                            lemma_keys_valid_values_prefix(vv, i + 1);
                        }
                        assert(vv =~= value@->List_0);
                    }
                    return r;
                }
                assert(p@ =~= leb128(values@.len() as nat) + enc_values(vv.take(i + 1)));
                i += 1;
            }
            assert(vv.take(values@.len() as int) =~= vv);
            assert(p@ == value_payload(value@));
            6
        },
        Value::Dict(entries) => {
            put_u64(&mut p, entries.len() as u64);
            proof {
                lemma_entries_view(entries@);
            }
            let r = encode_entries(&mut p, entries);
            if r.is_err() {
                return r;
            }
            assert(p@ == value_payload(value@));
            7
        },
    };
    assert(tag == value_tag(value@));
    out.push(tag);
    put_u64(out, p.len() as u64);
    out.append(&mut p);
    assert(final(out)@ =~= old(out)@ + enc_value(value@));
    Ok(())
}

/// Appends the encoding of one entry; fails when a key is not canonical.
pub fn encode_entry(out: &mut Vec<u8>, key: &String, value: &Value) -> (res: Result<(), Error>)
    requires
        dicts_sorted(value@),
    ensures
        keys_valid_entry((key@, value@)) ==> res is Ok && final(out)@ == old(out)@ + enc_entry((key@, value@)),
        !keys_valid_entry((key@, value@)) ==> res is Err && res->Err_0 == Error::InvalidKey,
    decreases value, 1nat,
{
    let r = validate_key(key.as_str());
    if r.is_err() {
        return r;
    }
    let kb = key.as_str().as_bytes();
    put_u64(out, kb.len() as u64);
    let mut kv = slice_to_vec(kb);
    out.append(&mut kv);
    let ghost mid = out@;
    let r = encode_value(out, value);
    if r.is_err() {
        return r;
    }
    assert(out@ =~= old(out)@ + enc_entry((key@, value@)));
    Ok(())
}

/// Appends the encoding of `entries`, which hold their keys in increasing
/// byte order; fails when a key is not canonical.
pub fn encode_entries(out: &mut Vec<u8>, entries: &Vec<(String, Value)>) -> (res: Result<(), Error>)
    requires
        sorted_keys(entries_view(entries@)),
        dicts_sorted_entries(entries_view(entries@)),
    ensures
        keys_valid_entries(entries_view(entries@)) ==> res is Ok && final(out)@ == old(out)@
            + enc_entries(entries_view(entries@)),
        !keys_valid_entries(entries_view(entries@)) ==> res is Err && res->Err_0 == Error::InvalidKey,
    decreases entries, 0nat,
{
    let ghost ev = entries_view(entries@);
    proof {
        lemma_entries_view(entries@);
        lemma_dicts_sorted_entries_all(ev);
    }
    let mut i: usize = 0;
    while i < entries.len()
        invariant
            i <= entries@.len(),
            ev == entries_view(entries@),
            ev.len() == entries@.len(),
            forall|j: int| 0 <= j < entries@.len() ==> #[trigger] ev[j] == (entries@[j].0@, entries@[j].1@),
            out@ == old(out)@ + enc_entries(ev.take(i as int)),
            keys_valid_entries(ev.take(i as int)),
            forall|j: int| 0 <= j < ev.len() ==> #[trigger] dicts_sorted(ev[j].1),
        decreases entries@.len() - i,
    {
        let (key, value) = &entries[i];
        assert(dicts_sorted(ev[i as int].1));
        assert(ev.take(i + 1).drop_last() =~= ev.take(i as int));
        assert(ev.take(i + 1).last() == ev[i as int]);
        let r = encode_entry(out, key, value);
        if r.is_err() {
            proof {
                if keys_valid_entries(ev) {
                    lemma_keys_valid_entries_prefix(ev, i + 1);
                }
            }
            return r;
        }
        assert(out@ =~= old(out)@ + enc_entries(ev.take(i + 1)));
        i += 1;
    }
    assert(ev.take(entries@.len() as int) =~= ev);
    Ok(())
}

} // verus!

verus! {

/// Whether every map inside `value` holds its keys in increasing byte order.
pub fn value_sorted(value: &Value) -> (res: bool)
    ensures
        res == dicts_sorted(value@),
    decreases value, 1nat,
{
    match value {
        Value::List(values) => {
            let r = values_sorted(values);
            proof {
                lemma_dicts_sorted_values_all(values_view(values@));
            }
            r
        },
        Value::Dict(entries) => entries_sorted(entries),
        _ => true,
    }
}

/// Whether every map inside the values of `values` is sorted.
fn values_sorted(values: &Vec<Value>) -> (res: bool)
    ensures
        res == forall|j: int| 0 <= j < values_view(values@).len() ==> #[trigger] dicts_sorted(values_view(values@)[j]),
    decreases values, 0nat,
{
    proof {
        lemma_values_view(values@);
    }
    let ghost vv = values_view(values@);
    let mut i: usize = 0;
    while i < values.len()
        invariant
            i <= values@.len(),
            vv == values_view(values@),
            vv.len() == values@.len(),
            forall|j: int| 0 <= j < values@.len() ==> #[trigger] vv[j] == values@[j]@,
            forall|j: int| 0 <= j < i ==> #[trigger] dicts_sorted(vv[j]),
        decreases values@.len() - i,
    {
        if !value_sorted(&values[i]) {
            proof {
                assert(vv[i as int] == values@[i as int]@);
                assert(!dicts_sorted(vv[i as int]));
            }
            return false;
        }
        i += 1;
    }
    true
}

/// Whether `entries` hold their keys in increasing byte order, and every
/// map inside their values does too.
pub fn entries_sorted(entries: &Vec<(String, Value)>) -> (res: bool)
    ensures
        res == (sorted_keys(entries_view(entries@)) && dicts_sorted_entries(entries_view(entries@))),
    decreases entries, 0nat,
{
    let ghost ev = entries_view(entries@);
    proof {
        lemma_entries_view(entries@);
        lemma_dicts_sorted_entries_all(ev);
    }
    let mut i: usize = 0;
    while i < entries.len()
        invariant
            i <= entries@.len(),
            ev == entries_view(entries@),
            ev.len() == entries@.len(),
            forall|j: int| 0 <= j < entries@.len() ==> #[trigger] ev[j] == (entries@[j].0@, entries@[j].1@),
            forall|a: int, b: int| 0 <= a < b < i ==> lex_lt(#[trigger] key_bytes(ev[a].0), #[trigger] key_bytes(ev[b].0)),
            forall|j: int| 0 <= j < i ==> #[trigger] dicts_sorted(ev[j].1),
            dicts_sorted_entries(ev) <==> forall|j: int| 0 <= j < ev.len() ==> #[trigger] dicts_sorted(ev[j].1),
        decreases entries@.len() - i,
    {
        if i > 0 {
            let ka = entries[i - 1].0.as_str().as_bytes();
            let kb = entries[i].0.as_str().as_bytes();
            assert(ka@ == key_bytes(ev[i - 1].0));
            assert(kb@ == key_bytes(ev[i as int].0));
            let less = lex_less(ka, kb);
            if !less {
                proof {
                    assert(!lex_lt(key_bytes(ev[i - 1].0), key_bytes(ev[i as int].0)));
                    assert(!sorted_keys(ev));
                }
                return false;
            }
            proof {
                assert forall|a: int, b: int| 0 <= a < b < i + 1 implies lex_lt(#[trigger] key_bytes(ev[a].0), #[trigger] key_bytes(ev[b].0)) by {
                    if b == i && a < i - 1 {
                        lemma_lex_transitive(key_bytes(ev[a].0), key_bytes(ev[i - 1].0), key_bytes(ev[b].0));
                    }
                }
            }
        }
        if !value_sorted(&entries[i].1) {
            proof {
                assert(ev[i as int].1 == entries@[i as int].1@);
                assert(!dicts_sorted(ev[i as int].1));
            }
            return false;
        }
        i += 1;
    }
    true
}

impl Value {
    /// A map of `entries`, checked to hold its keys in increasing byte order
    /// with no key twice, and every map inside its values too; a map that
    /// does not is refused with [`Error::DuplicateKey`].
    pub fn dict(entries: Vec<(String, Value)>) -> (res: Result<Value, Error>)
        ensures
            res is Ok <==> (sorted_keys(entries_view(entries@)) && dicts_sorted_entries(entries_view(entries@))),
            res matches Ok(v) ==> v@ == ValueView::Dict(entries_view(entries@)),
            res matches Err(e) ==> e == Error::DuplicateKey,
    {
        if entries_sorted(&entries) {
            Ok(Value::Dict(entries))
        } else {
            Err(Error::DuplicateKey)
        }
    }
}

} // verus!
