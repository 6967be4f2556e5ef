//! Decoding manifest bytes, proved to return what [`super::parse`] states.

use vstd::prelude::*;
use vstd::slice::slice_subrange;
use vstd::utf8::*;
use crate::bytes::bytes_eq;
use super::error::Error;
use super::format::{key_byte_ok, le_value, lex_lt, valid_key};
use super::leb::{leb128, pow128, put_u64};
use super::parse::{
    leb_scan, lemma_u64_advances, prepend_entries, prepend_values, spec_entries, spec_entry_run,
    spec_take, spec_u64, spec_value, spec_values,
};
use super::value::{entries_view, values_view, Limits, Value, ValueView};

verus! {

/// A cursor over untrusted manifest bytes.
pub struct Decoder<'a> {
    pub bytes: &'a [u8],
    pub pos: usize,
    pub limits: Limits,
}

pub proof fn lemma_pow128_bounds(i: nat)
    requires
        i <= 9,
    ensures
        pow128(i) <= pow128(9),
        pow128(9) == 0x8000_0000_0000_0000,
        pow128(i) > 0,
    decreases 9 - i,
{
    reveal_with_fuel(pow128, 10);
    if i < 9 {
        lemma_pow128_bounds(i + 1);
    }
}

/// `core::str::from_utf8`: the bytes read as a string when they are valid
/// UTF-8, as the standard library documents; the contract says that the
/// string's characters are those the bytes encode.
#[verifier::external_body]
fn str_from_utf8<'b>(raw: &'b [u8]) -> (res: Option<&'b str>)
    ensures
        res is Some <==> valid_utf8(raw@),
        res matches Some(s) ==> s@ == decode_utf8(raw@),
{
    core::str::from_utf8(raw).ok()
}

/// Whether `b` is a canonical key.
pub fn key_bytes_valid(b: &[u8]) -> (res: bool)
    ensures
        res == valid_key(b@),
{
    if b.len() == 0 {
        return false;
    }
    let mut i: usize = 0;
    while i < b.len()
        invariant
            i <= b@.len(),
            forall|j: int| 0 <= j < i ==> #[trigger] key_byte_ok(b@[j], j),
        decreases b@.len() - i,
    {
        let c = b[i];
        let ok = (97 <= c && c <= 122) || (48 <= c && c <= 57) || (i != 0 && (c == 46 || c == 95 || c == 47 || c == 45));
        if !ok {
            assert(!key_byte_ok(b@[i as int], i as int));
            return false;
        }
        i += 1;
    }
    true
}

proof fn lemma_lex_lt_skip(a: Seq<u8>, b: Seq<u8>, i: int)
    requires
        0 <= i <= a.len(),
        i <= b.len(),
        a.subrange(0, i) == b.subrange(0, i),
    ensures
        lex_lt(a, b) == lex_lt(a.skip(i), b.skip(i)),
    decreases i,
{
    if i > 0 {
        assert(a[0] == a.subrange(0, i)[0]);
        assert(b[0] == b.subrange(0, i)[0]);
        assert(a.drop_first().subrange(0, i - 1) =~= a.subrange(0, i).drop_first());
        assert(b.drop_first().subrange(0, i - 1) =~= b.subrange(0, i).drop_first());
        lemma_lex_lt_skip(a.drop_first(), b.drop_first(), i - 1);
        assert(a.drop_first().skip(i - 1) =~= a.skip(i));
        assert(b.drop_first().skip(i - 1) =~= b.skip(i));
    } else {
        assert(a.skip(0) =~= a);
        assert(b.skip(0) =~= b);
    }
}

/// Strict byte-order comparison of `a` and `b`.
pub fn lex_less(a: &[u8], b: &[u8]) -> (res: bool)
    ensures
        res == lex_lt(a@, b@),
{
    let mut i: usize = 0;
    while i < a.len() && i < b.len() && a[i] == b[i]
        invariant
            i <= a@.len(),
            i <= b@.len(),
            a@.subrange(0, i as int) == b@.subrange(0, i as int),
        decreases a@.len() - i,
    {
        assert(a@.subrange(0, i + 1) =~= a@.subrange(0, i as int).push(a@[i as int]));
        assert(b@.subrange(0, i + 1) =~= b@.subrange(0, i as int).push(b@[i as int]));
        i += 1;
    }
    proof {
        lemma_lex_lt_skip(a@, b@, i as int);
        if i < a@.len() && i < b@.len() {
            assert(a@.skip(i as int)[0] == a@[i as int]);
            assert(b@.skip(i as int)[0] == b@[i as int]);
        }
    }
    if i < b.len() {
        if i < a.len() {
            a[i] < b[i]
        } else {
            true
        }
    } else {
        false
    }
}

/// The signed integer that eight little-endian bytes denote.
fn i64_from_le(b: &[u8]) -> (res: i64)
    requires
        b@.len() == 8,
    ensures
        res == (le_value(b@) as u64) as i64,
{
    let mut acc: u64 = 0;
    let mut j: usize = 8;
    let ghost mut bound: nat = 1;
    assert(b@.subrange(8, 8) =~= Seq::<u8>::empty());
    while j > 0
        invariant
            j <= 8,
            b@.len() == 8,
            acc == le_value(b@.subrange(j as int, 8)),
            acc < bound,
            bound * pow256(j as nat) == pow256(8),
        decreases j,
    {
        j -= 1;
        let byte = b[j];
        proof {
            assert(b@.subrange(j as int, 8).drop_first() =~= b@.subrange(j + 1, 8));
            assert(pow256((j + 1) as nat) == 256 * pow256(j as nat));
            assert((acc as nat) * 256 + (byte as nat) < bound * 256) by (nonlinear_arith)
                requires acc < bound, byte < 256;
            assert(bound * 256 * pow256(j as nat) == pow256(8)) by (nonlinear_arith)
                requires bound * pow256((j + 1) as nat) == pow256(8), pow256((j + 1) as nat) == 256 * pow256(j as nat);
            lemma_pow256_8();
            assert(bound * 256 <= pow256(8)) by (nonlinear_arith)
                requires bound * 256 * pow256(j as nat) == pow256(8), pow256(j as nat) >= 1;
        }
        acc = acc * 256 + byte as u64;
        proof {
            bound = bound * 256;
        }
    }
    assert(b@.subrange(0, 8) =~= b@);
    acc as i64
}

pub open spec fn pow256(i: nat) -> nat
    decreases i,
{
    if i == 0 {
        1
    } else {
        256 * pow256((i - 1) as nat)
    }
}

pub proof fn lemma_pow256_8()
    ensures
        pow256(8) == 0x1_0000_0000_0000_0000,
        forall|i: nat| i <= 8 ==> #[trigger] pow256(i) >= 1,
{
    reveal_with_fuel(pow256, 9);
    assert forall|i: nat| i <= 8 implies #[trigger] pow256(i) >= 1 by {
        lemma_pow256_pos(i);
    }
}

proof fn lemma_pow256_pos(i: nat)
    ensures
        pow256(i) >= 1,
    decreases i,
{
    if i > 0 {
        lemma_pow256_pos((i - 1) as nat);
    }
}

impl<'a> Decoder<'a> {
    pub open spec fn wf(&self) -> bool {
        self.pos <= self.bytes@.len()
    }

    /// Takes `len` bytes at the cursor.
    pub fn take(&mut self, len: usize) -> (res: Result<&'a [u8], Error>)
        requires
            old(self).wf(),
        ensures
            final(self).wf(),
            final(self).bytes@ == old(self).bytes@,
            final(self).limits == old(self).limits,
            match spec_take(old(self).bytes@, old(self).pos as int, len as int) {
                Ok(end) => res matches Ok(s) && s@ == old(self).bytes@.subrange(old(self).pos as int, end)
                    && final(self).pos == end,
                Err(e) => res == Err::<&[u8], Error>(e) && final(self).pos == old(self).pos,
            },
    {
        let end = match self.pos.checked_add(len) {
            Some(e) => e,
            None => return Err(Error::Limit("length")),
        };
        if end > self.bytes.len() {
            return Err(Error::Eof);
        }
        let result = slice_subrange(self.bytes, self.pos, end);
        self.pos = end;
        Ok(result)
    }

    /// Reads a canonically encoded LEB128 `u64`.
    pub fn u64(&mut self) -> (res: Result<u64, Error>)
        requires
            old(self).wf(),
        ensures
            final(self).wf(),
            final(self).bytes@ == old(self).bytes@,
            final(self).limits == old(self).limits,
            match spec_u64(old(self).bytes@, old(self).pos as int) {
                Ok((v, end)) => res == Ok::<u64, Error>(v) && final(self).pos == end,
                Err(e) => res == Err::<u64, Error>(e),
            },
    {
        let ghost bytes = self.bytes@;
        let start = self.pos;
        let mut value: u64 = 0;
        let mut mult: u64 = 1;
        let mut i: usize = 0;
        proof {
            lemma_pow128_bounds(0);
        }
        while i < 10
            invariant
                self.wf(),
                self.bytes@ == bytes,
                bytes == old(self).bytes@,
                self.limits == old(self).limits,
                start == old(self).pos,
                i <= 9,
                self.pos == start + i,
                mult == pow128(i as nat),
                value < pow128(i as nat),
                leb_scan(bytes, start as int, 0, 0) == leb_scan(bytes, start as int, i as nat, value as nat),
            decreases 10 - i,
        {
            proof {
                lemma_pow128_bounds(i as nat);
            }
            let chunk = self.take(1)?;
            let byte = chunk[0];
            assert(byte == bytes[start + i]);
            if i == 9 && byte > 1 {
                return Err(Error::Leb);
            }
            let low = (byte % 128) as u64;
            assert(low * mult <= 127 * pow128(i as nat)) by (nonlinear_arith)
                requires low <= 127, mult == pow128(i as nat);
            assert(i == 9 ==> low * mult <= pow128(9)) by (nonlinear_arith)
                requires i == 9 ==> low <= 1, mult == pow128(i as nat), mult <= pow128(9);
            if i < 9 {
                proof {
                    lemma_pow128_bounds((i + 1) as nat);
                }
                assert(value + low * mult < pow128((i + 1) as nat));
            } else {
                assert(value + low * mult <= u64::MAX);
            }
            let next = value + low * mult;
            assert(next < 128 * pow128(i as nat)) by (nonlinear_arith)
                requires value < pow128(i as nat), low <= 127, next == value + low * pow128(i as nat);
            if byte < 128 {
                let mut canonical: Vec<u8> = Vec::new();
                put_u64(&mut canonical, next);
                let seen = slice_subrange(self.bytes, start, self.pos);
                if !bytes_eq(seen, canonical.as_slice()) {
                    return Err(Error::NonCanonicalLeb);
                }
                return Ok(next);
            }
            assert(i < 9);
            value = next;
            mult = mult * 128;
            i += 1;
        }
        Err(Error::Leb)
    }
}

impl<'a> Decoder<'a> {
    /// Reads one value at nesting `depth`.
    pub fn value(&mut self, depth: usize) -> (res: Result<Value, Error>)
        requires
            old(self).wf(),
        ensures
            final(self).wf(),
            final(self).bytes@ == old(self).bytes@,
            final(self).limits == old(self).limits,
            match spec_value(old(self).bytes@, old(self).pos as int, depth as int, old(self).limits) {
                Ok((v, p)) => res matches Ok(x) && x@ == v && final(self).pos == p,
                Err(e) => res is Err && res->Err_0 == e,
            },
        decreases old(self).bytes@.len(), 0int,
    {
        let ghost bytes = self.bytes@;
        let ghost pos0 = self.pos as int;
        if depth > self.limits.max_depth {
            return Err(Error::Limit("depth"));
        }
        let tag_slice = self.take(1)?;
        let tag = tag_slice[0];
        assert(tag == bytes[pos0]);
        let ghost p1 = self.pos as int;
        let len = self.u64()?;
        if len > self.limits.max_value_len as u64 {
            return Err(Error::Limit("value"));
        }
        let ghost p2 = self.pos as int;
        let payload = self.take(len as usize)?;
        proof {
            lemma_u64_advances(bytes, p1);
        }
        let lim = self.limits;
        let mut d = Decoder { bytes: payload, pos: 0, limits: lim };
        let ghost pl = payload@;
        let value = if tag == 0 {
            Value::U64(d.u64()?)
        } else if tag == 1 {
            let b = d.take(8)?;
            Value::I64(i64_from_le(b))
        } else if tag == 2 {
            let b = d.take(1)?;
            if b[0] == 0 {
                Value::Bool(false)
            } else if b[0] == 1 {
                Value::Bool(true)
            } else {
                return Err(Error::InvalidBool);
            }
        } else if tag == 3 {
            let text = match str_from_utf8(payload) {
                Some(s) => Value::String(s.to_owned()),
                None => return Err(Error::Utf8),
            };
            d.pos = payload.len();
            text
        } else if tag == 4 {
            d.pos = payload.len();
            Value::Bytes(vstd::slice::slice_to_vec(payload))
        } else if tag == 5 {
            if payload.len() != 32 {
                return Err(Error::InvalidValue);
            }
            let mut digest = [0u8; 32];
            let mut i: usize = 0;
            while i < 32
                invariant
                    i <= 32,
                    pl.len() == 32,
                    payload@ == pl,
                    forall|j: int| 0 <= j < i ==> digest@[j] == pl[j],
                decreases 32 - i,
            {
                digest[i] = payload[i];
                i += 1;
            }
            assert(digest@ =~= pl);
            d.pos = payload.len();
            Value::Digest(digest)
        } else if tag == 6 {
            let count = d.u64()?;
            if count > lim.max_entries as u64 {
                return Err(Error::Limit("list"));
            }
            let ghost q0 = d.pos as int;
            let ghost outer = spec_value(bytes, pos0, depth as int, lim);
            let ghost p3 = self.pos as int;
            assert(outer == match spec_values(pl, q0, count as int, depth + 1, lim) {
                Err(e) => Err(e),
                Ok((vs, q)) => if q != pl.len() {
                    Err(Error::TrailingBytes)
                } else {
                    Ok((ValueView::List(vs), p3))
                },
            });
            let mut values: Vec<Value> = Vec::new();
            let mut k: u64 = 0;
            while k < count
                invariant
                    d.wf(),
                    d.bytes@ == pl,
                    d.limits == lim,
                    pl.len() < bytes.len(),
                    self.wf(),
                    self.bytes@ == bytes,
                    bytes == old(self).bytes@,
                    self.limits == lim,
                    lim == old(self).limits,
                    pos0 == old(self).pos,
                    self.pos == p3,
                    outer == spec_value(bytes, pos0, depth as int, lim),
                    outer == match spec_values(pl, q0, count as int, depth + 1, lim) {
                        Err(e) => Err(e),
                        Ok((vs, q)) => if q != pl.len() {
                            Err(Error::TrailingBytes)
                        } else {
                            Ok((ValueView::List(vs), p3))
                        },
                    },
                    k <= count,
                    spec_values(pl, q0, count as int, depth + 1, lim) == prepend_values(
                        values_view(values@),
                        spec_values(pl, d.pos as int, (count - k) as int, depth + 1, lim),
                    ),
                decreases count - k,
            {
                let ghost rest = spec_values(pl, d.pos as int, (count - k) as int, depth + 1, lim);
                assert(rest == match spec_value(pl, d.pos as int, depth + 1, lim) {
                    Err(e) => Err(e),
                    Ok((v, p)) => prepend_values(seq![v], spec_values(pl, p, (count - k - 1) as int, depth + 1, lim)),
                });
                let child = match depth.checked_add(1) {
                    Some(c) => c,
                    None => {
                        assert(rest == Err::<(Seq<ValueView>, int), Error>(Error::Limit("depth")));
                        assert(spec_values(pl, q0, count as int, depth + 1, lim) == rest);
                        assert(outer == Err::<(ValueView, int), Error>(Error::Limit("depth")));
                        return Err(Error::Limit("depth"));
                    },
                };
                let ghost before = values@;
                let v = match d.value(child) {
                    Ok(v) => v,
                    Err(e) => {
                        assert(rest == Err::<(Seq<ValueView>, int), Error>(e));
                        assert(spec_values(pl, q0, count as int, depth + 1, lim) == rest);
                        assert(outer == Err::<(ValueView, int), Error>(e));
                        return Err(e);
                    },
                };
                values.push(v);
                proof {
                    assert(values@.drop_last() =~= before);
                    assert(values_view(values@) == values_view(before).push(v@));
                    assert(values_view(before).push(v@) =~= values_view(before) + seq![v@]);
                    match spec_values(pl, d.pos as int, (count - k - 1) as int, depth + 1, lim) {
                        Ok((vs, q)) => {
                            assert(values_view(before) + (seq![v@] + vs) =~= values_view(values@) + vs);
                        },
                        Err(_) => {},
                    }
                }
                k += 1;
            }
            assert(values_view(values@) + Seq::<ValueView>::empty() =~= values_view(values@));
            Value::List(values)
        } else if tag == 7 {
            let count = d.u64()?;
            if count > lim.max_entries as u64 {
                return Err(Error::Limit("map"));
            }
            let child = match depth.checked_add(1) {
                Some(c) => c,
                None => return Err(Error::Limit("depth")),
            };
            let es = d.entries(count as usize, child)?;
            Value::Dict(es)
        } else {
            return Err(Error::UnknownTag(tag));
        };
        if d.pos != payload.len() {
            return Err(Error::TrailingBytes);
        }
        Ok(value)
    }

    /// Reads `count` map entries at nesting `depth`.
    pub fn entries(&mut self, count: usize, depth: usize) -> (res: Result<Vec<(String, Value)>, Error>)
        requires
            old(self).wf(),
        ensures
            final(self).wf(),
            final(self).bytes@ == old(self).bytes@,
            final(self).limits == old(self).limits,
            match spec_entries(old(self).bytes@, old(self).pos as int, count as int, depth as int, old(self).limits) {
                Ok((es, p)) => res matches Ok(x) && entries_view(x@) == es && final(self).pos == p,
                Err(e) => res is Err && res->Err_0 == e,
            },
        decreases old(self).bytes@.len(), 1int,
    {
        let ghost bytes = self.bytes@;
        let ghost p0 = self.pos as int;
        if depth > self.limits.max_depth {
            return Err(Error::Limit("depth"));
        }
        let mut entries: Vec<(String, Value)> = Vec::new();
        let mut previous: Option<&'a [u8]> = None;
        let mut k: usize = 0;
        while k < count
            invariant
                self.wf(),
                self.bytes@ == bytes,
                self.limits == old(self).limits,
                bytes == old(self).bytes@,
                p0 == old(self).pos,
                depth <= self.limits.max_depth,
                k <= count,
                spec_entry_run(bytes, p0, count as int, depth as int, self.limits, None) == prepend_entries(
                    entries_view(entries@),
                    spec_entry_run(
                        bytes,
                        self.pos as int,
                        (count - k) as int,
                        depth as int,
                        self.limits,
                        match previous {
                            Some(s) => Some(s@),
                            None => None,
                        },
                    ),
                ),
            decreases count - k,
        {
            let ghost prev_view: Option<Seq<u8>> = match previous {
                Some(s) => Some(s@),
                None => None,
            };
            let len = self.u64()?;
            if len > self.limits.max_key_len as u64 {
                return Err(Error::Limit("key"));
            }
            let raw = self.take(len as usize)?;
            match previous {
                Some(prev) => {
                    if !lex_less(prev, raw) {
                        return Err(Error::DuplicateKey);
                    }
                },
                None => {},
            }
            let key_str = match str_from_utf8(raw) {
                Some(s) => s,
                None => return Err(Error::Utf8),
            };
            if !key_bytes_valid(raw) {
                return Err(Error::InvalidKey);
            }
            previous = Some(raw);
            let child = match depth.checked_add(1) {
                Some(c) => c,
                None => {
                    assert(spec_value(bytes, self.pos as int, depth + 1, self.limits) == Err::<(ValueView, int), Error>(Error::Limit("depth")));
                    return Err(Error::Limit("depth"));
                },
            };
            let value = self.value(child)?;
            let ghost before = entries@;
            let key = key_str.to_owned();
            entries.push((key, value));
            proof {
                assert(entries@.drop_last() =~= before);
                let item = (decode_utf8(raw@), value@);
                assert(entries_view(entries@) == entries_view(before).push(item));
                match spec_entry_run(bytes, self.pos as int, (count - k - 1) as int, depth as int, self.limits, Some(raw@)) {
                    Ok((es, q)) => {
                        assert(entries_view(before) + (seq![item] + es) =~= entries_view(entries@) + es);
                    },
                    Err(_) => {},
                }
            }
            k += 1;
        }
        assert(entries_view(entries@) + Seq::<(Seq<char>, ValueView)>::empty() =~= entries_view(entries@));
        Ok(entries)
    }
}

} // verus!
