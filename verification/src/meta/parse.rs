//! What decoding returns for given bytes, stated as spec functions.  Each
//! parser reads `bytes` from position `pos` and gives back the parsed item
//! and the position after it, or the error that stops decoding.

use vstd::prelude::*;
use vstd::utf8::*;
use super::error::Error;
use super::format::{lex_lt, le_value, magic_bytes, valid_key};
use super::leb::{leb128, pow128};
use super::value::{Limits, ValueView};

verus! {

/// Taking `len` bytes at `pos`: the position after them, or why not.
pub open spec fn spec_take(bytes: Seq<u8>, pos: int, len: int) -> Result<int, Error> {
    if pos + len > usize::MAX {
        Err(Error::Limit("length"))
    } else if pos < 0 || len < 0 || pos + len > bytes.len() {
        Err(Error::Eof)
    } else {
        Ok(pos + len)
    }
}

/// Reading LEB128 groups from byte `start + i` on, with `acc` the value of the
/// groups read so far; at most ten bytes, the tenth no greater than `1`.
pub open spec fn leb_scan(bytes: Seq<u8>, start: int, i: nat, acc: nat) -> Result<(nat, int), Error>
    decreases 10 - i,
{
    if i >= 10 {
        Err(Error::Leb)
    } else {
        match spec_take(bytes, start + i, 1) {
            Err(e) => Err(e),
            Ok(_) => {
                let b = bytes[start + i];
                if i == 9 && b > 1 {
                    Err(Error::Leb)
                } else if b < 128 {
                    Ok((acc + ((b as nat) % 128) * pow128(i), start + i + 1))
                } else {
                    leb_scan(bytes, start, i + 1, acc + ((b as nat) % 128) * pow128(i))
                }
            },
        }
    }
}

/// A successful scan ends past its start and within the bytes.
pub proof fn lemma_leb_scan_advances(bytes: Seq<u8>, start: int, i: nat, acc: nat)
    ensures
        leb_scan(bytes, start, i, acc) matches Ok((_, end)) ==> 0 <= start + i < end <= bytes.len(),
    decreases 10 - i,
{
    if i < 10 {
        lemma_leb_scan_advances(bytes, start, i + 1, acc + ((bytes[start + i] as nat) % 128) * pow128(i));
    }
}

/// A `u64` read successfully ends past its start and within the bytes.
pub proof fn lemma_u64_advances(bytes: Seq<u8>, pos: int)
    ensures
        spec_u64(bytes, pos) matches Ok((_, end)) ==> 0 <= pos < end <= bytes.len(),
{
    lemma_leb_scan_advances(bytes, pos, 0, 0);
}

/// Reading a `u64`: the value read must have been written canonically.
pub open spec fn spec_u64(bytes: Seq<u8>, pos: int) -> Result<(u64, int), Error> {
    match leb_scan(bytes, pos, 0, 0) {
        Err(e) => Err(e),
        Ok((v, end)) => if bytes.subrange(pos, end) == leb128(v) {
            Ok((v as u64, end))
        } else {
            Err(Error::NonCanonicalLeb)
        },
    }
}

/// Reading one value at nesting `depth`: tag, payload length, payload; the
/// payload must be read to its end.
pub open spec fn spec_value(bytes: Seq<u8>, pos: int, depth: int, lim: Limits) -> Result<(ValueView, int), Error>
    decreases bytes.len(), 0int, 0int,
{
    if depth > lim.max_depth {
        Err(Error::Limit("depth"))
    } else {
        match spec_take(bytes, pos, 1) {
            Err(e) => Err(e),
            Ok(p1) => {
                let tag = bytes[pos];
                match spec_u64(bytes, p1) {
                    Err(e) => Err(e),
                    Ok((len, p2)) => if len > lim.max_value_len {
                        Err(Error::Limit("value"))
                    } else {
                        match spec_take(bytes, p2, len as int) {
                            Err(e) => Err(e),
                            Ok(p3) => {
                                let payload = bytes.subrange(p2, p3);
                                proof {
                                    lemma_u64_advances(bytes, p1);
                                }
                                match spec_payload(payload, tag, depth, lim) {
                                    Err(e) => Err(e),
                                    Ok((v, used)) => if used != payload.len() {
                                        Err(Error::TrailingBytes)
                                    } else {
                                        Ok((v, p3))
                                    },
                                }
                            },
                        }
                    },
                }
            },
        }
    }
}

/// Reading the payload of a value tagged `tag`, from its first byte: the
/// value and how far into the payload the reading went.
pub open spec fn spec_payload(payload: Seq<u8>, tag: u8, depth: int, lim: Limits) -> Result<(ValueView, int), Error>
    decreases payload.len(), 3int, 0int,
{
    if tag == 0 {
        match spec_u64(payload, 0) {
            Err(e) => Err(e),
            Ok((v, p)) => Ok((ValueView::U64(v), p)),
        }
    } else if tag == 1 {
        match spec_take(payload, 0, 8) {
            Err(e) => Err(e),
            Ok(p) => Ok((ValueView::I64((le_value(payload.subrange(0, 8)) as u64) as i64), p)),
        }
    } else if tag == 2 {
        match spec_take(payload, 0, 1) {
            Err(e) => Err(e),
            Ok(p) => if payload[0] == 0 {
                Ok((ValueView::Bool(false), p))
            } else if payload[0] == 1 {
                Ok((ValueView::Bool(true), p))
            } else {
                Err(Error::InvalidBool)
            },
        }
    } else if tag == 3 {
        if valid_utf8(payload) {
            Ok((ValueView::String(decode_utf8(payload)), payload.len() as int))
        } else {
            Err(Error::Utf8)
        }
    } else if tag == 4 {
        Ok((ValueView::Bytes(payload), payload.len() as int))
    } else if tag == 5 {
        if payload.len() == 32 {
            Ok((ValueView::Digest(payload), 32))
        } else {
            Err(Error::InvalidValue)
        }
    } else if tag == 6 {
        match spec_u64(payload, 0) {
            Err(e) => Err(e),
            Ok((count, p)) => if count > lim.max_entries {
                Err(Error::Limit("list"))
            } else {
                match spec_values(payload, p, count as int, depth + 1, lim) {
                    Err(e) => Err(e),
                    Ok((vs, q)) => Ok((ValueView::List(vs), q)),
                }
            },
        }
    } else if tag == 7 {
        match spec_u64(payload, 0) {
            Err(e) => Err(e),
            Ok((count, p)) => if count > lim.max_entries {
                Err(Error::Limit("map"))
            } else {
                match spec_entries(payload, p, count as int, depth + 1, lim) {
                    Err(e) => Err(e),
                    Ok((es, q)) => Ok((ValueView::Dict(es), q)),
                }
            },
        }
    } else {
        Err(Error::UnknownTag(tag))
    }
}

/// Reading `count` values one after the other, each at nesting `depth`.
pub open spec fn spec_values(bytes: Seq<u8>, pos: int, count: int, depth: int, lim: Limits) -> Result<(Seq<ValueView>, int), Error>
    decreases bytes.len(), 1int, count,
{
    if count <= 0 {
        Ok((Seq::empty(), pos))
    } else {
        match spec_value(bytes, pos, depth, lim) {
            Err(e) => Err(e),
            Ok((v, p)) => match spec_values(bytes, p, count - 1, depth, lim) {
                Err(e) => Err(e),
                Ok((vs, q)) => Ok((seq![v] + vs, q)),
            },
        }
    }
}

/// Reading the entries of a map at nesting `depth`.
pub open spec fn spec_entries(bytes: Seq<u8>, pos: int, count: int, depth: int, lim: Limits) -> Result<(Seq<(Seq<char>, ValueView)>, int), Error>
    decreases bytes.len(), 2int, 0int,
{
    if depth > lim.max_depth {
        Err(Error::Limit("depth"))
    } else {
        spec_entry_run(bytes, pos, count, depth, lim, None)
    }
}

/// Reading `count` entries whose keys must come after `prev` in byte order.
pub open spec fn spec_entry_run(
    bytes: Seq<u8>,
    pos: int,
    count: int,
    depth: int,
    lim: Limits,
    prev: Option<Seq<u8>>,
) -> Result<(Seq<(Seq<char>, ValueView)>, int), Error>
    decreases bytes.len(), 1int, count,
{
    if count <= 0 {
        Ok((Seq::empty(), pos))
    } else {
        match spec_u64(bytes, pos) {
            Err(e) => Err(e),
            Ok((len, p1)) => if len > lim.max_key_len {
                Err(Error::Limit("key"))
            } else {
                match spec_take(bytes, p1, len as int) {
                    Err(e) => Err(e),
                    Ok(p2) => {
                        let raw = bytes.subrange(p1, p2);
                        if prev is Some && !lex_lt(prev->0, raw) {
                            Err(Error::DuplicateKey)
                        } else if !valid_utf8(raw) {
                            Err(Error::Utf8)
                        } else if !valid_key(raw) {
                            Err(Error::InvalidKey)
                        } else {
                            match spec_value(bytes, p2, depth + 1, lim) {
                                Err(e) => Err(e),
                                Ok((v, p3)) => match spec_entry_run(bytes, p3, count - 1, depth, lim, Some(raw)) {
                                    Err(e) => Err(e),
                                    Ok((es, q)) => Ok((seq![(decode_utf8(raw), v)] + es, q)),
                                },
                            }
                        }
                    },
                }
            },
        }
    }
}

/// What decoding a whole manifest payload gives: its entries, or the first
/// error met.
pub open spec fn spec_decode(bytes: Seq<u8>, lim: Limits) -> Result<Seq<(Seq<char>, ValueView)>, Error> {
    if bytes.len() > lim.max_payload {
        Err(Error::Limit("payload"))
    } else if bytes.len() < 6 || bytes.subrange(0, 4) != magic_bytes() {
        Err(Error::Magic)
    } else if bytes[4] != 1 {
        Err(Error::Version(bytes[4]))
    } else if bytes[5] != 0 {
        Err(Error::Flags(bytes[5]))
    } else {
        match spec_u64(bytes, 6) {
            Err(e) => Err(e),
            Ok((count, p)) => if count > lim.max_entries {
                Err(Error::Limit("entries"))
            } else {
                match spec_entries(bytes, p, count as int, 0, lim) {
                    Err(e) => Err(e),
                    Ok((es, q)) => if q != bytes.len() {
                        Err(Error::TrailingBytes)
                    } else {
                        Ok(es)
                    },
                }
            },
        }
    }
}

} // verus!

verus! {

/// `r` with `acc` put in front of the items it read.
pub open spec fn prepend_values(acc: Seq<ValueView>, r: Result<(Seq<ValueView>, int), Error>) -> Result<(Seq<ValueView>, int), Error> {
    match r {
        Ok((vs, q)) => Ok((acc + vs, q)),
        Err(e) => Err(e),
    }
}

/// `r` with `acc` put in front of the entries it read.
pub open spec fn prepend_entries(
    acc: Seq<(Seq<char>, ValueView)>,
    r: Result<(Seq<(Seq<char>, ValueView)>, int), Error>,
) -> Result<(Seq<(Seq<char>, ValueView)>, int), Error> {
    match r {
        Ok((es, q)) => Ok((acc + es, q)),
        Err(e) => Err(e),
    }
}

} // verus!
