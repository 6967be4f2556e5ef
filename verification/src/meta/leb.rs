//! Unsigned LEB128, the integer encoding of the manifest format.

use vstd::prelude::*;

verus! {

/// `128` raised to the power `i`.
pub open spec fn pow128(i: nat) -> nat
    decreases i,
{
    if i == 0 {
        1
    } else {
        128 * pow128((i - 1) as nat)
    }
}

/// The canonical (shortest) unsigned LEB128 encoding of `v`: seven bits per
/// byte, least significant group first, the high bit set on every byte but
/// the last.
pub open spec fn leb128(v: nat) -> Seq<u8>
    decreases v,
{
    if v < 128 {
        seq![v as u8]
    } else {
        seq![(v % 128 + 128) as u8] + leb128(v / 128)
    }
}

/// Appends the canonical LEB128 encoding of `value` to `out`.
pub fn put_u64(out: &mut Vec<u8>, value: u64)
    ensures
        final(out)@ == old(out)@ + leb128(value as nat),
{
    let mut v = value;
    loop
        invariant
            out@ + leb128(v as nat) == old(out)@ + leb128(value as nat),
        decreases v,
    {
        let rest = v / 128;
        let low = (v % 128) as u8;
        let byte = if rest != 0 {
            low + 128
        } else {
            low
        };
        let ghost before = out@;
        out.push(byte);
        assert(leb128(v as nat) == seq![byte] + if rest == 0 {
            Seq::<u8>::empty()
        } else {
            leb128(rest as nat)
        });
        if rest == 0 {
            assert(out@ == before + leb128(v as nat));
            return ;
        }
        assert(out@ + leb128(rest as nat) == before + leb128(v as nat));
        v = rest;
    }
}

} // verus!
