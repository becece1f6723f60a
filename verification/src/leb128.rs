//! Unsigned LEB128: the variable-length byte encoding for integers used
//! throughout the binary module format.

use vstd::prelude::*;

verus! {

/// The LEB128 encoding of `v`: seven value bits per byte, least significant
/// group first, with the high bit of every byte but the last set.
pub open spec fn leb128_bytes(v: nat) -> Seq<u8>
    decreases v,
{
    if v < 128 {
        seq![v as u8]
    } else {
        seq![(v % 128 + 128) as u8] + leb128_bytes(v / 128)
    }
}

/// Reads one LEB128 integer from the front of `s`: the value and the number
/// of bytes consumed, or `None` when `s` ends inside the encoding.
pub open spec fn leb128_decode_prefix(s: Seq<u8>) -> Option<(nat, int)>
    decreases s.len(),
{
    if s.len() == 0 {
        None
    } else if s[0] < 128 {
        Some((s[0] as nat, 1))
    } else {
        match leb128_decode_prefix(s.drop_first()) {
            None => None,
            Some((rest, n)) => Some(((s[0] - 128) as nat + 128 * rest, n + 1)),
        }
    }
}

/// Decoding inverts encoding, even with arbitrary bytes following: the length
/// written in front of a payload is read back as exactly that length.
pub proof fn lemma_leb128_round_trip(v: nat, tail: Seq<u8>)
    ensures
        leb128_decode_prefix(leb128_bytes(v) + tail) == Some(
            (v, leb128_bytes(v).len() as int),
        ),
    decreases v,
{
    let s = leb128_bytes(v) + tail;
    if v < 128 {
        assert(s[0] == v as u8);
    } else {
        lemma_leb128_round_trip(v / 128, tail);
        assert(s.drop_first() =~= leb128_bytes(v / 128) + tail);
        assert(s[0] == (v % 128 + 128) as u8);
        assert((s[0] - 128) as nat + 128 * (v / 128) == v) by {
            assert(v % 128 + 128 * (v / 128) == v) by (nonlinear_arith);
        }
    }
}

/// Encodes `val` as unsigned LEB128.
pub fn encode_unsigned(val: u32) -> (result: Vec<u8>)
    ensures
        result@ == leb128_bytes(val as nat),
{
    let mut rest = val;
    let mut result: Vec<u8> = Vec::new();
    loop
        invariant
            result@ + leb128_bytes(rest as nat) == leb128_bytes(val as nat),
        decreases rest,
    {
        let mut byte = rest as u8 & 0b0111_1111;
        let ghost prev: u32 = rest;
        assert(byte == prev % 128) by (bit_vector)
            requires
                byte == prev as u8 & 0b0111_1111,
        ;
        rest >>= 7;
        assert(rest == prev / 128) by (bit_vector)
            requires
                rest == prev >> 7,
        ;
        if rest != 0 {
            byte |= 0b1000_0000;
            assert(byte == prev % 128 + 128) by (bit_vector)
                requires
                    byte == (prev as u8 & 0b0111_1111) | 0b1000_0000 && prev >> 7 != 0,
            ;
        }
        result.push(byte);

        if rest == 0 {
            assert(result@ =~= leb128_bytes(val as nat));
            return result;
        }
        assert(result@ + leb128_bytes(rest as nat) =~= leb128_bytes(val as nat));
    }
}

/// Appends the LEB128 encoding of `val` to `vec`.
pub fn write_leb128(vec: &mut Vec<u8>, val: usize)
    ensures
        final(vec)@ == old(vec)@ + leb128_bytes(val as nat),
{
    let mut rest = val;
    loop
        invariant
            vec@ + leb128_bytes(rest as nat) == old(vec)@ + leb128_bytes(val as nat),
        decreases rest,
    {
        let low = rest % 128;
        let next = rest / 128;
        if next != 0 {
            vec.push((low + 128) as u8);
        } else {
            vec.push(low as u8);
        }
        rest = next;
        if rest == 0 {
            assert(vec@ =~= old(vec)@ + leb128_bytes(val as nat));
            return ;
        }
        assert(vec@ + leb128_bytes(rest as nat) =~= old(vec)@ + leb128_bytes(val as nat));
    }
}

} // verus!
