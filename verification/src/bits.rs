//! Bit sequences as the mathematical model of packed bytes: bytes are read
//! and written most significant bit first.

use vstd::prelude::*;

verus! {

/// Bit `i` of `b`, where bit 0 is the most significant one.
pub open spec fn bit_at(b: u8, i: int) -> bool {
    (b >> ((7 - i) as u8)) & 1u8 == 1u8
}

/// The eight bits of `b`, most significant first.
pub open spec fn byte_bits(b: u8) -> Seq<bool> {
    Seq::new(8, |i: int| bit_at(b, i))
}

/// The bits of a byte string, in stream order.
pub open spec fn unpack(bytes: Seq<u8>) -> Seq<bool> {
    Seq::new(8 * bytes.len(), |i: int| bit_at(bytes[i / 8], i % 8))
}

/// A bit as the number 0 or 1.
pub open spec fn bit_value(bit: bool) -> u8 {
    if bit { 1u8 } else { 0u8 }
}

/// The byte whose eight bits, most significant first, are `bits[0..8]`.
pub open spec fn byte_of(bits: Seq<bool>) -> u8 {
    (bit_value(bits[0]) << 7u8) | (bit_value(bits[1]) << 6u8) | (bit_value(bits[2]) << 5u8)
        | (bit_value(bits[3]) << 4u8) | (bit_value(bits[4]) << 3u8) | (bit_value(bits[5]) << 2u8)
        | (bit_value(bits[6]) << 1u8) | bit_value(bits[7])
}

/// The bytes that a bit sequence packs into, eight bits to a byte; bits
/// beyond the last whole byte are left out.
pub open spec fn pack(bits: Seq<bool>) -> Seq<u8> {
    Seq::new((bits.len() / 8) as nat, |i: int| byte_of(bits.subrange(8 * i, 8 * i + 8)))
}

/// `n` zero bits.
pub open spec fn zeros(n: nat) -> Seq<bool> {
    Seq::new(n, |i: int| false)
}

/// The number of bits, 0 to 7, that lead from `n` bits to a whole number
/// of bytes.
pub open spec fn padding(n: nat) -> nat {
    ((8 - n % 8) % 8) as nat
}

/// Appending a byte appends its eight bits.
pub proof fn lemma_unpack_push(bytes: Seq<u8>, b: u8)
    ensures
        unpack(bytes.push(b)) =~= unpack(bytes) + byte_bits(b),
{
    let l = unpack(bytes.push(b));
    let r = unpack(bytes) + byte_bits(b);
    assert(l.len() == r.len());
    assert forall|i: int| 0 <= i < l.len() implies l[i] == r[i] by {
        if i < 8 * bytes.len() {
            assert(i / 8 < bytes.len());
        } else {
            assert(i / 8 == bytes.len());
            assert(i % 8 == i - 8 * bytes.len());
        }
    }
}

/// Reassembling the bits of a byte gives the byte back.
pub proof fn lemma_byte_of_bits(b: u8)
    ensures
        byte_of(byte_bits(b)) == b,
{
    let s = byte_bits(b);
    let x0 = bit_value(s[0]);
    let x1 = bit_value(s[1]);
    let x2 = bit_value(s[2]);
    let x3 = bit_value(s[3]);
    let x4 = bit_value(s[4]);
    let x5 = bit_value(s[5]);
    let x6 = bit_value(s[6]);
    let x7 = bit_value(s[7]);
    assert(x0 == (b >> 7u8) & 1u8) by {
        assert((b >> 7u8) & 1u8 == 1u8 || (b >> 7u8) & 1u8 == 0u8) by (bit_vector);
    }
    assert(x1 == (b >> 6u8) & 1u8) by {
        assert((b >> 6u8) & 1u8 == 1u8 || (b >> 6u8) & 1u8 == 0u8) by (bit_vector);
    }
    assert(x2 == (b >> 5u8) & 1u8) by {
        assert((b >> 5u8) & 1u8 == 1u8 || (b >> 5u8) & 1u8 == 0u8) by (bit_vector);
    }
    assert(x3 == (b >> 4u8) & 1u8) by {
        assert((b >> 4u8) & 1u8 == 1u8 || (b >> 4u8) & 1u8 == 0u8) by (bit_vector);
    }
    assert(x4 == (b >> 3u8) & 1u8) by {
        assert((b >> 3u8) & 1u8 == 1u8 || (b >> 3u8) & 1u8 == 0u8) by (bit_vector);
    }
    assert(x5 == (b >> 2u8) & 1u8) by {
        assert((b >> 2u8) & 1u8 == 1u8 || (b >> 2u8) & 1u8 == 0u8) by (bit_vector);
    }
    assert(x6 == (b >> 1u8) & 1u8) by {
        assert((b >> 1u8) & 1u8 == 1u8 || (b >> 1u8) & 1u8 == 0u8) by (bit_vector);
    }
    assert(x7 == (b >> 0u8) & 1u8) by {
        assert((b >> 0u8) & 1u8 == 1u8 || (b >> 0u8) & 1u8 == 0u8) by (bit_vector);
    }
    assert(b == (((b >> 7u8) & 1u8) << 7u8) | (((b >> 6u8) & 1u8) << 6u8) | (((b >> 5u8) & 1u8)
        << 5u8) | (((b >> 4u8) & 1u8) << 4u8) | (((b >> 3u8) & 1u8) << 3u8) | (((b >> 2u8) & 1u8)
        << 2u8) | (((b >> 1u8) & 1u8) << 1u8) | ((b >> 0u8) & 1u8)) by (bit_vector);
}

/// Taking apart the byte made of eight bits gives the bits back.
pub proof fn lemma_bits_of_byte(s: Seq<bool>)
    requires
        s.len() == 8,
    ensures
        byte_bits(byte_of(s)) == s,
{
    let x0 = bit_value(s[0]);
    let x1 = bit_value(s[1]);
    let x2 = bit_value(s[2]);
    let x3 = bit_value(s[3]);
    let x4 = bit_value(s[4]);
    let x5 = bit_value(s[5]);
    let x6 = bit_value(s[6]);
    let x7 = bit_value(s[7]);
    let v = byte_of(s);
    assert((v >> 7u8) & 1u8 == x0 && (v >> 6u8) & 1u8 == x1 && (v >> 5u8) & 1u8 == x2 && (v >> 4u8)
        & 1u8 == x3 && (v >> 3u8) & 1u8 == x4 && (v >> 2u8) & 1u8 == x5 && (v >> 1u8) & 1u8 == x6
        && (v >> 0u8) & 1u8 == x7) by (bit_vector)
        requires
            x0 <= 1 && x1 <= 1 && x2 <= 1 && x3 <= 1 && x4 <= 1 && x5 <= 1 && x6 <= 1 && x7 <= 1,
            v == (x0 << 7u8) | (x1 << 6u8) | (x2 << 5u8) | (x3 << 4u8) | (x4 << 3u8) | (x5 << 2u8)
                | (x6 << 1u8) | x7,
    ;
    assert(byte_bits(v) =~= s);
}

/// Packing the bits of a byte string gives the byte string back.
pub proof fn lemma_pack_unpack(bytes: Seq<u8>)
    ensures
        pack(unpack(bytes)) == bytes,
{
    let bits = unpack(bytes);
    assert forall|i: int| 0 <= i < bytes.len() implies pack(bits)[i] == bytes[i] by {
        assert(bits.subrange(8 * i, 8 * i + 8) =~= byte_bits(bytes[i])) by {
            assert forall|k: int| 0 <= k < 8 implies bits[8 * i + k] == bit_at(bytes[i], k) by {
                assert((8 * i + k) / 8 == i);
                assert((8 * i + k) % 8 == k);
            }
        }
        lemma_byte_of_bits(bytes[i]);
    }
    assert(pack(bits) =~= bytes);
}

/// A bit sequence of whole bytes is the bits of what it packs into.
pub proof fn lemma_unpack_pack(bits: Seq<bool>)
    requires
        bits.len() % 8 == 0,
    ensures
        unpack(pack(bits)) == bits,
{
    let bytes = pack(bits);
    assert forall|k: int| 0 <= k < bits.len() implies unpack(bytes)[k] == bits[k] by {
        let i = k / 8;
        let part = bits.subrange(8 * i, 8 * i + 8);
        lemma_bits_of_byte(part);
        assert(byte_bits(bytes[i])[k % 8] == part[k % 8]);
    }
    assert(unpack(bytes) =~= bits);
}

/// What shifting a bit in from the right does to the bits already there.
pub proof fn lemma_shift_in(b: u8, x: u8, k: u8, k1: u8)
    requires
        k < 7,
        k1 == k + 1,
        x <= 1,
    ensures
        (((b << 1u8) | x) >> k1) & 1u8 == (b >> k) & 1u8,
        (((b << 1u8) | x) >> 0u8) & 1u8 == x,
{
    assert((((b << 1u8) | x) >> k1) & 1u8 == (b >> k) & 1u8) by (bit_vector)
        requires
            k < 7,
            k1 == k + 1,
            x <= 1,
    ;
    assert((((b << 1u8) | x) >> 0u8) & 1u8 == x) by (bit_vector)
        requires
            x <= 1,
    ;
}

} // verus!
