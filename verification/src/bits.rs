//! Bits in bytes: how a run of bits is packed, least significant bit first,
//! and how the payload is read back.

use vstd::prelude::*;

verus! {

/// Whether bit `k` of `byte` is set; bit 0 is the least significant.
pub open spec fn bit_of(byte: u8, k: u8) -> bool {
    (byte >> k) & 1 == 1
}

/// `byte` with bit `k` set.
pub open spec fn with_bit(byte: u8, k: u8) -> u8 {
    byte | (1u8 << k)
}

/// The byte that holds up to eight bits, the first in bit 0; bits beyond
/// them are clear.
pub open spec fn byte_of(bits: Seq<bool>) -> u8
    recommends
        bits.len() <= 8,
    decreases bits.len(),
{
    if bits.len() == 0 {
        0
    } else if bits.last() {
        with_bit(byte_of(bits.drop_last()), (bits.len() - 1) as u8)
    } else {
        byte_of(bits.drop_last())
    }
}

/// The bits from `8 * j` on that go into byte `j`: eight, or what is left.
pub open spec fn chunk(bits: Seq<bool>, j: int) -> Seq<bool> {
    bits.subrange(8 * j, if 8 * j + 8 <= bits.len() { 8 * j + 8 } else { bits.len() as int })
}

/// The bytes that hold `bits`, eight to a byte; the last byte is padded with
/// clear bits.
pub open spec fn packed(bits: Seq<bool>) -> Seq<u8> {
    Seq::new(((bits.len() + 7) / 8) as nat, |j: int| byte_of(chunk(bits, j)))
}

/// The offset bit of a run of bits: how many of them the last byte holds, or
/// 0 if the run fills its bytes.
pub open spec fn offset_of(bits: Seq<bool>) -> u32 {
    (bits.len() % 8) as u32
}

/// The number of valid bits in a payload of `len` bytes: all of them, unless
/// the offset bit is from 1 to 7 and so counts those of the last byte.
pub open spec fn bit_count(len: nat, offset: Option<u32>) -> nat {
    if len == 0 {
        0
    } else if offset is Some && 1 <= offset->0 <= 7 {
        (8 * (len - 1) + offset->0) as nat
    } else {
        8 * len
    }
}

/// The valid bits of a payload, in the order in which they are read.
pub open spec fn payload_bits(bytes: Seq<u8>, offset: Option<u32>) -> Seq<bool> {
    Seq::new(bit_count(bytes.len(), offset), |i: int| bit_of(bytes[i / 8], (i % 8) as u8))
}

/// Setting a bit sets that bit and leaves the others.
pub proof fn lemma_with_bit(byte: u8, n: u8, k: u8)
    requires
        n < 8,
        k < 8,
    ensures
        bit_of(with_bit(byte, n), k) == (k == n || bit_of(byte, k)),
{
    assert(((byte | (1u8 << n)) >> k) & 1 == 1 <==> (k == n || (byte >> k) & 1 == 1))
        by (bit_vector)
        requires
            n < 8,
            k < 8,
    ;
}

/// No bit of the zero byte is set.
pub proof fn lemma_zero_bits(k: u8)
    requires
        k < 8,
    ensures
        !bit_of(0, k),
{
    assert((0u8 >> k) & 1 == 0) by (bit_vector)
        requires
            k < 8,
    ;
}

/// A byte made of bits holds each of them in its place, and no others.
pub proof fn lemma_byte_of(bits: Seq<bool>, k: u8)
    requires
        bits.len() <= 8,
        k < 8,
    ensures
        bit_of(byte_of(bits), k) == (k < bits.len() && bits[k as int]),
    decreases bits.len(),
{
    if bits.len() == 0 {
        lemma_zero_bits(k);
    } else {
        lemma_byte_of(bits.drop_last(), k);
        if bits.last() {
            lemma_with_bit(byte_of(bits.drop_last()), (bits.len() - 1) as u8, k);
        }
    }
}

/// Bits that follow full bytes go into a byte of their own.
pub proof fn lemma_packed_push(full: Seq<bool>, rest: Seq<bool>)
    requires
        full.len() % 8 == 0,
        1 <= rest.len() <= 8,
    ensures
        packed(full + rest) == packed(full).push(byte_of(rest)),
{
    let all = full + rest;
    let n = full.len() / 8;
    assert(packed(all).len() == n + 1);
    assert(packed(full).len() == n);
    assert forall|j: int| 0 <= j < n + 1 implies #[trigger] packed(all)[j] == packed(full).push(
        byte_of(rest),
    )[j] by {
        if j < n {
            assert(chunk(all, j) =~= chunk(full, j));
        } else {
            assert(chunk(all, j) =~= rest);
        }
    }
    assert(packed(all) =~= packed(full).push(byte_of(rest)));
}

/// Reading a packed payload with its offset bit gives the bits back, and no
/// bit more: where the bits fill their bytes, every bit of the payload
/// counts; where from one to seven bits are left over, the last byte counts
/// for as many as the offset bit says.
pub proof fn lemma_unpack(bits: Seq<bool>)
    ensures
        bit_count(packed(bits).len(), Some(offset_of(bits))) == bits.len(),
        payload_bits(packed(bits), Some(offset_of(bits))) == bits,
{
    let bytes = packed(bits);
    let read = payload_bits(bytes, Some(offset_of(bits)));
    assert(read.len() == bits.len());
    assert forall|i: int| 0 <= i < bits.len() implies read[i] == bits[i] by {
        let j = i / 8;
        let k = (i % 8) as u8;
        assert(bytes[j] == byte_of(chunk(bits, j)));
        lemma_byte_of(chunk(bits, j), k);
        assert(chunk(bits, j)[k as int] == bits[i]);
    }
    assert(read =~= bits);
}

} // verus!
