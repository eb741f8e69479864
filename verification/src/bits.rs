//! Single bits of bytes, least significant first.

use vstd::prelude::*;

verus! {

/// Bit `i` of `b`, counted from the least significant one.
pub open spec fn byte_bit(b: u8, i: int) -> bool {
    b & (1u8 << (i as u8)) != 0
}

/// Bit `i` of the octets in a row, least significant first in each.
pub open spec fn octet_bit(octets: Seq<u8>, i: int) -> bool {
    byte_bit(octets[i / 8], i % 8)
}

/// The byte with bit `i` alone set.
pub(crate) fn bit_mask(i: u8) -> (m: u8)
    requires
        i < 8,
    ensures
        m == 1u8 << i,
{
    1u8 << i
}

pub(crate) proof fn lemma_bit_of_zero(i: int)
    requires
        0 <= i < 8,
    ensures
        !byte_bit(0u8, i),
{
    let k = i as u8;
    assert(0u8 & (1u8 << k) == 0) by (bit_vector);
}

pub(crate) proof fn lemma_bit_of_full(i: int)
    requires
        0 <= i < 8,
    ensures
        byte_bit(0xffu8, i),
{
    let k = i as u8;
    assert(0xffu8 & (1u8 << k) != 0) by (bit_vector)
        requires
            k < 8,
    ;
}

pub(crate) proof fn lemma_bit_set(b: u8, i: int, j: int)
    requires
        0 <= i < 8,
        0 <= j < 8,
    ensures
        byte_bit(b | (1u8 << (i as u8)), j) == (byte_bit(b, j) || i == j),
{
    let k = i as u8;
    let l = j as u8;
    assert(((b | (1u8 << k)) & (1u8 << l) != 0) == ((b & (1u8 << l) != 0) || k == l)) by (bit_vector)
        requires
            k < 8,
            l < 8,
    ;
}

pub(crate) proof fn lemma_bit_clear(b: u8, i: int, j: int)
    requires
        0 <= i < 8,
        0 <= j < 8,
    ensures
        byte_bit(b & !(1u8 << (i as u8)), j) == (byte_bit(b, j) && i != j),
{
    let k = i as u8;
    let l = j as u8;
    assert(((b & !(1u8 << k)) & (1u8 << l) != 0) == ((b & (1u8 << l) != 0) && k != l)) by (bit_vector)
        requires
            k < 8,
            l < 8,
    ;
}

/// `b & want == want` says that `b` has every bit of `want`.
pub(crate) proof fn lemma_covers(b: u8, want: u8)
    ensures
        (b & want == want) == (forall|j: int| 0 <= j < 8 && byte_bit(want, j) ==> byte_bit(b, j)),
{
    assert((b & want == want) == ({
        &&& (want & (1u8 << 0u8) != 0 ==> b & (1u8 << 0u8) != 0)
        &&& (want & (1u8 << 1u8) != 0 ==> b & (1u8 << 1u8) != 0)
        &&& (want & (1u8 << 2u8) != 0 ==> b & (1u8 << 2u8) != 0)
        &&& (want & (1u8 << 3u8) != 0 ==> b & (1u8 << 3u8) != 0)
        &&& (want & (1u8 << 4u8) != 0 ==> b & (1u8 << 4u8) != 0)
        &&& (want & (1u8 << 5u8) != 0 ==> b & (1u8 << 5u8) != 0)
        &&& (want & (1u8 << 6u8) != 0 ==> b & (1u8 << 6u8) != 0)
        &&& (want & (1u8 << 7u8) != 0 ==> b & (1u8 << 7u8) != 0)
    })) by (bit_vector);
    assert forall|j: int| 0 <= j < 8 && b & want == want && byte_bit(want, j) implies byte_bit(
        b,
        j,
    ) by {
        assert(j == 0 || j == 1 || j == 2 || j == 3 || j == 4 || j == 5 || j == 6 || j == 7);
    }
    if forall|j: int| 0 <= j < 8 && byte_bit(want, j) ==> byte_bit(b, j) {
        assert(byte_bit(want, 0) ==> byte_bit(b, 0));
        assert(byte_bit(want, 1) ==> byte_bit(b, 1));
        assert(byte_bit(want, 2) ==> byte_bit(b, 2));
        assert(byte_bit(want, 3) ==> byte_bit(b, 3));
        assert(byte_bit(want, 4) ==> byte_bit(b, 4));
        assert(byte_bit(want, 5) ==> byte_bit(b, 5));
        assert(byte_bit(want, 6) ==> byte_bit(b, 6));
        assert(byte_bit(want, 7) ==> byte_bit(b, 7));
    }
}

/// A bit of a byte is a binary digit of its value.
pub proof fn law_bits_are_binary_digits(b: u8)
    ensures
        byte_bit(b, 0) == (b % 2 == 1),
        byte_bit(b, 1) == (b / 2 % 2 == 1),
        byte_bit(b, 2) == (b / 4 % 2 == 1),
        byte_bit(b, 3) == (b / 8 % 2 == 1),
        byte_bit(b, 4) == (b / 16 % 2 == 1),
        byte_bit(b, 5) == (b / 32 % 2 == 1),
        byte_bit(b, 6) == (b / 64 % 2 == 1),
        byte_bit(b, 7) == (b / 128 == 1),
{
    assert((b & (1u8 << 0u8) != 0) == (b % 2 == 1) && (b & (1u8 << 1u8) != 0) == (b / 2 % 2 == 1)
        && (b & (1u8 << 2u8) != 0) == (b / 4 % 2 == 1) && (b & (1u8 << 3u8) != 0) == (b / 8 % 2
        == 1) && (b & (1u8 << 4u8) != 0) == (b / 16 % 2 == 1) && (b & (1u8 << 5u8) != 0) == (b / 32
        % 2 == 1) && (b & (1u8 << 6u8) != 0) == (b / 64 % 2 == 1) && (b & (1u8 << 7u8) != 0) == (b
        / 128 == 1)) by (bit_vector);
}

/// The bits of octets in a row are those of the octet that they fall into.
pub proof fn law_octets_stand_in_a_row(octets: Seq<u8>, k: int, j: int)
    requires
        0 <= k < octets.len(),
        0 <= j < 8,
    ensures
        octet_bit(octets, 8 * k + j) == byte_bit(octets[k], j),
{
    assert((8 * k + j) / 8 == k && (8 * k + j) % 8 == j);
}

} // verus!
