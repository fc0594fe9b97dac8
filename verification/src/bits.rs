//! Bit-level facts about bytes and 256-bit identifiers.
//!
//! Identifiers are read most significant bit first: bit 0 is the top bit of
//! byte 0 and bit 255 is the lowest bit of byte 31.

use vstd::prelude::*;
use vstd::string::StrSliceExecFns;
use to_binary::BinaryString;

verus! {

/// Bit `i` of a byte, counted from the most significant bit.
pub open spec fn byte_bit(b: u8, i: u8) -> bool {
    (b >> ((7 - i) as u8)) & 1u8 == 1u8
}

/// The two bytes agree on their `i` most significant bits.
pub open spec fn byte_prefix_eq(a: u8, b: u8, i: u8) -> bool {
    &&& (i > 0 ==> byte_bit(a, 0) == byte_bit(b, 0))
    &&& (i > 1 ==> byte_bit(a, 1) == byte_bit(b, 1))
    &&& (i > 2 ==> byte_bit(a, 2) == byte_bit(b, 2))
    &&& (i > 3 ==> byte_bit(a, 3) == byte_bit(b, 3))
    &&& (i > 4 ==> byte_bit(a, 4) == byte_bit(b, 4))
    &&& (i > 5 ==> byte_bit(a, 5) == byte_bit(b, 5))
    &&& (i > 6 ==> byte_bit(a, 6) == byte_bit(b, 6))
    &&& (i > 7 ==> byte_bit(a, 7) == byte_bit(b, 7))
}

/// Two bytes with the same eight bits are the same byte.
pub proof fn lemma_byte_ext(a: u8, b: u8)
    requires
        byte_prefix_eq(a, b, 8),
    ensures
        a == b,
{
    assert(byte_prefix_eq(a, b, 8) ==> a == b) by (bit_vector);
}

/// If `a` and `b` agree above bit `i`, and at bit `i` only `a` agrees with
/// `c`, then `a` is closer to `c` than `b` is.
pub proof fn lemma_xor_order(a: u8, b: u8, c: u8, i: u8)
    requires
        i < 8,
        byte_prefix_eq(a, b, i),
        byte_bit(a, i) == byte_bit(c, i),
        byte_bit(b, i) != byte_bit(c, i),
    ensures
        (a ^ c) < (b ^ c),
{
    assert(i < 8 && byte_prefix_eq(a, b, i) && byte_bit(a, i) == byte_bit(c, i) && byte_bit(b, i)
        != byte_bit(c, i) ==> (a ^ c) < (b ^ c)) by (bit_vector);
}

/// Exclusive or with a fixed byte is cancellable and vanishes only on equal
/// operands.
pub proof fn lemma_xor_basics(a: u8, b: u8, c: u8)
    ensures
        a ^ b == b ^ a,
        a ^ a == 0u8,
        (a ^ b == a ^ c) ==> b == c,
        (a ^ b == 0u8) ==> a == b,
{
    assert(a ^ b == b ^ a) by (bit_vector);
    assert(a ^ a == 0u8) by (bit_vector);
    assert((a ^ b == a ^ c) ==> b == c) by (bit_vector);
    assert((a ^ b == 0u8) ==> a == b) by (bit_vector);
}

/// Flipping bit `i` of a byte changes that bit and no other.
pub proof fn lemma_flip_bit(a: u8, i: u8, j: u8)
    requires
        i < 8,
        j < 8,
    ensures
        byte_bit(a ^ (1u8 << ((7 - i) as u8)), j) == (byte_bit(a, j) != (i == j)),
{
    assert(i < 8 && j < 8 ==> (byte_bit(a ^ (1u8 << ((7 - i) as u8)), j) == (byte_bit(a, j) != (i
        == j)))) by (bit_vector);
}

/// The eight binary digits of a byte, most significant first.
pub open spec fn binary_digits(b: u8) -> Seq<char> {
    Seq::new(8, |i: int| if byte_bit(b, i as u8) { '1' } else { '0' })
}

/// Calls `BinaryString::from(u8)` of the crate to-binary and hands out its
/// string. The contract claims what that function's body shows: the byte
/// formatted as eight binary digits, padded with zeros, most significant
/// digit first.
#[verifier::external_body]
fn binary_string(byte: u8) -> (s: String)
    ensures
        s@ == binary_digits(byte),
{
    BinaryString::from(byte).0
}

/// Reads bit `index` of `byte`, counted from the most significant bit.
pub fn bit_of(byte: u8, index: usize) -> (r: bool)
    requires
        index < 8,
    ensures
        r == byte_bit(byte, index as u8),
{
    let s = binary_string(byte);
    let c = s.as_str().get_char(index);
    c == '1'
}

} // verus!
