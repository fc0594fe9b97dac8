//! Node identifiers and the XOR metric on them.

use vstd::prelude::*;
use vstd::std_specs::bits::{axiom_u8_leading_zeros, u8_leading_zeros};
use primitive_types::H256;
use crate::bits::{
    bit_of, byte_bit, byte_prefix_eq, lemma_byte_ext, lemma_flip_bit, lemma_xor_basics,
    lemma_xor_order,
};
use crate::crypto::{
    append_bytes, random_u64, rsa_block_len, rsa_decrypted, rsa_generate_pem, rsa_outcome,
    rsa_private_decrypt, rsa_public_encrypt, sha256, sha256_digest, CryptoError, RSA_INPUT_MAX,
};
use crate::{C1, C2};

verus! {

/// A 256-bit coordinate in the keyspace, most significant byte first.
#[derive(Debug, Default, Hash, Eq, Clone, Copy, PartialEq, PartialOrd, Ord)]
pub struct NodeID(pub [u8; 32]);

impl View for NodeID {
    type V = Seq<u8>;

    open spec fn view(&self) -> Seq<u8> {
        self.0@
    }
}

/// Exclusive or of two byte strings, byte by byte, over the length of `a`.
pub open spec fn xor_seq(a: Seq<u8>, b: Seq<u8>) -> Seq<u8> {
    Seq::new(a.len(), |i: int| a[i] ^ b[i])
}

/// `x` and `y` first differ at index `k`, where `x` holds the smaller byte.
pub open spec fn lex_lt_at(x: Seq<u8>, y: Seq<u8>, k: int) -> bool {
    &&& 0 <= k < x.len()
    &&& k < y.len()
    &&& x[k] < y[k]
    &&& forall|m: int| 0 <= m < k ==> x[m] == y[m]
}

/// `x` is smaller than `y` as a big-endian unsigned integer (for byte
/// strings of one length: lexicographic order).
pub open spec fn lex_lt(x: Seq<u8>, y: Seq<u8>) -> bool {
    exists|k: int| #[trigger] lex_lt_at(x, y, k)
}

/// `a` is strictly closer to `target` than `b` is, by XOR distance.
pub open spec fn closer_to(target: Seq<u8>, a: Seq<u8>, b: Seq<u8>) -> bool {
    lex_lt(xor_seq(a, target), xor_seq(b, target))
}

/// Bit `j` of an identifier, bit 0 being the most significant bit of byte 0.
pub open spec fn id_bit(id: Seq<u8>, j: int) -> bool {
    byte_bit(id[j / 8], (j % 8) as u8)
}

/// Of two byte strings, at most one is smaller than the other.
pub proof fn lemma_lex_lt_asymmetric(x: Seq<u8>, y: Seq<u8>)
    requires
        lex_lt(x, y),
    ensures
        !lex_lt(y, x),
{
    let k = choose|k: int| lex_lt_at(x, y, k);
    if lex_lt(y, x) {
        let k2 = choose|k: int| lex_lt_at(y, x, k);
        if k < k2 {
            assert(y[k] == x[k]);
        } else if k2 < k {
            assert(x[k2] == y[k2]);
        }
    }
}

/// The order of byte strings is transitive.
pub proof fn lemma_lex_lt_transitive(x: Seq<u8>, y: Seq<u8>, z: Seq<u8>)
    requires
        lex_lt(x, y),
        lex_lt(y, z),
    ensures
        lex_lt(x, z),
{
    let k1 = choose|k: int| lex_lt_at(x, y, k);
    let k2 = choose|k: int| lex_lt_at(y, z, k);
    let k = if k1 <= k2 { k1 } else { k2 };
    assert forall|m: int| 0 <= m < k implies x[m] == z[m] by {
        assert(x[m] == y[m]);
        assert(y[m] == z[m]);
    }
    if k1 < k2 {
        assert(y[k1] == z[k1]);
    } else if k2 < k1 {
        assert(x[k2] == y[k2]);
    }
    assert(lex_lt_at(x, z, k));
}

/// Two byte strings of one length either agree on their first `n` bytes or
/// one is smaller than the other.
proof fn lemma_lex_scan(x: Seq<u8>, y: Seq<u8>, n: int)
    requires
        x.len() == y.len(),
        0 <= n <= x.len(),
    ensures
        lex_lt(x, y) || lex_lt(y, x) || (forall|m: int| 0 <= m < n ==> x[m] == y[m]),
    decreases n,
{
    if n > 0 {
        lemma_lex_scan(x, y, n - 1);
        if !lex_lt(x, y) && !lex_lt(y, x) {
            if x[n - 1] < y[n - 1] {
                assert(lex_lt_at(x, y, n - 1));
            } else if y[n - 1] < x[n - 1] {
                assert(lex_lt_at(y, x, n - 1));
            }
        }
    }
}

/// Two byte strings of one length are equal, or one is smaller.
pub proof fn lemma_lex_lt_total(x: Seq<u8>, y: Seq<u8>)
    requires
        x.len() == y.len(),
    ensures
        lex_lt(x, y) || lex_lt(y, x) || x == y,
{
    lemma_lex_scan(x, y, x.len() as int);
    if !lex_lt(x, y) && !lex_lt(y, x) {
        assert(x =~= y);
    }
}

/// The exclusive or of two byte strings does not depend on their order.
pub proof fn lemma_xor_seq_symmetric(a: Seq<u8>, b: Seq<u8>)
    requires
        a.len() == b.len(),
    ensures
        xor_seq(a, b) == xor_seq(b, a),
{
    assert forall|i: int| 0 <= i < a.len() implies a[i] ^ b[i] == b[i] ^ a[i] by {
        lemma_xor_basics(a[i], b[i], 0);
    }
    assert(xor_seq(a, b) =~= xor_seq(b, a));
}

/// The exclusive or of a byte string with itself is zero.
pub proof fn lemma_xor_seq_self(a: Seq<u8>)
    ensures
        xor_seq(a, a) == Seq::new(a.len(), |i: int| 0u8),
{
    assert forall|i: int| 0 <= i < a.len() implies a[i] ^ a[i] == 0u8 by {
        lemma_xor_basics(a[i], a[i], 0);
    }
    assert(xor_seq(a, a) =~= Seq::new(a.len(), |i: int| 0u8));
}

/// Byte strings that give the same exclusive or with a third are equal.
pub proof fn lemma_xor_seq_injective(a: Seq<u8>, b: Seq<u8>, c: Seq<u8>)
    requires
        a.len() == b.len(),
        a.len() == c.len(),
        xor_seq(b, a) == xor_seq(c, a),
    ensures
        b == c,
{
    assert forall|i: int| 0 <= i < a.len() implies b[i] == c[i] by {
        assert(xor_seq(b, a)[i] == b[i] ^ a[i]);
        assert(xor_seq(c, a)[i] == c[i] ^ a[i]);
        lemma_xor_basics(a[i], b[i], c[i]);
        lemma_xor_basics(b[i], a[i], 0);
        lemma_xor_basics(c[i], a[i], 0);
    }
    assert(b =~= c);
}

/// Among identifiers of one length, exactly the equal ones are at the same
/// distance from a target.
pub proof fn lemma_closer_total(t: Seq<u8>, a: Seq<u8>, b: Seq<u8>)
    requires
        a.len() == t.len(),
        b.len() == t.len(),
    ensures
        closer_to(t, a, b) || closer_to(t, b, a) || a == b,
        !(closer_to(t, a, b) && closer_to(t, b, a)),
        !closer_to(t, a, a),
{
    lemma_lex_lt_total(xor_seq(a, t), xor_seq(b, t));
    if xor_seq(a, t) == xor_seq(b, t) {
        lemma_xor_seq_injective(t, a, b);
    }
    if closer_to(t, a, b) {
        lemma_lex_lt_asymmetric(xor_seq(a, t), xor_seq(b, t));
    }
}

/// Being closer to a target is transitive.
pub proof fn lemma_closer_transitive(t: Seq<u8>, a: Seq<u8>, b: Seq<u8>, c: Seq<u8>)
    requires
        closer_to(t, a, b),
        closer_to(t, b, c),
    ensures
        closer_to(t, a, c),
{
    lemma_lex_lt_transitive(xor_seq(a, t), xor_seq(b, t), xor_seq(c, t));
}

/// Identifiers that agree on their first `8 * m + upto` bits agree on the
/// `upto` most significant bits of byte `m`.
proof fn lemma_byte_prefix_from_bits(x: Seq<u8>, y: Seq<u8>, m: int, upto: int)
    requires
        0 <= m,
        0 <= upto <= 8,
        forall|j: int| 0 <= j < 8 * m + upto ==> id_bit(x, j) == id_bit(y, j),
    ensures
        byte_prefix_eq(x[m], y[m], upto as u8),
{
    if upto > 0 {
        assert((8 * m + 0) / 8 == m && (8 * m + 0) % 8 == 0);
        assert(id_bit(x, 8 * m + 0) == id_bit(y, 8 * m + 0));
    }
    if upto > 1 {
        assert((8 * m + 1) / 8 == m && (8 * m + 1) % 8 == 1);
        assert(id_bit(x, 8 * m + 1) == id_bit(y, 8 * m + 1));
    }
    if upto > 2 {
        assert((8 * m + 2) / 8 == m && (8 * m + 2) % 8 == 2);
        assert(id_bit(x, 8 * m + 2) == id_bit(y, 8 * m + 2));
    }
    if upto > 3 {
        assert((8 * m + 3) / 8 == m && (8 * m + 3) % 8 == 3);
        assert(id_bit(x, 8 * m + 3) == id_bit(y, 8 * m + 3));
    }
    if upto > 4 {
        assert((8 * m + 4) / 8 == m && (8 * m + 4) % 8 == 4);
        assert(id_bit(x, 8 * m + 4) == id_bit(y, 8 * m + 4));
    }
    if upto > 5 {
        assert((8 * m + 5) / 8 == m && (8 * m + 5) % 8 == 5);
        assert(id_bit(x, 8 * m + 5) == id_bit(y, 8 * m + 5));
    }
    if upto > 6 {
        assert((8 * m + 6) / 8 == m && (8 * m + 6) % 8 == 6);
        assert(id_bit(x, 8 * m + 6) == id_bit(y, 8 * m + 6));
    }
    if upto > 7 {
        assert((8 * m + 7) / 8 == m && (8 * m + 7) % 8 == 7);
        assert(id_bit(x, 8 * m + 7) == id_bit(y, 8 * m + 7));
    }
}

/// Two identifiers that agree on their first `d` bits, and of which only
/// the first agrees with the target at bit `d`: the first is closer.
pub proof fn lemma_split_order(t: Seq<u8>, x: Seq<u8>, y: Seq<u8>, d: int)
    requires
        t.len() == 32,
        x.len() == 32,
        y.len() == 32,
        0 <= d < 256,
        forall|j: int| 0 <= j < d ==> id_bit(x, j) == id_bit(y, j),
        id_bit(x, d) == id_bit(t, d),
        id_bit(y, d) != id_bit(t, d),
    ensures
        closer_to(t, x, y),
{
    let k = d / 8;
    let i = (d % 8) as u8;
    assert forall|m: int| 0 <= m < k implies xor_seq(x, t)[m] == xor_seq(y, t)[m] by {
        lemma_byte_prefix_from_bits(x, y, m, 8);
        lemma_byte_ext(x[m], y[m]);
    }
    lemma_byte_prefix_from_bits(x, y, k, i as int);
    lemma_xor_order(x[k], y[k], t[k], i);
    assert(lex_lt_at(xor_seq(x, t), xor_seq(y, t), k));
}

/// Identifiers that agree on all 256 bits are equal.
pub proof fn lemma_bits_determine_id(x: Seq<u8>, y: Seq<u8>)
    requires
        x.len() == 32,
        y.len() == 32,
        forall|j: int| 0 <= j < 256 ==> id_bit(x, j) == id_bit(y, j),
    ensures
        x == y,
{
    assert forall|m: int| 0 <= m < 32 implies x[m] == y[m] by {
        lemma_byte_prefix_from_bits(x, y, m, 8);
        lemma_byte_ext(x[m], y[m]);
    }
    assert(x =~= y);
}

/// Builds two `H256` of the crate primitive-types from the arrays and
/// applies `^`, which that crate implements byte by byte.
#[verifier::external_body]
fn h256_xor(a: &[u8; 32], b: &[u8; 32]) -> (r: [u8; 32])
    ensures
        forall|i: int| 0 <= i < 32 ==> r@[i] == a@[i] ^ b@[i],
{
    (H256::from(*a) ^ H256::from(*b)).to_fixed_bytes()
}

/// Builds two `H256` of the crate primitive-types from the arrays and
/// applies `<`, which that crate defines as the order of the two byte
/// slices: the first differing byte decides.
#[verifier::external_body]
fn h256_lt(a: &[u8; 32], b: &[u8; 32]) -> (r: bool)
    ensures
        r == lex_lt(a@, b@),
{
    H256::from(*a) < H256::from(*b)
}

/// Copies 32 bytes into an `H256` with `H256::from_slice` and hands out its
/// bytes. That function panics on any other length.
#[verifier::external_body]
pub(crate) fn h256_from_slice(src: &[u8]) -> (r: [u8; 32])
    requires
        src@.len() == 32,
    ensures
        r@ == src@,
{
    H256::from_slice(src).to_fixed_bytes()
}

impl NodeID {
    /// The XOR distance between two identifiers.
    pub open spec fn spec_distance(self, other: NodeID) -> Seq<u8> {
        xor_seq(self@, other@)
    }

    /// The XOR distance to `other_key`, as a big-endian 256-bit number.
    pub fn distance(self, other_key: NodeID) -> (d: [u8; 32])
        ensures
            d@ == self.spec_distance(other_key),
    {
        let d = h256_xor(&self.0, &other_key.0);
        assert(d@ =~= xor_seq(self@, other_key@));
        d
    }

    /// The identifier's 32 bytes.
    pub fn as_bytes(&self) -> (bytes: &[u8])
        ensures
            bytes@ == self@,
    {
        self.0.as_slice()
    }

    /// The identifier made of exactly the 32 bytes of `source`.
    pub fn from_vec(source: Vec<u8>) -> (id: NodeID)
        requires
            source@.len() == 32,
        ensures
            id@ == source@,
    {
        NodeID(h256_from_slice(source.as_slice()))
    }

    /// The identifier held in `source`, if `source` has 32 bytes.
    pub fn from_slice(source: &[u8]) -> (id: Option<NodeID>)
        ensures
            source@.len() == 32 ==> id is Some && id->0@ == source@,
            source@.len() != 32 ==> id is None,
    {
        if source.len() == 32 {
            Some(NodeID(h256_from_slice(source)))
        } else {
            None
        }
    }

    /// Whether two identifiers are the same.
    pub fn same(&self, other: &NodeID) -> (r: bool)
        ensures
            r == (self@ == other@),
            r == (*self == *other),
    {
        let mut i: usize = 0;
        while i < 32
            invariant
                0 <= i <= 32,
                forall|m: int| 0 <= m < i ==> self@[m] == other@[m],
            decreases 32 - i,
        {
            if self.0[i] != other.0[i] {
                return false;
            }
            i += 1;
        }
        assert(self@ =~= other@);
        assert(self.0 =~= other.0);
        true
    }

    /// Whether `a` is strictly closer to this identifier than `b` is.
    pub fn closer(&self, a: &NodeID, b: &NodeID) -> (r: bool)
        ensures
            r == closer_to(self@, a@, b@),
    {
        let da = a.distance(*self);
        let db = b.distance(*self);
        h256_lt(&da, &db)
    }

    /// The identifier with the bit at position `8 * chunk + index` flipped.
    pub fn set_bitmask(&self, index: usize, chunk: usize) -> (flipped: NodeID)
        requires
            index < 8,
            chunk < 32,
        ensures
            flipped@ == self@.update(
                chunk as int,
                self@[chunk as int] ^ (1u8 << ((7 - index) as u8)),
            ),
            forall|j: int|
                0 <= j < 256 ==> id_bit(flipped@, j) == (id_bit(self@, j) != (j == 8 * chunk
                    + index)),
    {
        let mut bitmask: [u8; 32] = [0;32];
        let shift: u8 = (7 - index) as u8;
        assert(1u8 << shift == (1u8 << ((7 - index) as u8)));
        bitmask[chunk] = 1u8 << shift;
        let bytes = h256_xor(&self.0, &bitmask);
        let flipped = NodeID(bytes);
        proof {
            assert forall|m: int| 0 <= m < 32 implies flipped@[m] == self@.update(
                chunk as int,
                self@[chunk as int] ^ (1u8 << shift),
            )[m] by {
                if m != chunk {
                    assert(bitmask@[m] == 0u8);
                    let a = self@[m];
                    assert(a ^ 0u8 == a) by (bit_vector);
                }
            }
            assert(flipped@ =~= self@.update(chunk as int, self@[chunk as int] ^ (1u8 << shift)));
            assert forall|j: int| 0 <= j < 256 implies id_bit(flipped@, j) == (id_bit(self@, j)
                != (j == 8 * chunk + index)) by {
                if j / 8 == chunk {
                    lemma_flip_bit(self@[chunk as int], index as u8, (j % 8) as u8);
                }
            }
        }
        flipped
    }

    /// The identifier's bytes up to byte `chunk`, with the top `8 - index`
    /// bits of that byte set; for `index` 0, the single byte 1 or 0 that
    /// tells whether the top bit of byte `chunk` is set.
    pub fn prefix(&self, index: usize, chunk: usize) -> (prefix: Vec<u8>)
        requires
            index <= 8,
            chunk < 32,
        ensures
            index == 0 ==> prefix@ == seq![if self@[chunk as int] > 127 { 1u8 } else { 0u8 }],
            index > 0 ==> prefix@ == self@.take(chunk + 1).update(
                chunk as int,
                self@[chunk as int] | !(255u8 >> ((8 - index) as u8)),
            ),
    {
        let mut prefix: Vec<u8> = Vec::new();
        let mut i: usize = 0;
        while i <= chunk
            invariant
                0 <= i <= chunk + 1,
                chunk < 32,
                prefix@ == self@.take(i as int),
            decreases chunk + 1 - i,
        {
            prefix.push(self.0[i]);
            i += 1;
            assert(prefix@ =~= self@.take(i as int));
        }
        if index == 0 {
            let mut top: Vec<u8> = Vec::new();
            if prefix[chunk] > 127 {
                top.push(1);
            } else {
                top.push(0);
            }
            assert(top@ =~= seq![if self@[chunk as int] > 127 { 1u8 } else { 0u8 }]);
            return top;
        }
        let shift: u8 = (8 - index) as u8;
        let range: u8 = 255u8 >> shift;
        let last = prefix[chunk] | !range;
        prefix[chunk] = last;
        prefix
    }

    /// Bit `index` of byte `chunk`, counted from the most significant bit.
    pub fn bit(&self, index: usize, chunk: usize) -> (r: bool)
        requires
            index < 8,
            chunk < 32,
        ensures
            r == id_bit(self@, 8 * chunk + index),
    {
        assert((8 * chunk + index) / 8 == chunk && (8 * chunk + index) % 8 == index);
        bit_of(self.0[chunk], index)
    }
}

/// The distance is symmetric.
pub proof fn lemma_distance_symmetric(a: NodeID, b: NodeID)
    ensures
        a.spec_distance(b) == b.spec_distance(a),
{
    lemma_xor_seq_symmetric(a@, b@);
}

/// An identifier is at distance zero from itself, and from nothing else.
pub proof fn lemma_distance_zero(a: NodeID, b: NodeID)
    ensures
        a.spec_distance(a) == Seq::new(32, |i: int| 0u8),
        a.spec_distance(b) == Seq::new(32, |i: int| 0u8) ==> a == b,
{
    lemma_xor_seq_self(a@);
    if a.spec_distance(b) == Seq::new(32, |i: int| 0u8) {
        assert(a.spec_distance(b) == a.spec_distance(a));
        lemma_xor_seq_symmetric(a@, b@);
        lemma_xor_seq_injective(a@, b@, a@);
        assert(a.0 =~= b.0);
    }
}

/// From a fixed identifier, no two identifiers are at the same distance.
pub proof fn lemma_distance_injective(a: NodeID, b: NodeID, c: NodeID)
    requires
        a.spec_distance(b) == a.spec_distance(c),
    ensures
        b == c,
{
    lemma_xor_seq_symmetric(a@, b@);
    lemma_xor_seq_symmetric(a@, c@);
    lemma_xor_seq_injective(a@, b@, c@);
    assert(b.0 =~= c.0);
}

/// Number of leading zero bits of a byte string: eight for each leading
/// zero byte, and the leading zero bits of the first byte that is not zero.
pub open spec fn leading_zero_bits(bytes: Seq<u8>) -> nat
    decreases bytes.len(),
{
    if bytes.len() == 0 {
        0
    } else if bytes[0] == 0 {
        8 + leading_zero_bits(bytes.drop_first())
    } else {
        u8_leading_zeros(bytes[0]) as nat
    }
}

/// Counts the leading zero bits of `bytes`.
pub fn leading_zeros(bytes: &[u8]) -> (zeros: u32)
    requires
        bytes@.len() * 8 <= u32::MAX,
    ensures
        zeros == leading_zero_bits(bytes@),
{
    let mut zeros: u32 = 0;
    let mut i: usize = 0;
    assert(bytes@.subrange(0, bytes@.len() as int) =~= bytes@);
    while i < bytes.len()
        invariant
            0 <= i <= bytes@.len(),
            bytes@.len() * 8 <= u32::MAX,
            zeros == 8 * i,
            leading_zero_bits(bytes@) == zeros + leading_zero_bits(
                bytes@.subrange(i as int, bytes@.len() as int),
            ),
        decreases bytes@.len() - i,
    {
        let x: u32 = bytes[i].leading_zeros();
        let ghost rest = bytes@.subrange(i as int, bytes@.len() as int);
        proof {
            axiom_u8_leading_zeros(bytes[i as int]);
            assert(rest[0] == bytes[i as int]);
            assert(rest.drop_first() =~= bytes@.subrange(i + 1, bytes@.len() as int));
        }
        if x != 8 {
            return zeros + x;
        }
        zeros = zeros + 8;
        i += 1;
    }
    zeros
}

/// The low byte of a number.
fn low_byte(v: u64) -> (b: u8)
    ensures
        b == (v & 0xff) as u8,
{
    assert(v & 0xff < 256) by (bit_vector);
    (v & 0xff) as u8
}

/// The eight bytes of a 64-bit number, most significant first.
pub open spec fn be_bytes(x: u64) -> Seq<u8> {
    seq![
        ((x >> 56) & 0xff) as u8,
        ((x >> 48) & 0xff) as u8,
        ((x >> 40) & 0xff) as u8,
        ((x >> 32) & 0xff) as u8,
        ((x >> 24) & 0xff) as u8,
        ((x >> 16) & 0xff) as u8,
        ((x >> 8) & 0xff) as u8,
        (x & 0xff) as u8,
    ]
}

/// Writes a 64-bit number as eight bytes, most significant first.
pub fn u64_be_bytes(x: u64) -> (bytes: Vec<u8>)
    ensures
        bytes@ == be_bytes(x),
{
    let mut bytes: Vec<u8> = Vec::new();
    bytes.push(low_byte(x >> 56));
    bytes.push(low_byte(x >> 48));
    bytes.push(low_byte(x >> 40));
    bytes.push(low_byte(x >> 32));
    bytes.push(low_byte(x >> 24));
    bytes.push(low_byte(x >> 16));
    bytes.push(low_byte(x >> 8));
    bytes.push(low_byte(x));
    assert(bytes@ =~= be_bytes(x));
    bytes
}

/// What the second puzzle hashes: the identifier followed by the nonce in
/// big-endian bytes.
pub open spec fn puzzle_input(id: Seq<u8>, nonce: u64) -> Seq<u8> {
    id + be_bytes(nonce)
}

/// The second puzzle: the hash of identifier and nonce starts with at least
/// `C2` zero bits.
pub open spec fn puzzle_holds(id: Seq<u8>, nonce: u64) -> bool {
    leading_zero_bits(sha256(puzzle_input(id, nonce))) >= C2
}

/// The byte that private keys are encrypted under: one space.
pub const PASSPHRASE: u8 = 0x20;

/// Bits of the RSA keys that identities are made of.
pub const KEY_BITS: u32 = 2048;

/// Neither the key nor the input is longer than the RSA calls accept.
pub open spec fn fits_rsa(key_pem: Seq<u8>, input: Seq<u8>) -> bool {
    key_pem.len() <= RSA_INPUT_MAX && input.len() <= RSA_INPUT_MAX
}

/// What decryption with the private key `private_pem` gives for
/// `encrypted`.
pub open spec fn decrypted_by(private_pem: Seq<u8>, encrypted: Seq<u8>) -> Option<Seq<u8>> {
    rsa_decrypted(private_pem, seq![PASSPHRASE], encrypted)
}

/// The first puzzle: the hash of the identifier starts with at least `C1`
/// zero bits.
pub open spec fn identity_holds(id: Seq<u8>) -> bool {
    leading_zero_bits(sha256(id)) >= C1
}

/// Checks the second puzzle for an identifier and a nonce.
pub fn verify_puzzle(node_id: NodeID, nonce: u64) -> (ok: bool)
    ensures
        ok == puzzle_holds(node_id@, nonce),
{
    let mut input: Vec<u8> = Vec::new();
    append_bytes(&mut input, node_id.as_bytes());
    let nonce_bytes = u64_be_bytes(nonce);
    append_bytes(&mut input, nonce_bytes.as_slice());
    assert(input@ =~= puzzle_input(node_id@, nonce));
    let digest = sha256_digest(input.as_slice());
    leading_zeros(digest.as_slice()) >= C2
}

/// Draws up to `attempts` random nonces and returns the first that solves
/// the second puzzle for `node_id`. Whatever the draws, a nonce that is
/// returned solves the puzzle.
pub fn solve_puzzle(node_id: NodeID, attempts: u64) -> (found: Option<u64>)
    ensures
        found matches Some(nonce) ==> puzzle_holds(node_id@, nonce),
        attempts == 0 ==> found is None,
{
    let mut tried: u64 = 0;
    while tried < attempts
        invariant
            tried <= attempts,
        decreases attempts - tried,
    {
        let nonce = random_u64();
        if verify_puzzle(node_id, nonce) {
            return Some(nonce);
        }
        tried += 1;
    }
    None
}

/// The identifier that belongs to a public key: its hash, provided that
/// the hash of that hash passes the first puzzle.
pub fn derive_node_id(public_key: &[u8]) -> (id: Option<NodeID>)
    ensures
        identity_holds(sha256(public_key@)) ==> id is Some && id->0@ == sha256(public_key@),
        !identity_holds(sha256(public_key@)) ==> id is None,
{
    let id_key = sha256_digest(public_key);
    let check = sha256_digest(id_key.as_slice());
    if leading_zeros(check.as_slice()) >= C1 {
        Some(NodeID::from_vec(id_key))
    } else {
        None
    }
}

/// A stored key pair is kept if its public key passes the first puzzle.
pub fn get_keypair(public_key: Vec<u8>, private_key: Vec<u8>) -> (kept: Option<
    (NodeID, Vec<u8>, Vec<u8>),
>)
    ensures
        match kept {
            Some((id, public, private)) => {
                &&& identity_holds(sha256(public_key@))
                &&& id@ == sha256(public_key@)
                &&& public == public_key
                &&& private == private_key
            },
            None => !identity_holds(sha256(public_key@)),
        },
{
    match derive_node_id(public_key.as_slice()) {
        Some(id) => Some((id, public_key, private_key)),
        None => None,
    }
}

/// Generates up to `attempts` RSA key pairs of `KEY_BITS` bits and returns the
/// first whose public key passes the first puzzle, with its identifier.
/// Whatever was generated, a pair that is returned passes the puzzle.
pub fn gen_keypair(attempts: u64) -> (made: Option<(NodeID, Vec<u8>, Vec<u8>)>)
    ensures
        made matches Some((id, public, private)) ==> id@ == sha256(public@) && identity_holds(id@),
        attempts == 0 ==> made is None,
{
    let mut tried: u64 = 0;
    while tried < attempts
        invariant
            tried <= attempts,
        decreases attempts - tried,
    {
        let passphrase: [u8; 1] = [PASSPHRASE];
        assert(passphrase@ =~= seq![PASSPHRASE]);
        match rsa_generate_pem(KEY_BITS, passphrase.as_slice()) {
            Ok((public, private)) => {
                match get_keypair(public, private) {
                    Some(kept) => {
                        return Some(kept);
                    },
                    None => {},
                }
            },
            Err(_) => {},
        }
        tried += 1;
    }
    None
}

/// Encrypts `message` to the holder of the RSA public key `publ_key` (PEM).
/// The padding is random: of the ciphertext only its length is known, which
/// is the size of the key's modulus. A key or a message longer than
/// `RSA_INPUT_MAX` is refused before any call.
pub fn encrypt_message(publ_key: &[u8], message: &[u8]) -> (r: Result<Vec<u8>, CryptoError>)
    ensures
        (publ_key@.len() > RSA_INPUT_MAX || message@.len() > RSA_INPUT_MAX) <==> r == Err::<
            Vec<u8>,
            CryptoError,
        >(CryptoError::TooLong),
        r matches Ok(sealed) ==> sealed@.len() == rsa_block_len(publ_key@),
{
    if publ_key.len() > RSA_INPUT_MAX || message.len() > RSA_INPUT_MAX {
        return Err(CryptoError::TooLong);
    }
    rsa_outcome(rsa_public_encrypt(publ_key, message))
}

/// The local node's identity: identifier, key pair and puzzle nonce.
#[derive(Debug, Clone)]
pub struct NodeValidator {
    node_id: NodeID,
    pub_key: Vec<u8>,
    nonce: u64,
    priv_key: Vec<u8>,
}

impl NodeValidator {
    pub closed spec fn spec_node_id(&self) -> NodeID {
        self.node_id
    }

    pub closed spec fn spec_pub_key(&self) -> Seq<u8> {
        self.pub_key@
    }

    pub closed spec fn spec_priv_key(&self) -> Seq<u8> {
        self.priv_key@
    }

    pub closed spec fn spec_nonce(&self) -> u64 {
        self.nonce
    }

    /// The identity is bound to its key and has paid for both puzzles.
    pub open spec fn valid(&self) -> bool {
        &&& self.spec_node_id()@ == sha256(self.spec_pub_key())
        &&& identity_holds(self.spec_node_id()@)
        &&& puzzle_holds(self.spec_node_id()@, self.spec_nonce())
    }

    /// An identity made of the given parts, whatever they are.
    pub fn from_parts(node_id: NodeID, pub_key: Vec<u8>, priv_key: Vec<u8>, nonce: u64) -> (v:
        NodeValidator)
        ensures
            v.spec_node_id() == node_id,
            v.spec_pub_key() == pub_key@,
            v.spec_priv_key() == priv_key@,
            v.spec_nonce() == nonce,
    {
        NodeValidator { node_id, pub_key, nonce, priv_key }
    }

    /// Generates an identity: a key pair that passes the first puzzle within
    /// `key_attempts` tries, then a nonce that solves the second within
    /// `nonce_attempts` tries. An identity that is returned is valid; without
    /// a try at either there is none.
    pub fn new(key_attempts: u64, nonce_attempts: u64) -> (made: Option<NodeValidator>)
        ensures
            made matches Some(v) ==> v.valid(),
            key_attempts == 0 || nonce_attempts == 0 ==> made is None,
    {
        match gen_keypair(key_attempts) {
            Some((node_id, pub_key, priv_key)) => {
                match solve_puzzle(node_id, nonce_attempts) {
                    Some(nonce) => Some(NodeValidator { node_id, pub_key, nonce, priv_key }),
                    None => None,
                }
            },
            None => None,
        }
    }

    /// Whether the identity is bound to its key and passes both puzzles.
    pub fn is_valid(&self) -> (ok: bool)
        ensures
            ok == self.valid(),
    {
        match derive_node_id(self.pub_key.as_slice()) {
            Some(id) => id.same(&self.node_id) && verify_puzzle(self.node_id, self.nonce),
            None => false,
        }
    }

    /// Decrypts `encrypted` with the private key. The result is the buffer
    /// that RSA decryption fills: as long as the modulus, the plaintext
    /// first. A private key or a ciphertext longer than `RSA_INPUT_MAX` is
    /// refused before any call.
    pub fn decrypt(&self, encrypted: &[u8]) -> (r: Result<Vec<u8>, CryptoError>)
        ensures
            match r {
                Ok(buf) => fits_rsa(self.spec_priv_key(), encrypted@) && decrypted_by(
                    self.spec_priv_key(),
                    encrypted@,
                ) == Some(buf@),
                Err(CryptoError::TooLong) => !fits_rsa(self.spec_priv_key(), encrypted@),
                Err(CryptoError::Refused) => fits_rsa(self.spec_priv_key(), encrypted@)
                    && decrypted_by(self.spec_priv_key(), encrypted@) is None,
            },
    {
        if self.priv_key.len() > RSA_INPUT_MAX || encrypted.len() > RSA_INPUT_MAX {
            return Err(CryptoError::TooLong);
        }
        let passphrase: [u8; 1] = [PASSPHRASE];
        assert(passphrase@ =~= seq![PASSPHRASE]);
        rsa_outcome(
            rsa_private_decrypt(self.priv_key.as_slice(), passphrase.as_slice(), encrypted),
        )
    }

    /// The public key, in PEM form.
    pub fn get_pubkey(&self) -> (key: Vec<u8>)
        ensures
            key@ == self.spec_pub_key(),
    {
        self.pub_key.clone()
    }

    /// The nonce that solves the second puzzle.
    pub fn get_nonce(&self) -> (nonce: u64)
        ensures
            nonce == self.spec_nonce(),
    {
        self.nonce
    }

    /// The node's identifier.
    pub fn get_nodeid(&self) -> (id: NodeID)
        ensures
            id == self.spec_node_id(),
    {
        self.node_id
    }
}

} // verus!
