//! Bit vectors of the `bitvec` crate, as the rest of the library sees them.
//!
//! A `BitVec<u8, Msb0>` is held in the private field of [`Bits`], which Verus
//! sees as opaque. What it holds is named by [`bits_view`], and each operation
//! the library uses on it has a wrapper whose contract speaks of that name.

use bitvec::order::Msb0;
use bitvec::vec::BitVec;
use bitvec::view::BitView;
use vstd::prelude::*;

verus! {

/// A growable vector of bits, stored most significant bit first in bytes.
#[verifier::external_body]
pub struct Bits {
    inner: BitVec<u8, Msb0>,
}

/// The bits that a [`Bits`] holds, in index order.
pub uninterp spec fn bits_view(v: Bits) -> Seq<bool>;

/// The largest number of bits that a `BitVec<u8, _>` can hold on this
/// machine (`BitSlice::MAX_BITS`, which is `usize::MAX >> 3`).
pub open spec fn max_bits() -> int {
    (usize::MAX as int) / 8
}

/// Bit `i` of a byte string read most significant bit first: bit `i` is bit
/// `7 - i % 8` (counting from the least significant) of byte `i / 8`.
pub open spec fn msb0_bit(bytes: Seq<u8>, i: int) -> bool {
    (bytes[i / 8] >> ((7 - i % 8) as u8)) & 1u8 == 1u8
}

/// All bits of a byte string, most significant bit of each byte first.
pub open spec fn msb0_bits(bytes: Seq<u8>) -> Seq<bool> {
    Seq::new(bytes.len() * 8, |i: int| msb0_bit(bytes, i))
}

/// The bit weighs `w` if set and nothing otherwise.
pub open spec fn weight(bit: bool, w: int) -> int {
    if bit {
        w
    } else {
        0
    }
}

/// Reading a byte string most significant bit first gives back each byte's
/// value: byte `b` is the sum of its eight bits `8 * b .. 8 * b + 8`,
/// weighted 128, 64, ..., 1 in that order.
pub proof fn lemma_msb0_bits_of_byte(bytes: Seq<u8>, b: int)
    requires
        0 <= b < bytes.len(),
    ensures
        ({
            let bits = msb0_bits(bytes);
            &&& bits.len() == bytes.len() * 8
            &&& bytes[b] as int == weight(bits[8 * b], 128) + weight(bits[8 * b + 1], 64) + weight(
                bits[8 * b + 2],
                32,
            ) + weight(bits[8 * b + 3], 16) + weight(bits[8 * b + 4], 8) + weight(
                bits[8 * b + 5],
                4,
            ) + weight(bits[8 * b + 6], 2) + weight(bits[8 * b + 7], 1)
        }),
{
    let x = bytes[b];
    let bits = msb0_bits(bytes);
    assert forall|j: int| 0 <= j < 8 implies #[trigger] bits[8 * b + j] == ((x >> ((7 - j) as u8))
        & 1u8 == 1u8) by {
        vstd::arithmetic::div_mod::lemma_fundamental_div_mod_converse(8 * b + j, 8, b, j);
        assert(8 * b + j < bytes.len() * 8);
    }
    assert(bits[8 * b] == ((x >> 7u8) & 1u8 == 1u8));
    assert(bits[8 * b + 1] == ((x >> 6u8) & 1u8 == 1u8));
    assert(bits[8 * b + 2] == ((x >> 5u8) & 1u8 == 1u8));
    assert(bits[8 * b + 3] == ((x >> 4u8) & 1u8 == 1u8));
    assert(bits[8 * b + 4] == ((x >> 3u8) & 1u8 == 1u8));
    assert(bits[8 * b + 5] == ((x >> 2u8) & 1u8 == 1u8));
    assert(bits[8 * b + 6] == ((x >> 1u8) & 1u8 == 1u8));
    assert(bits[8 * b + 7] == ((x >> 0u8) & 1u8 == 1u8));
    lemma_byte_from_bits(x);
}

/// A byte is the weighted sum of its bits.
proof fn lemma_byte_from_bits(x: u8)
    ensures
        x as int == weight((x >> 7u8) & 1u8 == 1u8, 128) + weight((x >> 6u8) & 1u8 == 1u8, 64)
            + weight((x >> 5u8) & 1u8 == 1u8, 32) + weight((x >> 4u8) & 1u8 == 1u8, 16) + weight(
            (x >> 3u8) & 1u8 == 1u8,
            8,
        ) + weight((x >> 2u8) & 1u8 == 1u8, 4) + weight((x >> 1u8) & 1u8 == 1u8, 2) + weight(
            (x >> 0u8) & 1u8 == 1u8,
            1,
        ),
{
    assert(x == (if (x >> 7u8) & 1u8 == 1u8 { 128u8 } else { 0u8 }) + (if (x >> 6u8) & 1u8 == 1u8 {
        64u8
    } else {
        0u8
    }) + (if (x >> 5u8) & 1u8 == 1u8 { 32u8 } else { 0u8 }) + (if (x >> 4u8) & 1u8 == 1u8 {
        16u8
    } else {
        0u8
    }) + (if (x >> 3u8) & 1u8 == 1u8 { 8u8 } else { 0u8 }) + (if (x >> 2u8) & 1u8 == 1u8 {
        4u8
    } else {
        0u8
    }) + (if (x >> 1u8) & 1u8 == 1u8 { 2u8 } else { 0u8 }) + (if (x >> 0u8) & 1u8 == 1u8 {
        1u8
    } else {
        0u8
    })) by (bit_vector);
}

impl Bits {
    /// `BitVec::new`. Claimed: the new vector holds no bits.
    #[verifier::external_body]
    pub fn new() -> (v: Bits)
        ensures
            bits_view(v) == Seq::<bool>::empty(),
    {
        Bits { inner: BitVec::new() }
    }

    /// `BitVec::push`. Claimed: `b` is appended after the bits already held.
    /// `push` panics when the new length cannot be encoded (beyond
    /// `BitSlice::MAX_BITS`), which the `requires` rules out.
    #[verifier::external_body]
    pub fn push(&mut self, b: bool)
        requires
            bits_view(*old(self)).len() + 1 <= max_bits(),
        ensures
            bits_view(*final(self)) == bits_view(*old(self)).push(b),
    {
        self.inner.push(b)
    }

    /// `bytes.view_bits::<Msb0>().to_bitvec()`.
    ///
    /// Claimed of `bitvec`: viewing a byte slice in `Msb0` order gives its
    /// bits most significant first, `8 * bytes.len()` of them, and
    /// `to_bitvec` copies them in order. `view_bits` panics on slices of
    /// `MAX_ELTS` elements or more, which the `requires` rules out.
    #[verifier::external_body]
    pub fn from_bytes(bytes: &[u8]) -> (v: Bits)
        requires
            bytes@.len() <= usize::MAX / 64,
        ensures
            bits_view(v) == msb0_bits(bytes@),
    {
        Bits { inner: bytes.view_bits::<Msb0>().to_bitvec() }
    }

    /// `BitVec::len` (through `BitSlice::len`). Claimed: the number of bits
    /// held.
    #[verifier::external_body]
    pub fn len(&self) -> (n: usize)
        ensures
            n == bits_view(*self).len(),
    {
        self.inner.len()
    }

    /// `self[i]`, through `Index<usize>` of `BitVec`. Claimed: the bit at
    /// index `i`; indexing panics past the end, which the `requires` rules
    /// out.
    #[verifier::external_body]
    pub fn get(&self, i: usize) -> (b: bool)
        requires
            i < bits_view(*self).len(),
        ensures
            b == bits_view(*self)[i as int],
    {
        self.inner[i]
    }
}

} // verus!
