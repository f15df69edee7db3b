//! Bit strings.
//!
//! Tree paths are strings of bits.  They are stored in `bitvec` vectors; what a
//! vector holds is modelled as a `Seq<bool>`, and every call into `bitvec` goes
//! through one of the small trusted functions of this module.

use bitvec::order::Lsb0;
use bitvec::slice::BitSlice;
use bitvec::vec::BitVec;
use vstd::prelude::*;

verus! {

/// Bit `pos` of a byte, counted from the least significant one.
pub open spec fn bit_at(byte: u8, pos: u8) -> bool {
    (byte >> pos) & 1u8 == 1u8
}

/// The bit string that a byte string stands for: byte `k / 8` supplies bit `k`,
/// from its position `k % 8`.
pub open spec fn lsb0_bits(bytes: Seq<u8>) -> Seq<bool> {
    Seq::new(8 * bytes.len(), |k: int| bit_at(bytes[k / 8], (k % 8) as u8))
}

/// The largest number of bits that one `bitvec` vector can hold.
pub open spec fn max_bits() -> int {
    usize::MAX as int / 8
}

/// The byte whose bits, from the least significant up, are the given ones.
pub open spec fn pack_byte(
    b0: bool,
    b1: bool,
    b2: bool,
    b3: bool,
    b4: bool,
    b5: bool,
    b6: bool,
    b7: bool,
) -> u8 {
    (if b0 { 0x01u8 } else { 0u8 }) | (if b1 { 0x02u8 } else { 0u8 }) | (if b2 { 0x04u8 } else { 0u8 })
        | (if b3 { 0x08u8 } else { 0u8 }) | (if b4 { 0x10u8 } else { 0u8 }) | (if b5 { 0x20u8 } else { 0u8 })
        | (if b6 { 0x40u8 } else { 0u8 }) | (if b7 { 0x80u8 } else { 0u8 })
}

/// The byte string whose bits are the given ones, eight to a byte.
pub open spec fn bytes_of_bits(bits: Seq<bool>) -> Seq<u8> {
    Seq::new(
        bits.len() / 8,
        |m: int|
            pack_byte(
                bits[8 * m],
                bits[8 * m + 1],
                bits[8 * m + 2],
                bits[8 * m + 3],
                bits[8 * m + 4],
                bits[8 * m + 5],
                bits[8 * m + 6],
                bits[8 * m + 7],
            ),
    )
}

/// Two bytes with the same eight bits are the same byte.
pub proof fn lemma_byte_by_bits(a: u8, b: u8)
    requires
        forall|pos: u8| pos < 8 ==> bit_at(a, pos) == bit_at(b, pos),
    ensures
        a == b,
{
    assert(bit_at(a, 0) == bit_at(b, 0));
    assert(bit_at(a, 1) == bit_at(b, 1));
    assert(bit_at(a, 2) == bit_at(b, 2));
    assert(bit_at(a, 3) == bit_at(b, 3));
    assert(bit_at(a, 4) == bit_at(b, 4));
    assert(bit_at(a, 5) == bit_at(b, 5));
    assert(bit_at(a, 6) == bit_at(b, 6));
    assert(bit_at(a, 7) == bit_at(b, 7));
    assert(a == b) by (bit_vector)
        requires
            ((a >> 0u8) & 1u8 == 1u8) == ((b >> 0u8) & 1u8 == 1u8),
            ((a >> 1u8) & 1u8 == 1u8) == ((b >> 1u8) & 1u8 == 1u8),
            ((a >> 2u8) & 1u8 == 1u8) == ((b >> 2u8) & 1u8 == 1u8),
            ((a >> 3u8) & 1u8 == 1u8) == ((b >> 3u8) & 1u8 == 1u8),
            ((a >> 4u8) & 1u8 == 1u8) == ((b >> 4u8) & 1u8 == 1u8),
            ((a >> 5u8) & 1u8 == 1u8) == ((b >> 5u8) & 1u8 == 1u8),
            ((a >> 6u8) & 1u8 == 1u8) == ((b >> 6u8) & 1u8 == 1u8),
            ((a >> 7u8) & 1u8 == 1u8) == ((b >> 7u8) & 1u8 == 1u8),
    ;
}

/// A packed byte has the bits it was packed from.
pub proof fn lemma_pack_byte_bits(
    b0: bool,
    b1: bool,
    b2: bool,
    b3: bool,
    b4: bool,
    b5: bool,
    b6: bool,
    b7: bool,
)
    ensures
        bit_at(pack_byte(b0, b1, b2, b3, b4, b5, b6, b7), 0) == b0,
        bit_at(pack_byte(b0, b1, b2, b3, b4, b5, b6, b7), 1) == b1,
        bit_at(pack_byte(b0, b1, b2, b3, b4, b5, b6, b7), 2) == b2,
        bit_at(pack_byte(b0, b1, b2, b3, b4, b5, b6, b7), 3) == b3,
        bit_at(pack_byte(b0, b1, b2, b3, b4, b5, b6, b7), 4) == b4,
        bit_at(pack_byte(b0, b1, b2, b3, b4, b5, b6, b7), 5) == b5,
        bit_at(pack_byte(b0, b1, b2, b3, b4, b5, b6, b7), 6) == b6,
        bit_at(pack_byte(b0, b1, b2, b3, b4, b5, b6, b7), 7) == b7,
{
    let byte = pack_byte(b0, b1, b2, b3, b4, b5, b6, b7);
    assert(((byte >> 0u8) & 1u8 == 1u8) == b0 && ((byte >> 1u8) & 1u8 == 1u8) == b1 && ((byte
        >> 2u8) & 1u8 == 1u8) == b2 && ((byte >> 3u8) & 1u8 == 1u8) == b3 && ((byte >> 4u8) & 1u8
        == 1u8) == b4 && ((byte >> 5u8) & 1u8 == 1u8) == b5 && ((byte >> 6u8) & 1u8 == 1u8) == b6
        && ((byte >> 7u8) & 1u8 == 1u8) == b7) by (bit_vector)
        requires
            byte == (if b0 { 0x01u8 } else { 0u8 }) | (if b1 { 0x02u8 } else { 0u8 }) | (if b2 {
                0x04u8
            } else {
                0u8
            }) | (if b3 { 0x08u8 } else { 0u8 }) | (if b4 { 0x10u8 } else { 0u8 }) | (if b5 {
                0x20u8
            } else {
                0u8
            }) | (if b6 { 0x40u8 } else { 0u8 }) | (if b7 { 0x80u8 } else { 0u8 }),
    ;
}

/// Byte strings of one length with the same bits are the same.
pub proof fn lemma_lsb0_bits_injective(a: Seq<u8>, b: Seq<u8>)
    requires
        a.len() == b.len(),
        lsb0_bits(a) == lsb0_bits(b),
    ensures
        a == b,
{
    assert forall|m: int| 0 <= m < a.len() implies a[m] == b[m] by {
        assert forall|pos: u8| pos < 8 implies bit_at(a[m], pos) == bit_at(b[m], pos) by {
            let k = 8 * m + pos;
            assert(k / 8 == m && k % 8 == pos);
            assert(lsb0_bits(a)[k] == bit_at(a[m], pos));
            assert(lsb0_bits(b)[k] == bit_at(b[m], pos));
        }
        lemma_byte_by_bits(a[m], b[m]);
    }
    assert(a =~= b);
}

/// Every bit string of whole bytes is the bit string of its bytes.
pub proof fn lemma_lsb0_bits_onto(bits: Seq<bool>)
    requires
        bits.len() % 8 == 0,
    ensures
        8 * bytes_of_bits(bits).len() == bits.len(),
        lsb0_bits(bytes_of_bits(bits)) == bits,
{
    let bytes = bytes_of_bits(bits);
    assert forall|k: int| 0 <= k < bits.len() implies lsb0_bits(bytes)[k] == bits[k] by {
        let m = k / 8;
        let pos = k % 8;
        assert(k == 8 * m + pos);
        lemma_pack_byte_bits(
            bits[8 * m],
            bits[8 * m + 1],
            bits[8 * m + 2],
            bits[8 * m + 3],
            bits[8 * m + 4],
            bits[8 * m + 5],
            bits[8 * m + 6],
            bits[8 * m + 7],
        );
    }
    assert(lsb0_bits(bytes) =~= bits);
}

/// A growable bit string over machine words: a `bitvec::vec::BitVec<Lsb0, usize>`.
#[verifier::external_body]
#[derive(Debug)]
pub struct Bits {
    inner: BitVec<Lsb0, usize>,
}

/// The bits that a [`Bits`] holds, in order.
pub uninterp spec fn bits_of(b: Bits) -> Seq<bool>;

/// The bits of a byte buffer: a `bitvec::vec::BitVec<Lsb0, u8>`.
#[verifier::external_body]
#[derive(Debug)]
pub struct ByteBits {
    inner: BitVec<Lsb0, u8>,
}

/// The bits that a [`ByteBits`] holds, in order.
pub uninterp spec fn byte_bits_of(b: ByteBits) -> Seq<bool>;

impl View for Bits {
    type V = Seq<bool>;

    open spec fn view(&self) -> Seq<bool> {
        bits_of(*self)
    }
}

impl View for ByteBits {
    type V = Seq<bool>;

    open spec fn view(&self) -> Seq<bool> {
        byte_bits_of(*self)
    }
}

/// `BitVec::with_capacity`: an empty vector.  The call panics when asked for
/// more than the largest length, which the precondition rules out.
#[verifier::external_body]
pub(crate) fn bv_with_capacity(capacity: usize) -> (b: Bits)
    requires
        capacity <= max_bits(),
    ensures
        bits_of(b) == Seq::<bool>::empty(),
{
    Bits { inner: BitVec::with_capacity(capacity) }
}

/// `BitVec::len`: the number of bits held, which never exceeds the largest
/// length that the vector's handle can encode.
#[verifier::external_body]
pub(crate) fn bv_len(b: &Bits) -> (n: usize)
    ensures
        n == bits_of(*b).len(),
        n <= max_bits(),
{
    b.inner.len()
}

/// Indexing a `BitVec` by `usize`: the bit at that position.  Out of range it
/// panics.
#[verifier::external_body]
pub(crate) fn bv_get(b: &Bits, index: usize) -> (bit: bool)
    requires
        index < bits_of(*b).len(),
    ensures
        bit == bits_of(*b)[index as int],
{
    b.inner[index]
}

/// `BitVec::push`: appends one bit.  A full vector makes it panic.
#[verifier::external_body]
pub(crate) fn bv_push(b: &mut Bits, bit: bool)
    requires
        bits_of(*old(b)).len() < max_bits(),
    ensures
        bits_of(*final(b)) == bits_of(*old(b)).push(bit),
{
    b.inner.push(bit)
}

/// `BitSlice::set`: overwrites the bit at a position and leaves the others.
/// Out of range it panics.
#[verifier::external_body]
pub(crate) fn bv_set(b: &mut Bits, index: usize, bit: bool)
    requires
        index < bits_of(*old(b)).len(),
    ensures
        bits_of(*final(b)) == bits_of(*old(b)).update(index as int, bit),
{
    b.inner.set(index, bit)
}

/// `BitSlice::starts_with`: whether the needle is no longer than the vector
/// and equals its leading bits.
#[verifier::external_body]
pub(crate) fn bv_starts_with(b: &Bits, needle: &Bits) -> (yes: bool)
    ensures
        yes == bits_of(*needle).is_prefix_of(bits_of(*b)),
{
    b.inner.starts_with(&needle.inner)
}

/// `BitSlice::split_at`, each half copied into a vector of its own with
/// `BitSlice::to_bitvec`: the bits before `mid`, and those from `mid` on.
/// A `mid` beyond the length makes the call panic.
#[verifier::external_body]
pub(crate) fn bv_split_at(b: &Bits, mid: usize) -> (halves: (Bits, Bits))
    requires
        mid <= bits_of(*b).len(),
    ensures
        bits_of(halves.0) == bits_of(*b).subrange(0, mid as int),
        bits_of(halves.1) == bits_of(*b).subrange(mid as int, bits_of(*b).len() as int),
{
    let (left, right) = b.inner.split_at(mid);
    (Bits { inner: left.to_bitvec() }, Bits { inner: right.to_bitvec() })
}

/// `BitVec::clone`: a vector of the same bits.
#[verifier::external_body]
pub(crate) fn bv_clone(b: &Bits) -> (copy: Bits)
    ensures
        bits_of(copy) == bits_of(*b),
{
    Bits { inner: b.inner.clone() }
}

/// `==` on two `BitVec`s: same length and the same bit at every position.
#[verifier::external_body]
pub(crate) fn bv_eq(a: &Bits, b: &Bits) -> (same: bool)
    ensures
        same == (bits_of(*a) == bits_of(*b)),
{
    a.inner == b.inner
}

/// `BitSlice::<Lsb0, u8>::from_slice`, copied with `BitSlice::to_bitvec`: a
/// view of the bytes as bits, each byte from its least significant bit up.
/// The call refuses a slice too long for one vector; shorter ones it accepts.
#[verifier::external_body]
pub(crate) fn bv_from_slice(bytes: &[u8]) -> (b: Option<ByteBits>)
    ensures
        8 * bytes@.len() <= max_bits() ==> b is Some && byte_bits_of(b->0) == lsb0_bits(bytes@),
{
    match BitSlice::<Lsb0, u8>::from_slice(bytes) {
        Ok(bits) => Some(ByteBits { inner: bits.to_bitvec() }),
        Err(_) => None,
    }
}

/// `BitVec::len` on a byte-backed vector.
#[verifier::external_body]
pub(crate) fn bv8_len(b: &ByteBits) -> (n: usize)
    ensures
        n == byte_bits_of(*b).len(),
        n <= max_bits(),
{
    b.inner.len()
}

/// Indexing a byte-backed `BitVec` by `usize`.  Out of range it panics.
#[verifier::external_body]
pub(crate) fn bv8_get(b: &ByteBits, index: usize) -> (bit: bool)
    requires
        index < byte_bits_of(*b).len(),
    ensures
        bit == byte_bits_of(*b)[index as int],
{
    b.inner[index]
}

impl ByteBits {
    /// Views a byte string as bits.  `None` when the bytes hold more bits than
    /// one vector can.
    pub fn from_slice(bytes: &[u8]) -> (b: Option<ByteBits>)
        ensures
            b is Some <==> 8 * bytes@.len() <= max_bits(),
            b matches Some(bits) ==> bits@ == lsb0_bits(bytes@),
    {
        if bytes.len() > usize::MAX / 64 {
            None
        } else {
            bv_from_slice(bytes)
        }
    }

    pub fn len(&self) -> (n: usize)
        ensures
            n == self@.len(),
            n <= max_bits(),
    {
        bv8_len(self)
    }

    /// The bit at `index`, or `None` past the end.
    pub fn get(&self, index: usize) -> (bit: Option<bool>)
        ensures
            bit == (if index < self@.len() {
                Some(self@[index as int])
            } else {
                None
            }),
    {
        if index < bv8_len(self) {
            Some(bv8_get(self, index))
        } else {
            None
        }
    }
}

impl Bits {
    /// The empty bit string.
    pub fn new() -> (b: Bits)
        ensures
            b@ == Seq::<bool>::empty(),
    {
        bv_with_capacity(0)
    }

    /// The bit string with the given bits, or `None` when they are too many
    /// for one vector.
    pub fn from_bools(bools: &[bool]) -> (b: Option<Bits>)
        ensures
            b is Some <==> bools@.len() <= max_bits(),
            b matches Some(bits) ==> bits@ == bools@,
    {
        let n = bools.len();
        if n > usize::MAX / 8 {
            return None;
        }
        let mut bits = bv_with_capacity(n);
        let mut i: usize = 0;
        while i < n
            invariant
                n == bools@.len(),
                n <= max_bits(),
                i <= n,
                bits@ == bools@.subrange(0, i as int),
            decreases n - i,
        {
            bv_push(&mut bits, bools[i]);
            assert(bools@.subrange(0, i as int).push(bools@[i as int]) == bools@.subrange(
                0,
                i + 1,
            ));
            i = i + 1;
        }
        assert(bools@.subrange(0, n as int) == bools@);
        Some(bits)
    }

    /// The bits, one `bool` each.
    pub fn to_bools(&self) -> (bools: Vec<bool>)
        ensures
            bools@ == self@,
    {
        let n = bv_len(self);
        let mut bools: Vec<bool> = Vec::with_capacity(n);
        let mut i: usize = 0;
        while i < n
            invariant
                n == self@.len(),
                i <= n,
                bools@ == self@.subrange(0, i as int),
            decreases n - i,
        {
            bools.push(bv_get(self, i));
            assert(self@.subrange(0, i as int).push(self@[i as int]) == self@.subrange(0, i + 1));
            i = i + 1;
        }
        assert(self@.subrange(0, n as int) == self@);
        bools
    }

    pub fn len(&self) -> (n: usize)
        ensures
            n == self@.len(),
            n <= max_bits(),
    {
        bv_len(self)
    }

    /// Whether `needle` is a prefix of this bit string.
    pub fn starts_with(&self, needle: &Bits) -> (yes: bool)
        ensures
            yes == needle@.is_prefix_of(self@),
    {
        bv_starts_with(self, needle)
    }
}

/// Copies the bits of a byte-backed vector, one by one and in order, into a
/// word-backed one.
pub fn bvcast_u8_to_usize(bv_u8: &ByteBits) -> (bv_us: Bits)
    ensures
        bv_us@ == bv_u8@,
{
    let n = bv8_len(bv_u8);
    let mut bv_us = bv_with_capacity(n);
    let mut i: usize = 0;
    while i < n
        invariant
            n == bv_u8@.len(),
            n <= max_bits(),
            i <= n,
            bv_us@ == bv_u8@.subrange(0, i as int),
        decreases n - i,
    {
        bv_push(&mut bv_us, bv8_get(bv_u8, i));
        assert(bv_u8@.subrange(0, i as int).push(bv_u8@[i as int]) == bv_u8@.subrange(0, i + 1));
        i = i + 1;
    }
    assert(bv_u8@.subrange(0, n as int) == bv_u8@);
    bv_us
}

} // verus!
