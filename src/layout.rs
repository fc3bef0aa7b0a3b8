//! Bit layout of a table cell: a compacted key in the high bits and a taxon
//! id in the low `value_bits` bits.
use vstd::prelude::*;
use crate::codec::{le_u64_at, read_u64_le};

verus! {

/// The mask that keeps the low `bits` bits of a 32-bit word.
pub open spec fn low_mask(bits: u32) -> u32 {
    ((1u32 << bits) - 1) as u32
}

/// The taxon-id subfield of a packed word.
pub open spec fn taxid_of(word: u32, mask: u32) -> u32 {
    word & mask
}

/// The payload above the taxon-id subfield of a packed word.
pub open spec fn left_of(word: u32, bits: u32) -> u32 {
    word >> bits
}

/// A packed word made of a payload and a taxon id.
pub open spec fn combine(left: u32, taxid: u32, bits: u32) -> u32 {
    (left << bits) | taxid
}

/// Shape of the value field shared by every partition of one table.
#[derive(Clone, Copy, Debug, PartialEq, Eq)]
pub struct HashLayout {
    /// Total number of addressable cells of the whole table.
    pub capacity: u64,
    /// Width of the taxon-id subfield.
    pub value_bits: u32,
    /// `2^value_bits - 1`.
    pub value_mask: u32,
}

impl HashLayout {
    pub open spec fn wf(&self) -> bool {
        &&& 1 <= self.value_bits <= 31
        &&& self.value_mask == low_mask(self.value_bits)
    }

    /// A layout for `capacity` cells whose taxon ids take `value_bits` bits;
    /// `None` unless `1 <= value_bits <= 31`.
    pub fn new(capacity: u64, value_bits: u32) -> (r: Option<HashLayout>)
        ensures
            r is Some <==> 1 <= value_bits <= 31,
            r matches Some(l) ==> l.wf() && l.capacity == capacity && l.value_bits == value_bits,
    {
        if 1 <= value_bits && value_bits <= 31 {
            let mask = mask_of(value_bits);
            Some(HashLayout { capacity, value_bits, value_mask: mask })
        } else {
            None
        }
    }

    pub fn get_value_bits(&self) -> (r: u32)
        ensures
            r == self.value_bits,
    {
        self.value_bits
    }

    pub fn get_value_mask(&self) -> (r: u32)
        ensures
            r == self.value_mask,
    {
        self.value_mask
    }
}

/// `2^bits - 1`.
pub fn mask_of(bits: u32) -> (r: u32)
    requires
        1 <= bits <= 31,
    ensures
        r == low_mask(bits),
{
    assert(1u32 << bits >= 1) by (bit_vector)
        requires
            1 <= bits <= 31,
    ;
    (1u32 << bits) - 1
}

/// The taxon id held in the low `value_mask` bits of `word`.
pub fn right(word: u32, value_mask: u32) -> (r: u32)
    ensures
        r == taxid_of(word, value_mask),
{
    word & value_mask
}

/// The payload held above the low `value_bits` bits of `word`.
pub fn left(word: u32, value_bits: u32) -> (r: u32)
    requires
        value_bits < 32,
    ensures
        r == left_of(word, value_bits),
{
    word >> value_bits
}

/// Packs a payload and a taxon id into one word.
pub fn combined(left: u32, taxid: u32, value_bits: u32) -> (r: u32)
    requires
        value_bits < 32,
    ensures
        r == combine(left, taxid, value_bits),
{
    (left << value_bits) | taxid
}

/// Packing round trip: a word combined from a payload that fits above the
/// taxon-id subfield and a taxon id that fits in it gives both back.
pub proof fn lemma_combine_round_trip(left: u32, taxid: u32, bits: u32)
    requires
        1 <= bits <= 31,
        taxid <= low_mask(bits),
        left <= u32::MAX >> bits,
    ensures
        taxid_of(combine(left, taxid, bits), low_mask(bits)) == taxid,
        left_of(combine(left, taxid, bits), bits) == left,
{
    let m = low_mask(bits);
    assert(((left << bits) | taxid) & m == taxid && ((left << bits) | taxid) >> bits == left)
        by (bit_vector)
        requires
            1 <= bits <= 31,
            m == ((1u32 << bits) - 1) as u32,
            taxid <= m,
            left <= u32::MAX >> bits,
    ;
}

/// Any word splits into a payload and a taxon id that fit the round trip.
pub proof fn lemma_split_fits(word: u32, bits: u32)
    requires
        1 <= bits <= 31,
    ensures
        taxid_of(word, low_mask(bits)) <= low_mask(bits),
        left_of(word, bits) <= u32::MAX >> bits,
        combine(left_of(word, bits), taxid_of(word, low_mask(bits)), bits) == word,
{
    let m = low_mask(bits);
    assert((word & m) <= m && (word >> bits) <= u32::MAX >> bits
        && ((word >> bits) << bits) | (word & m) == word) by (bit_vector)
        requires
            1 <= bits <= 31,
            m == ((1u32 << bits) - 1) as u32,
    ;
}

/// Reads a layout descriptor: the capacity and the taxon-id width as two
/// little-endian `u64`s. `None` when fewer than sixteen bytes are given or
/// the width is not within 1 to 31.
pub fn layout_from_bytes(b: &[u8]) -> (r: Option<HashLayout>)
    ensures
        r is Some <==> b@.len() >= 16 && 1 <= le_u64_at(b@, 8) <= 31,
        r matches Some(l) ==> l.wf() && l.capacity == le_u64_at(b@, 0) && l.value_bits
            == le_u64_at(b@, 8),
{
    if b.len() < 16 {
        return None;
    }
    let capacity = read_u64_le(b, 0);
    let bits = read_u64_le(b, 8);
    if bits < 1 || bits > 31 {
        return None;
    }
    HashLayout::new(capacity, bits as u32)
}

} // verus!
