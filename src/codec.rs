//! Little-endian fixed-width integers and the 16-byte slot record.
use vstd::prelude::*;

verus! {

/// The little-endian `u64` held by the eight bytes of `b` from `off`.
pub open spec fn le_u64_at(b: Seq<u8>, off: int) -> u64 {
    (b[off] as u64) | ((b[off + 1] as u64) << 8u64) | ((b[off + 2] as u64) << 16u64) | ((b[off
        + 3] as u64) << 24u64) | ((b[off + 4] as u64) << 32u64) | ((b[off + 5] as u64) << 40u64)
        | ((b[off + 6] as u64) << 48u64) | ((b[off + 7] as u64) << 56u64)
}

/// The little-endian `u32` held by the four bytes of `b` from `off`.
pub open spec fn le_u32_at(b: Seq<u8>, off: int) -> u32 {
    (b[off] as u32) | ((b[off + 1] as u32) << 8u32) | ((b[off + 2] as u32) << 16u32) | ((b[off
        + 3] as u32) << 24u32)
}

/// The eight little-endian bytes of `v`.
pub open spec fn le_bytes(v: u64) -> Seq<u8> {
    seq![
        (v & 0xff) as u8,
        ((v >> 8u64) & 0xff) as u8,
        ((v >> 16u64) & 0xff) as u8,
        ((v >> 24u64) & 0xff) as u8,
        ((v >> 32u64) & 0xff) as u8,
        ((v >> 40u64) & 0xff) as u8,
        ((v >> 48u64) & 0xff) as u8,
        ((v >> 56u64) & 0xff) as u8,
    ]
}

/// Width in bytes of one slot record.
pub const SLOT_BYTES: usize = 16;

/// A fixed-size record of two 64-bit words: a probe key (the home address of
/// the record in its partition) and a value.
#[derive(Clone, Copy, Debug, PartialEq, Eq)]
pub struct Slot {
    pub idx: u64,
    pub value: u64,
}

/// The slot record held by the sixteen bytes of `b` from `off`.
pub open spec fn slot_at(b: Seq<u8>, off: int) -> Slot {
    Slot { idx: le_u64_at(b, off), value: le_u64_at(b, off + 8) }
}

/// Reads the little-endian `u64` at `off`.
pub fn read_u64_le(b: &[u8], off: usize) -> (r: u64)
    requires
        off + 8 <= b@.len(),
    ensures
        r == le_u64_at(b@, off as int),
{
    (b[off] as u64) | ((b[off + 1] as u64) << 8u64) | ((b[off + 2] as u64) << 16u64) | ((b[off
        + 3] as u64) << 24u64) | ((b[off + 4] as u64) << 32u64) | ((b[off + 5] as u64) << 40u64)
        | ((b[off + 6] as u64) << 48u64) | ((b[off + 7] as u64) << 56u64)
}

/// Reads the little-endian `u32` at `off`.
pub fn read_u32_le(b: &[u8], off: usize) -> (r: u32)
    requires
        off + 4 <= b@.len(),
    ensures
        r == le_u32_at(b@, off as int),
{
    (b[off] as u32) | ((b[off + 1] as u32) << 8u32) | ((b[off + 2] as u32) << 16u32) | ((b[off
        + 3] as u32) << 24u32)
}

/// Appends the eight little-endian bytes of `v` to `out`.
pub fn push_u64_le(out: &mut Vec<u8>, v: u64)
    ensures
        final(out)@ == old(out)@ + le_bytes(v),
{
    out.push((v & 0xff) as u8);
    out.push(((v >> 8u64) & 0xff) as u8);
    out.push(((v >> 16u64) & 0xff) as u8);
    out.push(((v >> 24u64) & 0xff) as u8);
    out.push(((v >> 32u64) & 0xff) as u8);
    out.push(((v >> 40u64) & 0xff) as u8);
    out.push(((v >> 48u64) & 0xff) as u8);
    out.push(((v >> 56u64) & 0xff) as u8);
    assert(final(out)@ =~= old(out)@ + le_bytes(v));
}

/// Decoding the bytes written for a value gives the value back.
pub proof fn lemma_le_round_trip(v: u64)
    ensures
        le_u64_at(le_bytes(v), 0) == v,
{
    let b = le_bytes(v);
    assert(((v & 0xff) as u8 as u64) | ((((v >> 8u64) & 0xff) as u8 as u64) << 8u64) | ((((v
        >> 16u64) & 0xff) as u8 as u64) << 16u64) | ((((v >> 24u64) & 0xff) as u8 as u64)
        << 24u64) | ((((v >> 32u64) & 0xff) as u8 as u64) << 32u64) | ((((v >> 40u64) & 0xff)
        as u8 as u64) << 40u64) | ((((v >> 48u64) & 0xff) as u8 as u64) << 48u64) | ((((v
        >> 56u64) & 0xff) as u8 as u64) << 56u64) == v) by (bit_vector);
}

/// Decodes every whole 16-byte record of `b`; a trailing fragment shorter
/// than a record is left out.
pub fn decode_slots(b: &[u8]) -> (r: Vec<Slot>)
    ensures
        r@.len() == b@.len() / 16,
        forall|i: int| 0 <= i < r@.len() ==> r@[i] == slot_at(b@, 16 * i),
{
    let len: usize = b.len();
    let n: usize = len / SLOT_BYTES;
    let mut out: Vec<Slot> = Vec::with_capacity(n);
    let mut i: usize = 0;
    while i < n
        invariant
            n == b@.len() / 16,
            len == b@.len(),
            i <= n,
            out@.len() == i,
            forall|j: int| 0 <= j < i ==> out@[j] == slot_at(b@, 16 * j),
        decreases n - i,
    {
        assert(16 * i + 16 <= b@.len()) by (nonlinear_arith)
            requires
                i < n,
                n == b@.len() / 16,
        ;
        let off: usize = i * SLOT_BYTES;
        let idx = read_u64_le(b, off);
        let value = read_u64_le(b, off + 8);
        out.push(Slot { idx, value });
        i = i + 1;
    }
    out
}

/// Decodes every whole 4-byte little-endian word of `b`; a trailing fragment
/// is left out.
pub fn decode_cells(b: &[u8]) -> (r: Vec<u32>)
    ensures
        r@.len() == b@.len() / 4,
        forall|i: int| 0 <= i < r@.len() ==> r@[i] == le_u32_at(b@, 4 * i),
{
    let len: usize = b.len();
    let n: usize = len / 4;
    let mut out: Vec<u32> = Vec::with_capacity(n);
    let mut i: usize = 0;
    while i < n
        invariant
            n == b@.len() / 4,
            len == b@.len(),
            i <= n,
            out@.len() == i,
            forall|j: int| 0 <= j < i ==> out@[j] == le_u32_at(b@, 4 * j),
        decreases n - i,
    {
        assert(4 * i + 4 <= b@.len()) by (nonlinear_arith)
            requires
                i < n,
                n == b@.len() / 4,
        ;
        let w = read_u32_le(b, i * 4);
        out.push(w);
        i = i + 1;
    }
    out
}

} // verus!
