//! The packet header: four big-endian `u32` fields.
use vstd::prelude::*;

verus! {

/// Length of the packet header in bytes.
pub const HEADER_LEN: usize = 16;

/// The four big-endian bytes of `x`.
pub open spec fn be_bytes(x: u32) -> Seq<u8> {
    seq![(x >> 24u32) as u8, (x >> 16u32) as u8, (x >> 8u32) as u8, x as u8]
}

/// The header `run_id, k, original_len, seq_num`.
pub open spec fn header_spec(run_id: u32, k: u32, original_len: u32, seq_num: u32) -> Seq<u8> {
    be_bytes(run_id) + be_bytes(k) + be_bytes(original_len) + be_bytes(seq_num)
}

/// The big-endian `u32` stored at `b[off..off + 4]`.
pub open spec fn be_u32_at(b: Seq<u8>, off: int) -> u32 {
    ((b[off] as u32) << 24u32) | ((b[off + 1] as u32) << 16u32) | ((b[off + 2] as u32) << 8u32) | (
    b[off + 3] as u32)
}

/// Appends `x` in big-endian order.
pub fn push_u32_be(v: &mut Vec<u8>, x: u32)
    ensures
        final(v)@ == old(v)@ + be_bytes(x),
{
    v.push((x >> 24u32) as u8);
    v.push((x >> 16u32) as u8);
    v.push((x >> 8u32) as u8);
    v.push(x as u8);
    assert(final(v)@ =~= old(v)@ + be_bytes(x));
}

/// Reads the big-endian `u32` at `b[off..off + 4]`.
pub fn read_u32_be(b: &[u8], off: usize) -> (r: u32)
    requires
        off + 4 <= b@.len(),
    ensures
        r == be_u32_at(b@, off as int),
{
    ((b[off] as u32) << 24u32) | ((b[off + 1] as u32) << 16u32) | ((b[off + 2] as u32) << 8u32) | (
    b[off + 3] as u32)
}

/// Reading back a written value gives the value.
pub proof fn lemma_be_round_trip(x: u32)
    ensures
        be_u32_at(be_bytes(x), 0) == x,
{
    let b0 = (x >> 24u32) as u8;
    let b1 = (x >> 16u32) as u8;
    let b2 = (x >> 8u32) as u8;
    let b3 = x as u8;
    assert((((b0 as u32) << 24u32) | ((b1 as u32) << 16u32) | ((b2 as u32) << 8u32) | (b3 as u32))
        == x) by (bit_vector)
        requires
            b0 == (x >> 24u32) as u8,
            b1 == (x >> 16u32) as u8,
            b2 == (x >> 8u32) as u8,
            b3 == x as u8,
    ;
}

} // verus!
