//! Little-endian `u32` fields, as the segment header and index store them.

use vstd::arithmetic::div_mod::{
    lemma_div_denominator,
    lemma_div_is_ordered,
    lemma_fundamental_div_mod,
};
use vstd::prelude::*;

verus! {

/// The value of the four bytes of `b` at `off`, least significant first.
pub open spec fn u32_le(b: Seq<u8>, off: int) -> int {
    b[off] as int + 256 * (b[off + 1] as int) + 65536 * (b[off + 2] as int) + 16777216 * (
    b[off + 3] as int)
}

/// The four bytes that hold `v`, least significant first.
pub open spec fn le_bytes(v: int) -> Seq<u8> {
    seq![(v % 256) as u8, ((v / 256) % 256) as u8, ((v / 65536) % 256) as u8, ((v / 16777216) % 256) as u8]
}

/// Reading back the bytes of a value that fits in 32 bits gives the value.
pub proof fn lemma_le_round_trip(v: int)
    requires
        0 <= v < 0x1_0000_0000,
    ensures
        u32_le(le_bytes(v), 0) == v,
{
    let a = v / 256;
    let b = a / 256;
    let c = b / 256;
    lemma_fundamental_div_mod(v, 256);
    lemma_fundamental_div_mod(a, 256);
    lemma_fundamental_div_mod(b, 256);
    lemma_div_denominator(v, 256, 256);
    lemma_div_denominator(a, 256, 256);
    lemma_div_denominator(v, 65536, 256);
    assert(0 <= c < 256) by {
        lemma_div_is_ordered(v, 0xFFFF_FFFF, 16777216);
    };
    assert(c % 256 == c);
    assert(le_bytes(v)[0] as int == v % 256);
    assert(le_bytes(v)[1] as int == a % 256);
    assert(le_bytes(v)[2] as int == b % 256);
    assert(le_bytes(v)[3] as int == c);
}

/// Encodes `v` as four little-endian bytes.
pub fn encode_u32(v: usize) -> (r: Vec<u8>)
    requires
        v < 0x1_0000_0000,
    ensures
        r@ == le_bytes(v as int),
        u32_le(r@, 0) == v,
{
    let mut r: Vec<u8> = Vec::new();
    r.push((v % 256) as u8);
    r.push(((v / 256) % 256) as u8);
    r.push(((v / 65536) % 256) as u8);
    r.push(((v / 16777216) % 256) as u8);
    proof {
        lemma_le_round_trip(v as int);
        assert(r@ =~= le_bytes(v as int));
    }
    r
}

/// Decodes the four little-endian bytes of `b` at `off`.
pub fn decode_u32(b: &Vec<u8>, off: usize) -> (r: usize)
    requires
        off + 4 <= b@.len(),
    ensures
        r == u32_le(b@, off as int),
        r < 0x1_0000_0000,
{
    let n = b.len();
    assert(off + 4 <= n);
    let r = b[off] as usize + 256 * (b[off + 1] as usize) + 65536 * (b[off + 2] as usize)
        + 16777216 * (b[off + 3] as usize);
    r
}

/// A copy of `b`.
pub fn copy_bytes(b: &[u8]) -> (r: Vec<u8>)
    ensures
        r@ == b@,
{
    let mut r: Vec<u8> = Vec::new();
    let mut i: usize = 0;
    while i < b.len()
        invariant
            i <= b@.len(),
            r@ == b@.subrange(0, i as int),
        decreases b@.len() - i,
    {
        r.push(b[i]);
        i = i + 1;
        proof {
            assert(r@ =~= b@.subrange(0, i as int));
        }
    }
    proof {
        assert(r@ =~= b@);
    }
    r
}

} // verus!
