//! The memory map that backs a segment, seen as a sequence of bytes.

use vstd::prelude::*;

verus! {

#[verifier::external_type_specification]
#[verifier::external_body]
pub struct ExMmapMut(memmap2::MmapMut);

/// The bytes that a writable memory map currently holds. As memmap2's safety
/// contract for file-backed maps requires, nothing but this map writes the
/// mapped file while the map is alive, so the bytes change only through it.
pub uninterp spec fn map_bytes(m: memmap2::MmapMut) -> Seq<u8>;

/// Relies on `<memmap2::MmapMut as Deref>::deref`: the map is a byte slice,
/// whose `len` is the number of bytes mapped.
#[verifier::external_body]
pub(crate) fn map_len(m: &memmap2::MmapMut) -> (r: usize)
    ensures
        r == map_bytes(*m).len(),
{
    m.len()
}

/// Relies on `<memmap2::MmapMut as Deref>::deref`: indexing the byte slice
/// with `start..end` and copying it out gives those bytes in order.
#[verifier::external_body]
pub(crate) fn map_read(m: &memmap2::MmapMut, start: usize, end: usize) -> (r: Vec<u8>)
    requires
        start <= end <= map_bytes(*m).len(),
    ensures
        r@ == map_bytes(*m).subrange(start as int, end as int),
{
    m[start..end].to_vec()
}

/// Relies on `<memmap2::MmapMut as DerefMut>::deref_mut`: copying `src` into
/// the byte slice at `at` replaces exactly those bytes and keeps the length.
#[verifier::external_body]
pub(crate) fn map_write(m: &mut memmap2::MmapMut, at: usize, src: &[u8])
    requires
        at + src@.len() <= map_bytes(*old(m)).len(),
    ensures
        map_bytes(*final(m)).len() == map_bytes(*old(m)).len(),
        forall|k: int|
            0 <= k < map_bytes(*old(m)).len() ==> #[trigger] map_bytes(*final(m))[k] == if at <= k
                < at + src@.len() {
                src@[k - at]
            } else {
                map_bytes(*old(m))[k]
            },
{
    m[at..at + src.len()].copy_from_slice(src)
}

} // verus!
