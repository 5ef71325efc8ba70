//! A segment: one fixed-size memory map holding a bounded append-only log of
//! byte records with an embedded offset index.
//!
//! Layout of the mapped bytes (all integers are little-endian `u32`):
//!
//! | offset            | meaning                                          |
//! |-------------------|--------------------------------------------------|
//! | `0..4`            | data seek: next free byte of the data region     |
//! | `4..8`            | index seek: next free byte of the index region   |
//! | `8..data_start`   | index: one `(start, end)` pair per record        |
//! | `data_start..`    | data: the record bytes, back to back             |

use crate::codec::{decode_u32, encode_u32, le_bytes, lemma_le_round_trip, u32_le};
use crate::errors::{Error, MMAVError};
use crate::mapped::{map_bytes, map_len, map_read, map_write};
use vstd::prelude::*;

verus! {

/// The byte length of a segment.
pub const SEGMENT_SIZE: usize = 14_580_008;

/// The offset at which a segment's data region starts.
pub const DATA_START: usize = 80_008;

/// The most records that one segment holds.
pub const MAX_RECORDS_PER_SEGMENT: usize = 10_000;

/// The largest offset that a `u32` field can hold.
pub const U32_LIMIT: usize = 0xFFFF_FFFF;

/// A data start that leaves room for a full index and is aligned to its pairs.
pub open spec fn layout_ok(data_start: int) -> bool {
    &&& 8 + 8 * MAX_RECORDS_PER_SEGMENT <= data_start
    &&& (data_start - 8) % 8 == 0
}

/// The two seeks that the header of `b` records; an all-zero header belongs to
/// a segment that was never written, whose seeks are the initial ones.
pub open spec fn header_seeks(b: Seq<u8>, data_start: int) -> (int, int) {
    if u32_le(b, 0) == 0 && u32_le(b, 4) == 0 {
        (data_start, 8)
    } else {
        (u32_le(b, 0), u32_le(b, 4))
    }
}

/// What opening a segment over the bytes `b` yields: its data seek and index
/// seek, or the corruption that was found.
pub open spec fn open_result(b: Seq<u8>, existing: bool, data_start: int) -> Result<
    (int, int),
    Error,
> {
    if b.len() < data_start || b.len() > U32_LIMIT {
        Err(Error::SizeCorrupted)
    } else if !existing {
        Ok((data_start, 8))
    } else {
        let (d, i) = header_seeks(b, data_start);
        if d > b.len() || d < data_start {
            Err(Error::SizeCorrupted)
        } else if i > data_start || i < 8 || (i - 8) % 8 != 0 {
            Err(Error::SeekCorrupted)
        } else {
            Ok((d, i))
        }
    }
}

/// The byte at `k` after appending `value` to a segment whose bytes were `b`,
/// whose data seek was `start` and whose index seek was `si`.
pub open spec fn push_byte(b: Seq<u8>, value: Seq<u8>, start: int, si: int, k: int) -> u8 {
    if k < 4 {
        le_bytes(start + value.len())[k]
    } else if k < 8 {
        le_bytes(si + 8)[k - 4]
    } else if si <= k < si + 4 {
        le_bytes(start)[k - si]
    } else if si + 4 <= k < si + 8 {
        le_bytes(start + value.len())[k - si - 4]
    } else if start <= k < start + value.len() {
        value[k - start]
    } else {
        b[k]
    }
}

/// Memory Mapped Append-only Vector Unit: one segment of a vector.
pub struct MMAVUnit {
    seek: usize,
    seek_index: usize,
    mmap: memmap2::MmapMut,
    data_start_index: usize,
}

impl MMAVUnit {
    /// The mapped bytes.
    pub closed spec fn bytes(&self) -> Seq<u8> {
        map_bytes(self.mmap)
    }

    /// The next free byte of the data region.
    pub closed spec fn data_seek(&self) -> int {
        self.seek as int
    }

    /// The next free byte of the index region.
    pub closed spec fn index_seek(&self) -> int {
        self.seek_index as int
    }

    /// Where the data region starts.
    pub closed spec fn data_start(&self) -> int {
        self.data_start_index as int
    }

    pub open spec fn size(&self) -> int {
        self.bytes().len() as int
    }

    pub open spec fn wf(&self) -> bool {
        &&& layout_ok(self.data_start())
        &&& self.data_start() <= self.size() <= U32_LIMIT
        &&& 8 <= self.index_seek() <= self.data_start()
        &&& (self.index_seek() - 8) % 8 == 0
        &&& self.data_start() <= self.data_seek() <= self.size()
    }

    /// The number of records.
    pub open spec fn count(&self) -> int {
        (self.index_seek() - 8) / 8
    }

    pub open spec fn pair_start(&self, i: int) -> int {
        u32_le(self.bytes(), 8 * i + 8)
    }

    pub open spec fn pair_end(&self, i: int) -> int {
        u32_le(self.bytes(), 8 * i + 12)
    }

    /// The `i`-th index pair names a range inside the data region.
    pub open spec fn pair_valid(&self, i: int) -> bool {
        self.data_start() <= self.pair_start(i) <= self.pair_end(i) <= self.size()
    }

    /// The bytes that the `i`-th index pair names.
    pub open spec fn entry(&self, i: int) -> Seq<u8> {
        self.bytes().subrange(self.pair_start(i), self.pair_end(i))
    }

    /// Every record's range is valid and lies before the data seek, so that
    /// appending leaves it alone.
    pub open spec fn intact(&self) -> bool {
        forall|j: int|
            0 <= j < self.count() ==> #[trigger] self.pair_valid(j) && self.pair_end(j)
                <= self.data_seek()
    }

    /// The records in append order.
    pub open spec fn records(&self) -> Seq<Seq<u8>> {
        Seq::new(self.count() as nat, |j: int| self.entry(j))
    }

    /// The header bytes record the current seeks, so that reopening the same
    /// bytes restores this segment.
    pub open spec fn persisted(&self) -> bool {
        header_seeks(self.bytes(), self.data_start()) == (self.data_seek(), self.index_seek())
    }

    /// An append of a record of `n` bytes succeeds: the segment is not full
    /// and the record fits in what is left of the data region.
    pub open spec fn accepts(&self, n: int) -> bool {
        self.count() < MAX_RECORDS_PER_SEGMENT && self.data_seek() + n <= self.size()
    }

    /// What `get(i)` returns.
    pub open spec fn get_result(&self, i: int) -> Result<Seq<u8>, MMAVError> {
        if self.count() == 0 {
            Err(MMAVError::ArrayEmpty)
        } else if i >= MAX_RECORDS_PER_SEGMENT {
            Err(MMAVError::IndexOutOfRange)
        } else if i >= self.count() {
            Err(MMAVError::IndexOutOfBounds)
        } else if !self.pair_valid(i) {
            Err(MMAVError::IndexOutOfRange)
        } else {
            Ok(self.entry(i))
        }
    }

    /// The record that `last()` returns: the last one, or empty bytes when
    /// there is none or it cannot be read.
    pub open spec fn last_spec(&self) -> Seq<u8> {
        match self.get_result(self.count() - 1) {
            Ok(v) => v,
            Err(_) => Seq::empty(),
        }
    }

    /// Opens a segment over `mmap`. A map that is not `existing` starts empty;
    /// an existing one resumes from the seeks in its header.
    pub fn new(mmap: memmap2::MmapMut, existing: bool, data_start_index: usize) -> (r: Result<
        Self,
        Error,
    >)
        requires
            layout_ok(data_start_index as int),
        ensures
            r is Ok <==> open_result(map_bytes(mmap), existing, data_start_index as int) is Ok,
            match r {
                Ok(u) => {
                    &&& u.wf()
                    &&& u.bytes() == map_bytes(mmap)
                    &&& u.data_start() == data_start_index
                    &&& open_result(map_bytes(mmap), existing, data_start_index as int) == Ok::<
                        (int, int),
                        Error,
                    >((u.data_seek(), u.index_seek()))
                    &&& existing ==> u.persisted()
                },
                Err(e) => open_result(map_bytes(mmap), existing, data_start_index as int) == Err::<
                    (int, int),
                    Error,
                >(e),
            },
    {
        let size = map_len(&mmap);
        if size < data_start_index || size > U32_LIMIT {
            return Err(Error::SizeCorrupted);
        }
        if !existing {
            return Ok(MMAVUnit { seek: data_start_index, seek_index: 8, mmap, data_start_index });
        }
        let header = map_read(&mmap, 0, 8);
        let d0 = decode_u32(&header, 0);
        let i0 = decode_u32(&header, 4);
        proof {
            let b = map_bytes(mmap);
            assert(u32_le(header@, 0) == u32_le(b, 0));
            assert(u32_le(header@, 4) == u32_le(b, 4));
        }
        let (seek, seek_index) = if d0 == 0 && i0 == 0 {
            (data_start_index, 8)
        } else {
            (d0, i0)
        };
        if seek > size || seek < data_start_index {
            return Err(Error::SizeCorrupted);
        }
        if seek_index > data_start_index || seek_index < 8 || (seek_index - 8) % 8 != 0 {
            return Err(Error::SeekCorrupted);
        }
        Ok(MMAVUnit { seek, seek_index, mmap, data_start_index })
    }

    /// The byte length of the segment.
    pub fn byte_len(&self) -> (r: usize)
        ensures
            r == self.size(),
    {
        map_len(&self.mmap)
    }

    /// Gives back the memory map, to be unmapped or kept by the caller.
    pub fn into_map(self) -> (r: memmap2::MmapMut)
        ensures
            map_bytes(r) == self.bytes(),
    {
        self.mmap
    }

    /// The number of records.
    pub fn len(&self) -> (r: usize)
        requires
            self.wf(),
        ensures
            r == self.count(),
    {
        (self.seek_index - 8) / 8
    }

    /// Appends `value`: its bytes go to the data seek, its pair to the index
    /// seek, and then both seeks are advanced and written to the header.
    pub fn push(&mut self, value: &[u8]) -> (r: Result<(), MMAVError>)
        requires
            old(self).wf(),
        ensures
            final(self).wf(),
            final(self).data_start() == old(self).data_start(),
            final(self).size() == old(self).size(),
            r is Ok <==> old(self).accepts(value@.len() as int),
            old(self).count() >= MAX_RECORDS_PER_SEGMENT ==> r == Err::<(), MMAVError>(
                MMAVError::ArrayFull,
            ) && *final(self) == *old(self),
            old(self).count() < MAX_RECORDS_PER_SEGMENT && old(self).data_seek() + value@.len()
                > old(self).size() ==> r == Err::<(), MMAVError>(MMAVError::FileFull) && *final(self)
                == *old(self),
            old(self).count() < MAX_RECORDS_PER_SEGMENT && old(self).data_seek() + value@.len()
                <= old(self).size() ==> {
                &&& r is Ok
                &&& final(self).count() == old(self).count() + 1
                &&& final(self).data_seek() == old(self).data_seek() + value@.len()
                &&& final(self).pair_valid(old(self).count())
                &&& final(self).entry(old(self).count()) == value@
                &&& final(self).persisted()
                &&& forall|k: int|
                    0 <= k < final(self).size() ==> #[trigger] final(self).bytes()[k] == push_byte(
                        old(self).bytes(),
                        value@,
                        old(self).data_seek(),
                        old(self).index_seek(),
                        k,
                    )
                &&& old(self).intact() ==> final(self).intact() && final(self).records()
                    == old(self).records().push(value@)
            },
    {
        if self.len() > MAX_RECORDS_PER_SEGMENT - 1 {
            return Err(MMAVError::ArrayFull);
        }
        let n = value.len();
        if n > map_len(&self.mmap) - self.seek {
            return Err(MMAVError::FileFull);
        }
        let ghost pre = *self;
        let start = self.seek;
        let end = start + n;
        let si = self.seek_index;
        map_write(&mut self.mmap, start, value);
        let ghost b1 = map_bytes(self.mmap);
        let mut pair = encode_u32(start);
        let mut end_bytes = encode_u32(end);
        let ghost end_view = end_bytes@;
        pair.append(&mut end_bytes);
        proof {
            assert(pair@.subrange(0, 4) =~= le_bytes(start as int));
            assert(pair@.subrange(4, 8) =~= end_view);
        }
        map_write(&mut self.mmap, si, pair.as_slice());
        let ghost b2 = map_bytes(self.mmap);
        self.seek_index = si + 8;
        let index_bytes = encode_u32(si + 8);
        map_write(&mut self.mmap, 4, index_bytes.as_slice());
        let ghost b3 = map_bytes(self.mmap);
        self.seek = end;
        let seek_bytes = encode_u32(end);
        map_write(&mut self.mmap, 0, seek_bytes.as_slice());
        proof {
            let b = map_bytes(self.mmap);
            assert forall|k: int| 0 <= k < b.len() implies #[trigger] b[k] == push_byte(
                pre.bytes(),
                value@,
                start as int,
                si as int,
                k,
            ) by {
                assert(b[k] == if k < 4 { seek_bytes@[k] } else { b3[k] });
                assert(b3[k] == if 4 <= k < 8 { index_bytes@[k - 4] } else { b2[k] });
                assert(b2[k] == if si <= k < si + 8 { pair@[k - si] } else { b1[k] });
                if si <= k < si + 8 {
                    if k < si + 4 {
                        assert(pair@[k - si] == pair@.subrange(0, 4)[k - si]);
                    } else {
                        assert(pair@[k - si] == pair@.subrange(4, 8)[k - si - 4]);
                    }
                }
            };
            lemma_push_effect(pre, *self, value@);
        }
        Ok(())
    }

    /// The record at `index`.
    pub fn get(&self, index: usize) -> (r: Result<Vec<u8>, MMAVError>)
        requires
            self.wf(),
        ensures
            match r {
                Ok(v) => self.get_result(index as int) == Ok::<Seq<u8>, MMAVError>(v@),
                Err(e) => self.get_result(index as int) == Err::<Seq<u8>, MMAVError>(e),
            },
    {
        if self.seek_index == 8 {
            return Err(MMAVError::ArrayEmpty);
        }
        if index > MAX_RECORDS_PER_SEGMENT - 1 {
            return Err(MMAVError::IndexOutOfRange);
        }
        if index > self.len() - 1 {
            return Err(MMAVError::IndexOutOfBounds);
        }
        let i = 8 * index + 8;
        let pair = map_read(&self.mmap, i, i + 8);
        let start = decode_u32(&pair, 0);
        let end = decode_u32(&pair, 4);
        proof {
            assert(u32_le(pair@, 0) == self.pair_start(index as int));
            assert(u32_le(pair@, 4) == self.pair_end(index as int));
        }
        let size = map_len(&self.mmap);
        if start < self.data_start_index || start > end || end > size {
            return Err(MMAVError::IndexOutOfRange);
        }
        Ok(map_read(&self.mmap, start, end))
    }

    /// The last record; empty bytes when there is none or it cannot be read.
    pub fn last(&self) -> (r: Vec<u8>)
        requires
            self.wf(),
        ensures
            r@ == self.last_spec(),
            self.count() == 0 ==> r@.len() == 0,
    {
        if self.len() == 0 {
            return Vec::new();
        }
        match self.get(self.len() - 1) {
            Ok(v) => v,
            Err(_) => Vec::new(),
        }
    }
}


/// The effect of one append on a segment's seeks, records and header.
proof fn lemma_push_effect(pre: MMAVUnit, post: MMAVUnit, value: Seq<u8>)
    requires
        pre.wf(),
        pre.count() < MAX_RECORDS_PER_SEGMENT,
        pre.data_seek() + value.len() <= pre.size(),
        post.data_start() == pre.data_start(),
        post.data_seek() == pre.data_seek() + value.len(),
        post.index_seek() == pre.index_seek() + 8,
        post.size() == pre.size(),
        forall|k: int|
            0 <= k < post.size() ==> #[trigger] post.bytes()[k] == push_byte(
                pre.bytes(),
                value,
                pre.data_seek(),
                pre.index_seek(),
                k,
            ),
    ensures
        post.wf(),
        post.count() == pre.count() + 1,
        post.pair_valid(pre.count()),
        post.entry(pre.count()) == value,
        post.persisted(),
        forall|j: int|
            0 <= j < pre.count() && #[trigger] pre.pair_valid(j) && pre.pair_end(j)
                <= pre.data_seek() ==> post.pair_valid(j) && post.pair_end(j) == pre.pair_end(j)
                && post.entry(j) == pre.entry(j),
        pre.intact() ==> post.intact() && post.records() == pre.records().push(value),
{
    let c = pre.count();
    let b0 = pre.bytes();
    let b = post.bytes();
    let si = pre.index_seek();
    let start = pre.data_seek();
    let end = start + value.len();
    assert(si + 8 <= pre.data_start());
    assert(si == 8 * c + 8);
    assert(b.subrange(0, 4) =~= le_bytes(end));
    assert(b.subrange(4, 8) =~= le_bytes(si + 8));
    assert(b.subrange(si, si + 4) =~= le_bytes(start));
    assert(b.subrange(si + 4, si + 8) =~= le_bytes(end));
    lemma_u32_le_subrange(b, 0);
    lemma_u32_le_subrange(b, 4);
    lemma_u32_le_subrange(b, si);
    lemma_u32_le_subrange(b, si + 4);
    lemma_le_round_trip(end);
    lemma_le_round_trip(si + 8);
    lemma_le_round_trip(start);
    assert(u32_le(b, 0) == end);
    assert(u32_le(b, 4) == si + 8);
    assert(post.persisted());
    assert(post.pair_start(c) == start);
    assert(post.pair_end(c) == end);
    assert(post.entry(c) =~= value);
    assert(post.count() == c + 1) by {
        assert((si + 8 - 8) / 8 == (si - 8) / 8 + 1);
    };
    assert forall|j: int|
        0 <= j < c && #[trigger] pre.pair_valid(j) && pre.pair_end(j) <= pre.data_seek()
            implies post.pair_valid(j) && post.pair_end(j) == pre.pair_end(j) && post.entry(j)
            == pre.entry(j) by {
        assert(8 * j + 16 <= si);
        assert(post.pair_start(j) == pre.pair_start(j));
        assert(post.pair_end(j) == pre.pair_end(j));
        assert(post.entry(j) =~= pre.entry(j));
    };
    if pre.intact() {
        assert forall|j: int| 0 <= j < c implies #[trigger] post.pair_valid(j) && post.pair_end(j)
            <= post.data_seek() && post.entry(j) == pre.entry(j) by {
            lemma_intact_at(pre, j);
        };
        assert(post.intact()) by {
            assert forall|j: int| 0 <= j < post.count() implies #[trigger] post.pair_valid(j)
                && post.pair_end(j) <= post.data_seek() by {
                if j < c {
                    assert(post.pair_valid(j));
                }
            };
        };
        assert(post.records() =~= pre.records().push(value)) by {
            assert forall|j: int| 0 <= j < c implies post.records()[j] == pre.records()[j] by {
                assert(post.pair_valid(j));
            };
        };
    }
}

/// Each record of an intact segment has a valid range before the data seek.
pub proof fn lemma_intact_at(u: MMAVUnit, j: int)
    requires
        u.intact(),
        0 <= j < u.count(),
    ensures
        u.pair_valid(j),
        u.pair_end(j) <= u.data_seek(),
{
    assert(u.pair_valid(j) && u.pair_end(j) <= u.data_seek());
}

/// A `u32` field reads the same from a slice of four bytes as in place.
proof fn lemma_u32_le_subrange(b: Seq<u8>, off: int)
    requires
        0 <= off,
        off + 4 <= b.len(),
    ensures
        u32_le(b, off) == u32_le(b.subrange(off, off + 4), 0),
{
}

} // verus!
