//! A vector: one sensor's logical append-only sequence of records, kept as a
//! chain of segments named by the logical index of their first record.
//!
//! Segments are loaded on demand through an opener, and handed back through a
//! closer when a rollover unloads them; the vector itself does no I/O.

use crate::errors::{Error, MMAVError};
use crate::mapped::{map_bytes, map_len};
use crate::mmav_unit::{
    layout_ok,
    lemma_intact_at,
    open_result,
    MMAVUnit,
    DATA_START,
    MAX_RECORDS_PER_SEGMENT,
    SEGMENT_SIZE,
    U32_LIMIT,
};
use crate::names::{index_of_name, insert_sorted, parse_index};
use vstd::prelude::*;

verus! {

pub open spec fn ascending(s: Seq<usize>) -> bool {
    forall|a: int, b: int| 0 <= a < b < s.len() ==> s[a] < s[b]
}

/// The position of the segment that holds logical index `i`: the last start
/// that is at most `i`, or the first one when every start exceeds `i`.
pub open spec fn seg_pos(s: Seq<usize>, i: int) -> int
    decreases s.len(),
{
    if s.len() <= 1 {
        0
    } else if s.last() <= i {
        s.len() - 1
    } else {
        seg_pos(s.drop_last(), i)
    }
}

/// `seg_pos` finds the segment whose range holds `i`.
pub proof fn lemma_seg_pos(s: Seq<usize>, i: int)
    requires
        s.len() >= 1,
        ascending(s),
    ensures
        0 <= seg_pos(s, i) < s.len(),
        s[0] <= i ==> s[seg_pos(s, i)] <= i,
        seg_pos(s, i) + 1 < s.len() ==> i < s[seg_pos(s, i) + 1],
    decreases s.len(),
{
    if s.len() > 1 && s.last() > i {
        lemma_seg_pos(s.drop_last(), i);
    }
}

/// The segment whose range holds `i` is the one that `seg_pos` finds.
pub proof fn lemma_seg_pos_unique(s: Seq<usize>, i: int, j: int)
    requires
        ascending(s),
        0 <= j < s.len(),
        s[j] <= i,
        j + 1 == s.len() || i < s[j + 1],
    ensures
        seg_pos(s, i) == j,
    decreases s.len(),
{
    if s.len() > 1 && s.last() > i {
        assert(j + 1 < s.len());
        lemma_seg_pos_unique(s.drop_last(), i, j);
    } else if s.len() > 1 {
        if j + 1 < s.len() {
            assert(s[j + 1] <= s.last());
        }
    }
}

/// The bytes and the two seeks of a segment.
pub open spec fn unit_state(u: MMAVUnit) -> Result<(Seq<u8>, int, int), Error> {
    Ok((u.bytes(), u.data_seek(), u.index_seek()))
}

/// The segment that an answer of the opener yields, for segments of `size`
/// bytes whose data starts at `data_start`: its bytes and seeks, or why it
/// cannot be used.
pub open spec fn unit_from(res: Option<(memmap2::MmapMut, bool)>, size: int, data_start: int) -> Result<
    (Seq<u8>, int, int),
    Error,
> {
    match res {
        None => Err(Error::Unavailable),
        Some((m, existing)) => if map_bytes(m).len() != size {
            Err(Error::SizeCorrupted)
        } else {
            match open_result(map_bytes(m), existing, data_start) {
                Ok((d, i)) => Ok((map_bytes(m), d, i)),
                Err(e) => Err(e),
            }
        },
    }
}

/// The opener, asked for the segment of vector `id` that starts at `start`,
/// answered something that yields `out`.
pub open spec fn from_opener<O: Fn(String, usize) -> Option<(memmap2::MmapMut, bool)>>(
    open: O,
    id: Seq<char>,
    start: usize,
    size: int,
    data_start: int,
    out: Result<(Seq<u8>, int, int), Error>,
) -> bool {
    exists|p: String, res: Option<(memmap2::MmapMut, bool)>|
        p@ == id && #[trigger] open.ensures((p, start), res) && unit_from(res, size, data_start)
            == out
}

/// The opener's answer yields a segment with room for a record of `n` bytes.
pub open spec fn takes(out: Result<(Seq<u8>, int, int), Error>, size: int, n: int) -> bool {
    out matches Ok((b, d, i)) && (i - 8) / 8 < MAX_RECORDS_PER_SEGMENT && d + n <= size
}

/// The opener's answer yields a segment that holds no record.
pub open spec fn fresh_empty(out: Result<(Seq<u8>, int, int), Error>) -> bool {
    out matches Ok((b, d, i)) && (i - 8) / 8 == 0
}

/// Some name among `names` stands for the index `x`.
pub open spec fn listed(names: Seq<Vec<u8>>, x: int) -> bool {
    exists|m: int| 0 <= m < names.len() && index_of_name(names[m]@) == Some(x)
}

/// `s` is a segment start that a directory with entries `names` has: one
/// that a name stands for, or 0 when no name does.
pub open spec fn start_of(names: Seq<Vec<u8>>, s: int) -> bool {
    listed(names, s) || (!any_listed(names) && s == 0)
}

/// Some name among `names` stands for an index.
pub open spec fn any_listed(names: Seq<Vec<u8>>) -> bool {
    exists|x: usize| listed(names, x as int)
}

/// The records of `v`, as plain byte sequences.
pub open spec fn seqs_of(v: Seq<Vec<u8>>) -> Seq<Seq<u8>> {
    Seq::new(v.len(), |k: int| v[k]@)
}

/// Memory Mapped Append-only Vector.
pub struct MMAV {
    id: String,
    index: usize,
    mmav_size: usize,
    indices: Vec<usize>,
    mmav_data_start_index: usize,
    units: Vec<Option<MMAVUnit>>,
}

impl MMAV {
    /// The name under which the opener and closer know this vector.
    pub closed spec fn id(&self) -> Seq<char> {
        self.id@
    }

    /// The starting logical index of each known segment, ascending.
    pub closed spec fn starts(&self) -> Seq<usize> {
        self.indices@
    }

    /// The starting logical index of the tail segment.
    pub closed spec fn tail_start(&self) -> int {
        self.index as int
    }

    /// The byte length of each segment.
    pub closed spec fn seg_size(&self) -> int {
        self.mmav_size as int
    }

    /// Where each segment's data region starts.
    pub closed spec fn seg_data_start(&self) -> int {
        self.mmav_data_start_index as int
    }

    /// The loaded segment at each position of `starts`, if any.
    pub closed spec fn loaded(&self) -> Seq<Option<MMAVUnit>> {
        self.units@
    }

    pub open spec fn tail(&self) -> MMAVUnit {
        self.loaded().last()->Some_0
    }

    pub open spec fn unit_ok(&self, u: MMAVUnit) -> bool {
        &&& u.wf()
        &&& u.size() == self.seg_size()
        &&& u.data_start() == self.seg_data_start()
    }

    pub open spec fn wf(&self) -> bool {
        &&& self.starts().len() >= 1
        &&& self.loaded().len() == self.starts().len()
        &&& ascending(self.starts())
        &&& self.tail_start() == self.starts().last()
        &&& self.loaded().last() is Some
        &&& forall|j: int|
            0 <= j < self.loaded().len() && #[trigger] self.loaded()[j] is Some ==> self.unit_ok(
                self.loaded()[j]->Some_0,
            )
        &&& layout_ok(self.seg_data_start())
        &&& self.seg_data_start() <= self.seg_size() <= U32_LIMIT
        &&& self.tail_start() + U32_LIMIT <= usize::MAX
    }

    /// Every loaded segment keeps its records before its data seek.
    pub open spec fn sound(&self) -> bool {
        forall|j: int|
            0 <= j < self.loaded().len() && #[trigger] self.loaded()[j] is Some
                ==> self.loaded()[j]->Some_0.intact()
    }

    /// The logical length.
    pub open spec fn len_spec(&self) -> int {
        self.tail_start() + self.tail().count()
    }

    /// The position in `starts` of the segment that holds logical index `i`.
    pub open spec fn pos(&self, i: int) -> int {
        seg_pos(self.starts(), i)
    }

    /// The segment that holds `i` is loaded.
    pub open spec fn holds(&self, i: int) -> bool {
        self.loaded()[self.pos(i)] is Some
    }

    /// The record that a read of logical index `i` returns: the entry of the
    /// loaded segment that holds it, or empty bytes when `i` is past the end,
    /// its segment is not loaded or its entry cannot be read.
    pub open spec fn record_at(&self, i: int) -> Seq<u8> {
        let j = self.pos(i);
        if 0 <= i < self.len_spec() && self.starts()[j] <= i && self.loaded()[j] is Some {
            match self.loaded()[j]->Some_0.get_result(i - self.starts()[j]) {
                Ok(v) => v,
                Err(_) => Seq::empty(),
            }
        } else {
            Seq::empty()
        }
    }

    /// The record count of the loaded segment that holds `i`, or zero.
    pub open spec fn seg_len_at(&self, i: int) -> int {
        if self.holds(i) {
            self.loaded()[self.pos(i)]->Some_0.count()
        } else {
            0
        }
    }

    /// The non-empty records at logical indices `lo..=hi`, in order.
    pub open spec fn collected(&self, lo: int, hi: int) -> Seq<Seq<u8>>
        decreases hi - lo + 1,
    {
        if hi < lo {
            Seq::empty()
        } else {
            let prev = self.collected(lo, hi - 1);
            if self.record_at(hi).len() > 0 {
                prev.push(self.record_at(hi))
            } else {
                prev
            }
        }
    }

    /// The indices that `range(start, end)` reads: `start..=end`, unless the
    /// distance between them exceeds the sum `a + b` of the record counts of
    /// the segments that hold `start` and `end` (counted twice when it is the
    /// same segment), in which case the span is cut to `a` indices from
    /// `start`.
    pub open spec fn range_bounds(&self, start: int, end: int) -> (int, int) {
        let a = self.seg_len_at(start);
        let b = self.seg_len_at(end);
        let dist = if end >= start {
            end - start
        } else {
            start - end
        };
        if dist > a + b {
            (start, start + a - 1)
        } else {
            (start, end)
        }
    }

    /// What `range(start, end)` returns, once the segments it reads are loaded.
    pub open spec fn range_result(&self, start: int, end: int) -> Seq<Seq<u8>> {
        let (lo, hi) = self.range_bounds(start, end);
        if hi > self.len_spec() {
            Seq::empty()
        } else {
            self.collected(lo, hi)
        }
    }

    /// The indices that `last_limit(limit)` reads.
    pub open spec fn limit_bounds(&self, limit: int) -> (int, int) {
        if limit > self.len_spec() {
            (0, self.len_spec() - 1)
        } else {
            (self.len_spec() - limit, self.len_spec() - 1)
        }
    }

    /// What `last_limit(limit)` returns, once the segments it reads are loaded.
    pub open spec fn limit_result(&self, limit: int) -> Seq<Seq<u8>> {
        if self.len_spec() == 0 {
            Seq::empty()
        } else {
            self.range_result(self.limit_bounds(limit).0, self.limit_bounds(limit).1)
        }
    }

    /// `self` is what `MMAV::new` makes for `id` from an empty directory: one
    /// segment, starting at 0, built from the opener's answer for it.
    pub open spec fn new_from<O: Fn(String, usize) -> Option<(memmap2::MmapMut, bool)>>(
        &self,
        open: O,
        id: Seq<char>,
    ) -> bool {
        &&& self.wf()
        &&& self.id() == id
        &&& self.starts() == seq![0usize]
        &&& self.seg_size() == SEGMENT_SIZE
        &&& self.seg_data_start() == DATA_START
        &&& from_opener(open, id, 0, SEGMENT_SIZE as int, DATA_START as int, unit_state(self.tail()))
    }

    /// The tail segment is the one built from the opener's answer for it.
    pub open spec fn tail_opened<O: Fn(String, usize) -> Option<(memmap2::MmapMut, bool)>>(
        &self,
        open: O,
    ) -> bool {
        from_opener(
            open,
            self.id(),
            self.tail_start() as usize,
            self.seg_size(),
            self.seg_data_start(),
            unit_state(self.tail()),
        )
    }

    /// `self` is `old` with possibly more segments loaded and nothing else changed.
    pub open spec fn loads_from(&self, old: MMAV) -> bool {
        &&& self.id() == old.id()
        &&& self.starts() == old.starts()
        &&& self.tail_start() == old.tail_start()
        &&& self.seg_size() == old.seg_size()
        &&& self.seg_data_start() == old.seg_data_start()
        &&& self.loaded().len() == old.loaded().len()
        &&& forall|j: int|
            0 <= j < old.loaded().len() && #[trigger] old.loaded()[j] is Some ==> self.loaded()[j]
                == old.loaded()[j]
    }

    /// Opens the vector `id` whose directory holds the entries `names`: the
    /// names that are decimal indices become the segment starts, in ascending
    /// order (`[0]` when there is none), and the last segment and the one
    /// before it are loaded.
    pub fn new<O>(id: String, names: Vec<Vec<u8>>, open: &O) -> (r: Result<MMAV, Error>) where
        O: Fn(String, usize) -> Option<(memmap2::MmapMut, bool)>,

        requires
            forall|p: String, s: usize| open.requires((p, s)),
        ensures
            match r {
                Ok(v) => {
                    &&& v.wf()
                    &&& v.id() == id@
                    &&& v.seg_size() == SEGMENT_SIZE
                    &&& v.seg_data_start() == DATA_START
                    &&& forall|x: usize| #[trigger]
                        v.starts().contains(x) <==> listed(names@, x as int) || (!any_listed(
                            names@,
                        ) && x == 0)
                    &&& forall|j: int|
                        0 <= j < v.starts().len() - 2 ==> #[trigger] v.loaded()[j] is None
                    &&& v.starts().len() >= 2 ==> v.loaded()[v.starts().len() - 2] is Some
                    &&& !any_listed(names@) ==> v.starts() == seq![0usize]
                    &&& names@.len() == 0 ==> v.new_from(*open, id@)
                    &&& from_opener(
                        *open,
                        id@,
                        v.tail_start() as usize,
                        SEGMENT_SIZE as int,
                        DATA_START as int,
                        unit_state(v.tail()),
                    )
                    &&& v.starts().len() >= 2 ==> from_opener(
                        *open,
                        id@,
                        v.starts()[v.starts().len() - 2],
                        SEGMENT_SIZE as int,
                        DATA_START as int,
                        unit_state(v.loaded()[v.starts().len() - 2]->Some_0),
                    )
                },
                Err(e) => {
                    &&& e == Error::SizeCorrupted || e == Error::SeekCorrupted || e
                        == Error::Unavailable || e == Error::IndexOutOfRange
                    &&& e == Error::IndexOutOfRange ==> exists|x: usize|
                        listed(names@, x as int) && x + U32_LIMIT > usize::MAX
                },
            },
            (exists|x: usize| listed(names@, x as int) && x + U32_LIMIT > usize::MAX) ==> r
                == Err::<MMAV, Error>(Error::IndexOutOfRange),
            r is Err && r->Err_0 != Error::IndexOutOfRange ==> exists|s: usize|
                start_of(names@, s as int) && #[trigger] from_opener(
                    *open,
                    id@,
                    s,
                    SEGMENT_SIZE as int,
                    DATA_START as int,
                    Err(r->Err_0),
                ),
            names@.len() == 0 ==> exists|out: Result<(Seq<u8>, int, int), Error>|
                #[trigger] from_opener(*open, id@, 0, SEGMENT_SIZE as int, DATA_START as int, out)
                    && (r is Ok <==> out is Ok) && (r is Err ==> out == Err::<
                    (Seq<u8>, int, int),
                    Error,
                >(r->Err_0)) && (r is Ok ==> out == unit_state(r->Ok_0.tail())),
    {
        let mut indices: Vec<usize> = Vec::new();
        let mut k: usize = 0;
        while k < names.len()
            invariant
                0 <= k <= names@.len(),
                ascending(indices@),
                forall|x: usize| #[trigger]
                    indices@.contains(x) <==> exists|m: int|
                        0 <= m < k && index_of_name(names@[m]@) == Some(x as int),
            decreases names@.len() - k,
        {
            match parse_index(&names[k]) {
                Some(v) => {
                    insert_sorted(&mut indices, v);
                    proof {
                        assert forall|x: usize| #[trigger]
                            indices@.contains(x) <==> exists|m: int|
                                0 <= m < k + 1 && index_of_name(names@[m]@) == Some(x as int) by {
                            assert(indices@.contains(x) <==> indices@.to_set().contains(x));
                            if x == v {
                                assert(index_of_name(names@[k as int]@) == Some(x as int));
                            }
                            if exists|m: int| 0 <= m < k + 1 && index_of_name(names@[m]@) == Some(x as int) {
                                let m = choose|m: int| 0 <= m < k + 1 && index_of_name(names@[m]@) == Some(x as int);
                                if m == k {
                                    assert(x == v);
                                }
                            }
                        };
                    }
                },
                None => {
                    proof {
                        assert forall|x: usize| #[trigger]
                            indices@.contains(x) <==> exists|m: int|
                                0 <= m < k + 1 && index_of_name(names@[m]@) == Some(x as int) by {
                            if exists|m: int| 0 <= m < k + 1 && index_of_name(names@[m]@) == Some(x as int) {
                                let m = choose|m: int| 0 <= m < k + 1 && index_of_name(names@[m]@) == Some(x as int);
                                assert(m != k);
                            }
                        };
                    }
                },
            }
            k = k + 1;
        }
        proof {
            assert forall|x: usize| indices@.contains(x) <==> listed(names@, x as int) by {};
            if indices@.len() > 0 {
                assert(indices@.contains(indices@[0]));
                assert(any_listed(names@));
            }
        }
        let ghost found = indices@;
        if indices.len() == 0 {
            indices.push(0);
            proof {
                assert(!any_listed(names@)) by {
                    if any_listed(names@) {
                        let x = choose|x: usize| listed(names@, x as int);
                        assert(found.contains(x));
                    }
                };
                assert forall|x: usize| #[trigger] indices@.contains(x) <==> (x == 0) by {
                    if indices@.contains(x) {
                        assert(indices@[0] == 0);
                    }
                };
            }
        }
        let n = indices.len();
        let last = indices[n - 1];
        if last > usize::MAX - U32_LIMIT {
            proof {
                assert(indices@.contains(last));
            }
            return Err(Error::IndexOutOfRange);
        }
        proof {
            assert(indices@.contains(last));
            assert(start_of(names@, last as int));
        }
        let tail = match open_unit(&id, SEGMENT_SIZE, DATA_START, last, open) {
            Ok(u) => u,
            Err(e) => {
                proof {
                    if names@.len() == 0 {
                        assert(!any_listed(names@));
                        assert(indices@ =~= seq![0usize]);
                        assert(last == 0);
                    }
                }
                return Err(e);
            },
        };
        let mut units: Vec<Option<MMAVUnit>> = Vec::new();
        while units.len() < n - 1
            invariant
                units@.len() <= n - 1,
                forall|j: int| 0 <= j < units@.len() ==> #[trigger] units@[j] is None,
            decreases n - 1 - units@.len(),
        {
            units.push(None);
        }
        units.push(Some(tail));
        if n >= 2 {
            proof {
                assert(indices@.contains(indices@[n - 2]));
                assert(start_of(names@, indices@[n - 2] as int));
                if names@.len() == 0 {
                    assert(!any_listed(names@));
                    assert(indices@ =~= seq![0usize]);
                }
            }
            match open_unit(&id, SEGMENT_SIZE, DATA_START, indices[n - 2], open) {
                Ok(u) => {
                    units.set(n - 2, Some(u));
                },
                Err(e) => {
                    return Err(e);
                },
            }
        }
        let v = MMAV {
            id,
            index: last,
            mmav_size: SEGMENT_SIZE,
            indices,
            mmav_data_start_index: DATA_START,
            units,
        };
        proof {
            assert(layout_ok(DATA_START as int));
            assert(v.wf());
            assert forall|x: usize| #[trigger]
                v.starts().contains(x) <==> listed(names@, x as int) || (!any_listed(names@) && x
                    == 0) by {
                if found.len() > 0 {
                    assert(v.starts() == found);
                    assert(found.contains(x) <==> listed(names@, x as int));
                }
            };
            assert(forall|j: int|
                0 <= j < v.starts().len() - 2 ==> #[trigger] v.loaded()[j] is None);
            assert(v.starts().len() >= 2 ==> v.loaded()[v.starts().len() - 2] is Some);
            if names@.len() == 0 {
                assert(!any_listed(names@));
                assert(v.starts() =~= seq![0usize]);
                assert(v.tail_start() == 0);
            }
        }
        Ok(v)
    }

    /// The starting logical index of each known segment, ascending.
    pub fn indices(&self) -> (r: Vec<usize>)
        ensures
            r@ == self.starts(),
    {
        let mut r: Vec<usize> = Vec::new();
        let mut i: usize = 0;
        while i < self.indices.len()
            invariant
                i <= self.indices@.len(),
                r@ == self.indices@.subrange(0, i as int),
            decreases self.indices@.len() - i,
        {
            r.push(self.indices[i]);
            i = i + 1;
            proof {
                assert(r@ =~= self.indices@.subrange(0, i as int));
            }
        }
        proof {
            assert(r@ =~= self.indices@);
        }
        r
    }

    /// The logical length.
    pub fn len(&self) -> (r: usize)
        requires
            self.wf(),
        ensures
            r == self.len_spec(),
    {
        let t = self.units.len() - 1;
        match &self.units[t] {
            Some(u) => self.index + u.len(),
            None => 0,
        }
    }

    /// The last record; empty bytes when there is none.
    pub fn last(&self) -> (r: Vec<u8>)
        requires
            self.wf(),
        ensures
            r@ == self.tail().last_spec(),
    {
        let t = self.units.len() - 1;
        match &self.units[t] {
            Some(u) => u.last(),
            None => Vec::new(),
        }
    }

    /// Loads the segment that holds `index` unless it is loaded already, and
    /// returns its record count, or zero when it could not be loaded.
    fn load<O>(&mut self, index: usize, open: &O) -> (r: usize) where
        O: Fn(String, usize) -> Option<(memmap2::MmapMut, bool)>,

        requires
            old(self).wf(),
            forall|p: String, s: usize| open.requires((p, s)),
        ensures
            final(self).wf(),
            final(self).loads_from(*old(self)),
            r == final(self).seg_len_at(index as int),
            final(self).holds(index as int) || r == 0,
    {
        let j = MMAV::bisect_left(index, &self.indices);
        if self.units[j].is_none() {
            let start = self.indices[j];
            match open_unit(&self.id, self.mmav_size, self.mmav_data_start_index, start, open) {
                Ok(u) => {
                    self.units.set(j, Some(u));
                },
                Err(_) => {},
            }
        }
        match &self.units[j] {
            Some(u) => u.len(),
            None => 0,
        }
    }

    /// The record count of the loaded segment that holds `index`, or zero.
    fn loaded_len_at(&self, index: usize) -> (r: usize)
        requires
            self.wf(),
        ensures
            r == self.seg_len_at(index as int),
    {
        let j = MMAV::bisect_left(index, &self.indices);
        match &self.units[j] {
            Some(u) => u.len(),
            None => 0,
        }
    }

    /// The record at `index` among the loaded segments.
    fn get_loaded(&self, index: usize) -> (r: Vec<u8>)
        requires
            self.wf(),
        ensures
            r@ == self.record_at(index as int),
    {
        if index >= self.len() {
            return Vec::new();
        }
        let j = MMAV::bisect_left(index, &self.indices);
        let start = self.indices[j];
        if index < start {
            return Vec::new();
        }
        match &self.units[j] {
            Some(u) => match u.get(index - start) {
                Ok(v) => v,
                Err(_) => Vec::new(),
            },
            None => Vec::new(),
        }
    }

    /// The record at `index`, loading its segment when it is not loaded.
    pub fn get<O>(&mut self, index: usize, open: &O) -> (r: Vec<u8>) where
        O: Fn(String, usize) -> Option<(memmap2::MmapMut, bool)>,

        requires
            old(self).wf(),
            forall|p: String, s: usize| open.requires((p, s)),
        ensures
            final(self).wf(),
            final(self).loads_from(*old(self)),
            r@ == final(self).record_at(index as int),
            old(self).holds(index as int) ==> r@ == old(self).record_at(index as int),
    {
        self.load(index, open);
        proof {
            lemma_loads_keep(*old(self), *self, index as int);
        }
        self.get_loaded(index)
    }

    /// Unloads every segment but the last `keep`, handing each map to `close`.
    fn unload<C>(&mut self, keep: usize, close: &C) where
        C: Fn(String, usize, memmap2::MmapMut),

        requires
            old(self).wf(),
            1 <= keep <= old(self).starts().len(),
            forall|p: String, s: usize, m: memmap2::MmapMut| close.requires((p, s, m)),
        ensures
            final(self).wf(),
            final(self).id() == old(self).id(),
            final(self).starts() == old(self).starts(),
            final(self).tail_start() == old(self).tail_start(),
            final(self).seg_size() == old(self).seg_size(),
            final(self).seg_data_start() == old(self).seg_data_start(),
            final(self).loaded().len() == old(self).loaded().len(),
            forall|j: int|
                0 <= j < old(self).loaded().len() - keep ==> #[trigger] final(self).loaded()[j] is None,
            forall|j: int|
                old(self).loaded().len() - keep <= j < old(self).loaded().len() ==> #[trigger] final(self).loaded()[j] == old(self).loaded()[j],
    {
        let n = self.units.len();
        let mut j: usize = 0;
        while j < n - keep
            invariant
                self.wf(),
                n == self.units@.len(),
                1 <= keep <= n,
                0 <= j <= n - keep,
                self.id() == old(self).id(),
                self.starts() == old(self).starts(),
                self.tail_start() == old(self).tail_start(),
                self.seg_size() == old(self).seg_size(),
                self.seg_data_start() == old(self).seg_data_start(),
                forall|i: int| 0 <= i < j ==> #[trigger] self.loaded()[i] is None,
                forall|i: int| j <= i < n ==> #[trigger] self.loaded()[i] == old(self).loaded()[i],
                forall|p: String, s: usize, m: memmap2::MmapMut| close.requires((p, s, m)),
            decreases n - keep - j,
        {
            let slot = self.units.remove(j);
            self.units.insert(j, None);
            match slot {
                Some(u) => {
                    close(self.id.clone(), self.indices[j], u.into_map());
                },
                None => {},
            }
            j = j + 1;
        }
    }

    /// Starts a new tail segment at the current length, after unloading all
    /// but the current tail. Fails when the tail is empty or the opener gives
    /// no usable empty segment.
    fn expand<O, C>(&mut self, open: &O, close: &C) -> (r: bool) where
        O: Fn(String, usize) -> Option<(memmap2::MmapMut, bool)>,
        C: Fn(String, usize, memmap2::MmapMut),

        requires
            old(self).wf(),
            forall|p: String, s: usize| open.requires((p, s)),
            forall|p: String, s: usize, m: memmap2::MmapMut| close.requires((p, s, m)),
        ensures
            final(self).wf(),
            final(self).id() == old(self).id(),
            final(self).seg_size() == old(self).seg_size(),
            final(self).seg_data_start() == old(self).seg_data_start(),
            final(self).len_spec() == old(self).len_spec(),
            final(self).tail().count() == 0 || final(self).tail() == old(self).tail(),
            r ==> {
                &&& final(self).starts() == old(self).starts().push(old(self).len_spec() as usize)
                &&& final(self).tail().count() == 0
                &&& final(self).tail().intact()
                &&& final(self).loaded()[final(self).loaded().len() - 2] == Some(old(self).tail())
            },
            !r ==> final(self).starts() == old(self).starts() && final(self).tail() == old(self).tail(),
            forall|j: int|
                0 <= j < final(self).loaded().len() - 2 ==> #[trigger] final(self).loaded()[j] is None,
            forall|j: int|
                0 <= j < final(self).loaded().len() && #[trigger] final(self).loaded()[j] is Some
                    && j < old(self).loaded().len() ==> final(self).loaded()[j] == old(self).loaded()[j],
            old(self).sound() ==> final(self).sound(),
            old(self).tail().count() == 0 ==> !r,
            old(self).len_spec() + U32_LIMIT > usize::MAX ==> !r,
            old(self).tail().count() > 0 && old(self).len_spec() + U32_LIMIT <= usize::MAX ==> exists|
                out: Result<(Seq<u8>, int, int), Error>,
            |
                #[trigger] from_opener(
                    *open,
                    old(self).id(),
                    old(self).len_spec() as usize,
                    old(self).seg_size(),
                    old(self).seg_data_start(),
                    out,
                ) && (r <==> fresh_empty(out)) && (r ==> out == unit_state(final(self).tail())),
    {
        self.unload(1, close);
        let t = self.units.len() - 1;
        let tail_len = match &self.units[t] {
            Some(u) => u.len(),
            None => 0,
        };
        if tail_len == 0 {
            return false;
        }
        let next = self.index + tail_len;
        if next > usize::MAX - U32_LIMIT {
            return false;
        }
        let fresh = match open_unit(&self.id, self.mmav_size, self.mmav_data_start_index, next, open) {
            Ok(u) => u,
            Err(e) => {
                proof {
                    let out = Err::<(Seq<u8>, int, int), Error>(e);
                    assert(from_opener(*open, old(self).id(), next, old(self).seg_size(), old(self).seg_data_start(), out));
                }
                return false;
            },
        };
        proof {
            let out = unit_state(fresh);
            assert(from_opener(*open, old(self).id(), next, old(self).seg_size(), old(self).seg_data_start(), out));
        }
        if fresh.len() != 0 {
            return false;
        }
        let ghost pre = *self;
        self.indices.push(next);
        self.units.push(Some(fresh));
        self.index = next;
        proof {
            assert forall|a: int, b: int| 0 <= a < b < self.starts().len() implies self.starts()[a]
                < self.starts()[b] by {
                if b == self.starts().len() - 1 {
                    assert(self.starts()[a] == pre.starts()[a]);
                    assert(pre.starts()[a] <= pre.starts().last());
                } else {
                    assert(self.starts()[a] == pre.starts()[a]);
                    assert(self.starts()[b] == pre.starts()[b]);
                }
            };
            assert(self.loaded()[self.loaded().len() - 1] is Some);
            assert forall|j: int|
                0 <= j < self.loaded().len() && #[trigger] self.loaded()[j] is Some implies self.unit_ok(
                self.loaded()[j]->Some_0) by {
                if j < pre.loaded().len() {
                    assert(self.loaded()[j] == pre.loaded()[j]);
                }
            };
        }
        true
    }

    /// Loads every segment from the one that holds `lo` to the one that holds
    /// `hi`, except those at positions `skip_a` and `skip_b`, whose loading
    /// was tried already.
    fn load_span<O>(&mut self, lo: usize, hi: usize, skip_a: usize, skip_b: usize, open: &O) where
        O: Fn(String, usize) -> Option<(memmap2::MmapMut, bool)>,

        requires
            old(self).wf(),
            skip_a < old(self).starts().len(),
            skip_b < old(self).starts().len(),
            forall|p: String, s: usize| open.requires((p, s)),
        ensures
            final(self).wf(),
            final(self).loads_from(*old(self)),
            final(self).loaded()[skip_a as int] == old(self).loaded()[skip_a as int],
            final(self).loaded()[skip_b as int] == old(self).loaded()[skip_b as int],
    {
        let first = MMAV::bisect_left(lo, &self.indices);
        let last = MMAV::bisect_left(hi, &self.indices);
        let n = self.indices.len();
        let mut j = first;
        while j <= last
            invariant
                self.wf(),
                self.loads_from(*old(self)),
                n == self.starts().len(),
                last < n,
                skip_a < n,
                skip_b < n,
                self.loaded()[skip_a as int] == old(self).loaded()[skip_a as int],
                self.loaded()[skip_b as int] == old(self).loaded()[skip_b as int],
                forall|p: String, s: usize| open.requires((p, s)),
            decreases last + 1 - j,
        {
            if j != skip_a && j != skip_b && self.units[j].is_none() {
                match open_unit(&self.id, self.mmav_size, self.mmav_data_start_index, self.indices[j], open) {
                    Ok(u) => {
                        self.units.set(j, Some(u));
                    },
                    Err(_) => {},
                }
            }
            j = j + 1;
        }
    }

    /// The non-empty records at `lo..=hi` among the loaded segments.
    fn collect(&self, lo: usize, hi: usize) -> (r: Vec<Vec<u8>>)
        requires
            self.wf(),
            hi <= self.len_spec(),
        ensures
            seqs_of(r@) == self.collected(lo as int, hi as int),
    {
        let mut result: Vec<Vec<u8>> = Vec::new();
        if hi < lo {
            return result;
        }
        let mut i = lo;
        while i <= hi
            invariant
                self.wf(),
                lo <= i <= hi + 1,
                hi <= self.len_spec(),
                seqs_of(result@) == self.collected(lo as int, i - 1),
            decreases hi + 1 - i,
        {
            let item = self.get_loaded(i);
            if item.len() > 0 {
                let ghost before = result@;
                result.push(item);
                proof {
                    assert(seqs_of(result@) =~= seqs_of(before).push(item@));
                }
            }
            i = i + 1;
        }
        result
    }

    /// The records from `start` to `end` inclusive, loading the segments that
    /// hold them; see `range_bounds` for how a long span is cut.
    pub fn range<O>(&mut self, start: usize, end: usize, open: &O) -> (r: Vec<Vec<u8>>) where
        O: Fn(String, usize) -> Option<(memmap2::MmapMut, bool)>,

        requires
            old(self).wf(),
            forall|p: String, s: usize| open.requires((p, s)),
        ensures
            final(self).wf(),
            final(self).loads_from(*old(self)),
            seqs_of(r@) == final(self).range_result(start as int, end as int),
    {
        self.load(start, open);
        self.load(end, open);
        let ghost after_ends = *self;
        let start_size = self.loaded_len_at(start);
        let end_size = self.loaded_len_at(end);
        let pos_start = MMAV::bisect_left(start, &self.indices);
        let pos_end = MMAV::bisect_left(end, &self.indices);
        proof {
            let a = self.seg_len_at(start as int);
            let b = self.seg_len_at(end as int);
            if self.holds(start as int) {
                let u = self.loaded()[self.pos(start as int)]->Some_0;
                lemma_seg_pos(self.starts(), start as int);
                assert(self.unit_ok(u));
                assert(u.count() <= (u.data_start() - 8) / 8);
            }
            if self.holds(end as int) {
                let u = self.loaded()[self.pos(end as int)]->Some_0;
                lemma_seg_pos(self.starts(), end as int);
                assert(self.unit_ok(u));
                assert(u.count() <= (u.data_start() - 8) / 8);
            }
        }
        let size: usize = start_size + end_size;
        let dist = if end >= start {
            end - start
        } else {
            start - end
        };
        let (lo, hi) = if dist > size {
            if start_size == 0 {
                proof {
                    lemma_loads_keep(after_ends, *self, start as int);
                }
                return Vec::new();
            }
            if start > usize::MAX - (start_size - 1) {
                return Vec::new();
            }
            (start, start + (start_size - 1))
        } else {
            (start, end)
        };
        if hi > self.len() {
            return Vec::new();
        }
        self.load_span(lo, hi, pos_start, pos_end, open);
        proof {
            lemma_loads_keep(after_ends, *self, start as int);
            lemma_loads_keep(after_ends, *self, end as int);
            assert(self.seg_len_at(start as int) == after_ends.seg_len_at(start as int));
            assert(self.seg_len_at(end as int) == after_ends.seg_len_at(end as int));
        }
        self.collect(lo, hi)
    }

    /// The last `limit` records, or all of them when there are fewer.
    pub fn last_limit<O>(&mut self, limit: usize, open: &O) -> (r: Vec<Vec<u8>>) where
        O: Fn(String, usize) -> Option<(memmap2::MmapMut, bool)>,

        requires
            old(self).wf(),
            forall|p: String, s: usize| open.requires((p, s)),
        ensures
            final(self).wf(),
            final(self).loads_from(*old(self)),
            seqs_of(r@) == final(self).limit_result(limit as int),
    {
        let n = self.len();
        if n == 0 {
            proof {
                assert(seqs_of(Seq::<Vec<u8>>::empty()) =~= Seq::<Seq<u8>>::empty());
            }
            return Vec::new();
        }
        if limit > n {
            return self.range(0, n - 1, open);
        }
        self.range(n - limit, n - 1, open)
    }

    /// Closes the vector, handing the map of every loaded segment to `close`.
    pub fn close<C>(self, close: &C) where C: Fn(String, usize, memmap2::MmapMut)
        requires
            self.wf(),
            forall|p: String, s: usize, m: memmap2::MmapMut| close.requires((p, s, m)),
    {
        let mut units = self.units;
        let mut starts = self.indices;
        while units.len() > 0
            invariant
                units@.len() == starts@.len(),
                forall|p: String, s: usize, m: memmap2::MmapMut| close.requires((p, s, m)),
            decreases units@.len(),
        {
            let slot = units.pop();
            let start = starts.pop();
            match (slot, start) {
                (Some(Some(u)), Some(s)) => {
                    close(self.id.clone(), s, u.into_map());
                },
                _ => {},
            }
        }
    }

    /// Appends `value` to the tail segment.
    fn push_tail(&mut self, value: &[u8]) -> (r: Result<(), MMAVError>)
        requires
            old(self).wf(),
        ensures
            final(self).wf(),
            final(self).id() == old(self).id(),
            final(self).starts() == old(self).starts(),
            final(self).tail_start() == old(self).tail_start(),
            final(self).seg_size() == old(self).seg_size(),
            final(self).seg_data_start() == old(self).seg_data_start(),
            final(self).loaded().len() == old(self).loaded().len(),
            final(self).loaded().drop_last() == old(self).loaded().drop_last(),
            r is Err ==> final(self).loaded() == old(self).loaded(),
            r is Ok <==> old(self).tail().count() < MAX_RECORDS_PER_SEGMENT && old(self).tail().data_seek()
                + value@.len() <= old(self).seg_size(),
            r is Ok ==> {
                &&& final(self).tail().count() == old(self).tail().count() + 1
                &&& final(self).tail().pair_valid(old(self).tail().count())
                &&& final(self).tail().entry(old(self).tail().count()) == value@
                &&& old(self).tail().intact() ==> final(self).tail().intact() && final(self).tail().records()
                    == old(self).tail().records().push(value@)
            },
    {
        let t = self.units.len() - 1;
        let slot = self.units.remove(t);
        match slot {
            Some(mut u) => {
                let r = u.push(value);
                self.units.push(Some(u));
                proof {
                    assert(self.loaded().drop_last() =~= old(self).loaded().drop_last());
                    if r is Err {
                        assert(self.loaded() =~= old(self).loaded());
                    }
                    assert forall|j: int|
                        0 <= j < self.loaded().len() && #[trigger] self.loaded()[j] is Some implies self.unit_ok(
                        self.loaded()[j]->Some_0) by {
                        if j < t {
                            assert(self.loaded()[j] == old(self).loaded()[j]);
                        }
                    };
                }
                r
            },
            None => {
                self.units.push(None);
                Err(MMAVError::ArrayEmpty)
            },
        }
    }

    /// Appends `value`. When the tail segment is full, the vector rolls over
    /// to a new segment that starts at the current length, and tries once
    /// more. Returns whether the record was appended.
    pub fn push<O, C>(&mut self, value: &[u8], open: &O, close: &C) -> (r: bool) where
        O: Fn(String, usize) -> Option<(memmap2::MmapMut, bool)>,
        C: Fn(String, usize, memmap2::MmapMut),

        requires
            old(self).wf(),
            forall|p: String, s: usize| open.requires((p, s)),
            forall|p: String, s: usize, m: memmap2::MmapMut| close.requires((p, s, m)),
        ensures
            final(self).wf(),
            final(self).id() == old(self).id(),
            final(self).seg_size() == old(self).seg_size(),
            final(self).seg_data_start() == old(self).seg_data_start(),
            old(self).sound() ==> final(self).sound(),
            r ==> final(self).len_spec() == old(self).len_spec() + 1 && final(self).record_at(
                old(self).len_spec(),
            ) == value@,
            !r ==> final(self).len_spec() == old(self).len_spec(),
            old(self).tail().count() < MAX_RECORDS_PER_SEGMENT && old(self).tail().data_seek()
                + value@.len() <= old(self).seg_size() ==> r && final(self).starts() == old(self).starts(),
            final(self).starts() == old(self).starts() || final(self).starts() == old(self).starts().push(
                old(self).len_spec() as usize,
            ),
            final(self).starts() != old(self).starts() ==> forall|j: int|
                0 <= j < final(self).loaded().len() - 2 ==> #[trigger] final(self).loaded()[j] is None,
            old(self).tail().count() > 0 && !(old(self).tail().count() < MAX_RECORDS_PER_SEGMENT && old(self).tail().data_seek() + value@.len() <= old(self).seg_size()) && value@.len() <= old(self).seg_size()
                - old(self).seg_data_start() && old(self).len_spec() + U32_LIMIT <= usize::MAX ==> exists|
                out: Result<(Seq<u8>, int, int), Error>,
            |
                #[trigger] from_opener(
                    *open,
                    old(self).id(),
                    old(self).len_spec() as usize,
                    old(self).seg_size(),
                    old(self).seg_data_start(),
                    out,
                ) && (fresh_empty(out) && out->Ok_0.1 + value@.len() <= old(self).seg_size() ==> r),
            value@.len() > old(self).seg_size() - old(self).seg_data_start() ==> !r && final(self).starts()
                == old(self).starts() && final(self).loaded() == old(self).loaded(),
            old(self).tail().count() >= MAX_RECORDS_PER_SEGMENT && r ==> final(self).starts() == old(self).starts().push(old(self).len_spec() as usize),
            old(self).sound() ==> forall|i: int|
                0 <= i < old(self).len_spec() && #[trigger] final(self).holds(i) ==> final(self).record_at(i)
                    == old(self).record_at(i),
    {
        let ghost pre = *self;
        match self.push_tail(value) {
            Ok(()) => {
                proof {
                    lemma_push_tail_effect(pre, *self, value@);
                }
                return true;
            },
            Err(_) => {},
        }
        if value.len() > self.mmav_size - self.mmav_data_start_index {
            return false;
        }
        if !self.expand(open, close) {
            proof {
                lemma_unloads_keep(pre, *self);
            }
            return false;
        }
        let ghost mid = *self;
        proof {
            lemma_expand_keeps(pre, mid);
        }
        let pushed = self.push_tail(value);
        proof {
            if pushed is Ok {
                lemma_push_tail_effect(mid, *self, value@);
                assert(mid.tail().intact());
            } else {
                assert(self.loaded() == mid.loaded());
            }
            assert forall|j: int| 0 <= j < self.loaded().len() - 2 implies #[trigger] self.loaded()[j]
                is None by {
                assert(self.loaded()[j] == self.loaded().drop_last()[j]);
                assert(mid.loaded()[j] == mid.loaded().drop_last()[j]);
            };
            if pre.sound() {
                assert forall|i: int|
                    0 <= i < pre.len_spec() && #[trigger] self.holds(i) implies self.record_at(i)
                        == pre.record_at(i) by {
                    lemma_seg_pos_push(pre.starts(), pre.len_spec() as usize, i);
                    lemma_seg_pos(pre.starts(), i);
                    assert(self.pos(i) < self.loaded().len() - 1);
                    assert(self.loaded()[self.pos(i)] == self.loaded().drop_last()[self.pos(i)]);
                    assert(mid.loaded()[self.pos(i)] == mid.loaded().drop_last()[self.pos(i)]);
                    assert(self.loaded()[self.pos(i)] == mid.loaded()[self.pos(i)]);
                };
            }
        }
        pushed.is_ok()
    }

    /// The position of the segment that holds `index`.
    fn bisect_left(index: usize, arr: &Vec<usize>) -> (r: usize)
        requires
            arr@.len() >= 1,
            ascending(arr@),
        ensures
            r == seg_pos(arr@, index as int),
            r < arr@.len(),
    {
        proof {
            lemma_seg_pos(arr@, index as int);
        }
        if index < arr[0] {
            if arr.len() > 1 {
                proof {
                    assert(seg_pos(arr@, index as int) == 0) by {
                        let p = seg_pos(arr@, index as int);
                        if p > 0 {
                            assert(arr@[0] < arr@[p]);
                            assert(p + 1 < arr@.len() ==> index < arr@[p + 1]);
                        }
                        lemma_seg_pos_first(arr@, index as int);
                    };
                }
            }
            return 0;
        }
        let mut lo: usize = 0;
        let mut hi: usize = arr.len();
        while hi - lo > 1
            invariant
                lo < hi <= arr@.len(),
                arr@[lo as int] <= index,
                hi == arr@.len() || index < arr@[hi as int],
                ascending(arr@),
            decreases hi - lo,
        {
            let mid = lo + (hi - lo) / 2;
            if arr[mid] <= index {
                lo = mid;
            } else {
                hi = mid;
            }
        }
        proof {
            lemma_seg_pos_unique(arr@, index as int, lo as int);
        }
        lo
    }
}

/// Loading more segments changes no record that was readable before.
pub proof fn lemma_loads_keep(old: MMAV, new: MMAV, i: int)
    requires
        old.wf(),
        new.wf(),
        new.loads_from(old),
    ensures
        new.len_spec() == old.len_spec(),
        new.pos(i) == old.pos(i),
        old.holds(i) ==> new.holds(i) && new.record_at(i) == old.record_at(i) && new.seg_len_at(i)
            == old.seg_len_at(i),
{
    let t = old.loaded().len() - 1;
    assert(old.loaded()[t] is Some);
    assert(new.loaded()[t] == old.loaded()[t]);
    if old.holds(i) {
        let j = old.pos(i);
        lemma_seg_pos(old.starts(), i);
        assert(old.loaded()[j] is Some);
        assert(new.loaded()[j] == old.loaded()[j]);
    }
}

/// Asks the opener for the segment of vector `id` that starts at `start`, and
/// opens it with the given size and layout.
fn open_unit<O>(id: &String, size: usize, data_start: usize, start: usize, open: &O) -> (r: Result<
    MMAVUnit,
    Error,
>) where O: Fn(String, usize) -> Option<(memmap2::MmapMut, bool)>
    requires
        layout_ok(data_start as int),
        forall|p: String, s: usize| open.requires((p, s)),
    ensures
        match r {
            Ok(u) => u.wf() && u.size() == size && u.data_start() == data_start && from_opener(
                *open,
                id@,
                start,
                size as int,
                data_start as int,
                unit_state(u),
            ),
            Err(e) => from_opener(*open, id@, start, size as int, data_start as int, Err(e)),
        },
        r matches Err(e) ==> e == Error::SizeCorrupted || e == Error::SeekCorrupted || e
            == Error::Unavailable,
{
    let p = id.clone();
    let res = open(p, start);
    let ghost g = res;
    proof {
        assert(open.ensures((p, start), g));
    }
    match res {
        Some((m, existing)) => {
            if map_len(&m) != size {
                return Err(Error::SizeCorrupted);
            }
            MMAVUnit::new(m, existing, data_start)
        },
        None => Err(Error::Unavailable),
    }
}

/// Appending to a start sequence leaves the segment of every smaller index.
proof fn lemma_seg_pos_push(s: Seq<usize>, x: usize, i: int)
    requires
        s.len() >= 1,
        i < x,
    ensures
        seg_pos(s.push(x), i) == seg_pos(s, i),
{
    assert(s.push(x).drop_last() =~= s);
}

/// What one append to the tail does to the vector's records.
proof fn lemma_push_tail_effect(old: MMAV, new: MMAV, value: Seq<u8>)
    requires
        old.wf(),
        new.wf(),
        new.id() == old.id(),
        new.starts() == old.starts(),
        new.tail_start() == old.tail_start(),
        new.loaded().len() == old.loaded().len(),
        new.loaded().drop_last() == old.loaded().drop_last(),
        old.tail().count() < MAX_RECORDS_PER_SEGMENT,
        new.tail().count() == old.tail().count() + 1,
        new.tail().pair_valid(old.tail().count()),
        new.tail().entry(old.tail().count()) == value,
        old.tail().intact() ==> new.tail().intact() && new.tail().records() == old.tail().records().push(
            value,
        ),
    ensures
        new.len_spec() == old.len_spec() + 1,
        new.record_at(old.len_spec()) == value,
        old.sound() ==> new.sound(),
        old.sound() ==> forall|i: int|
            #![trigger new.record_at(i)]
            #![trigger new.holds(i)]
            0 <= i < old.len_spec() ==> new.record_at(i) == old.record_at(i) && (new.holds(i)
                <==> old.holds(i)),
{
    let t = old.loaded().len() - 1;
    let c = old.tail().count();
    assert forall|j: int| 0 <= j < t implies new.loaded()[j] == old.loaded()[j] by {
        assert(new.loaded()[j] == new.loaded().drop_last()[j]);
    };
    lemma_seg_pos(old.starts(), old.len_spec());
    assert(old.pos(old.len_spec()) == t) by {
        lemma_seg_pos_unique(old.starts(), old.len_spec(), t);
    };
    if old.sound() {
        assert(old.tail().intact());
        assert forall|j: int|
            0 <= j < new.loaded().len() && #[trigger] new.loaded()[j] is Some implies new.loaded()[j]->Some_0.intact() by {
            if j < t {
                assert(old.loaded()[j] is Some);
            }
        };
        assert forall|i: int|
            #![trigger new.record_at(i)]
            #![trigger new.holds(i)]
            0 <= i < old.len_spec() implies new.record_at(i) == old.record_at(i) && (new.holds(i)
                <==> old.holds(i)) by {
            lemma_seg_pos(old.starts(), i);
            let j = old.pos(i);
            assert(new.pos(i) == j);
            if j == t {
                assert(new.loaded()[j] is Some && old.loaded()[j] is Some);
                if old.starts()[j] <= i {
                    let k = i - old.starts()[j];
                    assert(0 <= k < c);
                    lemma_intact_at(old.tail(), k);
                    assert(new.tail().records()[k] == old.tail().records()[k]);
                    assert(new.tail().entry(k) == old.tail().entry(k));
                    lemma_intact_at(new.tail(), k);
                    assert(new.loaded()[j]->Some_0 == new.tail());
                    assert(old.loaded()[j]->Some_0 == old.tail());
                }
            } else {
                assert(new.loaded()[j] == old.loaded()[j]);
            }
            assert(new.holds(i) <==> old.holds(i));
            assert(new.record_at(i) == old.record_at(i));
        };
    }
}

/// Unloading segments changes no record that stays readable.
proof fn lemma_unloads_keep(old: MMAV, new: MMAV)
    requires
        old.wf(),
        new.wf(),
        new.starts() == old.starts(),
        new.tail_start() == old.tail_start(),
        new.tail() == old.tail(),
        forall|j: int|
            0 <= j < new.loaded().len() && #[trigger] new.loaded()[j] is Some && j < old.loaded().len()
                ==> new.loaded()[j] == old.loaded()[j],
    ensures
        new.len_spec() == old.len_spec(),
        forall|i: int| #[trigger] new.holds(i) ==> new.record_at(i) == old.record_at(i),
{
    assert forall|i: int| #[trigger] new.holds(i) implies new.record_at(i) == old.record_at(i) by {
        lemma_seg_pos(old.starts(), i);
        let j = old.pos(i);
        assert(new.loaded()[j] == old.loaded()[j]);
    };
}

/// A rollover changes no record that stays readable.
proof fn lemma_expand_keeps(old: MMAV, new: MMAV)
    requires
        old.wf(),
        new.wf(),
        new.starts() == old.starts().push(old.len_spec() as usize),
        new.tail().count() == 0,
        new.len_spec() == old.len_spec(),
        forall|j: int|
            0 <= j < new.loaded().len() && #[trigger] new.loaded()[j] is Some && j < old.loaded().len()
                ==> new.loaded()[j] == old.loaded()[j],
    ensures
        forall|i: int|
            0 <= i < old.len_spec() && #[trigger] new.holds(i) ==> new.pos(i) < new.loaded().len() - 1
                && new.record_at(i) == old.record_at(i),
{
    assert forall|i: int|
        0 <= i < old.len_spec() && #[trigger] new.holds(i) implies new.pos(i) < new.loaded().len() - 1
            && new.record_at(i) == old.record_at(i) by {
        lemma_seg_pos_push(old.starts(), old.len_spec() as usize, i);
        lemma_seg_pos(old.starts(), i);
        let j = old.pos(i);
        assert(new.loaded()[j] == old.loaded()[j]);
    };
}

/// Below the first start, `seg_pos` gives the first segment.
proof fn lemma_seg_pos_first(s: Seq<usize>, i: int)
    requires
        s.len() >= 1,
        ascending(s),
        i < s[0],
    ensures
        seg_pos(s, i) == 0,
    decreases s.len(),
{
    if s.len() > 1 {
        assert(s[0] < s.last() || s.len() == 1);
        lemma_seg_pos_first(s.drop_last(), i);
    }
}

} // verus!
