//! Properties that relate the operations of segments, vectors and the
//! database to one another.

use crate::mmav::{lemma_seg_pos, lemma_seg_pos_unique, MMAV};
use crate::mmav_unit::{open_result, MMAVUnit};
use vstd::prelude::*;

verus! {

/// Reopening the bytes of a segment whose header is written restores the
/// segment: the same seeks, hence the same count and the same answer to every
/// `get`.
pub proof fn law_reopen_restores(u: MMAVUnit, reopened: MMAVUnit)
    requires
        u.wf(),
        u.persisted(),
        reopened.bytes() == u.bytes(),
        reopened.data_start() == u.data_start(),
        open_result(u.bytes(), true, u.data_start()) == Ok::<(int, int), crate::errors::Error>(
            (reopened.data_seek(), reopened.index_seek()),
        ),
    ensures
        open_result(u.bytes(), true, u.data_start()) is Ok,
        reopened.count() == u.count(),
        forall|i: int| #[trigger] reopened.get_result(i) == u.get_result(i),
        reopened.last_spec() == u.last_spec(),
{
    assert(reopened.data_seek() == u.data_seek());
    assert(reopened.index_seek() == u.index_seek());
}

/// A vector whose tail segment is reopened, as an existing file, over the
/// bytes that its written tail left keeps its length and its latest record.
pub proof fn law_restart_keeps_length(before: MMAV, after: MMAV)
    requires
        before.wf(),
        after.wf(),
        before.tail().persisted(),
        after.tail_start() == before.tail_start(),
        after.tail().bytes() == before.tail().bytes(),
        after.tail().data_start() == before.tail().data_start(),
        open_result(after.tail().bytes(), true, after.tail().data_start()) == Ok::<
            (int, int),
            crate::errors::Error,
        >((after.tail().data_seek(), after.tail().index_seek())),
    ensures
        after.len_spec() == before.len_spec(),
        after.tail().last_spec() == before.tail().last_spec(),
{
    assert(before.unit_ok(before.tail()));
    assert(after.unit_ok(after.tail()));
    law_reopen_restores(before.tail(), after.tail());
}

/// A fresh segment accepts, in `push`, a record that fills its whole data
/// region.
pub proof fn law_fresh_segment_takes_full_record(u: MMAVUnit)
    requires
        u.wf(),
        u.count() == 0,
        u.data_seek() == u.data_start(),
    ensures
        u.accepts(u.size() - u.data_start()),
{
}

/// The latest record is the record at the last index, whenever the tail
/// segment holds a record.
pub proof fn law_latest_is_last(v: MMAV)
    requires
        v.wf(),
        v.tail().count() > 0,
    ensures
        v.len_spec() > 0,
        v.tail().last_spec() == v.record_at(v.len_spec() - 1),
{
    let t = v.starts().len() - 1;
    assert(v.unit_ok(v.tail()));
    lemma_seg_pos_unique(v.starts(), v.len_spec() - 1, t);
}

/// After an append, the new record sits at the old length, and every record
/// that was readable before and still is reads the same.
pub proof fn law_append_then_read(before: MMAV, after: MMAV, value: Seq<u8>)
    requires
        before.wf(),
        before.sound(),
        after.len_spec() == before.len_spec() + 1,
        after.record_at(before.len_spec()) == value,
        forall|i: int|
            0 <= i < before.len_spec() && #[trigger] after.holds(i) ==> after.record_at(i)
                == before.record_at(i),
    ensures
        after.record_at(after.len_spec() - 1) == value,
        forall|i: int|
            0 <= i < after.len_spec() - 1 && #[trigger] after.holds(i) ==> after.record_at(i)
                == before.record_at(i),
{
}

/// When every record from `lo` to `hi` is non-empty, collecting them gives
/// them all, in order.
pub proof fn law_collect_all(v: MMAV, lo: int, hi: int)
    requires
        lo <= hi + 1,
        forall|i: int| lo <= i <= hi ==> (#[trigger] v.record_at(i)).len() > 0,
    ensures
        v.collected(lo, hi) == Seq::new((hi - lo + 1) as nat, |m: int| v.record_at(lo + m)),
    decreases hi - lo + 1,
{
    if hi >= lo {
        law_collect_all(v, lo, hi - 1);
        assert(v.collected(lo, hi) =~= Seq::new((hi - lo + 1) as nat, |m: int| v.record_at(lo + m)));
    } else {
        assert(v.collected(lo, hi) =~= Seq::new((hi - lo + 1) as nat, |m: int| v.record_at(lo + m)));
    }
}

/// The indices `s` and `e` lie in one loaded segment, or in two adjacent
/// loaded segments of which the first holds every record up to the start of
/// the second.
pub open spec fn near(v: MMAV, s: int, e: int) -> bool {
    let j = v.pos(s);
    &&& v.holds(s)
    &&& v.holds(e)
    &&& (v.pos(e) == j || (v.pos(e) == j + 1 && v.loaded()[j]->Some_0.count() >= v.starts()[j + 1]
        - v.starts()[j]))
}

/// A span of non-empty records whose ends are near each other is not cut.
proof fn lemma_not_cut(v: MMAV, s: int, e: int)
    requires
        v.wf(),
        0 <= s <= e,
        near(v, s, e),
        v.record_at(s).len() > 0,
        v.record_at(e).len() > 0,
    ensures
        v.range_bounds(s, e) == (s, e),
{
    lemma_seg_pos(v.starts(), s);
    lemma_seg_pos(v.starts(), e);
    let j = v.pos(s);
    let k = v.pos(e);
    assert(v.starts()[j] <= s);
    assert(v.starts()[k] <= e);
    assert(s - v.starts()[j] < v.loaded()[j]->Some_0.count());
    assert(e - v.starts()[k] < v.loaded()[k]->Some_0.count());
}

/// A range over non-empty records whose ends lie near each other returns the
/// records at `s..=e`, in order.
pub proof fn law_range_in_order(v: MMAV, s: int, e: int)
    requires
        v.wf(),
        0 <= s <= e < v.len_spec(),
        near(v, s, e),
        forall|i: int| s <= i <= e ==> (#[trigger] v.record_at(i)).len() > 0,
    ensures
        v.range_result(s, e) == Seq::new((e - s + 1) as nat, |m: int| v.record_at(s + m)),
{
    assert(v.record_at(s).len() > 0);
    assert(v.record_at(e).len() > 0);
    lemma_not_cut(v, s, e);
    law_collect_all(v, s, e);
}

/// A range from an index to itself returns exactly the record there, when it
/// is not empty.
pub proof fn law_range_single(v: MMAV, s: int)
    requires
        v.wf(),
        0 <= s < v.len_spec(),
        v.record_at(s).len() > 0,
    ensures
        v.range_result(s, s) == seq![v.record_at(s)],
{
    assert(v.range_bounds(s, s) == (s, s));
    law_collect_all(v, s, s);
    assert(Seq::new(1, |m: int| v.record_at(s + m)) =~= seq![v.record_at(s)]);
}

/// The last `n` records come back in order, or all records when `n` exceeds
/// the length, when none of them is empty and the first and last of them lie
/// near each other.
pub proof fn law_last_limit_is_suffix(v: MMAV, n: int)
    requires
        v.wf(),
        0 < n,
        v.len_spec() > 0,
        near(v, v.limit_bounds(n).0, v.len_spec() - 1),
        forall|i: int| v.limit_bounds(n).0 <= i < v.len_spec() ==> (#[trigger] v.record_at(i)).len() > 0,
    ensures
        n <= v.len_spec() ==> v.limit_result(n) == Seq::new(
            n as nat,
            |m: int| v.record_at(v.len_spec() - n + m),
        ),
        n > v.len_spec() ==> v.limit_result(n) == Seq::new(
            v.len_spec() as nat,
            |m: int| v.record_at(m),
        ),
{
    let (lo, hi) = v.limit_bounds(n);
    assert(v.record_at(lo).len() > 0);
    assert(v.record_at(hi).len() > 0);
    lemma_not_cut(v, lo, hi);
    law_collect_all(v, lo, hi);
}

/// A range that starts at the length is empty, and so are the last zero
/// records.
pub proof fn law_empty_at_end(v: MMAV)
    requires
        v.wf(),
    ensures
        v.range_result(v.len_spec(), v.len_spec()).len() == 0,
        v.limit_result(0).len() == 0,
{
    let n = v.len_spec();
    assert(v.record_at(n).len() == 0);
    assert(v.collected(n, n - 1).len() == 0);
    assert(v.collected(n, n).len() == 0);
    let (lo, hi) = v.range_bounds(n, n - 1);
    if hi >= lo {
        assert(hi == n - 1 || hi < lo);
    }
}

} // verus!
