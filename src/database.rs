//! The database: one vector per sensor key, with a metadata blob and an
//! aggregate blob beside each, and a hook per key that maintains the
//! aggregate on every write.

use crate::codec::copy_bytes;
use crate::errors::Error;
use crate::keys::{
    find_key,
    key_pos,
    lemma_key_pos_bounds,
    lemma_key_pos_push,
    lemma_unique_pos,
    lemma_unique_push,
    unique,
};
use crate::mmav::{fresh_empty, from_opener, listed, seqs_of, start_of, takes, unit_state, MMAV};
use crate::mmav_unit::{DATA_START, MAX_RECORDS_PER_SEGMENT, SEGMENT_SIZE, U32_LIMIT};
use vstd::prelude::*;

verus! {

/// A value together with the key it belongs to.
pub struct Record {
    pub id: String,
    pub value: Vec<u8>,
}

/// The key and records of each entry of a result of `get_all_latest_with_limit`.
pub open spec fn lists_view(r: Seq<(String, Vec<Vec<u8>>)>) -> Seq<(Seq<char>, Seq<Seq<u8>>)> {
    Seq::new(r.len(), |i: int| (r[i].0@, seqs_of(r[i].1@)))
}

/// The aggregate that a key starts with: the empty JSON object `{}`.
pub open spec fn empty_aggregate() -> Seq<u8> {
    seq![123u8, 125u8]
}

/// Memory Mapped Append-only Vector Database.
///
/// `H` is the type of the aggregate hooks: a hook takes the key, the record
/// being written and the current aggregate, and returns the new aggregate.
pub struct MMAVDatabase<H> {
    sensor_keys: Vec<String>,
    sensors: Vec<MMAV>,
    meta_keys: Vec<String>,
    meta: Vec<Vec<u8>>,
    aggregate_keys: Vec<String>,
    aggregates: Vec<Vec<u8>>,
    hook_keys: Vec<String>,
    hooks: Vec<H>,
}

impl<H> MMAVDatabase<H> where H: Fn(&str, &[u8], &[u8]) -> Vec<u8> {
    pub closed spec fn sensor_keys(&self) -> Seq<String> {
        self.sensor_keys@
    }

    pub closed spec fn sensors(&self) -> Seq<MMAV> {
        self.sensors@
    }

    pub closed spec fn meta_keys(&self) -> Seq<String> {
        self.meta_keys@
    }

    pub closed spec fn metas(&self) -> Seq<Vec<u8>> {
        self.meta@
    }

    pub closed spec fn aggregate_keys(&self) -> Seq<String> {
        self.aggregate_keys@
    }

    pub closed spec fn aggregate_values(&self) -> Seq<Vec<u8>> {
        self.aggregates@
    }

    pub closed spec fn hook_keys(&self) -> Seq<String> {
        self.hook_keys@
    }

    pub closed spec fn hooks(&self) -> Seq<H> {
        self.hooks@
    }

    pub open spec fn wf(&self) -> bool {
        &&& self.sensors().len() == self.sensor_keys().len()
        &&& self.metas().len() == self.meta_keys().len()
        &&& self.aggregate_values().len() == self.aggregate_keys().len()
        &&& self.hooks().len() == self.hook_keys().len()
        &&& unique(self.sensor_keys())
        &&& unique(self.meta_keys())
        &&& unique(self.aggregate_keys())
        &&& forall|j: int|
            0 <= j < self.sensors().len() ==> #[trigger] self.sensors()[j].wf() && self.sensors()[j].id()
                == self.sensor_keys()[j]@
        &&& forall|p: &str, r: &[u8], a: &[u8]| #[trigger]
            self.hooks_callable(p, r, a)
    }

    /// Every hook may be called on any arguments.
    pub open spec fn hooks_callable(&self, p: &str, r: &[u8], a: &[u8]) -> bool {
        forall|j: int| 0 <= j < self.hooks().len() ==> (#[trigger] self.hooks()[j]).requires((p, r, a))
    }

    pub open spec fn pos(&self, k: Seq<char>) -> int {
        key_pos(self.sensor_keys(), k)
    }

    /// The key has a vector.
    pub open spec fn has(&self, k: Seq<char>) -> bool {
        self.pos(k) >= 0
    }

    /// The vector of the key.
    pub open spec fn vector(&self, k: Seq<char>) -> MMAV {
        self.sensors()[self.pos(k)]
    }

    /// The metadata of the key, if any was stored.
    pub open spec fn meta_of(&self, k: Seq<char>) -> Option<Seq<u8>> {
        let j = key_pos(self.meta_keys(), k);
        if j >= 0 {
            Some(self.metas()[j]@)
        } else {
            None
        }
    }

    /// The aggregate of the key, if the key was ever written to.
    pub open spec fn aggregate_of(&self, k: Seq<char>) -> Option<Seq<u8>> {
        let j = key_pos(self.aggregate_keys(), k);
        if j >= 0 {
            Some(self.aggregate_values()[j]@)
        } else {
            None
        }
    }

    /// The hook registered for the key, if any.
    pub open spec fn hook_of(&self, k: Seq<char>) -> Option<H> {
        let j = key_pos(self.hook_keys(), k);
        if j >= 0 {
            Some(self.hooks()[j])
        } else {
            None
        }
    }

    /// Everything but the vector at position `j` is as in `old`.
    pub open spec fn same_but_vector(&self, old: Self, j: int) -> bool {
        &&& self.sensor_keys() == old.sensor_keys()
        &&& self.sensors().len() == old.sensors().len()
        &&& forall|i: int| 0 <= i < self.sensors().len() && i != j ==> #[trigger] self.sensors()[i] == old.sensors()[i]
        &&& self.meta_keys() == old.meta_keys()
        &&& self.metas() == old.metas()
        &&& self.aggregate_keys() == old.aggregate_keys()
        &&& self.aggregate_values() == old.aggregate_values()
        &&& self.hook_keys() == old.hook_keys()
        &&& self.hooks() == old.hooks()
    }

    /// A read of key `k`: at most its vector loads segments.
    pub open spec fn read_of(&self, old: Self, k: Seq<char>) -> bool {
        &&& self.wf()
        &&& self.same_but_vector(old, old.pos(k))
        &&& old.has(k) ==> self.vector(k).loads_from(old.vector(k))
    }

    /// The key has a vector.
    pub fn contains(&self, id: &str) -> (r: bool)
        ensures
            r == self.has(id@),
    {
        find_key(&self.sensor_keys, id).is_some()
    }

    /// The record at `rec_id` of the key; empty when the key has no vector.
    pub fn get<O>(&mut self, id: &str, rec_id: usize, open: &O) -> (r: Vec<u8>) where
        O: Fn(String, usize) -> Option<(memmap2::MmapMut, bool)>,

        requires
            old(self).wf(),
            forall|p: String, s: usize| open.requires((p, s)),
        ensures
            final(self).read_of(*old(self), id@),
            r@ == if old(self).has(id@) {
                final(self).vector(id@).record_at(rec_id as int)
            } else {
                Seq::empty()
            },
            old(self).has(id@) && old(self).vector(id@).holds(rec_id as int) ==> r@ == old(
                self,
            ).vector(id@).record_at(rec_id as int),
    {
        match find_key(&self.sensor_keys, id) {
            Some(j) => {
                proof {
                    lemma_key_pos_bounds(self.sensor_keys@, id@);
                }
                let mut v = self.sensors.remove(j);
                let r = v.get(rec_id, open);
                self.sensors.insert(j, v);
                proof {
                    assert(self.sensors@ =~= old(self).sensors@.update(j as int, v));
                    self.lemma_replaced(*old(self), j as int);
                }
                r
            },
            None => Vec::new(),
        }
    }

    /// Opens a database from a listing of its root: each entry names a key,
    /// the entries of the key's directory, and the contents of its metadata
    /// file. `aggregates_fn` maps keys to their aggregate hooks.
    #[verifier::spinoff_prover]
    pub fn new_with_all<O>(
        entries: Vec<(String, Vec<Vec<u8>>, Vec<u8>)>,
        aggregates_fn: Vec<(String, H)>,
        open: &O,
    ) -> (r: Result<Self, Error>) where O: Fn(String, usize) -> Option<(memmap2::MmapMut, bool)>
        requires
            forall|p: String, s: usize| open.requires((p, s)),
            forall|j: int, p: &str, v: &[u8], a: &[u8]|
                0 <= j < aggregates_fn@.len() ==> #[trigger] aggregates_fn@[j].1.requires((p, v, a)),
        ensures
            entries@.len() == 0 ==> r is Ok,
            r is Err && r->Err_0 != Error::IndexOutOfRange ==> exists|m: int, st: usize|
                0 <= m < entries@.len() && start_of(entries@[m].1@, st as int) && #[trigger] from_opener(
                    *open,
                    entries@[m].0@,
                    st,
                    SEGMENT_SIZE as int,
                    DATA_START as int,
                    Err(r->Err_0),
                ),
            r matches Err(e) ==> e == Error::SizeCorrupted || e == Error::SeekCorrupted || e
                == Error::Unavailable || (e == Error::IndexOutOfRange && exists|m: int, x: usize|
                0 <= m < entries@.len() && listed(entries@[m].1@, x as int) && x + U32_LIMIT
                > usize::MAX),
            r matches Ok(db) ==> {
                &&& db.wf()
                &&& forall|k: Seq<char>| #[trigger]
                    db.has(k) <==> exists|m: int| 0 <= m < entries@.len() && entries@[m].0@ == k
                &&& forall|k: Seq<char>|
                    #[trigger] db.has(k) ==> exists|m: int|
                        0 <= m < entries@.len() && entries@[m].0@ == k && db.meta_of(k) == Some(
                            entries@[m].2@,
                        )
                &&& forall|k: Seq<char>| #[trigger] db.has(k) ==> db.vector(k).tail_opened(*open)
                &&& forall|k: Seq<char>| #[trigger] db.aggregate_of(k) is None
                &&& forall|k: Seq<char>| #[trigger]
                    db.hook_of(k) is Some <==> exists|m: int|
                        0 <= m < aggregates_fn@.len() && aggregates_fn@[m].0@ == k
            },
    {
        let mut db: MMAVDatabase<H> = MMAVDatabase {
            sensor_keys: Vec::new(),
            sensors: Vec::new(),
            meta_keys: Vec::new(),
            meta: Vec::new(),
            aggregate_keys: Vec::new(),
            aggregates: Vec::new(),
            hook_keys: Vec::new(),
            hooks: Vec::new(),
        };
        let mut fns: Vec<(String, H)> = aggregates_fn;
        while fns.len() > 0
            invariant
                db.hooks@.len() == db.hook_keys@.len(),
                db.sensors@.len() == 0,
                db.sensor_keys@.len() == 0,
                db.meta@.len() == 0,
                db.meta_keys@.len() == 0,
                db.aggregate_keys@.len() == 0,
                db.aggregates@.len() == 0,
                forall|j: int, p: &str, v: &[u8], a: &[u8]|
                    0 <= j < fns@.len() ==> #[trigger] fns@[j].1.requires((p, v, a)),
                forall|j: int, p: &str, v: &[u8], a: &[u8]|
                    0 <= j < db.hooks@.len() ==> #[trigger] db.hooks@[j].requires((p, v, a)),
                forall|k: Seq<char>|
                    #![trigger key_pos(db.hook_keys@, k)]
                    key_pos(db.hook_keys@, k) >= 0 || (exists|m: int| 0 <= m < fns@.len() && fns@[m].0@ == k)
                        <==> exists|m: int| 0 <= m < aggregates_fn@.len() && aggregates_fn@[m].0@ == k,
            decreases fns@.len(),
        {
            let ghost before_fns = fns@;
            let ghost before_keys = db.hook_keys@;
            match fns.pop() {
                Some((k, h)) => {
                    let ghost kk = k;
                    db.hook_keys.push(k);
                    db.hooks.push(h);
                    proof {
                        assert forall|k2: Seq<char>| #![trigger key_pos(db.hook_keys@, k2)]
                            key_pos(db.hook_keys@, k2) >= 0 || (exists|m: int| 0 <= m < fns@.len() && fns@[m].0@ == k2)
                                <==> exists|m: int| 0 <= m < aggregates_fn@.len() && aggregates_fn@[m].0@ == k2 by {
                            lemma_key_pos_push(before_keys, kk, k2);
                            lemma_key_pos_bounds(before_keys, k2);
                            assert(before_fns.last().0@ == kk@);
                            if exists|m: int| 0 <= m < before_fns.len() && before_fns[m].0@ == k2 {
                                let m = choose|m: int| 0 <= m < before_fns.len() && before_fns[m].0@ == k2;
                                if m < fns@.len() {
                                    assert(fns@[m] == before_fns[m]);
                                }
                            }
                            if exists|m: int| 0 <= m < fns@.len() && fns@[m].0@ == k2 {
                                let m = choose|m: int| 0 <= m < fns@.len() && fns@[m].0@ == k2;
                                assert(before_fns[m] == fns@[m]);
                            }
                        };
                        assert forall|j: int, p: &str, v: &[u8], a: &[u8]|
                            0 <= j < fns@.len() implies #[trigger] fns@[j].1.requires((p, v, a)) by {
                            assert(fns@[j] == before_fns[j]);
                        };
                        assert forall|j: int, p: &str, v: &[u8], a: &[u8]|
                            0 <= j < db.hooks@.len() implies #[trigger] db.hooks@[j].requires((p, v, a)) by {
                            if j == db.hooks@.len() - 1 {
                                assert(before_fns[before_fns.len() - 1].1 == db.hooks@[j]);
                            }
                        };
                    }
                },
                None => {},
            }
        }
        let mut list: Vec<(String, Vec<Vec<u8>>, Vec<u8>)> = entries;
        let ghost all = list@;
        while list.len() > 0
            invariant
                db.sensors@.len() == db.sensor_keys@.len(),
                db.meta@.len() == db.meta_keys@.len(),
                db.hooks@.len() == db.hook_keys@.len(),
                db.aggregate_keys@.len() == 0,
                db.aggregates@.len() == 0,
                list@.len() <= all.len(),
                list@ == all.subrange(0, list@.len() as int),
                all == entries@,
                forall|p: String, s: usize| open.requires((p, s)),
                db.vectors_named(),
                forall|j: int| 0 <= j < db.sensors@.len() ==> #[trigger] db.sensors@[j].tail_opened(*open),
                unique(db.sensor_keys@),
                db.meta_keys@ == db.sensor_keys@,
                forall|j: int, p: &str, v: &[u8], a: &[u8]|
                    0 <= j < db.hooks@.len() ==> #[trigger] db.hooks@[j].requires((p, v, a)),
                forall|k: Seq<char>|
                    #![trigger key_pos(db.hook_keys@, k)]
                    key_pos(db.hook_keys@, k) >= 0 <==> exists|m: int| 0 <= m < aggregates_fn@.len() && aggregates_fn@[m].0@ == k,
                forall|k: Seq<char>|
                    #![trigger key_pos(db.sensor_keys@, k)]
                    key_pos(db.sensor_keys@, k) >= 0 <==> exists|m: int| list@.len() <= m < all.len() && all[m].0@ == k,
                forall|k: Seq<char>|
                    #![trigger key_pos(db.sensor_keys@, k)]
                    key_pos(db.sensor_keys@, k) >= 0 ==> exists|m: int|
                        list@.len() <= m < all.len() && all[m].0@ == k && db.meta@[key_pos(db.sensor_keys@, k)]@ == all[m].2@,
            decreases list@.len(),
        {
            let ghost before_keys = db.sensor_keys@;
            let ghost before_meta = db.meta@;
            let ghost n = list@.len();
            let ghost before_list = list@;
            match list.pop() {
                Some((key, names, meta)) => {
                    proof {
                        assert(before_list.last() == all[n - 1]);
                        assert(all[n - 1] == (key, names, meta));
                        lemma_key_pos_bounds(before_keys, key@);
                    }
                    match find_key(&db.sensor_keys, key.as_str()) {
                        Some(_) => {
                            proof {
                                assert forall|k: Seq<char>| #![trigger key_pos(db.sensor_keys@, k)]
                                    key_pos(db.sensor_keys@, k) >= 0 <==> exists|m: int| list@.len() <= m < all.len() && all[m].0@ == k by {
                                    if k == key@ {
                                        assert(all[n - 1].0@ == k);
                                    }
                                };
                            }
                        },
                        None => {
                            let id = key.clone();
                            let v = match MMAV::new(id, names, open) {
                                Ok(v) => v,
                                Err(e) => {
                                    proof {
                                        if e != Error::IndexOutOfRange {
                                            let st = choose|st: usize| start_of(all[n - 1].1@, st as int) && #[trigger] from_opener(
                                                *open,
                                                key@,
                                                st,
                                                SEGMENT_SIZE as int,
                                                DATA_START as int,
                                                Err(e),
                                            );
                                            assert(from_opener(*open, entries@[n - 1].0@, st, SEGMENT_SIZE as int, DATA_START as int, Err(e)));
                                        }
                                        if e == Error::IndexOutOfRange {
                                            let x = choose|x: usize| #[trigger] listed(all[n - 1].1@, x as int) && x + U32_LIMIT > usize::MAX;
                                            assert(listed(entries@[n - 1].1@, x as int));
                                        }
                                    }
                                    return Err(e);
                                },
                            };
                            let ghost key_view = key@;
                            let ghost before_sensors = db.sensors@;
                            proof {
                                assert(v.tail_opened(*open));
                            }
                            db.add_key(key, v, meta);
                            proof {
                                assert forall|j: int| 0 <= j < db.sensors@.len() implies #[trigger] db.sensors@[j].tail_opened(*open) by {
                                    if j < before_sensors.len() {
                                        assert(db.sensors@[j] == before_sensors[j]);
                                    }
                                };
                                assert forall|k: Seq<char>| #![trigger key_pos(db.sensor_keys@, k)]
                                    key_pos(db.sensor_keys@, k) >= 0 <==> exists|m: int| list@.len() <= m < all.len() && all[m].0@ == k by {
                                    lemma_key_pos_push(before_keys, db.sensor_keys@.last(), k);
                                    if k == key_view {
                                        assert(all[n - 1].0@ == k);
                                    }
                                };
                                assert forall|k: Seq<char>| #![trigger key_pos(db.sensor_keys@, k)]
                                    key_pos(db.sensor_keys@, k) >= 0 implies exists|m: int|
                                        list@.len() <= m < all.len() && all[m].0@ == k && db.meta@[key_pos(db.sensor_keys@, k)]@ == all[m].2@ by {
                                    lemma_key_pos_push(before_keys, db.sensor_keys@.last(), k);
                                    if k == key_view {
                                        assert(all[n - 1].0@ == k);
                                        assert(db.meta@[before_keys.len() as int] == meta);
                                    } else {
                                        let j = key_pos(before_keys, k);
                                        lemma_key_pos_bounds(before_keys, k);
                                        assert(db.meta@[j] == before_meta[j]);
                                    }
                                };
                            }
                        },
                    }
                    proof {
                        assert(list@ =~= all.subrange(0, list@.len() as int));
                    }
                },
                None => {},
            }
        }
        proof {
            assert forall|p: &str, r: &[u8], a: &[u8]| #[trigger] db.hooks_callable(p, r, a) by {};
            assert(unique(db.aggregate_keys@));
            db.lemma_wf_intro();
            assert forall|k: Seq<char>| #[trigger] db.has(k) implies db.vector(k).tail_opened(*open) by {
                lemma_key_pos_bounds(db.sensor_keys(), k);
            };
        }
        Ok(db)
    }

    /// Every vector is well formed and named by its key.
    pub open spec fn vectors_named(&self) -> bool {
        forall|j: int|
            0 <= j < self.sensors().len() ==> #[trigger] self.sensors()[j].wf() && self.sensors()[j].id()
                == self.sensor_keys()[j]@
    }

    /// Adds the absent key `key` with its vector and metadata.
    fn add_key(&mut self, key: String, v: MMAV, meta: Vec<u8>)
        requires
            old(self).sensors().len() == old(self).sensor_keys().len(),
            old(self).metas().len() == old(self).meta_keys().len(),
            old(self).meta_keys() == old(self).sensor_keys(),
            old(self).vectors_named(),
            unique(old(self).sensor_keys()),
            key_pos(old(self).sensor_keys(), key@) == -1,
            v.wf(),
            v.id() == key@,
        ensures
            final(self).sensor_keys() == old(self).sensor_keys().push(key),
            final(self).sensors() == old(self).sensors().push(v),
            final(self).meta_keys() == final(self).sensor_keys(),
            final(self).metas() == old(self).metas().push(meta),
            final(self).vectors_named(),
            unique(final(self).sensor_keys()),
            final(self).aggregate_keys() == old(self).aggregate_keys(),
            final(self).aggregate_values() == old(self).aggregate_values(),
            final(self).hook_keys() == old(self).hook_keys(),
            final(self).hooks() == old(self).hooks(),
    {
        let ghost pre = *self;
        let key2 = key.clone();
        proof {
            lemma_unique_push(pre.sensor_keys(), key);
        }
        self.sensor_keys.push(key);
        self.sensors.push(v);
        self.meta_keys.push(key2);
        self.meta.push(meta);
        proof {
            assert(self.meta_keys@ =~= self.sensor_keys@);
            assert forall|j: int| 0 <= j < self.sensors().len() implies #[trigger] self.sensors()[j].wf()
                && self.sensors()[j].id() == self.sensor_keys()[j]@ by {
                if j < pre.sensors().len() {
                    assert(self.sensors()[j] == pre.sensors()[j]);
                    assert(pre.sensors()[j].wf());
                    assert(self.sensor_keys()[j] == pre.sensor_keys()[j]);
                }
            };
        }
    }

    /// Keys other than `k` keep their vector, metadata and aggregate.
    pub open spec fn others_kept(&self, old: Self, k: Seq<char>) -> bool {
        forall|k2: Seq<char>|
            k2 != k ==> {
                &&& #[trigger] self.has(k2) == old.has(k2)
                &&& old.has(k2) ==> self.vector(k2) == old.vector(k2)
                &&& self.meta_of(k2) == old.meta_of(k2)
                &&& self.aggregate_of(k2) == old.aggregate_of(k2)
            }
    }

    /// What `get_meta(k)` returns.
    pub open spec fn meta_result(&self, k: Seq<char>) -> Seq<u8> {
        if self.has(k) && self.meta_of(k) is Some {
            self.meta_of(k)->Some_0
        } else {
            Seq::empty()
        }
    }

    /// The aggregate that a write to `k` starts from.
    pub open spec fn aggregate_before(&self, k: Seq<char>) -> Seq<u8> {
        match self.aggregate_of(k) {
            Some(p) => p,
            None => empty_aggregate(),
        }
    }

    /// The aggregate that a write of `value` to `k` leaves, given the
    /// aggregate `prior` before it: the hook's result when `k` has a hook,
    /// and `prior` itself otherwise.
    pub open spec fn hook_result(&self, k: &str, value: &[u8], prior: Seq<u8>, after: Seq<u8>) -> bool {
        let j = key_pos(self.hook_keys(), k@);
        if j >= 0 {
            exists|pa: &[u8], rv: Vec<u8>|
                pa@ == prior && rv@ == after && #[trigger] self.hooks()[j].ensures((k, value, pa), rv)
        } else {
            after == prior
        }
    }

    /// Writes `value` to the key: creates its vector and its aggregate when
    /// they are missing, lets the key's hook update the aggregate with the
    /// record before it is appended, and appends it. Returns whether the
    /// record was appended.
    #[verifier::spinoff_prover]
    #[verifier::rlimit(100)]
    pub fn post<O, C>(&mut self, id: &str, value: &[u8], open: &O, close: &C) -> (r: bool) where
        O: Fn(String, usize) -> Option<(memmap2::MmapMut, bool)>,
        C: Fn(String, usize, memmap2::MmapMut),

        requires
            old(self).wf(),
            forall|p: String, s: usize| open.requires((p, s)),
            forall|p: String, s: usize, m: memmap2::MmapMut| close.requires((p, s, m)),
        ensures
            final(self).wf(),
            final(self).others_kept(*old(self), id@),
            final(self).hook_keys() == old(self).hook_keys(),
            final(self).hooks() == old(self).hooks(),
            final(self).meta_of(id@) == old(self).meta_of(id@),
            !final(self).has(id@) ==> !r && *final(self) == *old(self),
            old(self).has(id@) ==> final(self).has(id@),
            final(self).has(id@) ==> final(self).aggregate_of(id@) is Some && final(self).hook_result(
                id,
                value,
                old(self).aggregate_before(id@),
                final(self).aggregate_of(id@)->Some_0,
            ),
            r ==> final(self).vector(id@).len_spec() >= 1 && final(self).vector(id@).record_at(
                final(self).vector(id@).len_spec() - 1,
            ) == value@,
            old(self).has(id@) ==> (r <==> final(self).vector(id@).len_spec() == old(self).vector(
                id@,
            ).len_spec() + 1),
            old(self).has(id@) && old(self).vector(id@).tail().count() < MAX_RECORDS_PER_SEGMENT
                && old(self).vector(id@).tail().data_seek() + value@.len() <= old(self).vector(
                id@,
            ).seg_size() ==> r,
            old(self).has(id@) && old(self).vector(id@).sound() ==> forall|i: int|
                0 <= i < old(self).vector(id@).len_spec() && #[trigger] final(self).vector(
                    id@,
                ).holds(i) ==> final(self).vector(id@).record_at(i) == old(self).vector(
                    id@,
                ).record_at(i),
            !old(self).has(id@) && final(self).has(id@) ==> exists|v0: MMAV|
                #[trigger] v0.new_from(*open, id@) && (r ==> final(self).vector(id@).len_spec()
                    == v0.len_spec() + 1) && (!r ==> final(self).vector(id@).len_spec()
                    == v0.len_spec()),
            old(self).has(id@) && !r ==> final(self).vector(id@).len_spec() == old(self).vector(
                id@,
            ).len_spec(),
            old(self).has(id@) && old(self).vector(id@).sound() ==> final(self).vector(id@).sound(),
            old(self).has(id@) && old(self).vector(id@).tail().count() > 0 && !(old(self).vector(
                id@,
            ).tail().count() < MAX_RECORDS_PER_SEGMENT && old(self).vector(id@).tail().data_seek()
                + value@.len() <= old(self).vector(id@).seg_size()) && value@.len() <= old(self).vector(
                id@,
            ).seg_size() - old(self).vector(id@).seg_data_start() && old(self).vector(id@).len_spec()
                + U32_LIMIT <= usize::MAX ==> exists|out: Result<(Seq<u8>, int, int), Error>|
                #[trigger] from_opener(
                    *open,
                    id@,
                    old(self).vector(id@).len_spec() as usize,
                    old(self).vector(id@).seg_size(),
                    old(self).vector(id@).seg_data_start(),
                    out,
                ) && (fresh_empty(out) && out->Ok_0.1 + value@.len() <= old(self).vector(
                    id@,
                ).seg_size() ==> r),
            !old(self).has(id@) ==> exists|out: Result<(Seq<u8>, int, int), Error>|
                #[trigger] from_opener(*open, id@, 0, SEGMENT_SIZE as int, DATA_START as int, out)
                    && (out is Err ==> !r && *final(self) == *old(self)) && (out is Ok
                    ==> final(self).has(id@)) && (takes(out, SEGMENT_SIZE as int, value@.len() as int)
                    ==> r) && (fresh_empty(out) ==> final(self).vector(id@).sound()),
    {
        let ghost pre = *self;
        let ghost mut made: Result<(Seq<u8>, int, int), Error> = Err(Error::Unavailable);
        proof {
            lemma_key_pos_bounds(pre.sensor_keys(), id@);
            lemma_key_pos_bounds(pre.aggregate_keys(), id@);
        }
        let j = match find_key(&self.sensor_keys, id) {
            Some(j) => j,
            None => {
                let created = MMAV::new(id.to_owned(), Vec::new(), open);
                proof {
                    made = choose|out: Result<(Seq<u8>, int, int), Error>|
                        #[trigger] from_opener(*open, id@, 0, SEGMENT_SIZE as int, DATA_START as int, out)
                            && (created is Ok <==> out is Ok) && (created is Err ==> out == Err::<
                            (Seq<u8>, int, int),
                            Error,
                        >(created->Err_0)) && (created is Ok ==> out == unit_state(created->Ok_0.tail()));
                }
                match created {
                    Ok(v) => {
                        let key = id.to_owned();
                        self.sensor_keys.push(key);
                        self.sensors.push(v);
                        proof {
                            assert forall|k2: Seq<char>| #[trigger]
                                key_pos(self.sensor_keys@, k2) == if k2 == id@ {
                                    pre.sensor_keys().len() as int
                                } else {
                                    key_pos(pre.sensor_keys(), k2)
                                } by {
                                lemma_key_pos_push(pre.sensor_keys(), key, k2);
                            };
                            assert(made == unit_state(v.tail()));
                            assert(v.new_from(*open, id@));
                        }
                        self.sensors.len() - 1
                    },
                    Err(_) => {
                        return false;
                    },
                }
            },
        };
        let ghost s1 = *self;
        proof {
            assert(s1.pos(id@) == j);
            assert forall|k2: Seq<char>| k2 != id@ implies #[trigger] s1.pos(k2) == pre.pos(k2) by {};
            self.lemma_hooks_kept(pre);
            assert forall|i: int| 0 <= i < s1.sensors().len() implies #[trigger] s1.sensors()[i].wf()
                && s1.sensors()[i].id() == s1.sensor_keys()[i]@ by {
                if i < pre.sensors().len() {
                    assert(s1.sensors()[i] == pre.sensors()[i]);
                    assert(pre.sensors()[i].wf());
                }
            };
            s1.lemma_wf_intro();
        }
        let a = match find_key(&self.aggregate_keys, id) {
            Some(a) => a,
            None => {
                let key = id.to_owned();
                self.aggregate_keys.push(key);
                let mut initial: Vec<u8> = Vec::new();
                initial.push(123);
                initial.push(125);
                self.aggregates.push(initial);
                proof {
                    assert(initial@ =~= empty_aggregate());
                    assert forall|k2: Seq<char>| #[trigger]
                        key_pos(self.aggregate_keys@, k2) == if k2 == id@ {
                            pre.aggregate_keys().len() as int
                        } else {
                            key_pos(pre.aggregate_keys(), k2)
                        } by {
                        lemma_key_pos_push(pre.aggregate_keys(), key, k2);
                    };
                }
                self.aggregates.len() - 1
            },
        };
        let ghost s2 = *self;
        proof {
            assert(s2.aggregate_of(id@) == Some(pre.aggregate_before(id@)));
        }
        match find_key(&self.hook_keys, id) {
            Some(h) => {
                proof {
                    lemma_key_pos_bounds(self.hook_keys@, id@);
                }
                let prior = self.aggregates[a].as_slice();
                proof {
                    self.lemma_hooks_kept(pre);
                    assert(self.hooks_callable(id, value, prior));
                    assert(h < self.hooks().len());
                    assert(self.hooks()[h as int].requires((id, value, prior)));
                }
                let updated = (self.hooks[h])(id, value, prior);
                let ghost hook = self.hooks@[h as int];
                proof {
                    assert(hook.ensures((id, value, prior), updated));
                    assert(prior@ == pre.aggregate_before(id@));
                }
                self.aggregates.set(a, updated);
                proof {
                    assert(self.hook_of(id@) == Some(hook));
                    assert(self.aggregate_of(id@) == Some(updated@));
                    assert(exists|pa: &[u8], rv: Vec<u8>|
                        pa@ == pre.aggregate_before(id@) && rv@ == updated@ && #[trigger] hook.ensures(
                            (id, value, pa),
                            rv,
                        ));
                    assert(self.hook_result(id, value, pre.aggregate_before(id@), updated@));
                }
            },
            None => {},
        }
        let ghost s3 = *self;
        proof {
            self.lemma_hooks_kept(pre);
            assert(s3.sensors() == s1.sensors());
            assert(s1.wf());
            assert forall|i: int| 0 <= i < s3.sensors().len() implies #[trigger] s3.sensors()[i].wf()
                && s3.sensors()[i].id() == s3.sensor_keys()[i]@ by {
                assert(s1.sensors()[i].wf());
            };
            s3.lemma_wf_intro();
            assert(s3.hook_result(id, value, pre.aggregate_before(id@), s3.aggregate_of(id@)->Some_0));
            assert forall|k2: Seq<char>| k2 != id@ implies #[trigger] s3.aggregate_of(k2) == pre.aggregate_of(k2) by {
                lemma_key_pos_bounds(s3.aggregate_keys(), k2);
                lemma_key_pos_bounds(s3.aggregate_keys(), id@);
            };
        }
        let mut v = self.sensors.remove(j);
        let ghost v0 = v;
        let ok = v.push(value, open, close);
        proof {
            assert(s3.sensors()[j as int].wf());
            assert(v0.wf());
            assert(v0.unit_ok(v0.tail()));
            assert(v0.len_spec() >= 0);
            if ok {
                assert(v.len_spec() == v0.len_spec() + 1);
                assert(v.record_at(v0.len_spec()) == value@);
                assert(v.record_at(v.len_spec() - 1) == value@);
            }
        }
        self.sensors.insert(j, v);
        proof {
            assert(self.sensors@ =~= s3.sensors@.update(j as int, v));
            self.lemma_replaced(s3, j as int);
            assert(self.pos(id@) == j);
            assert(self.vector(id@) == v);
            assert forall|k2: Seq<char>| k2 != id@ implies {
                &&& #[trigger] self.has(k2) == pre.has(k2)
                &&& pre.has(k2) ==> self.vector(k2) == pre.vector(k2)
                &&& self.meta_of(k2) == pre.meta_of(k2)
                &&& self.aggregate_of(k2) == pre.aggregate_of(k2)
            } by {
                lemma_key_pos_bounds(self.sensor_keys(), k2);
                lemma_key_pos_bounds(self.sensor_keys(), id@);
                assert(s3.aggregate_of(k2) == pre.aggregate_of(k2));
            };
            if !pre.has(id@) {
                assert(v0.new_from(*open, id@));
                assert(made == unit_state(v0.tail()));
                lemma_fresh_vector_sound(v0, *open, id@);
                assert(from_opener(*open, id@, 0, SEGMENT_SIZE as int, DATA_START as int, made));
            } else {
                assert(v0 == pre.vector(id@));
                assert(v0.id() == id@);
            }
            if ok {
                assert(self.vector(id@).len_spec() >= 1);
                assert(self.vector(id@).record_at(self.vector(id@).len_spec() - 1) == value@);
            }
        }
        ok
    }

    /// The metadata of the key; empty when the key has no vector or no
    /// metadata was stored.
    pub fn get_meta(&self, id: &str) -> (r: Vec<u8>)
        requires
            self.wf(),
        ensures
            r@ == self.meta_result(id@),
    {
        if !self.contains(id) {
            return Vec::new();
        }
        match find_key(&self.meta_keys, id) {
            Some(j) => {
                proof {
                    lemma_key_pos_bounds(self.meta_keys@, id@);
                }
                copy_bytes(self.meta[j].as_slice())
            },
            None => Vec::new(),
        }
    }

    /// Stores `data` as the key's metadata, creating its vector when it is
    /// missing. Returns whether the key has a vector afterwards.
    pub fn post_meta<O>(&mut self, id: &str, data: Vec<u8>, open: &O) -> (r: bool) where
        O: Fn(String, usize) -> Option<(memmap2::MmapMut, bool)>,

        requires
            old(self).wf(),
            forall|p: String, s: usize| open.requires((p, s)),
        ensures
            final(self).wf(),
            r == final(self).has(id@),
            !r ==> *final(self) == *old(self),
            r ==> final(self).meta_of(id@) == Some(data@),
            old(self).has(id@) ==> r && final(self).vector(id@) == old(self).vector(id@),
            final(self).aggregate_of(id@) == old(self).aggregate_of(id@),
            final(self).others_kept(*old(self), id@),
            !old(self).has(id@) && r ==> final(self).vector(id@).new_from(*open, id@),
            !old(self).has(id@) ==> exists|out: Result<(Seq<u8>, int, int), Error>|
                #[trigger] from_opener(*open, id@, 0, SEGMENT_SIZE as int, DATA_START as int, out)
                    && (r <==> out is Ok),
            r ==> final(self).meta_result(id@) == data@,
    {
        let ghost pre = *self;
        proof {
            lemma_key_pos_bounds(pre.sensor_keys(), id@);
            lemma_key_pos_bounds(pre.meta_keys(), id@);
        }
        match find_key(&self.sensor_keys, id) {
            Some(_) => {},
            None => {
                let created = MMAV::new(id.to_owned(), Vec::new(), open);
                proof {
                    let made = choose|out: Result<(Seq<u8>, int, int), Error>|
                        #[trigger] from_opener(*open, id@, 0, SEGMENT_SIZE as int, DATA_START as int, out)
                            && (created is Ok <==> out is Ok) && (created is Err ==> out == Err::<
                            (Seq<u8>, int, int),
                            Error,
                        >(created->Err_0)) && (created is Ok ==> out == unit_state(created->Ok_0.tail()));
                    assert(from_opener(*open, id@, 0, SEGMENT_SIZE as int, DATA_START as int, made));
                }
                match created {
                    Ok(v) => {
                        let key = id.to_owned();
                        self.sensor_keys.push(key);
                        self.sensors.push(v);
                        proof {
                            assert forall|k2: Seq<char>| #[trigger]
                                key_pos(self.sensor_keys@, k2) == if k2 == id@ {
                                    pre.sensor_keys().len() as int
                                } else {
                                    key_pos(pre.sensor_keys(), k2)
                                } by {
                                lemma_key_pos_push(pre.sensor_keys(), key, k2);
                            };
                            assert forall|i: int| 0 <= i < self.sensors@.len() implies #[trigger] self.sensors@[i].wf()
                                && self.sensors@[i].id() == self.sensor_keys@[i]@ by {
                                if i < pre.sensors().len() {
                                    assert(self.sensors@[i] == pre.sensors()[i]);
                                    assert(pre.sensors()[i].wf());
                                }
                            };
                        }
                    },
                    Err(_) => {
                        return false;
                    },
                }
            },
        }
        let ghost s1 = *self;
        match find_key(&self.meta_keys, id) {
            Some(j) => {
                self.meta.set(j, data);
            },
            None => {
                let key = id.to_owned();
                self.meta_keys.push(key);
                self.meta.push(data);
                proof {
                    assert forall|k2: Seq<char>| #[trigger]
                        key_pos(self.meta_keys@, k2) == if k2 == id@ {
                            pre.meta_keys().len() as int
                        } else {
                            key_pos(pre.meta_keys(), k2)
                        } by {
                        lemma_key_pos_push(pre.meta_keys(), key, k2);
                    };
                }
            },
        }
        proof {
            self.lemma_hooks_kept(pre);
            assert forall|i: int| 0 <= i < self.sensors@.len() implies #[trigger] self.sensors@[i].wf()
                && self.sensors@[i].id() == self.sensor_keys@[i]@ by {
                assert(s1.sensors()[i].wf());
            };
            assert forall|k2: Seq<char>| k2 != id@ implies {
                &&& #[trigger] self.has(k2) == pre.has(k2)
                &&& pre.has(k2) ==> self.vector(k2) == pre.vector(k2)
                &&& self.meta_of(k2) == pre.meta_of(k2)
                &&& self.aggregate_of(k2) == pre.aggregate_of(k2)
            } by {
                lemma_key_pos_bounds(self.meta_keys(), k2);
                lemma_key_pos_bounds(self.meta_keys(), id@);
                lemma_key_pos_bounds(pre.meta_keys(), k2);
                lemma_key_pos_bounds(pre.sensor_keys(), k2);
                lemma_key_pos_bounds(self.sensor_keys(), k2);
                if pre.has(k2) {
                    assert(self.pos(k2) == pre.pos(k2));
                    assert(self.sensors()[self.pos(k2)] == pre.sensors()[pre.pos(k2)]);
                }
                if key_pos(pre.meta_keys(), k2) >= 0 {
                    assert(key_pos(self.meta_keys(), k2) == key_pos(pre.meta_keys(), k2));
                    assert(self.metas()[key_pos(pre.meta_keys(), k2)] == pre.metas()[key_pos(pre.meta_keys(), k2)]);
                }
            };
            assert(self.others_kept(pre, id@));
        }
        true
    }

    /// The aggregate of the key; empty when the key was never written to.
    pub fn get_aggregates(&self, id: &str) -> (r: Vec<u8>)
        requires
            self.wf(),
        ensures
            r@ == match self.aggregate_of(id@) {
                Some(a) => a,
                None => Seq::empty(),
            },
    {
        match find_key(&self.aggregate_keys, id) {
            Some(j) => {
                proof {
                    lemma_key_pos_bounds(self.aggregate_keys@, id@);
                }
                copy_bytes(self.aggregates[j].as_slice())
            },
            None => Vec::new(),
        }
    }

    /// The last record of the key; empty when it has none.
    pub fn get_latest(&self, id: &str) -> (r: Vec<u8>)
        requires
            self.wf(),
        ensures
            r@ == if self.has(id@) {
                self.vector(id@).tail().last_spec()
            } else {
                Seq::empty()
            },
    {
        match find_key(&self.sensor_keys, id) {
            Some(j) => {
                proof {
                    lemma_key_pos_bounds(self.sensor_keys@, id@);
                    assert(self.sensors()[j as int].wf());
                }
                self.sensors[j].last()
            },
            None => Vec::new(),
        }
    }

    /// The last `limit` records of the key, or all of them when it has fewer.
    pub fn get_latest_with_limit<O>(&mut self, id: &str, limit: usize, open: &O) -> (r: Vec<
        Vec<u8>,
    >) where O: Fn(String, usize) -> Option<(memmap2::MmapMut, bool)>
        requires
            old(self).wf(),
            forall|p: String, s: usize| open.requires((p, s)),
        ensures
            final(self).read_of(*old(self), id@),
            seqs_of(r@) == if old(self).has(id@) {
                final(self).vector(id@).limit_result(limit as int)
            } else {
                Seq::empty()
            },
    {
        match find_key(&self.sensor_keys, id) {
            Some(j) => {
                proof {
                    lemma_key_pos_bounds(self.sensor_keys@, id@);
                    assert(self.sensors()[j as int].wf());
                }
                let mut v = self.sensors.remove(j);
                let r = v.last_limit(limit, open);
                self.sensors.insert(j, v);
                proof {
                    assert(self.sensors@ =~= old(self).sensors@.update(j as int, v));
                    self.lemma_replaced(*old(self), j as int);
                }
                r
            },
            None => {
                proof {
                    assert(seqs_of(Seq::<Vec<u8>>::empty()) =~= Seq::<Seq<u8>>::empty());
                }
                Vec::new()
            },
        }
    }

    /// The records of the key from `start` to `end`; see `MMAV::range`.
    pub fn get_range<O>(&mut self, id: &str, start: usize, end: usize, open: &O) -> (r: Vec<
        Vec<u8>,
    >) where O: Fn(String, usize) -> Option<(memmap2::MmapMut, bool)>
        requires
            old(self).wf(),
            forall|p: String, s: usize| open.requires((p, s)),
        ensures
            final(self).read_of(*old(self), id@),
            seqs_of(r@) == if old(self).has(id@) {
                final(self).vector(id@).range_result(start as int, end as int)
            } else {
                Seq::empty()
            },
    {
        match find_key(&self.sensor_keys, id) {
            Some(j) => {
                proof {
                    lemma_key_pos_bounds(self.sensor_keys@, id@);
                    assert(self.sensors()[j as int].wf());
                }
                let mut v = self.sensors.remove(j);
                let r = v.range(start, end, open);
                self.sensors.insert(j, v);
                proof {
                    assert(self.sensors@ =~= old(self).sensors@.update(j as int, v));
                    self.lemma_replaced(*old(self), j as int);
                }
                r
            },
            None => {
                proof {
                    assert(seqs_of(Seq::<Vec<u8>>::empty()) =~= Seq::<Seq<u8>>::empty());
                }
                Vec::new()
            },
        }
    }

    /// The non-empty results of `last_limit(limit)` on the first `n` vectors,
    /// each with its key, in key order.
    pub open spec fn latest_lists(&self, limit: int, n: int) -> Seq<(Seq<char>, Seq<Seq<u8>>)>
        decreases n,
    {
        if n <= 0 {
            Seq::empty()
        } else {
            let prev = self.latest_lists(limit, n - 1);
            let res = self.sensors()[n - 1].limit_result(limit);
            if res.len() > 0 {
                prev.push((self.sensor_keys()[n - 1]@, res))
            } else {
                prev
            }
        }
    }

    /// The metadata of every key that has some, with its key.
    #[verifier::spinoff_prover]
    pub fn get_all_meta(&self) -> (r: Vec<Record>)
        requires
            self.wf(),
        ensures
            r@.len() == self.meta_keys().len(),
            forall|i: int|
                0 <= i < r@.len() ==> #[trigger] r@[i].id@ == self.meta_keys()[i]@ && r@[i].value@
                    == self.metas()[i]@,
            forall|i: int|
                0 <= i < r@.len() ==> #[trigger] self.meta_of(r@[i].id@) == Some(r@[i].value@),
    {
        let mut r: Vec<Record> = Vec::new();
        let mut i: usize = 0;
        while i < self.meta.len()
            invariant
                self.wf(),
                i <= self.meta@.len(),
                r@.len() == i,
                forall|j: int|
                    0 <= j < i ==> #[trigger] r@[j].id@ == self.meta_keys()[j]@ && r@[j].value@
                        == self.metas()[j]@,
            decreases self.meta@.len() - i,
        {
            let ghost prev = r@;
            r.push(Record { id: self.meta_keys[i].clone(), value: copy_bytes(self.meta[i].as_slice()) });
            proof {
                assert forall|j: int| 0 <= j < i + 1 implies #[trigger] r@[j].id@ == self.meta_keys()[j]@ && r@[j].value@
                    == self.metas()[j]@ by {
                    if j < i {
                        assert(r@[j] == prev[j]);
                    }
                };
            }
            i = i + 1;
        }
        proof {
            assert forall|i: int| 0 <= i < r@.len() implies #[trigger] self.meta_of(r@[i].id@) == Some(
                r@[i].value@,
            ) by {
                lemma_unique_pos(self.meta_keys(), i);
            };
        }
        r
    }

    /// The aggregate of every key that was written to, with its key.
    #[verifier::spinoff_prover]
    pub fn get_all_aggregates(&self) -> (r: Vec<Record>)
        requires
            self.wf(),
        ensures
            r@.len() == self.aggregate_keys().len(),
            forall|i: int|
                0 <= i < r@.len() ==> #[trigger] r@[i].id@ == self.aggregate_keys()[i]@ && r@[i].value@
                    == self.aggregate_values()[i]@,
            forall|i: int|
                0 <= i < r@.len() ==> #[trigger] self.aggregate_of(r@[i].id@) == Some(r@[i].value@),
    {
        let mut r: Vec<Record> = Vec::new();
        let mut i: usize = 0;
        while i < self.aggregates.len()
            invariant
                self.wf(),
                i <= self.aggregates@.len(),
                r@.len() == i,
                forall|j: int|
                    0 <= j < i ==> #[trigger] r@[j].id@ == self.aggregate_keys()[j]@ && r@[j].value@
                        == self.aggregate_values()[j]@,
            decreases self.aggregates@.len() - i,
        {
            let ghost prev = r@;
            r.push(Record { id: self.aggregate_keys[i].clone(), value: copy_bytes(self.aggregates[i].as_slice()) });
            proof {
                assert forall|j: int| 0 <= j < i + 1 implies #[trigger] r@[j].id@ == self.aggregate_keys()[j]@ && r@[j].value@
                    == self.aggregate_values()[j]@ by {
                    if j < i {
                        assert(r@[j] == prev[j]);
                    }
                };
            }
            i = i + 1;
        }
        proof {
            assert forall|i: int| 0 <= i < r@.len() implies #[trigger] self.aggregate_of(r@[i].id@) == Some(
                r@[i].value@,
            ) by {
                lemma_unique_pos(self.aggregate_keys(), i);
            };
        }
        r
    }

    /// The last record of every key, with its key.
    #[verifier::spinoff_prover]
    pub fn get_all_latest(&self) -> (r: Vec<Record>)
        requires
            self.wf(),
        ensures
            r@.len() == self.sensor_keys().len(),
            forall|i: int|
                0 <= i < r@.len() ==> #[trigger] r@[i].id@ == self.sensor_keys()[i]@ && r@[i].value@
                    == self.sensors()[i].tail().last_spec(),
            forall|i: int|
                0 <= i < r@.len() ==> #[trigger] self.has(r@[i].id@) && r@[i].value@ == self.vector(
                    r@[i].id@,
                ).tail().last_spec(),
    {
        let mut r: Vec<Record> = Vec::new();
        let mut i: usize = 0;
        while i < self.sensors.len()
            invariant
                self.wf(),
                i <= self.sensors@.len(),
                r@.len() == i,
                forall|j: int|
                    0 <= j < i ==> #[trigger] r@[j].id@ == self.sensor_keys()[j]@ && r@[j].value@
                        == self.sensors()[j].tail().last_spec(),
            decreases self.sensors@.len() - i,
        {
            proof {
                assert(self.sensors()[i as int].wf());
            }
            let ghost prev = r@;
            r.push(Record { id: self.sensor_keys[i].clone(), value: self.sensors[i].last() });
            proof {
                assert forall|j: int| 0 <= j < i + 1 implies #[trigger] r@[j].id@ == self.sensor_keys()[j]@ && r@[j].value@
                    == self.sensors()[j].tail().last_spec() by {
                    if j < i {
                        assert(r@[j] == prev[j]);
                    }
                };
            }
            i = i + 1;
        }
        proof {
            assert forall|i: int| 0 <= i < r@.len() implies #[trigger] self.has(r@[i].id@) && r@[i].value@
                == self.vector(r@[i].id@).tail().last_spec() by {
                lemma_unique_pos(self.sensor_keys(), i);
            };
        }
        r
    }

    /// The last `limit` records of every key whose result is not empty, with
    /// its key.
    pub fn get_all_latest_with_limit<O>(&mut self, limit: usize, open: &O) -> (r: Vec<
        (String, Vec<Vec<u8>>),
    >) where O: Fn(String, usize) -> Option<(memmap2::MmapMut, bool)>
        requires
            old(self).wf(),
            forall|p: String, s: usize| open.requires((p, s)),
        ensures
            final(self).wf(),
            final(self).sensor_keys() == old(self).sensor_keys(),
            forall|i: int|
                0 <= i < old(self).sensors().len() ==> #[trigger] final(self).sensors()[i].loads_from(
                    old(self).sensors()[i],
                ),
            lists_view(r@) == final(self).latest_lists(limit as int, final(self).sensors().len() as int),
    {
        let mut r: Vec<(String, Vec<Vec<u8>>)> = Vec::new();
        let n = self.sensors.len();
        let mut i: usize = 0;
        while i < n
            invariant
                self.wf(),
                n == self.sensors().len(),
                i <= n,
                self.sensor_keys() == old(self).sensor_keys(),
                self.hooks() == old(self).hooks(),
                self.hook_keys() == old(self).hook_keys(),
                self.metas() == old(self).metas(),
                self.meta_keys() == old(self).meta_keys(),
                self.aggregate_keys() == old(self).aggregate_keys(),
                self.aggregate_values() == old(self).aggregate_values(),
                forall|j: int| i <= j < n ==> #[trigger] self.sensors()[j] == old(self).sensors()[j],
                forall|j: int| 0 <= j < i ==> #[trigger] self.sensors()[j].loads_from(old(self).sensors()[j]),
                lists_view(r@) == self.latest_lists(limit as int, i as int),
                forall|p: String, s: usize| open.requires((p, s)),
            decreases n - i,
        {
            let ghost before = *self;
            proof {
                assert(self.sensors()[i as int].wf());
            }
            let mut v = self.sensors.remove(i);
            let items = v.last_limit(limit, open);
            self.sensors.insert(i, v);
            proof {
                assert(self.sensors@ =~= before.sensors@.update(i as int, v));
                self.lemma_replaced(before, i as int);
                self.lemma_lists_prefix(before, limit as int, i as int);
            }
            if items.len() > 0 {
                let ghost prev = r@;
                r.push((self.sensor_keys[i].clone(), items));
                proof {
                    assert(lists_view(r@) =~= lists_view(prev).push((self.sensor_keys()[i as int]@, v.limit_result(limit as int))));
                }
            } else {
                proof {
                    assert(seqs_of(items@).len() == 0);
                }
            }
            proof {
                assert(self.sensors()[i as int] == v);
                assert(self.latest_lists(limit as int, i as int) == before.latest_lists(limit as int, i as int));
                assert(seqs_of(items@) == v.limit_result(limit as int));
                assert(seqs_of(items@).len() == items@.len());
                assert(self.latest_lists(limit as int, i + 1) == if v.limit_result(limit as int).len() > 0 {
                    self.latest_lists(limit as int, i as int).push((self.sensor_keys()[i as int]@, v.limit_result(limit as int)))
                } else {
                    self.latest_lists(limit as int, i as int)
                });
            }
            i = i + 1;
        }
        r
    }

    /// Changing the vector at `i` leaves the lists of the first `i` vectors.
    proof fn lemma_lists_prefix(&self, old: Self, limit: int, i: int)
        requires
            0 <= i < self.sensors().len(),
            self.sensors().len() == old.sensors().len(),
            self.sensor_keys() == old.sensor_keys(),
            forall|j: int| 0 <= j < i ==> #[trigger] self.sensors()[j] == old.sensors()[j],
        ensures
            forall|n: int| 0 <= n <= i ==> #[trigger] self.latest_lists(limit, n) == old.latest_lists(limit, n),
    {
        assert forall|n: int| 0 <= n <= i implies #[trigger] self.latest_lists(limit, n) == old.latest_lists(limit, n) by {
            self.lemma_lists_prefix_at(old, limit, n);
        };
    }

    proof fn lemma_lists_prefix_at(&self, old: Self, limit: int, n: int)
        requires
            0 <= n < self.sensors().len(),
            self.sensors().len() == old.sensors().len(),
            self.sensor_keys() == old.sensor_keys(),
            forall|j: int| 0 <= j < n ==> #[trigger] self.sensors()[j] == old.sensors()[j],
        ensures
            self.latest_lists(limit, n) == old.latest_lists(limit, n),
        decreases n,
    {
        if n > 0 {
            self.lemma_lists_prefix_at(old, limit, n - 1);
        }
    }

    /// Closes the database, handing the map of every loaded segment to `close`.
    pub fn close<C>(self, close: &C) where C: Fn(String, usize, memmap2::MmapMut)
        requires
            self.wf(),
            forall|p: String, s: usize, m: memmap2::MmapMut| close.requires((p, s, m)),
    {
        let mut sensors = self.sensors;
        while sensors.len() > 0
            invariant
                forall|j: int| 0 <= j < sensors@.len() ==> #[trigger] sensors@[j].wf(),
                forall|p: String, s: usize, m: memmap2::MmapMut| close.requires((p, s, m)),
            decreases sensors@.len(),
        {
            match sensors.pop() {
                Some(v) => {
                    v.close(close);
                },
                None => {},
            }
        }
    }

    #[verifier::spinoff_prover]
    proof fn lemma_wf_intro(&self)
        requires
            self.sensors().len() == self.sensor_keys().len(),
            self.metas().len() == self.meta_keys().len(),
            self.aggregate_values().len() == self.aggregate_keys().len(),
            self.hooks().len() == self.hook_keys().len(),
            unique(self.sensor_keys()),
            unique(self.meta_keys()),
            unique(self.aggregate_keys()),
            forall|j: int|
                0 <= j < self.sensors().len() ==> #[trigger] self.sensors()[j].wf() && self.sensors()[j].id()
                    == self.sensor_keys()[j]@,
            forall|p: &str, r: &[u8], a: &[u8]| #[trigger] self.hooks_callable(p, r, a),
        ensures
            self.wf(),
    {
    }

    proof fn lemma_hooks_kept(&self, old: Self)
        requires
            old.wf(),
            self.hooks() == old.hooks(),
        ensures
            forall|p: &str, r: &[u8], a: &[u8]| #[trigger] self.hooks_callable(p, r, a),
    {
        assert forall|p: &str, r: &[u8], a: &[u8]| #[trigger] self.hooks_callable(p, r, a) by {
            assert(old.hooks_callable(p, r, a));
        };
    }

    proof fn lemma_replaced(&self, old: Self, j: int)
        requires
            old.wf(),
            0 <= j < old.sensors().len(),
            self.sensor_keys() == old.sensor_keys(),
            self.sensors() == old.sensors().update(j, self.sensors()[j]),
            self.sensors()[j].wf(),
            self.sensors()[j].id() == old.sensors()[j].id(),
            self.meta_keys() == old.meta_keys(),
            self.metas() == old.metas(),
            self.aggregate_keys() == old.aggregate_keys(),
            self.aggregate_values() == old.aggregate_values(),
            self.hook_keys() == old.hook_keys(),
            self.hooks() == old.hooks(),
        ensures
            self.wf(),
            self.same_but_vector(old, j),
    {
        assert forall|p: &str, r: &[u8], a: &[u8]| #[trigger] self.hooks_callable(p, r, a) by {
            assert(old.hooks_callable(p, r, a));
        };
        assert forall|i: int| 0 <= i < self.sensors().len() implies #[trigger] self.sensors()[i].wf()
            && self.sensors()[i].id() == self.sensor_keys()[i]@ by {
            if i != j {
                assert(self.sensors()[i] == old.sensors()[i]);
            } else {
                assert(old.sensors()[j].wf());
            }
        };
    }
}

/// A vector made from an empty directory whose segment holds no record is sound.
proof fn lemma_fresh_vector_sound<O: Fn(String, usize) -> Option<(memmap2::MmapMut, bool)>>(
    v: MMAV,
    open: O,
    id: Seq<char>,
)
    requires
        v.new_from(open, id),
    ensures
        v.tail().count() == 0 ==> v.sound(),
{
    assert(v.loaded().len() == 1);
}

} // verus!
