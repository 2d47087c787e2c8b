//! The record store: a monotonic-id-keyed map from id to record, backed by
//! durable storage, with an independent durable counter supplying fresh ids.
//!
//! The store is generic over the record family.  Its model is the counter
//! value plus the sequence of records in ascending id order; every operation
//! states how it moves that model.
use crate::storage::btree_clear;
use crate::storage::btree_entries;
use crate::storage::btree_get;
use crate::storage::btree_init;
use crate::storage::btree_insert;
use crate::storage::btree_len;
use crate::storage::btree_remove;
use crate::storage::cell_get;
use crate::storage::cell_init;
use crate::storage::cell_set;
use crate::storage::map_model;
use crate::storage::cell_value;
use crate::storage::ByteMap;
use crate::storage::CounterCell;
use crate::storage::Region;
use vstd::prelude::*;

verus! {

broadcast use vstd::set::axiom_set_insert_len, vstd::set::axiom_set_remove_len;

/// A persisted record family: keyed by id, stored under an exact byte
/// encoding.
pub trait Record: View + Sized {
    /// The id of a record value.
    spec fn spec_id(v: Self::V) -> u64;

    /// The structural shape a record must have before it can be encoded.
    spec fn pre_valid(v: Self::V) -> bool;

    /// A record value that a byte encoding can hold; every stored record
    /// satisfies this.
    spec fn spec_valid(v: Self::V) -> bool;

    /// The bytes under which a record is persisted.
    spec fn spec_enc(v: Self::V) -> Seq<u8>;

    proof fn valid_implies_pre(v: Self::V)
        requires
            Self::spec_valid(v),
        ensures
            Self::pre_valid(v),
    ;

    fn rec_id(&self) -> (r: u64)
        ensures
            r == Self::spec_id(self@),
    ;

    fn encode(&self) -> (r: Vec<u8>)
        requires
            Self::pre_valid(self@),
        ensures
            Self::spec_valid(self@),
            r@ == Self::spec_enc(self@),
    ;

    fn decode(bytes: &Vec<u8>) -> (r: Option<Self>)
        ensures
            r matches Some(v) ==> Self::spec_valid(v@) && bytes@ == Self::spec_enc(v@),
            forall|m: Self::V|
                Self::spec_valid(m) && bytes@ == Self::spec_enc(m) ==> (r matches Some(v) && v@
                    == m),
    ;
}

/// What a store holds: the last issued id and the records in ascending id
/// order.
pub ghost struct StoreView<T> {
    pub next: u64,
    pub records: Seq<T>,
}

/// The model-level well-formedness of a store: every record can be encoded,
/// ids start at 1, never exceed the counter, and ascend strictly.
pub open spec fn view_wf<R: Record>(v: StoreView<R::V>) -> bool {
    &&& forall|i: int| 0 <= i < v.records.len() ==> R::spec_valid(#[trigger] v.records[i])
    &&& forall|i: int|
        0 <= i < v.records.len() ==> 1 <= R::spec_id(#[trigger] v.records[i]) <= v.next
    &&& forall|i: int, j: int|
        0 <= i < j < v.records.len() ==> #[trigger] R::spec_id(v.records[i]) < #[trigger] R::spec_id(
            v.records[j],
        )
}

/// Whether some record in the sequence carries the id.
pub open spec fn has_id<R: Record>(s: Seq<R::V>, id: u64) -> bool {
    exists|i: int| 0 <= i < s.len() && R::spec_id(#[trigger] s[i]) == id
}

/// The index of the record carrying the id.
pub open spec fn id_index<R: Record>(s: Seq<R::V>, id: u64) -> int {
    choose|i: int| 0 <= i < s.len() && R::spec_id(#[trigger] s[i]) == id
}

/// The record carrying the id, if any.
pub open spec fn spec_find<R: Record>(s: Seq<R::V>, id: u64) -> Option<R::V> {
    if has_id::<R>(s, id) {
        Some(s[id_index::<R>(s, id)])
    } else {
        None
    }
}

/// The sequence with the record stored under its id: replaced in place when
/// the id is present, appended otherwise.
pub open spec fn spec_put<R: Record>(s: Seq<R::V>, v: R::V) -> Seq<R::V> {
    if has_id::<R>(s, R::spec_id(v)) {
        s.update(id_index::<R>(s, R::spec_id(v)), v)
    } else {
        s.push(v)
    }
}

/// The key-value pair read back from a record map can be restored: the
/// bytes are some record's encoding, stored under that record's own id, at
/// least one and at most `limit`.
pub open spec fn restorable<R: Record>(key: u64, bytes: Seq<u8>, limit: u64) -> bool {
    &&& 1 <= key <= limit
    &&& exists|m: R::V|
        R::spec_valid(m) && bytes == #[trigger] R::spec_enc(m) && R::spec_id(m) == key
}

/// A record store bound to two durable regions.
pub struct Store<R: Record> {
    map: ByteMap,
    counter: CounterCell,
    model: Ghost<Seq<R::V>>,
}

impl<R: Record> View for Store<R> {
    type V = StoreView<R::V>;

    closed spec fn view(&self) -> StoreView<R::V> {
        StoreView { next: cell_value(self.counter), records: self.model@ }
    }
}

impl<R: Record> Store<R> {
    /// The store's records mirror the durable map exactly.
    pub closed spec fn wf(self) -> bool {
        let s = self.model@;
        let mm = map_model(self.map);
        &&& view_wf::<R>(self@)
        &&& mm.dom().finite()
        &&& mm.dom().len() == s.len()
        &&& forall|i: int|
            0 <= i < s.len() ==> mm.contains_pair(
                R::spec_id(#[trigger] s[i]),
                R::spec_enc(s[i]),
            )
        &&& forall|k: u64|
            mm.dom().contains(k) ==> exists|i: int|
                0 <= i < s.len() && R::spec_id(#[trigger] s[i]) == k
    }

    /// A well-formed store has a well-formed model.
    pub proof fn wf_view(&self)
        requires
            self.wf(),
        ensures
            view_wf::<R>(self@),
    {
    }

    /// Rebuilds the model persisted in a record map from the entries read
    /// back at `open`: the decision half of opening a store.  A model comes
    /// back exactly when every entry can be restored — it holds a record's
    /// encoding, stored under the record's own id, at least one and at most
    /// `limit` — and is then those records' values, in entry order.
    pub fn restore(entries: &Vec<(u64, Vec<u8>)>, limit: u64) -> (r: Option<Ghost<Seq<R::V>>>)
        ensures
            r matches Some(model) ==> model@.len() == entries@.len() && (forall|i: int|
                0 <= i < entries@.len() ==> R::spec_valid(#[trigger] model@[i]) && R::spec_id(
                    model@[i],
                ) == entries@[i].0 && R::spec_enc(model@[i]) == entries@[i].1@ && 1
                    <= entries@[i].0 <= limit),
            r is Some <==> (forall|i: int|
                0 <= i < entries@.len() ==> restorable::<R>(
                    #[trigger] entries@[i].0,
                    entries@[i].1@,
                    limit,
                )),
    {
        let mut model: Ghost<Seq<R::V>> = Ghost(Seq::empty());
        let mut idx: usize = 0;
        while idx < entries.len()
            invariant
                idx <= entries@.len(),
                model@.len() == idx,
                forall|i: int|
                    0 <= i < idx ==> R::spec_valid(#[trigger] model@[i]) && R::spec_id(model@[i])
                        == entries@[i].0 && R::spec_enc(model@[i]) == entries@[i].1@ && 1
                        <= entries@[i].0 <= limit,
            decreases entries@.len() - idx,
        {
            let e = &entries[idx];
            match R::decode(&e.1) {
                None => {
                    proof {
                        if restorable::<R>(entries@[idx as int].0, entries@[idx as int].1@, limit) {
                            let m = choose|m: R::V|
                                R::spec_valid(m) && entries@[idx as int].1@
                                    == #[trigger] R::spec_enc(m) && R::spec_id(m) == entries@[
                                    idx as int].0;
                            assert(e.1@ == R::spec_enc(m));
                            assert(false);
                        }
                    }
                    return None;
                },
                Some(rec) => {
                    let id = rec.rec_id();
                    if id != e.0 || id < 1 || id > limit {
                        proof {
                            if restorable::<R>(
                                entries@[idx as int].0,
                                entries@[idx as int].1@,
                                limit,
                            ) {
                                let m = choose|m: R::V|
                                    R::spec_valid(m) && entries@[idx as int].1@
                                        == #[trigger] R::spec_enc(m) && R::spec_id(m) == entries@[
                                        idx as int].0;
                                assert(e.1@ == R::spec_enc(m));
                                assert(rec@ == m);
                                assert(false);
                            }
                        }
                        return None;
                    }
                    let ghost pre = model@;
                    model = Ghost(pre.push(rec@));
                    proof {
                        assert(*e == entries@[idx as int]);
                        assert(R::spec_enc(rec@) == entries@[idx as int].1@);
                        assert(R::spec_id(rec@) == entries@[idx as int].0);
                        assert forall|i: int|
                            0 <= i < idx + 1 implies R::spec_valid(#[trigger] model@[i])
                            && R::spec_id(model@[i]) == entries@[i].0 && R::spec_enc(model@[i])
                            == entries@[i].1@ && 1 <= entries@[i].0 <= limit by {
                            if i < idx as int {
                                assert(model@[i] == pre[i]);
                                assert(R::spec_valid(pre[i]));
                            } else {
                                assert(model@[i] == rec@);
                            }
                        }
                    }
                },
            }
            idx = idx + 1;
        }
        proof {
            assert forall|i: int| 0 <= i < entries@.len() implies restorable::<R>(
                #[trigger] entries@[i].0,
                entries@[i].1@,
                limit,
            ) by {
                assert(R::spec_valid(model@[i]) && entries@[i].1@ == R::spec_enc(model@[i])
                    && R::spec_id(model@[i]) == entries@[i].0);
            }
        }
        Some(model)
    }

    /// Opens the store in the two regions, restoring the records persisted
    /// there: `restore` above decides, over what the counter and the map
    /// gave back.  Nothing is returned when the regions hold bytes that are
    /// no record's encoding, a record stored under a key other than its own
    /// id, an id of zero, or an id above the counter: corrupt storage,
    /// which the store does not repair.
    pub fn open(counter_region: Region, map_region: Region) -> (r: Option<Store<R>>)
        ensures
            r matches Some(s) ==> s.wf(),
    {
        let counter = cell_init(counter_region, 0);
        let map = btree_init(map_region);
        let limit = cell_get(&counter);
        let entries = btree_entries(&map);
        let ghost mm = map_model(map);
        match Self::restore(&entries, limit) {
            None => None,
            Some(model) => {
                let s = Store { map, counter, model };
                proof {
                    let sm = s.model@;
                    assert forall|i: int, j: int|
                        0 <= i < j < sm.len() implies #[trigger] R::spec_id(sm[i])
                        < #[trigger] R::spec_id(sm[j]) by {
                        assert(R::spec_id(sm[i]) == entries@[i].0);
                        assert(R::spec_id(sm[j]) == entries@[j].0);
                    }
                    assert forall|i: int| 0 <= i < sm.len() implies mm.contains_pair(
                        R::spec_id(#[trigger] sm[i]),
                        R::spec_enc(sm[i]),
                    ) by {
                        assert(mm.contains_pair(entries@[i].0, entries@[i].1@));
                    }
                    assert forall|k: u64| mm.dom().contains(k) implies exists|i: int|
                        0 <= i < sm.len() && R::spec_id(#[trigger] sm[i]) == k by {
                        let i = choose|i: int| 0 <= i < entries@.len() && entries@[i].0 == k;
                        assert(R::spec_id(sm[i]) == k);
                    }
                }
                Some(s)
            },
        }
    }

    /// Reserves the next fresh id: reads the counter, persists its
    /// successor, and returns it.
    pub fn fresh_id(&mut self) -> (r: u64)
        requires
            old(self).wf(),
            old(self)@.next < u64::MAX,
        ensures
            final(self).wf(),
            final(self)@.next == old(self)@.next + 1,
            final(self)@.records == old(self)@.records,
            r == old(self)@.next + 1,
    {
        let cur = cell_get(&self.counter);
        let next = cur + 1;
        let _prev = cell_set(&mut self.counter, next);
        proof {
            assert(self@.records == old(self)@.records);
        }
        next
    }

    /// Stores the record under its id: replaces the record holding that id,
    /// or appends the record when its id is fresh.  The id must have been
    /// issued by the counter and, if not present yet, exceed every stored
    /// id — as the ids handed out by `fresh_id` do.
    pub fn insert(&mut self, rec: &R)
        requires
            old(self).wf(),
            R::pre_valid(rec@),
            1 <= R::spec_id(rec@) <= old(self)@.next,
            has_id::<R>(old(self)@.records, R::spec_id(rec@)) || (forall|i: int|
                0 <= i < old(self)@.records.len() ==> R::spec_id(#[trigger] old(
                    self,
                )@.records[i]) < R::spec_id(rec@)),
        ensures
            final(self).wf(),
            final(self)@.next == old(self)@.next,
            final(self)@.records == spec_put::<R>(old(self)@.records, rec@),
    {
        let bytes = rec.encode();
        let id = rec.rec_id();
        let ghost s = self.model@;
        let ghost v = rec@;
        let ghost mm = map_model(self.map);
        let _prev = btree_insert(&mut self.map, id, bytes);
        self.model = Ghost(spec_put::<R>(s, v));
        proof {
            let mm2 = map_model(self.map);
            assert(mm2 == mm.insert(id, R::spec_enc(v)));
            if has_id::<R>(s, id) {
                let i = id_index::<R>(s, id);
                assert(0 <= i < s.len() && R::spec_id(s[i]) == id);
                assert(self.model@ == s.update(i, v));
                assert(mm.dom().contains(id));
                assert(mm2.dom() =~= mm.dom());
                assert forall|j: int|
                    0 <= j < self.model@.len() implies mm2.contains_pair(
                    R::spec_id(#[trigger] self.model@[j]),
                    R::spec_enc(self.model@[j]),
                ) by {
                    if j != i {
                        assert(R::spec_id(s[j]) != id);
                    }
                }
                assert forall|k: u64| mm2.dom().contains(k) implies exists|j: int|
                    0 <= j < self.model@.len() && R::spec_id(#[trigger] self.model@[j]) == k by {
                    let j = choose|j: int| 0 <= j < s.len() && R::spec_id(#[trigger] s[j]) == k;
                    assert(R::spec_id(self.model@[j]) == k);
                }
            } else {
                assert(self.model@ == s.push(v));
                assert(!mm.dom().contains(id));
                assert(mm2.dom() =~= mm.dom().insert(id));
                assert forall|k: u64| mm2.dom().contains(k) implies exists|j: int|
                    0 <= j < self.model@.len() && R::spec_id(#[trigger] self.model@[j]) == k by {
                    if k == id {
                        assert(R::spec_id(self.model@[s.len() as int]) == k);
                    } else {
                        let j = choose|j: int|
                            0 <= j < s.len() && R::spec_id(#[trigger] s[j]) == k;
                        assert(R::spec_id(self.model@[j]) == k);
                    }
                }
            }
        }
    }

    /// A point lookup: the record stored under the id, if any.
    pub fn get(&self, id: u64) -> (r: Option<R>)
        requires
            self.wf(),
        ensures
            match r {
                Some(rec) => spec_find::<R>(self@.records, id) == Some(rec@),
                None => spec_find::<R>(self@.records, id) is None,
            },
    {
        match btree_get(&self.map, &id) {
            None => {
                proof {
                    if has_id::<R>(self@.records, id) {
                        let i = id_index::<R>(self@.records, id);
                        assert(map_model(self.map).dom().contains(id));
                    }
                }
                None
            },
            Some(bytes) => {
                proof {
                    let i = choose|i: int|
                        0 <= i < self.model@.len() && R::spec_id(#[trigger] self.model@[i]) == id;
                    assert(map_model(self.map).contains_pair(id, R::spec_enc(self.model@[i])));
                    assert(bytes@ == R::spec_enc(self.model@[i]));
                }
                let rec = R::decode(&bytes);
                let r = rec.unwrap();
                proof {
                    let i = id_index::<R>(self@.records, id);
                    assert(R::spec_id(self@.records[i]) == id);
                    assert(r@ == self@.records[i]);
                }
                Some(r)
            },
        }
    }

    /// Removes and returns the record stored under the id; the store is
    /// unchanged when no record carries it.
    pub fn remove(&mut self, id: u64) -> (r: Option<R>)
        requires
            old(self).wf(),
        ensures
            final(self).wf(),
            final(self)@.next == old(self)@.next,
            match r {
                Some(rec) => spec_find::<R>(old(self)@.records, id) == Some(rec@)
                    && final(self)@.records == old(self)@.records.remove(
                    id_index::<R>(old(self)@.records, id),
                ),
                None => spec_find::<R>(old(self)@.records, id) is None
                    && final(self)@ == old(self)@,
            },
    {
        let ghost s = self.model@;
        let ghost mm = map_model(self.map);
        let taken = btree_remove(&mut self.map, &id);
        match taken {
            None => {
                proof {
                    if has_id::<R>(s, id) {
                        let i = id_index::<R>(s, id);
                        assert(mm.dom().contains(id));
                    }
                    assert(map_model(self.map) =~= mm);
                }
                None
            },
            Some(bytes) => {
                proof {
                    let i = choose|i: int|
                        0 <= i < s.len() && R::spec_id(#[trigger] s[i]) == id;
                    assert(mm.contains_pair(id, R::spec_enc(s[i])));
                    assert(bytes@ == R::spec_enc(s[i]));
                }
                let rec = R::decode(&bytes);
                let r = rec.unwrap();
                let ghost i = id_index::<R>(s, id);
                self.model = Ghost(s.remove(i));
                proof {
                    assert(R::spec_id(s[i]) == id);
                    assert(r@ == s[i]);
                    let s2 = self.model@;
                    let mm2 = map_model(self.map);
                    assert(mm2.dom() =~= mm.dom().remove(id));
                    assert forall|j: int|
                        0 <= j < s2.len() implies mm2.contains_pair(
                        R::spec_id(#[trigger] s2[j]),
                        R::spec_enc(s2[j]),
                    ) by {
                        if j < i {
                            assert(s2[j] == s[j]);
                            assert(R::spec_id(s[j]) != id);
                        } else {
                            assert(s2[j] == s[j + 1]);
                            assert(R::spec_id(s[j + 1]) != id);
                        }
                    }
                    assert forall|k: u64| mm2.dom().contains(k) implies exists|j: int|
                        0 <= j < s2.len() && R::spec_id(#[trigger] s2[j]) == k by {
                        let j = choose|j: int|
                            0 <= j < s.len() && R::spec_id(#[trigger] s[j]) == k;
                        assert(j != i);
                        if j < i {
                            assert(R::spec_id(s2[j]) == k);
                        } else {
                            assert(R::spec_id(s2[j - 1]) == k);
                        }
                    }
                }
                Some(r)
            },
        }
    }

    /// Removes every record; the counter is not reset.
    pub fn clear(&mut self)
        requires
            old(self).wf(),
        ensures
            final(self).wf(),
            final(self)@.next == old(self)@.next,
            final(self)@.records.len() == 0,
    {
        btree_clear(&mut self.map);
        self.model = Ghost(Seq::empty());
        proof {
            assert(map_model(self.map).dom() =~= Set::empty());
        }
    }

    /// The last issued id: the counter's value.  Ids are exhausted when it
    /// reaches the largest 64-bit value; a caller checks this before asking
    /// for a fresh id.
    pub fn last_id(&self) -> (r: u64)
        ensures
            r == self@.next,
    {
        cell_get(&self.counter)
    }

    /// The number of records held.
    pub fn count(&self) -> (r: u64)
        requires
            self.wf(),
        ensures
            r == self@.records.len(),
    {
        btree_len(&self.map)
    }

    /// Every record, in ascending id order: a full scan of the durable map,
    /// decoding each record afresh.
    pub fn records(&self) -> (r: Vec<R>)
        requires
            self.wf(),
        ensures
            r@.len() == self@.records.len(),
            forall|i: int| 0 <= i < r@.len() ==> #[trigger] r@[i]@ == self@.records[i],
    {
        let entries = btree_entries(&self.map);
        let ghost s = self.model@;
        let ghost mm = map_model(self.map);
        let ghost keys = entries@.map_values(|e: (u64, Vec<u8>)| e.0);
        proof {
            assert(self@.records == s);
            assert forall|i: int, j: int| 0 <= i < j < s.len() implies #[trigger] R::spec_id(
                s[i],
            ) < #[trigger] R::spec_id(s[j]) by {
                assert(R::spec_id(self@.records[i]) < R::spec_id(self@.records[j]));
            }
            assert forall|i: int, j: int| 0 <= i < j < keys.len() implies keys[i] < keys[j] by {
                assert(keys[i] == entries@[i].0);
                assert(keys[j] == entries@[j].0);
            }
            assert forall|i: int| 0 <= i < keys.len() implies mm.dom().contains(
                #[trigger] keys[i],
            ) by {
                assert(mm.contains_pair(entries@[i].0, entries@[i].1@));
                assert(keys[i] == entries@[i].0);
            }
            assert forall|k: u64| mm.dom().contains(k) implies exists|i: int|
                0 <= i < keys.len() && #[trigger] keys[i] == k by {
                let i = choose|i: int| 0 <= i < entries@.len() && entries@[i].0 == k;
                assert(keys[i] == k);
            }
            lemma_sorted_ids_align::<R>(s, keys, mm);
            assert forall|i: int| 0 <= i < entries@.len() implies #[trigger] entries@[i].0
                == R::spec_id(s[i]) by {
                assert(keys[i] == entries@[i].0);
            }
        }
        let mut out: Vec<R> = Vec::new();
        let mut idx: usize = 0;
        while idx < entries.len()
            invariant
                self.wf(),
                s == self.model@,
                mm == map_model(self.map),
                entries@.len() == s.len(),
                forall|i: int|
                    0 <= i < entries@.len() ==> mm.contains_pair(
                        #[trigger] entries@[i].0,
                        entries@[i].1@,
                    ),
                forall|i: int|
                    0 <= i < entries@.len() ==> #[trigger] entries@[i].0 == R::spec_id(s[i]),
                idx <= entries@.len(),
                out@.len() == idx,
                forall|i: int| 0 <= i < idx ==> #[trigger] out@[i]@ == s[i],
            decreases entries@.len() - idx,
        {
            let e = &entries[idx];
            proof {
                assert(R::spec_valid(self@.records[idx as int]));
                assert(mm.contains_pair(entries@[idx as int].0, entries@[idx as int].1@));
                assert(entries@[idx as int].0 == R::spec_id(s[idx as int]));
                assert(mm.contains_pair(R::spec_id(s[idx as int]), R::spec_enc(s[idx as int])));
                assert(e.1@ == R::spec_enc(s[idx as int]));
            }
            let rec = R::decode(&e.1);
            let r = rec.unwrap();
            proof {
                assert(r@ == s[idx as int]);
            }
            out.push(r);
            idx = idx + 1;
        }
        out
    }
}

/// Two strictly ascending listings of the same finite id set agree pointwise:
/// the map's keys in order are exactly the model's ids in order.
proof fn lemma_sorted_ids_align<R: Record>(s: Seq<R::V>, keys: Seq<u64>, mm: Map<u64, Seq<u8>>)
    requires
        forall|i: int, j: int|
            0 <= i < j < s.len() ==> #[trigger] R::spec_id(s[i]) < #[trigger] R::spec_id(s[j]),
        forall|i: int, j: int| 0 <= i < j < keys.len() ==> keys[i] < keys[j],
        s.len() == keys.len(),
        forall|i: int| 0 <= i < keys.len() ==> mm.dom().contains(#[trigger] keys[i]),
        forall|k: u64|
            mm.dom().contains(k) ==> exists|i: int|
                0 <= i < s.len() && R::spec_id(#[trigger] s[i]) == k,
        forall|k: u64|
            mm.dom().contains(k) ==> exists|i: int| 0 <= i < keys.len() && #[trigger] keys[i]
                == k,
        forall|i: int|
            0 <= i < s.len() ==> mm.contains_pair(
                R::spec_id(#[trigger] s[i]),
                R::spec_enc(s[i]),
            ),
    ensures
        forall|i: int| 0 <= i < s.len() ==> #[trigger] keys[i] == R::spec_id(s[i]),
    decreases s.len(),
{
    if s.len() > 0 {
        let last = s.len() - 1;
        assert(keys[last] == R::spec_id(s[last])) by {
            assert(mm.dom().contains(keys[last]));
            let i = choose|i: int|
                0 <= i < s.len() && R::spec_id(#[trigger] s[i]) == keys[last];
            if i < last {
                assert(R::spec_id(s[i]) < R::spec_id(s[last]));
            }
            assert(mm.dom().contains(R::spec_id(s[last])));
            let j = choose|j: int|
                0 <= j < keys.len() && #[trigger] keys[j] == R::spec_id(s[last]);
            if j < last {
                assert(keys[j] < keys[last]);
            }
        };
        let s1 = s.drop_last();
        let keys1 = keys.drop_last();
        let mm1 = mm.remove(keys[last]);
        assert forall|i: int| 0 <= i < keys1.len() implies mm1.dom().contains(
            #[trigger] keys1[i],
        ) by {
            assert(keys1[i] == keys[i]);
            assert(keys[i] < keys[last]);
        }
        assert forall|k: u64| mm1.dom().contains(k) implies exists|i: int|
            0 <= i < s1.len() && R::spec_id(#[trigger] s1[i]) == k by {
            let i = choose|i: int| 0 <= i < s.len() && R::spec_id(#[trigger] s[i]) == k;
            assert(k != keys[last]);
            assert(i != last);
            assert(R::spec_id(s1[i]) == k);
        }
        assert forall|k: u64| mm1.dom().contains(k) implies exists|i: int|
            0 <= i < keys1.len() && #[trigger] keys1[i] == k by {
            let i = choose|i: int| 0 <= i < keys.len() && #[trigger] keys[i] == k;
            assert(k != keys[last]);
            assert(i != last);
            assert(keys1[i] == k);
        }
        assert forall|i: int| 0 <= i < s1.len() implies mm1.contains_pair(
            R::spec_id(#[trigger] s1[i]),
            R::spec_enc(s1[i]),
        ) by {
            assert(s1[i] == s[i]);
            assert(R::spec_id(s[i]) < R::spec_id(s[last]));
        }
        lemma_sorted_ids_align::<R>(s1, keys1, mm1);
        assert forall|i: int| 0 <= i < s.len() implies #[trigger] keys[i] == R::spec_id(
            s[i],
        ) by {
            if i < last {
                assert(keys1[i] == R::spec_id(s1[i]));
            }
        }
    }
}

/// After a run of successful creates on a fresh store — the counter read
/// zero and nothing was deleted, so the store holds as many records as ids
/// were issued — the ids are exactly one through the count, in creation
/// order.
pub proof fn lemma_ids_initial_segment<R: Record>(v: StoreView<R::V>)
    requires
        view_wf::<R>(v),
        v.records.len() == v.next,
    ensures
        forall|i: int| 0 <= i < v.records.len() ==> R::spec_id(#[trigger] v.records[i]) == i + 1,
{
    assert forall|i: int| 0 <= i < v.records.len() implies R::spec_id(#[trigger] v.records[i])
        == i + 1 by {
        lemma_ids_lower::<R>(v, i);
        lemma_ids_upper::<R>(v, i);
    }
}

proof fn lemma_ids_lower<R: Record>(v: StoreView<R::V>, i: int)
    requires
        view_wf::<R>(v),
        0 <= i < v.records.len(),
    ensures
        R::spec_id(v.records[i]) >= i + 1,
    decreases i,
{
    if i > 0 {
        lemma_ids_lower::<R>(v, i - 1);
    }
}

proof fn lemma_ids_upper<R: Record>(v: StoreView<R::V>, i: int)
    requires
        view_wf::<R>(v),
        0 <= i < v.records.len(),
    ensures
        R::spec_id(v.records[i]) <= v.next - (v.records.len() - 1 - i),
    decreases v.records.len() - i,
{
    if i < v.records.len() - 1 {
        lemma_ids_upper::<R>(v, i + 1);
    }
}

/// A record stored under a fresh id is found under that id right after: the
/// create-then-read round trip.
pub proof fn lemma_find_after_put_fresh<R: Record>(s: Seq<R::V>, v: R::V)
    requires
        forall|i: int| 0 <= i < s.len() ==> R::spec_id(#[trigger] s[i]) < R::spec_id(v),
    ensures
        spec_put::<R>(s, v) == s.push(v),
        spec_find::<R>(spec_put::<R>(s, v), R::spec_id(v)) == Some(v),
{
    let id = R::spec_id(v);
    assert(!has_id::<R>(s, id));
    let s2 = s.push(v);
    assert(R::spec_id(s2[s.len() as int]) == id);
    assert(has_id::<R>(s2, id));
    let i = id_index::<R>(s2, id);
    assert(0 <= i < s2.len() && R::spec_id(s2[i]) == id);
    assert(i == s.len());
}

/// After a delete, a lookup of the deleted id finds nothing.
pub proof fn lemma_find_after_remove<R: Record>(s: Seq<R::V>, id: u64)
    requires
        forall|i: int, j: int|
            0 <= i < j < s.len() ==> #[trigger] R::spec_id(s[i]) < #[trigger] R::spec_id(s[j]),
        has_id::<R>(s, id),
    ensures
        spec_find::<R>(s.remove(id_index::<R>(s, id)), id) is None,
{
    let i = id_index::<R>(s, id);
    assert(0 <= i < s.len() && R::spec_id(s[i]) == id);
    let s2 = s.remove(i);
    if has_id::<R>(s2, id) {
        let j = id_index::<R>(s2, id);
        assert(0 <= j < s2.len() && R::spec_id(s2[j]) == id);
        if j < i {
            assert(s2[j] == s[j]);
            assert(R::spec_id(s[j]) < R::spec_id(s[i]));
        } else {
            assert(s2[j] == s[j + 1]);
            assert(R::spec_id(s[i]) < R::spec_id(s[j + 1]));
        }
    }
}

/// Ids never outlive the counter: every stored id is at most the last issued
/// one, so a create after any history — a clear included — yields an id
/// strictly above every id the store ever held.
pub proof fn lemma_ids_below_counter<R: Record>(v: StoreView<R::V>)
    requires
        view_wf::<R>(v),
    ensures
        forall|i: int|
            0 <= i < v.records.len() ==> R::spec_id(#[trigger] v.records[i]) < v.next + 1,
{
}

} // verus!
