//! Trusted boundary to the durable storage substrate.
//!
//! A store keeps its records in a `StableBTreeMap<u64, Vec<u8>, _>` and its id
//! counter in a `Cell<u64, _>` of the `ic_stable_structures` crate.  Verus
//! cannot take those types directly (their bounds are traits of the outside
//! crate), so each one sits in a private field of an opaque struct below; the
//! spec functions `map_model` and `cell_value` name what they hold, and each
//! wrapper states over those names what the outside crate's source shows for
//! the one call its body makes.
//!
//! Exhaustion or corruption of the underlying memory makes these calls trap
//! inside the outside crate; that is the substrate's documented fatal
//! condition, outside this library's contracts.
use vstd::prelude::*;

verus! {

/// A virtual region of the memory manager, as the hosting runtime provides
/// it: an opaque handle bound to a store at initialization.
#[verifier::external_body]
pub struct Region {
    inner: ic_stable_structures::memory_manager::VirtualMemory<
        ic_stable_structures::DefaultMemoryImpl,
    >,
}

/// The durable record map: record id to encoded record bytes.
#[verifier::external_body]
pub struct ByteMap {
    inner: ic_stable_structures::StableBTreeMap<
        u64,
        Vec<u8>,
        ic_stable_structures::memory_manager::VirtualMemory<
            ic_stable_structures::DefaultMemoryImpl,
        >,
    >,
}

/// The durable counter cell.
#[verifier::external_body]
pub struct CounterCell {
    inner: ic_stable_structures::Cell<
        u64,
        ic_stable_structures::memory_manager::VirtualMemory<
            ic_stable_structures::DefaultMemoryImpl,
        >,
    >,
}

/// The memory manager that multiplexes the runtime's memory into numbered
/// regions, assigned once at initialization.
#[verifier::external_body]
pub struct RegionPool {
    inner: ic_stable_structures::memory_manager::MemoryManager<
        ic_stable_structures::DefaultMemoryImpl,
    >,
}

impl RegionPool {
    /// Relies on `MemoryManager::init` over the runtime's default memory:
    /// opens the manager stored there, or a fresh one.
    #[verifier::external_body]
    pub fn new() -> RegionPool {
        RegionPool {
            inner: ic_stable_structures::memory_manager::MemoryManager::init(
                ic_stable_structures::DefaultMemoryImpl::default(),
            ),
        }
    }

    /// Relies on `MemoryManager::get`: returns the virtual region of the
    /// given id.  Id 255 is the manager's reserved unallocated-bucket
    /// marker, which `MemoryId::new` refuses.  Distinct ids give
    /// non-overlapping regions; ask for each id at most once per pool, and
    /// bind each region to at most one structure — two handles of one id
    /// would be views of the same bytes, unseen by each other's model.
    #[verifier::external_body]
    pub fn region(&self, id: u8) -> Region
        requires
            id != 255,
    {
        Region {
            inner: self.inner.get(
                ic_stable_structures::memory_manager::MemoryId::new(id),
            ),
        }
    }
}

/// What a record map holds: id to encoded bytes.
pub uninterp spec fn map_model(m: ByteMap) -> Map<u64, Seq<u8>>;

/// What a counter cell holds.
pub uninterp spec fn cell_value(c: CounterCell) -> u64;

/// Relies on `BTreeMap::init`: opens the map stored in the region, or an
/// empty one if the region holds none.  Either way the map holds finitely
/// many entries.
#[verifier::external_body]
pub(crate) fn btree_init(region: Region) -> (r: ByteMap)
    ensures
        map_model(r).dom().finite(),
{
    ByteMap { inner: ic_stable_structures::StableBTreeMap::init(region.inner) }
}

/// Relies on `BTreeMap::insert`: stores the value under the key, replacing
/// and returning any previous value.
#[verifier::external_body]
pub(crate) fn btree_insert(m: &mut ByteMap, key: u64, value: Vec<u8>) -> (r: Option<Vec<u8>>)
    ensures
        map_model(*final(m)) == map_model(*old(m)).insert(key, value@),
        match r {
            Some(prev) => map_model(*old(m)).contains_pair(key, prev@),
            None => !map_model(*old(m)).dom().contains(key),
        },
{
    m.inner.insert(key, value)
}

/// Relies on `BTreeMap::get`: returns the value stored under the key, if any.
#[verifier::external_body]
pub(crate) fn btree_get(m: &ByteMap, key: &u64) -> (r: Option<Vec<u8>>)
    ensures
        match r {
            Some(v) => map_model(*m).contains_pair(*key, v@),
            None => !map_model(*m).dom().contains(*key),
        },
{
    m.inner.get(key)
}

/// Relies on `BTreeMap::remove`: removes the entry under the key and returns
/// its value, if any.
#[verifier::external_body]
pub(crate) fn btree_remove(m: &mut ByteMap, key: &u64) -> (r: Option<Vec<u8>>)
    ensures
        map_model(*final(m)) == map_model(*old(m)).remove(*key),
        match r {
            Some(v) => map_model(*old(m)).contains_pair(*key, v@),
            None => !map_model(*old(m)).dom().contains(*key),
        },
{
    m.inner.remove(key)
}

/// Relies on `BTreeMap::len`: the number of entries in the map.
#[verifier::external_body]
pub(crate) fn btree_len(m: &ByteMap) -> (r: u64)
    ensures
        r as nat == map_model(*m).dom().len(),
{
    m.inner.len()
}

/// Relies on `BTreeMap::clear_new`: removes every entry.
#[verifier::external_body]
pub(crate) fn btree_clear(m: &mut ByteMap)
    ensures
        forall|k: u64| !map_model(*final(m)).dom().contains(k),
{
    m.inner.clear_new()
}

/// Relies on `BTreeMap::iter`: yields every entry exactly once, in ascending
/// key order; `LazyEntry::into_pair` converts each entry to an owned pair.
#[verifier::external_body]
pub(crate) fn btree_entries(m: &ByteMap) -> (r: Vec<(u64, Vec<u8>)>)
    ensures
        r@.len() == map_model(*m).dom().len(),
        forall|i: int|
            0 <= i < r@.len() ==> map_model(*m).contains_pair(#[trigger] r@[i].0, r@[i].1@),
        forall|i: int, j: int| 0 <= i < j < r@.len() ==> r@[i].0 < r@[j].0,
        forall|k: u64|
            map_model(*m).dom().contains(k) ==> exists|i: int| 0 <= i < r@.len() && r@[i].0 == k,
{
    m.inner.iter().map(|e| e.into_pair()).collect()
}

/// Relies on `Cell::init`: opens the cell stored in the region, or one
/// holding the given default if the region holds none.
#[verifier::external_body]
pub(crate) fn cell_init(region: Region, default_value: u64) -> CounterCell {
    CounterCell { inner: ic_stable_structures::Cell::init(region.inner, default_value) }
}

/// Relies on `Cell::get`: the value the cell holds.
#[verifier::external_body]
pub(crate) fn cell_get(c: &CounterCell) -> (r: u64)
    ensures
        r == cell_value(*c),
{
    *c.inner.get()
}

/// Relies on `Cell::set`: writes the new value durably and returns the
/// previous one.
#[verifier::external_body]
pub(crate) fn cell_set(c: &mut CounterCell, value: u64) -> (r: u64)
    ensures
        cell_value(*final(c)) == value,
        r == cell_value(*old(c)),
{
    c.inner.set(value)
}

} // verus!
