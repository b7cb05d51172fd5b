//! The stable-memory substrate: one linear memory split into regions by a memory manager, a
//! cell holding the next-identifier counter, and sorted maps from `u64` keys to bytes.
use vstd::prelude::*;
use ic_stable_structures::cell::{InitError, ValueError};
use ic_stable_structures::memory_manager::{MemoryId, MemoryManager, VirtualMemory};
use ic_stable_structures::{Cell, DefaultMemoryImpl, StableBTreeMap};

verus! {

#[verifier::external_type_specification]
#[verifier::external_body]
pub struct ExValueError(ValueError);

#[verifier::external_type_specification]
#[verifier::external_body]
pub struct ExInitError(InitError);

/// The linear memory that all regions live in.
#[verifier::external_body]
pub struct Backing {
    mem: DefaultMemoryImpl,
}

/// The region multiplexer over a `Backing`.
#[verifier::external_body]
pub struct Manager {
    mm: MemoryManager<DefaultMemoryImpl>,
}

/// One region of a `Backing`.
#[verifier::external_body]
pub struct Region {
    mem: VirtualMemory<DefaultMemoryImpl>,
}

/// A sorted map from `u64` keys to byte strings, kept in one region.
#[verifier::external_body]
pub struct ByteMap {
    map: StableBTreeMap<u64, Vec<u8>, VirtualMemory<DefaultMemoryImpl>>,
}

/// A persisted `u64`, kept in one region.
#[verifier::external_body]
pub struct IdCell {
    cell: Cell<u64, VirtualMemory<DefaultMemoryImpl>>,
}

/// What a map holds.
pub uninterp spec fn map_entries(m: ByteMap) -> Map<u64, Seq<u8>>;

/// What a cell holds.
pub uninterp spec fn cell_value(c: IdCell) -> u64;

/// Relies on `DefaultMemoryImpl::default`: the host's linear memory (stable memory on the
/// Internet Computer, which keeps its contents across upgrades; a new vector elsewhere).
#[verifier::external_body]
pub(crate) fn default_memory() -> (r: Backing) {
    Backing { mem: DefaultMemoryImpl::default() }
}

/// Relies on `MemoryManager::init`: loads the region layout that the memory holds, or writes a
/// new one. The manager works on a shared handle to the same memory.
#[verifier::external_body]
pub(crate) fn manager_init(b: &Backing) -> (r: Manager) {
    Manager { mm: MemoryManager::init(b.mem.clone()) }
}

/// Relies on `MemoryManager::get`: the region `id`. `MemoryId::new` refuses 255, the marker of
/// an unallocated bucket.
#[verifier::external_body]
pub(crate) fn region(m: &Manager, id: u8) -> (r: Region)
    requires
        id != 255,
{
    Region { mem: m.mm.get(MemoryId::new(id)) }
}

/// Relies on `Cell::init`: loads the value that the region holds, or writes `default` into an
/// empty region. Nothing is promised of the value: it depends on what the memory holds.
#[verifier::external_body]
pub(crate) fn cell_init(r: Region, default: u64) -> (res: Result<IdCell, InitError>) {
    Cell::init(r.mem, default).map(|cell| IdCell { cell })
}

/// Relies on `StableBTreeMap::init`: loads the map that the region holds, or starts an empty
/// one. Nothing is promised of the contents: they depend on what the memory holds.
#[verifier::external_body]
pub(crate) fn map_init(r: Region) -> (res: ByteMap) {
    ByteMap { map: StableBTreeMap::init(r.mem) }
}

/// Relies on `Cell::into_memory` and `Cell::init`: a cell re-read from its own region holds the
/// value that the last `set` wrote there (`set` writes the value before it returns). The region
/// already holds a cell header of this layout version, so `init` does not fail.
#[verifier::external_body]
pub(crate) fn cell_reload(c: IdCell) -> (res: Result<IdCell, InitError>)
    ensures
        res matches Ok(n) ==> cell_value(n) == cell_value(c),
        res is Ok,
{
    Cell::init(c.cell.into_memory(), 0).map(|cell| IdCell { cell })
}

/// Relies on `StableBTreeMap::into_memory` and `StableBTreeMap::init`: a map re-read from its own
/// region holds the entries that were written there (each insert saves the map's header).
#[verifier::external_body]
pub(crate) fn map_reload(m: ByteMap) -> (res: ByteMap)
    ensures
        map_entries(res) == map_entries(m),
{
    ByteMap { map: StableBTreeMap::init(m.map.into_memory()) }
}

/// Relies on `Cell::get`: the value held.
#[verifier::external_body]
pub(crate) fn cell_get(c: &IdCell) -> (r: u64)
    ensures
        r == cell_value(*c),
{
    *c.cell.get()
}

/// Relies on `Cell::set`: the cell holds `v` and the old value comes back. It fails only for a
/// value over `u32::MAX` bytes or when the memory cannot grow; an eight-byte `u64` fits the page
/// that `Cell::init` already wrote, so it does not fail.
#[verifier::external_body]
pub(crate) fn cell_set(c: &mut IdCell, v: u64) -> (r: Result<u64, ValueError>)
    ensures
        r matches Ok(prev) ==> prev == cell_value(*old(c)) && cell_value(*final(c)) == v,
        r is Ok,
{
    c.cell.set(v)
}

/// Relies on `StableBTreeMap::get`: the value under `k`, if any.
#[verifier::external_body]
pub(crate) fn map_get(m: &ByteMap, k: u64) -> (r: Option<Vec<u8>>)
    ensures
        r is Some <==> map_entries(*m).contains_key(k),
        r matches Some(v) ==> v@ == map_entries(*m)[k],
{
    m.map.get(&k)
}

/// Relies on `StableBTreeMap::contains_key`.
#[verifier::external_body]
pub(crate) fn map_contains(m: &ByteMap, k: u64) -> (r: bool)
    ensures
        r == map_entries(*m).contains_key(k),
{
    m.map.contains_key(&k)
}

/// Relies on `StableBTreeMap::insert`: `k` now maps to `v`, and the value it replaced, if any,
/// comes back. The call aborts the process, as a fatal allocation error, when the memory cannot
/// grow; it returns only once the entry is written.
#[verifier::external_body]
pub(crate) fn map_insert(m: &mut ByteMap, k: u64, v: Vec<u8>) -> (r: Option<Vec<u8>>)
    ensures
        map_entries(*final(m)) == map_entries(*old(m)).insert(k, v@),
        r is Some <==> map_entries(*old(m)).contains_key(k),
        r matches Some(p) ==> p@ == map_entries(*old(m))[k],
{
    m.map.insert(k, v)
}

/// Keys in strictly ascending order.
pub open spec fn keys_ascending(s: Seq<(u64, Vec<u8>)>) -> bool {
    forall|i: int, j: int| 0 <= i < j < s.len() ==> s[i].0 < s[j].0
}

/// `s` lists exactly the entries of `m`.
pub open spec fn lists_entries(s: Seq<(u64, Vec<u8>)>, m: Map<u64, Seq<u8>>) -> bool {
    &&& forall|i: int| 0 <= i < s.len() ==> #[trigger] m.contains_key(s[i].0) && m[s[i].0] == s[i].1@
    &&& forall|k: u64| #[trigger] m.contains_key(k) ==> exists|i: int| 0 <= i < s.len() && s[i].0 == k
}

/// Relies on `StableBTreeMap::iter`: every entry once, in ascending key order.
#[verifier::external_body]
pub(crate) fn map_entries_ascending(m: &ByteMap) -> (r: Vec<(u64, Vec<u8>)>)
    ensures
        keys_ascending(r@),
        lists_entries(r@, map_entries(*m)),
{
    m.map.iter().collect()
}

} // verus!
