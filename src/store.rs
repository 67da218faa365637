//! The durable regions: three maps from `u64` keys to record bytes, for
//! events, tickets and blobs, and one cell for the identifier counter, each in
//! its own virtual memory of one stable memory.
//!
//! The contracts below speak of what a region holds as a value of the region
//! handle. That holds while the handle is the only one writing to its
//! memory, which is how `TicketOffice::open` uses them: its caller gives the
//! memory to that one office.
//!
//! Loading a memory, a map or a cell whose header names a layout this
//! release does not read traps. The library therefore reads the first bytes
//! of each memory first and opens it only where the header is one that loads
//! (`manager_header_ok`, `map_header_ok`, `cell_header_ok`).
use vstd::prelude::*;
use ic_stable_structures::memory_manager::{MemoryId, MemoryManager, VirtualMemory};
use ic_stable_structures::{DefaultMemoryImpl, Memory, StableBTreeMap};

verus! {

/// Makes `RefCell` known, as off-chain `DefaultMemoryImpl` is
/// `Rc<RefCell<Vec<u8>>>` and stands in `TicketOffice::open`'s signature.
#[verifier::external_type_specification]
#[verifier::external_body]
#[verifier::reject_recursive_types(T)]
pub struct ExRefCell<T: ?Sized>(std::cell::RefCell<T>);

/// One stable memory shared out among the regions by a `MemoryManager`.
#[verifier::external_body]
pub struct StableMemory {
    manager: MemoryManager<DefaultMemoryImpl>,
}

/// A durable map from keys to record bytes: a `StableBTreeMap` in one
/// virtual memory.
#[verifier::external_body]
pub struct Region {
    map: StableBTreeMap<u64, Vec<u8>, VirtualMemory<DefaultMemoryImpl>>,
}

/// A durable `u64`: a stable `Cell` in one virtual memory.
#[verifier::external_body]
pub struct Counter {
    cell: ic_stable_structures::Cell<u64, VirtualMemory<DefaultMemoryImpl>>,
}

/// What a region holds, while its handle is the only writer to its memory.
pub uninterp spec fn region_contents(r: Region) -> Map<u64, Seq<u8>>;

/// What a counter holds.
pub uninterp spec fn counter_value(c: Counter) -> u64;

/// A stable memory before it is shared out.
#[verifier::external_body]
pub struct RawMemory {
    memory: DefaultMemoryImpl,
}

/// One virtual memory of a `MemoryManager`.
#[verifier::external_body]
pub struct RegionMemory {
    memory: VirtualMemory<DefaultMemoryImpl>,
}

/// The bytes a stable memory holds: its pages of 64 KiB, in order.
pub uninterp spec fn raw_bytes(m: RawMemory) -> Seq<u8>;

/// The bytes a virtual memory holds: its pages of 64 KiB, in order.
pub uninterp spec fn region_bytes(m: RegionMemory) -> Seq<u8>;

/// The number of bytes in a header that the checks below read.
pub const HEADER_LEN: usize = 56;

/// The first bytes of a memory, or none when it has no pages.
pub open spec fn header_of(bytes: Seq<u8>) -> Seq<u8> {
    if bytes.len() == 0 {
        Seq::empty()
    } else {
        bytes.subrange(0, HEADER_LEN as int)
    }
}

/// `h` starts with the three bytes `a`, `b`, `c`.
pub open spec fn has_magic(h: Seq<u8>, a: u8, b: u8, c: u8) -> bool {
    h.len() >= 3 && h[0] == a && h[1] == b && h[2] == c
}

/// `MemoryManager::init` loads this header without trapping: no pages, no
/// "MGR" magic (a new manager is made), or layout version 1.
pub open spec fn manager_header_ok(h: Seq<u8>) -> bool {
    h.len() == 0 || (h.len() >= 4 && (!has_magic(h, 77, 71, 82) || h[3] == 1))
}

/// `StableBTreeMap::init` loads this header without trapping: no pages, no
/// "BTR" magic (a new map is made), or layout version 1 or 2 with an
/// allocator of magic "BTA" and version 1 at byte 52.
pub open spec fn map_header_ok(h: Seq<u8>) -> bool {
    h.len() == 0 || (h.len() >= HEADER_LEN && (!has_magic(h, 66, 84, 82) || ((h[3] == 1 || h[3] == 2)
        && h[52] == 66 && h[53] == 84 && h[54] == 65 && h[55] == 1)))
}

/// `Cell::init` of a `u64` loads this header without trapping: no pages, no
/// "SCL" magic (a new cell is made), or layout version 1 holding eight bytes.
pub open spec fn cell_header_ok(h: Seq<u8>) -> bool {
    h.len() == 0 || (h.len() >= 8 && (!has_magic(h, 83, 67, 76) || (h[3] == 1 && h[4] == 8 && h[5] == 0
        && h[6] == 0 && h[7] == 0)))
}

/// Takes a stable memory for reading its header and sharing it out.
#[verifier::external_body]
pub(crate) fn raw_memory(memory: DefaultMemoryImpl) -> RawMemory {
    RawMemory { memory }
}

/// Relies on `Memory::size`: the memory's size in pages of 64 KiB.
#[verifier::external_body]
pub(crate) fn raw_pages(m: &RawMemory) -> (pages: u64)
    ensures
        pages as int * 65536 == raw_bytes(*m).len(),
{
    m.memory.size()
}

/// Relies on `Memory::read`: the `len` bytes from `offset`, which must lie
/// within the memory (it traps otherwise).
#[verifier::external_body]
pub(crate) fn raw_read(m: &RawMemory, offset: u64, len: usize) -> (r: Vec<u8>)
    requires
        offset + len <= raw_bytes(*m).len(),
    ensures
        r@ == raw_bytes(*m).subrange(offset as int, offset + len),
{
    let mut buf = vec![0u8; len];
    m.memory.read(offset, &mut buf);
    buf
}

/// Relies on `MemoryManager::init`: shares the memory out among virtual
/// memories; it loads without trapping on a header that `manager_header_ok`
/// accepts.
#[verifier::external_body]
pub(crate) fn open_stable_memory(m: RawMemory) -> StableMemory
    requires
        manager_header_ok(header_of(raw_bytes(m))),
{
    StableMemory { manager: MemoryManager::init(m.memory) }
}

/// Relies on `MemoryManager::get`: the virtual memory `id` (`MemoryId::new`
/// refuses 255 only).
#[verifier::external_body]
pub(crate) fn region_memory(memory: &StableMemory, id: u8) -> RegionMemory
    requires
        id < 255,
{
    RegionMemory { memory: memory.manager.get(MemoryId::new(id)) }
}

/// Relies on `Memory::size` of a virtual memory: its size in pages of 64 KiB.
#[verifier::external_body]
pub(crate) fn region_pages(m: &RegionMemory) -> (pages: u64)
    ensures
        pages as int * 65536 == region_bytes(*m).len(),
{
    m.memory.size()
}

/// Relies on `Memory::read` of a virtual memory: the `len` bytes from
/// `offset`, which must lie within it (it traps otherwise).
#[verifier::external_body]
pub(crate) fn region_read(m: &RegionMemory, offset: u64, len: usize) -> (r: Vec<u8>)
    requires
        offset + len <= region_bytes(*m).len(),
    ensures
        r@ == region_bytes(*m).subrange(offset as int, offset + len),
{
    let mut buf = vec![0u8; len];
    m.memory.read(offset, &mut buf);
    buf
}

/// Relies on `StableBTreeMap::init`: loads the map kept in `m`, or makes an
/// empty one; it loads without trapping on a header that `map_header_ok`
/// accepts.
#[verifier::external_body]
pub(crate) fn open_region(m: RegionMemory) -> Region
    requires
        map_header_ok(header_of(region_bytes(m))),
{
    Region { map: StableBTreeMap::init(m.memory) }
}

/// Relies on `Cell::init`: loads the value kept in `m`, or stores `initial`
/// there; it loads without trapping on a header that `cell_header_ok` accepts.
#[verifier::external_body]
pub(crate) fn open_counter(m: RegionMemory, initial: u64) -> Counter
    requires
        cell_header_ok(header_of(region_bytes(m))),
{
    Counter { cell: ic_stable_structures::Cell::init(m.memory, initial) }
}

/// The header of a stable memory.
pub(crate) fn raw_header(m: &RawMemory) -> (h: Vec<u8>)
    ensures
        h@ == header_of(raw_bytes(*m)),
{
    if raw_pages(m) == 0 {
        Vec::new()
    } else {
        raw_read(m, 0, HEADER_LEN)
    }
}

/// The header of a virtual memory.
pub(crate) fn region_header(m: &RegionMemory) -> (h: Vec<u8>)
    ensures
        h@ == header_of(region_bytes(*m)),
{
    if region_pages(m) == 0 {
        Vec::new()
    } else {
        region_read(m, 0, HEADER_LEN)
    }
}

fn magic_is(h: &Vec<u8>, a: u8, b: u8, c: u8) -> (r: bool)
    ensures
        r == has_magic(h@, a, b, c),
{
    h.len() >= 3 && h[0] == a && h[1] == b && h[2] == c
}

/// Whether a stable memory's header loads.
pub fn manager_header_loads(h: &Vec<u8>) -> (r: bool)
    ensures
        r == manager_header_ok(h@),
{
    h.len() == 0 || (h.len() >= 4 && (!magic_is(h, 77, 71, 82) || h[3] == 1))
}

/// Whether a map's header loads.
pub fn map_header_loads(h: &Vec<u8>) -> (r: bool)
    ensures
        r == map_header_ok(h@),
{
    h.len() == 0 || (h.len() >= HEADER_LEN && (!magic_is(h, 66, 84, 82) || ((h[3] == 1 || h[3] == 2)
        && h[52] == 66 && h[53] == 84 && h[54] == 65 && h[55] == 1)))
}

/// Whether a counter cell's header loads.
pub fn cell_header_loads(h: &Vec<u8>) -> (r: bool)
    ensures
        r == cell_header_ok(h@),
{
    h.len() == 0 || (h.len() >= 8 && (!magic_is(h, 83, 67, 76) || (h[3] == 1 && h[4] == 8 && h[5] == 0
        && h[6] == 0 && h[7] == 0)))
}

/// Relies on `StableBTreeMap::insert`: the key maps to the value afterwards,
/// every other key is unchanged, with `r` the only writer to its memory.
#[verifier::external_body]
pub(crate) fn region_insert(r: &mut Region, key: u64, value: Vec<u8>)
    ensures
        region_contents(*final(r)) == region_contents(*old(r)).insert(key, value@),
{
    r.map.insert(key, value);
}

/// Relies on `StableBTreeMap::get`: the value under `key`, if any, with `r`
/// the only writer to its memory.
#[verifier::external_body]
pub(crate) fn region_get(r: &Region, key: u64) -> (v: Option<Vec<u8>>)
    ensures
        match v {
            Some(b) => region_contents(*r).contains_key(key) && region_contents(*r)[key] == b@,
            None => !region_contents(*r).contains_key(key),
        },
{
    r.map.get(&key)
}

/// Relies on `StableBTreeMap::keys`: every key once, in increasing order.
#[verifier::external_body]
pub(crate) fn region_keys(r: &Region) -> (ks: Vec<u64>)
    ensures
        forall|i: int, j: int| 0 <= i < j < ks@.len() ==> ks@[i] < ks@[j],
        forall|k: u64| region_contents(*r).contains_key(k) <==> ks@.contains(k),
{
    r.map.keys().collect()
}

/// Relies on `Cell::get`: the value held.
#[verifier::external_body]
pub(crate) fn counter_get(c: &Counter) -> (v: u64)
    ensures
        v == counter_value(*c),
{
    *c.cell.get()
}

/// Relies on `Cell::set`: the cell holds `value` afterwards.
#[verifier::external_body]
pub(crate) fn counter_set(c: &mut Counter, value: u64)
    ensures
        counter_value(*final(c)) == value,
{
    c.cell.set(value);
}

} // verus!
