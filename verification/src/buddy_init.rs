//! Building the buddy allocator from the bootloader's memory map.
use vstd::prelude::*;
use crate::addr::PhysAddr;
use crate::buddy::{
    blocks_disjoint, buddy_ok, coalesced, free_pages, is_free, order_of, pages_from, picks_holding, split_block,
    zones_wf, BuddyAllocator, Zones,
};
use crate::buddy_laws::law_allocate_at;
use crate::levels::{
    block_holds, half_space, level_bytes, level_pages, lemma_level_next,
    BASIC_PAGE_SIZE,
};
use crate::memmap::{
    addressable_pages, entry_end, find_usable, find_usable_checked, first_usable_of,
    get_page_count_from_mem_map, is_usable, last_counted_index, mem_map_check,
    counted, last_counted, lemma_first_usable_of, lemma_last_counted, mem_map_ok, MemMapEntry,
    MemoryKind,
};

verus! {

/// Size of the area of the bookkeeping buffer that holds the free-list nodes.
pub const FREELIST_BUCKETS_SIZE: usize = 0x200000;

/// Size of a zone's list head in the bookkeeping buffer.
pub const ZONE_HEAD_SIZE: usize = 16;

/// Alignment of a free-list node in the bookkeeping buffer.
pub const FREELIST_NODE_ALIGN: usize = 8;

/// The floor of the base-2 logarithm of `n`, for `n >= 1`.
#[verifier::opaque]
pub open spec fn log2_floor(n: int) -> nat
    decreases n,
{
    if n <= 1 {
        0
    } else {
        1 + log2_floor(n / 2)
    }
}

/// The number of zones for `page_count` addressable pages: enough for a
/// block of all of them.
pub open spec fn zone_count_for(page_count: int) -> nat {
    log2_floor(page_count) + 1
}

/// The size of the bookkeeping buffer for `zone_count` zones: the zone list
/// heads, padded to a node's alignment, and the free-list nodes.
pub open spec fn bookkeeping_bytes(zone_count: int) -> int {
    let heads = zone_count * ZONE_HEAD_SIZE;
    heads + heads % FREELIST_NODE_ALIGN as int + FREELIST_BUCKETS_SIZE
}

/// The number of pages a buffer of `bytes` bytes takes, rounded up.
pub open spec fn pages_for(bytes: int) -> int {
    (bytes + 4095) / 4096
}

/// Each entry ends before any later one starts.
pub open spec fn entries_sorted(m: Seq<MemMapEntry>) -> bool {
    forall|j: int, i: int| #![trigger m[j], m[i]] 0 <= j < i < m.len() ==> entry_end(m[j]) <= m[i].base
}

/// The address `y` lies in one of the usable entries among the first `n`.
pub open spec fn usable_holds(m: Seq<MemMapEntry>, n: int, y: int) -> bool {
    exists|k: int|
        0 <= k < n && (#[trigger] m[k]).kind == MemoryKind::Usable && m[k].base <= y < entry_end(
            m[k],
        )
}

/// The number of pages of the usable entries among the first `n`.
pub open spec fn usable_pages_upto(m: Seq<MemMapEntry>, n: int) -> int
    decreases n,
{
    if n <= 0 {
        0
    } else {
        usable_pages_upto(m, n - 1) + if m[n - 1].kind == MemoryKind::Usable {
            m[n - 1].length / 4096
        } else {
            0
        }
    }
}

/// The memory map can back a buddy allocator: it has a counted entry that
/// ends below a quarter of the address space, its entries are sorted and do
/// not overlap, its usable entries are whole pages, and one of them holds
/// the bookkeeping buffer.
#[verifier::opaque]
pub open spec fn buddy_map_ok(m: Seq<MemMapEntry>) -> bool {
    &&& mem_map_ok(m)
    &&& addressable_pages(m) >= 1
    &&& 2 * entry_end(m[last_counted(m, m.len() as int)]) <= half_space()
    &&& entries_sorted(m)
    &&& forall|k: int|
        0 <= k < m.len() && (#[trigger] m[k]).kind == MemoryKind::Usable ==> m[k].base % 4096 == 0
            && m[k].length % 4096 == 0
    &&& first_usable_of(
        m,
        bookkeeping_bytes(zone_count_for(addressable_pages(m)) as int),
        0,
    ) < m.len()
}

/// The entry that holds the bookkeeping buffer.
pub open spec fn bookkeeping_entry(m: Seq<MemMapEntry>) -> int {
    first_usable_of(m, bookkeeping_bytes(zone_count_for(addressable_pages(m)) as int), 0)
}

/// `log2_floor(n)` is the exponent of the largest power of two up to `n`.
pub proof fn lemma_log2_floor(n: int)
    requires
        n >= 1,
    ensures
        level_pages(log2_floor(n)) <= n < level_pages(log2_floor(n) + 1),
    decreases n,
{
    reveal(log2_floor);
    lemma_level_next(log2_floor(n));
    if n > 1 {
        lemma_log2_floor(n / 2);
        lemma_level_next(log2_floor(n / 2));
        lemma_level_next(log2_floor(n / 2) + 1);
    }
}

/// The floor of the base-2 logarithm of `n`.
fn ilog2(n: usize) -> (r: usize)
    requires
        n >= 1,
    ensures
        r == log2_floor(n as int),
        r < 64,
{
    proof {
        lemma_log2_floor_bound(n as int);
    }
    let mut x = n;
    let mut k: usize = 0;
    while x > 1
        invariant
            x >= 1,
            k + log2_floor(x as int) == log2_floor(n as int),
            log2_floor(n as int) < 64,
        decreases x,
    {
        proof {
            reveal(log2_floor);
        }
        x = x / 2;
        k = k + 1;
    }
    proof {
        reveal(log2_floor);
    }
    k
}

/// The floor of the base-2 logarithm of a `usize` is below 64.
proof fn lemma_log2_floor_bound(n: int)
    requires
        1 <= n <= usize::MAX,
    ensures
        log2_floor(n) < 64,
{
    lemma_log2_floor(n);
    if log2_floor(n) >= 64 {
        crate::levels::lemma_level_pages_mono(64, log2_floor(n));
        crate::levels::lemma_level_pages_63();
        lemma_level_next(63);
        crate::levels::lemma_half_space();
    }
}

/// In a sorted map, an entry ends before any later entry starts.
proof fn lemma_sorted_ends(m: Seq<MemMapEntry>, j: int, i: int)
    requires
        entries_sorted(m),
        0 <= j < i < m.len(),
    ensures
        entry_end(m[j]) <= m[i].base,
{
}

/// The usable pages of the first `n` entries of a sorted map fit below the
/// end of entry `n - 1`.
proof fn lemma_usable_pages_bound(m: Seq<MemMapEntry>, n: int)
    requires
        entries_sorted(m),
        0 < n <= m.len(),
        forall|k: int|
            0 <= k < m.len() && (#[trigger] m[k]).kind == MemoryKind::Usable ==> m[k].base % 4096 == 0
                && m[k].length % 4096 == 0,
    ensures
        usable_pages_upto(m, n) * 4096 <= entry_end(m[n - 1]),
        usable_pages_upto(m, n) >= 0,
    decreases n,
{
    let e = m[n - 1];
    let prev = usable_pages_upto(m, n - 1);
    if n > 1 {
        lemma_usable_pages_bound(m, n - 1);
        assert(entry_end(m[n - 2]) <= m[n - 1].base);
    }
    assert(prev * 4096 <= e.base);
    if e.kind == MemoryKind::Usable {
        assert(e.length % 4096 == 0);
        vstd::arithmetic::div_mod::lemma_fundamental_div_mod(e.length as int, 4096);
        vstd::arithmetic::mul::lemma_mul_is_distributive_add(4096, prev, e.length as int / 4096);
        assert(usable_pages_upto(m, n) == prev + e.length / 4096);
    } else {
        assert(usable_pages_upto(m, n) == prev);
    }
}

/// The size of the bookkeeping buffer for `zones_count` zones.
fn bookkeeping_size(zones_count: usize) -> (r: usize)
    requires
        zones_count <= 64,
    ensures
        r == bookkeeping_bytes(zones_count as int),
{
    let zones_size = zones_count * ZONE_HEAD_SIZE;
    let align_to_add = zones_size % FREELIST_NODE_ALIGN;
    zones_size + align_to_add + FREELIST_BUCKETS_SIZE
}

/// Whether the memory map can back a buddy allocator; the test that
/// `BuddyAllocator::init_from_limine` asks to pass.
pub fn buddy_map_check(mem_map: &[MemMapEntry]) -> (r: bool)
    ensures
        r == buddy_map_ok(mem_map@),
{
    let ghost m = mem_map@;
    proof {
        reveal(buddy_map_ok);
        crate::levels::lemma_half_space();
    }
    if !mem_map_check(mem_map) {
        return false;
    }
    let total_page_count = get_page_count_from_mem_map(mem_map);
    if total_page_count == 0 {
        return false;
    }
    proof {
        lemma_last_counted(m, m.len() as int);
    }
    let last = &mem_map[last_counted_index(mem_map)];
    let end = last.base as u128 + last.length as u128;
    if 2 * end > (usize::MAX as u128 + 1) / 2 {
        return false;
    }
    // Each entry ends before the next one starts, and the usable ones are
    // whole pages
    let mut k: usize = 0;
    while k < mem_map.len()
        invariant
            m == mem_map@,
            mem_map_ok(m),
            total_page_count == addressable_pages(m),
            total_page_count >= 1,
            0 <= last_counted(m, m.len() as int) < m.len(),
            2 * entry_end(m[last_counted(m, m.len() as int)]) <= half_space(),
            k <= m.len(),
            forall|j: int, i: int| #![trigger m[j], m[i]] 0 <= j < i < k ==> entry_end(m[j]) <= m[i].base,
            forall|j: int|
                0 <= j < k && (#[trigger] m[j]).kind == MemoryKind::Usable ==> m[j].base % 4096 == 0
                    && m[j].length % 4096 == 0,
        decreases m.len() - k,
    {
        let e = &mem_map[k];
        if k > 0 {
            let prev = &mem_map[k - 1];
            if prev.base as u128 + prev.length as u128 > e.base as u128 {
                proof {
                    reveal(buddy_map_ok);
                    assert(!(entry_end(m[k - 1]) <= m[k as int].base));
                    assert(!entries_sorted(m));
                }
                return false;
            }
            proof {
                assert forall|j: int| 0 <= j < k implies entry_end(#[trigger] m[j]) <= m[k as int].base by {
                    if j < k - 1 {
                        assert(entry_end(m[j]) <= m[k - 1].base);
                    }
                }
            }
        }
        if is_usable(e) && (e.base % 4096 != 0 || e.length % 4096 != 0) {
            proof {
                reveal(buddy_map_ok);
                assert(m[k as int].kind == MemoryKind::Usable);
            }
            return false;
        }
        k = k + 1;
    }
    proof {
        reveal(buddy_map_ok);
    }
    let zones_count = ilog2(total_page_count) + 1;
    let total_buffer_size = bookkeeping_size(zones_count);
    proof {
        lemma_first_usable_of(m, total_buffer_size as int, 0);
        assert((total_buffer_size as u64) as int == total_buffer_size as int);
    }
    find_usable_checked(mem_map, total_buffer_size as u64).is_some()
}

/// What a memory map that can back a buddy allocator guarantees.
pub proof fn lemma_buddy_map(m: Seq<MemMapEntry>)
    requires
        buddy_map_ok(m),
    ensures
        mem_map_ok(m),
        addressable_pages(m) >= 1,
        2 * entry_end(m[last_counted(m, m.len() as int)]) <= half_space(),
        entries_sorted(m),
        forall|k: int|
            0 <= k < m.len() && (#[trigger] m[k]).kind == MemoryKind::Usable ==> m[k].base % 4096
                == 0 && m[k].length % 4096 == 0,
        bookkeeping_entry(m) < m.len(),
{
    reveal(buddy_map_ok);
}

/// The top zone of the allocator a map gives has blocks that fit in half
/// the address space, and so does one zone more.
proof fn lemma_zone_levels_fit(m: Seq<MemMapEntry>)
    requires
        buddy_map_ok(m),
    ensures
        level_bytes((zone_count_for(addressable_pages(m)) - 1) as nat) <= half_space(),
        level_bytes(zone_count_for(addressable_pages(m))) <= half_space(),
        addressable_pages(m) < level_pages(zone_count_for(addressable_pages(m))),
{
    lemma_buddy_map(m);
    let t = addressable_pages(m);
    let l = log2_floor(t);
    lemma_log2_floor(t);
    lemma_level_next(l);
    assert(t * 4096 <= entry_end(m[last_counted(m, m.len() as int)]));
}

/// Zones that are all empty hold no free address and no free page, and
/// their blocks are disjoint.
proof fn lemma_empty_zones(z: Zones)
    requires
        forall|i: int| 0 <= i < z.len() ==> #[trigger] z[i] == Seq::<usize>::empty(),
    ensures
        forall|y: int| !#[trigger] is_free(z, y),
        free_pages(z) == 0,
        blocks_disjoint(z),
{
    lemma_empty_pages_from(z, 0);
    assert forall|i: int| 0 <= i < z.len() implies #[trigger] z[i].no_duplicates() by {
        assert(z[i] == Seq::<usize>::empty());
    }
}

/// Empty zones from `i` up hold no page.
proof fn lemma_empty_pages_from(z: Zones, i: int)
    requires
        0 <= i,
        forall|k: int| 0 <= k < z.len() ==> #[trigger] z[k] == Seq::<usize>::empty(),
    ensures
        pages_from(z, i) == 0,
    decreases z.len() - i,
{
    if i < z.len() {
        lemma_empty_pages_from(z, i + 1);
        assert(z[i].len() == 0);
    }
}

/// A usable entry of a map that can back a buddy allocator ends below half
/// the address space, past every earlier entry.
proof fn lemma_usable_end(m: Seq<MemMapEntry>, k: int)
    requires
        buddy_map_ok(m),
        0 <= k < m.len(),
        m[k].kind == MemoryKind::Usable,
    ensures
        entry_end(m[k]) <= entry_end(m[last_counted(m, m.len() as int)]),
        2 * entry_end(m[k]) <= half_space(),
{
    lemma_buddy_map(m);
    lemma_last_counted(m, m.len() as int);
    let l = last_counted(m, m.len() as int);
    if k > l {
        assert(counted(m[k]));
    }
    if k < l {
        lemma_sorted_ends(m, k, l);
    }
}

/// Freeing usable entry `k` after the entries before it is in range: it lies
/// below half the address space, none of it is free yet, and the free pages
/// and its pages together stay below the pages of the top zone's blocks.
proof fn lemma_usable_region_free(m: Seq<MemMapEntry>, k: int, z: Zones)
    requires
        buddy_map_ok(m),
        0 <= k < m.len(),
        m[k].kind == MemoryKind::Usable,
        z.len() == zone_count_for(addressable_pages(m)),
        forall|y: int| #[trigger] is_free(z, y) <==> usable_holds(m, k, y),
        free_pages(z) == usable_pages_upto(m, k),
    ensures
        crate::buddy::region_free_ok(z, m[k].base as int, (m[k].length / 4096) as int),
        z.len() >= 1,
        (m[k].length / 4096) * 4096 == m[k].length,
        crate::buddy::page_floor(m[k].base as int) == m[k].base,
        usable_pages_upto(m, k + 1) == usable_pages_upto(m, k) + m[k].length / 4096,
{
    lemma_buddy_map(m);
    lemma_zone_levels_fit(m);
    lemma_usable_end(m, k);
    let e = m[k];
    let n = e.length / 4096;
    vstd::arithmetic::div_mod::lemma_fundamental_div_mod(e.length as int, 4096);
    vstd::arithmetic::div_mod::lemma_fundamental_div_mod(e.base as int, 4096);
    assert(crate::buddy::page_floor(e.base as int) == e.base);
    assert forall|y: int| e.base <= y < e.base + n * 4096 implies !#[trigger] is_free(z, y) by {
        if usable_holds(m, k, y) {
            let j = choose|j: int|
                0 <= j < k && (#[trigger] m[j]).kind == MemoryKind::Usable && m[j].base <= y
                    < entry_end(m[j]);
            lemma_sorted_ends(m, j, k);
        }
    }
    let t = addressable_pages(m);
    let up = usable_pages_upto(m, k);
    if k > 0 {
        lemma_usable_pages_bound(m, k);
        lemma_sorted_ends(m, k - 1, k);
    }
    assert(up * 4096 <= e.base);
    assert((up + n) * 4096 <= entry_end(m[last_counted(m, m.len() as int)]));
    assert(up + n <= t);
    assert(crate::buddy::zone_limit(z.len()) == z.len());
}

/// The bookkeeping buffer's pages lie in its entry, below half the address
/// space.
proof fn lemma_bookkeeping_fits(m: Seq<MemMapEntry>)
    requires
        buddy_map_ok(m),
    ensures
        ({
            let e = bookkeeping_entry(m);
            let bytes = bookkeeping_bytes(zone_count_for(addressable_pages(m)) as int);
            &&& 0 <= e < m.len()
            &&& m[e].kind == MemoryKind::Usable
            &&& m[e].base % 4096 == 0
            &&& m[e].base + pages_for(bytes) * 4096 <= entry_end(m[e])
            &&& 2 * entry_end(m[e]) <= half_space()
        }),
{
    lemma_buddy_map(m);
    let e = bookkeeping_entry(m);
    let bytes = bookkeeping_bytes(zone_count_for(addressable_pages(m)) as int);
    lemma_first_usable_of(m, bytes, 0);
    lemma_usable_end(m, e);
    let len = m[e].length as int;
    let q = len / 4096;
    vstd::arithmetic::div_mod::lemma_fundamental_div_mod(len, 4096);
    vstd::arithmetic::div_mod::lemma_div_is_ordered(bytes + 4095, q * 4096 + 4095, 4096);
    vstd::arithmetic::div_mod::lemma_fundamental_div_mod_converse(q * 4096 + 4095, 4096, q, 4095);
    vstd::arithmetic::mul::lemma_mul_inequality(pages_for(bytes), q, 4096);
}

/// Taking page `i` of the bookkeeping buffer at `be` keeps the invariant of
/// the loop that takes them: the usable memory, but for the pages taken, is
/// free, the free blocks stay disjoint, and one page fewer is free.
proof fn lemma_bookkeeping_step(
    z: Zones,
    z2: Zones,
    m: Seq<MemMapEntry>,
    be: int,
    i: int,
    x: int,
    r: Result<(), crate::pmm::PmmError>,
)
    requires
        zones_wf(z),
        blocks_disjoint(z),
        x == be + i * 4096,
        i >= 0,
        x >= 0,
        x % 4096 == 0,
        is_free(z, x),
        forall|y: int|
            #[trigger] is_free(z, y) <==> usable_holds(m, m.len() as int, y) && !(be <= y < be + i
                * 4096),
        order_of(1) == 0,
        level_bytes(0) == 4096,
        match r {
            Ok(()) => exists|zi: int, zj: int|
                #![trigger z[zi][zj]]
                picks_holding(z, 0, x, zi, zj) && z2 == split_block(z, zi, zj, x, 0),
            Err(e) => !crate::buddy::free_from(z, x, 0),
        },
    ensures
        blocks_disjoint(z2),
        forall|y: int|
            #[trigger] is_free(z2, y) <==> usable_holds(m, m.len() as int, y) && !(be <= y < be + (i
                + 1) * 4096),
        free_pages(z2) == free_pages(z) - 1,
{
    assert(r is Ok);
    let (zi, zj) = choose|zi: int, zj: int|
        #![trigger z[zi][zj]]
        picks_holding(z, 0, x, zi, zj) && z2 == split_block(z, zi, zj, x, 0);
    crate::levels::lemma_half_space();
    law_allocate_at(z, x, 1, zi, zj);
    assert forall|y: int|
        #[trigger] is_free(z2, y) <==> usable_holds(m, m.len() as int, y) && !(be <= y < be + (i + 1)
            * 4096) by {
        assert(is_free(z2, y) <==> is_free(z, y) && !block_holds(x, 0, y));
    }
}

impl BuddyAllocator {
    /// Creates a new instance of the BuddyAllocator for the memory map: as
    /// many zones as a block of all addressable pages needs. Returns it, the
    /// entry that holds its bookkeeping buffer, and the number of pages that
    /// buffer takes.
    pub fn new_from_limine(mem_map: &[MemMapEntry]) -> (r: (Self, usize, usize))
        requires
            buddy_map_ok(mem_map@),
        ensures
            ({
                let zc = zone_count_for(addressable_pages(mem_map@));
                &&& r.0@.len() == zc
                &&& forall|i: int| 0 <= i < zc ==> #[trigger] r.0@[i] == Seq::<usize>::empty()
                &&& zones_wf(r.0@)
                &&& coalesced(r.0@)
                &&& r.1 == bookkeeping_entry(mem_map@)
                &&& r.2 == pages_for(bookkeeping_bytes(zc as int))
            }),
    {
        let ghost m = mem_map@;
        proof {
            lemma_buddy_map(m);
        }
        let total_page_count = get_page_count_from_mem_map(mem_map);
        let zones_count = ilog2(total_page_count) + 1;
        let total_buffer_size = bookkeeping_size(zones_count);

        // Find a matching entry in the memory map
        let e = find_usable(mem_map, total_buffer_size as u64);
        proof {
            lemma_zone_levels_fit(m);
        }
        let ret = Self::with_zone_count(zones_count);
        // The pages the bookkeeping buffer takes
        let used_pages = (total_buffer_size + (BASIC_PAGE_SIZE - 1)) / BASIC_PAGE_SIZE;
        (ret, e, used_pages)
    }

    /// Initializes the buddy allocator from the memory map: every usable
    /// entry is freed, then the pages of the bookkeeping buffer are taken.
    /// Returns the allocator and the entry that holds the buffer.
    pub fn init_from_limine(mem_map: &[MemMapEntry]) -> (r: (Self, usize))
        requires
            buddy_map_ok(mem_map@),
        ensures
            ({
                let m = mem_map@;
                let zc = zone_count_for(addressable_pages(m));
                let e = bookkeeping_entry(m);
                let used = pages_for(bookkeeping_bytes(zc as int));
                &&& r.1 == e
                &&& zones_wf(r.0@)
                &&& r.0@.len() == zc
                &&& blocks_disjoint(r.0@)
                &&& coalesced(r.0@)
                &&& buddy_ok(r.0@)
                &&& forall|y: int|
                    #[trigger] is_free(r.0@, y) <==> usable_holds(m, m.len() as int, y) && !(m[e].base
                        <= y < m[e].base + used * 4096)
                &&& free_pages(r.0@) == usable_pages_upto(m, m.len() as int) - used
            }),
    {
        let ghost m = mem_map@;
        let (mut pmm, e, page_count) = Self::new_from_limine(mem_map);
        let ghost zc = zone_count_for(addressable_pages(m));
        proof {
            lemma_buddy_map(m);
            lemma_zone_levels_fit(m);
            lemma_empty_zones(pmm@);
            lemma_last_counted(m, m.len() as int);
        }
        // Mark all free memory as free
        let mut k: usize = 0;
        while k < mem_map.len()
            invariant
                m == mem_map@,
                buddy_map_ok(m),
                mem_map_ok(m),
                2 * entry_end(m[last_counted(m, m.len() as int)]) <= half_space(),
                entries_sorted(m),
                forall|j: int|
                    0 <= j < m.len() && (#[trigger] m[j]).kind == MemoryKind::Usable ==> m[j].base
                        % 4096 == 0 && m[j].length % 4096 == 0,
                forall|j: int|
                    last_counted(m, m.len() as int) < j < m.len() ==> !counted(#[trigger] m[j]),
                0 <= last_counted(m, m.len() as int) < m.len(),
                zc == zone_count_for(addressable_pages(m)),
                level_bytes(zc) <= half_space(),
                addressable_pages(m) < level_pages(zc),
                k <= m.len(),
                zones_wf(pmm@),
                pmm@.len() == zc,
                blocks_disjoint(pmm@),
                coalesced(pmm@),
                forall|y: int| #[trigger] is_free(pmm@, y) <==> usable_holds(m, k as int, y),
                free_pages(pmm@) == usable_pages_upto(m, k as int),
            decreases m.len() - k,
        {
            let entry = &mem_map[k];
            if is_usable(entry) {
                let addr = PhysAddr(entry.base as usize);
                let count = entry.length as usize / BASIC_PAGE_SIZE;
                proof {
                    lemma_usable_region_free(m, k as int, pmm@);
                }
                pmm.break_into_buckets_n_free(addr, count);
                proof {
                    assert forall|y: int| #[trigger] is_free(pmm@, y) <==> usable_holds(m, k + 1, y) by {
                        if usable_holds(m, k + 1, y) && !usable_holds(m, k as int, y) {
                            let j = choose|j: int|
                                0 <= j < k + 1 && (#[trigger] m[j]).kind == MemoryKind::Usable
                                    && m[j].base <= y < entry_end(m[j]);
                            assert(j == k);
                        }
                        if usable_holds(m, k as int, y) {
                            let j = choose|j: int|
                                0 <= j < k && (#[trigger] m[j]).kind == MemoryKind::Usable
                                    && m[j].base <= y < entry_end(m[j]);
                            assert(usable_holds(m, k + 1, y));
                        }
                        if m[k as int].base <= y < entry_end(m[k as int]) {
                            assert(usable_holds(m, k + 1, y));
                        }
                    }
                }
            } else {
                proof {
                    assert forall|y: int| #[trigger] is_free(pmm@, y) <==> usable_holds(m, k + 1, y) by {
                        if usable_holds(m, k + 1, y) {
                            let j = choose|j: int|
                                0 <= j < k + 1 && (#[trigger] m[j]).kind == MemoryKind::Usable
                                    && m[j].base <= y < entry_end(m[j]);
                            assert(usable_holds(m, k as int, y));
                        }
                    }
                }
            }
            k = k + 1;
        }
        // Take the pages of the bookkeeping buffer
        let ghost be = m[e as int].base as int;
        let base = mem_map[e].base as usize;
        proof {
            lemma_bookkeeping_fits(m);
            assert(m[e as int].kind == MemoryKind::Usable);
        }
        let mut i: usize = 0;
        while i < page_count
            invariant
                m == mem_map@,
                e == bookkeeping_entry(m),
                be == m[e as int].base,
                base == be,
                be % 4096 == 0,
                page_count == pages_for(bookkeeping_bytes(zc as int)),
                be + page_count * 4096 <= entry_end(m[e as int]),
                entry_end(m[e as int]) <= half_space(),
                m[e as int].kind == MemoryKind::Usable,
                0 <= e < m.len(),
                i <= page_count,
                zones_wf(pmm@),
                pmm@.len() == zc,
                blocks_disjoint(pmm@),
                coalesced(pmm@),
                forall|y: int|
                    #[trigger] is_free(pmm@, y) <==> usable_holds(m, m.len() as int, y) && !(be <= y
                        < be + i * 4096),
                free_pages(pmm@) == usable_pages_upto(m, m.len() as int) - i,
            decreases page_count - i,
        {
            let addr = PhysAddr(base + i * BASIC_PAGE_SIZE);
            let ghost z = pmm@;
            proof {
                crate::levels::lemma_half_space();
                assert(usable_holds(m, m.len() as int, addr.0 as int));
                assert(is_free(z, addr.0 as int));
                assert(order_of(1) == 0);
                assert(level_bytes(0) == 4096);
            }
            let r = pmm.allocate_at(addr, 1);
            proof {
                lemma_bookkeeping_step(z, pmm@, m, be, i as int, addr.0 as int, r);
            }
            i = i + 1;
        }
        (pmm, e)
    }
}

} // verus!
