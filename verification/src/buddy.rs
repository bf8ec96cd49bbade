//! A buddy allocator for physical memory.
//!
//! Zone `i` holds the start addresses of the free blocks of `2^i` pages; a
//! zone is a stack, its first element the most recently pushed block.
use vstd::prelude::*;
use crate::addr::PhysAddr;
use vstd::arithmetic::div_mod::{lemma_fundamental_div_mod, lemma_fundamental_div_mod_converse};
use crate::levels::{
    block_holds, block_start, buddy_of, half_space, lemma_half_space, lemma_level_next,
    lemma_level_pages_lt, lemma_level_pages_mono, lemma_buddy_pair, lemma_level_pages_pos, lemma_mod_double,
    level_bytes, level_pages, BASIC_PAGE_SIZE, lemma_block_start, lemma_block_step,
    lemma_block_nested, lemma_block_start_aligned, lemma_level_pages_divides,
    lemma_half_space_pages, lemma_round_down_in_block, lemma_level_pages_strict,
};
use crate::pmm::PmmError;
use crate::buddy_laws::{
    lemma_coalesce_ok_by_count, lemma_merged_coalesced, lemma_merged_disjoint, lemma_merged_free,
    lemma_merged_pages, lemma_pages_from_nonneg, lemma_split_coalesced, law_free_block_exact,
    law_split_keeps_invariant,
};

verus! {

/// The zones of a buddy allocator, as a sequence of stacks of block starts.
pub type Zones = Seq<Seq<usize>>;

/// A block of zone `level` that starts at `b` is aligned to its size and
/// ends inside the address space.
pub open spec fn block_ok(b: int, level: nat) -> bool {
    &&& b % (level_bytes(level) as int) == 0
    &&& b + level_bytes(level) <= usize::MAX
}

/// Every zone's blocks are well formed, and the block sizes fit a `usize`.
pub open spec fn zones_wf(z: Zones) -> bool {
    &&& (z.len() == 0 || level_bytes((z.len() - 1) as nat) <= half_space())
    &&& forall|i: int, j: int|
        #![trigger z[i][j]]
        0 <= i < z.len() && 0 <= j < z[i].len() ==> block_ok(z[i][j] as int, i as nat)
}

/// Some free block of zone `start` or above holds the address `x`.
pub open spec fn free_from(z: Zones, x: int, start: int) -> bool {
    exists|i: int, j: int|
        #![trigger z[i][j]]
        start <= i < z.len() && 0 <= j < z[i].len() && block_holds(z[i][j] as int, i as nat, x)
}

/// The address `x` lies in a free block.
pub open spec fn is_free(z: Zones, x: int) -> bool {
    free_from(z, x, 0)
}

/// The zone `i` lists a free block starting at `w`.
pub open spec fn listed(z: Zones, i: int, w: usize) -> bool {
    0 <= i < z.len() && z[i].contains(w)
}

/// No zone lists a block twice, and no address lies in two free blocks.
pub open spec fn blocks_disjoint(z: Zones) -> bool {
    &&& forall|i: int| 0 <= i < z.len() ==> #[trigger] z[i].no_duplicates()
    &&& forall|i1: int, w1: usize, i2: int, w2: usize, y: int|
        #![trigger block_holds(w1 as int, i1 as nat, y), block_holds(w2 as int, i2 as nat, y)]
        listed(z, i1, w1) && listed(z, i2, w2) && block_holds(w1 as int, i1 as nat, y)
            && block_holds(w2 as int, i2 as nat, y) ==> i1 == i2 && w1 == w2
}

/// No zone lists a block together with its buddy: every two free buddies
/// have been merged into their parent block.
pub open spec fn coalesced(z: Zones) -> bool {
    forall|i: int, w1: usize, w2: usize|
        #![trigger listed(z, i, w1), listed(z, i, w2)]
        listed(z, i, w1) && listed(z, i, w2) ==> w2 as int != buddy_of(w1 as int, i as nat)
}

/// The buddy allocator's invariant: its zones are well formed, its free
/// blocks disjoint, no block is listed beside its buddy, and blocks one zone
/// above the top one still fit in half the address space, so merging never
/// computes a size or an address that leaves a `usize`.
pub open spec fn buddy_ok(z: Zones) -> bool {
    &&& zones_wf(z)
    &&& blocks_disjoint(z)
    &&& coalesced(z)
    &&& level_bytes(z.len()) <= half_space()
}

/// The number of free pages held by the zones `i` and above.
pub open spec fn pages_from(z: Zones, i: int) -> int
    decreases z.len() - i,
{
    if i < 0 || i >= z.len() {
        0
    } else {
        z[i].len() * level_pages(i as nat) + pages_from(z, i + 1)
    }
}

/// The number of free pages held by all the zones.
pub open spec fn free_pages(z: Zones) -> int {
    pages_from(z, 0)
}

/// The order of a request for `n` pages: the zone of the smallest block that
/// holds `n` pages, searching from zone `k` upwards.
pub open spec fn order_from(n: int, k: nat) -> nat
    decreases (if n > level_pages(k) {
        n - level_pages(k)
    } else {
        0
    }),
{
    if level_pages(k) >= n {
        k
    } else {
        proof {
            lemma_level_pages_pos(k);
            lemma_level_next(k);
        }
        order_from(n, k + 1)
    }
}

/// The zone of the smallest block of at least `n` pages (`n` rounded up to a
/// power of two, as an exponent).
pub open spec fn order_of(n: int) -> nat {
    order_from(n, 0)
}

/// A request for `n` pages can be rounded up to a power of two in a `usize`.
pub open spec fn rounds_in_usize(n: int) -> bool {
    n <= half_space()
}

/// A request for `n` pages cannot have its size in bytes overflow: it is
/// refused before any size is computed, or its pages span at most half the
/// address space.
pub open spec fn request_fits(n: int) -> bool {
    n == 0 || !rounds_in_usize(n) || n * 4096 <= half_space()
}

/// The block allocate picks for alignment `align` (in bytes), searching
/// from zone `start`: the first zone holding an aligned block, and the
/// first aligned block of that zone.
pub open spec fn picks_aligned(z: Zones, start: int, align: int, i: int, j: int) -> bool {
    &&& start <= i < z.len()
    &&& 0 <= j < z[i].len()
    &&& z[i][j] as int % align == 0
    &&& forall|j2: int| 0 <= j2 < j ==> #[trigger] z[i][j2] as int % align != 0
    &&& forall|i2: int, j2: int|
        #![trigger z[i2][j2]]
        start <= i2 < i && 0 <= j2 < z[i2].len() ==> z[i2][j2] as int % align != 0
}

/// Some block of zone `start` or above is aligned to `align` bytes.
pub open spec fn has_aligned(z: Zones, start: int, align: int) -> bool {
    exists|i: int, j: int|
        #![trigger z[i][j]]
        start <= i < z.len() && 0 <= j < z[i].len() && z[i][j] as int % align == 0
}

/// Some zone from `start` up holds a block.
pub open spec fn has_aligned_any(z: Zones, start: int) -> bool {
    exists|i: int, j: int| #![trigger z[i][j]] start <= i < z.len() && 0 <= j < z[i].len()
}

/// The block allocate_at picks for address `x`, searching from zone
/// `start`: the first zone holding a block that holds `x`, and the first such
/// block of that zone.
pub open spec fn picks_holding(z: Zones, start: int, x: int, i: int, j: int) -> bool {
    &&& start <= i < z.len()
    &&& 0 <= j < z[i].len()
    &&& block_holds(z[i][j] as int, i as nat, x)
    &&& forall|j2: int| 0 <= j2 < j ==> !block_holds(#[trigger] z[i][j2] as int, i as nat, x)
    &&& forall|i2: int, j2: int|
        #![trigger z[i2][j2]]
        start <= i2 < i && 0 <= j2 < z[i2].len() ==> !block_holds(z[i2][j2] as int, i2 as nat, x)
}

/// The zones after, for each zone `k` from `start` up to `end`, the buddy of
/// the zone-`k` block that holds `x` is pushed.
pub open spec fn push_buddies(z: Zones, x: int, start: int, end: int) -> Zones {
    Seq::new(
        z.len(),
        |k: int|
            if start <= k < end {
                seq![buddy_of(block_start(x, k as nat), k as nat) as usize] + z[k]
            } else {
                z[k]
            },
    )
}

/// The zones after the block at `(i, j)` is taken out and split down to the
/// zone-`start` block that holds `x`: for each zone from `start` up to `i`,
/// the buddy of the block on the way down to `x` is pushed.
pub open spec fn split_block(z: Zones, i: int, j: int, x: int, start: int) -> Zones {
    push_buddies(z.update(i, z[i].remove(j)), x, start, i)
}

/// A request for `n` pages with an alignment of `alignment` pages computes no
/// size that leaves a `usize`: it is refused before, the alignment is a
/// nonzero size that fits, or there is no block to test against it.
pub open spec fn allocate_request_ok(z: Zones, alignment: int, n: int) -> bool {
    ||| n == 0
    ||| !rounds_in_usize(n)
    ||| (alignment > 0 && alignment * 4096 <= usize::MAX)
    ||| !has_aligned_any(z, order_of(n) as int)
}

/// What `allocate` of `n` pages aligned to `alignment` pages does on the
/// zones `z`: it answers `r` and leaves the zones `z2`. An empty request, and
/// one whose size cannot be rounded up in a `usize`, are refused; otherwise
/// the first aligned block from the request's zone up is taken out and split
/// down to it, or, with none, no block is available.
pub open spec fn allocate_result(
    z: Zones,
    alignment: int,
    n: int,
    r: Result<PhysAddr, PmmError>,
    z2: Zones,
) -> bool {
    if n == 0 {
        r == Err::<PhysAddr, PmmError>(PmmError::EmptyAllocation) && z2 == z
    } else if !rounds_in_usize(n) {
        r == Err::<PhysAddr, PmmError>(PmmError::NoAvailableBlock) && z2 == z
    } else {
        let k = order_of(n) as int;
        match r {
            Ok(addr) => exists|i: int, j: int|
                #![trigger z[i][j]]
                picks_aligned(z, k, alignment * 4096, i, j) && addr.0 == z[i][j] && z2 == split_block(
                    z,
                    i,
                    j,
                    addr.0 as int,
                    k,
                ),
            Err(e) => e == PmmError::NoAvailableBlock && !has_aligned(z, k, alignment * 4096) && z2 == z,
        }
    }
}

/// What `allocate_at` of `n` pages at the address `x` does on the zones
/// `z`: it answers `r` and leaves the zones `z2`. An empty request, one whose
/// size cannot be rounded up in a `usize`, and an address not aligned to the
/// rounded size are refused; otherwise the first free block from the
/// request's zone up that holds `x` is taken out and split down to the block
/// at `x`, or, with none, no block is available.
pub open spec fn allocate_at_result(z: Zones, x: int, n: int, r: Result<(), PmmError>, z2: Zones) -> bool {
    if n == 0 {
        r == Err::<(), PmmError>(PmmError::EmptyAllocation) && z2 == z
    } else if !rounds_in_usize(n) {
        r == Err::<(), PmmError>(PmmError::NoAvailableBlock) && z2 == z
    } else {
        let k = order_of(n);
        if x % level_bytes(k) as int != 0 {
            r == Err::<(), PmmError>(PmmError::InvalidAlignment) && z2 == z
        } else {
            match r {
                Ok(()) => exists|i: int, j: int|
                    #![trigger z[i][j]]
                    picks_holding(z, k as int, x, i, j) && z2 == split_block(z, i, j, x, k as int),
                Err(e) => e == PmmError::NoAvailableBlock && !free_from(z, x, k as int) && z2 == z,
            }
        }
    }
}

/// Every free block ends at or below the address `bound`.
pub open spec fn blocks_below(z: Zones, bound: int) -> bool {
    forall|i: int, j: int|
        #![trigger z[i][j]]
        0 <= i < z.len() && 0 <= j < z[i].len() ==> z[i][j] + level_bytes(i as nat) <= bound
}

/// Coalescing the zone-`m` block that holds `x` merges it with its buddy:
/// the buddy is free in zone `m`.
pub open spec fn merges_at(z: Zones, x: int, m: nat) -> bool {
    z[m as int].contains(buddy_of(block_start(x, m), m) as usize)
}

/// Coalescing a block that holds `x`, from zone `m` up, computes no address
/// or size that leaves a `usize`, and stops at a zone that exists.
pub open spec fn coalesce_ok(z: Zones, x: int, m: nat) -> bool
    decreases z.len() - m,
{
    if m >= z.len() {
        false
    } else {
        &&& 2 * level_bytes(m) <= usize::MAX
        &&& block_start(x, m) + level_bytes(m) <= usize::MAX
        &&& (merges_at(z, x, m) ==> coalesce_ok(z, x, m + 1))
    }
}

/// Freeing the zone-`k` block at `x` computes no address or size that leaves a
/// `usize`: it is refused before, or coalescing it stays in range.
pub open spec fn free_request_ok(z: Zones, x: int, n: int) -> bool {
    ||| n == 0
    ||| !rounds_in_usize(n)
    ||| x % level_bytes(order_of(n)) as int != 0
    ||| free_from(z, x, order_of(n) as int)
    ||| coalesce_ok(z, x, order_of(n))
}

/// `x` rounded down to a page.
pub open spec fn page_floor(x: int) -> int {
    x / 4096 * 4096
}

/// The lowest zone whose blocks coalescing cannot reach: the number of zones,
/// or the top zone when its blocks span more than half the address space.
pub open spec fn zone_limit(len: nat) -> nat {
    if level_bytes(len) <= half_space() {
        len
    } else {
        (len - 1) as nat
    }
}

/// Freeing the region of `n` pages from `x` (rounded down to a page) one
/// block at a time stays in range: the region lies in the lower half of the
/// address space, none of it is free, and the free pages and the region
/// together make less than a block of the zone limit.
pub open spec fn region_free_ok(z: Zones, x: int, n: int) -> bool {
    &&& page_floor(x) + n * 4096 <= half_space()
    &&& forall|y: int| page_floor(x) <= y < page_floor(x) + n * 4096 ==> !#[trigger] is_free(z, y)
    &&& free_pages(z) + n < level_pages(zone_limit(z.len()))
}

/// The zone where coalescing the block that holds `x` stops, from zone `m`.
pub open spec fn merge_top(z: Zones, x: int, m: nat) -> nat
    decreases z.len() - m,
{
    if m < z.len() && merges_at(z, x, m) {
        merge_top(z, x, m + 1)
    } else {
        m
    }
}

/// The zones after the zone-`k` block that starts at `x` is freed: it is
/// merged with its buddies up to the zone where a buddy is missing, each
/// buddy leaving its zone, and the merged block is pushed there.
pub open spec fn merged(z: Zones, x: int, k: nat) -> Zones {
    let top = merge_top(z, x, k);
    Seq::new(
        z.len(),
        |m: int|
            if k <= m < top {
                z[m].remove_value(buddy_of(block_start(x, m as nat), m as nat) as usize)
            } else if m == top {
                seq![block_start(x, top) as usize] + z[m]
            } else {
                z[m]
            },
    )
}

/// The zone of the largest block below zone `top` that can start at page
/// `id` and fits in `n` pages: the highest such zone whose block size divides
/// `id` and is at most `n`, or zone 0.
pub open spec fn largest_block(top: nat, id: int, n: int) -> nat
    decreases top,
{
    if top == 0 {
        0
    } else if id % (level_pages((top - 1) as nat) as int) == 0 && n >= level_pages((top - 1) as nat) {
        (top - 1) as nat
    } else {
        largest_block((top - 1) as nat, id, n)
    }
}

/// The zones after the `n` pages from page `id` are freed as the largest
/// aligned blocks, from the lowest page up, each merged with its buddies.
pub open spec fn break_zones(z: Zones, id: int, n: int) -> Zones
    decreases n,
    via break_zones_decreases
{
    if n <= 0 {
        z
    } else {
        let k = largest_block(z.len(), id, n);
        break_zones(merged(z, id * 4096, k), id + level_pages(k), n - level_pages(k))
    }
}

/// Each block `break_zones` frees takes at least one page, and no more
/// than are left.
#[via_fn]
proof fn break_zones_decreases(z: Zones, id: int, n: int) {
    if n > 0 {
        lemma_largest_block(z.len(), id, n);
    }
}

/// The block `largest_block` picks fits in the `n` pages, starts at `id`,
/// and lies below zone `top` when there is one.
proof fn lemma_largest_block(top: nat, id: int, n: int)
    requires
        n >= 1,
    ensures
        1 <= level_pages(largest_block(top, id, n)) <= n,
        id % (level_pages(largest_block(top, id, n)) as int) == 0,
        top >= 1 ==> largest_block(top, id, n) < top,
    decreases top,
{
    lemma_level_pages_pos(largest_block(top, id, n));
    if top > 0 {
        let k = (top - 1) as nat;
        if !(id % (level_pages(k) as int) == 0 && n >= level_pages(k)) {
            lemma_largest_block(k, id, n);
        }
    } else {
        assert(level_pages(0) == 1);
    }
}

/// A buddy allocator for the PMM
pub struct BuddyAllocator {
    /// Array of the zones of the buddy allocator
    zones: Vec<Vec<usize>>,
}

impl View for BuddyAllocator {
    type V = Zones;

    closed spec fn view(&self) -> Zones {
        self.zones@.map_values(|zone: Vec<usize>| zone@)
    }
}

/// The rounded page count of a request, with its order, or `None` when the
/// count cannot be rounded up to a power of two in a `usize`.
fn round_up_order(n: usize) -> (r: Option<(usize, usize)>)
    requires
        n >= 1,
    ensures
        r is None <==> !rounds_in_usize(n as int),
        r matches Some((p, k)) ==> k == order_of(n as int) && p == level_pages(k as nat)
            && p <= half_space() && p >= n,
{
    let mut p: usize = 1;
    let mut k: usize = 0;
    proof {
        lemma_half_space();
    }
    while p < n
        invariant
            n >= 1,
            p == level_pages(k as nat),
            p <= half_space(),
            order_from(n as int, k as nat) == order_of(n as int),
            half_space() == level_pages(63) || half_space() == level_pages(31),
            usize::MAX == 2 * half_space() - 1,
        decreases half_space() - p,
    {
        if p > usize::MAX / 2 {
            return None;
        }
        proof {
            lemma_level_next(k as nat);
            lemma_level_pages_pos(k as nat);
            if half_space() == level_pages(63) {
                lemma_level_pages_lt(k as nat, 63);
                lemma_level_pages_mono((k + 1) as nat, 63);
            } else {
                lemma_level_pages_lt(k as nat, 31);
                lemma_level_pages_mono((k + 1) as nat, 31);
            }
        }
        p = p * 2;
        k = k + 1;
    }
    Some((p, k))
}

/// Size in bytes of a block of zone `i`.
fn bucket_size(i: usize) -> (r: usize)
    requires
        level_bytes(i as nat) <= half_space(),
    ensures
        r == level_bytes(i as nat),
{
    let mut s: usize = BASIC_PAGE_SIZE;
    let mut k: usize = 0;
    proof {
        lemma_half_space();
    }
    while k < i
        invariant
            k <= i,
            s == level_bytes(k as nat),
            level_bytes(i as nat) <= half_space(),
            usize::MAX == 2 * half_space() - 1,
        decreases i - k,
    {
        proof {
            lemma_level_next(k as nat);
            lemma_level_pages_mono((k + 1) as nat, i as nat);
        }
        s = s * 2;
        k = k + 1;
    }
    s
}

impl BuddyAllocator {
    /// The lowest possible zone level (the zone level of `BASIC_PAGE_SIZE`)
    pub const MIN_ZONE_LEVEL: usize = 12;

    /// An allocator with no zones, which can hand out nothing.
    pub fn uninit() -> (r: Self)
        ensures
            r@ == Seq::<Seq<usize>>::empty(),
    {
        let r = Self { zones: Vec::new() };
        assert(r@ =~= Seq::<Seq<usize>>::empty());
        r
    }

    /// An allocator with `zone_count` empty zones. Its zones are well formed
    /// when the blocks of the top one fit in half the address space.
    pub fn with_zone_count(zone_count: usize) -> (r: Self)
        ensures
            r@.len() == zone_count,
            forall|i: int| 0 <= i < zone_count ==> #[trigger] r@[i] == Seq::<usize>::empty(),
            zones_wf(r@) <==> (zone_count == 0 || level_bytes((zone_count - 1) as nat) <= half_space()),
            level_bytes(zone_count as nat) <= half_space() ==> buddy_ok(r@),
            blocks_disjoint(r@),
            coalesced(r@),
    {
        let mut zones: Vec<Vec<usize>> = Vec::new();
        let mut i: usize = 0;
        while i < zone_count
            invariant
                i <= zone_count,
                zones@.len() == i,
                forall|k: int| 0 <= k < i ==> (#[trigger] zones@[k])@ == Seq::<usize>::empty(),
            decreases zone_count - i,
        {
            zones.push(Vec::new());
            i = i + 1;
        }
        let r = Self { zones };
        proof {
            assert forall|k: int, w: usize| !listed(r@, k, w) by {
                if 0 <= k < r@.len() {
                    assert(r@[k] == zones@[k]@);
                }
            }
        }
        r
    }

    /// The number of zones.
    pub fn zone_count(&self) -> (r: usize)
        ensures
            r == self@.len(),
    {
        self.zones.len()
    }

    /// The number of free blocks in zone `i`.
    pub fn zone_len(&self, i: usize) -> (r: usize)
        requires
            i < self@.len(),
        ensures
            r == self@[i as int].len(),
    {
        self.zones[i].len()
    }

    /// The `j`-th free block of zone `i`.
    pub fn zone_block(&self, i: usize, j: usize) -> (r: PhysAddr)
        requires
            i < self@.len(),
            j < self@[i as int].len(),
        ensures
            r.0 == self@[i as int][j as int],
    {
        PhysAddr(self.zones[i][j])
    }

    /// Whether every free block ends at or below the address `bound`.
    pub fn blocks_end_by(&self, bound: u128) -> (r: bool)
        requires
            zones_wf(self@),
        ensures
            r == blocks_below(self@, bound as int),
    {
        let ghost z = self@;
        let mut i: usize = 0;
        while i < self.zones.len()
            invariant
                z == self@,
                zones_wf(z),
                z.len() == self.zones@.len(),
                i <= z.len(),
                forall|i2: int, j2: int|
                    #![trigger z[i2][j2]]
                    0 <= i2 < i && 0 <= j2 < z[i2].len() ==> z[i2][j2] + level_bytes(i2 as nat) <= bound,
            decreases z.len() - i,
        {
            proof {
                lemma_level_pages_mono(i as nat, (z.len() - 1) as nat);
                lemma_half_space();
            }
            let size = zone_pages(i) as u128 * 4096;
            let mut j: usize = 0;
            while j < self.zones[i].len()
                invariant
                    z == self@,
                    z.len() == self.zones@.len(),
                    i < z.len(),
                    size == level_bytes(i as nat),
                    size <= usize::MAX,
                    j <= z[i as int].len(),
                    forall|i2: int, j2: int|
                        #![trigger z[i2][j2]]
                        0 <= i2 < i && 0 <= j2 < z[i2].len() ==> z[i2][j2] + level_bytes(i2 as nat) <= bound,
                    forall|j2: int| 0 <= j2 < j ==> #[trigger] z[i as int][j2] + level_bytes(i as nat) <= bound,
                decreases z[i as int].len() - j,
            {
                assert(z[i as int][j as int] == self.zones@[i as int]@[j as int]);
                if self.zones[i][j] as u128 + size > bound {
                    return false;
                }
                j = j + 1;
            }
            i = i + 1;
        }
        true
    }

    /// Returns the buddy address of the passed `addr` in the passed `zone_index`
    fn get_buddy_addr(addr: PhysAddr, zone_index: usize) -> (r: PhysAddr)
        requires
            2 * level_bytes(zone_index as nat) <= usize::MAX,
            addr.0 as int % level_bytes(zone_index as nat) as int == 0,
            addr.0 as int % (2 * level_bytes(zone_index as nat) as int) == 0 ==> addr.0 + level_bytes(
                zone_index as nat,
            ) <= usize::MAX,
        ensures
            r.0 == buddy_of(addr.0 as int, zone_index as nat),
    {
        proof {
            lemma_half_space();
        }
        let bucket_size = bucket_size(zone_index);
        proof {
            lemma_level_pages_pos(zone_index as nat);
            lemma_mod_double(addr.0 as int, bucket_size as int);
            lemma_buddy_pair(addr.0 as int, bucket_size as int);
        }
        if addr.0 % (bucket_size * 2) == 0 {
            PhysAddr(addr.0 + bucket_size)
        } else {
            PhysAddr(addr.0 - bucket_size)
        }
    }

    /// Returns the address of the next zone bucket, given the passed `addr` and `buddy_addr`
    fn determine_next_bucket_addr(addr: PhysAddr, buddy_addr: PhysAddr) -> (r: PhysAddr)
        ensures
            r.0 == (if addr.0 <= buddy_addr.0 {
                addr.0
            } else {
                buddy_addr.0
            }),
    {
        if addr.0 <= buddy_addr.0 {
            addr
        } else {
            buddy_addr
        }
    }

    /// Removes the `node_index`-th block of the zone at `zone_index`
    fn pop_from_zone(&mut self, zone_index: usize, node_index: usize)
        requires
            zone_index < old(self)@.len(),
            node_index < old(self)@[zone_index as int].len(),
        ensures
            final(self)@ == old(self)@.update(
                zone_index as int,
                old(self)@[zone_index as int].remove(node_index as int),
            ),
    {
        let ghost old_zones = self.zones@;
        self.zones[zone_index].remove(node_index);
        assert(self@ =~= old(self)@.update(
            zone_index as int,
            old(self)@[zone_index as int].remove(node_index as int),
        ));
    }

    /// Pushes the passed `buddy_addr` to the zone at the passed `zone_index`
    fn push_to_zone(&mut self, buddy_addr: PhysAddr, zone_index: usize)
        requires
            zone_index < old(self)@.len(),
        ensures
            final(self)@ == old(self)@.update(
                zone_index as int,
                seq![buddy_addr.0] + old(self)@[zone_index as int],
            ),
    {
        let ghost old_zone = self.zones@[zone_index as int]@;
        self.zones[zone_index].insert(0, buddy_addr.0);
        assert(self.zones@[zone_index as int]@ =~= seq![buddy_addr.0] + old_zone);
        assert(self@ =~= old(self)@.update(
            zone_index as int,
            seq![buddy_addr.0] + old(self)@[zone_index as int],
        ));
    }

    /// Tries to find a zone bucket that satisfies the passed `alignment` page alignment, starting
    /// from the `start_index` zone index, and takes it out of its zone.
    ///
    /// Returns the physical address of the found zone bucket
    /// and the index of the zone
    #[verifier::spinoff_prover]
    fn find_bucket(&mut self, alignment: usize, start_index: usize) -> (r: Result<
        (PhysAddr, usize),
        PmmError,
    >)
        requires
            (alignment > 0 && alignment * 4096 <= usize::MAX) || !has_aligned_any(
                old(self)@,
                start_index as int,
            ),
        ensures
            match r {
                Ok((addr, i)) => i < old(self)@.len() && final(self)@.len() == old(self)@.len() && exists|j: int|
                    #![trigger old(self)@[i as int][j]]
                    picks_aligned(old(self)@, start_index as int, alignment * 4096, i as int, j)
                        && addr.0 == old(self)@[i as int][j] && final(self)@ == old(self)@.update(
                        i as int,
                        old(self)@[i as int].remove(j),
                    ),
                Err(e) => e == PmmError::NoAvailableBlock && !has_aligned(
                    old(self)@,
                    start_index as int,
                    alignment * 4096,
                ) && final(self)@ == old(self)@,
            },
    {
        let ghost z = self@;
        let mut i = start_index;
        let mut found: Option<(usize, usize)> = None;
        while found.is_none() && i < self.zones.len()
            invariant
                self@ == z,
                z.len() == self.zones@.len(),
                start_index <= i,
                (alignment > 0 && alignment * 4096 <= usize::MAX) || !has_aligned_any(
                    z,
                    start_index as int,
                ),
                found matches Some((fi, fj)) ==> picks_aligned(
                    z,
                    start_index as int,
                    alignment * 4096,
                    fi as int,
                    fj as int,
                ),
                found is None ==> forall|i2: int, j2: int|
                    #![trigger z[i2][j2]]
                    start_index <= i2 < i && i2 < z.len() && 0 <= j2 < z[i2].len() ==> z[i2][j2] as int
                        % (alignment * 4096) != 0,
            decreases self.zones.len() - i, (if found is None { 1int } else { 0int }),
        {
            let mut j: usize = 0;
            while found.is_none() && j < self.zones[i].len()
                invariant
                    self@ == z,
                    start_index <= i < z.len(),
                    (alignment > 0 && alignment * 4096 <= usize::MAX) || !has_aligned_any(
                        z,
                        start_index as int,
                    ),
                    found matches Some((fi, fj)) ==> picks_aligned(
                        z,
                        start_index as int,
                        alignment * 4096,
                        fi as int,
                        fj as int,
                    ),
                    found is None ==> forall|j2: int| 0 <= j2 < j ==> #[trigger] z[i as int][j2] as int
                        % (alignment * 4096) != 0,
                    forall|i2: int, j2: int|
                        #![trigger z[i2][j2]]
                        start_index <= i2 < i && i2 < z.len() && 0 <= j2 < z[i2].len() ==> z[i2][j2] as int
                            % (alignment * 4096) != 0,
                decreases self.zones[i as int]@.len() - j, (if found is None { 1int } else { 0int }),
            {
                assert(z[i as int][j as int] == self.zones@[i as int]@[j as int]);
                let data = self.zones[i][j];
                if data % (BASIC_PAGE_SIZE * alignment) == 0 {
                    found = Some((i, j));
                } else {
                    j = j + 1;
                }
            }
            if found.is_none() {
                i = i + 1;
            }
        }
        match found {
            Some((fi, fj)) => {
                let data = self.zones[fi][fj];
                self.pop_from_zone(fi, fj);
                assert(picks_aligned(z, start_index as int, alignment * 4096, fi as int, fj as int));
                assert(data == z[fi as int][fj as int]);
                assert(self@ == z.update(fi as int, z[fi as int].remove(fj as int)));
                assert(exists|j: int|
                    #![trigger z[fi as int][j]]
                    picks_aligned(z, start_index as int, alignment * 4096, fi as int, j)
                        && data == z[fi as int][j] && self@ == z.update(
                        fi as int,
                        z[fi as int].remove(j),
                    ));
                Ok((PhysAddr(data), fi))
            },
            None => Err(PmmError::NoAvailableBlock),
        }
    }

    /// Splits the passed `addr` into the freelist, starting from the `bucket_index` and going
    /// down (i.e. The opposite of coalescing)
    fn disband(&mut self, addr: PhysAddr, start_index: usize, used_index: usize)
        requires
            zones_wf(old(self)@),
            start_index <= used_index < old(self)@.len(),
            addr.0 as int % level_bytes(start_index as nat) as int == 0,
            block_start(addr.0 as int, used_index as nat) + level_bytes(used_index as nat)
                <= usize::MAX,
        ensures
            zones_wf(final(self)@),
            final(self)@ == push_buddies(
                old(self)@,
                addr.0 as int,
                start_index as int,
                used_index as int,
            ),
    {
        let ghost z0 = self@;
        let ghost a0 = addr.0 as int;
        let mut addr = addr;
        let mut i = start_index;
        proof {
            lemma_block_start_aligned(a0, start_index as nat);
            assert(self@ =~= push_buddies(z0, a0, start_index as int, start_index as int));
            lemma_half_space();
            lemma_level_pages_mono(used_index as nat, (z0.len() - 1) as nat);
        }
        while i < used_index
            invariant
                start_index <= i <= used_index < z0.len(),
                self@.len() == z0.len(),
                self@ == push_buddies(z0, a0, start_index as int, i as int),
                zones_wf(self@),
                addr.0 == block_start(a0, i as nat),
                a0 >= 0,
                block_start(a0, used_index as nat) + level_bytes(used_index as nat) <= usize::MAX,
                level_bytes(used_index as nat) <= half_space(),
                usize::MAX == 2 * half_space() - 1,
            decreases used_index - i,
        {
            proof {
                lemma_level_next(i as nat);
                lemma_level_pages_mono((i + 1) as nat, used_index as nat);
                lemma_block_start(a0, i as nat);
                lemma_block_step(a0, i as nat);
                lemma_block_nested(a0, (i + 1) as nat, used_index as nat);
            }
            let buddy = Self::get_buddy_addr(addr, i);
            self.push_to_zone(buddy, i);
            addr = Self::determine_next_bucket_addr(addr, buddy);
            proof {
                let ghost z1 = self@;
                assert forall|k: int, j: int|
                    #![trigger z1[k][j]]
                    0 <= k < z1.len() && 0 <= j < z1[k].len() implies block_ok(
                    z1[k][j] as int,
                    k as nat,
                ) by {
                    if k == i && j == 0 {
                    } else if k == i {
                        assert(z1[k][j] == push_buddies(z0, a0, start_index as int, i as int)[k][j
                            - 1]);
                    }
                }
                assert(self@ =~= push_buddies(z0, a0, start_index as int, i + 1));
            }
            i = i + 1;
        }
    }

    /// Tries to allocates a **physically** contiguious block of pages of size `page_count`
    /// which satisfy the passed `alignment` page alignment.
    /// If allocation if successfull, the physical address of the start of the block is returned.
    ///
    /// NOTE: `alignment should be passed as page granularity. (e.g. 1 for 4KB, 2 for 8KB, etc.)`
    pub fn allocate(&mut self, alignment: usize, page_count: usize) -> (r: Result<
        PhysAddr,
        PmmError,
    >)
        requires
            zones_wf(old(self)@),
            allocate_request_ok(old(self)@, alignment as int, page_count as int),
        ensures
            zones_wf(final(self)@),
            allocate_result(old(self)@, alignment as int, page_count as int, r, final(self)@),
            blocks_disjoint(old(self)@) && coalesced(old(self)@) ==> coalesced(final(self)@),
            buddy_ok(old(self)@) ==> buddy_ok(final(self)@),
            buddy_ok(old(self)@) ==> (r matches Ok(p) ==> request_fits(page_count as int)
                && free_request_ok(final(self)@, p.0 as int, page_count as int)),
    {
        if page_count == 0 {
            return Err(PmmError::EmptyAllocation);
        }
        let (rounded, start_index) = match round_up_order(page_count) {
            None => return Err(PmmError::NoAvailableBlock),
            Some(order) => order,
        };
        let ghost z = self@;
        match self.find_bucket(alignment, start_index) {
            Err(e) => Err(e),
            Ok((used_addr, used_index)) => {
                let ghost j = choose|j: int|
                    #![trigger z[used_index as int][j]]
                    picks_aligned(z, start_index as int, alignment * 4096, used_index as int, j)
                        && used_addr.0 == z[used_index as int][j] && self@ == z.update(
                        used_index as int,
                        z[used_index as int].remove(j),
                    );
                proof {
                    lemma_wf_remove(z, used_index as int, j);
                    assert(block_ok(z[used_index as int][j] as int, used_index as nat));
                    lemma_level_pages_divides(start_index as nat, used_index as nat);
                    lemma_level_pages_pos(used_index as nat);
                    lemma_level_pages_pos(start_index as nat);
                    lemma_align_divides(
                        used_addr.0 as int,
                        level_bytes(used_index as nat) as int,
                        level_bytes(start_index as nat) as int,
                    );
                    lemma_block_start_aligned(used_addr.0 as int, used_index as nat);
                }
                self.disband(used_addr, start_index, used_index);
                proof {
                    if blocks_disjoint(z) && coalesced(z) {
                        lemma_split_coalesced(z, used_index as int, j, used_addr.0 as int, start_index as nat);
                    }
                    if buddy_ok(z) {
                        law_split_keeps_invariant(z, used_index as int, j, used_addr.0 as int, page_count as int);
                    }
                }
                Ok(used_addr)
            },
        }
    }
    /// Tries to find a zone bucket that contains the passed `addr`, starting from the
    /// `start_index`, and takes it out of its zone.
    ///
    /// Returns the bucket's address and the index of the zone where the bucket was found
    #[verifier::spinoff_prover]
    fn find_bucket_at(&mut self, addr: PhysAddr, start_index: usize) -> (r: Result<
        (PhysAddr, usize),
        PmmError,
    >)
        requires
            zones_wf(old(self)@),
        ensures
            match r {
                Ok((used_addr, i)) => i < old(self)@.len() && final(self)@.len() == old(self)@.len() && exists|j: int|
                    #![trigger old(self)@[i as int][j]]
                    picks_holding(old(self)@, start_index as int, addr.0 as int, i as int, j)
                        && used_addr.0 == old(self)@[i as int][j] && final(self)@ == old(self)@.update(i as int, old(self)@[i as int].remove(j)),
                Err(e) => e == PmmError::NoAvailableBlock && !free_from(
                    old(self)@,
                    addr.0 as int,
                    start_index as int,
                ) && final(self)@ == old(self)@,
            },
    {
        let ghost z = self@;
        let mut i = start_index;
        let mut found: Option<(usize, usize)> = None;
        while found.is_none() && i < self.zones.len()
            invariant
                self@ == z,
                zones_wf(z),
                z.len() == self.zones@.len(),
                start_index <= i,
                found matches Some((fi, fj)) ==> picks_holding(
                    z,
                    start_index as int,
                    addr.0 as int,
                    fi as int,
                    fj as int,
                ),
                found is None ==> forall|i2: int, j2: int|
                    #![trigger z[i2][j2]]
                    start_index <= i2 < i && i2 < z.len() && 0 <= j2 < z[i2].len() ==> !block_holds(
                        z[i2][j2] as int,
                        i2 as nat,
                        addr.0 as int,
                    ),
            decreases self.zones.len() - i, (if found is None {
                1int
            } else {
                0int
            }),
        {
            proof {
                lemma_level_pages_mono(i as nat, (z.len() - 1) as nat);
            }
            let bucket_size = bucket_size(i);
            let mut j: usize = 0;
            while found.is_none() && j < self.zones[i].len()
                invariant
                    self@ == z,
                    zones_wf(z),
                    start_index <= i < z.len(),
                    bucket_size == level_bytes(i as nat),
                    found matches Some((fi, fj)) ==> picks_holding(
                        z,
                        start_index as int,
                        addr.0 as int,
                        fi as int,
                        fj as int,
                    ),
                    found is None ==> forall|j2: int|
                        0 <= j2 < j ==> !block_holds(
                            #[trigger] z[i as int][j2] as int,
                            i as nat,
                            addr.0 as int,
                        ),
                    forall|i2: int, j2: int|
                        #![trigger z[i2][j2]]
                        start_index <= i2 < i && i2 < z.len() && 0 <= j2 < z[i2].len()
                            ==> !block_holds(z[i2][j2] as int, i2 as nat, addr.0 as int),
                decreases self.zones[i as int]@.len() - j, (if found is None {
                    1int
                } else {
                    0int
                }),
            {
                assert(z[i as int][j as int] == self.zones@[i as int]@[j as int]);
                let data = self.zones[i][j];
                assert(block_ok(z[i as int][j as int] as int, i as nat));
                if data <= addr.0 && addr.0 < data + bucket_size {
                    found = Some((i, j));
                } else {
                    j = j + 1;
                }
            }
            if found.is_none() {
                i = i + 1;
            }
        }
        match found {
            Some((fi, fj)) => {
                let data = self.zones[fi][fj];
                self.pop_from_zone(fi, fj);
                assert(picks_holding(z, start_index as int, addr.0 as int, fi as int, fj as int)
                    && data == z[fi as int][fj as int] && self@ == z.update(
                    fi as int,
                    z[fi as int].remove(fj as int),
                ));
                Ok((PhysAddr(data), fi))
            },
            None => Err(PmmError::NoAvailableBlock),
        }
    }

    /// Tries to allocate a **physically** contiguous block of memory at a specific address
    pub fn allocate_at(&mut self, addr: PhysAddr, page_count: usize) -> (r: Result<(), PmmError>)
        requires
            zones_wf(old(self)@),
            request_fits(page_count as int),
        ensures
            zones_wf(final(self)@),
            allocate_at_result(old(self)@, addr.0 as int, page_count as int, r, final(self)@),
            blocks_disjoint(old(self)@) && coalesced(old(self)@) ==> coalesced(final(self)@),
            buddy_ok(old(self)@) ==> buddy_ok(final(self)@),
            buddy_ok(old(self)@) && r is Ok ==> request_fits(page_count as int) && free_request_ok(
                final(self)@,
                addr.0 as int,
                page_count as int,
            ),
            blocks_disjoint(old(self)@) && coalesced(old(self)@) && page_count != 0 && rounds_in_usize(
                page_count as int,
            ) && addr.0 as int % level_bytes(order_of(page_count as int)) as int == 0 ==> (r is Ok
                <==> forall|y: int|
                block_holds(addr.0 as int, order_of(page_count as int), y) ==> is_free(old(self)@, y)),
    {
        if page_count == 0 {
            return Err(PmmError::EmptyAllocation);
        }
        let (rounded, start_index) = match round_up_order(page_count) {
            None => return Err(PmmError::NoAvailableBlock),
            Some(order) => order,
        };
        proof {
            lemma_request_fits(page_count as int);
            lemma_half_space();
        }
        if addr.0 % (BASIC_PAGE_SIZE * rounded) != 0 {
            return Err(PmmError::InvalidAlignment);
        }
        let ghost z = self@;
        proof {
            if blocks_disjoint(z) && coalesced(z) {
                law_free_block_exact(z, addr.0 as int, start_index as nat);
            }
        }
        match self.find_bucket_at(addr, start_index) {
            Err(e) => Err(e),
            Ok((used_addr, used_index)) => {
                let ghost j = choose|j: int|
                    #![trigger z[used_index as int][j]]
                    picks_holding(z, start_index as int, addr.0 as int, used_index as int, j)
                        && used_addr.0 == z[used_index as int][j] && self@ == z.update(
                        used_index as int,
                        z[used_index as int].remove(j),
                    );
                proof {
                    lemma_wf_remove(z, used_index as int, j);
                    assert(block_ok(z[used_index as int][j] as int, used_index as nat));
                    lemma_level_pages_pos(used_index as nat);
                    lemma_round_down_in_block(
                        used_addr.0 as int,
                        level_bytes(used_index as nat) as int,
                        addr.0 as int,
                    );
                }
                self.disband(addr, start_index, used_index);
                proof {
                    if blocks_disjoint(z) && coalesced(z) {
                        lemma_split_coalesced(z, used_index as int, j, addr.0 as int, start_index as nat);
                    }
                    if buddy_ok(z) {
                        law_split_keeps_invariant(z, used_index as int, j, addr.0 as int, page_count as int);
                    }
                }
                Ok(())
            },
        }
    }

    /// Returns true if a page if free, false if it's not. If an error is encountered, an error is
    /// returned instead.
    pub fn is_page_free(&self, addr: PhysAddr, page_count: usize) -> (r: Result<bool, PmmError>)
        requires
            zones_wf(self@),
            request_fits(page_count as int),
        ensures
            page_count == 0 ==> r == Err::<bool, PmmError>(PmmError::EmptyAllocation),
            page_count != 0 && !rounds_in_usize(page_count as int) ==> r == Err::<bool, PmmError>(
                PmmError::NoAvailableBlock,
            ),
            page_count != 0 && rounds_in_usize(page_count as int) ==> {
                let k = order_of(page_count as int);
                if addr.0 as int % level_bytes(k) as int != 0 {
                    r == Err::<bool, PmmError>(PmmError::InvalidAlignment)
                } else {
                    r == Ok::<bool, PmmError>(free_from(self@, addr.0 as int, k as int))
                }
            },
            blocks_disjoint(self@) && coalesced(self@) ==> (r matches Ok(b) ==> (b <==> forall|y: int|
                block_holds(addr.0 as int, order_of(page_count as int), y) ==> is_free(self@, y))),
    {
        if page_count == 0 {
            return Err(PmmError::EmptyAllocation);
        }
        let (rounded, start_index) = match round_up_order(page_count) {
            None => return Err(PmmError::NoAvailableBlock),
            Some(order) => order,
        };
        proof {
            lemma_request_fits(page_count as int);
            lemma_half_space();
        }
        if addr.0 % (BASIC_PAGE_SIZE * rounded) != 0 {
            return Err(PmmError::InvalidAlignment);
        }
        let ghost z = self@;
        let ghost whole = forall|y: int| block_holds(addr.0 as int, start_index as nat, y) ==> is_free(z, y);
        proof {
            if blocks_disjoint(z) && coalesced(z) {
                law_free_block_exact(z, addr.0 as int, start_index as nat);
            }
        }
        let mut i = start_index;
        while i < self.zones.len()
            invariant
                blocks_disjoint(z) && coalesced(z) ==> (free_from(z, addr.0 as int, start_index as int)
                    <==> whole),
                whole == forall|y: int| block_holds(addr.0 as int, start_index as nat, y) ==> is_free(z, y),
                self@ == z,
                zones_wf(z),
                z.len() == self.zones@.len(),
                start_index <= i,
                page_count != 0,
                rounds_in_usize(page_count as int),
                start_index == order_of(page_count as int),
                addr.0 as int % level_bytes(start_index as nat) as int == 0,
                forall|i2: int, j2: int|
                    #![trigger z[i2][j2]]
                    start_index <= i2 < i && i2 < z.len() && 0 <= j2 < z[i2].len() ==> !block_holds(
                        z[i2][j2] as int,
                        i2 as nat,
                        addr.0 as int,
                    ),
            decreases self.zones.len() - i,
        {
            proof {
                lemma_level_pages_mono(i as nat, (z.len() - 1) as nat);
            }
            let bucket_size = bucket_size(i);
            let mut j: usize = 0;
            while j < self.zones[i].len()
                invariant
                    blocks_disjoint(z) && coalesced(z) ==> (free_from(z, addr.0 as int, start_index as int)
                        <==> whole),
                    whole == forall|y: int| block_holds(addr.0 as int, start_index as nat, y) ==> is_free(z, y),
                    self@ == z,
                    zones_wf(z),
                    start_index <= i < z.len(),
                    page_count != 0,
                    rounds_in_usize(page_count as int),
                    start_index == order_of(page_count as int),
                    addr.0 as int % level_bytes(start_index as nat) as int == 0,
                    bucket_size == level_bytes(i as nat),
                    forall|j2: int|
                        0 <= j2 < j ==> !block_holds(
                            #[trigger] z[i as int][j2] as int,
                            i as nat,
                            addr.0 as int,
                        ),
                    forall|i2: int, j2: int|
                        #![trigger z[i2][j2]]
                        start_index <= i2 < i && i2 < z.len() && 0 <= j2 < z[i2].len()
                            ==> !block_holds(z[i2][j2] as int, i2 as nat, addr.0 as int),
                decreases self.zones[i as int]@.len() - j,
            {
                assert(z[i as int][j as int] == self.zones@[i as int]@[j as int]);
                let bucket = self.zones[i][j];
                assert(block_ok(z[i as int][j as int] as int, i as nat));
                if bucket <= addr.0 && addr.0 < bucket + bucket_size {
                    assert(block_holds(z[i as int][j as int] as int, i as nat, addr.0 as int));
                    return Ok(true);
                }
                j = j + 1;
            }
            i = i + 1;
        }
        Ok(false)
    }
    /// Coalesces the passed `addr` into the freelist, starting from the `start_index` and going
    /// up
    fn coalesce(&mut self, addr: PhysAddr, start_index: usize)
        requires
            zones_wf(old(self)@),
            coalesce_ok(old(self)@, addr.0 as int, start_index as nat),
            addr.0 as int % level_bytes(start_index as nat) as int == 0,
        ensures
            zones_wf(final(self)@),
            final(self)@ == merged(old(self)@, addr.0 as int, start_index as nat),
    {
        let ghost z0 = self@;
        let ghost a0 = addr.0 as int;
        let ghost k = start_index as nat;
        let mut cur = addr;
        let mut i = start_index;
        proof {
            lemma_block_start_aligned(a0, k);
            assert(self@ =~= Seq::new(
                z0.len(),
                |m: int|
                    if k <= m < i {
                        z0[m].remove_value(buddy_of(block_start(a0, m as nat), m as nat) as usize)
                    } else {
                        z0[m]
                    },
            ));
        }
        while i < self.zones.len()
            invariant
                k <= i,
                z0.len() == self.zones@.len(),
                self@.len() == z0.len(),
                zones_wf(self@),
                zones_wf(z0),
                a0 >= 0,
                coalesce_ok(z0, a0, i as nat),
                merge_top(z0, a0, k) == merge_top(z0, a0, i as nat),
                cur.0 == block_start(a0, i as nat),
                a0 == addr.0,
                z0 == old(self)@,
                k == start_index,
                self@ == Seq::new(
                    z0.len(),
                    |m: int|
                        if k <= m < i {
                            z0[m].remove_value(
                                buddy_of(block_start(a0, m as nat), m as nat) as usize,
                            )
                        } else {
                            z0[m]
                        },
                ),
            decreases self.zones.len() - i,
        {
            proof {
                lemma_block_start(a0, i as nat);
                lemma_block_step(a0, i as nat);
            }
            let buddy_addr = Self::get_buddy_addr(cur, i);
            let ghost b = buddy_of(block_start(a0, i as nat), i as nat);
            assert(self@[i as int] == z0[i as int]);
            let mut j: usize = 0;
            while j < self.zones[i].len() && self.zones[i][j] != buddy_addr.0
                invariant
                    self@.len() == z0.len(),
                    i < z0.len(),
                    self@[i as int] == z0[i as int],
                    buddy_addr.0 == b,
                    j <= z0[i as int].len(),
                    forall|j2: int| 0 <= j2 < j ==> #[trigger] z0[i as int][j2] != buddy_addr.0,
                decreases self.zones[i as int]@.len() - j,
            {
                j = j + 1;
            }
            proof {
                z0[i as int].index_of_first_ensures(buddy_addr.0);
            }
            if j < self.zones[i].len() {
                // The buddy is free: merge with it and go up a zone.
                proof {
                    assert(z0[i as int][j as int] == buddy_addr.0);
                    assert(z0[i as int].contains(buddy_addr.0));
                    assert(merges_at(z0, a0, i as nat));
                    assert(z0[i as int].index_of_first(buddy_addr.0) == Some(j as int));
                }
                let ghost prev = self@;
                self.pop_from_zone(i, j);
                proof {
                    lemma_wf_remove(prev, i as int, j as int);
                    assert(self@ =~= Seq::new(
                        z0.len(),
                        |m: int|
                            if k <= m < i + 1 {
                                z0[m].remove_value(
                                    buddy_of(block_start(a0, m as nat), m as nat) as usize,
                                )
                            } else {
                                z0[m]
                            },
                    ));
                }
                cur = Self::determine_next_bucket_addr(cur, buddy_addr);
                i = i + 1;
            } else {
                // The buddy is not free: the block stays in this zone.
                proof {
                    assert(!z0[i as int].contains(buddy_addr.0));
                    assert(!merges_at(z0, a0, i as nat));
                    assert(merge_top(z0, a0, i as nat) == i);
                }
                let ghost prev = self@;
                self.push_to_zone(cur, i);
                proof {
                    let z1 = self@;
                    assert forall|m: int, l: int|
                        #![trigger z1[m][l]]
                        0 <= m < z1.len() && 0 <= l < z1[m].len() implies block_ok(
                        z1[m][l] as int,
                        m as nat,
                    ) by {
                        if m == i && l > 0 {
                            assert(z1[m][l] == prev[m][l - 1]);
                        }
                    }
                    assert(self@ =~= merged(z0, a0, k));
                }
                return;
            }
        }
        proof {
            assert(!coalesce_ok(z0, a0, i as nat));
        }
    }

    /// Tries to free a contiguous block of pages.
    ///
    /// The pages should be ones this allocator handed out, and not freed since.
    pub fn free(&mut self, addr: PhysAddr, page_count: usize) -> (r: Result<(), PmmError>)
        requires
            zones_wf(old(self)@),
            request_fits(page_count as int),
            free_request_ok(old(self)@, addr.0 as int, page_count as int),
        ensures
            zones_wf(final(self)@),
            page_count == 0 ==> r == Err::<(), PmmError>(PmmError::EmptyFree) && final(self)@
                == old(self)@,
            page_count != 0 && !rounds_in_usize(page_count as int) ==> r == Err::<(), PmmError>(
                PmmError::NoAvailableBlock,
            ) && final(self)@ == old(self)@,
            page_count != 0 && rounds_in_usize(page_count as int) ==> {
                let k = order_of(page_count as int);
                if addr.0 as int % level_bytes(k) as int != 0 {
                    r == Err::<(), PmmError>(PmmError::InvalidAlignment) && final(self)@ == old(self)@
                } else if free_from(old(self)@, addr.0 as int, k as int) {
                    r == Err::<(), PmmError>(PmmError::FreeOfAlreadyFree) && final(self)@ == old(self)@
                } else {
                    r == Ok::<(), PmmError>(()) && final(self)@ == merged(
                        old(self)@,
                        addr.0 as int,
                        k,
                    )
                }
            },
            coalesced(old(self)@) ==> coalesced(final(self)@),
            buddy_ok(old(self)@) && r is Ok && (forall|y: int|
                block_holds(addr.0 as int, order_of(page_count as int), y) ==> !is_free(old(self)@, y))
                ==> buddy_ok(final(self)@),
    {
        if page_count == 0 {
            return Err(PmmError::EmptyFree);
        }
        let (rounded, zone_index) = match round_up_order(page_count) {
            None => return Err(PmmError::NoAvailableBlock),
            Some(order) => order,
        };
        proof {
            lemma_request_fits(page_count as int);
            lemma_order_of_power(zone_index as nat);
        }
        match self.is_page_free(addr, rounded) {
            Err(e) => Err(e),
            Ok(true) => Err(PmmError::FreeOfAlreadyFree),
            Ok(false) => {
                let ghost z = self@;
                self.coalesce(addr, zone_index);
                proof {
                    if coalesced(z) {
                        lemma_merged_coalesced(z, addr.0 as int, zone_index as nat);
                    }
                    if buddy_ok(z) && (forall|y: int| block_holds(addr.0 as int, zone_index as nat, y) ==> !is_free(z, y)) {
                        lemma_merged_coalesced(z, addr.0 as int, zone_index as nat);
                        crate::buddy_laws::lemma_merged_disjoint(z, addr.0 as int, zone_index as nat);
                    }
                }
                Ok(())
            },
        }
    }
    /// Breaks the region of `total_page_count` pages from `addr` (rounded down
    /// to a page) into the largest aligned blocks, from the lowest page up,
    /// and frees each of them, merging it with its free buddies.
    pub fn break_into_buckets_n_free(&mut self, addr: PhysAddr, total_page_count: usize)
        requires
            zones_wf(old(self)@),
            old(self)@.len() >= 1,
            region_free_ok(old(self)@, addr.0 as int, total_page_count as int),
        ensures
            zones_wf(final(self)@),
            final(self)@.len() == old(self)@.len(),
            free_pages(final(self)@) == free_pages(old(self)@) + total_page_count,
            forall|y: int|
                #![trigger is_free(final(self)@, y)]
                is_free(final(self)@, y) <==> is_free(old(self)@, y) || page_floor(addr.0 as int)
                    <= y < page_floor(addr.0 as int) + total_page_count * 4096,
            blocks_disjoint(old(self)@) ==> blocks_disjoint(final(self)@),
            final(self)@ == break_zones(old(self)@, (addr.0 / 4096) as int, total_page_count as int),
            coalesced(old(self)@) ==> coalesced(final(self)@),
            buddy_ok(old(self)@) ==> buddy_ok(final(self)@),
    {
        let ghost z0 = self@;
        let ghost id0 = (addr.0 / 4096) as int;
        let ghost n0 = total_page_count as int;
        let ghost a0 = page_floor(addr.0 as int);
        let ghost end = a0 + total_page_count * 4096;
        let ghost t = zone_limit(z0.len());
        let mut addr_id = addr.0 / BASIC_PAGE_SIZE;
        let mut total_page_count = total_page_count;
        proof {
            lemma_half_space();
            lemma_pages_from_nonneg(z0, 0);
            assert(a0 == addr_id * 4096);
        }
        while total_page_count > 0
            invariant
                self@.len() == z0.len(),
                z0.len() >= 1,
                zones_wf(self@),
                a0 <= addr_id * 4096,
                addr_id * 4096 + total_page_count * 4096 == end,
                end <= half_space(),
                usize::MAX == 2 * half_space() - 1,
                t == zone_limit(z0.len()),
                t <= z0.len(),
                level_bytes(t) <= half_space(),
                free_pages(self@) + total_page_count == free_pages(z0) + (end - a0) / 4096,
                free_pages(z0) + (end - a0) / 4096 < level_pages(t),
                (end - a0) % 4096 == 0,
                forall|y: int| a0 <= y < end ==> !#[trigger] is_free(z0, y),
                forall|y: int|
                    #![trigger is_free(self@, y)]
                    is_free(self@, y) <==> is_free(z0, y) || a0 <= y < addr_id * 4096,
                blocks_disjoint(z0) ==> blocks_disjoint(self@),
                break_zones(self@, addr_id as int, total_page_count as int) == break_zones(z0, id0, n0),
                coalesced(z0) ==> coalesced(self@),
            decreases total_page_count,
        {
            // Find the largest block that is aligned and fits in what is left.
            let mut i = self.zones.len();
            let mut found: Option<(usize, usize)> = None;
            while found.is_none() && i > 0
                invariant
                    i <= self@.len(),
                    self@.len() == z0.len(),
                    zones_wf(self@),
                    total_page_count >= 1,
                    found matches Some((fi, fp)) ==> fi < self@.len() && fp == level_pages(
                        fi as nat,
                    ) && addr_id % fp == 0 && total_page_count >= fp,
                    found is None ==> i >= 1,
                    found is None ==> largest_block(self@.len(), addr_id as int, total_page_count as int)
                        == largest_block(i as nat, addr_id as int, total_page_count as int),
                    found matches Some((fi, fp)) ==> fi == largest_block(
                        self@.len(),
                        addr_id as int,
                        total_page_count as int,
                    ),
                decreases i, (if found is None {
                    1int
                } else {
                    0int
                }),
            {
                let k = i - 1;
                proof {
                    lemma_level_pages_mono(k as nat, (self@.len() - 1) as nat);
                    lemma_level_pages_pos(k as nat);
                }
                let page_count = zone_pages(k);
                if addr_id % page_count == 0 && total_page_count >= page_count {
                    found = Some((k, page_count));
                } else {
                    i = k;
                }
            }
            let (i, page_count) = match found {
                Some(f) => f,
                None => {
                    // Zone 0 blocks are single pages, which always fit.
                    proof {
                        assert(false);
                    }
                    (0, 1)
                },
            };
            let ghost prev = self@;
            let ghost cur = addr_id * 4096;
            proof {
                assert(break_zones(prev, addr_id as int, total_page_count as int) == break_zones(
                    merged(prev, cur, i as nat),
                    addr_id + page_count,
                    total_page_count - page_count,
                ));
                lemma_level_pages_mono(i as nat, (self@.len() - 1) as nat);
                lemma_page_aligned_block(addr_id as int, i as nat);
                lemma_order_of_power(i as nat);
                lemma_level_pages_pos(i as nat);
                // Coalescing the block stays in range, by counting.
                lemma_pages_from_nonneg(prev, 0);
                lemma_level_pages_lt(i as nat, t);
                lemma_coalesce_ok_by_count(prev, cur, i as nat, t);
                // The block is not free yet.
                assert(!free_from(prev, cur, i as int)) by {
                    if free_from(prev, cur, i as int) {
                        let (a, b) = choose|a: int, b: int|
                            #![trigger prev[a][b]]
                            i <= a < prev.len() && 0 <= b < prev[a].len() && block_holds(
                                prev[a][b] as int,
                                a as nat,
                                cur,
                            );
                        assert(is_free(prev, cur));
                    }
                }
                lemma_half_space_pages();
                assert(page_count * 4096 <= half_space());
            }
            self.free(PhysAddr(addr_id * BASIC_PAGE_SIZE), page_count).unwrap();
            proof {
                assert(self@ == merged(prev, cur, i as nat));
                lemma_merged_pages(prev, cur, i as nat);
                assert forall|y: int| #![trigger is_free(self@, y)] is_free(self@, y) <==> is_free(
                    z0,
                    y,
                ) || a0 <= y < cur + page_count * 4096 by {
                    lemma_merged_free(prev, cur, i as nat, y);
                }
                if blocks_disjoint(z0) {
                    assert forall|y: int| block_holds(cur, i as nat, y) implies !is_free(
                        prev,
                        y,
                    ) by {
                        assert(!is_free(z0, y));
                    }
                    lemma_merged_disjoint(prev, cur, i as nat);
                }
            }
            total_page_count = total_page_count - page_count;
            addr_id = addr_id + page_count;
        }
    }
}

/// Number of pages in a block of zone `i`.
fn zone_pages(i: usize) -> (r: usize)
    requires
        level_bytes(i as nat) <= half_space(),
    ensures
        r == level_pages(i as nat),
{
    let mut p: usize = 1;
    let mut k: usize = 0;
    proof {
        lemma_half_space();
    }
    while k < i
        invariant
            k <= i,
            p == level_pages(k as nat),
            level_bytes(i as nat) <= half_space(),
            usize::MAX == 2 * half_space() - 1,
        decreases i - k,
    {
        proof {
            lemma_level_next(k as nat);
            lemma_level_pages_mono((k + 1) as nat, i as nat);
        }
        p = p * 2;
        k = k + 1;
    }
    p
}

/// A page index aligned to a block's page count starts a block of that zone.
proof fn lemma_page_aligned_block(id: int, level: nat)
    requires
        id >= 0,
        id % level_pages(level) as int == 0,
    ensures
        (id * 4096) % level_bytes(level) as int == 0,
{
    lemma_level_pages_pos(level);
    lemma_fundamental_div_mod(id, level_pages(level) as int);
    let q = id / level_pages(level) as int;
    assert(id * 4096 == q * (level_pages(level) * 4096) + 0) by (nonlinear_arith)
        requires
            id == level_pages(level) * q + 0,
    ;
    lemma_fundamental_div_mod_converse(id * 4096, level_bytes(level) as int, q, 0);
}

/// Rounding a power of two up to a power of two leaves it unchanged.
pub proof fn lemma_order_of_power(k: nat)
    ensures
        order_of(level_pages(k) as int) == k,
{
    lemma_order_from_le(level_pages(k) as int, 0, k);
    let o = order_of(level_pages(k) as int);
    if o < k {
        lemma_level_pages_strict(o, k);
    }
}

/// The order search never passes a zone whose blocks are large enough.
pub proof fn lemma_order_from_le(n: int, k: nat, w: nat)
    requires
        k <= w,
        n <= level_pages(w),
    ensures
        order_from(n, k) <= w,
        order_from(n, k) >= k,
        level_pages(order_from(n, k)) >= n,
    decreases w - k,
{
    if level_pages(k) < n {
        lemma_level_pages_lt(k, w);
        lemma_order_from_le(n, k + 1, w);
    }
}

/// A request that fits rounds up to a block whose size in bytes is at most
/// half the address space.
pub proof fn lemma_request_fits(n: int)
    requires
        n >= 1,
        rounds_in_usize(n),
        request_fits(n),
    ensures
        level_bytes(order_of(n)) <= half_space(),
{
    lemma_half_space_pages();
    if half_space() == level_bytes(51) {
        lemma_order_from_le(n, 0, 51);
        lemma_level_pages_mono(order_of(n), 51);
    } else {
        lemma_order_from_le(n, 0, 19);
        lemma_level_pages_mono(order_of(n), 19);
    }
}

/// Taking a block out of a zone keeps the zones well formed.
pub proof fn lemma_wf_remove(z: Zones, i: int, j: int)
    requires
        zones_wf(z),
        0 <= i < z.len(),
        0 <= j < z[i].len(),
    ensures
        zones_wf(z.update(i, z[i].remove(j))),
{
    let z1 = z.update(i, z[i].remove(j));
    assert forall|k: int, l: int|
        #![trigger z1[k][l]]
        0 <= k < z1.len() && 0 <= l < z1[k].len() implies block_ok(z1[k][l] as int, k as nat) by {
        if k == i {
            if l < j {
                assert(z1[k][l] == z[k][l]);
            } else {
                assert(z1[k][l] == z[k][l + 1]);
            }
        }
    }
}

/// Splitting a listed block down to an aligned address inside it keeps the
/// zones well formed.
pub proof fn lemma_wf_split(z: Zones, i: int, j: int, x: int, start: nat)
    requires
        zones_wf(z),
        0 <= i < z.len(),
        0 <= j < z[i].len(),
        start <= i,
        x >= 0,
        block_holds(z[i][j] as int, i as nat, x),
    ensures
        zones_wf(split_block(z, i, j, x, start as int)),
{
    let z1 = z.update(i, z[i].remove(j));
    lemma_wf_remove(z, i, j);
    let z2 = split_block(z, i, j, x, start as int);
    assert(block_ok(z[i][j] as int, i as nat));
    lemma_level_pages_pos(i as nat);
    lemma_round_down_in_block(z[i][j] as int, level_bytes(i as nat) as int, x);
    assert forall|k: int, l: int|
        #![trigger z2[k][l]]
        0 <= k < z2.len() && 0 <= l < z2[k].len() implies block_ok(z2[k][l] as int, k as nat) by {
        if start <= k < i {
            if l == 0 {
                lemma_block_step(x, k as nat);
                lemma_level_next(k as nat);
                lemma_block_nested(x, (k + 1) as nat, i as nat);
            } else {
                assert(z2[k][l] == z1[k][l - 1]);
            }
        } else {
            assert(z2[k][l] == z1[k][l]);
        }
    }
}

/// Alignment to a size is alignment to any of its divisors.
pub proof fn lemma_align_divides(x: int, big: int, small: int)
    requires
        x >= 0,
        big > 0,
        small > 0,
        x % big == 0,
        big % small == 0,
    ensures
        x % small == 0,
{
    lemma_fundamental_div_mod(x, big);
    lemma_fundamental_div_mod(big, small);
    let q1 = x / big;
    let q2 = big / small;
    assert(x == (q1 * q2) * small + 0) by (nonlinear_arith)
        requires
            x == big * q1 + 0,
            big == small * q2 + 0,
    ;
    lemma_fundamental_div_mod_converse(x, small, q1 * q2, 0);
}

} // verus!
