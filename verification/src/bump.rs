//! A simple bump allocator physical memory manager, over a bitmap of pages.
use vstd::prelude::*;
use crate::addr::PhysAddr;
use crate::levels::BASIC_PAGE_SIZE;
use crate::pmm::PmmError;
use crate::memmap::{
    addressable_pages, find_usable_checked, first_usable_of, get_page_count_from_mem_map, is_usable,
    lemma_first_usable_of, mem_map_check, mem_map_ok, MemMapEntry, MemoryKind,
};

verus! {

/// The pages `start..start + len` of the bitmap are all free.
pub open spec fn range_free(bm: Seq<bool>, start: int, len: int) -> bool {
    forall|j: int| start <= j < start + len ==> !#[trigger] bm[j]
}

/// The pages `start..start + len` of the bitmap are all taken.
pub open spec fn range_taken(bm: Seq<bool>, start: int, len: int) -> bool {
    forall|j: int| start <= j < start + len ==> #[trigger] bm[j]
}

/// The bitmap with the pages `start..start + len` set to `taken`.
pub open spec fn mark(bm: Seq<bool>, start: int, len: int, taken: bool) -> Seq<bool> {
    Seq::new(bm.len(), |j: int| if start <= j < start + len { taken } else { bm[j] })
}

/// `allocate` may hand out the `count` pages from page `i`: `i` is a
/// multiple of the alignment, the block lies within the bitmap, and all of
/// its pages are free.
pub open spec fn fits_at(bm: Seq<bool>, i: int, alignment: int, count: int) -> bool {
    &&& i % alignment == 0
    &&& i + count <= bm.len()
    &&& range_free(bm, i, count)
}

/// The number of pages a region of `len` bytes spans, rounded up.
pub open spec fn pages_spanned(len: int) -> int {
    (len + 0xfff) / 4096
}

/// Page `p` is one of the pages of the region of `len` bytes at `base`.
pub open spec fn region_covers(base: int, len: int, p: int) -> bool {
    base / 4096 <= p < base / 4096 + pages_spanned(len)
}

/// Page `p` is covered by one of the usable entries among the first `n`.
pub open spec fn usable_covers(m: Seq<MemMapEntry>, n: int, p: int) -> bool {
    exists|k: int|
        0 <= k < n && m[k].kind == MemoryKind::Usable && #[trigger] region_covers(
            m[k].base as int,
            m[k].length as int,
            p,
        )
}

/// The number of bytes of a bitmap of `page_count` pages.
pub open spec fn bitmap_bytes(page_count: int) -> int {
    (page_count + 7) / 8
}

/// The memory map can back a bitmap allocator: it has a counted entry
/// ending in the address space, a usable entry large enough for the bitmap,
/// and every usable entry is page aligned and covers only addressable pages.
pub open spec fn bump_map_ok(m: Seq<MemMapEntry>) -> bool {
    &&& mem_map_ok(m)
    &&& addressable_pages(m) >= 1
    &&& first_usable_of(m, bitmap_bytes(addressable_pages(m)), 0) < m.len()
    &&& forall|k: int|
        0 <= k < m.len() && (#[trigger] m[k]).kind == MemoryKind::Usable ==> {
            &&& m[k].base % 4096 == 0
            &&& m[k].length + 0xfff <= usize::MAX
            &&& m[k].base / 4096 + pages_spanned(m[k].length as int) <= addressable_pages(m)
        }
}

/// The bitmap a memory map gives: a page is free when a usable entry covers
/// it and the bitmap's own pages do not hold it.
pub open spec fn bump_init_bitmap(m: Seq<MemMapEntry>) -> Seq<bool> {
    let pc = addressable_pages(m);
    let need = bitmap_bytes(pc);
    let e = m[first_usable_of(m, need, 0)];
    Seq::new(
        pc as nat,
        |p: int| !usable_covers(m, m.len() as int, p) || region_covers(e.base as int, need, p),
    )
}

/// Whether the memory map can back a bitmap allocator; the test that
/// `BumpAllocator::init_from_limine` asks to pass.
pub fn bump_map_check(mem_map: &[MemMapEntry]) -> (r: bool)
    ensures
        r == bump_map_ok(mem_map@),
{
    let ghost m = mem_map@;
    if !mem_map_check(mem_map) {
        return false;
    }
    let page_count = get_page_count_from_mem_map(mem_map);
    if page_count == 0 {
        return false;
    }
    let bitmap_alloc_size = (page_count as u64) / 8 + if page_count % 8 == 0 { 0 } else { 1 };
    assert(bitmap_alloc_size == bitmap_bytes(page_count as int));
    if find_usable_checked(mem_map, bitmap_alloc_size).is_none() {
        return false;
    }
    proof {
        lemma_first_usable_of(m, bitmap_alloc_size as int, 0);
    }
    let mut k: usize = 0;
    while k < mem_map.len()
        invariant
            m == mem_map@,
            mem_map_ok(m),
            page_count == addressable_pages(m),
            page_count >= 1,
            first_usable_of(m, bitmap_bytes(addressable_pages(m)), 0) < m.len(),
            k <= m.len(),
            forall|j: int|
                0 <= j < k && (#[trigger] m[j]).kind == MemoryKind::Usable ==> {
                    &&& m[j].base % 4096 == 0
                    &&& m[j].length + 0xfff <= usize::MAX
                    &&& m[j].base / 4096 + pages_spanned(m[j].length as int) <= addressable_pages(m)
                },
        decreases m.len() - k,
    {
        let e = &mem_map[k];
        if is_usable(e) {
            if e.base % 4096 != 0 || e.length as u128 + 0xfff > usize::MAX as u128 {
                return false;
            }
            let spanned = (e.length as u128 + 0xfff) / 4096;
            if (e.base / 4096) as u128 + spanned > page_count as u128 {
                return false;
            }
        }
        k = k + 1;
    }
    true
}

/// Singleton bump allocator implemented using bitmap
pub struct BumpAllocator {
    /// One flag per page, set when the page is taken
    bitmap: Vec<bool>,
}

impl View for BumpAllocator {
    type V = Seq<bool>;

    closed spec fn view(&self) -> Seq<bool> {
        self.bitmap@
    }
}

/// The page of `addr`, or `InvalidAlignment` when `addr` is not page aligned.
fn page_id(addr: PhysAddr) -> (r: Result<usize, PmmError>)
    ensures
        addr.0 % 4096 != 0 ==> r == Err::<usize, PmmError>(PmmError::InvalidAlignment),
        addr.0 % 4096 == 0 ==> r == Ok::<usize, PmmError>(addr.0 / 4096),
{
    if addr.0 % BASIC_PAGE_SIZE != 0 {
        Err(PmmError::InvalidAlignment)
    } else {
        Ok(addr.0 / BASIC_PAGE_SIZE)
    }
}

impl BumpAllocator {
    /// A bitmap allocator over `page_count` pages, all taken.
    pub fn all_taken(page_count: usize) -> (r: Self)
        ensures
            r@ == Seq::new(page_count as nat, |j: int| true),
    {
        let mut bitmap: Vec<bool> = Vec::new();
        let mut i: usize = 0;
        while i < page_count
            invariant
                i <= page_count,
                bitmap@ == Seq::new(i as nat, |j: int| true),
            decreases page_count - i,
        {
            bitmap.push(true);
            i = i + 1;
            assert(bitmap@ =~= Seq::new(i as nat, |j: int| true));
        }
        BumpAllocator { bitmap }
    }

    /// The number of pages the bitmap covers.
    pub fn used_bits_count(&self) -> (r: usize)
        ensures
            r == self@.len(),
    {
        self.bitmap.len()
    }

    /// Whether page `i` is taken.
    pub fn is_taken(&self, i: usize) -> (r: bool)
        requires
            i < self@.len(),
        ensures
            r == self@[i as int],
    {
        self.bitmap[i]
    }

    /// Sets the pages `start..start + len` to `taken`.
    fn mark_range(&mut self, start: usize, len: usize, taken: bool)
        requires
            start + len <= old(self)@.len(),
        ensures
            final(self)@ == mark(old(self)@, start as int, len as int, taken),
    {
        let n = self.bitmap.len();
        let mut j: usize = 0;
        while j < len
            invariant
                j <= len,
                start + len <= n,
                n == old(self)@.len(),
                self@ == mark(old(self)@, start as int, j as int, taken),
            decreases len - j,
        {
            self.bitmap.set(start + j, taken);
            j = j + 1;
            assert(self@ =~= mark(old(self)@, start as int, j as int, taken));
        }
    }

    /// Whether the pages `start..start + len` are all free.
    fn all_free(&self, start: usize, len: usize) -> (r: bool)
        requires
            start + len <= self@.len(),
        ensures
            r == range_free(self@, start as int, len as int),
    {
        let n = self.bitmap.len();
        let mut j: usize = 0;
        while j < len
            invariant
                j <= len,
                start + len <= n,
                n == self@.len(),
                range_free(self@, start as int, j as int),
            decreases len - j,
        {
            if self.bitmap[start + j] {
                return false;
            }
            j = j + 1;
        }
        true
    }

    /// Whether no page of `start..start + len` is free.
    fn none_free(&self, start: usize, len: usize) -> (r: bool)
        requires
            start + len <= self@.len(),
        ensures
            r == range_taken(self@, start as int, len as int),
    {
        let n = self.bitmap.len();
        let mut j: usize = 0;
        while j < len
            invariant
                j <= len,
                start + len <= n,
                n == self@.len(),
                range_taken(self@, start as int, j as int),
            decreases len - j,
        {
            if !self.bitmap[start + j] {
                return false;
            }
            j = j + 1;
        }
        true
    }

    /// Tries to allocate a **physically** contiguous block of `page_count`
    /// pages whose first page is a multiple of `alignment`: the lowest such
    /// block that is free and lies within the bitmap.
    pub fn allocate(&mut self, alignment: usize, page_count: usize) -> (r: Result<
        PhysAddr,
        PmmError,
    >)
        requires
            alignment >= 1,
            page_count >= 1,
            old(self)@.len() * 4096 <= usize::MAX,
            old(self)@.len() + page_count <= usize::MAX,
        ensures
            match r {
                Ok(addr) => {
                    let i = addr.0 / 4096;
                    &&& addr.0 % 4096 == 0
                    &&& fits_at(old(self)@, i as int, alignment as int, page_count as int)
                    &&& forall|k: int|
                        0 <= k < i ==> !fits_at(old(self)@, k, alignment as int, page_count as int)
                    &&& final(self)@ == mark(old(self)@, i as int, page_count as int, true)
                },
                Err(e) => {
                    &&& e == PmmError::NoAvailableBlock
                    &&& forall|k: int|
                        0 <= k ==> !fits_at(old(self)@, k, alignment as int, page_count as int)
                    &&& final(self)@ == old(self)@
                },
            },
    {
        let n = self.bitmap.len();
        let mut i: usize = 0;
        let mut searching = n > 0;
        while searching
            invariant
                n == old(self)@.len(),
                self@ == old(self)@,
                alignment >= 1,
                page_count >= 1,
                n * 4096 <= usize::MAX,
                n + page_count <= usize::MAX,
                i % alignment == 0,
                searching ==> i < n,
                forall|k: int| 0 <= k < i ==> !fits_at(old(self)@, k, alignment as int, page_count as int),
                !searching ==> forall|k: int|
                    0 <= k ==> !fits_at(old(self)@, k, alignment as int, page_count as int),
            decreases n - i, (if searching {
                1int
            } else {
                0int
            }),
        {
            // If we would go out of bounds, stop
            if i + page_count > n {
                proof {
                    assert forall|k: int| 0 <= k implies !fits_at(
                        old(self)@,
                        k,
                        alignment as int,
                        page_count as int,
                    ) by {}
                }
                searching = false;
            } else if self.all_free(i, page_count) {
                // If it is, set the block as taken and return the address
                self.mark_range(i, page_count, true);
                proof {
                    assert(fits_at(old(self)@, i as int, alignment as int, page_count as int));
                    assert((i * 4096) / 4096 == i);
                }
                return Ok(PhysAddr(i * BASIC_PAGE_SIZE));
            } else if alignment >= n - i {
                proof {
                    assert forall|k: int| 0 <= k implies !fits_at(
                        old(self)@,
                        k,
                        alignment as int,
                        page_count as int,
                    ) by {
                        if i < k && k % alignment as int == 0 {
                            lemma_next_multiple(i as int, k, alignment as int);
                        }
                    }
                }
                searching = false;
            } else {
                proof {
                    assert forall|k: int| 0 <= k < i + alignment implies !fits_at(
                        old(self)@,
                        k,
                        alignment as int,
                        page_count as int,
                    ) by {
                        if i < k && k % alignment as int == 0 {
                            lemma_next_multiple(i as int, k, alignment as int);
                        }
                    }
                    vstd::arithmetic::div_mod::lemma_mod_add_multiples_vanish(i as int, alignment as int);
                }
                i = i + alignment;
            }
        }
        Err(PmmError::NoAvailableBlock)
    }

    /// Tries to allocate the **physically** contiguous block of `page_count`
    /// pages at `addr`.
    pub fn allocate_at(&mut self, addr: PhysAddr, page_count: usize) -> (r: Result<(), PmmError>)
        requires
            page_count >= 1,
            addr.0 / 4096 + page_count <= usize::MAX,
        ensures
            ({
                let id = addr.0 / 4096;
                if addr.0 % 4096 != 0 {
                    r == Err::<(), PmmError>(PmmError::InvalidAlignment) && final(self)@ == old(self)@
                } else if id + page_count - 1 >= old(self)@.len() {
                    r == Err::<(), PmmError>(PmmError::OutOfBounds) && final(self)@ == old(self)@
                } else if !range_free(old(self)@, id as int, page_count as int) {
                    r == Err::<(), PmmError>(PmmError::NoAvailableBlock) && final(self)@ == old(self)@
                } else {
                    r == Ok::<(), PmmError>(()) && final(self)@ == mark(
                        old(self)@,
                        id as int,
                        page_count as int,
                        true,
                    )
                }
            }),
    {
        let id = match page_id(addr) {
            Ok(id) => id,
            Err(e) => return Err(e),
        };
        if id + page_count - 1 >= self.bitmap.len() {
            return Err(PmmError::OutOfBounds);
        }
        // Make sure we can allocate the block. If we can't we propagate the error
        if !self.all_free(id, page_count) {
            return Err(PmmError::NoAvailableBlock);
        }
        self.mark_range(id, page_count, true);
        Ok(())
    }

    /// Tries to free the contiguous block of `page_count` pages at `addr`.
    ///
    /// NOTE: `addr` must be a page (4096 bytes) aligned address, otherwise an
    /// `PmmError::InvalidAlignment` error is returned.
    pub fn free(&mut self, addr: PhysAddr, page_count: usize) -> (r: Result<(), PmmError>)
        requires
            page_count >= 1,
            addr.0 / 4096 + page_count <= usize::MAX,
        ensures
            ({
                let id = addr.0 / 4096;
                if addr.0 % 4096 != 0 {
                    r == Err::<(), PmmError>(PmmError::InvalidAlignment) && final(self)@ == old(self)@
                } else if id + page_count - 1 >= old(self)@.len() {
                    r == Err::<(), PmmError>(PmmError::OutOfBounds) && final(self)@ == old(self)@
                } else if !range_taken(old(self)@, id as int, page_count as int) {
                    r == Err::<(), PmmError>(PmmError::FreeOfAlreadyFree) && final(self)@ == old(self)@
                } else {
                    r == Ok::<(), PmmError>(()) && final(self)@ == mark(
                        old(self)@,
                        id as int,
                        page_count as int,
                        false,
                    )
                }
            }),
    {
        let id = match page_id(addr) {
            Ok(id) => id,
            Err(e) => return Err(e),
        };
        if id + page_count - 1 >= self.bitmap.len() {
            return Err(PmmError::OutOfBounds);
        }
        // If any page of the range is already free, stop and report it
        if !self.none_free(id, page_count) {
            return Err(PmmError::FreeOfAlreadyFree);
        }
        self.mark_range(id, page_count, false);
        Ok(())
    }

    /// Returns true if the `page_count` pages at `addr` are all free, false
    /// if one is not. A block that reaches the last page of the bitmap is
    /// out of bounds here.
    pub fn is_page_free(&self, addr: PhysAddr, page_count: usize) -> (r: Result<bool, PmmError>)
        requires
            page_count >= 1,
            addr.0 / 4096 + page_count <= usize::MAX,
        ensures
            ({
                let id = addr.0 / 4096;
                if addr.0 % 4096 != 0 {
                    r == Err::<bool, PmmError>(PmmError::InvalidAlignment)
                } else if id + page_count >= self@.len() {
                    r == Err::<bool, PmmError>(PmmError::OutOfBounds)
                } else {
                    r == Ok::<bool, PmmError>(range_free(self@, id as int, page_count as int))
                }
            }),
    {
        let id = match page_id(addr) {
            Ok(id) => id,
            Err(e) => return Err(e),
        };
        if id + page_count >= self.bitmap.len() {
            return Err(PmmError::OutOfBounds);
        }
        Ok(self.all_free(id, page_count))
    }

    /// A bitmap allocator initialized from the memory map: the pages of
    /// usable entries are free, but for those the bitmap itself occupies, in
    /// the first usable entry large enough to hold it.
    pub fn init_from_limine(mem_map: &[MemMapEntry]) -> (r: Self)
        requires
            bump_map_ok(mem_map@),
        ensures
            r@ == bump_init_bitmap(mem_map@),
    {
        let ghost m = mem_map@;
        // Get the last allocatable memory descriptor - that decides the bitmap size
        let page_count = get_page_count_from_mem_map(mem_map);
        // The size the bitmap needs, rounded up to whole bytes
        let bitmap_alloc_size = (page_count + 7) / 8;
        // Find a suitable entry for the bitmap
        let mut e: usize = 0;
        proof {
            lemma_first_usable_of(m, bitmap_alloc_size as int, 0);
        }
        while !(is_usable(&mem_map[e]) && mem_map[e].length >= bitmap_alloc_size as u64)
            invariant
                m == mem_map@,
                e <= first_usable_of(m, bitmap_alloc_size as int, 0),
                first_usable_of(m, bitmap_alloc_size as int, 0) < m.len(),
                m[first_usable_of(m, bitmap_alloc_size as int, 0)].kind == MemoryKind::Usable,
                m[first_usable_of(m, bitmap_alloc_size as int, 0)].length >= bitmap_alloc_size,
                forall|k: int|
                    0 <= k < first_usable_of(m, bitmap_alloc_size as int, 0) ==> !(m[k].kind
                        == MemoryKind::Usable && m[k].length >= bitmap_alloc_size),
            decreases first_usable_of(m, bitmap_alloc_size as int, 0) - e,
        {
            e = e + 1;
        }
        // Set all of memory to taken by default
        let mut allocator = BumpAllocator::all_taken(page_count);
        // Free the pages of every usable entry
        let mut k: usize = 0;
        while k < mem_map.len()
            invariant
                m == mem_map@,
                bump_map_ok(m),
                page_count == addressable_pages(m),
                k <= m.len(),
                allocator@ == Seq::new(
                    page_count as nat,
                    |p: int| !usable_covers(m, k as int, p),
                ),
            decreases m.len() - k,
        {
            let entry = &mem_map[k];
            if is_usable(entry) {
                proof {
                    assert(m[k as int].kind == MemoryKind::Usable);
                }
                let start = (entry.base as usize) / BASIC_PAGE_SIZE;
                let len = ((entry.length as usize) + 0xfff) / BASIC_PAGE_SIZE;
                allocator.mark_range(start, len, false);
                proof {
                    assert(allocator@ =~= Seq::new(
                        page_count as nat,
                        |p: int| !usable_covers(m, k + 1, p),
                    )) by {
                        assert forall|p: int| 0 <= p < page_count implies allocator@[p] == !usable_covers(
                            m,
                            k + 1,
                            p,
                        ) by {
                            if region_covers(m[k as int].base as int, m[k as int].length as int, p) {
                                assert(usable_covers(m, k + 1, p));
                            } else if usable_covers(m, k + 1, p) {
                                let j = choose|j: int|
                                    0 <= j < k + 1 && m[j].kind == MemoryKind::Usable
                                        && #[trigger] region_covers(
                                        m[j].base as int,
                                        m[j].length as int,
                                        p,
                                    );
                                assert(usable_covers(m, k as int, p));
                            } else {
                                assert(!usable_covers(m, k as int, p));
                            }
                        }
                    }
                }
            } else {
                proof {
                    assert(allocator@ =~= Seq::new(
                        page_count as nat,
                        |p: int| !usable_covers(m, k + 1, p),
                    )) by {
                        assert forall|p: int| 0 <= p < page_count implies allocator@[p] == !usable_covers(
                            m,
                            k + 1,
                            p,
                        ) by {
                            if usable_covers(m, k + 1, p) {
                                let j = choose|j: int|
                                    0 <= j < k + 1 && m[j].kind == MemoryKind::Usable
                                        && #[trigger] region_covers(
                                        m[j].base as int,
                                        m[j].length as int,
                                        p,
                                    );
                                assert(usable_covers(m, k as int, p));
                            }
                        }
                    }
                }
            }
            k = k + 1;
        }
        // Take the pages the bitmap lives in
        let bitmap_entry = &mem_map[e];
        let start = (bitmap_entry.base as usize) / BASIC_PAGE_SIZE;
        let len = (bitmap_alloc_size + 0xfff) / BASIC_PAGE_SIZE;
        proof {
            assert(m[e as int].kind == MemoryKind::Usable);
            assert(m[e as int].base / 4096 + pages_spanned(m[e as int].length as int) <= page_count);
            vstd::arithmetic::div_mod::lemma_div_is_ordered(
                bitmap_alloc_size + 0xfff,
                m[e as int].length + 0xfff,
                4096,
            );
        }
        allocator.mark_range(start, len, true);
        proof {
            assert(allocator@ =~= bump_init_bitmap(m));
        }
        allocator
    }
}

/// No multiple of `a` lies strictly between a multiple `i` of `a` and
/// `i + a`.
proof fn lemma_next_multiple(i: int, k: int, a: int)
    requires
        a >= 1,
        i >= 0,
        i % a == 0,
        k % a == 0,
        i < k,
    ensures
        k >= i + a,
{
    vstd::arithmetic::div_mod::lemma_fundamental_div_mod(i, a);
    vstd::arithmetic::div_mod::lemma_fundamental_div_mod(k, a);
    let qi = i / a;
    let qk = k / a;
    if qk <= qi {
        vstd::arithmetic::mul::lemma_mul_inequality(qk, qi, a);
        vstd::arithmetic::mul::lemma_mul_is_commutative(qk, a);
        vstd::arithmetic::mul::lemma_mul_is_commutative(qi, a);
    } else {
        vstd::arithmetic::mul::lemma_mul_inequality(qi + 1, qk, a);
        vstd::arithmetic::mul::lemma_mul_is_distributive_add(a, qi, 1);
        vstd::arithmetic::mul::lemma_mul_is_commutative(qk, a);
        vstd::arithmetic::mul::lemma_mul_is_commutative(qi + 1, a);
    }
}

/// Freeing the block an allocation just took is accepted and gives back
/// exactly the bitmap as it was before the allocation: all of the block's
/// pages are taken after the allocation, and marking them free again
/// restores every page.
pub proof fn law_allocate_then_free(bm: Seq<bool>, i: int, alignment: int, count: int)
    requires
        fits_at(bm, i, alignment, count),
        i >= 0,
    ensures
        range_taken(mark(bm, i, count, true), i, count),
        mark(mark(bm, i, count, true), i, count, false) == bm,
{
    let bm2 = mark(bm, i, count, true);
    assert(mark(bm2, i, count, false) =~= bm);
}

/// Freeing a taken block makes all of its pages free, so `is_page_free`
/// reports the block free (where the block ends before the last page, the
/// only blocks it answers for), and every other page keeps its state.
pub proof fn law_free_then_is_free(bm: Seq<bool>, i: int, count: int)
    requires
        i >= 0,
        i + count <= bm.len(),
    ensures
        range_free(mark(bm, i, count, false), i, count),
        forall|j: int|
            0 <= j < bm.len() && !(i <= j < i + count) ==> mark(bm, i, count, false)[j] == bm[j],
{
}

} // verus!
