//! "Backend" of the slab allocator: a cache of slabs that hands out objects of
//! one fixed layout.
//!
//! The pages a slab lives in come from the paging layer, which the caller
//! drives: `allocate` says when the cache must grow, `grow_and_allocate` takes
//! the pages the caller got for it, and `reap` and `release_all` hand back the
//! buffers whose pages the caller gives back.
use vstd::prelude::*;
use vstd::arithmetic::div_mod::{
    lemma_fundamental_div_mod,
    lemma_mod_multiples_basic,
};
use vstd::arithmetic::mul::{
    lemma_mul_strict_inequality,
    lemma_mul_inequality,
    lemma_mul_is_distributive_add,
};
use vstd::arithmetic::power2::{pow2, lemma_pow2_pos, lemma2_to64};
use vstd::bits::{low_bits_mask, lemma_usize_low_bits_mask_is_mod};
use vstd::set_lib::{lemma_int_range, lemma_len_subset, set_int_range};
use crate::levels::BASIC_PAGE_SIZE;
use crate::paging::PagingError;

verus! {

/// Size of the node that links a free object into its slab's free list.
pub const OBJECT_NODE_SIZE: usize = 8;

/// Alignment of the node that links a free object into its slab's free list.
pub const OBJECT_NODE_ALIGN: usize = 8;

/// Size of the bookkeeping record of a slab (its fields and two list links),
/// which sits in the slab's own pages after the objects.
pub const SLAB_NODE_SIZE: usize = 56;

/// Alignment of the bookkeeping record of a slab.
pub const SLAB_NODE_ALIGN: usize = 8;

/// A trait for every type that can be allocated using a slab allocator of its
/// own.
pub trait SlabAllocatable {}

/// Errors that the slab allocator might encounter
#[derive(Debug, Copy, Clone, PartialEq, Eq, Structural)]
pub enum SlabError {
    /// The pointer passed to free is not in the range of the slab
    BadPtrRange,
    /// The pointer passed to free isn't allocated
    DoubleFree,
    /// The slab is full and cannot allocate any more objects
    SlabFullInternalError,
    /// Paging error occurred
    PagingError,
    /// Invalid layout
    InvalidLayout,
}

/// The size and alignment of the objects a cache hands out.
#[derive(Debug, Copy, Clone, PartialEq, Eq, Structural)]
pub struct ObjectLayout {
    /// Size of an object in bytes
    pub size: usize,
    /// Alignment of an object in bytes
    pub align: usize,
}

/// What a slab holds, as plain values.
#[verifier::ext_equal]
pub struct SlabState {
    /// Address of the slab's buffer
    pub buffer: usize,
    /// The free objects, the one handed out next last
    pub free: Seq<usize>,
    /// Number of allocated objects
    pub allocated: usize,
    /// Number of objects the slab holds
    pub capacity: usize,
}

/// `p` is the address of one of the objects of slab `s`, for objects of
/// `size` bytes.
pub open spec fn is_slot(s: SlabState, size: int, p: int) -> bool {
    &&& s.buffer <= p < s.buffer + s.capacity * size
    &&& (p - s.buffer) % size == 0
}

/// `p` lies in the objects of slab `s`.
pub open spec fn holds_ptr(s: SlabState, size: int, p: int) -> bool {
    s.buffer <= p < s.buffer + s.capacity * size
}

/// The objects of slab `s` laid out from its buffer, all free, as a fresh slab
/// lists them.
pub open spec fn fresh_free_list(buffer: int, capacity: int, size: int) -> Seq<usize> {
    Seq::new(capacity as nat, |i: int| (buffer + i * size) as usize)
}

/// Slab `s` is consistent, for objects of `layout` in `page_count` pages:
/// its objects lie in its pages, its free objects are distinct aligned
/// objects, and the allocated and free objects make its capacity.
pub open spec fn slab_ok(s: SlabState, layout: ObjectLayout, page_count: int) -> bool {
    &&& s.buffer + page_count * 4096 <= usize::MAX
    &&& s.capacity * layout.size <= page_count * 4096
    &&& s.free.no_duplicates()
    &&& forall|j: int| 0 <= j < s.free.len() ==> is_slot(s, layout.size as int, #[trigger] s.free[j] as int)
    &&& forall|j: int| 0 <= j < s.free.len() ==> (#[trigger] s.free[j]) % layout.align == 0
    &&& forall|k: int|
        0 <= k < s.capacity ==> #[trigger] ((s.buffer + k * layout.size) % layout.align as int) == 0
    &&& s.allocated + s.free.len() == s.capacity
}

/// The pages of slabs `a` and `b` do not overlap.
pub open spec fn pages_apart(a: SlabState, b: SlabState, page_count: int) -> bool {
    a.buffer + page_count * 4096 <= b.buffer || b.buffer + page_count * 4096 <= a.buffer
}

/// The number of objects of `size` bytes that fit in `page_count` pages,
/// after the slab's bookkeeping record, aligned, is set aside.
pub open spec fn object_count_for(size: int, page_count: int) -> int {
    let available = page_count * 4096 - SLAB_NODE_SIZE;
    (available - available % SLAB_NODE_ALIGN as int) / size
}

/// The layout objects are handed out with: at least a free-list node's size
/// and alignment.
pub open spec fn adjusted(layout: ObjectLayout) -> ObjectLayout {
    ObjectLayout {
        size: if layout.size >= OBJECT_NODE_SIZE {
            layout.size
        } else {
            OBJECT_NODE_SIZE
        },
        align: if layout.align >= OBJECT_NODE_ALIGN {
            layout.align
        } else {
            OBJECT_NODE_ALIGN
        },
    }
}

/// The core structure of a slab
pub struct Slab {
    /// Address of the slab's buffer
    buffer: usize,
    /// List of objects that are free in this slab
    free_objects: Vec<usize>,
    /// Number of allocated objects in this slab
    allocated_count: usize,
    /// Total capacity of this slab
    capacity: usize,
}

impl View for Slab {
    type V = SlabState;

    closed spec fn view(&self) -> SlabState {
        SlabState {
            buffer: self.buffer,
            free: self.free_objects@,
            allocated: self.allocated_count,
            capacity: self.capacity,
        }
    }
}

/// `i * size` fits below `capacity * size` for an index below `capacity`.
proof fn lemma_slot_in_range(i: int, capacity: int, size: int)
    requires
        0 <= i < capacity,
        size > 0,
    ensures
        i * size + size <= capacity * size,
        (i * size) % size == 0,
        i * size >= 0,
{
    lemma_mul_inequality(i + 1, capacity, size);
    lemma_mul_is_distributive_add(size, i, 1);
    lemma_mod_multiples_basic(i, size);
    vstd::arithmetic::mul::lemma_mul_nonnegative(i, size);
}

impl Slab {
    /// Creates a new slab
    fn new(buffer: usize, capacity: usize, layout: ObjectLayout) -> (r: Result<Self, SlabError>)
        requires
            layout.size > 0,
            layout.align > 0,
            buffer + capacity * layout.size <= usize::MAX,
        ensures
            r is Ok <==> forall|i: int|
                0 <= i < capacity ==> #[trigger] ((buffer + i * layout.size) % layout.align as int)
                    == 0,
            r matches Ok(s) ==> s@ == (SlabState {
                buffer,
                free: fresh_free_list(buffer as int, capacity as int, layout.size as int),
                allocated: 0,
                capacity,
            }),
            r matches Err(e) ==> e == SlabError::InvalidLayout,
    {
        let mut free_objects: Vec<usize> = Vec::new();
        let mut i: usize = 0;
        while i < capacity
            invariant
                i <= capacity,
                layout.size > 0,
                layout.align > 0,
                buffer + capacity * layout.size <= usize::MAX,
                free_objects@ == fresh_free_list(buffer as int, i as int, layout.size as int),
                forall|k: int|
                    0 <= k < i ==> #[trigger] ((buffer + k * layout.size) % layout.align as int) == 0,
            decreases capacity - i,
        {
            proof {
                lemma_slot_in_range(i as int, capacity as int, layout.size as int);
            }
            let offset = i * layout.size;
            let object = buffer + offset;
            if object % layout.align != 0 {
                return Err(SlabError::InvalidLayout);
            }
            free_objects.push(object);
            i = i + 1;
            assert(free_objects@ =~= fresh_free_list(buffer as int, i as int, layout.size as int));
        }
        Ok(Slab { buffer, free_objects, allocated_count: 0, capacity })
    }

    /// Check if the slab contains the given pointer
    fn contains_ptr(&self, ptr: usize, layout: ObjectLayout) -> (r: bool)
        requires
            self.buffer + self.capacity * layout.size <= usize::MAX,
        ensures
            r == holds_ptr(self@, layout.size as int, ptr as int),
    {
        let buffer_end = self.buffer + self.capacity * layout.size;
        ptr >= self.buffer && ptr < buffer_end
    }

    /// Check if this slab is completely empty
    fn is_empty(&self) -> (r: bool)
        ensures
            r == (self@.allocated == 0),
    {
        self.allocated_count == 0
    }

    /// Allocate an object from this slab
    fn allocate(&mut self, layout: ObjectLayout) -> (r: Result<usize, SlabError>)
        requires
            layout.align > 0,
            old(self)@.allocated + old(self)@.free.len() <= usize::MAX,
        ensures
            old(self)@.free.len() == 0 ==> r == Err::<usize, SlabError>(
                SlabError::SlabFullInternalError,
            ) && final(self)@ == old(self)@,
            old(self)@.free.len() > 0 ==> final(self)@ == (SlabState {
                free: old(self)@.free.drop_last(),
                allocated: (old(self)@.allocated + 1) as usize,
                ..old(self)@
            }) && (if old(self)@.free.last() % layout.align == 0 {
                r == Ok::<usize, SlabError>(old(self)@.free.last())
            } else {
                r == Err::<usize, SlabError>(SlabError::InvalidLayout)
            }),
    {
        match self.free_objects.pop() {
            Some(node) => {
                self.allocated_count = self.allocated_count + 1;
                if node % layout.align != 0 {
                    return Err(SlabError::InvalidLayout);
                }
                Ok(node)
            },
            None => Err(SlabError::SlabFullInternalError),
        }
    }

    /// Free an object back to this slab
    fn free(&mut self, ptr: usize, layout: ObjectLayout) -> (r: Result<(), SlabError>)
        requires
            layout.size > 0,
            ptr >= old(self)@.buffer,
        ensures
            (ptr - old(self)@.buffer) % (layout.size as int) != 0 ==> r == Err::<(), SlabError>(
                SlabError::BadPtrRange,
            ) && final(self)@ == old(self)@,
            (ptr - old(self)@.buffer) % (layout.size as int) == 0 && old(self)@.free.contains(ptr)
                ==> r == Err::<(), SlabError>(SlabError::DoubleFree) && final(self)@ == old(self)@,
            (ptr - old(self)@.buffer) % (layout.size as int) == 0 && !old(self)@.free.contains(ptr)
                ==> r == Ok::<(), SlabError>(()) && final(self)@ == (SlabState {
                free: old(self)@.free.push(ptr),
                allocated: if old(self)@.allocated == 0 {
                    0
                } else {
                    (old(self)@.allocated - 1) as usize
                },
                ..old(self)@
            }),
    {
        let offset = ptr - self.buffer;
        if offset % layout.size != 0 {
            return Err(SlabError::BadPtrRange);
        }
        // Check for double-free by looking for this pointer in the free list
        let mut j: usize = 0;
        while j < self.free_objects.len()
            invariant
                j <= self.free_objects@.len(),
                self@ == old(self)@,
                layout.size > 0,
                (ptr - old(self)@.buffer) % (layout.size as int) == 0,
                forall|k: int| 0 <= k < j ==> self.free_objects@[k] != ptr,
            decreases self.free_objects@.len() - j,
        {
            if self.free_objects[j] == ptr {
                return Err(SlabError::DoubleFree);
            }
            j = j + 1;
        }
        self.free_objects.push(ptr);
        self.allocated_count = self.allocated_count.saturating_sub(1);
        Ok(())
    }
}

/// What a cache holds, as plain values.
#[verifier::ext_equal]
pub struct SlabCacheState {
    /// The layout of the objects that will be allocated
    pub layout: ObjectLayout,
    /// The amount of pages each slab will have
    pub page_count: usize,
    /// The amount of objects that will be allocated in each slab
    pub object_count: usize,
    /// The slabs, in list order
    pub slabs: Seq<SlabState>,
}

/// The cache is consistent: its layout is adjusted, each slab holds
/// `object_count` objects in its own pages, and no two slabs share a page.
pub open spec fn cache_ok(c: SlabCacheState) -> bool {
    &&& c.layout.size >= OBJECT_NODE_SIZE
    &&& c.layout.align >= OBJECT_NODE_ALIGN
    &&& c.page_count >= 1
    &&& c.page_count * 4096 <= usize::MAX
    &&& c.object_count == object_count_for(c.layout.size as int, c.page_count as int)
    &&& forall|i: int|
        0 <= i < c.slabs.len() ==> #[trigger] slab_ok(c.slabs[i], c.layout, c.page_count as int)
            && c.slabs[i].capacity == c.object_count
    &&& forall|i: int, j: int|
        0 <= i < c.slabs.len() && 0 <= j < c.slabs.len() && i != j ==> pages_apart(
            #[trigger] c.slabs[i],
            #[trigger] c.slabs[j],
            c.page_count as int,
        )
}

/// The first slab from `i` on with a free object, or the number of slabs.
pub open spec fn first_with_free(s: Seq<SlabState>, i: int) -> int
    decreases s.len() - i,
{
    if i < 0 || i >= s.len() {
        s.len() as int
    } else if s[i].free.len() > 0 {
        i
    } else {
        first_with_free(s, i + 1)
    }
}

/// The first slab from `i` on whose objects `p` lies in, or the number of
/// slabs.
pub open spec fn first_holding(s: Seq<SlabState>, size: int, p: int, i: int) -> int
    decreases s.len() - i,
{
    if i < 0 || i >= s.len() {
        s.len() as int
    } else if holds_ptr(s[i], size, p) {
        i
    } else {
        first_holding(s, size, p, i + 1)
    }
}

/// The slabs of `s` that have an allocated object, in their order.
pub open spec fn busy_slabs(s: Seq<SlabState>) -> Seq<SlabState> {
    s.filter(slab_busy())
}

/// Whether a slab has an allocated object.
pub open spec fn slab_busy() -> spec_fn(SlabState) -> bool {
    |x: SlabState| x.allocated != 0
}

/// Whether a slab has no allocated object.
pub open spec fn slab_idle() -> spec_fn(SlabState) -> bool {
    |x: SlabState| x.allocated == 0
}

/// The buffers of the slabs of `s` that have no allocated object, in their
/// order.
pub open spec fn idle_buffers(s: Seq<SlabState>) -> Seq<usize> {
    buffers(s.filter(slab_idle()))
}

/// The cache after slab `k` hands out its last free object.
pub open spec fn take_object(c: SlabCacheState, k: int) -> SlabCacheState {
    let s = c.slabs[k];
    SlabCacheState {
        slabs: c.slabs.update(
            k,
            SlabState { free: s.free.drop_last(), allocated: (s.allocated + 1) as usize, ..s },
        ),
        ..c
    }
}

/// The cache after `p` is given back to slab `k`.
pub open spec fn put_object(c: SlabCacheState, k: int, p: usize) -> SlabCacheState {
    let s = c.slabs[k];
    SlabCacheState {
        slabs: c.slabs.update(
            k,
            SlabState { free: s.free.push(p), allocated: (s.allocated - 1) as usize, ..s },
        ),
        ..c
    }
}

/// `p` is one of the objects of the cache.
pub open spec fn is_object(c: SlabCacheState, p: int) -> bool {
    exists|i: int| 0 <= i < c.slabs.len() && #[trigger] is_slot(c.slabs[i], c.layout.size as int, p)
}

/// `p` is an object of the cache that is handed out.
pub open spec fn is_allocated(c: SlabCacheState, p: int) -> bool {
    exists|i: int|
        0 <= i < c.slabs.len() && #[trigger] is_slot(c.slabs[i], c.layout.size as int, p)
            && !c.slabs[i].free.contains(p as usize)
}

/// `p` is an object of the cache that is free.
pub open spec fn is_free_object(c: SlabCacheState, p: int) -> bool {
    exists|i: int|
        0 <= i < c.slabs.len() && #[trigger] is_slot(c.slabs[i], c.layout.size as int, p)
            && c.slabs[i].free.contains(p as usize)
}

/// The pages at `buffer` can back a new slab of the cache: they fit in the
/// address space and share no page with a slab of the cache.
pub open spec fn fresh_pages(c: SlabCacheState, buffer: int) -> bool {
    &&& buffer + c.page_count * 4096 <= usize::MAX
    &&& forall|i: int|
        0 <= i < c.slabs.len() ==> #[trigger] pages_apart(
            c.slabs[i],
            SlabState { buffer: buffer as usize, free: Seq::empty(), allocated: 0, capacity: 0 },
            c.page_count as int,
        )
}

/// The buffers of the slabs, in list order.
pub open spec fn buffers(s: Seq<SlabState>) -> Seq<usize> {
    s.map_values(|x: SlabState| x.buffer)
}

/// What `allocate` asks of its caller.
#[derive(Debug, Clone, Copy, PartialEq, Eq, Structural)]
pub enum AllocateStep {
    /// An object was handed out at this address.
    Allocated(usize),
    /// No slab has a free object: the cache must grow before it can hand one
    /// out.
    NeedsGrow,
}

/// A slab allocator that allocates objects of a fixed layout.
pub struct InternalSlabAllocator {
    /// The list of the slabs
    slabs: Vec<Slab>,
    /// The amount of pages each slab will have
    page_count: usize,
    /// The amount of objects that will be allocated in each slab
    object_count: usize,
    /// The layout of the objects that will be allocated
    layout: ObjectLayout,
}

impl View for InternalSlabAllocator {
    type V = SlabCacheState;

    closed spec fn view(&self) -> SlabCacheState {
        SlabCacheState {
            layout: self.layout,
            page_count: self.page_count,
            object_count: self.object_count,
            slabs: slab_states(self.slabs@),
        }
    }
}

/// What each slab of `v` holds.
pub open spec fn slab_states(v: Seq<Slab>) -> Seq<SlabState> {
    v.map_values(|s: Slab| s@)
}

/// Helper function to align a value up to the next multiple of align
pub fn align_up(value: usize, align: usize) -> (r: usize)
    requires
        exists|n: nat| n < usize::BITS && pow2(n) == align,
        value + align - 1 <= usize::MAX,
    ensures
        r % align == 0,
        value <= r < value + align,
{
    let ghost n = choose|n: nat| n < usize::BITS && pow2(n) == align;
    proof {
        lemma_pow2_pos(n);
    }
    let x: usize = value + (align - 1);
    let m: usize = align - 1;
    let r = x & !m;
    proof {
        assert(m == low_bits_mask(n) as usize);
        lemma_usize_low_bits_mask_is_mod(x, n);
        assert(x & m == x % align);
        assert(r == x - (x & m)) by (bit_vector)
            requires
                r == x & !m,
        ;
        vstd::arithmetic::div_mod::lemma_fundamental_div_mod(x as int, align as int);
        vstd::arithmetic::div_mod::lemma_mod_multiples_basic(x as int / align as int, align as int);
    }
    r
}

/// No address lies in the objects of two slabs of a consistent cache.
pub(crate) proof fn lemma_holder_unique(c: SlabCacheState, i: int, j: int, p: int)
    requires
        cache_ok(c),
        0 <= i < c.slabs.len(),
        0 <= j < c.slabs.len(),
        holds_ptr(c.slabs[i], c.layout.size as int, p),
        holds_ptr(c.slabs[j], c.layout.size as int, p),
    ensures
        i == j,
{
    if i != j {
        assert(pages_apart(c.slabs[i], c.slabs[j], c.page_count as int));
        assert(slab_ok(c.slabs[i], c.layout, c.page_count as int));
        assert(slab_ok(c.slabs[j], c.layout, c.page_count as int));
    }
}

/// A slot is aligned to the layout's alignment.
proof fn lemma_slot_aligned(s: SlabState, layout: ObjectLayout, page_count: int, p: int)
    requires
        slab_ok(s, layout, page_count),
        layout.size > 0,
        is_slot(s, layout.size as int, p),
    ensures
        p % layout.align as int == 0,
{
    let size = layout.size as int;
    let k = (p - s.buffer) / size;
    lemma_fundamental_div_mod(p - s.buffer, size);
    assert(p == s.buffer + k * size);
    if k >= s.capacity {
        lemma_mul_inequality(s.capacity as int, k, size);
    }
    assert(0 <= k < s.capacity) by {
        vstd::arithmetic::div_mod::lemma_div_pos_is_pos(p - s.buffer, size);
    }
    assert(((s.buffer + k * layout.size) % layout.align as int) == 0);
}

/// `first_with_free` finds the first slab with a free object.
pub(crate) proof fn lemma_first_with_free(s: Seq<SlabState>, i: int)
    requires
        0 <= i <= s.len(),
    ensures
        i <= first_with_free(s, i) <= s.len(),
        first_with_free(s, i) < s.len() ==> s[first_with_free(s, i)].free.len() > 0,
        forall|k: int| i <= k < first_with_free(s, i) ==> s[k].free.len() == 0,
    decreases s.len() - i,
{
    if i < s.len() && s[i].free.len() == 0 {
        lemma_first_with_free(s, i + 1);
    }
}

/// `first_holding` finds the first slab whose objects hold `p`.
pub(crate) proof fn lemma_first_holding(s: Seq<SlabState>, size: int, p: int, i: int)
    requires
        0 <= i <= s.len(),
    ensures
        i <= first_holding(s, size, p, i) <= s.len(),
        first_holding(s, size, p, i) < s.len() ==> holds_ptr(
            s[first_holding(s, size, p, i)],
            size,
            p,
        ),
        forall|k: int| i <= k < first_holding(s, size, p, i) ==> !holds_ptr(s[k], size, p),
    decreases s.len() - i,
{
    if i < s.len() && !holds_ptr(s[i], size, p) {
        lemma_first_holding(s, size, p, i + 1);
    }
}

/// Handing out the last free object of slab `k` keeps the cache consistent;
/// that object was free and becomes allocated, and every other address keeps
/// its state.
pub(crate) proof fn lemma_take_object(c: SlabCacheState, k: int)
    requires
        cache_ok(c),
        0 <= k < c.slabs.len(),
        c.slabs[k].free.len() > 0,
    ensures
        ({
            let p = c.slabs[k].free.last() as int;
            let c2 = take_object(c, k);
            &&& cache_ok(c2)
            &&& is_free_object(c, p)
            &&& !is_allocated(c, p)
            &&& is_allocated(c2, p)
            &&& p % c.layout.align as int == 0
            &&& forall|q: int| q != p ==> (is_allocated(c2, q) <==> is_allocated(c, q))
            &&& forall|q: int| q != p ==> (is_free_object(c2, q) <==> is_free_object(c, q))
            &&& forall|q: int| is_object(c2, q) <==> is_object(c, q)
        }),
{
    let s = c.slabs[k];
    let p = s.free.last() as int;
    let size = c.layout.size as int;
    let c2 = take_object(c, k);
    let n = (s.free.len() - 1) as int;
    assert(slab_ok(s, c.layout, c.page_count as int));
    assert(is_slot(s, size, s.free[n] as int));
    assert(s.free[n] % c.layout.align == 0);
    let s2 = c2.slabs[k];
    assert(s2.free =~= s.free.drop_last());
    assert forall|j: int| 0 <= j < s2.free.len() implies is_slot(s2, size, #[trigger] s2.free[j] as int)
        && s2.free[j] % c.layout.align == 0 by {
        assert(s2.free[j] == s.free[j]);
    }
    assert(slab_ok(s2, c.layout, c.page_count as int));
    assert forall|i: int| 0 <= i < c2.slabs.len() implies #[trigger] slab_ok(
        c2.slabs[i],
        c2.layout,
        c2.page_count as int,
    ) && c2.slabs[i].capacity == c2.object_count by {
        if i != k {
            assert(c2.slabs[i] == c.slabs[i]);
        }
    }
    assert forall|i: int, j: int|
        0 <= i < c2.slabs.len() && 0 <= j < c2.slabs.len() && i != j implies pages_apart(
        #[trigger] c2.slabs[i],
        #[trigger] c2.slabs[j],
        c2.page_count as int,
    ) by {
        assert(pages_apart(c.slabs[i], c.slabs[j], c.page_count as int));
    }
    assert(is_free_object(c, p)) by {
        assert(s.free.contains(p as usize)) by {
            assert(s.free[n] == p);
        }
        assert(is_slot(c.slabs[k], size, p));
    }
    assert(!is_allocated(c, p)) by {
        if is_allocated(c, p) {
            let i = choose|i: int|
                0 <= i < c.slabs.len() && #[trigger] is_slot(c.slabs[i], size, p)
                    && !c.slabs[i].free.contains(p as usize);
            lemma_holder_unique(c, i, k, p);
            assert(s.free[n] == p);
        }
    }
    assert(!s2.free.contains(p as usize)) by {
        if s2.free.contains(p as usize) {
            let j = choose|j: int| 0 <= j < s2.free.len() && s2.free[j] == p as usize;
            assert(s.free[j] == s.free[n]);
        }
    }
    assert(is_allocated(c2, p)) by {
        assert(c2.slabs[k] == s2);
        assert(c2.layout == c.layout);
        assert(is_slot(c2.slabs[k], c2.layout.size as int, p) && !c2.slabs[k].free.contains(
            p as usize,
        ));
    }
    assert forall|q: int| q != p implies (is_allocated(c2, q) <==> is_allocated(c, q)) by {
        if is_allocated(c2, q) {
            let i = choose|i: int|
                0 <= i < c2.slabs.len() && #[trigger] is_slot(c2.slabs[i], size, q)
                    && !c2.slabs[i].free.contains(q as usize);
            assert(is_slot(c.slabs[i], size, q));
            if i == k {
                if s.free.contains(q as usize) {
                    let j = choose|j: int| 0 <= j < s.free.len() && s.free[j] == q as usize;
                    assert(j != n);
                    assert(s2.free[j] == q as usize);
                }
            }
        }
        if is_allocated(c, q) {
            let i = choose|i: int|
                0 <= i < c.slabs.len() && #[trigger] is_slot(c.slabs[i], size, q)
                    && !c.slabs[i].free.contains(q as usize);
            assert(is_slot(c2.slabs[i], size, q));
            if i == k {
                if s2.free.contains(q as usize) {
                    let j = choose|j: int| 0 <= j < s2.free.len() && s2.free[j] == q as usize;
                    assert(s.free[j] == q as usize);
                }
            }
        }
    }
    assert forall|q: int| q != p implies (is_free_object(c2, q) <==> is_free_object(c, q)) by {
        if is_free_object(c2, q) {
            let i = choose|i: int|
                0 <= i < c2.slabs.len() && #[trigger] is_slot(c2.slabs[i], size, q)
                    && c2.slabs[i].free.contains(q as usize);
            assert(is_slot(c.slabs[i], size, q));
            if i == k {
                let j = choose|j: int| 0 <= j < s2.free.len() && s2.free[j] == q as usize;
                assert(s.free[j] == q as usize);
            }
        }
        if is_free_object(c, q) {
            let i = choose|i: int|
                0 <= i < c.slabs.len() && #[trigger] is_slot(c.slabs[i], size, q)
                    && c.slabs[i].free.contains(q as usize);
            assert(is_slot(c2.slabs[i], size, q));
            if i == k {
                let j = choose|j: int| 0 <= j < s.free.len() && s.free[j] == q as usize;
                assert(j != n);
                assert(s2.free[j] == q as usize);
            }
        }
    }
    assert forall|q: int| is_object(c2, q) <==> is_object(c, q) by {
        if is_object(c2, q) {
            let i = choose|i: int| 0 <= i < c2.slabs.len() && #[trigger] is_slot(c2.slabs[i], size, q);
            assert(is_slot(c.slabs[i], size, q));
        }
        if is_object(c, q) {
            let i = choose|i: int| 0 <= i < c.slabs.len() && #[trigger] is_slot(c.slabs[i], size, q);
            assert(is_slot(c2.slabs[i], size, q));
        }
    }
}

/// The slab that fresh pages at `buffer` become: all of its objects free.
pub open spec fn new_slab(c: SlabCacheState, buffer: usize) -> SlabState {
    SlabState {
        buffer,
        free: fresh_free_list(buffer as int, c.object_count as int, c.layout.size as int),
        allocated: 0,
        capacity: c.object_count,
    }
}

/// The cache after a slab at `buffer` is added at the back.
pub open spec fn push_slab(c: SlabCacheState, buffer: usize) -> SlabCacheState {
    SlabCacheState { slabs: c.slabs.push(new_slab(c, buffer)), ..c }
}

/// The outcome of growing the cache with the pages the caller got, or
/// failed to get, and allocating from the new slab: the object handed out,
/// or the error, and the cache after it.
pub open spec fn cache_grow_outcome(c: SlabCacheState, pages: Result<usize, PagingError>) -> (
    Result<usize, SlabError>,
    SlabCacheState,
) {
    match pages {
        Err(_) => (Err(SlabError::PagingError), c),
        Ok(b) => if !slots_aligned(c, b as int) {
            (Err(SlabError::InvalidLayout), c)
        } else if c.object_count == 0 {
            (Err(SlabError::SlabFullInternalError), push_slab(c, b))
        } else {
            (
                Ok((b + (c.object_count - 1) * c.layout.size) as usize),
                take_object(push_slab(c, b), c.slabs.len() as int),
            )
        },
    }
}

/// Every object of a slab at `buffer` would be aligned to the cache's
/// alignment.
pub open spec fn slots_aligned(c: SlabCacheState, buffer: int) -> bool {
    forall|i: int|
        0 <= i < c.object_count ==> #[trigger] ((buffer + i * c.layout.size) % c.layout.align as int)
            == 0
}

/// The objects of a slab of a consistent cache fit in its pages, after its
/// record.
proof fn lemma_objects_fit(c: SlabCacheState)
    requires
        cache_ok(c),
    ensures
        c.object_count * c.layout.size + SLAB_NODE_SIZE <= c.page_count * 4096,
        ({
            let available = c.page_count * 4096 - SLAB_NODE_SIZE;
            c.object_count * c.layout.size <= available - available % 8
        }),
{
    let available = c.page_count * 4096 - SLAB_NODE_SIZE;
    let usable = available - available % 8;
    lemma_fundamental_div_mod(usable, c.layout.size as int);
    vstd::arithmetic::mul::lemma_mul_is_commutative(c.object_count as int, c.layout.size as int);
}

/// Adding a slab on fresh pages whose objects are all aligned keeps the cache
/// consistent, and adds only free objects.
proof fn lemma_push_slab(c: SlabCacheState, buffer: usize)
    requires
        cache_ok(c),
        fresh_pages(c, buffer as int),
        slots_aligned(c, buffer as int),
    ensures
        cache_ok(push_slab(c, buffer)),
        forall|q: int| #[trigger] is_allocated(push_slab(c, buffer), q) <==> is_allocated(c, q),
        forall|q: int|
            is_slot(new_slab(c, buffer), c.layout.size as int, q) ==> !#[trigger] is_object(c, q),
{
    let s = new_slab(c, buffer);
    let c2 = push_slab(c, buffer);
    let size = c.layout.size as int;
    let n = c.slabs.len() as int;
    lemma_objects_fit(c);
    assert forall|j: int| 0 <= j < s.free.len() implies is_slot(s, size, #[trigger] s.free[j] as int)
        && s.free[j] % c.layout.align == 0 by {
        lemma_slot_in_range(j, c.object_count as int, size);
        assert(s.free[j] == buffer + j * size);
        assert(((buffer + j * c.layout.size) % c.layout.align as int) == 0);
    }
    assert(s.free.no_duplicates()) by {
        assert forall|a: int, b: int| 0 <= a < s.free.len() && 0 <= b < s.free.len() && a != b implies s.free[a]
            != s.free[b] by {
            lemma_slot_in_range(a, c.object_count as int, size);
            lemma_slot_in_range(b, c.object_count as int, size);
            if a < b {
                lemma_mul_strict_inequality(a, b, size);
            } else {
                lemma_mul_strict_inequality(b, a, size);
            }
        }
    }
    assert(slab_ok(s, c.layout, c.page_count as int));
    assert forall|i: int| 0 <= i < c2.slabs.len() implies #[trigger] slab_ok(
        c2.slabs[i],
        c2.layout,
        c2.page_count as int,
    ) && c2.slabs[i].capacity == c2.object_count by {
        if i < n {
            assert(c2.slabs[i] == c.slabs[i]);
        }
    }
    assert forall|i: int, j: int|
        0 <= i < c2.slabs.len() && 0 <= j < c2.slabs.len() && i != j implies pages_apart(
        #[trigger] c2.slabs[i],
        #[trigger] c2.slabs[j],
        c2.page_count as int,
    ) by {
        if i < n && j < n {
            assert(pages_apart(c.slabs[i], c.slabs[j], c.page_count as int));
        } else if i < n {
            assert(pages_apart(
                c.slabs[i],
                SlabState { buffer, free: Seq::empty(), allocated: 0, capacity: 0 },
                c.page_count as int,
            ));
        } else {
            assert(pages_apart(
                c.slabs[j],
                SlabState { buffer, free: Seq::empty(), allocated: 0, capacity: 0 },
                c.page_count as int,
            ));
        }
    }
    assert forall|q: int| is_slot(s, size, q) implies !#[trigger] is_object(c, q) by {
        if is_object(c, q) {
            let i = choose|i: int| 0 <= i < c.slabs.len() && #[trigger] is_slot(c.slabs[i], size, q);
            assert(slab_ok(c.slabs[i], c.layout, c.page_count as int));
            assert(pages_apart(
                c.slabs[i],
                SlabState { buffer, free: Seq::empty(), allocated: 0, capacity: 0 },
                c.page_count as int,
            ));
        }
    }
    assert forall|q: int| #[trigger] is_allocated(c2, q) <==> is_allocated(c, q) by {
        if is_allocated(c2, q) {
            let i = choose|i: int|
                0 <= i < c2.slabs.len() && #[trigger] is_slot(c2.slabs[i], size, q)
                    && !c2.slabs[i].free.contains(q as usize);
            if i == n {
                assert(c2.slabs[i] == s);
                let k = (q - buffer) / size;
                lemma_fundamental_div_mod(q - buffer, size);
                vstd::arithmetic::div_mod::lemma_div_pos_is_pos(q - buffer, size);
                if k >= c.object_count {
                    lemma_mul_inequality(c.object_count as int, k, size);
                }
                vstd::arithmetic::mul::lemma_mul_is_commutative(k, size);
                assert(q == buffer + k * size);
                assert(0 <= q <= usize::MAX);
                assert(s.free[k] == q as usize);
                assert(s.free.contains(q as usize));
            } else {
                assert(c2.slabs[i] == c.slabs[i]);
            }
        }
        if is_allocated(c, q) {
            let i = choose|i: int|
                0 <= i < c.slabs.len() && #[trigger] is_slot(c.slabs[i], size, q)
                    && !c.slabs[i].free.contains(q as usize);
            assert(c2.slabs[i] == c.slabs[i]);
            assert(is_slot(c2.slabs[i], c2.layout.size as int, q));
        }
    }
}

/// The index of slot `p` of a slab at `buffer`, for objects of `size` bytes.
pub open spec fn slot_index(buffer: int, size: int, p: int) -> int {
    (p - buffer) / size
}

/// A slot of `s` is its buffer plus its index times the object size, and its
/// index is below the slab's capacity.
pub(crate) proof fn lemma_slot_index(s: SlabState, size: int, p: int)
    requires
        size > 0,
        is_slot(s, size, p),
    ensures
        p == s.buffer + slot_index(s.buffer as int, size, p) * size,
        0 <= slot_index(s.buffer as int, size, p) < s.capacity,
{
    let k = slot_index(s.buffer as int, size, p);
    lemma_fundamental_div_mod(p - s.buffer, size);
    vstd::arithmetic::mul::lemma_mul_is_commutative(k, size);
    vstd::arithmetic::div_mod::lemma_div_pos_is_pos(p - s.buffer, size);
    if k >= s.capacity {
        lemma_mul_inequality(s.capacity as int, k, size);
    }
}

/// A slab whose free list misses one of its slots has fewer free objects
/// than its capacity.
proof fn lemma_missing_slot(s: SlabState, layout: ObjectLayout, page_count: int, p: int)
    requires
        slab_ok(s, layout, page_count),
        layout.size > 0,
        is_slot(s, layout.size as int, p),
        !s.free.contains(p as usize),
    ensures
        s.free.len() < s.capacity,
{
    let size = layout.size as int;
    let b = s.buffer as int;
    let idxs = s.free.map_values(|v: usize| slot_index(b, size, v as int));
    let ip = slot_index(b, size, p);
    lemma_slot_index(s, size, p);
    assert forall|j: int| 0 <= j < idxs.len() implies 0 <= #[trigger] idxs[j] < s.capacity && idxs[j]
        != ip by {
        assert(is_slot(s, size, s.free[j] as int));
        lemma_slot_index(s, size, s.free[j] as int);
        if idxs[j] == ip {
            assert(s.free[j] == p as usize);
        }
    }
    assert(idxs.no_duplicates()) by {
        assert forall|a: int, c: int| 0 <= a < idxs.len() && 0 <= c < idxs.len() && a != c implies idxs[a]
            != idxs[c] by {
            assert(is_slot(s, size, s.free[a] as int));
            assert(is_slot(s, size, s.free[c] as int));
            lemma_slot_index(s, size, s.free[a] as int);
            lemma_slot_index(s, size, s.free[c] as int);
        }
    }
    idxs.unique_seq_to_set();
    lemma_int_range(0, s.capacity as int);
    let range = set_int_range(0, s.capacity as int).remove(ip);
    assert(idxs.to_set().subset_of(range));
    lemma_len_subset(idxs.to_set(), range);
}

/// Giving back allocated object `p` to its slab `k` keeps the cache
/// consistent; `p` was allocated and becomes free, and every other address
/// keeps its state.
#[verifier::spinoff_prover]
#[verifier::rlimit(40)]
pub(crate) proof fn lemma_put_object(c: SlabCacheState, k: int, p: usize)
    requires
        cache_ok(c),
        0 <= k < c.slabs.len(),
        is_slot(c.slabs[k], c.layout.size as int, p as int),
        !c.slabs[k].free.contains(p),
    ensures
        ({
            let c2 = put_object(c, k, p);
            &&& c.slabs[k].allocated >= 1
            &&& cache_ok(c2)
            &&& is_allocated(c, p as int)
            &&& !is_allocated(c2, p as int)
            &&& is_free_object(c2, p as int)
            &&& forall|q: int| q != p ==> (is_allocated(c2, q) <==> is_allocated(c, q))
            &&& forall|q: int| is_object(c2, q) <==> is_object(c, q)
        }),
{
    let s = c.slabs[k];
    let size = c.layout.size as int;
    let c2 = put_object(c, k, p);
    let s2 = c2.slabs[k];
    assert(slab_ok(s, c.layout, c.page_count as int));
    lemma_missing_slot(s, c.layout, c.page_count as int, p as int);
    lemma_slot_aligned(s, c.layout, c.page_count as int, p as int);
    assert(s2.free =~= s.free.push(p));
    assert forall|j: int| 0 <= j < s2.free.len() implies is_slot(s2, size, #[trigger] s2.free[j] as int)
        && s2.free[j] % c.layout.align == 0 by {
        if j < s.free.len() {
            assert(s2.free[j] == s.free[j]);
        }
    }
    assert(s2.free.no_duplicates()) by {
        assert forall|a: int, b: int| 0 <= a < s2.free.len() && 0 <= b < s2.free.len() && a != b implies s2.free[a]
            != s2.free[b] by {
            if a == s.free.len() {
                assert(s.free.contains(s2.free[b]));
            } else if b == s.free.len() {
                assert(s.free.contains(s2.free[a]));
            }
        }
    }
    assert(slab_ok(s2, c.layout, c.page_count as int));
    assert forall|i: int| 0 <= i < c2.slabs.len() implies #[trigger] slab_ok(
        c2.slabs[i],
        c2.layout,
        c2.page_count as int,
    ) && c2.slabs[i].capacity == c2.object_count by {
        if i != k {
            assert(c2.slabs[i] == c.slabs[i]);
        }
    }
    assert forall|i: int, j: int|
        0 <= i < c2.slabs.len() && 0 <= j < c2.slabs.len() && i != j implies pages_apart(
        #[trigger] c2.slabs[i],
        #[trigger] c2.slabs[j],
        c2.page_count as int,
    ) by {
        assert(pages_apart(c.slabs[i], c.slabs[j], c.page_count as int));
    }
    assert(is_allocated(c, p as int)) by {
        assert(is_slot(c.slabs[k], c.layout.size as int, p as int));
    }
    assert(s2.free.contains(p)) by {
        assert(s2.free[s.free.len() as int] == p);
    }
    assert(is_free_object(c2, p as int)) by {
        assert(c2.slabs[k] == s2);
        assert(is_slot(c2.slabs[k], c2.layout.size as int, p as int));
    }
    assert(!is_allocated(c2, p as int)) by {
        if is_allocated(c2, p as int) {
            let i = choose|i: int|
                0 <= i < c2.slabs.len() && #[trigger] is_slot(c2.slabs[i], size, p as int)
                    && !c2.slabs[i].free.contains(p);
            assert(is_slot(c.slabs[i], size, p as int));
            lemma_holder_unique(c, i, k, p as int);
        }
    }
    assert forall|q: int| q != p implies (is_allocated(c2, q) <==> is_allocated(c, q)) by {
        if is_allocated(c2, q) {
            let i = choose|i: int|
                0 <= i < c2.slabs.len() && #[trigger] is_slot(c2.slabs[i], size, q)
                    && !c2.slabs[i].free.contains(q as usize);
            assert(is_slot(c.slabs[i], size, q));
            if i == k {
                if s.free.contains(q as usize) {
                    let j = choose|j: int| 0 <= j < s.free.len() && s.free[j] == q as usize;
                    assert(s2.free[j] == q as usize);
                }
            }
        }
        if is_allocated(c, q) {
            let i = choose|i: int|
                0 <= i < c.slabs.len() && #[trigger] is_slot(c.slabs[i], size, q)
                    && !c.slabs[i].free.contains(q as usize);
            assert(is_slot(c2.slabs[i], c2.layout.size as int, q));
            if i == k {
                if s2.free.contains(q as usize) {
                    let j = choose|j: int| 0 <= j < s2.free.len() && s2.free[j] == q as usize;
                    if j < s.free.len() {
                        assert(s.free[j] == q as usize);
                    } else {
                        assert(q as usize == p);
                        assert(q <= usize::MAX);
                    }
                }
            }
        }
    }
    assert forall|q: int| is_object(c2, q) <==> is_object(c, q) by {
        if is_object(c2, q) {
            let i = choose|i: int| 0 <= i < c2.slabs.len() && #[trigger] is_slot(c2.slabs[i], size, q);
            assert(is_slot(c.slabs[i], size, q));
        }
        if is_object(c, q) {
            let i = choose|i: int| 0 <= i < c.slabs.len() && #[trigger] is_slot(c.slabs[i], size, q);
            assert(is_slot(c2.slabs[i], c2.layout.size as int, q));
        }
    }
}

/// How freeing `p` in slab `k`, the slab whose objects hold it, relates to
/// the state of `p` in the cache.
proof fn lemma_free_outcome(c: SlabCacheState, k: int, p: usize)
    requires
        cache_ok(c),
        0 <= k < c.slabs.len(),
        holds_ptr(c.slabs[k], c.layout.size as int, p as int),
        p % c.layout.align == 0,
    ensures
        (p - c.slabs[k].buffer) % (c.layout.size as int) != 0 ==> !is_object(c, p as int),
        (p - c.slabs[k].buffer) % (c.layout.size as int) == 0 ==> {
            &&& is_object(c, p as int)
            &&& (c.slabs[k].free.contains(p) <==> is_free_object(c, p as int))
            &&& (!c.slabs[k].free.contains(p) <==> is_allocated(c, p as int))
            &&& !(is_free_object(c, p as int) && is_allocated(c, p as int))
        },
{
    let size = c.layout.size as int;
    if is_object(c, p as int) {
        let i = choose|i: int| 0 <= i < c.slabs.len() && #[trigger] is_slot(c.slabs[i], size, p as int);
        lemma_holder_unique(c, i, k, p as int);
    }
    if (p - c.slabs[k].buffer) % size == 0 {
        assert(is_slot(c.slabs[k], size, p as int));
        if is_free_object(c, p as int) {
            let i = choose|i: int|
                0 <= i < c.slabs.len() && #[trigger] is_slot(c.slabs[i], size, p as int)
                    && c.slabs[i].free.contains(p as int as usize);
            lemma_holder_unique(c, i, k, p as int);
        }
        if is_allocated(c, p as int) {
            let i = choose|i: int|
                0 <= i < c.slabs.len() && #[trigger] is_slot(c.slabs[i], size, p as int)
                    && !c.slabs[i].free.contains(p as int as usize);
            lemma_holder_unique(c, i, k, p as int);
        }
    }
}

/// A slab with an allocated object count above zero has a slot missing from
/// its free list.
proof fn lemma_busy_slab(s: SlabState, layout: ObjectLayout, page_count: int) -> (p: int)
    requires
        slab_ok(s, layout, page_count),
        layout.size > 0,
        s.allocated != 0,
    ensures
        is_slot(s, layout.size as int, p),
        !s.free.contains(p as usize),
{
    let size = layout.size as int;
    let b = s.buffer as int;
    let idxs = s.free.map_values(|v: usize| slot_index(b, size, v as int));
    assert forall|j: int| 0 <= j < idxs.len() implies 0 <= #[trigger] idxs[j] < s.capacity by {
        assert(is_slot(s, size, s.free[j] as int));
        lemma_slot_index(s, size, s.free[j] as int);
    }
    assert(idxs.no_duplicates()) by {
        assert forall|a: int, c: int| 0 <= a < idxs.len() && 0 <= c < idxs.len() && a != c implies idxs[a]
            != idxs[c] by {
            assert(is_slot(s, size, s.free[a] as int));
            assert(is_slot(s, size, s.free[c] as int));
            lemma_slot_index(s, size, s.free[a] as int);
            lemma_slot_index(s, size, s.free[c] as int);
        }
    }
    idxs.unique_seq_to_set();
    lemma_int_range(0, s.capacity as int);
    let range = set_int_range(0, s.capacity as int);
    if range.subset_of(idxs.to_set()) {
        lemma_len_subset(range, idxs.to_set());
        assert(false);
    }
    let k = choose|k: int| range.contains(k) && !idxs.to_set().contains(k);
    let p = b + k * size;
    lemma_slot_in_range(k, s.capacity as int, size);
    lemma_mod_multiples_basic(k, size);
    assert(is_slot(s, size, p));
    if s.free.contains(p as usize) {
        let j = choose|j: int| 0 <= j < s.free.len() && s.free[j] == p as usize;
        assert(is_slot(s, size, s.free[j] as int));
        lemma_slot_index(s, size, s.free[j] as int);
        vstd::arithmetic::div_mod::lemma_div_multiples_vanish(k, size);
        vstd::arithmetic::mul::lemma_mul_is_commutative(k, size);
        assert(idxs[j] == k);
        assert(idxs.to_set().contains(k));
    }
    p
}

/// Every slot of a slab with no allocated object is free.
proof fn lemma_idle_slab(s: SlabState, layout: ObjectLayout, page_count: int, p: int)
    requires
        slab_ok(s, layout, page_count),
        layout.size > 0,
        s.allocated == 0,
        is_slot(s, layout.size as int, p),
    ensures
        s.free.contains(p as usize),
{
    if !s.free.contains(p as usize) {
        lemma_missing_slot(s, layout, page_count, p);
    }
}

/// Taking out slab `k`, which has no allocated object, leaves a consistent
/// cache consistent and keeps every address's allocated state.
proof fn lemma_remove_idle(c: SlabCacheState, k: int)
    requires
        cache_ok(c),
        0 <= k < c.slabs.len(),
        c.slabs[k].allocated == 0,
    ensures
        cache_ok(SlabCacheState { slabs: c.slabs.remove(k), ..c }),
        forall|q: int|
            #[trigger] is_allocated(SlabCacheState { slabs: c.slabs.remove(k), ..c }, q)
                <==> is_allocated(c, q),
{
    let c2 = SlabCacheState { slabs: c.slabs.remove(k), ..c };
    let size = c.layout.size as int;
    assert forall|i: int| 0 <= i < c2.slabs.len() implies #[trigger] slab_ok(
        c2.slabs[i],
        c2.layout,
        c2.page_count as int,
    ) && c2.slabs[i].capacity == c2.object_count by {
        let o = if i < k { i } else { i + 1 };
        assert(c2.slabs[i] == c.slabs[o]);
        assert(slab_ok(c.slabs[o], c.layout, c.page_count as int));
    }
    assert forall|i: int, j: int|
        0 <= i < c2.slabs.len() && 0 <= j < c2.slabs.len() && i != j implies pages_apart(
        #[trigger] c2.slabs[i],
        #[trigger] c2.slabs[j],
        c2.page_count as int,
    ) by {
        let oi = if i < k { i } else { i + 1 };
        let oj = if j < k { j } else { j + 1 };
        assert(c2.slabs[i] == c.slabs[oi]);
        assert(c2.slabs[j] == c.slabs[oj]);
        assert(pages_apart(c.slabs[oi], c.slabs[oj], c.page_count as int));
    }
    assert forall|q: int| #[trigger] is_allocated(c2, q) <==> is_allocated(c, q) by {
        if is_allocated(c2, q) {
            let i = choose|i: int|
                0 <= i < c2.slabs.len() && #[trigger] is_slot(c2.slabs[i], size, q)
                    && !c2.slabs[i].free.contains(q as usize);
            let o = if i < k { i } else { i + 1 };
            assert(c2.slabs[i] == c.slabs[o]);
            assert(is_slot(c.slabs[o], size, q));
        }
        if is_allocated(c, q) {
            let i = choose|i: int|
                0 <= i < c.slabs.len() && #[trigger] is_slot(c.slabs[i], size, q)
                    && !c.slabs[i].free.contains(q as usize);
            if i == k {
                assert(slab_ok(c.slabs[i], c.layout, c.page_count as int));
                lemma_idle_slab(c.slabs[i], c.layout, c.page_count as int, q);
            } else {
                let n = if i < k { i } else { i - 1 };
                assert(c2.slabs[n] == c.slabs[i]);
                assert(is_slot(c2.slabs[n], c2.layout.size as int, q));
            }
        }
    }
}

/// One more slab of `s` sorted: the busy ones and the idle buffers of
/// `s.take(j + 1)` extend those of `s.take(j)` by slab `j`.
proof fn lemma_sort_next(s: Seq<SlabState>, j: int)
    requires
        0 <= j < s.len(),
    ensures
        s[j].allocated != 0 ==> busy_slabs(s.take(j + 1)) == busy_slabs(s.take(j)).push(s[j])
            && idle_buffers(s.take(j + 1)) == idle_buffers(s.take(j)),
        s[j].allocated == 0 ==> busy_slabs(s.take(j + 1)) == busy_slabs(s.take(j))
            && idle_buffers(s.take(j + 1)) == idle_buffers(s.take(j)).push(s[j].buffer),
{
    assert(s.take(j + 1) =~= s.take(j).push(s[j]));
    let busy = slab_busy();
    let idle = slab_idle();
    s.take(j).lemma_filter_push(s[j], busy);
    s.take(j).lemma_filter_push(s[j], idle);
    assert(busy_slabs(s.take(j + 1)) == s.take(j).push(s[j]).filter(busy));
    assert(busy_slabs(s.take(j)) == s.take(j).filter(busy));
    assert(idle_buffers(s.take(j + 1)) == buffers(s.take(j).push(s[j]).filter(idle)));
    assert(idle_buffers(s.take(j)) == buffers(s.take(j).filter(idle)));
    if s[j].allocated == 0 {
        assert(buffers(s.take(j).filter(idle).push(s[j])) =~= buffers(s.take(j).filter(idle)).push(
            s[j].buffer,
        ));
    }
}

impl InternalSlabAllocator {
    /// Whether the pages at `buffer` can back a new slab of this cache: the
    /// slab's pages end in the address space and share no page with a slab
    /// of the cache. It is the test `grow_and_allocate` asks of its pages.
    pub fn pages_fresh(&self, buffer: usize) -> (r: bool)
        ensures
            r == fresh_pages(self@, buffer as int),
    {
        let span = self.page_count as u128 * 4096;
        if buffer as u128 + span > usize::MAX as u128 {
            return false;
        }
        let mut i: usize = 0;
        while i < self.slabs.len()
            invariant
                span == self.page_count * 4096,
                buffer + span <= usize::MAX,
                i <= self.slabs@.len(),
                forall|k: int|
                    0 <= k < i ==> #[trigger] pages_apart(
                        self@.slabs[k],
                        SlabState { buffer: buffer as usize, free: Seq::empty(), allocated: 0, capacity: 0 },
                        self@.page_count as int,
                    ),
            decreases self.slabs@.len() - i,
        {
            let b = self.slabs[i].buffer;
            assert(self@.slabs[i as int].buffer == b);
            if !(b as u128 + span <= buffer as u128 || buffer as u128 + span <= b as u128) {
                assert(!pages_apart(
                    self@.slabs[i as int],
                    SlabState { buffer: buffer as usize, free: Seq::empty(), allocated: 0, capacity: 0 },
                    self@.page_count as int,
                ));
                return false;
            }
            i = i + 1;
        }
        true
    }

    /// Creates a new slab allocator for objects of `layout`, adjusted to at
    /// least a free-list node's size and alignment, with one page per slab.
    pub fn new(layout: ObjectLayout) -> (r: Self)
        ensures
            r@ == (SlabCacheState {
                layout: adjusted(layout),
                page_count: 1,
                object_count: object_count_for(adjusted(layout).size as int, 1) as usize,
                slabs: Seq::empty(),
            }),
            cache_ok(r@),
    {
        let adjusted_layout = Self::adjust_layout(layout);
        let page_count: usize = 1;
        let object_count = Self::calculate_object_count(adjusted_layout, page_count);
        let r = Self { slabs: Vec::new(), layout: adjusted_layout, page_count, object_count };
        assert(r@.slabs =~= Seq::<SlabState>::empty());
        r
    }

    /// Adjusts layout to meet minimum requirements
    fn adjust_layout(layout: ObjectLayout) -> (r: ObjectLayout)
        ensures
            r == adjusted(layout),
    {
        let size = if layout.size >= OBJECT_NODE_SIZE {
            layout.size
        } else {
            OBJECT_NODE_SIZE
        };
        let align = if layout.align >= OBJECT_NODE_ALIGN {
            layout.align
        } else {
            OBJECT_NODE_ALIGN
        };
        ObjectLayout { size, align }
    }

    /// Calculate how many objects can fit in a slab: the objects, rounded up
    /// to the alignment of the slab's record, and the record fit in the
    /// slab's pages.
    pub fn calculate_object_count(layout: ObjectLayout, page_count: usize) -> (r: usize)
        requires
            layout.size > 0,
            page_count >= 1,
            page_count * 4096 <= usize::MAX,
        ensures
            r == object_count_for(layout.size as int, page_count as int),
            r * layout.size + SLAB_NODE_SIZE <= page_count * 4096,
            ({
                let available = page_count * 4096 - SLAB_NODE_SIZE;
                r * layout.size <= available - available % (SLAB_NODE_ALIGN as int)
            }),
    {
        let total_size = page_count * BASIC_PAGE_SIZE;
        let metadata_size = SLAB_NODE_SIZE;
        // Account for alignment of metadata
        let available_for_objects = total_size - metadata_size;
        let alignment_waste = available_for_objects % SLAB_NODE_ALIGN;
        let usable_space = available_for_objects - alignment_waste;
        let r = usable_space / layout.size;
        proof {
            lemma_fundamental_div_mod(usable_space as int, layout.size as int);
            vstd::arithmetic::mul::lemma_mul_is_commutative(r as int, layout.size as int);
        }
        r
    }

    /// The layout of the objects the allocator hands out.
    pub fn layout(&self) -> (r: ObjectLayout)
        ensures
            r == self@.layout,
    {
        self.layout
    }

    /// The amount of pages each slab has.
    pub fn page_count(&self) -> (r: usize)
        ensures
            r == self@.page_count,
    {
        self.page_count
    }

    /// The amount of objects each slab holds.
    pub fn object_count(&self) -> (r: usize)
        ensures
            r == self@.object_count,
    {
        self.object_count
    }

    /// The number of slabs.
    pub fn slab_count(&self) -> (r: usize)
        ensures
            r == self@.slabs.len(),
    {
        self.slabs.len()
    }

    /// Allocates an object from the slabs at hand, from the first slab with a
    /// free object; when none has one, asks for the cache to grow.
    pub fn allocate(&mut self) -> (r: AllocateStep)
        requires
            cache_ok(old(self)@),
        ensures
            cache_ok(final(self)@),
            ({
                let k = first_with_free(old(self)@.slabs, 0);
                if k == old(self)@.slabs.len() {
                    r == AllocateStep::NeedsGrow && final(self)@ == old(self)@
                } else {
                    r == AllocateStep::Allocated(old(self)@.slabs[k].free.last()) && final(self)@
                        == take_object(old(self)@, k)
                }
            }),
            r matches AllocateStep::Allocated(p) ==> {
                &&& !is_allocated(old(self)@, p as int)
                &&& is_free_object(old(self)@, p as int)
                &&& is_allocated(final(self)@, p as int)
                &&& p % old(self)@.layout.align == 0
                &&& forall|q: int|
                    q != p ==> (is_allocated(final(self)@, q) <==> is_allocated(old(self)@, q))
            },
    {
        let ghost c0 = self@;
        proof {
            lemma_first_with_free(c0.slabs, 0);
        }
        let mut i: usize = 0;
        while i < self.slabs.len()
            invariant
                self@ == c0,
                c0 == old(self)@,
                cache_ok(c0),
                i <= c0.slabs.len(),
                self.slabs@.len() == c0.slabs.len(),
                forall|k: int| 0 <= k < i ==> c0.slabs[k].free.len() == 0,
                first_with_free(c0.slabs, 0) >= i,
                first_with_free(c0.slabs, 0) <= c0.slabs.len(),
                first_with_free(c0.slabs, 0) < c0.slabs.len() ==> c0.slabs[first_with_free(
                    c0.slabs,
                    0,
                )].free.len() > 0,
                forall|k: int| 0 <= k < first_with_free(c0.slabs, 0) ==> c0.slabs[k].free.len() == 0,
            decreases c0.slabs.len() - i,
        {
            let layout = self.layout;
            let ghost s = c0.slabs[i as int];
            assert(self.slabs@[i as int]@ == s);
            assert(slab_ok(s, c0.layout, c0.page_count as int));
            match self.slabs[i].allocate(layout) {
                Ok(p) => {
                    proof {
                        assert(first_with_free(c0.slabs, 0) == i);
                        assert(p == c0.slabs[i as int].free.last());
                        assert(self@.slabs =~= take_object(c0, i as int).slabs);
                        assert(self@ =~= take_object(c0, i as int));
                        lemma_take_object(c0, i as int);
                    }
                    return AllocateStep::Allocated(p);
                },
                Err(_) => {
                    proof {
                        if s.free.len() > 0 {
                            let n = (s.free.len() - 1) as int;
                            assert(s.free[n] % c0.layout.align == 0);
                        }
                        assert(self@.slabs =~= c0.slabs);
                        assert(self@ =~= c0);
                    }
                },
            }
            i = i + 1;
        }
        AllocateStep::NeedsGrow
    }

    /// Grows the cache by a slab on the pages the caller got for it.
    fn grow(&mut self, pages: Result<usize, PagingError>) -> (r: Result<(), SlabError>)
        requires
            cache_ok(old(self)@),
            pages matches Ok(b) ==> fresh_pages(old(self)@, b as int),
        ensures
            cache_ok(final(self)@),
            match pages {
                Err(_) => r == Err::<(), SlabError>(SlabError::PagingError) && final(self)@ == old(
                    self,
                )@,
                Ok(b) => if slots_aligned(old(self)@, b as int) {
                    r == Ok::<(), SlabError>(()) && final(self)@ == push_slab(old(self)@, b)
                } else {
                    r == Err::<(), SlabError>(SlabError::InvalidLayout) && final(self)@ == old(self)@
                },
            },
    {
        let buffer = match pages {
            Ok(b) => b,
            Err(_) => return Err(SlabError::PagingError),
        };
        proof {
            lemma_objects_fit(self@);
        }
        // Calculate where the slab's record goes, after its objects
        let objects_size = self.object_count * self.layout.size;
        proof {
            lemma2_to64();
            assert(3 < usize::BITS && pow2(3) == SLAB_NODE_ALIGN);
        }
        let metadata_offset = align_up(objects_size, SLAB_NODE_ALIGN);
        assert(metadata_offset + SLAB_NODE_SIZE <= self.page_count * BASIC_PAGE_SIZE);
        // Create the slab
        let slab = match Slab::new(buffer, self.object_count, self.layout) {
            Ok(s) => s,
            Err(e) => return Err(e),
        };
        proof {
            lemma_push_slab(self@, buffer);
        }
        self.slabs.push(slab);
        assert(self@.slabs =~= push_slab(old(self)@, buffer).slabs);
        assert(self@ =~= push_slab(old(self)@, buffer));
        Ok(())
    }

    /// Grows the cache by a slab on the pages the caller got for it, and
    /// allocates an object from that slab.
    pub fn grow_and_allocate(&mut self, pages: Result<usize, PagingError>) -> (r: Result<
        usize,
        SlabError,
    >)
        requires
            cache_ok(old(self)@),
            pages matches Ok(b) ==> fresh_pages(old(self)@, b as int),
        ensures
            cache_ok(final(self)@),
            (r, final(self)@) == cache_grow_outcome(old(self)@, pages),
            match pages {
                Err(_) => r == Err::<usize, SlabError>(SlabError::PagingError) && final(self)@ == old(
                    self,
                )@,
                Ok(b) => if !slots_aligned(old(self)@, b as int) {
                    r == Err::<usize, SlabError>(SlabError::InvalidLayout) && final(self)@ == old(
                        self,
                    )@
                } else if old(self)@.object_count == 0 {
                    r == Err::<usize, SlabError>(SlabError::SlabFullInternalError) && final(self)@
                        == push_slab(old(self)@, b)
                } else {
                    r == Ok::<usize, SlabError>(
                        (b + (old(self)@.object_count - 1) * old(self)@.layout.size) as usize,
                    ) && final(self)@ == take_object(
                        push_slab(old(self)@, b),
                        old(self)@.slabs.len() as int,
                    )
                },
            },
            r is Err ==> forall|q: int|
                is_allocated(final(self)@, q) <==> is_allocated(old(self)@, q),
            r matches Ok(p) ==> {
                &&& !is_object(old(self)@, p as int)
                &&& is_allocated(final(self)@, p as int)
                &&& p % old(self)@.layout.align == 0
                &&& forall|q: int|
                    q != p ==> (is_allocated(final(self)@, q) <==> is_allocated(old(self)@, q))
            },
    {
        match self.grow(pages) {
            Ok(()) => {},
            Err(e) => return Err(e),
        }
        let ghost c1 = self@;
        let ghost b = pages->Ok_0;
        proof {
            assert(pages is Ok);
            assert(slots_aligned(old(self)@, b as int));
            assert(c1 == push_slab(old(self)@, b));
            assert(self.slabs@.len() == c1.slabs.len());
            lemma_push_slab(old(self)@, b);
        }
        let last = self.slabs.len() - 1;
        let layout = self.layout;
        assert(self@.slabs[last as int] == new_slab(old(self)@, b));
        assert(self.slabs@[last as int]@ == new_slab(old(self)@, b));
        let r = self.slabs[last].allocate(layout);
        match r {
            Ok(p) => {
                proof {
                    let n = (old(self)@.object_count - 1) as int;
                    assert(new_slab(old(self)@, b).free[n] == p);
                    assert(self@.slabs =~= take_object(c1, last as int).slabs);
                    assert(self@ =~= take_object(c1, last as int));
                    lemma_take_object(c1, last as int);
                    lemma_slot_in_range(n, old(self)@.object_count as int, layout.size as int);
                    assert(is_slot(new_slab(old(self)@, b), layout.size as int, p as int));
                }
                Ok(p)
            },
            Err(_) => {
                proof {
                    if old(self)@.object_count > 0 {
                        let n = (old(self)@.object_count - 1) as int;
                        assert(slab_ok(c1.slabs[last as int], c1.layout, c1.page_count as int));
                        assert(c1.slabs[last as int].free[n] % layout.align == 0);
                    }
                    assert(self@.slabs =~= c1.slabs);
                    assert(self@ =~= c1);
                }
                Err(SlabError::SlabFullInternalError)
            },
        }
    }

    /// Frees the object at `ptr`: it goes back to the free list of the slab
    /// whose objects hold it.
    pub fn free(&mut self, ptr: usize) -> (r: Result<(), SlabError>)
        requires
            cache_ok(old(self)@),
        ensures
            cache_ok(final(self)@),
            ({
                let c = old(self)@;
                let size = c.layout.size as int;
                let k = first_holding(c.slabs, size, ptr as int, 0);
                if ptr % c.layout.align != 0 || k == c.slabs.len() || (ptr - c.slabs[k].buffer) % size
                    != 0 {
                    r == Err::<(), SlabError>(SlabError::BadPtrRange) && final(self)@ == c
                } else if c.slabs[k].free.contains(ptr) {
                    r == Err::<(), SlabError>(SlabError::DoubleFree) && final(self)@ == c
                } else {
                    r == Ok::<(), SlabError>(()) && final(self)@ == put_object(c, k, ptr)
                }
            }),
            r == Ok::<(), SlabError>(()) <==> is_allocated(old(self)@, ptr as int),
            r == Err::<(), SlabError>(SlabError::DoubleFree) <==> is_free_object(
                old(self)@,
                ptr as int,
            ),
            r == Err::<(), SlabError>(SlabError::BadPtrRange) <==> !is_object(
                old(self)@,
                ptr as int,
            ),
            r is Ok ==> !is_allocated(final(self)@, ptr as int) && forall|q: int|
                q != ptr ==> (is_allocated(final(self)@, q) <==> is_allocated(old(self)@, q)),
    {
        let ghost c = self@;
        let ghost size = c.layout.size as int;
        // Check basic alignment first
        if ptr % self.layout.align != 0 {
            proof {
                if is_object(c, ptr as int) {
                    let i = choose|i: int| 0 <= i < c.slabs.len() && #[trigger] is_slot(c.slabs[i], size, ptr as int);
                    lemma_slot_aligned(c.slabs[i], c.layout, c.page_count as int, ptr as int);
                }
            }
            return Err(SlabError::BadPtrRange);
        }
        proof {
            lemma_first_holding(c.slabs, size, ptr as int, 0);
        }
        // Find the slab that contains this pointer and free it
        let mut i: usize = 0;
        while i < self.slabs.len()
            invariant
                self@ == c,
                c == old(self)@,
                cache_ok(c),
                size == c.layout.size as int,
                ptr % c.layout.align == 0,
                i <= c.slabs.len(),
                self.slabs@.len() == c.slabs.len(),
                forall|k: int| 0 <= k < i ==> !holds_ptr(c.slabs[k], size, ptr as int),
                first_holding(c.slabs, size, ptr as int, 0) >= i,
                first_holding(c.slabs, size, ptr as int, 0) <= c.slabs.len(),
                first_holding(c.slabs, size, ptr as int, 0) < c.slabs.len() ==> holds_ptr(
                    c.slabs[first_holding(c.slabs, size, ptr as int, 0)],
                    size,
                    ptr as int,
                ),
                forall|k: int|
                    0 <= k < first_holding(c.slabs, size, ptr as int, 0) ==> !holds_ptr(
                        c.slabs[k],
                        size,
                        ptr as int,
                    ),
            decreases c.slabs.len() - i,
        {
            let layout = self.layout;
            let ghost s = c.slabs[i as int];
            assert(self.slabs@[i as int]@ == s);
            assert(slab_ok(s, c.layout, c.page_count as int));
            if self.slabs[i].contains_ptr(ptr, layout) {
                proof {
                    assert(first_holding(c.slabs, size, ptr as int, 0) == i);
                }
                let r = self.slabs[i].free(ptr, layout);
                proof {
                    if r is Ok {
                        lemma_put_object(c, i as int, ptr);
                        assert(self@.slabs =~= put_object(c, i as int, ptr).slabs);
                        assert(self@ =~= put_object(c, i as int, ptr));
                    } else {
                        assert(self@.slabs =~= c.slabs);
                        assert(self@ =~= c);
                    }
                    lemma_free_outcome(c, i as int, ptr);
                }
                return r;
            }
            i = i + 1;
        }
        proof {
            if is_object(c, ptr as int) {
                let k = choose|k: int| 0 <= k < c.slabs.len() && #[trigger] is_slot(c.slabs[k], size, ptr as int);
                assert(holds_ptr(c.slabs[k], size, ptr as int));
            }
        }
        Err(SlabError::BadPtrRange)
    }

    /// Reaps every slab that has no allocated object, keeping the others in
    /// their order, and hands back the reaped slabs' buffers, in list order,
    /// whose pages the caller gives back.
    pub fn reap(&mut self) -> (r: Vec<usize>)
        requires
            cache_ok(old(self)@),
        ensures
            cache_ok(final(self)@),
            final(self)@ == (SlabCacheState { slabs: busy_slabs(old(self)@.slabs), ..old(self)@ }),
            r@ == idle_buffers(old(self)@.slabs),
            forall|q: int| #[trigger] is_allocated(final(self)@, q) <==> is_allocated(old(self)@, q),
    {
        let ghost c = self@;
        let mut reaped: Vec<usize> = Vec::new();
        let mut i: usize = 0;
        let ghost mut j: int = 0;
        proof {
            assert(c.slabs.take(0) =~= Seq::<SlabState>::empty());
            assert(c.slabs.skip(0) =~= c.slabs);
            assert(busy_slabs(c.slabs.take(0)) =~= Seq::<SlabState>::empty());
            assert(idle_buffers(c.slabs.take(0)) =~= Seq::<usize>::empty());
            assert(self@ =~= SlabCacheState { slabs: busy_slabs(c.slabs.take(0)) + c.slabs.skip(0), ..c });
        }
        while i < self.slabs.len()
            invariant
                c == old(self)@,
                cache_ok(c),
                cache_ok(self@),
                0 <= j <= c.slabs.len(),
                self@ == (SlabCacheState { slabs: busy_slabs(c.slabs.take(j)) + c.slabs.skip(j), ..c }),
                i == busy_slabs(c.slabs.take(j)).len(),
                self.slabs@.len() == self@.slabs.len(),
                reaped@ == idle_buffers(c.slabs.take(j)),
                forall|q: int| #[trigger] is_allocated(self@, q) <==> is_allocated(c, q),
            decreases self.slabs@.len() - i,
        {
            let ghost s = self@;
            let ghost prev = self.slabs@;
            assert(j < c.slabs.len());
            assert(s.slabs[i as int] == c.slabs[j]);
            proof {
                lemma_sort_next(c.slabs, j);
            }
            if self.slabs[i].is_empty() {
                let slab = self.slabs.remove(i);
                reaped.push(slab.buffer);
                proof {
                    lemma_remove_idle(s, i as int);
                    assert forall|k: int| 0 <= k < self.slabs@.len() implies #[trigger] slab_states(
                        self.slabs@,
                    )[k] == s.slabs.remove(i as int)[k] by {
                        if k < i {
                            assert(self.slabs@[k] == prev[k]);
                        } else {
                            assert(self.slabs@[k] == prev[k + 1]);
                        }
                    }
                    assert(self@.slabs =~= s.slabs.remove(i as int));
                    assert(s.slabs.remove(i as int) =~= busy_slabs(c.slabs.take(j + 1)) + c.slabs.skip(j + 1));
                    assert(self@ =~= SlabCacheState { slabs: s.slabs.remove(i as int), ..s });
                }
            } else {
                i = i + 1;
                proof {
                    assert(s.slabs =~= busy_slabs(c.slabs.take(j + 1)) + c.slabs.skip(j + 1));
                }
            }
            proof {
                j = j + 1;
            }
        }
        proof {
            assert(c.slabs.skip(j).len() == 0);
            assert(c.slabs.take(j) =~= c.slabs);
            assert(self@.slabs =~= busy_slabs(c.slabs));
        }
        reaped
    }

    /// Empties the cache when it is dropped: reaps it, reports whether any
    /// slab still had allocated objects, and hands back the buffers of all of
    /// its slabs, the reaped ones first, then the rest in list order.
    pub fn release_all(&mut self) -> (r: (bool, Vec<usize>))
        requires
            cache_ok(old(self)@),
        ensures
            final(self)@ == (SlabCacheState { slabs: Seq::empty(), ..old(self)@ }),
            cache_ok(final(self)@),
            r.1@ == idle_buffers(old(self)@.slabs) + buffers(busy_slabs(old(self)@.slabs)),
            r.0 == (busy_slabs(old(self)@.slabs).len() > 0),
            r.0 <==> exists|q: int| is_allocated(old(self)@, q),
    {
        let ghost c = self@;
        // Reap all slabs
        let mut released = self.reap();
        let ghost b = self@.slabs;
        let ghost m0 = released@.len() as int;
        // Check if there are any remaining slabs with allocated objects
        let has_leaks = self.slabs.len() > 0;
        proof {
            if has_leaks {
                assert(self@.slabs.len() > 0);
                let k0 = 0int;
                assert(slab_states(self.slabs@)[k0] == b[k0]);
                assert(b.contains(b[k0]));
                broadcast use vstd::seq_lib::group_filter_ensures;
                assert(b[k0].allocated != 0);
                assert(slab_ok(b[k0], c.layout, c.page_count as int));
                let p = lemma_busy_slab(b[k0], c.layout, c.page_count as int);
                assert(is_slot(self@.slabs[k0], c.layout.size as int, p));
                assert(is_allocated(self@, p));
            } else {
                assert forall|q: int| !is_allocated(c, q) by {
                    if is_allocated(c, q) {
                        assert(is_allocated(self@, q));
                    }
                }
            }
            assert(b.take(0) =~= Seq::<SlabState>::empty());
            assert(released@ =~= idle_buffers(c.slabs) + buffers(b.take(0)));
        }
        // Free any remaining slabs
        while self.slabs.len() > 0
            invariant
                m0 <= released@.len(),
                released@.len() - m0 <= b.len(),
                m0 == idle_buffers(c.slabs).len(),
                released@ == idle_buffers(c.slabs) + buffers(b.take(released@.len() - m0)),
                self@ == (SlabCacheState { slabs: b.skip(released@.len() - m0), ..c }),
                self.slabs@.len() == b.len() - (released@.len() - m0),
            decreases self.slabs@.len(),
        {
            let ghost m = released@.len() - m0;
            let ghost prev = self.slabs@;
            let ghost before = released@;
            assert(slab_states(prev)[0] == b[m]);
            let slab = self.slabs.remove(0);
            released.push(slab.buffer);
            proof {
                assert forall|k: int| 0 <= k < self.slabs@.len() implies #[trigger] slab_states(
                    self.slabs@,
                )[k] == b.skip(m + 1)[k] by {
                    assert(self.slabs@[k] == prev[k + 1]);
                    assert(slab_states(prev)[k + 1] == b.skip(m)[k + 1]);
                }
                assert(self@.slabs =~= b.skip(m + 1));
                assert(self@ =~= SlabCacheState { slabs: b.skip(m + 1), ..c });
                assert(released@ == before.push(slab.buffer));
                assert(buffers(b.take(m + 1)) =~= buffers(b.take(m)).push(slab.buffer));
                assert(released@ =~= idle_buffers(c.slabs) + buffers(b.take(m + 1)));
            }
        }
        proof {
            let m = released@.len() - m0;
            assert(b.take(m) =~= b);
            assert(self@ =~= SlabCacheState { slabs: Seq::empty(), ..c });
        }
        (has_leaks, released)
    }
}

} // verus!
