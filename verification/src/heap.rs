//! A global heap allocator for the kernel. Structured as a bunch of object slab
//! allocators, one per size class.
use vstd::prelude::*;
use vstd::arithmetic::power2::pow2;
use crate::paging::PagingError;
use crate::slab::{
    adjusted, align_up, buffers, cache_grow_outcome, cache_ok, first_holding, busy_slabs, idle_buffers, first_with_free,
    fresh_pages, is_allocated, is_free_object, is_object, object_count_for, put_object,
    take_object, AllocateStep, InternalSlabAllocator, ObjectLayout,
    SlabCacheState, SlabError,
};

verus! {

/// Number of size classes of the heap.
pub const SIZE_CLASS_COUNT: usize = 8;

/// The object size, and alignment, of size class `i`: 32 bytes, doubling up
/// to 4096.
pub open spec fn class_size(i: int) -> int {
    if i <= 0 {
        32
    } else if i == 1 {
        64
    } else if i == 2 {
        128
    } else if i == 3 {
        256
    } else if i == 4 {
        512
    } else if i == 5 {
        1024
    } else if i == 6 {
        2048
    } else {
        4096
    }
}

/// `layout` is a layout a caller may ask for: its alignment is a power of
/// two and its size, rounded up to the alignment, fits in an `isize`.
pub open spec fn layout_ok(layout: ObjectLayout) -> bool {
    &&& exists|n: nat| n < usize::BITS && pow2(n) == layout.align
    &&& layout.size + layout.align - 1 <= isize::MAX
}

/// `layout`'s size rounded up to its alignment.
pub open spec fn padded_size(layout: ObjectLayout) -> int {
    let a = layout.align as int;
    (layout.size + a - 1) / a * a
}

/// A multiple of the alignment at or above a layout's size and less than
/// one alignment past it is the layout's padded size.
pub(crate) proof fn lemma_padded_size(layout: ObjectLayout, size: int)
    requires
        layout.align > 0,
        size % layout.align as int == 0,
        layout.size <= size < layout.size + layout.align,
    ensures
        size == padded_size(layout),
{
    let a = layout.align as int;
    vstd::arithmetic::div_mod::lemma_fundamental_div_mod(layout.size + a - 1, a);
    vstd::arithmetic::div_mod::lemma_fundamental_div_mod(size, a);
    let q = (layout.size + a - 1) / a;
    vstd::arithmetic::mul::lemma_mul_is_commutative(q, a);
    vstd::arithmetic::mul::lemma_mul_is_commutative(size / a, a);
    assert(q * a <= layout.size + a - 1);
    assert(layout.size + a - 1 < q * a + a);
    assert(size == (size / a) * a);
    if size / a < q {
        vstd::arithmetic::mul::lemma_mul_inequality(size / a + 1, q, a);
        vstd::arithmetic::mul::lemma_mul_is_distributive_add(a, size / a, 1);
    } else if size / a > q {
        vstd::arithmetic::mul::lemma_mul_inequality(q + 1, size / a, a);
        vstd::arithmetic::mul::lemma_mul_is_distributive_add(a, q, 1);
    }
}

/// Size class `i` can hold objects of `size` bytes aligned to `align`.
pub open spec fn class_fits(i: int, size: int, align: int) -> bool {
    size <= class_size(i) && align <= class_size(i)
}

/// The smallest size class that holds `layout` once padded, or the number
/// of classes when none does.
pub open spec fn class_of(layout: ObjectLayout) -> int {
    let s = padded_size(layout);
    let a = layout.align as int;
    if class_fits(0, s, a) {
        0
    } else if class_fits(1, s, a) {
        1
    } else if class_fits(2, s, a) {
        2
    } else if class_fits(3, s, a) {
        3
    } else if class_fits(4, s, a) {
        4
    } else if class_fits(5, s, a) {
        5
    } else if class_fits(6, s, a) {
        6
    } else if class_fits(7, s, a) {
        7
    } else {
        8
    }
}

/// The cache a new heap has for size class `i`.
pub open spec fn fresh_class(i: int) -> SlabCacheState {
    let l = ObjectLayout { size: class_size(i) as usize, align: class_size(i) as usize };
    SlabCacheState {
        layout: adjusted(l),
        page_count: 1,
        object_count: object_count_for(adjusted(l).size as int, 1) as usize,
        slabs: Seq::empty(),
    }
}

/// The heap is consistent: one consistent cache per size class, each
/// handing out objects of its class's size and alignment.
pub open spec fn heap_ok(h: Seq<SlabCacheState>) -> bool {
    &&& h.len() == SIZE_CLASS_COUNT
    &&& forall|i: int|
        0 <= i < h.len() ==> cache_ok(#[trigger] h[i]) && h[i].layout == (ObjectLayout {
            size: class_size(i) as usize,
            align: class_size(i) as usize,
        })
}

/// A cache after its idle slabs are reaped.
pub open spec fn reaped(c: SlabCacheState) -> SlabCacheState {
    SlabCacheState { slabs: busy_slabs(c.slabs), ..c }
}

/// The buffers of a cache's idle slabs.
pub open spec fn reaped_buffers(c: SlabCacheState) -> Seq<usize> {
    idle_buffers(c.slabs)
}

/// The buffers that reaping the size classes from 1 up to `i` hands back.
pub open spec fn heap_reaped(h: Seq<SlabCacheState>, i: int) -> Seq<usize>
    decreases i,
{
    if i <= 1 {
        Seq::empty()
    } else {
        heap_reaped(h, i - 1) + reaped_buffers(h[i - 1])
    }
}

/// Replacing the cache of a size class by a consistent cache of the same
/// layout keeps the heap consistent.
proof fn lemma_heap_update(h: Seq<SlabCacheState>, i: int, c: SlabCacheState)
    requires
        heap_ok(h),
        0 <= i < h.len(),
        cache_ok(c),
        c.layout == h[i].layout,
    ensures
        heap_ok(h.update(i, c)),
{
    assert forall|j: int| 0 <= j < h.update(i, c).len() implies cache_ok(#[trigger] h.update(i, c)[j])
        && h.update(i, c)[j].layout == (ObjectLayout {
        size: class_size(j) as usize,
        align: class_size(j) as usize,
    }) by {
        if j != i {
            assert(h.update(i, c)[j] == h[j]);
        }
    }
}

/// A global heap allocator for the kernel, one slab cache per size class.
pub struct Heap {
    /// The caches, from the 32 byte class up to the 4096 byte class
    caches: Vec<InternalSlabAllocator>,
}

impl View for Heap {
    type V = Seq<SlabCacheState>;

    closed spec fn view(&self) -> Seq<SlabCacheState> {
        self.caches@.map_values(|c: InternalSlabAllocator| c@)
    }
}

impl Heap {
    /// A heap whose caches have no slab yet.
    pub fn new() -> (r: Self)
        ensures
            heap_ok(r@),
            forall|i: int| 0 <= i < SIZE_CLASS_COUNT ==> #[trigger] r@[i] == fresh_class(i),
    {
        let mut caches: Vec<InternalSlabAllocator> = Vec::new();
        let mut size: usize = 32;
        let mut i: usize = 0;
        while i < SIZE_CLASS_COUNT
            invariant
                i <= SIZE_CLASS_COUNT,
                caches@.len() == i,
                size == class_size(i as int) || i == SIZE_CLASS_COUNT,
                forall|k: int|
                    0 <= k < i ==> #[trigger] caches@[k]@ == fresh_class(k) && cache_ok(
                        caches@[k]@,
                    ),
            decreases SIZE_CLASS_COUNT - i,
        {
            let cache = InternalSlabAllocator::new(ObjectLayout { size, align: size });
            caches.push(cache);
            if i + 1 < SIZE_CLASS_COUNT {
                size = size * 2;
            }
            i = i + 1;
        }
        let r = Heap { caches };
        assert forall|k: int| 0 <= k < r@.len() implies cache_ok(#[trigger] r@[k]) && r@[k].layout == (
        ObjectLayout { size: class_size(k) as usize, align: class_size(k) as usize }) by {
            assert(r@[k] == caches@[k]@);
        }
        r
    }

    /// The size class that serves `layout`: the smallest whose objects hold
    /// the layout's size, rounded up to its alignment, and its alignment.
    pub fn layout_to_allocator(&self, layout: ObjectLayout) -> (r: usize)
        requires
            layout_ok(layout),
            class_of(layout) < SIZE_CLASS_COUNT,
        ensures
            r == class_of(layout),
    {
        // Padding since we're storing the slabs sequentially in memory
        let size = align_up(layout.size, layout.align);
        let align = layout.align;
        proof {
            lemma_padded_size(layout, size as int);
        }
        if size <= 32 && align <= 32 {
            0
        } else if size <= 64 && align <= 64 {
            1
        } else if size <= 128 && align <= 128 {
            2
        } else if size <= 256 && align <= 256 {
            3
        } else if size <= 512 && align <= 512 {
            4
        } else if size <= 1024 && align <= 1024 {
            5
        } else if size <= 2048 && align <= 2048 {
            6
        } else {
            7
        }
    }

    /// The cache of size class `i`.
    pub fn cache(&self, i: usize) -> (r: &InternalSlabAllocator)
        requires
            i < self@.len(),
        ensures
            r@ == self@[i as int],
    {
        &self.caches[i]
    }

    /// Allocates an object for `layout` from the slabs at hand of its size
    /// class; when that class has no free object, asks for the class's cache
    /// to grow. Returns the class with the outcome.
    pub fn allocate(&mut self, layout: ObjectLayout) -> (r: (usize, AllocateStep))
        requires
            heap_ok(old(self)@),
            layout_ok(layout),
            class_of(layout) < SIZE_CLASS_COUNT,
        ensures
            heap_ok(final(self)@),
            r.0 == class_of(layout),
            ({
                let c = old(self)@[r.0 as int];
                let k = first_with_free(c.slabs, 0);
                if k == c.slabs.len() {
                    r.1 == AllocateStep::NeedsGrow && final(self)@ == old(self)@
                } else {
                    r.1 == AllocateStep::Allocated(c.slabs[k].free.last()) && final(self)@ == old(
                        self,
                    )@.update(r.0 as int, take_object(c, k))
                }
            }),
            r.1 matches AllocateStep::Allocated(p) ==> {
                &&& !is_allocated(old(self)@[r.0 as int], p as int)
                &&& is_allocated(final(self)@[r.0 as int], p as int)
                &&& (p as int) % class_size(r.0 as int) == 0
            },
    {
        let i = self.layout_to_allocator(layout);
        let ghost prev = self.caches@;
        assert(self.caches@[i as int]@ == old(self)@[i as int]);
        let step = self.caches[i].allocate();
        proof {
            assert(self@ =~= old(self)@.update(i as int, self.caches@[i as int]@)) by {
                assert forall|j: int| 0 <= j < self@.len() && j != i implies self@[j] == old(self)@[j] by {
                    assert(self.caches@[j] == prev[j]);
                }
            }
            lemma_heap_update(old(self)@, i as int, self.caches@[i as int]@);
        }
        (i, step)
    }

    /// Grows the cache of size class `class` by a slab on the pages the
    /// caller got for it, and allocates an object from that slab.
    pub fn allocate_after_grow(&mut self, class: usize, pages: Result<usize, PagingError>) -> (r: Result<
        usize,
        SlabError,
    >)
        requires
            heap_ok(old(self)@),
            class < SIZE_CLASS_COUNT,
            pages matches Ok(b) ==> fresh_pages(old(self)@[class as int], b as int),
        ensures
            heap_ok(final(self)@),
            r == cache_grow_outcome(old(self)@[class as int], pages).0,
            final(self)@ == old(self)@.update(
                class as int,
                cache_grow_outcome(old(self)@[class as int], pages).1,
            ),
            forall|j: int| 0 <= j < SIZE_CLASS_COUNT && j != class ==> final(self)@[j] == old(self)@[j],
            r matches Ok(p) ==> {
                &&& is_allocated(final(self)@[class as int], p as int)
                &&& (p as int) % class_size(class as int) == 0
                &&& forall|q: int|
                    q != p ==> (is_allocated(final(self)@[class as int], q) <==> is_allocated(
                        old(self)@[class as int],
                        q,
                    ))
            },
            r is Err ==> forall|q: int|
                is_allocated(final(self)@[class as int], q) <==> is_allocated(
                    old(self)@[class as int],
                    q,
                ),
    {
        let ghost prev = self.caches@;
        assert(self.caches@[class as int]@ == old(self)@[class as int]);
        let r = self.caches[class].grow_and_allocate(pages);
        proof {
            assert(self@ =~= old(self)@.update(class as int, self.caches@[class as int]@)) by {
                assert forall|j: int| 0 <= j < self@.len() && j != class implies self@[j] == old(
                    self,
                )@[j] by {
                    assert(self.caches@[j] == prev[j]);
                }
            }
            lemma_heap_update(old(self)@, class as int, self.caches@[class as int]@);
        }
        r
    }

    /// Frees the object at `ptr`, which was allocated for `layout`: the cache
    /// of the layout's size class takes it back.
    pub fn dealloc(&mut self, ptr: usize, layout: ObjectLayout) -> (r: Result<(), SlabError>)
        requires
            heap_ok(old(self)@),
            layout_ok(layout),
            class_of(layout) < SIZE_CLASS_COUNT,
        ensures
            heap_ok(final(self)@),
            ({
                let i = class_of(layout);
                let c = old(self)@[i];
                if r is Ok {
                    final(self)@ == old(self)@.update(
                        i,
                        put_object(
                            c,
                            first_holding(c.slabs, c.layout.size as int, ptr as int, 0),
                            ptr,
                        ),
                    )
                } else {
                    final(self)@ == old(self)@
                }
            }),
            r is Ok <==> is_allocated(old(self)@[class_of(layout)], ptr as int),
            r == Err::<(), SlabError>(SlabError::DoubleFree) <==> is_free_object(
                old(self)@[class_of(layout)],
                ptr as int,
            ),
            r == Err::<(), SlabError>(SlabError::BadPtrRange) <==> !is_object(
                old(self)@[class_of(layout)],
                ptr as int,
            ),
    {
        let i = self.layout_to_allocator(layout);
        let ghost prev = self.caches@;
        assert(self.caches@[i as int]@ == old(self)@[i as int]);
        let r = self.caches[i].free(ptr);
        proof {
            assert(self@ =~= old(self)@.update(i as int, self.caches@[i as int]@)) by {
                assert forall|j: int| 0 <= j < self@.len() && j != i implies self@[j] == old(self)@[j] by {
                    assert(self.caches@[j] == prev[j]);
                }
            }
            lemma_heap_update(old(self)@, i as int, self.caches@[i as int]@);
            if r is Err {
                assert(self@ =~= old(self)@);
            }
        }
        r
    }

    /// Reaps the idle slabs of every size class but the smallest,
    /// and hands back their buffers, whose pages the caller gives back.
    pub fn reap(&mut self) -> (r: Vec<usize>)
        requires
            heap_ok(old(self)@),
        ensures
            heap_ok(final(self)@),
            final(self)@[0] == old(self)@[0],
            forall|i: int| 1 <= i < SIZE_CLASS_COUNT ==> #[trigger] final(self)@[i] == reaped(old(self)@[i]),
            r@ == heap_reaped(old(self)@, SIZE_CLASS_COUNT as int),
    {
        let mut total: Vec<usize> = Vec::new();
        let mut i: usize = 1;
        proof {
            assert(total@ =~= heap_reaped(old(self)@, 1));
        }
        while i < SIZE_CLASS_COUNT
            invariant
                1 <= i <= SIZE_CLASS_COUNT,
                heap_ok(self@),
                self@.len() == SIZE_CLASS_COUNT,
                self.caches@.len() == SIZE_CLASS_COUNT,
                forall|j: int| 0 <= j < self@.len() ==> #[trigger] self@[j] == self.caches@[j]@,
                forall|j: int| 1 <= j < i ==> #[trigger] self@[j] == reaped(old(self)@[j]),
                forall|j: int| i <= j < SIZE_CLASS_COUNT ==> #[trigger] self@[j] == old(self)@[j],
                self@[0] == old(self)@[0],
                total@ == heap_reaped(old(self)@, i as int),
            decreases SIZE_CLASS_COUNT - i,
        {
            let ghost before = self@;
            let ghost prev = self.caches@;
            assert(cache_ok(self@[i as int]));
            assert(self.caches@[i as int]@ == self@[i as int]);
            let mut buffers = self.caches[i].reap();
            proof {
                assert(self@ =~= before.update(i as int, self.caches@[i as int]@)) by {
                    assert forall|j: int| 0 <= j < self@.len() && j != i implies self@[j] == before[j] by {
                        assert(self.caches@[j] == prev[j]);
                    }
                }
                lemma_heap_update(before, i as int, self.caches@[i as int]@);
            }
            let ghost part = buffers@;
            let mut k: usize = 0;
            let ghost t0 = total@;
            while k < buffers.len()
                invariant
                    k <= buffers@.len(),
                    buffers@ == part,
                    total@ == t0 + part.take(k as int),
                decreases buffers@.len() - k,
            {
                total.push(buffers[k]);
                k = k + 1;
                assert(total@ =~= t0 + part.take(k as int));
            }
            assert(part.take(part.len() as int) =~= part);
            i = i + 1;
        }
        total
    }
}

} // verus!
