//! The kernel's global heap: a three-list slab cache for each power of two
//! from 16 to 16384 bytes. The caller drives the paging layer: an
//! allocation that finds its cache without a free object asks it for the
//! pages of a new slab.
use vstd::prelude::*;
use vstd::arithmetic::power2::{pow2, lemma2_to64};
use crate::heap::{layout_ok, padded_size};
use crate::paging::PagingError;
use crate::slab::{AllocateStep, ObjectLayout};
use crate::slab_lists_laws::{
    in_use, law_allocate_keeps_in_use, law_free_keeps_in_use, law_grow_keeps_in_use, slots_ok,
};
use crate::slab_lists::{
    allocate_outcome, free_outcome, fresh_slab_pages, grow_outcome, lists_ok, new_lists_state,
    least_pages_from, low_waste, pages_per_slab_for, InternalSlabAllocator, SlabError, SlabListsState,
};

verus! {

/// The number of caches of the heap
pub const KERNEL_CLASS_COUNT: usize = 11;

/// The object size of cache `i`: 16 bytes, doubling up to 16384.
pub open spec fn kernel_class_size(i: int) -> int {
    if i <= 0 {
        16
    } else if i == 1 {
        32
    } else if i == 2 {
        64
    } else if i == 3 {
        128
    } else if i == 4 {
        256
    } else if i == 5 {
        512
    } else if i == 6 {
        1024
    } else if i == 7 {
        2048
    } else if i == 8 {
        4096
    } else if i == 9 {
        8192
    } else {
        16384
    }
}

/// The layout of the objects of cache `i`: byte arrays of its size.
pub open spec fn kernel_class_layout(i: int) -> ObjectLayout {
    ObjectLayout { size: kernel_class_size(i) as usize, align: 1 }
}

/// The cache that serves `layout`: the smallest whose objects hold its
/// size rounded up to its alignment.
pub open spec fn matching_index(layout: ObjectLayout) -> int {
    let s = padded_size(layout);
    if s <= 16 {
        0
    } else if s <= 32 {
        1
    } else if s <= 64 {
        2
    } else if s <= 128 {
        3
    } else if s <= 256 {
        4
    } else if s <= 512 {
        5
    } else if s <= 1024 {
        6
    } else if s <= 2048 {
        7
    } else if s <= 4096 {
        8
    } else if s <= 8192 {
        9
    } else {
        10
    }
}

/// The heap is consistent: one consistent cache per size, each for byte
/// arrays of its size.
pub open spec fn kernel_heap_ok(h: Seq<SlabListsState>) -> bool {
    &&& h.len() == KERNEL_CLASS_COUNT
    &&& forall|i: int|
        0 <= i < KERNEL_CLASS_COUNT ==> lists_ok(#[trigger] h[i]) && h[i].layout == kernel_class_layout(
            i,
        )
}

/// The caches' layouts are ones a cache can be made for.
proof fn lemma_class_layout(i: int)
    requires
        0 <= i < KERNEL_CLASS_COUNT,
    ensures
        layout_ok(kernel_class_layout(i)),
        padded_size(kernel_class_layout(i)) == kernel_class_size(i),
        padded_size(kernel_class_layout(i)) >= 8,
        (4096 * pages_per_slab_for(padded_size(kernel_class_layout(i)))) % 1 == 0,
        pages_per_slab_for(padded_size(kernel_class_layout(i))) * 4096 <= usize::MAX,
{
    lemma2_to64();
    assert(pow2(0) == 1);
    let s = kernel_class_size(i);
    assert(padded_size(kernel_class_layout(i)) == s);
    if s <= 4096 {
        assert(4096int % s == 0) by {
            if i == 0 {
            } else if i == 1 {
            } else if i == 2 {
            } else if i == 3 {
            } else if i == 4 {
            } else if i == 5 {
            } else if i == 6 {
            } else if i == 7 {
            } else {
            }
        }
        assert(low_waste(s, 1));
        assert(pages_per_slab_for(s) == 1);
    } else if s == 8192 {
        assert(!low_waste(8192, 1));
        assert(low_waste(8192, 2));
        assert(least_pages_from(8192, 2) == 2);
        assert(pages_per_slab_for(8192) == 2);
    } else {
        assert(!low_waste(16384, 1));
        assert(!low_waste(16384, 2));
        assert(12288int % 16384int == 12288);
        assert(!low_waste(16384, 3));
        assert(low_waste(16384, 4));
        assert(least_pages_from(16384, 4) == 4);
        assert(least_pages_from(16384, 3) == 4);
        assert(least_pages_from(16384, 2) == 4);
        assert(pages_per_slab_for(16384) == 4);
    }
}

/// A cache replaced by a consistent one for the same layout keeps the heap
/// consistent.
proof fn lemma_kernel_heap_update(h: Seq<SlabListsState>, i: int, c: SlabListsState)
    requires
        kernel_heap_ok(h),
        0 <= i < KERNEL_CLASS_COUNT,
        lists_ok(c),
        c.layout == h[i].layout,
    ensures
        kernel_heap_ok(h.update(i, c)),
{
    assert forall|j: int| 0 <= j < KERNEL_CLASS_COUNT implies lists_ok(#[trigger] h.update(i, c)[j])
        && h.update(i, c)[j].layout == kernel_class_layout(j) by {
        if j != i {
            assert(h.update(i, c)[j] == h[j]);
        }
    }
}

/// A global heap allocator for the kernel. Structured as a bunch of object
/// slab allocators
pub struct KernelHeapAllocator {
    caches: Vec<InternalSlabAllocator>,
}

impl View for KernelHeapAllocator {
    type V = Seq<SlabListsState>;

    closed spec fn view(&self) -> Seq<SlabListsState> {
        self.caches@.map_values(|c: InternalSlabAllocator| c@)
    }
}

impl KernelHeapAllocator {
    /// Create a new instance of the kernel heap allocator: every cache
    /// without a slab.
    pub fn new() -> (r: Self)
        ensures
            kernel_heap_ok(r@),
            forall|i: int|
                0 <= i < KERNEL_CLASS_COUNT ==> #[trigger] r@[i] == new_lists_state(
                    kernel_class_layout(i),
                ),
    {
        let mut caches: Vec<InternalSlabAllocator> = Vec::new();
        let mut size: usize = 16;
        let mut i: usize = 0;
        while i < KERNEL_CLASS_COUNT
            invariant
                i <= KERNEL_CLASS_COUNT,
                caches@.len() == i,
                size == kernel_class_size(i as int) || i == KERNEL_CLASS_COUNT,
                forall|k: int|
                    0 <= k < i ==> #[trigger] caches@[k]@ == new_lists_state(kernel_class_layout(k))
                        && lists_ok(caches@[k]@),
            decreases KERNEL_CLASS_COUNT - i,
        {
            proof {
                lemma_class_layout(i as int);
            }
            let cache = InternalSlabAllocator::new(ObjectLayout { size, align: 1 });
            caches.push(cache);
            if i + 1 < KERNEL_CLASS_COUNT {
                size = size * 2;
            }
            i = i + 1;
        }
        let r = KernelHeapAllocator { caches };
        assert forall|k: int| 0 <= k < KERNEL_CLASS_COUNT implies lists_ok(#[trigger] r@[k])
            && r@[k].layout == kernel_class_layout(k) && r@[k] == new_lists_state(
            kernel_class_layout(k),
        ) by {
            assert(r@[k] == caches@[k]@);
            lemma_class_layout(k);
        }
        r
    }

    /// Get the index of the allocator that is closest to the total size
    /// `layout` requires
    pub fn get_matching_allocator_index(layout: ObjectLayout) -> (r: usize)
        requires
            layout_ok(layout),
            padded_size(layout) <= 16384,
        ensures
            r == matching_index(layout),
    {
        let size = crate::slab::align_up(layout.size, layout.align);
        proof {
            let n = choose|n: nat| n < usize::BITS && pow2(n) == layout.align;
            vstd::arithmetic::power2::lemma_pow2_pos(n);
            crate::heap::lemma_padded_size(layout, size as int);
        }
        if size <= 16 {
            0
        } else if size <= 32 {
            1
        } else if size <= 64 {
            2
        } else if size <= 128 {
            3
        } else if size <= 256 {
            4
        } else if size <= 512 {
            5
        } else if size <= 1024 {
            6
        } else if size <= 2048 {
            7
        } else if size <= 4096 {
            8
        } else if size <= 8192 {
            9
        } else {
            10
        }
    }

    /// The cache at `index`
    pub fn cache(&self, index: usize) -> (r: &InternalSlabAllocator)
        requires
            index < self@.len(),
        ensures
            r@ == self@[index as int],
    {
        &self.caches[index]
    }

    /// Allocates from the cache closest to the total size `layout`
    /// requires; returns that cache's index with its outcome, which may ask
    /// for the pages of a new slab.
    pub fn allocate(&mut self, layout: ObjectLayout) -> (r: (usize, Result<AllocateStep, SlabError>))
        requires
            kernel_heap_ok(old(self)@),
            layout_ok(layout),
            padded_size(layout) <= 16384,
        ensures
            kernel_heap_ok(final(self)@),
            r.0 == matching_index(layout),
            r.1 == allocate_outcome(old(self)@[r.0 as int]).0,
            final(self)@ == old(self)@.update(r.0 as int, allocate_outcome(old(self)@[r.0 as int]).1),
    {
        let i = Self::get_matching_allocator_index(layout);
        let ghost prev = self.caches@;
        assert(self.caches@[i as int]@ == old(self)@[i as int]);
        let step = self.caches[i].allocate();
        proof {
            assert(self@ =~= old(self)@.update(i as int, self.caches@[i as int]@)) by {
                assert forall|j: int| 0 <= j < self@.len() && j != i implies self@[j] == old(self)@[j] by {
                    assert(self.caches@[j] == prev[j]);
                }
            }
            lemma_kernel_heap_update(old(self)@, i as int, self.caches@[i as int]@);
        }
        (i, step)
    }

    /// Grows the cache at `index` by a slab on the pages the caller got for
    /// it, or failed to get, and allocates from that slab.
    pub fn allocate_after_grow(&mut self, index: usize, pages: Result<usize, PagingError>) -> (r: Result<
        usize,
        SlabError,
    >)
        requires
            kernel_heap_ok(old(self)@),
            index < KERNEL_CLASS_COUNT,
            pages matches Ok(p) ==> fresh_slab_pages(old(self)@[index as int], p as int),
        ensures
            kernel_heap_ok(final(self)@),
            r == grow_outcome(old(self)@[index as int], pages).0,
            final(self)@ == old(self)@.update(index as int, grow_outcome(old(self)@[index as int], pages).1),
    {
        let ghost prev = self.caches@;
        assert(self.caches@[index as int]@ == old(self)@[index as int]);
        let r = self.caches[index].grow_and_allocate(pages);
        proof {
            assert(self@ =~= old(self)@.update(index as int, self.caches@[index as int]@)) by {
                assert forall|j: int| 0 <= j < self@.len() && j != index implies self@[j] == old(self)@[j] by {
                    assert(self.caches@[j] == prev[j]);
                }
            }
            lemma_kernel_heap_update(old(self)@, index as int, self.caches@[index as int]@);
        }
        r
    }

    /// Gives the object at `ptr` back to the cache closest to the total size
    /// `layout` requires, the one it came from; a null pointer is left
    /// alone (`None`).
    pub fn dealloc(&mut self, ptr: usize, layout: ObjectLayout) -> (r: Option<Result<(), SlabError>>)
        requires
            kernel_heap_ok(old(self)@),
            layout_ok(layout),
            padded_size(layout) <= 16384,
        ensures
            kernel_heap_ok(final(self)@),
            ptr == 0 ==> r is None && final(self)@ == old(self)@,
            ptr != 0 ==> ({
                let i = matching_index(layout);
                &&& r == Some(free_outcome(old(self)@[i], ptr).0)
                &&& final(self)@ == old(self)@.update(i, free_outcome(old(self)@[i], ptr).1)
            }),
    {
        if ptr == 0 {
            return None;
        }
        let i = Self::get_matching_allocator_index(layout);
        let ghost prev = self.caches@;
        assert(self.caches@[i as int]@ == old(self)@[i as int]);
        let r = self.caches[i].free(ptr);
        proof {
            assert(self@ =~= old(self)@.update(i as int, self.caches@[i as int]@)) by {
                assert forall|j: int| 0 <= j < self@.len() && j != i implies self@[j] == old(self)@[j] by {
                    assert(self.caches@[j] == prev[j]);
                }
            }
            lemma_kernel_heap_update(old(self)@, i as int, self.caches@[i as int]@);
        }
        Some(r)
    }
}

/// Giving back, with the same layout, the object an allocation just handed
/// out is accepted by the cache it came from.
pub proof fn law_allocate_then_dealloc(h: Seq<SlabListsState>, layout: ObjectLayout)
    requires
        kernel_heap_ok(h),
        layout_ok(layout),
        padded_size(layout) <= 16384,
        allocate_outcome(h[matching_index(layout)]).0 matches Ok(AllocateStep::Allocated(_)),
    ensures
        ({
            let i = matching_index(layout);
            let p = allocate_outcome(h[i]).0->Ok_0->Allocated_0;
            let h2 = h.update(i, allocate_outcome(h[i]).1);
            free_outcome(h2[i], p).0 == Ok::<(), SlabError>(())
        }),
{
    let i = matching_index(layout);
    assert(lists_ok(h[i]));
    crate::slab_lists_laws::law_allocate_then_free(h[i]);
}

/// An object in use in the cache of its layout's size class is given back by
/// a later dealloc with that layout. The laws of the three-list cache keep an
/// object in use across every later allocation, growth, and dealloc of
/// another object in use, while the cache's free objects are slots, which a
/// new cache starts with and those operations keep.
pub proof fn law_dealloc_in_use(h: Seq<SlabListsState>, layout: ObjectLayout, p: usize)
    requires
        kernel_heap_ok(h),
        layout_ok(layout),
        padded_size(layout) <= 16384,
        in_use(h[matching_index(layout)], p),
    ensures
        free_outcome(h[matching_index(layout)], p).0 == Ok::<(), SlabError>(()),
{
    let i = matching_index(layout);
    assert(lists_ok(h[i]));
    crate::slab_lists_laws::law_in_use_free_accepted(h[i], p);
}

/// Every later operation of the heap keeps an object in use in use, and the
/// free objects of its caches slots: an allocation or a growth in any size
/// class, and a dealloc of another object in use. So an object the heap
/// handed out stays accepted by a dealloc with its layout until it is given
/// back.
pub proof fn law_in_use_kept(h: Seq<SlabListsState>, i: int, j: int, p: usize, q: usize, pages: usize)
    requires
        kernel_heap_ok(h),
        0 <= i < KERNEL_CLASS_COUNT,
        0 <= j < KERNEL_CLASS_COUNT,
        slots_ok(h[i]),
        slots_ok(h[j]),
        in_use(h[i], p),
    ensures
        in_use(h.update(j, allocate_outcome(h[j]).1)[i], p),
        slots_ok(h.update(j, allocate_outcome(h[j]).1)[j]),
        fresh_slab_pages(h[j], pages as int) ==> {
            let h2 = h.update(j, grow_outcome(h[j], Ok::<usize, PagingError>(pages)).1);
            in_use(h2[i], p) && slots_ok(h2[j])
        },
        in_use(h[j], q) && (i != j || q != p) ==> {
            let h2 = h.update(j, free_outcome(h[j], q).1);
            in_use(h2[i], p) && slots_ok(h2[j])
        },
{
    assert(lists_ok(h[j]));
    law_allocate_keeps_in_use(h[j], p);
    if fresh_slab_pages(h[j], pages as int) {
        law_grow_keeps_in_use(h[j], pages, p);
    }
    if in_use(h[j], q) {
        law_free_keeps_in_use(h[j], q, p);
    }
}

/// The cache that serves a layout holds it, and is the smallest that does:
/// its objects are at least the layout's size rounded up to its alignment,
/// and those of the cache below it (if any) are smaller. The caches' object
/// sizes are the powers of two from 16 up to 16384.
pub proof fn law_matching_cache_fits(layout: ObjectLayout)
    requires
        padded_size(layout) <= 16384,
    ensures
        0 <= matching_index(layout) < KERNEL_CLASS_COUNT,
        padded_size(layout) <= kernel_class_size(matching_index(layout)),
        matching_index(layout) == 0 || padded_size(layout) > kernel_class_size(matching_index(layout) - 1),
        forall|i: int| 0 <= i < KERNEL_CLASS_COUNT ==> #[trigger] kernel_class_size(i) == pow2((i + 4) as nat),
{
    lemma2_to64();
    assert forall|i: int| 0 <= i < KERNEL_CLASS_COUNT implies #[trigger] kernel_class_size(i) == pow2(
        (i + 4) as nat,
    ) by {
        assert(pow2(4) == 16);
    }
}

} // verus!
