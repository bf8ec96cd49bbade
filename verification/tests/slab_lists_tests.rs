use std::alloc::Layout;

use funderberker::levels::BASIC_PAGE_SIZE;
use funderberker::paging::PagingError;
use funderberker::slab::{AllocateStep, ObjectLayout};
use funderberker::slab_lists::{InternalSlabAllocator, SlabAllocator, SlabError, LIST_SLAB_NODE_SIZE};

/// The kernel's three-list cache, driven as the kernel drives it: a new slab
/// gets fresh pages from a simple page source.
struct Cache {
    inner: InternalSlabAllocator,
    next_page: usize,
    grown: usize,
}

impl Cache {
    fn new(layout: Layout) -> Self {
        let inner =
            InternalSlabAllocator::new(ObjectLayout { size: layout.size(), align: layout.align() });
        Cache { inner, next_page: 0x4000_0000, grown: 0 }
    }

    fn allocate(&mut self) -> Result<usize, SlabError> {
        match self.inner.allocate()? {
            AllocateStep::Allocated(ptr) => Ok(ptr),
            AllocateStep::NeedsGrow => {
                let pages = self.next_page;
                self.next_page += self.inner.pages_per_slab() * BASIC_PAGE_SIZE;
                self.grown += 1;
                self.inner.grow_and_allocate(Ok(pages))
            }
        }
    }

    fn free(&mut self, ptr: usize) -> Result<(), SlabError> {
        self.inner.free(ptr)
    }
}

impl Drop for Cache {
    fn drop(&mut self) {
        assert!(self.inner.release().is_some(), "Freeing a used slab. This is bad.");
    }
}

#[test]
fn test_slab_alloc_free_small_objects() {
    let layout = Layout::from_size_align(16, 4).unwrap();
    let mut allocator = Cache::new(layout);

    // Allocate 10 objects
    let mut pointers = vec![];
    for _ in 0..10 {
        let ptr = allocator.allocate().expect("Allocation failed");
        assert!(ptr % layout.align() == 0, "Pointer not aligned");
        pointers.push(ptr);
    }

    // Free in reverse order
    for ptr in pointers.iter().rev() {
        allocator.free(*ptr).expect("Free failed");
    }

    // Allocate again to ensure slab reuse
    let ptr = allocator.allocate().expect("Allocation after free failed");
    allocator.free(ptr).expect("Free failed");
    assert_eq!(allocator.grown, 1);
}

#[test]
fn test_slab_alloc_free_large_objects() {
    let layout = Layout::from_size_align(512, 16).unwrap();
    let mut allocator = Cache::new(layout);

    // Allocate 5 large objects
    let mut pointers = vec![];
    for _ in 0..5 {
        let ptr = allocator.allocate().expect("Allocation failed");
        assert!(ptr % layout.align() == 0, "Pointer not aligned");
        pointers.push(ptr);
    }

    // Free in random order
    let free_order = [2, 0, 4, 1, 3];
    for &i in &free_order {
        allocator.free(pointers[i]).expect("Free failed");
    }

    // Allocate one more to test partial slab
    let ptr = allocator.allocate().expect("Allocation after free failed");
    allocator.free(ptr).expect("Free failed");
}

#[test]
fn test_slab_mixed_layout_sizes() {
    // Define test layouts for small, medium, and large allocations
    let layouts = [
        Layout::from_size_align(8, 4).expect("Invalid small layout"),
        Layout::from_size_align(64, 8).expect("Invalid medium layout"),
        Layout::from_size_align(256, 16).expect("Invalid large layout"),
    ];

    for layout in layouts {
        let mut allocator = Cache::new(layout);
        let mut pointers = Vec::with_capacity(12);

        for i in 0..8 {
            let ptr = allocator
                .allocate()
                .unwrap_or_else(|_| panic!("Allocation {} failed for layout {:?}", i, layout));
            assert!(
                ptr % layout.align() == 0,
                "Pointer {} not aligned to {} for layout {:?}",
                i,
                layout.align(),
                layout
            );
            pointers.push(ptr);
        }

        // Free every other object (indices 0, 2, 4, 6)
        for (i, ptr) in pointers.iter().enumerate().step_by(2) {
            allocator
                .free(*ptr)
                .unwrap_or_else(|_| panic!("Free failed for pointer {} in layout {:?}", i, layout));
        }

        // Allocate 4 more objects and verify alignment
        let mut new_pointers = Vec::with_capacity(4);
        for i in 0..4 {
            let ptr = allocator.allocate().unwrap_or_else(|_| {
                panic!("Allocation {} after partial free failed for layout {:?}", i, layout)
            });
            assert!(
                ptr % layout.align() == 0,
                "Pointer {} after partial free not aligned to {} for layout {:?}",
                i,
                layout.align(),
                layout
            );
            new_pointers.push(ptr);
        }

        // Free the other objects (indices 1, 3, 5, 7)
        for (i, ptr) in pointers.iter().enumerate().skip(1).step_by(2) {
            allocator
                .free(*ptr)
                .unwrap_or_else(|_| panic!("Free failed for pointer {} in layout {:?}", i, layout));
        }

        // Free the 4 other allocated pointers
        for (i, ptr) in new_pointers.iter().enumerate() {
            allocator
                .free(*ptr)
                .unwrap_or_else(|_| panic!("Free failed for pointer {} in layout {:?}", i, layout));
        }
    }
}

#[test]
fn test_slab_fill_slab_and_free() {
    let layout = Layout::from_size_align(32, 8).unwrap();
    let mut allocator = Cache::new(layout);

    // Fill the slab completely
    let obj_count = allocator.inner.obj_count();
    let mut pointers = vec![];
    for _ in 0..obj_count {
        let ptr = allocator.allocate().expect("Allocation failed");
        assert!(ptr % layout.align() == 0, "Pointer not aligned");
        pointers.push(ptr);
    }
    assert_eq!(allocator.grown, 1);

    // Allocate one more to trigger cache growth
    let extra_ptr = allocator.allocate().expect("Allocation after full slab failed");
    pointers.push(extra_ptr);
    assert_eq!(allocator.grown, 2);

    // Free in forward order
    for ptr in pointers {
        allocator.free(ptr).expect("Free failed");
    }
}

#[test]
fn pages_per_slab_keeps_waste_under_an_eighth() {
    // Objects that divide a page, or waste little of it, take one page
    assert_eq!(InternalSlabAllocator::calc_pages_per_slab(16), 1);
    assert_eq!(InternalSlabAllocator::calc_pages_per_slab(24), 1);
    assert_eq!(InternalSlabAllocator::calc_pages_per_slab(4096), 1);
    // 3000 bytes waste 1096 of a page; three pages hold four objects
    assert_eq!(InternalSlabAllocator::calc_pages_per_slab(3000), 3);
    // 5000 bytes: two pages waste 3192, three 2288, four 1384 (under 2048)
    assert_eq!(InternalSlabAllocator::calc_pages_per_slab(5000), 4);
    // Objects larger than a page take the fewest pages that hold them well
    assert_eq!(InternalSlabAllocator::calc_pages_per_slab(8192), 2);
    assert_eq!(InternalSlabAllocator::calc_pages_per_slab(16384), 4);
    // 600 bytes waste 496 of a page: at most an eighth
    assert_eq!(InternalSlabAllocator::calc_pages_per_slab(600), 1);
    // 513 bytes waste 505 of a page: still at most an eighth
    assert_eq!(InternalSlabAllocator::calc_pages_per_slab(513), 1);
    // 1500 bytes waste 1096 of a page, 692 of two
    assert_eq!(InternalSlabAllocator::calc_pages_per_slab(1500), 2);
}

#[test]
fn new_pads_the_layout_and_counts_objects() {
    let allocator = InternalSlabAllocator::new(ObjectLayout { size: 20, align: 8 });
    assert_eq!(allocator.obj_layout(), ObjectLayout { size: 24, align: 8 });
    assert_eq!(allocator.pages_per_slab(), 1);
    assert_eq!(allocator.obj_count(), (BASIC_PAGE_SIZE - LIST_SLAB_NODE_SIZE) / 24);

    let big = InternalSlabAllocator::new(ObjectLayout { size: 5000, align: 8 });
    assert_eq!(big.pages_per_slab(), 4);
    assert_eq!(big.obj_count(), (4 * BASIC_PAGE_SIZE - LIST_SLAB_NODE_SIZE) / 5000);
}

#[test]
fn objects_follow_the_slab_record() {
    let mut allocator = Cache::new(Layout::from_size_align(64, 64).unwrap());
    let first = allocator.allocate().unwrap();
    // The record takes 32 bytes; the objects start at the next 64 byte boundary,
    // and the last object of the slab is handed out first
    let count = allocator.inner.obj_count();
    assert_eq!(first, 0x4000_0000 + 64 + (count - 1) * 64);
    let second = allocator.allocate().unwrap();
    assert_eq!(second, first - 64);
    allocator.free(second).unwrap();
    allocator.free(first).unwrap();
}

#[test]
fn freed_object_is_handed_out_again() {
    let mut allocator = Cache::new(Layout::from_size_align(32, 8).unwrap());
    let a = allocator.allocate().unwrap();
    let b = allocator.allocate().unwrap();
    allocator.free(a).unwrap();
    assert_eq!(allocator.allocate().unwrap(), a);
    allocator.free(a).unwrap();
    allocator.free(b).unwrap();
}

#[test]
fn free_errors() {
    let mut allocator = Cache::new(Layout::from_size_align(32, 8).unwrap());
    let a = allocator.allocate().unwrap();
    assert_eq!(allocator.free(a + 4), Err(SlabError::BadPtrAlignment));
    assert_eq!(allocator.free(0x10), Err(SlabError::BadPtrRange));
    allocator.free(a).unwrap();
    // The slab is all free again and no longer partial
    assert_eq!(allocator.free(a), Err(SlabError::BadPtrRange));
    let b = allocator.allocate().unwrap();
    let c = allocator.allocate().unwrap();
    allocator.free(c).unwrap();
    assert_eq!(allocator.free(c), Err(SlabError::DoubleFree));
    allocator.free(b).unwrap();
}

#[test]
fn growth_without_pages_fails() {
    let mut inner = InternalSlabAllocator::new(ObjectLayout { size: 32, align: 8 });
    assert_eq!(inner.allocate(), Ok(AllocateStep::NeedsGrow));
    assert_eq!(
        inner.grow_and_allocate(Err(PagingError::OutOfMemory)),
        Err(SlabError::PageAllocationError)
    );
    assert_eq!(inner.allocate(), Ok(AllocateStep::NeedsGrow));
}

#[test]
fn page_sized_objects_leave_an_empty_slab() {
    let mut inner = InternalSlabAllocator::new(ObjectLayout { size: 4096, align: 8 });
    assert_eq!(inner.obj_count(), 0);
    assert_eq!(inner.allocate(), Ok(AllocateStep::NeedsGrow));
    assert_eq!(inner.grow_and_allocate(Ok(0x8000)), Err(SlabError::SlabFullInternalError));
    // The empty slab stays on the free list
    assert_eq!(inner.allocate(), Err(SlabError::SlabFullInternalError));
    assert_eq!(inner.reap(), vec![0x8000]);
}

#[test]
fn reap_hands_back_the_free_slabs_pages() {
    let mut allocator = Cache::new(Layout::from_size_align(1024, 8).unwrap());
    let count = allocator.inner.obj_count();
    let mut pointers = vec![];
    for _ in 0..(2 * count) {
        pointers.push(allocator.allocate().unwrap());
    }
    assert_eq!(allocator.grown, 2);
    for ptr in pointers {
        allocator.free(ptr).unwrap();
    }
    let pages = allocator.inner.reap();
    let slab_bytes = allocator.inner.pages_per_slab() * BASIC_PAGE_SIZE;
    // Top first: the slab that became free last
    assert_eq!(pages, vec![0x4000_0000 + slab_bytes, 0x4000_0000]);
    assert_eq!(allocator.inner.reap(), Vec::<usize>::new());
}

#[test]
fn release_refuses_while_objects_are_in_use() {
    let mut inner = InternalSlabAllocator::new(ObjectLayout { size: 64, align: 8 });
    assert_eq!(inner.allocate(), Ok(AllocateStep::NeedsGrow));
    let p = inner.grow_and_allocate(Ok(0x20_0000)).unwrap();
    assert!(inner.release().is_none());
    inner.free(p).unwrap();
    assert_eq!(inner.release(), Some(vec![0x20_0000]));
}

/// A value the kernel keeps in a slab allocator of its own.
struct ControlBlock {
    _registers: [u64; 4],
}

impl funderberker::slab::SlabAllocatable for ControlBlock {}

#[test]
fn typed_slab_allocator() {
    let layout = ObjectLayout {
        size: std::mem::size_of::<ControlBlock>(),
        align: std::mem::align_of::<ControlBlock>(),
    };
    let mut allocator = SlabAllocator::<ControlBlock>::new();
    assert_eq!(allocator.allocate(layout), Ok(AllocateStep::NeedsGrow));
    let p = allocator.allocate_after_grow(Ok(0x30_0000)).unwrap();
    assert_eq!(p % 8, 0);
    let q = match allocator.allocate(layout) {
        Ok(AllocateStep::Allocated(q)) => q,
        other => panic!("unexpected {:?}", other),
    };
    assert_eq!(q, p - 32);
    assert_eq!(allocator.deallocate(p, layout), Ok(()));
    assert_eq!(allocator.deallocate(p, layout), Err(SlabError::DoubleFree));
    assert_eq!(allocator.deallocate(q, layout), Ok(()));
    assert_eq!(allocator.pages_per_slab(), 1);
}

fn list_counts(allocator: &InternalSlabAllocator) -> (usize, usize, usize) {
    (allocator.free_slab_count(), allocator.partial_slab_count(), allocator.full_slab_count())
}

#[test]
fn lists_follow_allocations() {
    let mut allocator = Cache::new(Layout::new::<[u8; 10]>());
    let ptr = allocator.allocate().unwrap();
    assert_eq!(list_counts(&allocator.inner), (0, 1, 0));
    allocator.free(ptr).unwrap();

    let ptr = allocator.allocate().unwrap();
    let ptr2 = allocator.allocate().unwrap();
    let ptr3 = allocator.allocate().unwrap();
    assert_eq!(list_counts(&allocator.inner), (0, 1, 0));
    allocator.free(ptr).unwrap();
    assert_eq!(list_counts(&allocator.inner), (0, 1, 0));
    allocator.free(ptr3).unwrap();
    allocator.free(ptr2).unwrap();
    assert_eq!(list_counts(&allocator.inner), (1, 0, 0));
}

#[test]
fn lists_after_filling_slabs() {
    let mut allocator = Cache::new(Layout::new::<[u64; 4]>());
    let obj_count = allocator.inner.obj_count();
    let mut held = vec![];
    for _ in 0..obj_count {
        held.push(allocator.allocate().unwrap());
    }
    assert_eq!(list_counts(&allocator.inner), (0, 0, 1));

    let ptr = allocator.allocate().unwrap();
    assert_eq!(list_counts(&allocator.inner), (0, 1, 1));
    allocator.free(ptr).unwrap();
    assert_eq!(list_counts(&allocator.inner), (1, 0, 1));

    let ptr0 = allocator.allocate().unwrap();
    let ptr1 = allocator.allocate().unwrap();
    let ptr2 = allocator.allocate().unwrap();
    let ptr3 = allocator.allocate().unwrap();
    assert_eq!(list_counts(&allocator.inner), (0, 1, 1));

    for _ in 0..(2 * obj_count) {
        held.push(allocator.allocate().unwrap());
    }
    assert_eq!(list_counts(&allocator.inner), (0, 1, 3));

    allocator.free(ptr0).unwrap();
    allocator.free(ptr1).unwrap();
    allocator.free(ptr2).unwrap();
    allocator.free(ptr3).unwrap();
    assert_eq!(list_counts(&allocator.inner), (0, 2, 2));

    for ptr in held {
        allocator.free(ptr).unwrap();
    }
}

#[test]
fn grow_then_reap_lists() {
    let mut inner = InternalSlabAllocator::new(ObjectLayout { size: 40, align: 2 });
    let slab_bytes = inner.pages_per_slab() * BASIC_PAGE_SIZE;
    for i in 0..3 {
        inner.cache_grow(Ok(0x50_0000 + i * slab_bytes)).unwrap();
        assert_eq!(list_counts(&inner), (i + 1, 0, 0));
    }
    assert_eq!(inner.reap().len(), 3);
    assert_eq!(list_counts(&inner), (0, 0, 0));
    assert_eq!(inner.allocate(), Ok(AllocateStep::NeedsGrow));
    assert_eq!(inner.cache_grow(Err(PagingError::OutOfMemory)), Err(SlabError::PageAllocationError));
    let p = inner.grow_and_allocate(Ok(0x60_0000)).unwrap();
    assert_eq!(list_counts(&inner), (0, 1, 0));
    inner.free(p).unwrap();
    assert_eq!(list_counts(&inner), (1, 0, 0));
}

#[test]
fn dealloc_after_other_operations_is_accepted() {
    let layout = Layout::from_size_align(64, 8).unwrap();
    let mut allocator = Cache::new(layout);
    let p = allocator.allocate().unwrap();
    // Enough allocations to fill the first slab and grow a second
    let count = allocator.inner.obj_count();
    let mut others = Vec::new();
    for _ in 0..count + 3 {
        others.push(allocator.allocate().unwrap());
    }
    assert_eq!(allocator.grown, 2);
    // Give back the others of the first slab, and some of the second
    for q in others.drain(..count / 2) {
        allocator.free(q).unwrap();
    }
    let r = allocator.allocate().unwrap();
    assert_eq!(allocator.free(p), Ok(()));
    assert_eq!(allocator.free(p), Err(SlabError::DoubleFree));
    allocator.free(r).unwrap();
    for q in others {
        allocator.free(q).unwrap();
    }
}

#[test]
fn slab_pages_fresh_refuses_unfit_pages() {
    let layout = Layout::from_size_align(64, 8).unwrap();
    let mut allocator = Cache::new(layout);
    assert!(allocator.inner.slab_pages_fresh(0x4000_0000));
    let p = allocator.allocate().unwrap();
    // The pages of the slab just made, and unaligned pages, are refused
    assert!(!allocator.inner.slab_pages_fresh(0x4000_0000));
    assert!(!allocator.inner.slab_pages_fresh(0x5000_0001));
    assert!(allocator.inner.slab_pages_fresh(0x5000_0000));
    assert!(!allocator.inner.slab_pages_fresh(usize::MAX - 0xfff));
    allocator.free(p).unwrap();
}
