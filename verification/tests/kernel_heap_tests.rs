use std::alloc::Layout;

use funderberker::kernel_heap::{KernelHeapAllocator, KERNEL_CLASS_COUNT};
use funderberker::levels::BASIC_PAGE_SIZE;
use funderberker::slab::{AllocateStep, ObjectLayout};
use funderberker::slab_lists::SlabError;

fn object_layout(layout: Layout) -> ObjectLayout {
    ObjectLayout { size: layout.size(), align: layout.align() }
}

/// The kernel heap driven as the global allocator drives it, with a simple
/// page source for new slabs.
struct Heap {
    inner: KernelHeapAllocator,
    next_page: usize,
}

impl Heap {
    fn new() -> Self {
        Heap { inner: KernelHeapAllocator::new(), next_page: 0x1000_0000 }
    }

    fn allocate(&mut self, layout: Layout) -> usize {
        let (index, step) = self.inner.allocate(object_layout(layout));
        match step {
            Ok(AllocateStep::Allocated(ptr)) => ptr,
            Ok(AllocateStep::NeedsGrow) => {
                let pages = self.next_page;
                self.next_page += self.inner.cache(index).pages_per_slab() * BASIC_PAGE_SIZE;
                self.inner.allocate_after_grow(index, Ok(pages)).unwrap()
            }
            Err(e) => panic!("allocation failed: {:?}", e),
        }
    }

    fn dealloc(&mut self, ptr: usize, layout: Layout) -> Option<Result<(), SlabError>> {
        self.inner.dealloc(ptr, object_layout(layout))
    }
}

#[test]
fn matching_allocator_index() {
    let index = |size, align| {
        KernelHeapAllocator::get_matching_allocator_index(ObjectLayout { size, align })
    };
    assert_eq!(index(0, 1), 0);
    assert_eq!(index(1, 1), 0);
    assert_eq!(index(16, 1), 0);
    assert_eq!(index(17, 1), 1);
    assert_eq!(index(16, 32), 1);
    assert_eq!(index(5000, 8), 9);
    assert_eq!(index(16384, 1), 10);
}

#[test]
fn caches_hold_powers_of_two() {
    let heap = KernelHeapAllocator::new();
    for i in 0..KERNEL_CLASS_COUNT {
        let layout = heap.cache(i).obj_layout();
        assert_eq!(layout, ObjectLayout { size: 16 << i, align: 1 });
    }
    assert_eq!(heap.cache(9).pages_per_slab(), 2);
    assert_eq!(heap.cache(10).pages_per_slab(), 4);
}

#[test]
fn heap_generic_allocs() {
    let mut heap = Heap::new();
    let usize_layout = Layout::new::<usize>();
    let a = heap.allocate(usize_layout);
    let string = heap.allocate(Layout::new::<String>());
    assert_ne!(a, string);
    assert_eq!(heap.dealloc(a, usize_layout), Some(Ok(())));
    assert_eq!(heap.dealloc(string, Layout::new::<String>()), Some(Ok(())));

    let a = heap.allocate(Layout::new::<[usize; 3]>());
    let part1 = heap.allocate(Layout::new::<&str>());
    {
        let part2 = heap.allocate(Layout::new::<&str>());
        let b = heap.allocate(Layout::new::<i32>());
        let mut v = Vec::new();
        for _ in 0..100 {
            v.push(heap.allocate(Layout::new::<i32>()));
        }
        for _ in 0..100 {
            let p = v.pop().unwrap();
            assert_eq!(heap.dealloc(p, Layout::new::<i32>()), Some(Ok(())));
        }
        assert_eq!(heap.dealloc(b, Layout::new::<i32>()), Some(Ok(())));
        assert_eq!(heap.dealloc(part2, Layout::new::<&str>()), Some(Ok(())));
    }
    assert_eq!(heap.dealloc(a, Layout::new::<[usize; 3]>()), Some(Ok(())));
    assert_eq!(heap.dealloc(part1, Layout::new::<&str>()), Some(Ok(())));
}

#[test]
fn dealloc_of_null_and_twice() {
    let mut heap = Heap::new();
    let layout = Layout::from_size_align(100, 8).unwrap();
    assert_eq!(heap.dealloc(0, layout), None);
    let p = heap.allocate(layout);
    let q = heap.allocate(layout);
    assert_eq!(heap.dealloc(p, layout), Some(Ok(())));
    assert_eq!(heap.dealloc(p, layout), Some(Err(SlabError::DoubleFree)));
    assert_eq!(heap.dealloc(q, layout), Some(Ok(())));
}

#[test]
fn page_sized_caches_hold_no_object() {
    let mut heap = KernelHeapAllocator::new();
    // The slab's record takes the start of its pages, so a cache of objects
    // as large as its pages holds none
    for index in 8..KERNEL_CLASS_COUNT {
        assert_eq!(heap.cache(index).obj_count(), 0);
    }
    let layout = ObjectLayout { size: 10_000, align: 8 };
    let (index, step) = heap.allocate(layout);
    assert_eq!(index, 10);
    assert_eq!(step, Ok(AllocateStep::NeedsGrow));
    assert_eq!(heap.allocate_after_grow(index, Ok(0x2000_0000)), Err(SlabError::SlabFullInternalError));
    assert_eq!(heap.cache(7).obj_count(), (BASIC_PAGE_SIZE - 32) / 2048);
}

#[test]
fn dealloc_is_accepted_after_later_operations() {
    let mut heap = Heap::new();
    let layout = Layout::from_size_align(100, 8).unwrap();
    let p = heap.allocate(layout);
    // Other allocations in the same class, enough for new slabs, and in others
    let mut same = Vec::new();
    for _ in 0..100 {
        same.push(heap.allocate(layout));
    }
    let small = Layout::from_size_align(8, 8).unwrap();
    let s = heap.allocate(small);
    // Other objects given back in between
    // (the first slab keeps some of them in use)
    for q in same.drain(20..70) {
        assert_eq!(heap.dealloc(q, layout), Some(Ok(())));
    }
    assert_eq!(heap.dealloc(s, small), Some(Ok(())));
    assert_eq!(heap.dealloc(p, layout), Some(Ok(())));
    assert_eq!(heap.dealloc(p, layout), Some(Err(SlabError::DoubleFree)));
    for q in same {
        assert_eq!(heap.dealloc(q, layout), Some(Ok(())));
    }
}
