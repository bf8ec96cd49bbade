use funderberker::heap::Heap;
use funderberker::slab::{AllocateStep, ObjectLayout, SlabError};

fn layout(size: usize, align: usize) -> ObjectLayout {
    ObjectLayout { size, align }
}

#[test]
fn layout_to_size_class() {
    let heap = Heap::new();
    assert_eq!(heap.layout_to_allocator(layout(24, 8)), 0);
    assert_eq!(heap.layout_to_allocator(layout(32, 32)), 0);
    // 33 bytes padded to 40
    assert_eq!(heap.layout_to_allocator(layout(33, 8)), 1);
    assert_eq!(heap.layout_to_allocator(layout(1, 64)), 1);
    // 100 bytes padded to 128
    assert_eq!(heap.layout_to_allocator(layout(100, 128)), 2);
    assert_eq!(heap.layout_to_allocator(layout(2049, 1)), 7);
    assert_eq!(heap.layout_to_allocator(layout(4096, 1)), 7);
}

#[test]
fn heap_allocates_and_frees_per_class() {
    let mut heap = Heap::new();
    let l = layout(24, 8);
    let (class, step) = heap.allocate(l);
    assert_eq!(class, 0);
    assert_eq!(step, AllocateStep::NeedsGrow);
    let p = heap.allocate_after_grow(class, Ok(0x100000)).unwrap();
    assert_eq!(p % 32, 0);
    assert!(p >= 0x100000 && p < 0x101000);
    let (_, step) = heap.allocate(l);
    let q = match step {
        AllocateStep::Allocated(q) => q,
        AllocateStep::NeedsGrow => panic!("the slab has room"),
    };
    assert_ne!(p, q);
    assert_eq!(heap.dealloc(p, l), Ok(()));
    assert_eq!(heap.dealloc(p, l), Err(SlabError::DoubleFree));
    assert_eq!(heap.dealloc(0x900000, l), Err(SlabError::BadPtrRange));
    assert_eq!(heap.dealloc(q, l), Ok(()));
    // The smallest class is not reaped
    assert_eq!(heap.reap(), Vec::<usize>::new());
}

#[test]
fn heap_reaps_idle_slabs() {
    let mut heap = Heap::new();
    let l = layout(64, 64);
    let (class, _) = heap.allocate(l);
    assert_eq!(class, 1);
    let p = heap.allocate_after_grow(class, Ok(0x200000)).unwrap();
    assert_eq!(heap.reap(), Vec::<usize>::new());
    heap.dealloc(p, l).unwrap();
    assert_eq!(heap.reap(), vec![0x200000]);
}

#[test]
fn page_sized_objects_do_not_fit_a_slab() {
    let mut heap = Heap::new();
    let (class, step) = heap.allocate(layout(4096, 4096));
    assert_eq!(class, 7);
    assert_eq!(step, AllocateStep::NeedsGrow);
    assert_eq!(heap.cache(class).object_count(), 0);
    assert_eq!(
        heap.allocate_after_grow(class, Ok(0x300000)),
        Err(SlabError::SlabFullInternalError)
    );
}
