use std::alloc::Layout;
use std::ptr::NonNull;

use funderberker::levels::BASIC_PAGE_SIZE;
use funderberker::slab::{
    AllocateStep, InternalSlabAllocator, ObjectLayout, SlabError, OBJECT_NODE_ALIGN,
    OBJECT_NODE_SIZE, SLAB_NODE_ALIGN, SLAB_NODE_SIZE,
};

/// A slab cache driven as the kernel drives it: a new slab gets fresh pages
/// from a simple page source, and the pages of reaped slabs go back.
struct Cache {
    inner: InternalSlabAllocator,
    next_page: usize,
    object_count: usize,
    page_count: usize,
}

impl Cache {
    fn new(layout: ObjectLayout) -> Self {
        let inner = InternalSlabAllocator::new(layout);
        let object_count = inner.object_count();
        let page_count = inner.page_count();
        Cache { inner, next_page: 0x10_0000, object_count, page_count }
    }

    fn allocate(&mut self) -> Result<usize, SlabError> {
        match self.inner.allocate() {
            AllocateStep::Allocated(ptr) => Ok(ptr),
            AllocateStep::NeedsGrow => {
                let pages = self.next_page;
                self.next_page += self.page_count * BASIC_PAGE_SIZE;
                self.inner.grow_and_allocate(Ok(pages))
            }
        }
    }

    fn free(&mut self, ptr: usize) -> Result<(), SlabError> {
        self.inner.free(ptr)
    }

    fn reap(&mut self) -> usize {
        self.inner.reap().len()
    }
}

impl Drop for Cache {
    fn drop(&mut self) {
        let (has_leaks, _buffers) = self.inner.release_all();
        assert!(
            !has_leaks,
            "Slabs are still allocated but the allocator is being dropped. This is a memory leak!"
        );
    }
}

fn object_layout(layout: Layout) -> ObjectLayout {
    ObjectLayout { size: layout.size(), align: layout.align() }
}

// Helper function to create test layouts
fn small_layout() -> ObjectLayout {
    // Two `u32` fields
    object_layout(Layout::from_size_align(8, 4).unwrap())
}

fn medium_layout() -> ObjectLayout {
    // Three `u64` fields
    object_layout(Layout::from_size_align(24, 8).unwrap())
}

fn aligned_layout() -> ObjectLayout {
    // 32 bytes aligned to 16
    object_layout(Layout::from_size_align(32, 16).unwrap())
}

fn large_layout() -> ObjectLayout {
    // 256 bytes
    object_layout(Layout::from_size_align(256, 1).unwrap())
}

fn min_valid_layout() -> ObjectLayout {
    ObjectLayout { size: OBJECT_NODE_SIZE, align: OBJECT_NODE_ALIGN }
}

#[test]
fn test_basic() {
    let mut allocator = Cache::new(small_layout());

    let obj1 = allocator.allocate().unwrap();
    let obj2 = allocator.allocate().unwrap();
    let obj3 = allocator.allocate().unwrap();

    {
        allocator.free(obj1).unwrap();
        allocator.free(obj2).unwrap();
        allocator.free(obj3).unwrap();
    }
}

#[test]
fn test_single_allocation_and_free() {
    let mut allocator = Cache::new(small_layout());

    // First allocation should trigger slab creation
    let ptr1 = allocator.allocate().expect("Failed to allocate");

    // Free the allocation
    {
        allocator.free(ptr1).expect("Failed to free");
    }
}

#[test]
fn test_multiple_allocations() {
    let mut allocator = Cache::new(small_layout());
    let mut pointers = Vec::new();

    // Allocate multiple objects
    for i in 0..10 {
        let ptr = allocator
            .allocate()
            .expect(&format!("Failed to allocate object {}", i));
        pointers.push(ptr);
    }

    // Free all allocations
    for ptr in pointers {
        {
            allocator.free(ptr).expect("Failed to free");
        }
    }
}

#[test]
fn test_fill_entire_slab() {
    let mut allocator = Cache::new(small_layout());
    let object_count = allocator.object_count;
    let mut pointers = Vec::new();

    // Fill the entire first slab
    for i in 0..object_count {
        let ptr = allocator
            .allocate()
            .expect(&format!("Failed to allocate object {}", i));
        pointers.push(ptr);
    }

    // Next allocation should trigger slab growth
    let overflow_ptr = allocator
        .allocate()
        .expect("Failed to allocate after slab full");
    pointers.push(overflow_ptr);

    // Free all allocations
    for ptr in pointers {
        {
            allocator.free(ptr).expect("Failed to free");
        }
    }
}

#[test]
fn test_allocation_after_partial_free() {
    let mut allocator = Cache::new(small_layout());
    let mut pointers = Vec::new();

    // Allocate several objects
    for _ in 0..5 {
        pointers.push(allocator.allocate().unwrap());
    }

    // Free every other allocation
    let mut freed_indices = Vec::new();
    for (i, ptr) in pointers.iter().enumerate() {
        if i % 2 == 0 {
            {
                allocator.free(*ptr).expect("Failed to free");
            }
            freed_indices.push(i);
        }
    }

    // Allocate new objects (should reuse freed slots)
    for _ in freed_indices {
        let _ = allocator.allocate().expect("Failed to reallocate");
    }

    // Clean up remaining allocations
    for ptr in pointers.iter() {
        {
            allocator
                .free(*ptr)
                .expect("Failed to free remaining");
        }
    }
}

#[test]
fn test_double_free_error() {
    let mut allocator = Cache::new(small_layout());

    let ptr = allocator.allocate().unwrap();

    // First free should succeed
    {
        allocator
            .free(ptr)
            .expect("First free should succeed");
    }

    // Second free should fail with DoubleFree error
    {
        let result = allocator.free(ptr);
        assert_eq!(result.unwrap_err(), SlabError::DoubleFree);
    }
}

#[test]
fn test_bad_ptr_range_error() {
    let mut allocator = Cache::new(small_layout());

    // Create a fake pointer that's not from our allocator
    let fake_ptr: usize = NonNull::<()>::dangling().as_ptr() as usize;

    {
        let result = allocator.free(fake_ptr);
        assert_eq!(result.unwrap_err(), SlabError::BadPtrRange);
    }
}

#[test]
fn test_slab_growth_multiple_times() {
    let mut allocator = Cache::new(small_layout());
    let objects_per_slab = allocator.object_count;
    let total_slabs = 3;
    let mut all_pointers = Vec::new();

    // Allocate enough objects to force multiple slab growths
    for slab_num in 0..total_slabs {
        for obj_num in 0..objects_per_slab {
            let ptr = allocator.allocate().expect(&format!(
                "Failed to allocate object {} in slab {}",
                obj_num, slab_num
            ));
            all_pointers.push(ptr);
        }
    }

    // Verify we have the expected number of allocations
    assert_eq!(all_pointers.len(), total_slabs * objects_per_slab);

    // Free all allocations
    for ptr in all_pointers {
        {
            allocator
                .free(ptr)
                .expect("Failed to free during cleanup");
        }
    }
}

#[test]
fn test_stress_allocation_free_patterns() {
    let mut allocator = Cache::new(medium_layout());
    let mut active_pointers = Vec::new();

    // Pattern 1: Allocate many, free all
    for _ in 0..50 {
        active_pointers.push(allocator.allocate().unwrap());
    }

    for ptr in active_pointers.drain(..) {
        {
            allocator.free(ptr).unwrap();
        }
    }

    // Pattern 2: Interleaved allocation and freeing
    for _ in 0..10 {
        // Allocate 5 objects
        for _ in 0..5 {
            active_pointers.push(allocator.allocate().unwrap());
        }

        // Free 3 objects
        for _ in 0..3 {
            if let Some(ptr) = active_pointers.pop() {
                {
                    allocator.free(ptr).unwrap();
                }
            }
        }
    }

    // Clean up remaining
    for ptr in active_pointers {
        {
            allocator.free(ptr).unwrap();
        }
    }
}

#[test]
fn test_different_sized_objects() {
    let test_cases = vec![
        ("small", small_layout()),
        ("medium", medium_layout()),
        ("aligned", aligned_layout()),
        ("large", large_layout()),
    ];

    for (name, layout) in test_cases {
        let mut allocator = Cache::new(layout);
        let mut pointers = Vec::new();

        // Allocate several objects
        for i in 0..5 {
            let ptr = allocator
                .allocate()
                .expect(&format!("Failed to allocate {} object {}", name, i));
            pointers.push(ptr);
        }

        // Free all objects
        for ptr in pointers {
            {
                allocator
                    .free(ptr)
                    .expect(&format!("Failed to free {} object", name));
            }
        }
    }
}

#[test]
fn test_reap_functionality() {
    let mut allocator = Cache::new(small_layout());

    // Initially, no slabs exist, so reap should return 0
    let reaped = allocator.reap();
    assert_eq!(reaped, 0);

    // Allocate and immediately free to create an empty slab
    let ptr = allocator.allocate().unwrap();
    {
        allocator.free(ptr).unwrap();
    }

    // Now reap should free the empty slab
    let reaped = allocator.reap();
    assert!(reaped > 0);
}

#[test]
fn test_concurrent_like_operations() {
    // Simulate what might happen in concurrent scenarios
    let mut allocator = Cache::new(small_layout());
    let mut operations = Vec::new();

    // Mixed operations that might occur
    for i in 0..100 {
        match i % 4 {
            0 | 1 => {
                // Allocate
                if let Ok(ptr) = allocator.allocate() {
                    operations.push(ptr);
                }
            }
            2 => {
                // Free if we have something to free
                if let Some(ptr) = operations.pop() {
                    {
                        let _ = allocator.free(ptr);
                    }
                }
            }
            3 => {
                // Attempt reap
                let _ = allocator.reap();
            }
            _ => unreachable!(),
        }
    }

    // Clean up remaining allocations
    for ptr in operations {
        {
            allocator.free(ptr).unwrap();
        }
    }
}

#[test]
fn test_edge_case_minimum_object_size() {
    let min_layout = min_valid_layout();
    let mut allocator = Cache::new(min_layout);

    // Should be able to allocate even with minimum size
    let ptr = allocator.allocate().unwrap();

    {
        allocator.free(ptr).unwrap();
    }
}

#[test]
fn test_large_number_of_allocations() {
    let mut allocator = Cache::new(small_layout());
    let num_allocations = 1000;
    let mut pointers = Vec::with_capacity(num_allocations);

    // Allocate many objects
    for i in 0..num_allocations {
        let ptr = allocator
            .allocate()
            .expect(&format!("Failed allocation {}", i));
        pointers.push(ptr);
    }

    // Free all in reverse order
    for ptr in pointers.into_iter().rev() {
        {
            allocator.free(ptr).expect("Failed to free");
        }
    }
}

#[test]
fn test_allocation_alignment() {
    let aligned_layout = aligned_layout();
    let mut allocator = Cache::new(aligned_layout);

    // Allocate several aligned objects
    for _ in 0..5 {
        let ptr = allocator.allocate().unwrap();

        // Check alignment
        let addr = ptr;
        assert_eq!(
            addr % aligned_layout.align,
            0,
            "Allocated pointer is not properly aligned"
        );

        {
            allocator.free(ptr).unwrap();
        }
    }
}

#[test]
fn test_fragmentation_and_coalescing() {
    let mut allocator = Cache::new(small_layout());
    let mut pointers = Vec::new();

    // Fill up a slab
    let object_count = allocator.object_count;
    for _ in 0..object_count {
        pointers.push(allocator.allocate().unwrap());
    }

    // Free every other object to create fragmentation
    let mut kept_pointers = Vec::new();
    for (i, ptr) in pointers.into_iter().enumerate() {
        if i % 2 == 0 {
            {
                allocator.free(ptr).unwrap();
            }
        } else {
            kept_pointers.push(ptr);
        }
    }

    // Allocate new objects - should reuse freed slots
    let realloc_count = object_count / 2;
    for _ in 0..realloc_count {
        let ptr = allocator.allocate().unwrap();
        kept_pointers.push(ptr);
    }

    // Clean up
    for ptr in kept_pointers {
        {
            allocator.free(ptr).unwrap();
        }
    }
}

#[test]
fn test_error_propagation() {
    // Test that errors are properly propagated through the call chain
    let mut allocator = Cache::new(small_layout());

    // Test BadPtrRange error
    let bad_ptr: usize = NonNull::<()>::dangling().as_ptr() as usize;
    {
        match allocator.free(bad_ptr) {
            Err(SlabError::BadPtrRange) => (),
            other => panic!("Expected BadPtrRange error, got {:?}", other),
        }
    }

    // Test DoubleFree error
    let ptr = allocator.allocate().unwrap();
    {
        allocator.free(ptr).unwrap(); // First free
        match allocator.free(ptr) {
            Err(SlabError::DoubleFree) => (),
            other => panic!("Expected DoubleFree error, got {:?}", other),
        }
    }
}

#[test]
fn test_memory_layout_assumptions() {
    // Verify our assumptions about memory layout are correct
    let layout = small_layout();
    let page_count = 1;

    let object_count = InternalSlabAllocator::calculate_object_count(layout, page_count);
    let buffer_size = object_count * layout.size;
    let alignment_offset = (page_count * BASIC_PAGE_SIZE) % SLAB_NODE_ALIGN;
    let total_used = buffer_size + alignment_offset + SLAB_NODE_SIZE;
    let available = page_count * BASIC_PAGE_SIZE;

    assert!(
        total_used <= available,
        "Memory layout calculation is incorrect: used {} bytes but only {} available",
        total_used,
        available
    );
}

#[test]
fn test_allocator_state_consistency() {
    let mut allocator = Cache::new(small_layout());

    // Initial state
    assert_eq!(allocator.page_count, 1);
    assert!(allocator.object_count > 0);

    // After allocation, state should remain consistent
    let ptr = allocator.allocate().unwrap();
    assert_eq!(allocator.page_count, 1);
    assert!(allocator.object_count > 0);

    // After free, state should remain consistent
    {
        allocator.free(ptr).unwrap();
    }
    assert_eq!(allocator.page_count, 1);
    assert!(allocator.object_count > 0);
}

// Not testing this on Miri, since it will panic and Miri will report the intentional memory
// leak as an error
#[test]
#[should_panic]
fn test_allocator_drop_behavior() {
    let mut allocator = Cache::new(small_layout());

    // Fill the allocator with objects
    for _ in 0..5 {
        allocator.allocate().unwrap();
    }

    // Intentionally we don't drop, to make sure it panics if there are still slabs allocated
}


#[test]
fn reap_takes_idle_slabs_behind_a_busy_one() {
    let mut allocator = Cache::new(large_layout());
    let n = allocator.object_count;
    let mut first = Vec::new();
    for _ in 0..n {
        first.push(allocator.allocate().unwrap());
    }
    // The first slab is full: this object opens a second one
    let extra = allocator.allocate().unwrap();
    assert!(extra >= 0x10_1000 && extra < 0x10_2000);
    allocator.free(extra).unwrap();
    // The busy slab stays, the idle one behind it goes
    assert_eq!(allocator.inner.reap(), vec![0x10_1000]);
    assert_eq!(allocator.inner.reap(), Vec::<usize>::new());
    for p in first {
        allocator.free(p).unwrap();
    }
    assert_eq!(allocator.inner.reap(), vec![0x10_0000]);
}

#[test]
fn pages_fresh_refuses_pages_of_a_slab() {
    let mut allocator = Cache::new(large_layout());
    assert!(allocator.inner.pages_fresh(0x10_0000));
    let p = allocator.allocate().unwrap();
    assert!(!allocator.inner.pages_fresh(0x10_0000));
    assert!(allocator.inner.pages_fresh(0x10_1000));
    assert!(allocator.inner.pages_fresh(0xf_f000));
    assert!(!allocator.inner.pages_fresh(0xf_f800));
    assert!(!allocator.inner.pages_fresh(usize::MAX - 0xfff));
    allocator.free(p).unwrap();
}
