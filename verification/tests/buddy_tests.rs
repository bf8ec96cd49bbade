use funderberker::addr::PhysAddr;
use funderberker::buddy::BuddyAllocator;
use funderberker::levels::BASIC_PAGE_SIZE;
use funderberker::pmm::PmmError;

const BASE_ADDR: PhysAddr = PhysAddr(0x1000000); // 16MB base address for testing

fn new_allocator(zones_count: usize) -> BuddyAllocator {
    BuddyAllocator::with_zone_count(zones_count)
}

/// Breaks the memory region into appropriately sized buckets and marks them as free
fn setup_mem_map(allocator: &mut BuddyAllocator, page_count: usize) {
    allocator.break_into_buckets_n_free(BASE_ADDR, page_count);
}

/// The free blocks of each zone
fn zones(allocator: &BuddyAllocator) -> Vec<Vec<PhysAddr>> {
    let mut all = Vec::new();
    for i in 0..allocator.zone_count() {
        let mut zone = Vec::new();
        for j in 0..allocator.zone_len(i) {
            zone.push(allocator.zone_block(i, j));
        }
        all.push(zone);
    }
    all
}

#[test]
fn break_into_buckets_n_free_one_page() {
    let mut allocator = new_allocator(33);
    setup_mem_map(&mut allocator, 1);

    assert_eq!(allocator.zone_len(0), 1);

    // All other zones should be empty
    for (i, zone) in zones(&allocator).iter().enumerate() {
        if i != 0 {
            assert_eq!(zone.len(), 0);
        }
    }
}

#[test]
fn break_into_buckets_n_free_two_pages() {
    let mut allocator = new_allocator(33);
    setup_mem_map(&mut allocator, 2);
    
    // 2 pages should create one 2-page bucket in zone 1
    assert_eq!(allocator.zone_len(1), 1);
    
    // All other zones should be empty
    for (i, zone) in zones(&allocator).iter().enumerate() {
        if i != 1 {
            assert_eq!(zone.len(), 0);
        }
    }
}

#[test]
fn break_into_buckets_n_free_three_pages() {
    let mut allocator = new_allocator(33);
    setup_mem_map(&mut allocator, 3);

    // 3 pages = 2 + 1, should have one 2-page bucket and one 1-page bucket
    assert_eq!(allocator.zone_len(0), 1);
    assert_eq!(allocator.zone_len(1), 1);
}

#[test]
fn break_into_buckets_n_free_ten_pages() {
    let mut allocator = new_allocator(33);
    setup_mem_map(&mut allocator, 10);

    assert_eq!(allocator.zone_len(1), 1);
    assert_eq!(allocator.zone_len(3), 1);
}

#[test]
fn break_into_buckets_n_free_no_overlaps() {
    let mut allocator = new_allocator(33);
    let page_count = 63; // Non-power-of-two for complex splitting

    allocator.break_into_buckets_n_free(BASE_ADDR, page_count);

    // Collect all allocated ranges
    let mut ranges = Vec::new();
    for (i, zone) in zones(&allocator).iter().enumerate() {
        let bucket_size = 2_usize.pow((i + BuddyAllocator::MIN_ZONE_LEVEL) as u32);
        for addr in zone.iter() {
            ranges.push((addr.0, addr.0 + bucket_size));
        }
    }

    // Sort ranges by start address
    ranges.sort_by_key(|&(start, _)| start);

    // Check no overlaps
    for window in ranges.windows(2) {
        let (_, end1) = window[0];
        let (start2, _) = window[1];
        assert!(end1 <= start2);
    }
}

#[test]
fn break_into_buckets_n_free_specific_decompositions() {
    // Test specific decompositions to ensure correctness
    let test_cases = vec![
        (6, vec![(4, 1), (2, 1)]),   // 6 = 4 + 2
        (9, vec![(8, 1), (1, 1)]),   // 9 = 8 + 1
        (11, vec![(8, 1), (2, 1), (1, 1)]), // 11 = 8 + 2 + 1
        (15, vec![(8, 1), (4, 1), (2, 1), (1, 1)]), // 15 = 8 + 4 + 2 + 1
    ];

    for (page_count, expected_buckets) in test_cases {
        let mut allocator = new_allocator(33);
        setup_mem_map(&mut allocator, page_count);

        for (bucket_pages, expected_count) in expected_buckets {
            let zone_index = (bucket_pages as usize).ilog2() as usize;
            assert_eq!(allocator.zone_len(zone_index), expected_count);
        }
    }
}

#[test]
fn break_into_buckets_n_free_stress_test() {
    // Test with a very large region
    let mut allocator = new_allocator(33);
    let page_count = 2047; // Large non-power-of-two

    setup_mem_map(&mut allocator, page_count);

    // Verify total page count
    let mut total_pages = 0;
    for (i, zone) in zones(&allocator).iter().enumerate() {
        let bucket_pages = 2_usize.pow(i as u32);
        total_pages += zone.len() * bucket_pages;
    }

    assert_eq!(total_pages, page_count);

    // Should be able to allocate many different sizes
    for size in [1, 2, 4, 8, 16, 32, 64, 128, 256, 512] {
        if size < page_count {
            assert!(allocator.allocate(1, size).is_ok());
        }
    }
}

#[test]
fn allocate_and_free() {
    let mut allocator = new_allocator(33);
    setup_mem_map(&mut allocator, 1000);

    for _ in 0..200 {
        let addr = allocator.allocate(1, 4).unwrap();
        assert!(!allocator.is_page_free(addr, 1).unwrap());

        // Free the page
        {
            allocator.free(addr, 4).unwrap();
        }

        assert!(allocator.is_page_free(addr, 4).unwrap());
    }

    // Ensure we can still allocate after freeing
    let _ = allocator.allocate(1, 1).unwrap();
} 

#[test]
fn test_allocate_no_available_blocks() {
    let mut allocator = new_allocator(33);
    
    // Don't add any free blocks
    
    let result = allocator.allocate(1, 1);
    assert!(result.is_err());
    assert_eq!(result.unwrap_err(), PmmError::NoAvailableBlock);
}

#[test]
fn test_free_coalescing() {
    let mut allocator = new_allocator(33);
    setup_mem_map(&mut allocator, 1000);

    // Allocate a few pages
    let addr1 = allocator.allocate(1, 4).unwrap();
    let addr2 = allocator.allocate(1, 4).unwrap();

    // Free the first page
    {
        allocator.free(addr1, 4).unwrap();
    }

    // Now we should be able to coalesce
    assert!(allocator.is_page_free(addr1, 4).unwrap());
    assert!(!allocator.is_page_free(addr1, 8).unwrap());

    // Free the second page
    {
        allocator.free(addr2, 4).unwrap();
    }

    // Both pages should now be free and coalesced
    assert!(allocator.is_page_free(addr1, 8).unwrap());
}

// Stress coalescing tests
#[test]
fn test_stress_coalescing() {
    let mut allocator = new_allocator(33);
    setup_mem_map(&mut allocator, 2048);

    // Allocate many pages of different sizes
    let mut allocations = Vec::new();
    
    // Allocate various sized blocks
    for _ in 0..50 {
        if let Ok(addr) = allocator.allocate(1, 1) {
            allocations.push((addr, 1));
        }
    }
    for _ in 0..25 {
        if let Ok(addr) = allocator.allocate(1, 2) {
            allocations.push((addr, 2));
        }
    }
    for _ in 0..10 {
        if let Ok(addr) = allocator.allocate(1, 4) {
            allocations.push((addr, 4));
        }
    }

    // Free them all in random order to trigger coalescing
    while !allocations.is_empty() {
        let idx = allocations.len() / 2; // Simple deterministic "random"
        let (addr, size) = allocations.remove(idx);
        {
            allocator.free(addr, size).unwrap();
        }
    }

    // Should be able to allocate large blocks after coalescing
    assert!(allocator.allocate(1, 64).is_ok());
    assert!(allocator.allocate(1, 128).is_ok());
}

#[test]
fn test_coalescing_multiple_sizes() {
    let mut allocator = new_allocator(33);
    setup_mem_map(&mut allocator, 16);

    // Allocate 4 pages of size 4 each (uses up 16 pages total)
    let addr1 = allocator.allocate(1, 4).unwrap();
    let addr2 = allocator.allocate(1, 4).unwrap();
    let addr3 = allocator.allocate(1, 4).unwrap();
    let addr4 = allocator.allocate(1, 4).unwrap();

    // All zones should be empty now
    for zone in zones(&allocator).iter() {
        assert_eq!(zone.len(), 0);
    }

    // Free adjacent pairs to trigger coalescing
    {
        allocator.free(addr1, 4).unwrap();
        allocator.free(addr2, 4).unwrap();
    }

    // Should have coalesced into one 8-page block
    assert_eq!(allocator.zone_len(3), 1); // 2^3 = 8 pages

    {
        allocator.free(addr3, 4).unwrap();
        allocator.free(addr4, 4).unwrap();
    }

    // Should have another 8-page block, but they are adjecent so they should coalesce
    assert_eq!(allocator.zone_len(3), 0); // 2^3 = 8 pages
    assert_eq!(allocator.zone_len(4), 1);

    // Now allocate a 16-page block
    let large_addr = allocator.allocate(1, 16).unwrap();

    for zone in zones(&allocator).iter() {
        assert_eq!(zone.len(), 0); // All zones should be empty after allocation
    }
}

// Disband tests
#[test]
fn test_disband_creates_correct_buddies() {
    let mut allocator = new_allocator(33);
    setup_mem_map(&mut allocator, 32);

    // Allocate a 16-page block (zone index 4)
    let addr = allocator.allocate(1, 16).unwrap();

    // The disband should have created buddies in smaller zones
    // When we allocated 16 pages from a 32-page block, the remaining 16 pages
    // should be split and placed in appropriate zones

    // Free the allocated block
    {
        allocator.free(addr, 16).unwrap();
    }

    // After freeing, we should be able to coalesce back to the original size
    let large_addr = allocator.allocate(1, 32).unwrap();
    assert!(large_addr.0 >= BASE_ADDR.0 && large_addr.0 < BASE_ADDR.0 + 32 * BASIC_PAGE_SIZE);
}

#[test]
fn test_disband_complex_splitting() {
    let mut allocator = new_allocator(33);
    setup_mem_map(&mut allocator, 64);

    // Allocate from the largest available block
    let addr1 = allocator.allocate(1, 1).unwrap(); // This will split a large block

    // Verify that buddies were created in appropriate zones
    let mut total_free_pages = 0;
    for (i, zone) in zones(&allocator).iter().enumerate() {
        let bucket_pages = 2_usize.pow(i as u32);
        total_free_pages += zone.len() * bucket_pages;
    }

    assert_eq!(total_free_pages, 63); // 64 - 1 allocated

    // Free the page and verify full coalescing
    {
        allocator.free(addr1, 1).unwrap();
    }

    // Should be able to allocate the full 64 pages again
    assert!(allocator.allocate(1, 64).is_ok());
}

// allocate_at tests
#[test]
fn test_allocate_at_success() {
    let mut allocator = new_allocator(33);
    setup_mem_map(&mut allocator, 32);

    // Try to allocate at a specific address within the available range
    let target_addr = PhysAddr(BASE_ADDR.0 + 8 * BASIC_PAGE_SIZE); // Aligned address
    allocator.allocate_at(target_addr, 4).unwrap();

    // Verify the pages are no longer free
    assert!(!allocator.is_page_free(target_addr, 4).unwrap());
}

#[test]
fn test_allocate_at_alignment_error() {
    let mut allocator = new_allocator(33);
    setup_mem_map(&mut allocator, 32);

    // Try to allocate at a misaligned address
    let misaligned_addr = PhysAddr(BASE_ADDR.0 + BASIC_PAGE_SIZE); // Not aligned for 4-page allocation
    let result = allocator.allocate_at(misaligned_addr, 4);
    
    assert!(result.is_err());
    assert_eq!(result.unwrap_err(), PmmError::InvalidAlignment);
}

#[test]
fn test_allocate_at_no_containing_block() {
    let mut allocator = new_allocator(33);
    setup_mem_map(&mut allocator, 16);

    // Try to allocate at an address outside the available range
    let outside_addr = PhysAddr(BASE_ADDR.0 + 32 * BASIC_PAGE_SIZE);
    let result = allocator.allocate_at(outside_addr, 1);
    
    assert!(result.is_err());
    assert_eq!(result.unwrap_err(), PmmError::NoAvailableBlock);
}

#[test]
fn test_allocate_at_already_allocated() {
    let mut allocator = new_allocator(33);
    setup_mem_map(&mut allocator, 16);

    // First allocation should succeed
    assert!(allocator.allocate_at(BASE_ADDR, 4).is_ok());

    // Second allocation at the same address should fail
    let result = allocator.allocate_at(BASE_ADDR, 4);
    assert!(result.is_err());
    assert_eq!(result.unwrap_err(), PmmError::NoAvailableBlock);
}

// Edge cases for allocate and free
#[test]
fn test_allocate_zero_pages() {
    let mut allocator = new_allocator(33);
    setup_mem_map(&mut allocator, 16);

    let result = allocator.allocate(1, 0);
    assert!(result.is_err());
    assert_eq!(result.unwrap_err(), PmmError::EmptyAllocation);
}

#[test]
fn test_allocate_at_zero_pages() {
    let mut allocator = new_allocator(33);
    setup_mem_map(&mut allocator, 16);

    let result = allocator.allocate_at(BASE_ADDR, 0);
    assert!(result.is_err());
    assert_eq!(result.unwrap_err(), PmmError::EmptyAllocation);
}

#[test]
fn test_free_zero_pages() {
    let mut allocator = new_allocator(33);
    
    let result = allocator.free(BASE_ADDR, 0);
    assert!(result.is_err());
    assert_eq!(result.unwrap_err(), PmmError::EmptyFree);
}

#[test]
fn test_free_already_free_page() {
    let mut allocator = new_allocator(33);
    setup_mem_map(&mut allocator, 16);

    // let addr = PhysAddr(0x1000000);
    
    // First free should fail because the page is already free
    let result = allocator.free(BASE_ADDR, 1);
    assert!(result.is_err());
    assert_eq!(result.unwrap_err(), PmmError::FreeOfAlreadyFree);
}

#[test]
fn test_is_page_free_zero_pages() {
    let allocator = new_allocator(33);
    
    let result = allocator.is_page_free(BASE_ADDR, 0);
    assert!(result.is_err());
    assert_eq!(result.unwrap_err(), PmmError::EmptyAllocation);
}

#[test]
fn test_is_page_free_misaligned() {
    let allocator = new_allocator(33);
    
    let misaligned_addr = PhysAddr(0x1000001); // Not page-aligned
    let result = allocator.is_page_free(misaligned_addr, 1);
    assert!(result.is_err());
    assert_eq!(result.unwrap_err(), PmmError::InvalidAlignment);
}

#[test]
fn test_allocate_overflow() {
    let mut allocator = new_allocator(33);
    setup_mem_map(&mut allocator, 16);

    // Try to allocate more pages than can fit in usize
    let result = allocator.allocate(1, usize::MAX);
    assert!(result.is_err());
    assert_eq!(result.unwrap_err(), PmmError::NoAvailableBlock);
}

#[test]
fn test_alignment_requirements() {
    let mut allocator = new_allocator(33);
    setup_mem_map(&mut allocator, 64);

    // Test various alignment requirements
    let addr1 = allocator.allocate(2, 4).unwrap(); // 2-page alignment
    assert_eq!(addr1.0 % (2 * BASIC_PAGE_SIZE), 0);

    let addr2 = allocator.allocate(4, 8).unwrap(); // 4-page alignment  
    assert_eq!(addr2.0 % (4 * BASIC_PAGE_SIZE), 0);

    let addr3 = allocator.allocate(8, 1).unwrap(); // 8-page alignment
    assert_eq!(addr3.0 % (8 * BASIC_PAGE_SIZE), 0);
}

#[test]
fn test_fragmentation_and_coalescing_recovery() {
    let mut allocator = new_allocator(33);
    setup_mem_map(&mut allocator, 128);

    // Create fragmentation by allocating alternating blocks
    let mut odd_allocations = Vec::new();
    let mut even_allocations = Vec::new();

    for i in 0..128 {
        if let Ok(addr) = allocator.allocate(1, 1) {
            if i % 2 == 0 {
                even_allocations.push(addr);
            } else {
                odd_allocations.push(addr);
            }
        }
    }

    // Free odd allocations to create fragmentation
    for addr in odd_allocations {
        {
            allocator.free(addr, 1).unwrap();
        }
    }

    // Should not be able to allocate large contiguous block due to fragmentation
    assert_eq!(allocator.allocate(1, 32), Err(PmmError::NoAvailableBlock));

    // Free even allocations to enable coalescing
    for addr in even_allocations {
        {
            allocator.free(addr, 1).unwrap();
        }
    }

    // Should now be able to allocate large blocks after coalescing
    assert!(allocator.allocate(1, 128).is_ok());
}


#[test]
fn break_into_buckets_n_free_from_an_unaligned_page() {
    let mut allocator = new_allocator(33);
    // Seven pages from page 0x1001: one page, then two, then four
    allocator.break_into_buckets_n_free(PhysAddr(0x1001000), 7);
    let z = zones(&allocator);
    assert_eq!(z[0], vec![PhysAddr(0x1001000)]);
    assert_eq!(z[1], vec![PhysAddr(0x1002000)]);
    assert_eq!(z[2], vec![PhysAddr(0x1004000)]);
    for zone in z.iter().skip(3) {
        assert!(zone.is_empty());
    }
}

#[test]
fn break_into_buckets_n_free_merges_with_free_buddies() {
    let mut allocator = new_allocator(33);
    // The second half of a 16-page block is free, then the first half
    allocator.break_into_buckets_n_free(PhysAddr(0x1008000), 8);
    allocator.break_into_buckets_n_free(BASE_ADDR, 8);
    let z = zones(&allocator);
    assert_eq!(z[4], vec![BASE_ADDR]);
    for (i, zone) in z.iter().enumerate() {
        if i != 4 {
            assert!(zone.is_empty());
        }
    }
}

#[test]
fn is_page_free_sees_a_block_split_and_merged_again() {
    let mut allocator = new_allocator(33);
    setup_mem_map(&mut allocator, 16);
    assert_eq!(allocator.is_page_free(BASE_ADDR, 16), Ok(true));
    let page = PhysAddr(BASE_ADDR.0 + 5 * BASIC_PAGE_SIZE);
    assert_eq!(allocator.allocate_at(page, 1), Ok(()));
    assert_eq!(allocator.is_page_free(BASE_ADDR, 16), Ok(false));
    assert_eq!(allocator.is_page_free(BASE_ADDR, 4), Ok(true));
    assert_eq!(allocator.is_page_free(PhysAddr(BASE_ADDR.0 + 4 * BASIC_PAGE_SIZE), 4), Ok(false));
    assert_eq!(allocator.free(page, 1), Ok(()));
    // Freed, the page merges back into the whole block
    assert_eq!(allocator.is_page_free(BASE_ADDR, 16), Ok(true));
    assert_eq!(allocator.zone_len(4), 1);
}

#[test]
fn allocate_then_free_lists_the_same_blocks() {
    let mut allocator = new_allocator(33);
    setup_mem_map(&mut allocator, 10);
    let before = zones(&allocator);
    let p = allocator.allocate(1, 1).unwrap();
    assert_eq!(p, PhysAddr(BASE_ADDR.0 + 8 * BASIC_PAGE_SIZE));
    assert_ne!(zones(&allocator), before);
    allocator.free(p, 1).unwrap();
    assert_eq!(zones(&allocator), before);
    let q = allocator.allocate(1, 4).unwrap();
    allocator.free(q, 4).unwrap();
    assert_eq!(zones(&allocator), before);
}
