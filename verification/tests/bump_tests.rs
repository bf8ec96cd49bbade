use funderberker::addr::PhysAddr;
use funderberker::bump::{bump_map_check, BumpAllocator};
use funderberker::levels::BASIC_PAGE_SIZE;
use funderberker::memmap::{get_page_count_from_mem_map, MemMapEntry, MemoryKind};
use funderberker::pmm::PmmError;

/// A memory map: usable low memory from page 1, a reserved hole, and 16MB
/// of usable memory from 1MB.
fn mem_map() -> Vec<MemMapEntry> {
    vec![
        MemMapEntry { base: 0x1000, length: 0x9f000, kind: MemoryKind::Usable },
        MemMapEntry { base: 0xa0000, length: 0x60000, kind: MemoryKind::Reserved },
        MemMapEntry { base: 0x100000, length: 0x1000000, kind: MemoryKind::Usable },
    ]
}

#[test]
fn page_count_from_mem_map() {
    assert_eq!(get_page_count_from_mem_map(&mem_map()), 0x1100);
    let mut map = mem_map();
    map.push(MemMapEntry { base: 0x2000000, length: 0x1000, kind: MemoryKind::Framebuffer });
    // A framebuffer does not count
    assert_eq!(get_page_count_from_mem_map(&map), 0x1100);
}

#[test]
fn bump_init_frees_usable_pages_but_the_bitmap() {
    let allocator = BumpAllocator::init_from_limine(&mem_map());
    assert_eq!(allocator.used_bits_count(), 0x1100);
    assert!(allocator.is_taken(0));
    // The bitmap lives in the first usable page
    assert!(allocator.is_taken(1));
    assert!(!allocator.is_taken(2));
    assert!(!allocator.is_taken(0x9f));
    assert!(allocator.is_taken(0xa0));
    assert!(allocator.is_taken(0xff));
    assert!(!allocator.is_taken(0x100));
    assert!(!allocator.is_taken(0x10ff));
}

#[test]
fn test_bump_alloc() {
    let mut allocator = BumpAllocator::init_from_limine(&mem_map());

    let addr0 = allocator.allocate(1, 1).unwrap();
    assert_eq!(addr0, PhysAddr(0x2000));
    let addr1 = allocator.allocate(2, 10).unwrap();
    assert!(addr1.0 % 0x2000 == 0);
    assert_eq!(addr1, PhysAddr(0x4000));

    let addr2 = allocator.allocate(1, 2).unwrap();
    assert_eq!(addr2, PhysAddr(0xe000));
    allocator.free(addr0, 1).unwrap();

    for _ in 0..10 {
        let addr = allocator.allocate(1, 3).unwrap();
        allocator.free(addr, 3).unwrap();
    }

    allocator.free(addr1, 10).unwrap();
    allocator.free(addr2, 2).unwrap();
}

#[test]
fn test_bump_error() {
    let mut allocator = BumpAllocator::init_from_limine(&mem_map());

    let addr = allocator.allocate(2, 10).unwrap();

    assert_eq!(allocator.allocate_at(addr, 10), Err(PmmError::NoAvailableBlock));

    allocator.free(addr, 5).unwrap();

    assert_eq!(allocator.free(addr, 5), Err(PmmError::FreeOfAlreadyFree));

    allocator.free(PhysAddr(addr.0 + 5 * BASIC_PAGE_SIZE), 5).unwrap();
}

#[test]
fn bump_allocate_at_and_errors() {
    let mut allocator = BumpAllocator::init_from_limine(&mem_map());
    assert_eq!(allocator.allocate_at(PhysAddr(0x2001), 1), Err(PmmError::InvalidAlignment));
    assert_eq!(allocator.allocate_at(PhysAddr(0x10ff000), 2), Err(PmmError::OutOfBounds));
    assert_eq!(allocator.allocate_at(PhysAddr(0x10ff000), 1), Ok(()));
    // A block that reaches the last page counts as out of bounds here
    assert_eq!(allocator.is_page_free(PhysAddr(0x10ff000), 1), Err(PmmError::OutOfBounds));
    assert_eq!(allocator.is_page_free(PhysAddr(0x10fe000), 1), Ok(true));
    assert_eq!(allocator.is_page_free(PhysAddr(0x10fe000), 3), Err(PmmError::OutOfBounds));
    assert_eq!(allocator.is_page_free(PhysAddr(0x3000), 2), Ok(true));
    assert_eq!(allocator.allocate_at(PhysAddr(0x3000), 2), Ok(()));
    assert_eq!(allocator.is_page_free(PhysAddr(0x3000), 2), Ok(false));
    // Freeing what an allocation took makes it free again
    assert_eq!(allocator.free(PhysAddr(0x3000), 2), Ok(()));
    assert_eq!(allocator.is_page_free(PhysAddr(0x3000), 2), Ok(true));
    assert_eq!(allocator.free(PhysAddr(0x3000), 1), Err(PmmError::FreeOfAlreadyFree));
}

#[test]
fn bump_allocate_reaches_the_last_page() {
    // A block may end on the last page of the bitmap
    let map = vec![MemMapEntry { base: 0x1000, length: 0x3000, kind: MemoryKind::Usable }];
    let mut allocator = BumpAllocator::init_from_limine(&map);
    assert_eq!(allocator.used_bits_count(), 4);
    // Page 1 holds the bitmap; pages 2 and 3 are free
    assert_eq!(allocator.allocate(1, 2), Ok(PhysAddr(0x2000)));
    assert_eq!(allocator.allocate(1, 1), Err(PmmError::NoAvailableBlock));
    allocator.free(PhysAddr(0x2000), 2).unwrap();
    assert_eq!(allocator.allocate(1, 1), Ok(PhysAddr(0x2000)));
    assert_eq!(allocator.allocate(1, 1), Ok(PhysAddr(0x3000)));
    assert_eq!(allocator.allocate(1, 1), Err(PmmError::NoAvailableBlock));
}

#[test]
fn bump_map_check_accepts_only_maps_the_allocator_can_use() {
    assert!(bump_map_check(&mem_map()));
    assert!(!bump_map_check(&[]));
    // A usable entry that does not start on a page
    let mut map = mem_map();
    map[0].base = 0x1800;
    assert!(!bump_map_check(&map));
    // A single page: the bitmap's one byte fits in it
    let one = vec![MemMapEntry { base: 0, length: 0x1000, kind: MemoryKind::Usable }];
    assert!(bump_map_check(&one));
}
