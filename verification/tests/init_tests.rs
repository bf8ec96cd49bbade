use funderberker::addr::PhysAddr;
use funderberker::buddy::BuddyAllocator;
use funderberker::buddy_init::buddy_map_check;
use funderberker::memmap::{MemMapEntry, MemoryKind};

/// A memory map: usable low memory from page 1, a reserved hole, and 16MB
/// of usable memory from 1MB.
fn mem_map() -> Vec<MemMapEntry> {
    vec![
        MemMapEntry { base: 0x1000, length: 0x9f000, kind: MemoryKind::Usable },
        MemMapEntry { base: 0xa0000, length: 0x60000, kind: MemoryKind::Reserved },
        MemMapEntry { base: 0x100000, length: 0x1000000, kind: MemoryKind::Usable },
    ]
}

fn free_pages(allocator: &BuddyAllocator) -> usize {
    let mut total = 0;
    for i in 0..allocator.zone_count() {
        total += allocator.zone_len(i) << i;
    }
    total
}

#[test]
fn new_from_limine_sizes_the_zones_and_buffer() {
    let (allocator, entry, pages) = BuddyAllocator::new_from_limine(&mem_map());
    // 0x1100 pages need a block of 2^12 pages: 13 zones
    assert_eq!(allocator.zone_count(), 13);
    // The buffer of 13 zone heads and the free-list nodes takes 513 pages,
    // which only the large entry holds
    assert_eq!(entry, 2);
    assert_eq!(pages, 513);
}

#[test]
fn init_from_limine_frees_usable_memory_but_the_buffer() {
    let (allocator, entry) = BuddyAllocator::init_from_limine(&mem_map());
    assert_eq!(entry, 2);
    assert_eq!(free_pages(&allocator), 159 + 4096 - 513);
    assert_eq!(allocator.is_page_free(PhysAddr(0x1000), 1), Ok(true));
    assert_eq!(allocator.is_page_free(PhysAddr(0x9f000), 1), Ok(true));
    assert_eq!(allocator.is_page_free(PhysAddr(0xa0000), 1), Ok(false));
    assert_eq!(allocator.is_page_free(PhysAddr(0x100000), 1), Ok(false));
    assert_eq!(allocator.is_page_free(PhysAddr(0x300000), 1), Ok(false));
    assert_eq!(allocator.is_page_free(PhysAddr(0x301000), 1), Ok(true));
    assert_eq!(allocator.is_page_free(PhysAddr(0x10ff000), 1), Ok(true));
}

#[test]
fn buddy_map_check_accepts_only_maps_the_allocator_can_use() {
    assert!(buddy_map_check(&mem_map()));
    // No counted entry
    assert!(!buddy_map_check(&[]));
    let reserved = vec![MemMapEntry { base: 0x1000, length: 0x1000, kind: MemoryKind::Reserved }];
    assert!(!buddy_map_check(&reserved));
    // Overlapping entries
    let mut map = mem_map();
    map[1].base = 0x9f000;
    assert!(!buddy_map_check(&map));
    // A usable entry that is not whole pages
    let mut map = mem_map();
    map[0].length = 0x9e800;
    assert!(!buddy_map_check(&map));
    // No entry holds the bookkeeping buffer
    let small = vec![MemMapEntry { base: 0x1000, length: 0x10000, kind: MemoryKind::Usable }];
    assert!(!buddy_map_check(&small));
}
