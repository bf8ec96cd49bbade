use funderberker::addr::{PhysAddr, VirtAddr};
use funderberker::buddy::BuddyAllocator;
use funderberker::pmm::PmmError;
use funderberker::vmm::{alloc_pages_any, alloc_pages_at, VmmError};

const HHDM: usize = 0xffff_8000_0000_0000;

fn pmm() -> BuddyAllocator {
    let mut pmm = BuddyAllocator::with_zone_count(33);
    pmm.break_into_buckets_n_free(PhysAddr(0x100_0000), 16);
    pmm
}

#[test]
fn alloc_pages_any_gives_the_block_and_its_direct_map_address() {
    let mut pmm = pmm();
    assert!(pmm.blocks_end_by((usize::MAX - HHDM) as u128 + 1));
    assert_eq!(
        alloc_pages_any(&mut pmm, 1, 1, HHDM),
        Ok((PhysAddr(0x100_0000), VirtAddr(0xffff_8000_0100_0000)))
    );
    assert_eq!(
        alloc_pages_any(&mut pmm, 4, 4, HHDM),
        Ok((PhysAddr(0x100_4000), VirtAddr(0xffff_8000_0100_4000)))
    );
    assert_eq!(
        alloc_pages_any(&mut pmm, 1, 0, HHDM),
        Err(VmmError::AllocationError(PmmError::EmptyAllocation))
    );
    assert_eq!(
        alloc_pages_any(&mut pmm, 1, 16, HHDM),
        Err(VmmError::AllocationError(PmmError::NoAvailableBlock))
    );
}

#[test]
fn alloc_pages_at_takes_the_block_behind_a_direct_map_address() {
    let mut pmm = pmm();
    let virt = VirtAddr(HHDM + 0x100_2000);
    assert_eq!(alloc_pages_at(&mut pmm, virt, 2, HHDM), Ok(PhysAddr(0x100_2000)));
    assert_eq!(
        alloc_pages_at(&mut pmm, virt, 2, HHDM),
        Err(VmmError::AllocationError(PmmError::NoAvailableBlock))
    );
    assert_eq!(
        alloc_pages_at(&mut pmm, VirtAddr(HHDM + 0x100_1000), 2, HHDM),
        Err(VmmError::AllocationError(PmmError::InvalidAlignment))
    );
    assert_eq!(pmm.is_page_free(PhysAddr(0x100_2000), 2), Ok(false));
    assert_eq!(pmm.is_page_free(PhysAddr(0x100_0000), 2), Ok(true));
}

#[test]
fn blocks_end_by_bounds_the_free_blocks() {
    let pmm = pmm();
    assert!(pmm.blocks_end_by(0x101_0000));
    assert!(!pmm.blocks_end_by(0x100_ffff));
}
