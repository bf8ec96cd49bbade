//! The virtual memory manager's decisions: blocks of pages from the physical
//! memory manager, at their addresses in the higher-half direct map (HHDM).
//! Mapping the pages in the page tables is the caller's.
use vstd::prelude::*;
use crate::addr::{PhysAddr, VirtAddr};
use crate::buddy::{
    allocate_at_result, allocate_request_ok, allocate_result, blocks_below, request_fits, zones_wf,
    BuddyAllocator,
};
use crate::levels::lemma_level_pages_pos;
use crate::paging::PagingError;
use crate::pmm::PmmError;

verus! {

/// An error of the virtual memory manager: the physical memory manager's,
/// or the paging layer's when it maps the pages.
#[derive(Debug, Clone, Copy, PartialEq, Eq, Structural)]
pub enum VmmError {
    /// The physical memory manager refused the allocation
    AllocationError(PmmError),
    /// The paging layer refused the mapping
    Paging(PagingError),
}

/// Tries to allocate a block of `page_count` pages, satisfying `alignment`
/// page alignment, from the physical memory manager `pmm`: returns the
/// block's physical address and its address in the direct map at
/// `hhdm_offset`, where the caller maps it. A refusal of the physical memory
/// manager comes back as an allocation error.
pub fn alloc_pages_any(
    pmm: &mut BuddyAllocator,
    alignment: usize,
    page_count: usize,
    hhdm_offset: usize,
) -> (r: Result<(PhysAddr, VirtAddr), VmmError>)
    requires
        zones_wf(old(pmm)@),
        allocate_request_ok(old(pmm)@, alignment as int, page_count as int),
        blocks_below(old(pmm)@, usize::MAX + 1 - hhdm_offset),
    ensures
        zones_wf(final(pmm)@),
        match r {
            Ok((p, v)) => allocate_result(
                old(pmm)@,
                alignment as int,
                page_count as int,
                Ok::<PhysAddr, PmmError>(p),
                final(pmm)@,
            ) && v.0 == p.0 + hhdm_offset,
            Err(VmmError::AllocationError(e)) => allocate_result(
                old(pmm)@,
                alignment as int,
                page_count as int,
                Err::<PhysAddr, PmmError>(e),
                final(pmm)@,
            ),
            Err(VmmError::Paging(_)) => false,
        },
{
    let ghost z = pmm@;
    match pmm.allocate(alignment, page_count) {
        Err(e) => Err(VmmError::AllocationError(e)),
        Ok(phys_addr) => {
            proof {
                let k = crate::buddy::order_of(page_count as int) as int;
                let (i, j) = choose|i: int, j: int|
                    #![trigger z[i][j]]
                    crate::buddy::picks_aligned(z, k, alignment * 4096, i, j) && phys_addr.0 == z[i][j]
                        && pmm@ == crate::buddy::split_block(z, i, j, phys_addr.0 as int, k);
                lemma_level_pages_pos(i as nat);
            }
            Ok((phys_addr, phys_addr.add_hhdm_offset(hhdm_offset)))
        },
    }
}

/// Tries to allocate the block of `page_count` pages at the direct-map
/// address `virt_addr`, for the direct map at `hhdm_offset`: returns the
/// block's physical address, where the caller maps `virt_addr`. A refusal
/// of the physical memory manager comes back as an allocation error.
pub fn alloc_pages_at(
    pmm: &mut BuddyAllocator,
    virt_addr: VirtAddr,
    page_count: usize,
    hhdm_offset: usize,
) -> (r: Result<PhysAddr, VmmError>)
    requires
        zones_wf(old(pmm)@),
        request_fits(page_count as int),
        virt_addr.0 >= hhdm_offset,
    ensures
        zones_wf(final(pmm)@),
        match r {
            Ok(p) => p.0 == virt_addr.0 - hhdm_offset && allocate_at_result(
                old(pmm)@,
                p.0 as int,
                page_count as int,
                Ok::<(), PmmError>(()),
                final(pmm)@,
            ),
            Err(VmmError::AllocationError(e)) => allocate_at_result(
                old(pmm)@,
                virt_addr.0 - hhdm_offset,
                page_count as int,
                Err::<(), PmmError>(e),
                final(pmm)@,
            ),
            Err(VmmError::Paging(_)) => false,
        },
{
    let phys_addr = virt_addr.subtract_hhdm_offset(hhdm_offset);
    match pmm.allocate_at(phys_addr, page_count) {
        Err(e) => Err(VmmError::AllocationError(e)),
        Ok(()) => Ok(phys_addr),
    }
}

} // verus!
