//! Physical and virtual addresses.
use vstd::prelude::*;
use vstd::arithmetic::power2::pow2;
use vstd::bits::{lemma_usize_shr_is_div, lemma_usize_low_bits_mask_is_mod, low_bits_mask};

verus! {

/// A physical address
#[derive(Clone, Copy, Debug, PartialEq, Eq, Structural, PartialOrd, Ord)]
pub struct PhysAddr(pub usize);

/// A virtual address
#[derive(Clone, Copy, Debug, PartialEq, Eq, Structural, PartialOrd, Ord)]
pub struct VirtAddr(pub usize);

/// The number of bits a 4KB page offset takes.
pub const PAGE_OFFSET_BITS: usize = 12;

impl VirtAddr {
    /// Get the physical address of a virtual address **that is HHDM mapped**,
    /// for the higher-half direct map at `hhdm_offset`.
    pub fn subtract_hhdm_offset(self, hhdm_offset: usize) -> (r: PhysAddr)
        requires
            self.0 >= hhdm_offset,
        ensures
            r.0 == self.0 - hhdm_offset,
    {
        PhysAddr(self.0 - hhdm_offset)
    }

    /// The index into the page table of paging level `level` (0 for the
    /// page table, up to 4 for the fifth level) that translates this address:
    /// its 9 bits above the page offset and the lower levels' bits.
    pub fn next_level_index(self, level: usize) -> (r: usize)
        requires
            level < 5,
            PAGE_OFFSET_BITS + level * 9 < usize::BITS,
        ensures
            r == (self.0 as nat / pow2((PAGE_OFFSET_BITS + level * 9) as nat)) % 512,
            r < 512,
    {
        let shift: usize = PAGE_OFFSET_BITS + level * 9;
        let shifted = self.0 >> shift;
        let r = shifted & 0b1_1111_1111;
        proof {
            lemma_usize_shr_is_div(self.0, shift);
            lemma_usize_low_bits_mask_is_mod(shifted, 9);
            vstd::arithmetic::power2::lemma2_to64();
            assert(low_bits_mask(9) == 511);
        }
        r
    }
}

impl PhysAddr {
    /// Get the virtual address of a physical address. A Virtual address
    /// **that is HHDM mapped**, for the higher-half direct map at
    /// `hhdm_offset`.
    pub fn add_hhdm_offset(self, hhdm_offset: usize) -> (r: VirtAddr)
        requires
            self.0 + hhdm_offset <= usize::MAX,
        ensures
            r.0 == self.0 + hhdm_offset,
    {
        VirtAddr(self.0 + hhdm_offset)
    }
}

} // verus!
