//! The bootloader's memory map, as the memory managers read it.
use vstd::prelude::*;
use crate::levels::BASIC_PAGE_SIZE;

verus! {

/// A type of entry within the memory map.
#[derive(Debug, Clone, Copy, PartialEq, Eq, Structural)]
pub enum MemoryKind {
    /// The memory region is freely usable.
    Usable,
    /// The memory region is permanently reserved.
    Reserved,
    /// The memory region is used by ACPI, and can be reclaimed once ACPI
    /// structures are no longer needed.
    AcpiReclaimable,
    /// The memory region is permanently reserved by ACPI.
    AcpiNvs,
    /// The memory region is unusable due to physical damage or similar errors.
    BadMemory,
    /// The memory region is used by the bootloader, and can be reclaimed once
    /// its responses are no longer used.
    BootloaderReclaimable,
    /// The memory region is used by the executable and modules.
    ExecutableAndModules,
    /// The memory region is used by the framebuffer.
    Framebuffer,
    /// A type the memory managers do not know.
    Other,
}

/// A memory map entry.
#[derive(Debug, Clone, Copy, PartialEq, Eq, Structural)]
pub struct MemMapEntry {
    /// The base of the memory region, in *physical space*.
    pub base: u64,
    /// The length of the memory region, in bytes.
    pub length: u64,
    /// The type of the memory region.
    pub kind: MemoryKind,
}

/// The entry describes memory that counts towards the addressable pages:
/// usable, reclaimable, or holding the executable.
pub open spec fn counted(e: MemMapEntry) -> bool {
    ||| e.kind == MemoryKind::Usable
    ||| e.kind == MemoryKind::BootloaderReclaimable
    ||| e.kind == MemoryKind::AcpiReclaimable
    ||| e.kind == MemoryKind::ExecutableAndModules
}

/// The index of the last counted entry among the first `n` entries, or -1.
#[verifier::opaque]
pub open spec fn last_counted(m: Seq<MemMapEntry>, n: int) -> int
    decreases n,
{
    if n <= 0 {
        -1
    } else if counted(m[n - 1]) {
        n - 1
    } else {
        last_counted(m, n - 1)
    }
}

/// The end of the entry's region, in bytes.
pub open spec fn entry_end(e: MemMapEntry) -> int {
    e.base + e.length
}

/// The maximum addressable page count of the memory map: the end of its
/// last counted entry, in whole pages.
pub open spec fn addressable_pages(m: Seq<MemMapEntry>) -> int {
    entry_end(m[last_counted(m, m.len() as int)]) / 4096
}

/// The memory map has a counted entry, and the end of the last one fits in
/// a `usize`.
pub open spec fn mem_map_ok(m: Seq<MemMapEntry>) -> bool {
    &&& last_counted(m, m.len() as int) >= 0
    &&& entry_end(m[last_counted(m, m.len() as int)]) <= usize::MAX
}

/// `last_counted` finds the last counted entry.
pub proof fn lemma_last_counted(m: Seq<MemMapEntry>, n: int)
    requires
        0 <= n <= m.len(),
    ensures
        -1 <= last_counted(m, n) < n,
        last_counted(m, n) >= 0 ==> counted(m[last_counted(m, n)]),
        forall|k: int| last_counted(m, n) < k < n ==> !counted(#[trigger] m[k]),
    decreases n,
{
    reveal(last_counted);
    if n > 0 && !counted(m[n - 1]) {
        lemma_last_counted(m, n - 1);
    }
}

/// The index of the first usable entry from `i` on of at least `need` bytes,
/// or the number of entries.
pub open spec fn first_usable_of(m: Seq<MemMapEntry>, need: int, i: int) -> int
    decreases m.len() - i,
{
    if i < 0 || i >= m.len() {
        m.len() as int
    } else if m[i].kind == MemoryKind::Usable && m[i].length >= need {
        i
    } else {
        first_usable_of(m, need, i + 1)
    }
}

/// `first_usable_of` finds the first usable entry of at least `need` bytes.
pub proof fn lemma_first_usable_of(m: Seq<MemMapEntry>, need: int, i: int)
    requires
        0 <= i <= m.len(),
    ensures
        i <= first_usable_of(m, need, i) <= m.len(),
        first_usable_of(m, need, i) < m.len() ==> m[first_usable_of(m, need, i)].kind
            == MemoryKind::Usable && m[first_usable_of(m, need, i)].length >= need,
        forall|k: int|
            i <= k < first_usable_of(m, need, i) ==> !(m[k].kind == MemoryKind::Usable && m[k].length
                >= need),
    decreases m.len() - i,
{
    if i < m.len() && !(m[i].kind == MemoryKind::Usable && m[i].length >= need) {
        lemma_first_usable_of(m, need, i + 1);
    }
}

/// The index of the first usable entry of at least `need` bytes.
pub fn find_usable(mem_map: &[MemMapEntry], need: u64) -> (r: usize)
    requires
        first_usable_of(mem_map@, need as int, 0) < mem_map@.len(),
    ensures
        r == first_usable_of(mem_map@, need as int, 0),
{
    let ghost m = mem_map@;
    let mut e: usize = 0;
    proof {
        lemma_first_usable_of(m, need as int, 0);
    }
    while !(is_usable(&mem_map[e]) && mem_map[e].length >= need)
        invariant
            m == mem_map@,
            e <= first_usable_of(m, need as int, 0),
            first_usable_of(m, need as int, 0) < m.len(),
            m[first_usable_of(m, need as int, 0)].kind == MemoryKind::Usable,
            m[first_usable_of(m, need as int, 0)].length >= need,
            forall|k: int|
                0 <= k < first_usable_of(m, need as int, 0) ==> !(m[k].kind == MemoryKind::Usable
                    && m[k].length >= need),
        decreases first_usable_of(m, need as int, 0) - e,
    {
        e = e + 1;
    }
    e
}

/// Get the maximum addressable page count from the memory map.
/// This is done by finding the last memory map entry that is usable and
/// calculating the page count
pub fn get_page_count_from_mem_map(mem_map: &[MemMapEntry]) -> (r: usize)
    requires
        mem_map_ok(mem_map@),
    ensures
        r == addressable_pages(mem_map@),
{
    let ghost m = mem_map@;
    proof {
        lemma_last_counted(m, m.len() as int);
    }
    let mut n = mem_map.len();
    while n > 0 && !is_counted(&mem_map[n - 1])
        invariant
            m == mem_map@,
            n <= m.len(),
            last_counted(m, n as int) == last_counted(m, m.len() as int),
            last_counted(m, m.len() as int) >= 0,
        decreases n,
    {
        proof {
            reveal(last_counted);
        }
        n = n - 1;
    }
    proof {
        reveal(last_counted);
    }
    let last_descr = &mem_map[n - 1];
    let end: u64 = last_descr.base + last_descr.length;
    (end as usize) / BASIC_PAGE_SIZE
}

/// Whether the memory map has a counted entry whose end fits in a `usize`.
pub fn mem_map_check(mem_map: &[MemMapEntry]) -> (r: bool)
    ensures
        r == mem_map_ok(mem_map@),
{
    let ghost m = mem_map@;
    proof {
        lemma_last_counted(m, m.len() as int);
    }
    let mut n = mem_map.len();
    while n > 0 && !is_counted(&mem_map[n - 1])
        invariant
            m == mem_map@,
            n <= m.len(),
            last_counted(m, n as int) == last_counted(m, m.len() as int),
        decreases n,
    {
        proof {
            reveal(last_counted);
        }
        n = n - 1;
    }
    proof {
        reveal(last_counted);
    }
    if n == 0 {
        return false;
    }
    let last_descr = &mem_map[n - 1];
    last_descr.base as u128 + last_descr.length as u128 <= usize::MAX as u128
}

/// The index of the last counted entry.
pub fn last_counted_index(mem_map: &[MemMapEntry]) -> (r: usize)
    requires
        mem_map_ok(mem_map@),
    ensures
        r == last_counted(mem_map@, mem_map@.len() as int),
{
    let ghost m = mem_map@;
    proof {
        lemma_last_counted(m, m.len() as int);
    }
    let mut n = mem_map.len();
    while n > 0 && !is_counted(&mem_map[n - 1])
        invariant
            m == mem_map@,
            n <= m.len(),
            last_counted(m, n as int) == last_counted(m, m.len() as int),
            last_counted(m, m.len() as int) >= 0,
        decreases n,
    {
        proof {
            reveal(last_counted);
        }
        n = n - 1;
    }
    proof {
        reveal(last_counted);
    }
    n - 1
}

/// The index of the first usable entry of at least `need` bytes, or `None`
/// when there is none.
pub fn find_usable_checked(mem_map: &[MemMapEntry], need: u64) -> (r: Option<usize>)
    ensures
        r is None <==> first_usable_of(mem_map@, need as int, 0) == mem_map@.len(),
        r matches Some(e) ==> e == first_usable_of(mem_map@, need as int, 0),
{
    let ghost m = mem_map@;
    proof {
        lemma_first_usable_of(m, need as int, 0);
    }
    let mut e: usize = 0;
    while e < mem_map.len()
        invariant
            m == mem_map@,
            e <= first_usable_of(m, need as int, 0),
            first_usable_of(m, need as int, 0) <= m.len(),
            first_usable_of(m, need as int, 0) < m.len() ==> m[first_usable_of(m, need as int, 0)].kind
                == MemoryKind::Usable && m[first_usable_of(m, need as int, 0)].length >= need,
            forall|k: int|
                0 <= k < first_usable_of(m, need as int, 0) ==> !(m[k].kind == MemoryKind::Usable
                    && m[k].length >= need),
        decreases m.len() - e,
    {
        if is_usable(&mem_map[e]) && mem_map[e].length >= need {
            return Some(e);
        }
        e = e + 1;
    }
    None
}

/// Whether the entry is usable memory.
pub fn is_usable(e: &MemMapEntry) -> (r: bool)
    ensures
        r == (e.kind == MemoryKind::Usable),
{
    match e.kind {
        MemoryKind::Usable => true,
        _ => false,
    }
}

/// Whether the entry counts towards the addressable pages.
pub fn is_counted(e: &MemMapEntry) -> (r: bool)
    ensures
        r == counted(*e),
{
    match e.kind {
        MemoryKind::Usable
        | MemoryKind::BootloaderReclaimable
        | MemoryKind::AcpiReclaimable
        | MemoryKind::ExecutableAndModules => true,
        _ => false,
    }
}

/// An entry of one of the kinds that hold memory the kernel may come to
/// use: usable, bootloader-reclaimable, ACPI-reclaimable, or the executable
/// and its modules.
pub open spec fn holds_kernel_memory(kind: MemoryKind) -> bool {
    ||| kind == MemoryKind::Usable
    ||| kind == MemoryKind::BootloaderReclaimable
    ||| kind == MemoryKind::AcpiReclaimable
    ||| kind == MemoryKind::ExecutableAndModules
}

/// The entries counted towards the addressable pages are exactly those that
/// hold memory the kernel may come to use; reserved, ACPI NVS, bad,
/// framebuffer and unknown memory is not counted. So the addressable pages
/// of a map end with its last such entry: where the map ends with one, they
/// are that entry's end in whole pages, and no entry after the last counted
/// one is of those kinds.
pub proof fn law_counted_entries(m: Seq<MemMapEntry>)
    ensures
        forall|e: MemMapEntry| #[trigger] counted(e) <==> holds_kernel_memory(e.kind),
        forall|k: int|
            last_counted(m, m.len() as int) < k < m.len() ==> !holds_kernel_memory(#[trigger] m[k].kind),
        last_counted(m, m.len() as int) >= 0 ==> holds_kernel_memory(m[last_counted(m, m.len() as int)].kind),
        m.len() > 0 && holds_kernel_memory(m[m.len() - 1].kind) ==> last_counted(m, m.len() as int)
            == m.len() - 1 && addressable_pages(m) == entry_end(m[m.len() - 1]) / 4096,
{
    lemma_last_counted(m, m.len() as int);
    if m.len() > 0 && holds_kernel_memory(m[m.len() - 1].kind) {
        reveal(last_counted);
    }
}

} // verus!
