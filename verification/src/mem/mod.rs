//! Physical memory bookkeeping: the firmware memory map, early
//! allocation from it, and page frame numbers.
pub mod page_alloc;
pub mod slab;
pub mod fmt;
pub mod layout;
pub mod page;

use vstd::prelude::*;
use crate::mem::page::Page;
use crate::mem::layout::{Layout, round_up, checked_next_multiple_of, lemma_round_up};

verus! {

/// Base of the linear mapping of physical memory.
pub const VADDR: u64 = 0xffff800000000000;

/// The kind of a region of physical memory.
#[derive(Clone, Copy, Debug, PartialEq, Eq, Structural)]
pub enum MemoryType {
    Free,
    Reserved,
    AcpiReclaimable,
    AcpiNvs,
    Reclaimable,
    Kernel,
    BadMemory,
    Framebuffer,
}

/// Name of a memory type, as the memory map is printed.
pub open spec fn memory_type_name(t: MemoryType) -> Seq<char> {
    match t {
        MemoryType::Free => "free"@,
        MemoryType::Reserved => "reserved"@,
        MemoryType::AcpiReclaimable => "acpi reclaimable"@,
        MemoryType::AcpiNvs => "acpi nvs"@,
        MemoryType::Reclaimable => "reclaimable"@,
        MemoryType::Kernel => "kernel"@,
        MemoryType::BadMemory => "bad memory"@,
        MemoryType::Framebuffer => "framebuffer"@,
    }
}

impl MemoryType {
    /// Name of the memory type, as the memory map is printed.
    pub fn name(&self) -> (r: &'static str)
        ensures
            r@ == memory_type_name(*self),
    {
        match self {
            MemoryType::Free => "free",
            MemoryType::Reserved => "reserved",
            MemoryType::AcpiReclaimable => "acpi reclaimable",
            MemoryType::AcpiNvs => "acpi nvs",
            MemoryType::Reclaimable => "reclaimable",
            MemoryType::Kernel => "kernel",
            MemoryType::BadMemory => "bad memory",
            MemoryType::Framebuffer => "framebuffer",
        }
    }
}


/// A region of physical memory, and how much of it early allocation has
/// taken from its start.
#[derive(Clone, Copy, Debug)]
pub struct MemoryRegion {
    addr: usize,
    allocated: usize,
    len: usize,
    memory_type: MemoryType,
}

impl MemoryRegion {
    #[verifier::type_invariant]
    spec fn within(&self) -> bool {
        self.allocated <= self.len
    }

    /// Physical start address.
    pub closed spec fn addr_spec(&self) -> usize {
        self.addr
    }

    /// Length in bytes.
    pub closed spec fn len_spec(&self) -> usize {
        self.len
    }

    /// Bytes taken from the start by early allocation.
    pub closed spec fn allocated_spec(&self) -> usize {
        self.allocated
    }

    /// Kind of memory.
    pub closed spec fn type_spec(&self) -> MemoryType {
        self.memory_type
    }

    /// Two regions with the same start, length, kind and part taken are
    /// the same region.
    pub proof fn lemma_same_fields(a: MemoryRegion, b: MemoryRegion)
        requires
            a.addr_spec() == b.addr_spec(),
            a.len_spec() == b.len_spec(),
            a.type_spec() == b.type_spec(),
            a.allocated_spec() == b.allocated_spec(),
        ensures
            a == b,
    {
    }

    /// A region of which nothing is allocated.
    pub fn new(addr: usize, len: usize, memory_type: MemoryType) -> (r: Self)
        ensures
            r.addr_spec() == addr,
            r.len_spec() == len,
            r.type_spec() == memory_type,
            r.allocated_spec() == 0,
    {
        MemoryRegion { addr, allocated: 0, len, memory_type }
    }

    /// Physical start address.
    pub fn addr(&self) -> (r: usize)
        ensures
            r == self.addr_spec(),
    {
        self.addr
    }

    /// Length in bytes.
    pub fn len(&self) -> (r: usize)
        ensures
            r == self.len_spec(),
    {
        self.len
    }

    /// Kind of memory.
    pub fn memory_type(&self) -> (r: MemoryType)
        ensures
            r == self.type_spec(),
    {
        self.memory_type
    }
}

/// Memory that becomes free for the kernel: free, bootloader-reclaimable
/// or ACPI-reclaimable.
pub open spec fn is_usable(t: MemoryType) -> bool {
    t == MemoryType::Free || t == MemoryType::Reclaimable || t == MemoryType::AcpiReclaimable
}

/// The highest address of usable memory among `rs` (0 when there is none).
pub open spec fn max_free_addr(rs: Seq<MemoryRegion>) -> int
    decreases rs.len(),
{
    if rs.len() == 0 {
        0
    } else {
        let m = max_free_addr(rs.drop_last());
        let r = rs.last();
        if r.len_spec() > 0 && is_usable(r.type_spec()) && r.addr_spec() + r.len_spec() - 1 > m {
            r.addr_spec() + r.len_spec() - 1
        } else {
            m
        }
    }
}

/// The bytes of usable memory among `rs`.
pub open spec fn free_bytes(rs: Seq<MemoryRegion>) -> int
    decreases rs.len(),
{
    if rs.len() == 0 {
        0
    } else {
        let r = rs.last();
        free_bytes(rs.drop_last()) + if r.len_spec() > 0 && is_usable(r.type_spec()) {
            r.len_spec() as int
        } else {
            0
        }
    }
}

/// Memory the kernel may not use: reserved, ACPI non-volatile, the
/// kernel's own, bad, or the framebuffer.
pub open spec fn never_usable(t: MemoryType) -> bool {
    t == MemoryType::Reserved || t == MemoryType::AcpiNvs || t == MemoryType::Kernel || t == MemoryType::BadMemory
        || t == MemoryType::Framebuffer
}

/// What one more region adds to the sums of a memory map: a region of
/// memory the kernel may not use adds nothing, to the usable bytes or to
/// the highest usable address; a free, bootloader-reclaimable or
/// ACPI-reclaimable region adds its bytes, and its last address when that
/// is higher.
pub proof fn law_region_adds_to_sums(rs: Seq<MemoryRegion>, r: MemoryRegion)
    ensures
        never_usable(r.type_spec()) ==> free_bytes(rs.push(r)) == free_bytes(rs) && max_free_addr(rs.push(r))
            == max_free_addr(rs),
        (r.type_spec() == MemoryType::Free || r.type_spec() == MemoryType::Reclaimable || r.type_spec()
            == MemoryType::AcpiReclaimable) ==> free_bytes(rs.push(r)) == free_bytes(rs) + r.len_spec()
            && max_free_addr(rs.push(r)) == (if r.len_spec() > 0 && r.addr_spec() + r.len_spec() - 1 > max_free_addr(
            rs,
        ) {
            r.addr_spec() + r.len_spec() - 1
        } else {
            max_free_addr(rs)
        }),
{
    assert(rs.push(r).drop_last() =~= rs);
    assert(rs.push(r).last() == r);
}

/// A memory map made only of memory the kernel may not use has no usable
/// bytes and no usable address.
pub proof fn law_unusable_map_is_empty(rs: Seq<MemoryRegion>)
    requires
        forall|i: int| 0 <= i < rs.len() ==> never_usable(#[trigger] rs[i].type_spec()),
    ensures
        free_bytes(rs) == 0,
        max_free_addr(rs) == 0,
    decreases rs.len(),
{
    if rs.len() > 0 {
        let init = rs.drop_last();
        assert forall|i: int| 0 <= i < init.len() implies never_usable(#[trigger] init[i].type_spec()) by {
            assert(init[i] == rs[i]);
        }
        law_unusable_map_is_empty(init);
        assert(never_usable(rs[rs.len() - 1].type_spec()));
    }
}

/// The regions describe memory within the address space and their sizes
/// add up within a word: what summing them up needs.
pub open spec fn summable(rs: Seq<MemoryRegion>) -> bool {
    &&& forall|i: int|
        0 <= i < rs.len() && rs[i].len_spec() > 0 && is_usable(rs[i].type_spec()) ==> #[trigger] rs[i].addr_spec()
            + rs[i].len_spec() <= usize::MAX
    &&& forall|k: int| 0 <= k <= rs.len() ==> #[trigger] free_bytes(rs.subrange(0, k)) <= usize::MAX
}

/// Most regions a memory map holds.
pub const MAX_REGIONS: usize = 256;

/// The memory map reported by the firmware.
pub struct MemoryMap {
    regions: Vec<MemoryRegion>,
}

impl View for MemoryMap {
    type V = Seq<MemoryRegion>;

    /// The regions, in the order reported.
    closed spec fn view(&self) -> Seq<MemoryRegion> {
        self.regions@
    }
}

impl MemoryMap {
    /// A map of no region.
    pub fn new() -> (r: Self)
        ensures
            r@ == Seq::<MemoryRegion>::empty(),
    {
        MemoryMap { regions: Vec::new() }
    }

    /// Number of regions.
    pub fn count(&self) -> (r: usize)
        ensures
            r == self@.len(),
    {
        self.regions.len()
    }

    /// Appends a region. The map holds at most `MAX_REGIONS`.
    pub fn push(&mut self, region: MemoryRegion)
        requires
            old(self)@.len() < MAX_REGIONS,
        ensures
            final(self)@ == old(self)@.push(region),
    {
        self.regions.push(region);
    }
}

/// Records the regions the firmware reported, in order, and sums them up:
/// the highest usable address and the number of usable bytes.
pub fn build_mmap(entries: &[MemoryRegion]) -> (r: (MemoryMap, usize, usize))
    requires
        entries@.len() <= MAX_REGIONS,
        summable(entries@),
    ensures
        r.0@ == entries@,
        r.1 == max_free_addr(entries@),
        r.2 == free_bytes(entries@),
{
    let mut mmap = MemoryMap::new();
    let mut max_addr: usize = 0;
    let mut bytes: usize = 0;
    let mut i: usize = 0;
    while i < entries.len()
        invariant
            0 <= i <= entries@.len() <= MAX_REGIONS,
            summable(entries@),
            mmap@ == entries@.subrange(0, i as int),
            max_addr == max_free_addr(entries@.subrange(0, i as int)),
            bytes == free_bytes(entries@.subrange(0, i as int)),
        decreases entries@.len() - i,
    {
        let entry = entries[i];
        mmap.push(entry);
        let ghost prefix = entries@.subrange(0, i as int);
        let ghost next = entries@.subrange(0, i + 1);
        assert(next.drop_last() =~= prefix);
        assert(next.last() == entry);
        assert(free_bytes(next) <= usize::MAX);
        if entry.len() != 0 {
            if entry.memory_type == MemoryType::Free || entry.memory_type == MemoryType::Reclaimable
                || entry.memory_type == MemoryType::AcpiReclaimable {
                assert(entries@[i as int].addr_spec() + entries@[i as int].len_spec() <= usize::MAX);
                let end_addr = entry.addr + entry.len - 1;
                if end_addr > max_addr {
                    max_addr = end_addr;
                }
                bytes = bytes + entry.len();
            }
        }
        i = i + 1;
        assert(mmap@ =~= entries@.subrange(0, i as int));
    }
    assert(entries@.subrange(0, entries@.len() as int) =~= entries@);
    (mmap, max_addr, bytes)
}


/// Where early allocation of `size` bytes aligned to `align` would start
/// in region `r`: free memory, past what was taken, with room for the
/// padding and the block, at an address the linear mapping reaches.
pub open spec fn fit(r: MemoryRegion, size: int, align: int) -> Option<int> {
    if r.type_spec() != MemoryType::Free {
        None
    } else {
        let start = r.addr_spec() + r.allocated_spec();
        if start > usize::MAX {
            None
        } else {
            let aligned = round_up(start, align);
            let pad = aligned - start;
            let len = r.len_spec() - r.allocated_spec();
            if pad >= len || size > len - pad {
                None
            } else if aligned + VADDR > usize::MAX {
                None
            } else {
                Some(aligned)
            }
        }
    }
}

/// The first region from index `j` on where the block fits.
pub open spec fn first_fit(rs: Seq<MemoryRegion>, size: int, align: int, j: int) -> Option<int>
    decreases rs.len() - j,
{
    if j < 0 || j >= rs.len() {
        None
    } else if fit(rs[j], size, align) is Some {
        Some(j)
    } else {
        first_fit(rs, size, align, j + 1)
    }
}

/// Rounding the free start of every free region up to `align` stays
/// within a word.
pub open spec fn rounding_fits(rs: Seq<MemoryRegion>, align: int) -> bool {
    rounding_fits_before(rs, align, rs.len() as int)
}

/// Rounding the free start of each free region before index `n` up to
/// `align` stays within a word.
pub open spec fn rounding_fits_before(rs: Seq<MemoryRegion>, align: int, n: int) -> bool {
    forall|i: int|
        0 <= i < n && i < rs.len() && rs[i].type_spec() == MemoryType::Free && rs[i].addr_spec()
            + rs[i].allocated_spec() <= usize::MAX ==> round_up(
            #[trigger] rs[i].addr_spec() + rs[i].allocated_spec(),
            align,
        ) <= usize::MAX
}

/// How many regions early allocation looks at: those up to and including
/// the first with room for the block, or all of them.
pub open spec fn searched(rs: Seq<MemoryRegion>, size: int, align: int) -> int {
    match first_fit(rs, size, align, 0) {
        Some(i) => i + 1,
        None => rs.len() as int,
    }
}

/// The region `first_fit` finds is at or past where the search starts.
proof fn lemma_first_fit_from(rs: Seq<MemoryRegion>, size: int, align: int, j: int)
    ensures
        first_fit(rs, size, align, j) matches Some(k) ==> j <= k < rs.len(),
    decreases rs.len() - j,
{
    if !(j < 0 || j >= rs.len()) && fit(rs[j], size, align) is None {
        lemma_first_fit_from(rs, size, align, j + 1);
    }
}

impl MemoryMap {
    /// Whether rounding the free start of every free region up to `align`
    /// stays within a word.
    pub fn rounding_fits_all(&self, align: usize) -> (r: bool)
        requires
            align > 0,
        ensures
            r == rounding_fits(self@, align as int),
    {
        let count = self.regions.len();
        let mut i: usize = 0;
        while i < count
            invariant
                count == self@.len(),
                0 <= i <= count,
                align > 0,
                rounding_fits_before(self@, align as int, i as int),
            decreases count - i,
        {
            let region = self.regions[i];
            proof {
                lemma_round_up((region.addr + region.allocated) as int, align as int);
            }
            if region.memory_type == MemoryType::Free {
                if let Some(start) = region.addr.checked_add(region.allocated) {
                    if checked_next_multiple_of(start, align).is_none() {
                        proof {
                            let k = i as int;
                            assert(self@[k] == region);
                            assert(round_up(self@[k].addr_spec() + self@[k].allocated_spec(), align as int) > usize::MAX);
                        }
                        return false;
                    }
                }
            }
            i = i + 1;
        }
        true
    }

    /// Whether rounding the free start of each free region that
    /// `allocate_early(layout)` looks at up to the alignment stays within a
    /// word, as that call asks.
    pub fn early_rounding_fits(&self, layout: Layout) -> (r: bool)
        ensures
            r == rounding_fits_before(
                self@,
                layout.align_spec() as int,
                searched(self@, layout.size_spec() as int, layout.align_spec() as int),
            ),
    {
        let size = layout.size();
        let align = layout.align();
        let count = self.regions.len();
        let mut i: usize = 0;
        while i < count
            invariant
                count == self@.len(),
                0 <= i <= count,
                align > 0,
                size == layout.size_spec(),
                align == layout.align_spec(),
                rounding_fits_before(self@, align as int, i as int),
                first_fit(self@, size as int, align as int, 0) == first_fit(self@, size as int, align as int, i as int),
            decreases count - i,
        {
            let region = self.regions[i];
            proof {
                use_type_invariant(&region);
                lemma_first_fit_from(self@, size as int, align as int, i as int);
                lemma_round_up((region.addr + region.allocated) as int, align as int);
            }
            if region.memory_type == MemoryType::Free {
                if let Some(start) = region.addr.checked_add(region.allocated) {
                    match checked_next_multiple_of(start, align) {
                        None => {
                            return false;
                        },
                        Some(aligned_start) => {
                            let pad = aligned_start - start;
                            let len = region.len - region.allocated;
                            if !(pad >= len || size > len - pad) {
                                if let Some(vaddr) = (aligned_start as u64).checked_add(VADDR) {
                                    if vaddr <= usize::MAX as u64 {
                                        return true;
                                    }
                                }
                            }
                        },
                    }
                }
            }
            i = i + 1;
        }
        true
    }

    /// Takes a block of `layout` from the first free region with room for
    /// it, past what earlier calls took, and returns its address in the
    /// linear mapping; `None` when no region has room. Rounding the free
    /// start of each free region looked at up to the alignment must stay
    /// within a word.
    pub fn allocate_early(&mut self, layout: Layout) -> (r: Option<usize>)
        requires
            rounding_fits_before(
                old(self)@,
                layout.align_spec() as int,
                searched(old(self)@, layout.size_spec() as int, layout.align_spec() as int),
            ),
        ensures
            match first_fit(old(self)@, layout.size_spec() as int, layout.align_spec() as int, 0) {
                None => r is None && final(self)@ == old(self)@,
                Some(i) => {
                    let a = fit(old(self)@[i], layout.size_spec() as int, layout.align_spec() as int)->0;
                    &&& r == Some((a + VADDR) as usize)
                    &&& final(self)@.len() == old(self)@.len()
                    &&& forall|j: int| 0 <= j < old(self)@.len() && j != i ==> final(self)@[j] == old(self)@[j]
                    &&& final(self)@[i].addr_spec() == old(self)@[i].addr_spec()
                    &&& final(self)@[i].len_spec() == old(self)@[i].len_spec()
                    &&& final(self)@[i].type_spec() == old(self)@[i].type_spec()
                    &&& final(self)@[i].allocated_spec() == a + layout.size_spec() - old(self)@[i].addr_spec()
                },
            },
    {
        let size = layout.size();
        let align = layout.align();
        let count = self.regions.len();
        let mut i: usize = 0;
        while i < count
            invariant
                self.regions@ == old(self).regions@,
                count == self.regions@.len(),
                0 <= i <= count,
                align > 0,
                size == layout.size_spec(),
                align == layout.align_spec(),
                rounding_fits_before(self@, align as int, searched(self@, size as int, align as int)),
                first_fit(self@, size as int, align as int, 0) == first_fit(self@, size as int, align as int, i as int),
            decreases count - i,
        {
            let mut region = self.regions[i];
            proof {
                use_type_invariant(&region);
                lemma_first_fit_from(self@, size as int, align as int, i as int);
            }
            if region.memory_type != MemoryType::Free {
                i = i + 1;
                continue;
            }
            let start = match region.addr.checked_add(region.allocated) {
                Some(start) => start,
                None => {
                    i = i + 1;
                    continue;
                },
            };
            proof {
                lemma_round_up(start as int, align as int);
            }
            let aligned_start = match checked_next_multiple_of(start, align) {
                Some(a) => a,
                None => {
                    i = i + 1;
                    continue;
                },
            };
            let pad = aligned_start - start;
            let len = region.len - region.allocated;
            if pad >= len || size > len - pad {
                i = i + 1;
                continue;
            }
            let vaddr = match (aligned_start as u64).checked_add(VADDR) {
                Some(v) => v,
                None => {
                    i = i + 1;
                    continue;
                },
            };
            if vaddr > usize::MAX as u64 {
                i = i + 1;
                continue;
            }
            region.allocated = region.allocated + pad + size;
            self.regions.set(i, region);
            return Some(vaddr as usize);
        }
        None
    }
}


/// The page frame number of the page holding address `addr`.
pub fn get_pfn(addr: usize) -> (r: usize)
    ensures
        r == addr / 4096,
{
    assert(addr >> 12usize == addr / 4096) by (bit_vector);
    addr >> page::LOG2_SIZE
}

/// Metadata of every page frame, indexed by frame number.
pub struct PageTable {
    pages: Vec<Page>,
}

impl View for PageTable {
    type V = Seq<Page>;

    /// The pages' metadata, by frame number.
    closed spec fn view(&self) -> Seq<Page> {
        self.pages@
    }
}

impl PageTable {
    /// Metadata for the frames up to the one holding `max_free_addr`, each
    /// page untouched.
    pub fn for_max_addr(max_free_addr: usize) -> (r: Self)
        ensures
            r@.len() == max_free_addr / 4096 + 1,
            forall|i: int| 0 <= i < r@.len() ==> #[trigger] r@[i] == Page::new_spec(),
    {
        let pfns: usize = max_free_addr / page::SIZE + 1;
        let mut pages: Vec<Page> = Vec::new();
        while pages.len() < pfns
            invariant
                pages@.len() <= pfns,
                forall|i: int| 0 <= i < pages@.len() ==> #[trigger] pages@[i] == Page::new_spec(),
            decreases pfns - pages@.len(),
        {
            pages.push(Page::new());
        }
        PageTable { pages }
    }

    /// Number of frames.
    pub fn len(&self) -> (r: usize)
        ensures
            r == self@.len(),
    {
        self.pages.len()
    }

    /// The metadata of frame `pfn`, to change it.
    pub fn page_mut(&mut self, pfn: usize) -> (r: &mut Page)
        requires
            pfn < old(self)@.len(),
        ensures
            *r == old(self)@[pfn as int],
            final(self)@ == old(self)@.update(pfn as int, *final(r)),
    {
        &mut self.pages[pfn]
    }
}

/// The metadata of frame `pfn`; `None` past the last frame.
pub fn try_get_page(table: &PageTable, pfn: usize) -> (r: Option<&Page>)
    ensures
        pfn < table@.len() ==> r == Some(&table@[pfn as int]),
        pfn >= table@.len() ==> r is None,
{
    if pfn < table.pages.len() {
        Some(&table.pages[pfn])
    } else {
        None
    }
}

/// The metadata of frame `pfn`, which must exist.
pub fn get_page(table: &PageTable, pfn: usize) -> (r: &Page)
    requires
        pfn < table@.len(),
    ensures
        *r == table@[pfn as int],
{
    match try_get_page(table, pfn) {
        Some(p) => p,
        None => {
            assert(false);
            &table.pages[0]
        },
    }
}

/// A block that early allocation takes from a region ends before any
/// block a later call takes from it begins: `after` is the region as the
/// first call left it, past its block at `a` of `size` bytes.
pub proof fn law_early_blocks_disjoint(
    before: MemoryRegion,
    after: MemoryRegion,
    size: int,
    align: int,
    size2: int,
    align2: int,
)
    requires
        0 < align,
        0 < align2,
        fit(before, size, align) is Some,
        after.addr_spec() == before.addr_spec(),
        after.len_spec() == before.len_spec(),
        after.type_spec() == before.type_spec(),
        after.allocated_spec() == fit(before, size, align)->0 + size - before.addr_spec(),
    ensures
        fit(after, size2, align2) matches Some(b) ==> b >= fit(before, size, align)->0 + size,
{
    let start = after.addr_spec() + after.allocated_spec();
    if start <= usize::MAX {
        lemma_round_up(start, align2);
    }
}

/// A block early allocation takes from a region is aligned, starts past
/// what earlier calls took, and ends within the region.
pub proof fn law_early_block_in_region(r: MemoryRegion, size: int, align: int)
    requires
        0 < align,
        0 <= size,
        fit(r, size, align) is Some,
    ensures
        fit(r, size, align)->0 % align == 0,
        r.addr_spec() + r.allocated_spec() <= fit(r, size, align)->0,
        fit(r, size, align)->0 + size <= r.addr_spec() + r.len_spec(),
{
    lemma_round_up(r.addr_spec() + r.allocated_spec(), align);
}

} // verus!
