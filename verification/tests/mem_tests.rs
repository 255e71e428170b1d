use void_kernel::mem::fmt::{Memory, Unit};
use void_kernel::mem::layout::{checked_next_multiple_of, Layout, LayoutError};
use void_kernel::mem::page::{Flags, Page, Type, LOG2_SIZE, SIZE};
use void_kernel::mem::page_alloc::Alloc;
use void_kernel::mem::{build_mmap, get_page, get_pfn, try_get_page, MemoryMap, MemoryRegion, MemoryType, PageTable, MAX_REGIONS, VADDR};

fn region(addr: usize, len: usize, t: MemoryType) -> MemoryRegion {
    MemoryRegion::new(addr, len, t)
}

#[test]
fn layout_accepts_powers_of_two() {
    let l = Layout::from_size_align(24, 8).unwrap();
    assert_eq!(l.size(), 24);
    assert_eq!(l.align(), 8);
    assert_eq!(Layout::from_size_align(24, 6), Err(LayoutError));
    assert_eq!(Layout::from_size_align(24, 0), Err(LayoutError));
    assert_eq!(Layout::from_size_align(isize::MAX as usize, 2), Err(LayoutError));
    assert!(Layout::from_size_align(isize::MAX as usize, 1).is_ok());
}

#[test]
fn next_multiple_rounds_up() {
    assert_eq!(checked_next_multiple_of(0, 8), Some(0));
    assert_eq!(checked_next_multiple_of(13, 8), Some(16));
    assert_eq!(checked_next_multiple_of(16, 8), Some(16));
    assert_eq!(checked_next_multiple_of(usize::MAX, 2), None);
}

#[test]
fn memory_amounts_scale() {
    assert_eq!(Memory::new(1023).scaled(), (1023, Unit::B));
    assert_eq!(Memory::new(1024).scaled(), (1, Unit::KiB));
    assert_eq!(Memory::new(5 * 1024 * 1024 + 7).scaled(), (5, Unit::MiB));
    assert_eq!(Memory::new(3 * 1024 * 1024 * 1024).scaled(), (3, Unit::GiB));
    assert_eq!(Unit::KiB.name(), "KiB");
    assert_eq!(Unit::GiB.name(), "GiB");
}

#[test]
fn memory_type_names() {
    assert_eq!(MemoryType::Free.name(), "free");
    assert_eq!(MemoryType::AcpiReclaimable.name(), "acpi reclaimable");
    assert_eq!(MemoryType::BadMemory.name(), "bad memory");
}

#[test]
fn mmap_sums_usable_memory() {
    let entries = vec![
        region(0, 0x9f000, MemoryType::Free),
        region(0x9f000, 0x1000, MemoryType::Reserved),
        region(0x100000, 0x100000, MemoryType::Reclaimable),
        region(0x200000, 0, MemoryType::Free),
        region(0x300000, 0x1000, MemoryType::AcpiReclaimable),
        region(0x400000, 0x1000, MemoryType::Kernel),
    ];
    let (mmap, max_addr, bytes) = build_mmap(&entries);
    assert_eq!(mmap.count(), 6);
    assert_eq!(max_addr, 0x300fff);
    assert_eq!(bytes, 0x9f000 + 0x100000 + 0x1000);
    assert_eq!(MAX_REGIONS, 256);
}

#[test]
fn empty_mmap_has_nothing_usable() {
    let (mmap, max_addr, bytes) = build_mmap(&[]);
    assert_eq!(mmap.count(), 0);
    assert_eq!(max_addr, 0);
    assert_eq!(bytes, 0);
}

#[test]
fn early_allocation_takes_from_free_regions() {
    let mut mmap = MemoryMap::new();
    mmap.push(region(0x1000, 0x100, MemoryType::Reserved));
    mmap.push(region(0x2001, 0x40, MemoryType::Free));
    mmap.push(region(0x8000, 0x2000, MemoryType::Free));
    let l = Layout::from_size_align(0x30, 0x10).unwrap();
    // 0x2001 rounds up to 0x2010; 0x30 bytes fit before 0x2041.
    assert_eq!(mmap.allocate_early(l), Some(0x2010 + VADDR as usize));
    // The first free region is now full up to 0x2040.
    assert_eq!(mmap.allocate_early(l), Some(0x8000 + VADDR as usize));
    assert_eq!(mmap.allocate_early(l), Some(0x8030 + VADDR as usize));
    let big = Layout::from_size_align(0x4000, 0x1000).unwrap();
    assert_eq!(mmap.allocate_early(big), None);
}

#[test]
fn pfn_of_an_address() {
    assert_eq!(SIZE, 4096);
    assert_eq!(LOG2_SIZE, 12);
    assert_eq!(get_pfn(0), 0);
    assert_eq!(get_pfn(4095), 0);
    assert_eq!(get_pfn(4096), 1);
    assert_eq!(get_pfn(0x12345678), 0x12345);
}

#[test]
fn page_table_covers_the_highest_address() {
    let table = PageTable::for_max_addr(3 * 4096 + 5);
    assert_eq!(table.len(), 4);
    assert!(try_get_page(&table, 3).is_some());
    assert!(try_get_page(&table, 4).is_none());
    let p = get_page(&table, 2);
    assert_eq!(p.flags().page_type(), Type::Frame);
    assert_eq!(p.pointer(), None);
}

#[test]
fn page_type_keeps_other_flags() {
    let mut f = Flags::new(0b1010_0100);
    assert_eq!(f.page_type(), Type::Frame);
    f.set_page_type(Type::Slab);
    assert_eq!(f.page_type(), Type::Slab);
    f.set_page_type(Type::Frame);
    assert_eq!(f.page_type(), Type::Frame);
    assert_eq!(Flags::new(0b1010_0111).page_type(), Type::Slab);
}

#[test]
fn setting_the_type_keeps_bit_one() {
    let mut f = Flags::new(0b10);
    f.set_page_type(Type::Slab);
    assert_eq!(f.page_type(), Type::Slab);
    assert_eq!(f.flags(), 0b11);
    f.set_page_type(Type::Frame);
    assert_eq!(f.page_type(), Type::Frame);
    assert_eq!(f.flags(), 0b10);
    let mut g = Flags::new(0b1111_1110);
    g.set_page_type(Type::Slab);
    assert_eq!(g.flags(), 0xff);
    g.set_page_type(Type::Frame);
    assert_eq!(g.flags(), 0b1111_1110);
}

#[test]
fn a_new_page_is_not_free() {
    let mut p = Page::new();
    assert!(!p.is_free());
    p.set_free(true);
    assert!(p.is_free());
    assert_eq!(p.flags().page_type(), Type::Frame);
    p.set_free(false);
    assert!(!p.is_free());
}

#[test]
fn page_pointer_is_kept() {
    let mut p = Page::new();
    assert_eq!(p.pointer(), None);
    p.set_pointer(Some(9));
    assert_eq!(p.pointer(), Some(9));
    p.flags_mut().set_page_type(Type::Slab);
    assert_eq!(p.pointer(), Some(9));
    assert_eq!(p.flags().page_type(), Type::Slab);
}

#[test]
fn freed_frames_are_handed_out_last_in_first_out() {
    let mut table = PageTable::for_max_addr(8 * 4096);
    let mut alloc = Alloc::new();
    assert_eq!(alloc.pages(), 0);
    assert_eq!(alloc.alloc_page(&mut table), None);
    alloc.free_page(&mut table, 3);
    alloc.free_page(&mut table, 5);
    assert_eq!(alloc.pages(), 2);
    assert!(try_get_page(&table, 5).unwrap().is_free());
    assert_eq!(try_get_page(&table, 5).unwrap().pointer(), Some(3));
    assert_eq!(alloc.alloc_page(&mut table), Some(5));
    assert!(!try_get_page(&table, 5).unwrap().is_free());
    assert_eq!(try_get_page(&table, 5).unwrap().flags().page_type(), Type::Frame);
    assert_eq!(alloc.pages(), 1);
    alloc.free_page(&mut table, 5);
    assert_eq!(alloc.alloc_page(&mut table), Some(5));
    assert_eq!(alloc.alloc_page(&mut table), Some(3));
    assert_eq!(alloc.alloc_page(&mut table), None);
    assert_eq!(alloc.pages(), 0);
}

#[test]
fn init_hands_every_free_page_to_the_allocator() {
    let mut mmap = MemoryMap::new();
    mmap.push(region(0x1000, 0x3000, MemoryType::Free));
    mmap.push(region(0x4000, 0x1000, MemoryType::Reserved));
    mmap.push(region(0x10800, 0x2000, MemoryType::Free));
    let mut table = PageTable::for_max_addr(0x127ff);
    assert_eq!(table.len(), 0x13);
    let mut alloc = Alloc::new();
    alloc.init(&mut mmap, &mut table);
    assert_eq!(alloc.pages(), 4);
    for pfn in [1usize, 2, 3, 0x11] {
        assert!(get_page(&table, pfn).is_free());
    }
    assert!(!get_page(&table, 4).is_free());
    assert!(!get_page(&table, 0x10).is_free());
    // The last page freed is handed out first.
    assert_eq!(alloc.alloc_page(&mut table), Some(0x11));
    assert_eq!(alloc.alloc_page(&mut table), Some(3));
    assert_eq!(alloc.alloc_page(&mut table), Some(2));
    assert_eq!(alloc.alloc_page(&mut table), Some(1));
    assert_eq!(alloc.alloc_page(&mut table), None);
    // Early allocation has nothing left to give.
    let page = Layout::from_size_align(4096, 4096).unwrap();
    assert_eq!(mmap.allocate_early(page), None);
}

#[test]
fn free_regions_may_overlap_within_a_page() {
    let mut mmap = MemoryMap::new();
    mmap.push(region(0x1000, 0x1800, MemoryType::Free));
    mmap.push(region(0x2400, 0x1c00, MemoryType::Free));
    let mut table = PageTable::for_max_addr(0x3fff);
    let mut alloc = Alloc::new();
    alloc.init(&mut mmap, &mut table);
    assert_eq!(alloc.pages(), 2);
    assert_eq!(alloc.alloc_page(&mut table), Some(3));
    assert_eq!(alloc.alloc_page(&mut table), Some(1));
    assert_eq!(alloc.alloc_page(&mut table), None);
}

#[test]
fn early_allocation_looks_only_up_to_the_first_fit() {
    let page = Layout::from_size_align(4096, 4096).unwrap();
    let mut mmap = MemoryMap::new();
    mmap.push(region(0x1000, 0x2000, MemoryType::Free));
    mmap.push(region(usize::MAX - 0x10, 0x8, MemoryType::Free));
    // The second region's start rounds past the address space, but the
    // first region has room, so the second is never looked at.
    assert!(mmap.early_rounding_fits(page));
    assert!(!mmap.rounding_fits_all(4096));
    assert_eq!(mmap.allocate_early(page), Some(0x1000 + VADDR as usize));
    assert_eq!(mmap.allocate_early(page), Some(0x2000 + VADDR as usize));
    // Now the search would reach it.
    assert!(!mmap.early_rounding_fits(page));

    let mut first = MemoryMap::new();
    first.push(region(usize::MAX - 0x10, 0x8, MemoryType::Free));
    first.push(region(0x1000, 0x2000, MemoryType::Free));
    assert!(!first.early_rounding_fits(page));
    assert!(first.rounding_fits_all(1));
}
