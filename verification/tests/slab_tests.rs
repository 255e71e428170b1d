use void_kernel::mem::layout::Layout;
use void_kernel::mem::page_alloc::Alloc;
use void_kernel::mem::slab::Slab;
use void_kernel::mem::{try_get_page, PageTable};

const PFN: usize = 0x100;
const PAGE: usize = PFN * 4096;

/// A page allocator holding the one free frame `PFN`.
fn one_frame() -> (Alloc, PageTable) {
    let mut table = PageTable::for_max_addr(PAGE);
    let mut alloc = Alloc::new();
    alloc.free_page(&mut table, PFN);
    (alloc, table)
}

fn slab_of(size: usize, align: usize) -> Slab {
    let (mut alloc, mut table) = one_frame();
    let l = Layout::from_size_align(size, align).unwrap();
    Slab::try_new(l, &mut alloc, &mut table).unwrap()
}

#[test]
fn slab_cuts_the_page_in_slots() {
    let (mut alloc, mut table) = one_frame();
    let l = Layout::from_size_align(100, 8).unwrap();
    let s = Slab::try_new(l, &mut alloc, &mut table).unwrap();
    assert_eq!(s.stride(), 104);
    assert_eq!(s.capacity(), 4096 / 104);
    assert_eq!(s.available(), s.capacity());
    assert_eq!(s.layout(), l);
    // The frame left the free list.
    assert_eq!(alloc.pages(), 0);
    assert!(!try_get_page(&table, PFN).unwrap().is_free());
    // Releasing the slab gives it back.
    assert_eq!(s.release(&mut alloc, &mut table), PAGE);
    assert_eq!(alloc.pages(), 1);
    assert!(try_get_page(&table, PFN).unwrap().is_free());
    assert_eq!(alloc.alloc_page(&mut table), Some(PFN));
}

#[test]
fn too_small_objects_are_refused() {
    let (mut alloc, mut table) = one_frame();
    let l = Layout::from_size_align(16, 16).unwrap();
    assert!(Slab::try_new(l, &mut alloc, &mut table).is_none());
    // No frame was taken for the refused slab.
    assert_eq!(alloc.pages(), 1);
    assert!(try_get_page(&table, PFN).unwrap().is_free());
    let l = Layout::from_size_align(32, 32).unwrap();
    assert_eq!(Slab::try_new(l, &mut alloc, &mut table).unwrap().capacity(), 128);
    assert_eq!(alloc.pages(), 0);
}

#[test]
fn no_page_no_slab() {
    let mut table = PageTable::for_max_addr(PAGE);
    let mut alloc = Alloc::new();
    let l = Layout::from_size_align(100, 8).unwrap();
    assert!(Slab::try_new(l, &mut alloc, &mut table).is_none());
    let (mut alloc, mut table) = one_frame();
    assert!(Slab::try_new(l, &mut alloc, &mut table).is_some());
    assert!(Slab::try_new(l, &mut alloc, &mut table).is_none());
}

#[test]
fn each_slab_takes_the_next_free_frame() {
    let mut table = PageTable::for_max_addr(8 * 4096);
    let mut alloc = Alloc::new();
    alloc.free_page(&mut table, 2);
    alloc.free_page(&mut table, 7);
    let l = Layout::from_size_align(64, 64).unwrap();
    let a = Slab::try_new(l, &mut alloc, &mut table).unwrap();
    let b = Slab::try_new(l, &mut alloc, &mut table).unwrap();
    assert_eq!(b.release(&mut alloc, &mut table), 2 * 4096);
    assert_eq!(a.release(&mut alloc, &mut table), 7 * 4096);
    // The free stack is as it was before the slabs were made.
    assert_eq!(alloc.alloc_page(&mut table), Some(7));
    assert_eq!(alloc.alloc_page(&mut table), Some(2));
    assert_eq!(alloc.alloc_page(&mut table), None);
}

#[test]
fn allocation_takes_the_lowest_free_slot() {
    let mut s = slab_of(512, 512);
    assert_eq!(s.capacity(), 8);
    assert_eq!(s.allocate(), Some(PAGE));
    assert_eq!(s.allocate(), Some(PAGE + 512));
    assert_eq!(s.allocate(), Some(PAGE + 1024));
    assert_eq!(s.available(), 5);
    s.dealloc(PAGE + 512);
    assert_eq!(s.available(), 6);
    assert_eq!(s.allocate(), Some(PAGE + 512));
    assert_eq!(s.layout(), Layout::from_size_align(512, 512).unwrap());
}

#[test]
fn full_slab_gives_nothing() {
    let (mut alloc, mut table) = one_frame();
    let l = Layout::from_size_align(2048, 8).unwrap();
    let mut s = Slab::try_new(l, &mut alloc, &mut table).unwrap();
    assert_eq!(s.allocate(), Some(PAGE));
    assert_eq!(s.allocate(), Some(PAGE + 2048));
    assert_eq!(s.allocate(), None);
    assert_eq!(s.available(), 0);
    s.dealloc(PAGE);
    s.dealloc(PAGE + 2048);
    assert_eq!(s.release(&mut alloc, &mut table), PAGE);
    assert_eq!(alloc.pages(), 1);
}

#[test]
fn upper_slots_are_addressed_from_the_bitmap_word() {
    let mut s = slab_of(32, 32);
    for i in 0..64 {
        assert_eq!(s.allocate(), Some(PAGE + 32 * i));
    }
    // Slot 64 comes from the upper word, at bit 0.
    assert_eq!(s.allocate(), Some(PAGE));
    assert_eq!(s.available(), 128 - 65);
}

#[test]
fn stride_is_a_multiple_of_the_alignment() {
    let s = slab_of(33, 32);
    assert_eq!(s.stride(), 64);
    assert_eq!(s.stride() % 32, 0);
    assert!(33 <= s.stride() && s.stride() < 33 + 32);
    let s = slab_of(40, 8);
    assert_eq!(s.stride(), 40);
}
