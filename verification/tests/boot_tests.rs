use void_kernel::boot::cmdline::CmdLine;
use void_kernel::boot::memmap::{Entry, EntryType, MmapIter};
use void_kernel::boot::{check_hhdm, find_framebuffer, requested_consoles, select_consoles, try_create_fb, HhdmError};
use void_kernel::limine::fb::{Fb as FbDesc, Mask as MaskDesc};
use void_kernel::limine::FbResponse;
use void_kernel::mem::{MemoryType, VADDR};

fn desc(addr: usize, width: u64, bpp: u16) -> FbDesc {
    let m = |shift| MaskDesc { size: 8, shift };
    FbDesc {
        addr,
        width,
        height: 480,
        pitch: width * 4,
        bpp,
        memory_model: 1,
        red_mask: m(16),
        green_mask: m(8),
        blue_mask: m(0),
        edid_size: 0,
        edid: 0,
    }
}

fn cmdline(line: &'static [u8]) -> CmdLine {
    let mut c = CmdLine::new();
    c.set(line);
    c
}

#[test]
fn no_console_entry_asks_for_nothing() {
    let line = cmdline(b"quiet");
    let (mask, unknown) = requested_consoles(&line);
    assert_eq!(mask, 0);
    assert!(unknown.is_empty());
}

#[test]
fn console_entry_sets_bits() {
    let line = cmdline(b"console=fb0,fb3");
    let (mask, unknown) = requested_consoles(&line);
    assert_eq!(mask, 0b1001);
    assert!(unknown.is_empty());
}

#[test]
fn fb_star_asks_for_all() {
    let line = cmdline(b"console=fb2,fb*");
    let (mask, _) = requested_consoles(&line);
    assert_eq!(mask, 0xff);
}

#[test]
fn unknown_console_names_are_reported() {
    let line = cmdline(b"console=serial,fb1,fb9,ttyS0");
    let (mask, unknown) = requested_consoles(&line);
    assert_eq!(mask, 0b10);
    assert_eq!(unknown, vec![&b"serial"[..], &b"ttyS0"[..]]);
}

#[test]
fn usable_framebuffer_is_created() {
    let fb = try_create_fb(&desc(0x1000, 640, 32)).unwrap();
    assert_eq!(fb.width(), 640);
    assert_eq!(fb.height(), 480);
    assert_eq!(fb.pitch(), 2560);
    assert_eq!(fb.bpp(), 32);
}

#[test]
fn unusable_framebuffers_are_refused() {
    assert!(try_create_fb(&desc(0, 640, 32)).is_none());
    assert!(try_create_fb(&desc(0x1000, 640, 24)).is_none());
    let mut d = desc(0x1000, 640, 32);
    d.pitch = 100;
    assert!(try_create_fb(&d).is_none());
    let mut d = desc(0x1000, 640, 32);
    d.red_mask.size = 5;
    assert!(try_create_fb(&d).is_none());
}

#[test]
fn first_framebuffer_is_found() {
    assert!(find_framebuffer(None).is_none());
    let empty = FbResponse { rev: 0, framebuffers: vec![] };
    assert!(find_framebuffer(Some(&empty)).is_none());
    let r = FbResponse { rev: 0, framebuffers: vec![None, Some(desc(0x2000, 800, 32)), Some(desc(0x3000, 1024, 32))] };
    assert_eq!(find_framebuffer(Some(&r)).unwrap().width(), 800);
    let r = FbResponse { rev: 0, framebuffers: vec![Some(desc(0x2000, 800, 24)), Some(desc(0x3000, 1024, 32))] };
    assert!(find_framebuffer(Some(&r)).is_none());
}

#[test]
fn mask_selects_the_asked_framebuffers() {
    let fbs = vec![desc(0x1000, 640, 32), desc(0x2000, 800, 24), desc(0x3000, 1024, 32), desc(0x4000, 320, 32)];
    let chosen = select_consoles(0b0111, &fbs);
    let numbers: Vec<usize> = chosen.iter().map(|c| c.0).collect();
    assert_eq!(numbers, vec![0, 2]);
    assert_eq!(chosen[1].1.width(), 1024);
}

#[test]
fn empty_mask_selects_the_first_usable() {
    let fbs = vec![desc(0x1000, 640, 24), desc(0x2000, 800, 32), desc(0x3000, 1024, 32)];
    let chosen = select_consoles(0, &fbs);
    let numbers: Vec<usize> = chosen.iter().map(|c| c.0).collect();
    assert_eq!(numbers, vec![1]);
}

#[test]
fn mask_reaches_only_eight_framebuffers() {
    let fbs: Vec<FbDesc> = (0..10).map(|i| desc(0x1000 * (i + 1), 640, 32)).collect();
    let chosen = select_consoles(0xff, &fbs);
    let numbers: Vec<usize> = chosen.iter().map(|c| c.0).collect();
    assert_eq!(numbers, vec![0, 1, 2, 3, 4, 5, 6, 7]);
    assert!(select_consoles(0b1000_0000, &fbs[..3]).is_empty());
}

#[test]
fn hhdm_must_be_at_vaddr() {
    assert_eq!(check_hhdm(Some(VADDR)), Ok(VADDR));
    assert_eq!(check_hhdm(None), Err(HhdmError::NotMapped));
    assert_eq!(check_hhdm(Some(0x1000)), Err(HhdmError::BadOffset(0x1000)));
}

#[test]
fn memmap_entries_become_regions() {
    let entries = vec![
        Some(Entry { base: 0, len: 0x9f000, mem_type: EntryType::Usable }),
        None,
        Some(Entry { base: 0x100000, len: 0x1000, mem_type: EntryType::ReservedMapped }),
    ];
    let mut it = MmapIter::new();
    let r = it.next(Some(&entries)).unwrap();
    assert_eq!(r.addr(), 0);
    assert_eq!(r.len(), 0x9f000);
    assert_eq!(r.memory_type(), MemoryType::Free);
    assert!(it.next(Some(&entries)).is_none());
    assert!(it.next(Some(&entries)).is_none());
    assert!(it.next(None).is_none());
}

#[test]
fn memmap_types_map_to_kernel_types() {
    let kinds = [
        (EntryType::Usable, MemoryType::Free),
        (EntryType::Reserved, MemoryType::Reserved),
        (EntryType::AcpiReclaimable, MemoryType::AcpiReclaimable),
        (EntryType::AcpiNvs, MemoryType::AcpiNvs),
        (EntryType::BadMemory, MemoryType::BadMemory),
        (EntryType::BootloaderReclaimable, MemoryType::Reclaimable),
        (EntryType::ExecutableAndModules, MemoryType::Kernel),
        (EntryType::Framebuffer, MemoryType::Framebuffer),
        (EntryType::ReservedMapped, MemoryType::Reserved),
        (EntryType::Unknown, MemoryType::Reserved),
    ];
    let entries: Vec<Option<Entry>> = kinds.iter().map(|k| Some(Entry { base: 0x1000, len: 0x1000, mem_type: k.0 })).collect();
    let mut it = MmapIter::new();
    for k in kinds.iter() {
        assert_eq!(it.next(Some(&entries)).unwrap().memory_type(), k.1);
    }
    assert!(it.next(Some(&entries)).is_none());
}
