use void_kernel::limine::{mmap_iter, DateAtBootResponse, HHDMResponse, MemMapEntry, MemMapResponse, MemMapType, Request, COMMON_MAGIC_0, COMMON_MAGIC_1};
use void_kernel::limine::fb::{Fb, Mask};
use void_kernel::limine::{first_framebuffer, FbResponse};
use void_kernel::mem::MemoryType;

#[test]
fn request_identifier() {
    let r: Request<0x48dcf1cb8ad2b852, 0x63984e959a98244b> = Request::new();
    assert_eq!(r.id(), [COMMON_MAGIC_0, COMMON_MAGIC_1, 0x48dcf1cb8ad2b852, 0x63984e959a98244b]);
    assert_eq!(COMMON_MAGIC_0, 0xc7b1dd30df4c8b88);
    assert_eq!(COMMON_MAGIC_1, 0x0a82e883a194f07b);
}

#[test]
fn responses_hold_their_values() {
    assert_eq!(HHDMResponse::new(0, 0xffff_8000_0000_0000).offset(), 0xffff_8000_0000_0000);
    assert_eq!(DateAtBootResponse::new(0, 1_700_000_000).timestamp(), 1_700_000_000);
}

#[test]
fn memmap_type_numbers() {
    assert_eq!(MemMapType::Usable.value(), 0);
    assert_eq!(MemMapType::Reserved.value(), 1);
    assert_eq!(MemMapType::BadMemory.value(), 4);
    assert_eq!(MemMapType::Framebuffer.value(), 7);
}

#[test]
fn memmap_iterator_reads_entries() {
    let e = |addr, len, mem_type| Some(MemMapEntry { addr, len, mem_type });
    let resp = MemMapResponse {
        rev: 0,
        entries: Some(vec![e(0, 0x1000, 0), e(0x1000, 0x2000, 5), e(0x3000, 0x1000, 6), e(0x4000, 0x1000, 99), None, e(0x5000, 1, 7)]),
    };
    let mut it = mmap_iter();
    let r = it.next(Some(&resp)).unwrap();
    assert_eq!((r.addr(), r.len(), r.memory_type()), (0, 0x1000, MemoryType::Free));
    assert_eq!(it.next(Some(&resp)).unwrap().memory_type(), MemoryType::Reclaimable);
    assert_eq!(it.next(Some(&resp)).unwrap().memory_type(), MemoryType::Kernel);
    assert_eq!(it.next(Some(&resp)).unwrap().memory_type(), MemoryType::Reserved);
    assert!(it.next(Some(&resp)).is_none());
    assert!(it.next(Some(&resp)).is_none());
}

#[test]
fn memmap_without_entries_is_empty() {
    let resp = MemMapResponse { rev: 0, entries: None };
    let mut it = mmap_iter();
    assert!(it.next(Some(&resp)).is_none());
    assert!(it.next(None).is_none());
}

fn fb_desc(addr: usize, width: u64, bpp: u16) -> Fb {
    let m = |shift| Mask { size: 8, shift };
    Fb {
        addr,
        width,
        height: 600,
        pitch: width * 4,
        bpp,
        memory_model: 1,
        red_mask: m(16),
        green_mask: m(8),
        blue_mask: m(0),
        edid_size: 0,
        edid: 0,
    }
}

#[test]
fn console_framebuffer_is_the_first_reported() {
    assert!(first_framebuffer(None).is_none());
    let empty = FbResponse { rev: 0, framebuffers: vec![] };
    assert!(first_framebuffer(Some(&empty)).is_none());
    let r = FbResponse { rev: 0, framebuffers: vec![Some(fb_desc(0x1000, 800, 32)), Some(fb_desc(0x2000, 1024, 32))] };
    assert_eq!(first_framebuffer(Some(&r)).unwrap().width(), 800);
    let r = FbResponse { rev: 0, framebuffers: vec![None, Some(fb_desc(0x2000, 1024, 32))] };
    assert!(first_framebuffer(Some(&r)).is_none());
    let r = FbResponse { rev: 0, framebuffers: vec![Some(fb_desc(0x1000, 800, 16))] };
    assert!(first_framebuffer(Some(&r)).is_none());
}
