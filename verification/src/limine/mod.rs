//! The limine boot protocol: requests the kernel places for the
//! bootloader, the responses it gets back, and the memory map they hold.
pub mod fb;

use vstd::prelude::*;
use crate::mem::{MemoryRegion, MemoryType};
use crate::boot::{try_create_fb, made_from, fb_from};
use crate::gfx::fb::Fb;

verus! {

/// First word of every request identifier.
pub const COMMON_MAGIC_0: u64 = 0xc7b1dd30df4c8b88;
/// Second word of every request identifier.
pub const COMMON_MAGIC_1: u64 = 0x0a82e883a194f07b;

/// A request: a four-word identifier, the last two naming the feature,
/// and the revision asked for.
pub struct Request<const M0: u64, const M1: u64> {
    id: [u64; 4],
    rev: u64,
}

impl<const M0: u64, const M1: u64> Request<M0, M1> {
    /// The identifier.
    pub closed spec fn id_spec(&self) -> Seq<u64> {
        self.id@
    }

    /// The revision asked for.
    pub closed spec fn rev_spec(&self) -> u64 {
        self.rev
    }

    /// The request for the feature named by `M0` and `M1`, at revision 0.
    pub fn new() -> (r: Self)
        ensures
            r.id_spec() == seq![COMMON_MAGIC_0, COMMON_MAGIC_1, M0, M1],
            r.rev_spec() == 0,
    {
        let r = Request { id: [COMMON_MAGIC_0, COMMON_MAGIC_1, M0, M1], rev: 0 };
        assert(r.id@ =~= seq![COMMON_MAGIC_0, COMMON_MAGIC_1, M0, M1]);
        r
    }

    /// The identifier.
    pub fn id(&self) -> (r: [u64; 4])
        ensures
            r@ == self.id_spec(),
    {
        self.id
    }
}

/// The offset of the linear mapping of physical memory.
#[derive(Clone, Copy, Debug)]
pub struct HHDMResponse {
    rev: u64,
    offset: u64,
}

impl HHDMResponse {
    /// A response of revision `rev` with offset `offset`.
    pub fn new(rev: u64, offset: u64) -> (r: Self)
        ensures
            r.offset_spec() == offset,
    {
        HHDMResponse { rev, offset }
    }

    /// The offset.
    pub closed spec fn offset_spec(&self) -> u64 {
        self.offset
    }

    /// The offset.
    pub fn offset(&self) -> (r: u64)
        ensures
            r == self.offset_spec(),
    {
        self.offset
    }
}

/// The UNIX time at boot.
#[derive(Clone, Copy, Debug)]
pub struct DateAtBootResponse {
    rev: u64,
    timestamp: i64,
}

impl DateAtBootResponse {
    /// A response of revision `rev` with time `timestamp`.
    pub fn new(rev: u64, timestamp: i64) -> (r: Self)
        ensures
            r.timestamp_spec() == timestamp,
    {
        DateAtBootResponse { rev, timestamp }
    }

    /// The time stamp.
    pub closed spec fn timestamp_spec(&self) -> i64 {
        self.timestamp
    }

    /// The time stamp.
    pub fn timestamp(&self) -> (r: i64)
        ensures
            r == self.timestamp_spec(),
    {
        self.timestamp
    }
}

/// The framebuffers found; an entry is `None` where the bootloader gave a
/// null pointer.
pub struct FbResponse {
    pub rev: u64,
    pub framebuffers: Vec<Option<fb::Fb>>,
}

/// Kinds of memory-map entry.
#[derive(Clone, Copy, Debug, PartialEq, Eq, Structural)]
pub enum MemMapType {
    Usable,
    Reserved,
    AcpiReclaimable,
    AcpiNvs,
    BadMemory,
    Reclaimable,
    Executable,
    Framebuffer,
}

/// The number the protocol gives a kind of entry.
pub open spec fn mem_map_type_value(t: MemMapType) -> u64 {
    match t {
        MemMapType::Usable => 0,
        MemMapType::Reserved => 1,
        MemMapType::AcpiReclaimable => 2,
        MemMapType::AcpiNvs => 3,
        MemMapType::BadMemory => 4,
        MemMapType::Reclaimable => 5,
        MemMapType::Executable => 6,
        MemMapType::Framebuffer => 7,
    }
}

impl MemMapType {
    /// The number the protocol gives this kind of entry.
    pub fn value(&self) -> (r: u64)
        ensures
            r == mem_map_type_value(*self),
    {
        match self {
            MemMapType::Usable => 0,
            MemMapType::Reserved => 1,
            MemMapType::AcpiReclaimable => 2,
            MemMapType::AcpiNvs => 3,
            MemMapType::BadMemory => 4,
            MemMapType::Reclaimable => 5,
            MemMapType::Executable => 6,
            MemMapType::Framebuffer => 7,
        }
    }
}

/// The kernel's kind of memory for a memory-map entry's type number:
/// unknown numbers are reserved memory.
pub open spec fn memory_type_of(mem_type: u64) -> MemoryType {
    if mem_type == 0 {
        MemoryType::Free
    } else if mem_type == 2 {
        MemoryType::AcpiReclaimable
    } else if mem_type == 3 {
        MemoryType::AcpiNvs
    } else if mem_type == 5 {
        MemoryType::Reclaimable
    } else if mem_type == 4 {
        MemoryType::BadMemory
    } else if mem_type == 6 {
        MemoryType::Kernel
    } else if mem_type == 7 {
        MemoryType::Framebuffer
    } else {
        MemoryType::Reserved
    }
}

/// One entry of the memory map.
#[derive(Clone, Copy, Debug)]
pub struct MemMapEntry {
    pub addr: u64,
    pub len: u64,
    pub mem_type: u64,
}

/// The memory map; an entry is `None` where the bootloader gave a null
/// pointer, and the whole array is `None` when its pointer was null.
pub struct MemMapResponse {
    pub rev: u64,
    pub entries: Option<Vec<Option<MemMapEntry>>>,
}

/// Iterator over the memory map, as memory regions.
pub struct MmapIterator {
    index: usize,
}

/// An iterator from the first entry of the memory map.
pub fn mmap_iter() -> (r: MmapIterator)
    ensures
        r.index_spec() == 0,
{
    MmapIterator { index: 0 }
}

/// The entries of a memory map, if any.
pub open spec fn entries_of(response: Option<&MemMapResponse>) -> Option<Seq<Option<MemMapEntry>>> {
    match response {
        Some(r) => match r.entries {
            Some(v) => Some(v@),
            None => None,
        },
        None => None,
    }
}

impl MmapIterator {
    /// Index of the next entry.
    pub closed spec fn index_spec(&self) -> usize {
        self.index
    }

    /// The next entry of the memory map as a region; `None` past the end,
    /// when there is no memory map, and at a null entry, where the
    /// iterator stays.
    pub fn next(&mut self, response: Option<&MemMapResponse>) -> (r: Option<MemoryRegion>)
        requires
            entries_of(response) matches Some(es) ==> forall|i: int| 0 <= i < es.len() && es[i] is Some
                ==> #[trigger] es[i]->0.addr <= usize::MAX && es[i]->0.len <= usize::MAX,
        ensures
            match entries_of(response) {
                Some(es) => if old(self).index_spec() < es.len() && es[old(self).index_spec() as int] is Some {
                    let e = es[old(self).index_spec() as int]->0;
                    &&& r matches Some(region)
                    &&& region.addr_spec() == e.addr && region.len_spec() == e.len
                    &&& region.type_spec() == memory_type_of(e.mem_type)
                    &&& region.allocated_spec() == 0
                    &&& final(self).index_spec() == old(self).index_spec() + 1
                } else {
                    r is None && final(self).index_spec() == old(self).index_spec()
                },
                None => r is None && final(self).index_spec() == old(self).index_spec(),
            },
    {
        let response = match response {
            Some(r) => r,
            None => {
                return None;
            },
        };
        let entries = match &response.entries {
            Some(v) => v,
            None => {
                return None;
            },
        };
        if self.index < entries.len() {
            let entry = match entries[self.index] {
                Some(e) => e,
                None => {
                    return None;
                },
            };
            self.index = self.index + 1;
            let t = entry.mem_type;
            let memory_type = if t == 0 {
                MemoryType::Free
            } else if t == 2 {
                MemoryType::AcpiReclaimable
            } else if t == 3 {
                MemoryType::AcpiNvs
            } else if t == 5 {
                MemoryType::Reclaimable
            } else if t == 4 {
                MemoryType::BadMemory
            } else if t == 6 {
                MemoryType::Kernel
            } else if t == 7 {
                MemoryType::Framebuffer
            } else {
                MemoryType::Reserved
            };
            Some(MemoryRegion::new(entry.addr as usize, entry.len as usize, memory_type))
        } else {
            None
        }
    }
}

/// The framebuffer for the console: the first one the bootloader
/// reported, if there is a response, its first entry is no null pointer,
/// and the console can use it.
pub fn first_framebuffer(response: Option<&FbResponse>) -> (r: Option<Fb>)
    ensures
        match response {
            Some(resp) if resp.framebuffers@.len() > 0 && resp.framebuffers@[0] is Some => {
                let d = resp.framebuffers@[0]->0;
                &&& r is Some <==> fb_from(d) is Some
                &&& r matches Some(fb) ==> made_from(fb, d)
            },
            _ => r is None,
        },
{
    let resp = match response {
        Some(resp) => resp,
        None => {
            return None;
        },
    };
    if resp.framebuffers.len() == 0 {
        return None;
    }
    match &resp.framebuffers[0] {
        Some(d) => try_create_fb(d),
        None => None,
    }
}

} // verus!
