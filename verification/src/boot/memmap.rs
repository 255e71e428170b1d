//! The memory map as the bootloader protocol crate reports it, read as
//! memory regions.
use vstd::prelude::*;
use crate::mem::{MemoryRegion, MemoryType};

verus! {

/// Kinds of memory-map entry the bootloader reports.
#[derive(Clone, Copy, Debug, PartialEq, Eq, Structural)]
pub enum EntryType {
    Usable,
    Reserved,
    AcpiReclaimable,
    AcpiNvs,
    BadMemory,
    BootloaderReclaimable,
    ExecutableAndModules,
    Framebuffer,
    ReservedMapped,
    Unknown,
}

/// The kernel's kind of memory for a kind of entry: mapped reserved and
/// unknown memory are reserved memory.
pub open spec fn region_type(t: EntryType) -> MemoryType {
    match t {
        EntryType::Usable => MemoryType::Free,
        EntryType::Reserved => MemoryType::Reserved,
        EntryType::AcpiReclaimable => MemoryType::AcpiReclaimable,
        EntryType::AcpiNvs => MemoryType::AcpiNvs,
        EntryType::BadMemory => MemoryType::BadMemory,
        EntryType::BootloaderReclaimable => MemoryType::Reclaimable,
        EntryType::ExecutableAndModules => MemoryType::Kernel,
        EntryType::Framebuffer => MemoryType::Framebuffer,
        EntryType::ReservedMapped => MemoryType::Reserved,
        EntryType::Unknown => MemoryType::Reserved,
    }
}

/// One entry of the memory map.
#[derive(Clone, Copy, Debug)]
pub struct Entry {
    pub base: u64,
    pub len: u64,
    pub mem_type: EntryType,
}

/// Iterator over the memory map, as memory regions.
pub struct MmapIter {
    index: usize,
}

impl MmapIter {
    /// Index of the next entry.
    pub closed spec fn index_spec(&self) -> usize {
        self.index
    }

    /// An iterator from the first entry.
    pub fn new() -> (r: Self)
        ensures
            r.index_spec() == 0,
    {
        MmapIter { index: 0 }
    }

    /// The next entry of the memory map `entries` as a region; `None` past
    /// the end, when there is no memory map, and at a null entry, where
    /// the iterator stays.
    pub fn next(&mut self, entries: Option<&[Option<Entry>]>) -> (r: Option<MemoryRegion>)
        requires
            entries matches Some(es) ==> forall|i: int| 0 <= i < es@.len() && es@[i] is Some
                ==> #[trigger] es@[i]->0.base <= usize::MAX && es@[i]->0.len <= usize::MAX,
        ensures
            match entries {
                Some(es) => if old(self).index_spec() < es@.len() && es@[old(self).index_spec() as int] is Some {
                    let e = es@[old(self).index_spec() as int]->0;
                    &&& r matches Some(region)
                    &&& region.addr_spec() == e.base && region.len_spec() == e.len
                    &&& region.type_spec() == region_type(e.mem_type)
                    &&& region.allocated_spec() == 0
                    &&& final(self).index_spec() == old(self).index_spec() + 1
                } else {
                    r is None && final(self).index_spec() == old(self).index_spec()
                },
                None => r is None && final(self).index_spec() == old(self).index_spec(),
            },
    {
        let entries = match entries {
            Some(es) => es,
            None => {
                return None;
            },
        };
        if self.index < entries.len() {
            let entry = match entries[self.index] {
                Some(e) => e,
                None => {
                    return None;
                },
            };
            self.index = self.index + 1;
            let memory_type = match entry.mem_type {
                EntryType::Usable => MemoryType::Free,
                EntryType::Reserved => MemoryType::Reserved,
                EntryType::AcpiReclaimable => MemoryType::AcpiReclaimable,
                EntryType::AcpiNvs => MemoryType::AcpiNvs,
                EntryType::BadMemory => MemoryType::BadMemory,
                EntryType::BootloaderReclaimable => MemoryType::Reclaimable,
                EntryType::ExecutableAndModules => MemoryType::Kernel,
                EntryType::Framebuffer => MemoryType::Framebuffer,
                EntryType::ReservedMapped => MemoryType::Reserved,
                EntryType::Unknown => MemoryType::Reserved,
            };
            Some(MemoryRegion::new(entry.base as usize, entry.len as usize, memory_type))
        } else {
            None
        }
    }
}

} // verus!
