//! Per-page metadata: the page's type, a word its owner uses, and whether
//! the page allocator holds the frame as free.
use vstd::prelude::*;

verus! {

/// Bytes in a page.
pub const SIZE: usize = 4096;
/// Base-two logarithm of the page size.
pub const LOG2_SIZE: usize = 12;

/// What a page is used for. The type is bit 0 of the page's flags: 0 for
/// a frame, 1 for a slab.
#[derive(Clone, Copy, Debug, PartialEq, Eq, Structural)]
pub enum Type {
    Frame,
    Slab,
}

/// The bit that encodes a page type.
pub open spec fn type_bits(t: Type) -> u8 {
    match t {
        Type::Frame => 0u8,
        Type::Slab => 1u8,
    }
}

/// The page type that bit 0 of `flags` encodes.
pub open spec fn type_of(flags: u8) -> Type {
    if flags & 1u8 == 0 {
        Type::Frame
    } else {
        Type::Slab
    }
}

/// The flags byte of a page.
#[derive(Clone, Copy, Debug)]
pub struct Flags {
    flags: u8,
}

impl Flags {
    /// The flags byte.
    pub closed spec fn bits(&self) -> u8 {
        self.flags
    }

    /// Flags holding the byte `flags`.
    pub fn new(flags: u8) -> (r: Self)
        ensures
            r.bits() == flags,
    {
        Flags { flags }
    }

    /// The flags byte.
    pub fn flags(&self) -> (r: u8)
        ensures
            r == self.bits(),
    {
        self.flags
    }

    /// The page type.
    pub fn page_type(&self) -> (r: Type)
        ensures
            r == type_of(self.bits()),
    {
        if self.flags() & 1u8 == 0 {
            Type::Frame
        } else {
            Type::Slab
        }
    }

    /// Replaces the bits `mask` covers by `value`, keeping the others.
    fn swap(&mut self, mask: u8, value: u8)
        ensures
            final(self).bits() == (old(self).bits() & !mask) | value,
    {
        self.flags = (self.flags & !mask) | value;
    }

    /// Sets the page type, keeping the other flags.
    pub fn set_page_type(&mut self, page_type: Type)
        ensures
            type_of(final(self).bits()) == page_type,
            final(self).bits() & 1u8 == type_bits(page_type),
            final(self).bits() & !1u8 == old(self).bits() & !1u8,
    {
        let bit: u8 = match page_type {
            Type::Frame => 0,
            Type::Slab => 1,
        };
        let ghost old_bits = self.flags;
        self.swap(1u8, bit);
        assert(((old_bits & !1u8) | bit) & 1u8 == bit) by (bit_vector)
            requires
                bit < 2u8,
        ;
        assert(((old_bits & !1u8) | bit) & !1u8 == old_bits & !1u8) by (bit_vector)
            requires
                bit < 2u8,
        ;
    }
}

/// Metadata of one page of physical memory.
#[derive(Clone, Copy, Debug)]
pub struct Page {
    flags: Flags,
    pointer: Option<usize>,
    free: bool,
}

impl Page {
    /// The page's flags.
    pub closed spec fn flags_spec(&self) -> Flags {
        self.flags
    }

    /// The owner's word: the page frame number it points at, if any.
    pub closed spec fn pointer_spec(&self) -> Option<usize> {
        self.pointer
    }

    /// The page's type.
    pub open spec fn type_spec(&self) -> Type {
        type_of(self.flags_spec().bits())
    }

    /// The frame is on the page allocator's free list.
    pub closed spec fn free_spec(&self) -> bool {
        self.free
    }

    /// Metadata of an untouched page.
    pub closed spec fn new_spec() -> Page {
        Page { flags: Flags { flags: 0 }, pointer: None, free: false }
    }

    /// Metadata of an untouched page: a frame with no pointer.
    pub fn new() -> (r: Self)
        ensures
            r == Page::new_spec(),
            r.flags_spec().bits() == 0,
            r.type_spec() == Type::Frame,
            r.pointer_spec() is None,
            !r.free_spec(),
    {
        assert(0u8 & 1u8 == 0u8) by (bit_vector);
        Page { flags: Flags::new(0), pointer: None, free: false }
    }

    /// The page's flags.
    pub fn flags(&self) -> (r: Flags)
        ensures
            r == self.flags_spec(),
    {
        self.flags
    }

    /// The page's flags, to change them.
    pub fn flags_mut(&mut self) -> (r: &mut Flags)
        ensures
            *r == old(self).flags_spec(),
            final(self).flags_spec() == *final(r),
            final(self).pointer_spec() == old(self).pointer_spec(),
            final(self).free_spec() == old(self).free_spec(),
    {
        &mut self.flags
    }

    /// The owner's word.
    pub fn pointer(&self) -> (r: Option<usize>)
        ensures
            r == self.pointer_spec(),
    {
        self.pointer
    }

    /// Sets the owner's word.
    pub fn set_pointer(&mut self, new_pointer: Option<usize>)
        ensures
            final(self).pointer_spec() == new_pointer,
            final(self).flags_spec() == old(self).flags_spec(),
            final(self).free_spec() == old(self).free_spec(),
    {
        self.pointer = new_pointer;
    }

    /// Whether the frame is on the page allocator's free list.
    pub fn is_free(&self) -> (r: bool)
        ensures
            r == self.free_spec(),
    {
        self.free
    }

    /// Records whether the frame is on the page allocator's free list.
    pub fn set_free(&mut self, free: bool)
        ensures
            final(self).free_spec() == free,
            final(self).flags_spec() == old(self).flags_spec(),
            final(self).pointer_spec() == old(self).pointer_spec(),
    {
        self.free = free;
    }
}

} // verus!
