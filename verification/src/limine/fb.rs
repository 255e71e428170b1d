//! Framebuffer descriptions as the bootloader hands them over.
use vstd::prelude::*;

verus! {

/// Width and position of one color channel.
#[derive(Clone, Copy, Debug)]
pub struct Mask {
    pub size: u8,
    pub shift: u8,
}

/// A framebuffer as the bootloader describes it.
#[derive(Clone, Copy, Debug)]
pub struct Fb {
    /// Address of the first pixel.
    pub addr: usize,
    pub width: u64,
    pub height: u64,
    pub pitch: u64,
    /// Bits per pixel.
    pub bpp: u16,
    pub memory_model: u8,
    pub red_mask: Mask,
    pub green_mask: Mask,
    pub blue_mask: Mask,
    pub edid_size: u64,
    /// Address of the EDID block.
    pub edid: usize,
}

} // verus!
