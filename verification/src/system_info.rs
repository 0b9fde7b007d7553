use vstd::prelude::*;

verus! {

/// Layout of one pixel of the framebuffer.
#[derive(Clone, Copy, Debug, PartialEq, Eq, Structural)]
pub enum PixelFormat {
    Rgb,
    Bgr,
    /// An unrecognised layout, described by the bit positions of its
    /// colour channels.
    Unknown { red_position: u8, green_position: u8, blue_position: u8 },
}

/// Description of the framebuffer handed to the kernel.
#[derive(Clone, Copy, Debug, PartialEq, Eq, Structural)]
pub struct FrameBufferInfo {
    /// Total size of the framebuffer in bytes.
    pub byte_len: u64,
    /// Width in pixels.
    pub width: u64,
    /// Height in pixels.
    pub height: u64,
    pub pixel_format: PixelFormat,
    pub bytes_per_pixel: u64,
    /// Pixels per scan line, padding included.
    pub stride: u64,
}

/// Everything the kernel is told about the platform besides the memory
/// map: the framebuffer and, when one was found, the ACPI root pointer.
/// An absent root pointer is a valid state, not an error.
#[derive(Clone, Copy, Debug, PartialEq, Eq, Structural)]
pub struct SystemInfo {
    pub framebuffer_addr: u64,
    pub framebuffer_info: FrameBufferInfo,
    pub rsdp_addr: Option<u64>,
}

} // verus!
