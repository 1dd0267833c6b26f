//! What a display surface needs of a frame: channel masks, bytes and pitch.

use crate::ppm::{blue, green, red};
use vstd::prelude::*;

verus! {

/// Bits of a packed pixel that hold red.
pub const RED_MASK: u32 = 0x0000_00ff;

/// Bits of a packed pixel that hold green.
pub const GREEN_MASK: u32 = 0x0000_ff00;

/// Bits of a packed pixel that hold blue.
pub const BLUE_MASK: u32 = 0x00ff_0000;

/// Bits of a packed pixel that hold alpha.
pub const ALPHA_MASK: u32 = 0xff00_0000;

/// Bits that one pixel takes on a display surface.
pub const BITS_PER_PIXEL: u8 = 32;

/// The four masks cut a pixel into its channels: they do not overlap, they
/// cover every bit, and the colour masks select what `red`, `green` and
/// `blue` read.
pub proof fn lemma_masks_cut_channels(pixel: u32)
    ensures
        RED_MASK | GREEN_MASK | BLUE_MASK | ALPHA_MASK == 0xffff_ffffu32,
        RED_MASK & GREEN_MASK == 0 && RED_MASK & BLUE_MASK == 0 && RED_MASK & ALPHA_MASK == 0,
        GREEN_MASK & BLUE_MASK == 0 && GREEN_MASK & ALPHA_MASK == 0 && BLUE_MASK & ALPHA_MASK == 0,
        pixel & RED_MASK == red(pixel) as u32,
        (pixel & GREEN_MASK) >> 8 == green(pixel) as u32,
        (pixel & BLUE_MASK) >> 16 == blue(pixel) as u32,
{
    assert(0x0000_00ffu32 | 0x0000_ff00u32 | 0x00ff_0000u32 | 0xff00_0000u32 == 0xffff_ffffu32)
        by (bit_vector);
    assert(0x0000_00ffu32 & 0x0000_ff00u32 == 0 && 0x0000_00ffu32 & 0x00ff_0000u32 == 0
        && 0x0000_00ffu32 & 0xff00_0000u32 == 0 && 0x0000_ff00u32 & 0x00ff_0000u32 == 0
        && 0x0000_ff00u32 & 0xff00_0000u32 == 0 && 0x00ff_0000u32 & 0xff00_0000u32 == 0)
        by (bit_vector);
    assert(pixel & 0x0000_00ffu32 == ((pixel & 0xff) as u8) as u32) by (bit_vector);
    assert((pixel & 0x0000_ff00u32) >> 8 == (((pixel >> 8) & 0xff) as u8) as u32) by (bit_vector);
    assert((pixel & 0x00ff_0000u32) >> 16 == (((pixel >> 16) & 0xff) as u8) as u32)
        by (bit_vector);
}

/// Byte `k` of a pixel, counted from the least significant one.
pub open spec fn byte_of(pixel: u32, k: int) -> u8 {
    if k == 0 {
        (pixel & 0xff) as u8
    } else if k == 1 {
        ((pixel >> 8) & 0xff) as u8
    } else if k == 2 {
        ((pixel >> 16) & 0xff) as u8
    } else {
        ((pixel >> 24) & 0xff) as u8
    }
}

/// `bytes` holds the pixels as they lie in memory, four bytes each: least
/// significant byte first when `little`, most significant byte first
/// otherwise.
pub open spec fn in_memory_order(bytes: Seq<u8>, pixels: Seq<u32>, little: bool) -> bool {
    &&& bytes.len() == 4 * pixels.len()
    &&& forall|i: int, k: int|
        #![trigger bytes[4 * i + k]]
        0 <= i < pixels.len() && 0 <= k < 4 ==> bytes[4 * i + k] == byte_of(
            pixels[i],
            if little {
                k
            } else {
                3 - k
            },
        )
}

/// Views the pixels as the bytes they occupy in memory, through
/// `bytemuck::cast_slice`: the same memory, four bytes for each pixel, in the
/// byte order of the machine. A cast from 32-bit pixels to bytes neither
/// needs alignment nor leaves a remainder, so the call does not fail.
#[verifier::external_body]
fn cast_pixels(pixels: &[u32]) -> (bytes: &[u8])
    ensures
        in_memory_order(bytes@, pixels@, true) || in_memory_order(bytes@, pixels@, false),
{
    bytemuck::cast_slice(pixels)
}

/// What a display surface is updated with: the bytes of a frame and the
/// number of bytes from one row to the next.
pub struct SurfaceUpdate<'a> {
    pub bytes: &'a [u8],
    pub pitch: usize,
}

/// Prepares the update of a display surface with a `width` by `height` frame
/// of tightly packed rows. `None` when the buffer is not exactly one frame,
/// or when a row has more bytes than can be counted.
pub fn surface_update<'a>(buffer: &'a [u32], width: u32, height: u32) -> (update: Option<
    SurfaceUpdate<'a>,
>)
    ensures
        update is Some <==> buffer@.len() == width * height && 4 * width <= usize::MAX,
        update matches Some(u) ==> {
            &&& u.pitch == 4 * width
            &&& u.bytes@.len() == u.pitch * height
            &&& (in_memory_order(u.bytes@, buffer@, true) || in_memory_order(
                u.bytes@,
                buffer@,
                false,
            ))
        },
{
    assert(width * height <= 0xffff_ffff * 0xffff_ffff) by (nonlinear_arith)
        requires
            0 <= width <= 0xffff_ffff,
            0 <= height <= 0xffff_ffff,
    ;
    if buffer.len() as u64 != width as u64 * height as u64 {
        return None;
    }
    let row: u64 = 4 * width as u64;
    if row > usize::MAX as u64 {
        return None;
    }
    let bytes = cast_pixels(buffer);
    proof {
        assert(4 * width * height == 4 * (width * height)) by (nonlinear_arith);
    }
    Some(SurfaceUpdate { bytes, pitch: row as usize })
}

} // verus!
