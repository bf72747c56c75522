//! Shaping of the images sent to the image embedding provider.

use vstd::prelude::*;

verus! {

/// Largest width or height of an image sent for an image embedding.
pub const MAX_CLIP_SIDE: u32 = 512;

/// An image wider or taller than `MAX_CLIP_SIDE` is scaled down before it is embedded.
pub open spec fn needs_resize(width: u32, height: u32) -> bool {
    width > MAX_CLIP_SIDE || height > MAX_CLIP_SIDE
}

/// Whether an image of this size must be scaled down before it is embedded.
pub fn clip_needs_resize(width: u32, height: u32) -> (r: bool)
    ensures
        r == needs_resize(width, height),
{
    width > MAX_CLIP_SIDE || height > MAX_CLIP_SIDE
}

} // verus!
