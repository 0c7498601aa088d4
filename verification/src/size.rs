//! Pixel dimensions of a render target.

use vstd::prelude::*;

verus! {

/// A size in device pixels.
#[derive(Clone, Copy, Debug, PartialEq, Eq, Structural)]
pub struct PixelSize {
    pub width: u32,
    pub height: u32,
}

impl PixelSize {
    pub fn new(width: u32, height: u32) -> (r: PixelSize)
        ensures
            r.width == width,
            r.height == height,
    {
        PixelSize { width, height }
    }
}

} // verus!
