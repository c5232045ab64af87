use vstd::prelude::*;

verus! {

/// Width and height of the render target, in pixels.
#[derive(Clone, Copy, PartialEq, Eq, Structural, Debug)]
pub struct ImageExtent2D {
    pub width: u32,
    pub height: u32,
}

impl ImageExtent2D {
    /// Number of pixels in the target.
    pub open spec fn spec_size(self) -> int {
        self.width * self.height
    }

    /// The pixel count fits in a machine word, so pixel indices stay in bounds.
    pub open spec fn wf(self) -> bool {
        self.width * self.height <= usize::MAX
    }

    pub fn new(width: u32, height: u32) -> (e: ImageExtent2D)
        ensures
            e.width == width,
            e.height == height,
    {
        ImageExtent2D { width, height }
    }

    pub fn size(&self) -> (s: usize)
        requires
            self.wf(),
        ensures
            s == self.spec_size(),
    {
        (self.width as usize) * (self.height as usize)
    }
}

} // verus!
