use vstd::prelude::*;
use crate::pixel::{pixel_views, Pixel};

verus! {

/// The contract all shapes share: a shape covers a mathematically determined,
/// finite sequence of pixel coordinates, and `pixels` produces exactly that
/// sequence, in a deterministic, reproducible order.
pub trait Drawable {
    /// The sequence of coordinates the shape covers, as mathematical points.
    spec fn spec_pixels(&self) -> Seq<(int, int)>;

    /// Produces every pixel the shape covers.
    fn pixels(&self) -> (r: Vec<Pixel>)
        ensures
            pixel_views(r@) == self.spec_pixels(),
    ;
}

} // verus!
