use vstd::prelude::*;

verus! {

/// A 4-byte RGBA color value, in the layout of an `Rgba8UnormSrgb` texture.
pub type Color = [u8; 4];

#[non_exhaustive]
pub enum DefaultColors {
    Black,
    White,
}

impl DefaultColors {
    pub fn as_color(&self) -> (r: Color)
        ensures
            self is Black ==> r@ == seq![0u8, 0u8, 0u8, 255u8],
            self is White ==> r@ == seq![255u8, 255u8, 255u8, 255u8],
    {
        match *self {
            DefaultColors::Black => [0, 0, 0, 255],
            DefaultColors::White => [255, 255, 255, 255],
        }
    }
}

} // verus!
