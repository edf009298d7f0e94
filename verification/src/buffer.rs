use vstd::prelude::*;
use crate::circle::{filled_points, hollow_points, Circle, FilledCircle, HollowCircle};
use crate::color::Color;
use crate::draw::Drawable;
use crate::line::{segment_points, Line};
use crate::pixel::{pixel_views, Pixel};
use crate::rectangle::{rect_filled_points, rect_hollow_points, FilledRectangle, HollowRectangle,
    Rectangle};
use crate::text::{text_points, Text};

verus! {

/// A flat RGBA pixel buffer: a row-major byte array, four bytes per pixel,
/// together with the row width in pixels. The buffer, not the rasterizers,
/// is responsible for bounds: a write at a coordinate whose byte range falls
/// outside the array is silently dropped.
pub struct Buffer {
    pub width: u32,
    pub data: Vec<u8>,
}

/// The byte offset of a pixel coordinate in a buffer of the given width.
pub open spec fn byte_index(width: int, p: (int, int)) -> int {
    (width * p.1 + p.0) * 4
}

/// Whether the four bytes of the pixel fall inside a buffer of length `len`.
pub open spec fn pixel_in_bounds(width: int, len: int, p: (int, int)) -> bool {
    byte_index(width, p) + 4 <= len
}

/// The buffer contents after one pixel is drawn: the four bytes of an
/// in-bounds pixel take the color, an out-of-bounds write changes nothing.
pub open spec fn paint_one(data: Seq<u8>, width: int, p: (int, int), col: Seq<u8>) -> Seq<u8> {
    if pixel_in_bounds(width, data.len() as int, p) {
        let b = byte_index(width, p);
        data.update(b, col[0]).update(b + 1, col[1]).update(b + 2, col[2]).update(b + 3, col[3])
    } else {
        data
    }
}

/// The buffer contents after a sequence of pixels is drawn in order.
pub open spec fn paint(data: Seq<u8>, width: int, pts: Seq<(int, int)>, col: Seq<u8>) -> Seq<u8>
    decreases pts.len(),
{
    if pts.len() == 0 {
        data
    } else {
        paint(paint_one(data, width, pts[0], col), width, pts.drop_first(), col)
    }
}

impl Buffer {
    /// A buffer of `width * height` pixels, all bytes zero.
    #[verifier::loop_isolation(false)]
    pub fn new(width: u32, height: u32) -> (r: Buffer)
        requires
            width * height * 4 <= usize::MAX,
        ensures
            r.width == width,
            r.data@.len() == width * height * 4,
            forall|i: int| 0 <= i < r.data@.len() ==> r.data@[i] == 0u8,
    {
        let n: usize = (width as usize) * (height as usize) * 4;
        let mut data: Vec<u8> = Vec::new();
        let mut k: usize = 0;
        while k < n
            invariant
                k <= n,
                data@.len() == k,
                forall|i: int| 0 <= i < data@.len() ==> data@[i] == 0u8,
            decreases n - k,
        {
            data.push(0);
            k = k + 1;
        }
        Buffer { width, data }
    }

    /// Draws the given color at the given pixel. A coordinate whose byte
    /// range exceeds the buffer is silently ignored: the buffer is unchanged.
    pub fn draw_pixel(&mut self, pixel: Pixel, color: Color)
        ensures
            final(self).width == old(self).width,
            final(self).data@ == paint_one(
                old(self).data@,
                old(self).width as int,
                pixel@,
                color@,
            ),
    {
        proof {
            assert((self.width as int) * (pixel@.1) <= (u32::MAX as int) * (u32::MAX as int))
                by (nonlinear_arith)
                requires
                    0 <= self.width as int <= u32::MAX as int,
                    0 <= pixel@.1 <= u32::MAX as int,
            ;
        }
        let cells: u64 = self.width as u64 * pixel.y() as u64 + pixel.x() as u64;
        let len = self.data.len();
        if cells < len as u64 / 4 {
            let b: usize = (cells as usize) * 4;
            self.data.set(b, color[0]);
            self.data.set(b + 1, color[1]);
            self.data.set(b + 2, color[2]);
            self.data.set(b + 3, color[3]);
            proof {
                assert(b == byte_index(self.width as int, pixel@));
                assert(self.data@ =~= paint_one(
                    old(self).data@,
                    self.width as int,
                    pixel@,
                    color@,
                ));
            }
        } else {
            proof {
                assert(!pixel_in_bounds(self.width as int, self.data@.len() as int, pixel@));
            }
        }
    }

    /// Overwrites every whole pixel of the buffer with the given color; a
    /// trailing partial pixel, if the length is not a multiple of four, is
    /// left as it is.
    #[verifier::loop_isolation(false)]
    pub fn clear(&mut self, color: Color)
        ensures
            final(self).width == old(self).width,
            final(self).data@.len() == old(self).data@.len(),
            forall|i: int|
                0 <= i < 4 * (final(self).data@.len() / 4) ==> final(self).data@[i] == color@[(
                i % 4)],
            forall|i: int|
                4 * (final(self).data@.len() / 4) <= i < final(self).data@.len() ==> final(
                self).data@[i] == old(self).data@[i],
    {
        let cells = self.data.len() / 4;
        let mut k: usize = 0;
        while k < cells
            invariant
                k <= cells,
                cells == self.data@.len() / 4,
                self.width == old(self).width,
                self.data@.len() == old(self).data@.len(),
                forall|i: int| 0 <= i < 4 * k ==> self.data@[i] == color@[i % 4],
                forall|i: int| 4 * k <= i < self.data@.len() ==> self.data@[i] == old(self).data@[i],
            decreases cells - k,
        {
            let b = k * 4;
            self.data.set(b, color[0]);
            self.data.set(b + 1, color[1]);
            self.data.set(b + 2, color[2]);
            self.data.set(b + 3, color[3]);
            proof {
                assert forall|i: int| 0 <= i < 4 * (k + 1) implies self.data@[i] == color@[i % 4] by {
                    if 4 * k <= i {
                        assert(i % 4 == i - 4 * k);
                    }
                }
            }
            k = k + 1;
        }
    }

    /// Draws every pixel of the list, in order, with the given color.
    #[verifier::loop_isolation(false)]
    pub fn draw_points(&mut self, color: Color, pts: &Vec<Pixel>)
        ensures
            final(self).width == old(self).width,
            final(self).data@ == paint(
                old(self).data@,
                old(self).width as int,
                pixel_views(pts@),
                color@,
            ),
    {
        let ghost all = pixel_views(pts@);
        let mut k: usize = 0;
        proof {
            assert(all.skip(0) =~= all);
        }
        while k < pts.len()
            invariant
                k <= pts@.len(),
                self.width == old(self).width,
                paint(self.data@, self.width as int, all.skip(k as int), color@) == paint(
                    old(self).data@,
                    self.width as int,
                    all,
                    color@,
                ),
            decreases pts@.len() - k,
        {
            let ghost pre = self.data@;
            self.draw_pixel(pts[k], color);
            proof {
                assert(all.skip(k as int).drop_first() =~= all.skip(k as int + 1));
                assert(all.skip(k as int)[0] == pts@[k as int]@);
                assert(paint(pre, self.width as int, all.skip(k as int), color@) == paint(
                    self.data@,
                    self.width as int,
                    all.skip(k as int + 1),
                    color@,
                ));
            }
            k = k + 1;
        }
        proof {
            assert(all.skip(pts@.len() as int) =~= Seq::<(int, int)>::empty());
        }
    }

    /// Draws any shape: enumerates its pixel sequence and draws each pixel.
    pub fn draw<D: Drawable>(&mut self, color: Color, drawable: &D)
        ensures
            final(self).width == old(self).width,
            final(self).data@ == paint(
                old(self).data@,
                old(self).width as int,
                drawable.spec_pixels(),
                color@,
            ),
    {
        let pts = drawable.pixels();
        self.draw_points(color, &pts);
    }

    /// Draws a hollow or filled circle around `center`.
    pub fn draw_circle(&mut self, color: Color, center: Pixel, radius: u32, filled: bool)
        ensures
            final(self).width == old(self).width,
            final(self).data@ == paint(
                old(self).data@,
                old(self).width as int,
                if filled {
                    filled_points(center@, radius as int)
                } else {
                    hollow_points(center@, radius as int)
                },
                color@,
            ),
    {
        if !filled {
            self.draw(color, &HollowCircle(Circle { center, radius }))
        } else {
            self.draw(color, &FilledCircle(Circle { center, radius }))
        }
    }

    /// Draws the segment between `start` and `end`.
    pub fn draw_line(&mut self, color: Color, start: Pixel, end: Pixel)
        ensures
            final(self).width == old(self).width,
            final(self).data@ == paint(
                old(self).data@,
                old(self).width as int,
                segment_points(start@, end@),
                color@,
            ),
    {
        self.draw(color, &Line { from: start, to: end })
    }

    /// Draws a hollow or filled rectangle from `top_left`.
    pub fn draw_rectangle(
        &mut self,
        color: Color,
        top_left: Pixel,
        width: u32,
        height: u32,
        filled: bool,
    )
        ensures
            final(self).width == old(self).width,
            final(self).data@ == paint(
                old(self).data@,
                old(self).width as int,
                if filled {
                    rect_filled_points(top_left@, width as int, height as int)
                } else {
                    rect_hollow_points(top_left@, width as int, height as int)
                },
                color@,
            ),
    {
        if !filled {
            self.draw(color, &HollowRectangle(Rectangle { top_left, width, height }))
        } else {
            self.draw(color, &FilledRectangle(Rectangle { top_left, width, height }))
        }
    }

    /// Draws a text's coverage samples anchored at the text's position.
    pub fn draw_text(&mut self, color: Color, text: &Text, coverage: &Vec<(i64, i64)>)
        ensures
            final(self).width == old(self).width,
            final(self).data@ == paint(
                old(self).data@,
                old(self).width as int,
                text_points(
                    text.position@,
                    coverage@.map_values(|s: (i64, i64)| (s.0 as int, s.1 as int)),
                ),
                color@,
            ),
    {
        let pts = text.pixels(coverage);
        self.draw_points(color, &pts);
    }
}

} // verus!
