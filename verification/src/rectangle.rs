use vstd::prelude::*;
use crate::draw::Drawable;
use crate::line::{lemma_concat_contains, segment_points, Line};
use crate::pixel::{pixel_views, sat_pt, Pixel};

verus! {

/// An axis-aligned rectangle described by its top-left corner and extents.
pub struct Rectangle {
    pub top_left: Pixel,
    pub width: u32,
    pub height: u32,
}

/// The perimeter of the rectangle: the four segments between consecutive
/// corners, the last one closing back on the first.
pub open spec fn rect_hollow_points(tl: (int, int), w: int, h: int) -> Seq<(int, int)> {
    let c0 = tl;
    let c1 = sat_pt(tl, w, 0);
    let c2 = sat_pt(tl, w, h);
    let c3 = sat_pt(tl, 0, h);
    segment_points(c0, c1) + segment_points(c1, c2) + segment_points(c2, c3) + segment_points(
        c3,
        c0,
    )
}

/// The scanline fill: one horizontal span per row offset in `[yo, h]`, each
/// spanning from the left edge to the right edge of the rectangle.
pub open spec fn rect_rows(c0: (int, int), c1: (int, int), h: int, yo: int) -> Seq<(int, int)>
    decreases h - yo + 1,
{
    if yo > h {
        Seq::empty()
    } else {
        segment_points(sat_pt(c0, 0, yo), sat_pt(c1, 0, yo)) + rect_rows(c0, c1, h, yo + 1)
    }
}

/// Every pixel of the filled rectangle: `h + 1` scanlines from the top row
/// down to the bottom row, borders inclusive, so a rectangle that does not
/// saturate covers exactly the `(w + 1) * (h + 1)` pixels of its box. A
/// width or height of zero degenerates to a single line or point through
/// the same formulas.
pub open spec fn rect_filled_points(tl: (int, int), w: int, h: int) -> Seq<(int, int)> {
    rect_rows(tl, sat_pt(tl, w, 0), h, 0)
}

/// Rasterizes the rectangle outline or its scanline fill, exactly as
/// `rect_hollow_points` / `rect_filled_points` describes.
#[verifier::loop_isolation(false)]
pub fn rect_pixels(rect: &Rectangle, filled: bool) -> (r: Vec<Pixel>)
    ensures
        pixel_views(r@) == if filled {
            rect_filled_points(rect.top_left@, rect.width as int, rect.height as int)
        } else {
            rect_hollow_points(rect.top_left@, rect.width as int, rect.height as int)
        },
{
    let c0 = rect.top_left;
    let c1 = rect.top_left.add(Pixel(rect.width, 0));
    let c2 = rect.top_left.add(Pixel(rect.width, rect.height));
    let c3 = rect.top_left.add(Pixel(0, rect.height));
    let mut out: Vec<Pixel> = Vec::new();
    if !filled {
        let mut s1 = Line { from: c0, to: c1 }.pixels();
        let mut s2 = Line { from: c1, to: c2 }.pixels();
        let mut s3 = Line { from: c2, to: c3 }.pixels();
        let mut s4 = Line { from: c3, to: c0 }.pixels();
        out.append(&mut s1);
        out.append(&mut s2);
        out.append(&mut s3);
        out.append(&mut s4);
        proof {
            assert(pixel_views(out@) =~= rect_hollow_points(
                rect.top_left@,
                rect.width as int,
                rect.height as int,
            ));
        }
    } else {
        let ghost c0v = c0@;
        let ghost c1v = c1@;
        let ghost h = rect.height as int;
        let mut yo: u64 = 0;
        proof {
            assert(c1v == sat_pt(rect.top_left@, rect.width as int, 0));
        }
        while yo <= rect.height as u64
            invariant
                yo <= rect.height as u64 + 1,
                pixel_views(out@) + rect_rows(c0v, c1v, h, yo as int) == rect_rows(c0v, c1v, h, 0),
            decreases rect.height as u64 + 1 - yo,
        {
            let ghost pre = out@;
            let row_off = yo as u32;
            let mut row = Line {
                from: c0.add(Pixel(0, row_off)),
                to: c1.add(Pixel(0, row_off)),
            }.pixels();
            out.append(&mut row);
            proof {
                assert(rect_rows(c0v, c1v, h, yo as int) == segment_points(
                    sat_pt(c0v, 0, yo as int),
                    sat_pt(c1v, 0, yo as int),
                ) + rect_rows(c0v, c1v, h, yo as int + 1));
                assert(pixel_views(out@) + rect_rows(c0v, c1v, h, yo as int + 1) =~= pixel_views(
                    pre,
                ) + rect_rows(c0v, c1v, h, yo as int));
            }
            yo = yo + 1;
        }
        proof {
            assert(rect_rows(c0v, c1v, h, h + 1) == Seq::<(int, int)>::empty());
            assert(pixel_views(out@) =~= rect_rows(c0v, c1v, h, 0));
        }
    }
    out
}


/// For a rectangle whose corners do not saturate, the scanlines from row
/// offset `yo` down cover exactly the pixels of the remaining closed box.
proof fn lemma_rect_rows_box(tl: (int, int), w: int, h: int, yo: int, q: (int, int))
    requires
        0 <= tl.0,
        0 <= tl.1,
        0 <= w,
        0 <= h,
        tl.0 + w <= u32::MAX,
        tl.1 + h <= u32::MAX,
        0 <= yo <= h + 1,
    ensures
        rect_rows(tl, sat_pt(tl, w, 0), h, yo).contains(q) <==> (tl.0 <= q.0 <= tl.0 + w && tl.1
            + yo <= q.1 <= tl.1 + h),
    decreases h - yo + 1,
{
    let c1 = sat_pt(tl, w, 0);
    assert(c1 == (tl.0 + w, tl.1));
    if yo > h {
    } else {
        let a = sat_pt(tl, 0, yo);
        let b = sat_pt(c1, 0, yo);
        assert(a == (tl.0, tl.1 + yo));
        assert(b == (tl.0 + w, tl.1 + yo));
        let seg = segment_points(a, b);
        let rest = rect_rows(tl, c1, h, yo + 1);
        assert(rect_rows(tl, c1, h, yo) == seg + rest);
        lemma_rect_rows_box(tl, w, h, yo + 1, q);
        lemma_concat_contains(seg, rest, q);
        crate::line::lemma_segment_in_box(a, b);
        if tl.0 <= q.0 <= tl.0 + w && q.1 == tl.1 + yo {
            crate::line::lemma_horizontal_segment(a, b, q.0);
        }
        if seg.contains(q) {
            let i = choose|i: int| 0 <= i < seg.len() && seg[i] == q;
            assert(tl.0 <= q.0 <= tl.0 + w && q.1 == tl.1 + yo);
        }
    }
}

/// The filled rectangle covers exactly its closed box: for a rectangle
/// whose corners do not saturate, a pixel is produced if and only if it
/// lies between the left and right edge and between the top and bottom
/// row, borders inclusive — `(w + 1) * (h + 1)` distinct pixels, and a
/// width and height of zero degenerate to the single corner point.
pub proof fn lemma_filled_rectangle_covers_box(tl: (int, int), w: int, h: int)
    requires
        0 <= tl.0,
        0 <= tl.1,
        0 <= w,
        0 <= h,
        tl.0 + w <= u32::MAX,
        tl.1 + h <= u32::MAX,
    ensures
        forall|q: (int, int)|
            #[trigger] rect_filled_points(tl, w, h).contains(q) <==> (tl.0 <= q.0 <= tl.0 + w
                && tl.1 <= q.1 <= tl.1 + h),
{
    assert forall|q: (int, int)|
        #[trigger] rect_filled_points(tl, w, h).contains(q) <==> (tl.0 <= q.0 <= tl.0 + w
            && tl.1 <= q.1 <= tl.1 + h) by {
        lemma_rect_rows_box(tl, w, h, 0, q);
    }
}

/// A rectangle rasterized as its perimeter only.
pub struct HollowRectangle(pub Rectangle);

impl Drawable for HollowRectangle {
    open spec fn spec_pixels(&self) -> Seq<(int, int)> {
        rect_hollow_points(self.0.top_left@, self.0.width as int, self.0.height as int)
    }

    fn pixels(&self) -> (r: Vec<Pixel>)
        ensures
            pixel_views(r@) == self.spec_pixels(),
    {
        rect_pixels(&self.0, false)
    }
}

/// A rectangle rasterized with its interior scan-filled.
pub struct FilledRectangle(pub Rectangle);

impl Drawable for FilledRectangle {
    open spec fn spec_pixels(&self) -> Seq<(int, int)> {
        rect_filled_points(self.0.top_left@, self.0.width as int, self.0.height as int)
    }

    fn pixels(&self) -> (r: Vec<Pixel>)
        ensures
            pixel_views(r@) == self.spec_pixels(),
    {
        rect_pixels(&self.0, true)
    }
}

} // verus!
