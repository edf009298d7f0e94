use vstd::prelude::*;
use crate::pixel::{pixel_views, sat_pt, Pixel};

verus! {

/// A piece of text anchored at a position, rasterized at a target glyph
/// height. Laying the glyphs out and sampling their coverage is the job of a
/// font collaborator outside this library; it reports, per covered sample,
/// the sample's glyph-space coordinates. This type turns those samples into
/// buffer pixels by offsetting them with the anchor position.
pub struct Text {
    pub position: Pixel,
    pub content: String,
    pub height: u32,
}

/// The pixels a list of coverage samples produces when anchored at `pos`:
/// one pixel per sample, offset by the anchor, each axis clamped into range.
/// No samples — as for an empty text, which lays out no glyphs — means no
/// pixels.
pub open spec fn text_points(pos: (int, int), samples: Seq<(int, int)>) -> Seq<(int, int)> {
    samples.map_values(|s: (int, int)| sat_pt(pos, s.0, s.1))
}

impl Text {
    /// Anchors the given coverage samples at this text's position.
    #[verifier::loop_isolation(false)]
    pub fn pixels(&self, coverage: &Vec<(i64, i64)>) -> (r: Vec<Pixel>)
        ensures
            pixel_views(r@) == text_points(
                self.position@,
                coverage@.map_values(|s: (i64, i64)| (s.0 as int, s.1 as int)),
            ),
    {
        let ghost cast_s = |s: (i64, i64)| (s.0 as int, s.1 as int);
        let ghost target = text_points(self.position@, coverage@.map_values(cast_s));
        let mut out: Vec<Pixel> = Vec::new();
        let mut k: usize = 0;
        while k < coverage.len()
            invariant
                k <= coverage@.len(),
                out@.len() == k,
                pixel_views(out@) =~= target.take(k as int),
            decreases coverage@.len() - k,
        {
            let ghost pre = out@;
            let (sx, sy) = coverage[k];
            out.push(self.position.add_offset(sx, sy));
            proof {
                assert(pixel_views(out@) =~= pixel_views(pre).push(
                    sat_pt(self.position@, sx as int, sy as int),
                ));
                assert(target.take(k + 1) =~= target.take(k as int).push(target[k as int]));
            }
            k = k + 1;
        }
        proof {
            assert(target.take(coverage@.len() as int) =~= target);
        }
        out
    }
}

} // verus!
