use vstd::prelude::*;
use crate::draw::Drawable;
use crate::line::{lemma_concat_contains, segment_points, Line};
use crate::pixel::{pixel_views, sat_pt, Pixel};

verus! {

/// A circle described by its center and radius.
pub struct Circle {
    pub center: Pixel,
    pub radius: u32,
}

/// The initial decision variable of the midpoint circle algorithm: the value
/// of `(5 - 4 * r) / 4` under division that truncates toward zero.
pub open spec fn circle_init_d(r: int) -> int {
    if r == 0 {
        1
    } else if r == 1 {
        0
    } else {
        2 - r
    }
}

/// The first-octant offset pairs the midpoint circle algorithm emits from
/// state `(x, y, d)`: one pair per iteration, stepping `x` every time and
/// `y` down when the decision variable is non-negative, until `x` passes `y`.
pub open spec fn pairs_rec(x: int, y: int, d: int) -> Seq<(int, int)>
    decreases y - x + 2,
{
    if x > y {
        Seq::empty()
    } else if d < 0 {
        seq![(x, y)] + pairs_rec(x + 1, y, d + 2 * x + 1)
    } else {
        seq![(x, y)] + pairs_rec(x + 1, y - 1, d + 2 * (x - y) + 1)
    }
}

/// The octant offset pairs for a circle of radius `r`.
pub open spec fn circle_pairs(r: int) -> Seq<(int, int)> {
    pairs_rec(0, r, circle_init_d(r))
}

/// The eight symmetric boundary points one octant pair contributes.
pub open spec fn octet(c: (int, int), p: (int, int)) -> Seq<(int, int)> {
    let x = p.0;
    let y = p.1;
    seq![
        sat_pt(c, x, y),
        sat_pt(c, x, -y),
        sat_pt(c, -x, y),
        sat_pt(c, -x, -y),
        sat_pt(c, y, x),
        sat_pt(c, y, -x),
        sat_pt(c, -y, x),
        sat_pt(c, -y, -x),
    ]
}

/// The four horizontal spans one octant pair contributes to a filled circle,
/// each rasterized by the line contract.
pub open spec fn quad(c: (int, int), p: (int, int)) -> Seq<(int, int)> {
    let x = p.0;
    let y = p.1;
    segment_points(sat_pt(c, -x, y), sat_pt(c, x, y)) + segment_points(
        sat_pt(c, -x, -y),
        sat_pt(c, x, -y),
    ) + segment_points(sat_pt(c, -y, x), sat_pt(c, y, x)) + segment_points(
        sat_pt(c, -y, -x),
        sat_pt(c, y, -x),
    )
}

pub open spec fn hollow_rec(c: (int, int), pairs: Seq<(int, int)>) -> Seq<(int, int)>
    decreases pairs.len(),
{
    if pairs.len() == 0 {
        Seq::empty()
    } else {
        octet(c, pairs[0]) + hollow_rec(c, pairs.drop_first())
    }
}

pub open spec fn filled_rec(c: (int, int), pairs: Seq<(int, int)>) -> Seq<(int, int)>
    decreases pairs.len(),
{
    if pairs.len() == 0 {
        Seq::empty()
    } else {
        quad(c, pairs[0]) + filled_rec(c, pairs.drop_first())
    }
}

/// Every boundary pixel of the hollow circle of radius `r` around `c`.
pub open spec fn hollow_points(c: (int, int), r: int) -> Seq<(int, int)> {
    hollow_rec(c, circle_pairs(r))
}

/// Every pixel of the filled circle of radius `r` around `c`.
pub open spec fn filled_points(c: (int, int), r: int) -> Seq<(int, int)> {
    filled_rec(c, circle_pairs(r))
}

/// Runs the midpoint circle algorithm, returning the emitted octant pairs.
#[verifier::loop_isolation(false)]
fn midpoint_pairs(radius: u32) -> (r: Vec<(u32, u32)>)
    ensures
        r@.map_values(|p: (u32, u32)| (p.0 as int, p.1 as int)) == circle_pairs(radius as int),
        forall|k: int|
            0 <= k < r@.len() ==> r@[k].0 <= r@[k].1 && r@[k].1 <= radius,
{
    let ghost full = circle_pairs(radius as int);
    let ghost cast_p = |p: (u32, u32)| (p.0 as int, p.1 as int);
    let mut out: Vec<(u32, u32)> = Vec::new();
    let mut x: i64 = 0;
    let mut y: i64 = radius as i64;
    let mut d: i64 = if radius == 0 {
        1
    } else if radius == 1 {
        0
    } else {
        2 - radius as i64
    };
    proof {
        assert(d == circle_init_d(radius as int));
    }
    while x <= y
        invariant
            0 <= x,
            y <= radius,
            -2 * (radius as int) - 2 <= d,
            d <= 2 * x + 1,
            out@.map_values(cast_p) + pairs_rec(x as int, y as int, d as int) == full,
            forall|k: int|
                0 <= k < out@.len() ==> out@[k].0 <= out@[k].1 && out@[k].1 <= radius,
        decreases y - x + 2,
    {
        let ghost pre = out@;
        let ghost rec_pre = pairs_rec(x as int, y as int, d as int);
        out.push((x as u32, y as u32));
        proof {
            assert(out@.map_values(cast_p) =~= pre.map_values(cast_p).push((x as int, y as int)));
        }
        let ghost x0 = x as int;
        let ghost y0 = y as int;
        if d < 0 {
            d = d + 2 * x + 1;
        } else {
            d = d + 2 * (x - y) + 1;
            y = y - 1;
        }
        x = x + 1;
        proof {
            let rec_post = pairs_rec(x as int, y as int, d as int);
            assert(rec_pre == seq![(x0, y0)] + rec_post);
            assert(out@.map_values(cast_p) + rec_post =~= pre.map_values(cast_p) + rec_pre);
        }
    }
    proof {
        assert(pairs_rec(x as int, y as int, d as int) == Seq::<(int, int)>::empty());
        assert(out@.map_values(cast_p) + Seq::<(int, int)>::empty() =~= out@.map_values(cast_p));
    }
    out
}

/// Rasterizes the circle, hollow or filled, exactly as the midpoint circle
/// contract `hollow_points` / `filled_points` describes.
#[verifier::loop_isolation(false)]
#[verifier::rlimit(60)]
pub fn circle_pixels(circle: &Circle, is_filled: bool) -> (r: Vec<Pixel>)
    ensures
        pixel_views(r@) == if is_filled {
            filled_points(circle.center@, circle.radius as int)
        } else {
            hollow_points(circle.center@, circle.radius as int)
        },
{
    let pairs = midpoint_pairs(circle.radius);
    let ghost c = circle.center@;
    let ghost cast_p = |p: (u32, u32)| (p.0 as int, p.1 as int);
    let ghost spairs = pairs@.map_values(cast_p);
    let mut out: Vec<Pixel> = Vec::new();
    let mut k: usize = 0;
    proof {
        assert(spairs.skip(0) =~= spairs);
        assert(pixel_views(out@) =~= Seq::<(int, int)>::empty());
    }
    if !is_filled {
        while k < pairs.len()
            invariant
                k <= pairs@.len(),
                pixel_views(out@) + hollow_rec(c, spairs.skip(k as int)) == hollow_rec(c, spairs),
            decreases pairs@.len() - k,
        {
            let ghost pre = out@;
            let (x, y) = pairs[k];
            let xd = x as i64;
            let yd = y as i64;
            out.push(circle.center.add_offset(xd, yd));
            out.push(circle.center.add_offset(xd, -yd));
            out.push(circle.center.add_offset(-xd, yd));
            out.push(circle.center.add_offset(-xd, -yd));
            out.push(circle.center.add_offset(yd, xd));
            out.push(circle.center.add_offset(yd, -xd));
            out.push(circle.center.add_offset(-yd, xd));
            out.push(circle.center.add_offset(-yd, -xd));
            proof {
                let p = spairs[k as int];
                assert(p == (x as int, y as int));
                assert(pixel_views(out@) =~= pixel_views(pre) + octet(c, p));
                assert(spairs.skip(k as int).drop_first() =~= spairs.skip(k as int + 1));
                assert(hollow_rec(c, spairs.skip(k as int)) == octet(c, p) + hollow_rec(
                    c,
                    spairs.skip(k as int + 1),
                ));
                assert(pixel_views(out@) + hollow_rec(c, spairs.skip(k as int + 1)) =~= pixel_views(
                    pre,
                ) + hollow_rec(c, spairs.skip(k as int)));
            }
            k = k + 1;
        }
        proof {
            assert(spairs.skip(pairs@.len() as int) =~= Seq::<(int, int)>::empty());
            assert(pixel_views(out@) =~= hollow_rec(c, spairs));
        }
    } else {
        while k < pairs.len()
            invariant
                k <= pairs@.len(),
                pixel_views(out@) + filled_rec(c, spairs.skip(k as int)) == filled_rec(c, spairs),
            decreases pairs@.len() - k,
        {
            let ghost pre = out@;
            let (x, y) = pairs[k];
            let xd = x as i64;
            let yd = y as i64;
            let mut s1 = Line {
                from: circle.center.add_offset(-xd, yd),
                to: circle.center.add_offset(xd, yd),
            }.pixels();
            let mut s2 = Line {
                from: circle.center.add_offset(-xd, -yd),
                to: circle.center.add_offset(xd, -yd),
            }.pixels();
            let mut s3 = Line {
                from: circle.center.add_offset(-yd, xd),
                to: circle.center.add_offset(yd, xd),
            }.pixels();
            let mut s4 = Line {
                from: circle.center.add_offset(-yd, -xd),
                to: circle.center.add_offset(yd, -xd),
            }.pixels();
            out.append(&mut s1);
            out.append(&mut s2);
            out.append(&mut s3);
            out.append(&mut s4);
            proof {
                let p = spairs[k as int];
                assert(p == (x as int, y as int));
                assert(pixel_views(out@) =~= pixel_views(pre) + quad(c, p));
                assert(spairs.skip(k as int).drop_first() =~= spairs.skip(k as int + 1));
                assert(filled_rec(c, spairs.skip(k as int)) == quad(c, p) + filled_rec(
                    c,
                    spairs.skip(k as int + 1),
                ));
                assert(pixel_views(out@) + filled_rec(c, spairs.skip(k as int + 1)) =~= pixel_views(
                    pre,
                ) + filled_rec(c, spairs.skip(k as int)));
            }
            k = k + 1;
        }
        proof {
            assert(spairs.skip(pairs@.len() as int) =~= Seq::<(int, int)>::empty());
            assert(pixel_views(out@) =~= filled_rec(c, spairs));
        }
    }
    out
}


/// Every pair the midpoint recursion emits from a state with `0 <= x` lies
/// in the first octant box: `0 <= pair.0 <= pair.1 <= y`.
proof fn lemma_pairs_rec_bounds(x: int, y: int, d: int)
    requires
        0 <= x,
    ensures
        forall|k: int|
            0 <= k < pairs_rec(x, y, d).len() ==> 0 <= (#[trigger] pairs_rec(x, y, d)[k]).0
                && pairs_rec(x, y, d)[k].0 <= pairs_rec(x, y, d)[k].1 && pairs_rec(x, y, d)[k].1
                <= y,
    decreases y - x + 2,
{
    if x > y {
    } else {
        let s = pairs_rec(x, y, d);
        if d < 0 {
            let tail = pairs_rec(x + 1, y, d + 2 * x + 1);
            lemma_pairs_rec_bounds(x + 1, y, d + 2 * x + 1);
            assert forall|k: int|
                0 <= k < s.len() implies 0 <= (#[trigger] s[k]).0 && s[k].0 <= s[k].1 && s[k].1
                <= y by {
                if k > 0 {
                    assert(s[k] == tail[k - 1]);
                }
            }
        } else {
            let tail = pairs_rec(x + 1, y - 1, d + 2 * (x - y) + 1);
            lemma_pairs_rec_bounds(x + 1, y - 1, d + 2 * (x - y) + 1);
            assert forall|k: int|
                0 <= k < s.len() implies 0 <= (#[trigger] s[k]).0 && s[k].0 <= s[k].1 && s[k].1
                <= y by {
                if k > 0 {
                    assert(s[k] == tail[k - 1]);
                }
            }
        }
    }
}

/// When the circle fits between the axes and `u32::MAX`, no octet point is
/// clamped, and each octet is closed under reflection across the horizontal
/// and the vertical axis through the center.
proof fn lemma_octet_sym(c: (int, int), p: (int, int), r: int)
    requires
        0 <= p.0 <= p.1,
        p.1 <= r,
        0 <= r,
        r <= c.0,
        c.0 + r <= u32::MAX,
        r <= c.1,
        c.1 + r <= u32::MAX,
    ensures
        forall|q: (int, int)|
            #[trigger] octet(c, p).contains(q) ==> octet(c, p).contains(((2 * c.0 - q.0, q.1)))
                && octet(c, p).contains(((q.0, 2 * c.1 - q.1))),
{
    let x = p.0;
    let y = p.1;
    let oct = octet(c, p);
    assert(oct[0] == (c.0 + x, c.1 + y));
    assert(oct[1] == (c.0 + x, c.1 - y));
    assert(oct[2] == (c.0 - x, c.1 + y));
    assert(oct[3] == (c.0 - x, c.1 - y));
    assert(oct[4] == (c.0 + y, c.1 + x));
    assert(oct[5] == (c.0 + y, c.1 - x));
    assert(oct[6] == (c.0 - y, c.1 + x));
    assert(oct[7] == (c.0 - y, c.1 - x));
    assert forall|q: (int, int)|
        #[trigger] oct.contains(q) implies oct.contains(((2 * c.0 - q.0, q.1))) && oct.contains(
        ((q.0, 2 * c.1 - q.1)),
    ) by {
        let i = choose|i: int| 0 <= i < oct.len() && oct[i] == q;
        let v = (2 * c.0 - q.0, q.1);
        let h = (q.0, 2 * c.1 - q.1);
        if i == 0 {
            assert(oct[2] == v && oct[1] == h);
        } else if i == 1 {
            assert(oct[3] == v && oct[0] == h);
        } else if i == 2 {
            assert(oct[0] == v && oct[3] == h);
        } else if i == 3 {
            assert(oct[1] == v && oct[2] == h);
        } else if i == 4 {
            assert(oct[6] == v && oct[5] == h);
        } else if i == 5 {
            assert(oct[7] == v && oct[4] == h);
        } else if i == 6 {
            assert(oct[4] == v && oct[7] == h);
        } else {
            assert(oct[5] == v && oct[6] == h);
        }
        assert(oct.contains(v));
        assert(oct.contains(h));
    }
}

proof fn lemma_hollow_rec_sym(c: (int, int), pairs: Seq<(int, int)>, r: int)
    requires
        0 <= r,
        r <= c.0,
        c.0 + r <= u32::MAX,
        r <= c.1,
        c.1 + r <= u32::MAX,
        forall|k: int|
            0 <= k < pairs.len() ==> 0 <= (#[trigger] pairs[k]).0 && pairs[k].0 <= pairs[k].1
                && pairs[k].1 <= r,
    ensures
        forall|q: (int, int)|
            #[trigger] hollow_rec(c, pairs).contains(q) ==> hollow_rec(c, pairs).contains(
                ((2 * c.0 - q.0, q.1)),
            ) && hollow_rec(c, pairs).contains(((q.0, 2 * c.1 - q.1))),
    decreases pairs.len(),
{
    if pairs.len() == 0 {
    } else {
        let p = pairs[0];
        let oct = octet(c, p);
        let rest = hollow_rec(c, pairs.drop_first());
        let s = hollow_rec(c, pairs);
        assert(s == oct + rest);
        assert(forall|k: int|
            0 <= k < pairs.drop_first().len() ==> pairs.drop_first()[k] == pairs[k + 1]);
        lemma_hollow_rec_sym(c, pairs.drop_first(), r);
        lemma_octet_sym(c, p, r);
        assert forall|q: (int, int)|
            #[trigger] s.contains(q) implies s.contains(((2 * c.0 - q.0, q.1))) && s.contains(
            ((q.0, 2 * c.1 - q.1)),
        ) by {
            let rv = (2 * c.0 - q.0, q.1);
            let rh = (q.0, 2 * c.1 - q.1);
            lemma_concat_contains(oct, rest, q);
            lemma_concat_contains(oct, rest, rv);
            lemma_concat_contains(oct, rest, rh);
        }
    }
}

/// The hollow circle's point set is symmetric under reflection across both
/// the horizontal and the vertical axis through the center, whenever the
/// circle lies far enough from the coordinate limits that no point of it is
/// clamped: reflecting any produced point across either axis yields another
/// produced point.
pub proof fn lemma_hollow_circle_symmetric(c: (int, int), r: int)
    requires
        0 <= r,
        r <= c.0,
        c.0 + r <= u32::MAX,
        r <= c.1,
        c.1 + r <= u32::MAX,
    ensures
        forall|q: (int, int)|
            #[trigger] hollow_points(c, r).contains(q) ==> hollow_points(c, r).contains(
                ((2 * c.0 - q.0, q.1)),
            ) && hollow_points(c, r).contains(((q.0, 2 * c.1 - q.1))),
{
    lemma_pairs_rec_bounds(0, r, circle_init_d(r));
    lemma_hollow_rec_sym(c, circle_pairs(r), r);
}

/// The filled circle always contains its center pixel, for every radius.
pub proof fn lemma_filled_circle_contains_center(c: (int, int), r: int)
    requires
        0 <= c.0 <= u32::MAX,
        0 <= c.1 <= u32::MAX,
        0 <= r,
    ensures
        filled_points(c, r).contains(c),
{
    let pairs = circle_pairs(r);
    assert(pairs.len() > 0 && pairs[0] == (0int, r));
    let q = quad(c, (0, r));
    let rest = filled_rec(c, pairs.drop_first());
    assert(filled_points(c, r) == q + rest);
    let s1 = segment_points(sat_pt(c, 0, r), sat_pt(c, 0, r));
    let a = sat_pt(c, -r, 0);
    let b = sat_pt(c, r, 0);
    assert(a.1 == c.1 && b.1 == c.1);
    assert(a.0 <= c.0 <= b.0);
    crate::line::lemma_horizontal_segment(a, b, c.0);
    let s3 = segment_points(a, b);
    assert(s3.contains((c.0, c.1)));
    let w = choose|w: int| 0 <= w < s3.len() && s3[w] == (c.0, c.1);
    let sa = segment_points(sat_pt(c, -0, r), sat_pt(c, 0, r));
    let sb = segment_points(sat_pt(c, -0, -r), sat_pt(c, 0, -r));
    assert(q == sa + sb + s3 + segment_points(sat_pt(c, -r, -0), sat_pt(c, r, -0)));
    assert(q[sa.len() + sb.len() + w] == (c.0, c.1));
    assert(filled_points(c, r)[sa.len() + sb.len() + w] == (c.0, c.1));
    assert((c.0, c.1) == c);
    assert(filled_points(c, r).contains(c));
}


/// Every pair the midpoint recursion emits from a state satisfying the
/// decision-variable relation stays within squared distance `r*r + 3*r` of
/// the origin.
proof fn lemma_pairs_rec_dist(x: int, y: int, d: int, r: int)
    requires
        0 <= x,
        y <= r,
        d == x * x + y * y + y + 2 - r * r - 2 * r,
        d <= 2 * x + 1,
    ensures
        forall|k: int|
            0 <= k < pairs_rec(x, y, d).len() ==> (#[trigger] pairs_rec(x, y, d)[k]).0
                * pairs_rec(x, y, d)[k].0 + pairs_rec(x, y, d)[k].1 * pairs_rec(x, y, d)[k].1
                <= r * r + 3 * r,
    decreases y - x + 2,
{
    if x > y {
    } else {
        let s = pairs_rec(x, y, d);
        assert(x * x + y * y <= r * r + 3 * r);
        if d < 0 {
            let d2 = d + 2 * x + 1;
            assert((x + 1) * (x + 1) == x * x + 2 * x + 1) by (nonlinear_arith);
            let tail = pairs_rec(x + 1, y, d2);
            lemma_pairs_rec_dist(x + 1, y, d2, r);
            assert forall|k: int|
                0 <= k < s.len() implies (#[trigger] s[k]).0 * s[k].0 + s[k].1 * s[k].1 <= r * r
                + 3 * r by {
                if k > 0 {
                    assert(s[k] == tail[k - 1]);
                }
            }
        } else {
            let d2 = d + 2 * (x - y) + 1;
            assert((x + 1) * (x + 1) == x * x + 2 * x + 1) by (nonlinear_arith);
            assert((y - 1) * (y - 1) == y * y - 2 * y + 1) by (nonlinear_arith);
            let tail = pairs_rec(x + 1, y - 1, d2);
            lemma_pairs_rec_dist(x + 1, y - 1, d2, r);
            assert forall|k: int|
                0 <= k < s.len() implies (#[trigger] s[k]).0 * s[k].0 + s[k].1 * s[k].1 <= r * r
                + 3 * r by {
                if k > 0 {
                    assert(s[k] == tail[k - 1]);
                }
            }
        }
    }
}

/// Every octant pair of the circle of radius `r` lies within squared
/// distance `r*r + 3*r` of the center, for every radius.
proof fn lemma_circle_pairs_dist(r: int)
    requires
        0 <= r,
    ensures
        forall|k: int|
            0 <= k < circle_pairs(r).len() ==> (#[trigger] circle_pairs(r)[k]).0 * circle_pairs(
                r,
            )[k].0 + circle_pairs(r)[k].1 * circle_pairs(r)[k].1 <= r * r + 3 * r,
{
    if r >= 2 {
        assert(circle_init_d(r) == 0 * 0 + r * r + r + 2 - r * r - 2 * r) by (nonlinear_arith)
            requires
                r >= 2,
        ;
        lemma_pairs_rec_dist(0, r, circle_init_d(r), r);
    } else if r == 0 {
        assert(pairs_rec(1, -1, 2) == Seq::<(int, int)>::empty());
        assert(circle_pairs(0) == seq![(0int, 0int)] + pairs_rec(1, -1, 2));
    } else {
        assert(pairs_rec(1, 0, -1) == Seq::<(int, int)>::empty());
        assert(circle_pairs(1) == seq![(0int, 1int)] + pairs_rec(1, 0, -1));
    }
}

/// Every pixel one octant pair contributes to the filled circle lies within
/// squared distance `r*r + 3*r` of the center.
proof fn lemma_quad_in_disk(c: (int, int), p: (int, int), r: int)
    requires
        0 <= c.0 <= u32::MAX,
        0 <= c.1 <= u32::MAX,
        0 <= p.0 <= p.1,
        p.1 <= r,
        p.0 * p.0 + p.1 * p.1 <= r * r + 3 * r,
    ensures
        forall|q: (int, int)|
            #[trigger] quad(c, p).contains(q) ==> (q.0 - c.0) * (q.0 - c.0) + (q.1 - c.1) * (q.1
                - c.1) <= r * r + 3 * r,
{
    let x = p.0;
    let y = p.1;
    let s1 = segment_points(sat_pt(c, -x, y), sat_pt(c, x, y));
    let s2 = segment_points(sat_pt(c, -x, -y), sat_pt(c, x, -y));
    let s3 = segment_points(sat_pt(c, -y, x), sat_pt(c, y, x));
    let s4 = segment_points(sat_pt(c, -y, -x), sat_pt(c, y, -x));
    crate::line::lemma_segment_in_box(sat_pt(c, -x, y), sat_pt(c, x, y));
    crate::line::lemma_segment_in_box(sat_pt(c, -x, -y), sat_pt(c, x, -y));
    crate::line::lemma_segment_in_box(sat_pt(c, -y, x), sat_pt(c, y, x));
    crate::line::lemma_segment_in_box(sat_pt(c, -y, -x), sat_pt(c, y, -x));
    assert forall|q: (int, int)|
        #[trigger] quad(c, p).contains(q) implies (q.0 - c.0) * (q.0 - c.0) + (q.1 - c.1) * (q.1
        - c.1) <= r * r + 3 * r by {
        lemma_concat_contains(s1 + s2 + s3, s4, q);
        lemma_concat_contains(s1 + s2, s3, q);
        lemma_concat_contains(s1, s2, q);
        let (dx, dy) = if s1.contains(q) || s2.contains(q) {
            (x, y)
        } else {
            (y, x)
        };
        assert(c.0 - dx <= q.0 <= c.0 + dx && c.1 - dy <= q.1 <= c.1 + dy);
        assert((q.0 - c.0) * (q.0 - c.0) <= dx * dx) by (nonlinear_arith)
            requires
                -dx <= q.0 - c.0 <= dx,
        ;
        assert((q.1 - c.1) * (q.1 - c.1) <= dy * dy) by (nonlinear_arith)
            requires
                -dy <= q.1 - c.1 <= dy,
        ;
    }
}

proof fn lemma_filled_rec_in_disk(c: (int, int), pairs: Seq<(int, int)>, r: int)
    requires
        0 <= r,
        0 <= c.0 <= u32::MAX,
        0 <= c.1 <= u32::MAX,
        forall|k: int|
            0 <= k < pairs.len() ==> 0 <= (#[trigger] pairs[k]).0 && pairs[k].0 <= pairs[k].1
                && pairs[k].1 <= r,
        forall|k: int|
            0 <= k < pairs.len() ==> (#[trigger] pairs[k]).0 * pairs[k].0 + pairs[k].1
                * pairs[k].1 <= r * r + 3 * r,
    ensures
        forall|q: (int, int)|
            #[trigger] filled_rec(c, pairs).contains(q) ==> (q.0 - c.0) * (q.0 - c.0) + (q.1
                - c.1) * (q.1 - c.1) <= r * r + 3 * r,
    decreases pairs.len(),
{
    if pairs.len() == 0 {
    } else {
        let p = pairs[0];
        let head = quad(c, p);
        let rest = filled_rec(c, pairs.drop_first());
        assert(filled_rec(c, pairs) == head + rest);
        assert(forall|k: int|
            0 <= k < pairs.drop_first().len() ==> pairs.drop_first()[k] == pairs[k + 1]);
        lemma_filled_rec_in_disk(c, pairs.drop_first(), r);
        lemma_quad_in_disk(c, p, r);
        assert forall|q: (int, int)|
            #[trigger] filled_rec(c, pairs).contains(q) implies (q.0 - c.0) * (q.0 - c.0) + (q.1
            - c.1) * (q.1 - c.1) <= r * r + 3 * r by {
            lemma_concat_contains(head, rest, q);
        }
    }
}

/// Every pixel of the filled circle lies within squared distance
/// `r*r + 3*r` of the center, that is, strictly inside radius `r + 3/2`.
/// (The midpoint variant used here can emit boundary points just beyond
/// `r + 1/2`: for radius 5 the offset `(4, 4)` is produced, whose squared
/// distance 32 exceeds `5*5 + 5`.)
pub proof fn lemma_filled_circle_in_disk(c: (int, int), r: int)
    requires
        0 <= r,
        0 <= c.0 <= u32::MAX,
        0 <= c.1 <= u32::MAX,
    ensures
        forall|q: (int, int)|
            #[trigger] filled_points(c, r).contains(q) ==> (q.0 - c.0) * (q.0 - c.0) + (q.1
                - c.1) * (q.1 - c.1) <= r * r + 3 * r,
{
    lemma_pairs_rec_bounds(0, r, circle_init_d(r));
    lemma_circle_pairs_dist(r);
    lemma_filled_rec_in_disk(c, circle_pairs(r), r);
}

/// A circle rasterized as its boundary only.
pub struct HollowCircle(pub Circle);

impl Drawable for HollowCircle {
    open spec fn spec_pixels(&self) -> Seq<(int, int)> {
        hollow_points(self.0.center@, self.0.radius as int)
    }

    fn pixels(&self) -> (r: Vec<Pixel>)
        ensures
            pixel_views(r@) == self.spec_pixels(),
    {
        circle_pixels(&self.0, false)
    }
}

/// A circle rasterized with its interior scan-filled.
pub struct FilledCircle(pub Circle);

impl Drawable for FilledCircle {
    open spec fn spec_pixels(&self) -> Seq<(int, int)> {
        filled_points(self.0.center@, self.0.radius as int)
    }

    fn pixels(&self) -> (r: Vec<Pixel>)
        ensures
            pixel_views(r@) == self.spec_pixels(),
    {
        circle_pixels(&self.0, true)
    }
}

} // verus!
