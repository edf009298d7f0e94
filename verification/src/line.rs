use vstd::prelude::*;
use crate::draw::Drawable;
use crate::pixel::{pixel_views, Pixel};

verus! {

pub open spec fn abs_i(a: int) -> int {
    if a < 0 {
        -a
    } else {
        a
    }
}

pub open spec fn sign_i(a: int) -> int {
    if a > 0 {
        1
    } else if a < 0 {
        -1
    } else {
        0
    }
}

/// One run of Bresenham stepping inside the first octant, starting at offset
/// `(i, j)` with error term `err`, taking `rem` further primary-axis steps:
/// the primary offset advances every step, the secondary offset advances
/// exactly when the accumulated error has crossed zero.
pub open spec fn octant_rec(i: int, j: int, da: int, db: int, err: int, rem: nat) -> Seq<
    (int, int),
>
    decreases rem,
{
    if rem == 0 {
        seq![(i, j)]
    } else if err > 0 {
        seq![(i, j)] + octant_rec(i + 1, j + 1, da, db, err + 2 * db - 2 * da, (rem - 1) as nat)
    } else {
        seq![(i, j)] + octant_rec(i + 1, j, da, db, err + 2 * db, (rem - 1) as nat)
    }
}

/// The `da + 1` offset pairs Bresenham produces for primary-axis delta `da`
/// and secondary-axis delta `db`, first component the primary offset.
pub open spec fn octant_points(da: int, db: int) -> Seq<(int, int)>
    recommends
        0 <= db <= da,
{
    octant_rec(0, 0, da, db, 2 * db - da, da as nat)
}

/// The pixels of the segment from `a` to `b`, in traversal order: the octant
/// offsets of the dominant axis, reflected by the sign of each delta.
pub open spec fn directed_points(a: (int, int), b: (int, int)) -> Seq<(int, int)> {
    let sx = sign_i(b.0 - a.0);
    let sy = sign_i(b.1 - a.1);
    let adx = abs_i(b.0 - a.0);
    let ady = abs_i(b.1 - a.1);
    if adx >= ady {
        octant_points(adx, ady).map_values(|o: (int, int)| (a.0 + sx * o.0, a.1 + sy * o.1))
    } else {
        octant_points(ady, adx).map_values(|o: (int, int)| (a.0 + sx * o.1, a.1 + sy * o.0))
    }
}

pub open spec fn lex_le(a: (int, int), b: (int, int)) -> bool {
    a.0 < b.0 || (a.0 == b.0 && a.1 <= b.1)
}

/// The pixels of the segment between `a` and `b`, inclusive of both
/// endpoints, listed from `a` to `b`. The offsets are always generated from
/// the lexicographically smaller endpoint, so an undirected segment yields
/// the same pixels whichever endpoint comes first, in reversed order.
pub open spec fn segment_points(a: (int, int), b: (int, int)) -> Seq<(int, int)> {
    if lex_le(a, b) {
        directed_points(a, b)
    } else {
        directed_points(b, a).reverse()
    }
}

/// A straight segment between two pixels.
pub struct Line {
    pub from: Pixel,
    pub to: Pixel,
}

pub(crate) proof fn lemma_mul_sign(s: int, v: int)
    ensures
        s == 1 ==> s * v == v,
        s == -1 ==> s * v == -v,
        s == 0 ==> s * v == 0,
{
    assert(1 * v == v && (-1) * v == -v && 0 * v == 0) by (nonlinear_arith);
    if s == 1 {
        assert(s * v == 1 * v);
    } else if s == -1 {
        assert(s * v == (-1) * v);
    } else if s == 0 {
        assert(s * v == 0 * v);
    }
}

proof fn lemma_err_pos_j_lt_db(i: int, j: int, da: int, db: int, err: int)
    requires
        0 <= db <= da,
        0 <= i < da,
        0 <= j <= db,
        err == 2 * db - da + 2 * i * db - 2 * j * da,
        err > 0,
    ensures
        j < db,
{
    if j == db {
        assert(err == 2 * db * (1 + i - da) - da) by (nonlinear_arith)
            requires
                err == 2 * db - da + 2 * i * db - 2 * db * da,
        ;
        assert(2 * db * (1 + i - da) <= 0) by (nonlinear_arith)
            requires
                db >= 0,
                1 + i - da <= 0,
        ;
        assert(false);
    }
}

/// The Bresenham offsets for `db <= da`, executed: the returned pairs are
/// exactly `octant_points(da, db)`, and stay inside the `da` by `db` box.
#[verifier::loop_isolation(false)]
fn octant_steps(da: u32, db: u32) -> (r: Vec<(u32, u32)>)
    requires
        db <= da,
    ensures
        r@.map_values(|o: (u32, u32)| (o.0 as int, o.1 as int)) == octant_points(
            da as int,
            db as int,
        ),
        forall|k: int| 0 <= k < r@.len() ==> r@[k].0 <= da && r@[k].1 <= db,
{
    let ghost full = octant_points(da as int, db as int);
    let ghost cast_off = |o: (u32, u32)| (o.0 as int, o.1 as int);
    let mut out: Vec<(u32, u32)> = Vec::new();
    let mut i: u32 = 0;
    let mut j: u32 = 0;
    let mut err: i64 = 2 * (db as i64) - (da as i64);
    while i < da
        invariant
            db <= da,
            i <= da,
            j <= db,
            i as int == out@.len(),
            err == 2 * (db as int) - da + 2 * (i as int) * (db as int) - 2 * (j as int) * (
            da as int),
            da > 0 ==> 2 * (db as int) - 2 * (da as int) < err,
            err <= 2 * (db as int),
            out@.map_values(cast_off) + octant_rec(
                i as int,
                j as int,
                da as int,
                db as int,
                err as int,
                (da - i) as nat,
            ) == full,
            forall|k: int| 0 <= k < out@.len() ==> out@[k].0 <= da && out@[k].1 <= db,
        decreases da - i,
    {
        let ghost pre = out@;
        let ghost i0 = i as int;
        let ghost j0 = j as int;
        let ghost rec_pre = octant_rec(
            i as int,
            j as int,
            da as int,
            db as int,
            err as int,
            (da - i) as nat,
        );
        out.push((i, j));
        proof {
            assert(out@.map_values(cast_off) =~= pre.map_values(cast_off).push(
                (i as int, j as int),
            ));
        }
        if err > 0 {
            proof {
                lemma_err_pos_j_lt_db(i as int, j as int, da as int, db as int, err as int);
                assert(2 * (db as int) - da + 2 * ((i as int) + 1) * (db as int) - 2 * ((
                j as int) + 1) * (da as int) == err + 2 * (db as int) - 2 * (da as int))
                    by (nonlinear_arith)
                    requires
                        err == 2 * (db as int) - da + 2 * (i as int) * (db as int) - 2 * (
                        j as int) * (da as int),
                ;
            }
            j = j + 1;
            err = err + 2 * (db as i64) - 2 * (da as i64);
        } else {
            proof {
                assert(2 * (db as int) - da + 2 * ((i as int) + 1) * (db as int) - 2 * (
                j as int) * (da as int) == err + 2 * (db as int)) by (nonlinear_arith)
                    requires
                        err == 2 * (db as int) - da + 2 * (i as int) * (db as int) - 2 * (
                        j as int) * (da as int),
                ;
            }
            err = err + 2 * (db as i64);
        }
        i = i + 1;
        proof {
            let rec_post = octant_rec(
                i as int,
                j as int,
                da as int,
                db as int,
                err as int,
                (da - i) as nat,
            );
            assert(rec_pre == seq![(i0, j0)] + rec_post);
            assert(out@.map_values(cast_off) + rec_post =~= pre.map_values(cast_off) + rec_pre);
        }
    }
    out.push((i, j));
    proof {
        assert(octant_rec(i as int, j as int, da as int, db as int, err as int, 0nat) == seq![
            (i as int, j as int),
        ]);
        assert(out@.map_values(cast_off) =~= full);
    }
    out
}

fn lex_le_exec(a: Pixel, b: Pixel) -> (r: bool)
    ensures
        r == lex_le(a@, b@),
{
    a.0 < b.0 || (a.0 == b.0 && a.1 <= b.1)
}

/// The pixels of the segment from `a` to `b`, in traversal order.
#[verifier::loop_isolation(false)]
fn directed_pixels(a: Pixel, b: Pixel) -> (r: Vec<Pixel>)
    ensures
        pixel_views(r@) == directed_points(a@, b@),
{
    let ax = a.0 as i64;
    let ay = a.1 as i64;
    let bx = b.0 as i64;
    let by_ = b.1 as i64;
    let sx: i64 = if bx > ax {
        1
    } else if bx < ax {
        -1
    } else {
        0
    };
    let sy: i64 = if by_ > ay {
        1
    } else if by_ < ay {
        -1
    } else {
        0
    };
    let adx: u32 = if bx >= ax {
        (bx - ax) as u32
    } else {
        (ax - bx) as u32
    };
    let ady: u32 = if by_ >= ay {
        (by_ - ay) as u32
    } else {
        (ay - by_) as u32
    };
    let ghost target = directed_points(a@, b@);
    let swap_axes = adx < ady;
    let offs = if swap_axes {
        octant_steps(ady, adx)
    } else {
        octant_steps(adx, ady)
    };
    let ghost f = |o: (int, int)|
        if swap_axes {
            (a@.0 + sx * o.1, a@.1 + sy * o.0)
        } else {
            (a@.0 + sx * o.0, a@.1 + sy * o.1)
        };
    let ghost cast_off = |o: (u32, u32)| (o.0 as int, o.1 as int);
    proof {
        assert(target =~= offs@.map_values(cast_off).map_values(f));
    }
    let mut out: Vec<Pixel> = Vec::new();
    let mut k: usize = 0;
    while k < offs.len()
        invariant
            out@.len() == k,
            k <= offs@.len(),
            pixel_views(out@) =~= offs@.map_values(cast_off).map_values(f).take(k as int),
            target == offs@.map_values(cast_off).map_values(f),
            forall|m: int|
                0 <= m < offs@.len() ==> (if swap_axes {
                    offs@[m].0 <= ady && offs@[m].1 <= adx
                } else {
                    offs@[m].0 <= adx && offs@[m].1 <= ady
                }),
            sx == sign_i(b@.0 - a@.0),
            sy == sign_i(b@.1 - a@.1),
            adx == abs_i(b@.0 - a@.0),
            ady == abs_i(b@.1 - a@.1),
            ax == a@.0 && ay == a@.1,
            swap_axes == (adx < ady),
        decreases offs@.len() - k,
    {
        let o = offs[k];
        let (po, so) = if swap_axes {
            (o.1, o.0)
        } else {
            (o.0, o.1)
        };
        proof {
            lemma_mul_sign(sx as int, po as int);
            lemma_mul_sign(sy as int, so as int);
        }
        let x: i64 = ax + sx * (po as i64);
        let y: i64 = ay + sy * (so as i64);
        proof {
            assert(0 <= x <= u32::MAX && x == f(cast_off(offs@[k as int])).0);
            assert(0 <= y <= u32::MAX && y == f(cast_off(offs@[k as int])).1);
        }
        let ghost pre = out@;
        out.push(Pixel(x as u32, y as u32));
        proof {
            assert(pixel_views(out@) =~= pixel_views(pre).push(Pixel(x as u32, y as u32)@));
            assert(offs@.map_values(cast_off).map_values(f).take(k + 1)
                =~= offs@.map_values(cast_off).map_values(f).take(k as int).push(
                f(cast_off(offs@[k as int])),
            ));
        }
        k = k + 1;
    }
    proof {
        assert(pixel_views(out@) =~= target);
    }
    out
}

/// Reverses the order of a pixel sequence.
#[verifier::loop_isolation(false)]
fn reverse_pixels(v: Vec<Pixel>) -> (r: Vec<Pixel>)
    ensures
        r@ == v@.reverse(),
{
    let mut out: Vec<Pixel> = Vec::new();
    let mut k: usize = v.len();
    while k > 0
        invariant
            k <= v@.len(),
            out@.len() == v@.len() - k,
            forall|m: int| 0 <= m < out@.len() ==> out@[m] == v@[v@.len() - 1 - m],
        decreases k,
    {
        k = k - 1;
        out.push(v[k]);
    }
    proof {
        assert(out@ =~= v@.reverse());
    }
    out
}

impl Drawable for Line {
    open spec fn spec_pixels(&self) -> Seq<(int, int)> {
        segment_points(self.from@, self.to@)
    }

    fn pixels(&self) -> (r: Vec<Pixel>)
        ensures
            pixel_views(r@) == self.spec_pixels(),
    {
        if lex_le_exec(self.from, self.to) {
            directed_pixels(self.from, self.to)
        } else {
            let v = directed_pixels(self.to, self.from);
            let r = reverse_pixels(v);
            proof {
                assert(pixel_views(r@) =~= directed_points(self.to@, self.from@).reverse());
            }
            r
        }
    }
}

/// On a degenerate secondary axis the error term never crosses zero, so the
/// offsets step the primary axis alone.
pub proof fn lemma_octant_horizontal(i: int, j: int, da: int, err: int, rem: nat)
    requires
        err <= 0,
    ensures
        octant_rec(i, j, da, 0, err, rem).len() == rem + 1,
        forall|k: int| 0 <= k <= rem ==> octant_rec(i, j, da, 0, err, rem)[k] == (i + k, j),
    decreases rem,
{
    if rem == 0 {
    } else {
        lemma_octant_horizontal(i + 1, j, da, err, (rem - 1) as nat);
        assert(octant_rec(i, j, da, 0, err, rem) == seq![(i, j)] + octant_rec(
            i + 1,
            j,
            da,
            0,
            err,
            (rem - 1) as nat,
        ));
        assert forall|k: int| 0 <= k <= rem implies octant_rec(i, j, da, 0, err, rem)[k] == (
        i + k,
        j,
        ) by {
            if k > 0 {
                assert(octant_rec(i, j, da, 0, err, rem)[k] == octant_rec(
                    i + 1,
                    j,
                    da,
                    0,
                    err,
                    (rem - 1) as nat,
                )[k - 1]);
            }
        }
    }
}

/// A horizontal segment covers exactly the columns between its endpoints: it
/// contains `(t, a.1)` for every `t` between the two x coordinates.
pub proof fn lemma_horizontal_segment(a: (int, int), b: (int, int), t: int)
    requires
        a.1 == b.1,
        a.0 <= b.0,
        a.0 <= t <= b.0,
    ensures
        segment_points(a, b).contains((t, a.1)),
{
    let adx = b.0 - a.0;
    let sx = sign_i(adx);
    let k = t - a.0;
    lemma_octant_horizontal(0, 0, adx, -adx, adx as nat);
    assert(octant_points(adx, 0)[k] == (k, 0int));
    lemma_mul_sign(sx, k);
    lemma_mul_sign(sign_i(0), 0);
    if adx == 0 {
        assert(directed_points(a, b)[k] == (a.0, a.1));
    } else {
        assert(sx == 1);
        assert(directed_points(a, b)[k] == (a.0 + k, a.1));
    }
    assert(directed_points(a, b)[k] == (t, a.1));
    assert(segment_points(a, b).contains((t, a.1)));
}


/// Each Bresenham run yields one point per primary step plus the start.
proof fn lemma_octant_rec_len(i: int, j: int, da: int, db: int, err: int, rem: nat)
    ensures
        octant_rec(i, j, da, db, err, rem).len() == rem + 1,
    decreases rem,
{
    if rem == 0 {
    } else if err > 0 {
        lemma_octant_rec_len(i + 1, j + 1, da, db, err + 2 * db - 2 * da, (rem - 1) as nat);
    } else {
        lemma_octant_rec_len(i + 1, j, da, db, err + 2 * db, (rem - 1) as nat);
    }
}

/// From a state whose error term satisfies the Bresenham window invariant,
/// the run ends exactly at offset `(da, db)`: the secondary axis has been
/// stepped `db` times by the time the primary axis has been stepped `da`
/// times.
proof fn lemma_octant_rec_last(i: int, j: int, da: int, db: int, err: int, rem: nat)
    requires
        0 <= db <= da,
        0 <= i,
        i + rem == da,
        0 <= j <= db,
        err == 2 * db - da + 2 * i * db - 2 * j * da,
        da > 0 ==> 2 * db - 2 * da < err,
        err <= 2 * db,
    ensures
        octant_rec(i, j, da, db, err, rem).last() == (da, db),
    decreases rem,
{
    let s = octant_rec(i, j, da, db, err, rem);
    if rem == 0 {
        if da == 0 {
            assert(j == 0 && db == 0);
        } else {
            if j < db {
                assert(2 * j * da <= 2 * (db - 1) * da) by (nonlinear_arith)
                    requires
                        j <= db - 1,
                        da >= 0,
                ;
                assert(2 * (db - 1) * da == 2 * db * da - 2 * da) by (nonlinear_arith);
                assert(2 * i * db == 2 * db * da) by (nonlinear_arith)
                    requires
                        i == da,
                ;
                assert(err >= 2 * db + da);
                assert(false);
            }
            assert(j == db);
        }
        assert(s.last() == (da, db));
    } else if err > 0 {
        lemma_err_pos_j_lt_db(i, j, da, db, err);
        assert(2 * db - da + 2 * (i + 1) * db - 2 * (j + 1) * da == err + 2 * db - 2 * da)
            by (nonlinear_arith)
            requires
                err == 2 * db - da + 2 * i * db - 2 * j * da,
        ;
        lemma_octant_rec_last(i + 1, j + 1, da, db, err + 2 * db - 2 * da, (rem - 1) as nat);
        lemma_octant_rec_len(i + 1, j + 1, da, db, err + 2 * db - 2 * da, (rem - 1) as nat);
        assert(s.last() == octant_rec(
            i + 1,
            j + 1,
            da,
            db,
            err + 2 * db - 2 * da,
            (rem - 1) as nat,
        ).last());
    } else {
        assert(2 * db - da + 2 * (i + 1) * db - 2 * j * da == err + 2 * db) by (nonlinear_arith)
            requires
                err == 2 * db - da + 2 * i * db - 2 * j * da,
        ;
        lemma_octant_rec_last(i + 1, j, da, db, err + 2 * db, (rem - 1) as nat);
        lemma_octant_rec_len(i + 1, j, da, db, err + 2 * db, (rem - 1) as nat);
        assert(s.last() == octant_rec(i + 1, j, da, db, err + 2 * db, (rem - 1) as nat).last());
    }
}

/// The segment between two points holds exactly `max(|dx|, |dy|) + 1`
/// pixels, and both endpoints are among them: the first and last pixel are
/// the two endpoints themselves.
pub proof fn lemma_segment_len_and_endpoints(a: (int, int), b: (int, int))
    ensures
        segment_points(a, b).len() == (if abs_i(b.0 - a.0) >= abs_i(b.1 - a.1) {
            abs_i(b.0 - a.0)
        } else {
            abs_i(b.1 - a.1)
        }) + 1,
        segment_points(a, b).first() == a,
        segment_points(a, b).last() == b,
{
    lemma_directed_len_and_endpoints(a, b);
    lemma_directed_len_and_endpoints(b, a);
    if !lex_le(a, b) {
        let d = directed_points(b, a);
        assert(segment_points(a, b) == d.reverse());
        assert(d.reverse().first() == d.last());
        assert(d.reverse().last() == d.first());
    }
}

proof fn lemma_directed_len_and_endpoints(a: (int, int), b: (int, int))
    ensures
        directed_points(a, b).len() == (if abs_i(b.0 - a.0) >= abs_i(b.1 - a.1) {
            abs_i(b.0 - a.0)
        } else {
            abs_i(b.1 - a.1)
        }) + 1,
        directed_points(a, b).first() == a,
        directed_points(a, b).last() == b,
{
    let sx = sign_i(b.0 - a.0);
    let sy = sign_i(b.1 - a.1);
    let adx = abs_i(b.0 - a.0);
    let ady = abs_i(b.1 - a.1);
    let da = if adx >= ady {
        adx
    } else {
        ady
    };
    let db = if adx >= ady {
        ady
    } else {
        adx
    };
    let oct = octant_points(da, db);
    lemma_octant_rec_len(0, 0, da, db, 2 * db - da, da as nat);
    lemma_octant_rec_last(0, 0, da, db, 2 * db - da, da as nat);
    assert(oct.first() == (0int, 0int));
    assert(oct.last() == (da, db));
    lemma_mul_sign(sx, 0);
    lemma_mul_sign(sy, 0);
    lemma_mul_sign(sx, adx);
    lemma_mul_sign(sy, ady);
    assert(sx * adx == b.0 - a.0);
    assert(sy * ady == b.1 - a.1);
    assert(directed_points(a, b).first() == (a.0 + sx * oct.first().0, a.1 + sy * oct.first().1)
        || directed_points(a, b).first() == (a.0 + sx * oct.first().1, a.1 + sy * oct.first().0));
    assert(directed_points(a, b).last() == b);
}



/// Membership in a concatenation is membership in either part.
pub(crate) proof fn lemma_concat_contains<A>(s: Seq<A>, t: Seq<A>, v: A)
    ensures
        (s + t).contains(v) <==> s.contains(v) || t.contains(v),
{
    if (s + t).contains(v) {
        let i = choose|i: int| 0 <= i < (s + t).len() && (s + t)[i] == v;
        if i < s.len() {
            assert(s[i] == v);
        } else {
            assert(t[i - s.len()] == v);
        }
    }
    if s.contains(v) {
        let i = choose|i: int| 0 <= i < s.len() && s[i] == v;
        assert((s + t)[i] == v);
    }
    if t.contains(v) {
        let i = choose|i: int| 0 <= i < t.len() && t[i] == v;
        assert((s + t)[s.len() + i] == v);
    }
}

pub open spec fn min_i(a: int, b: int) -> int {
    if a <= b {
        a
    } else {
        b
    }
}

pub open spec fn max_i(a: int, b: int) -> int {
    if a >= b {
        a
    } else {
        b
    }
}

/// Every offset of a Bresenham run stays inside the box it is aimed at:
/// primary offsets between the current and the final step count, secondary
/// offsets between the current value and `db`.
proof fn lemma_octant_rec_box(i: int, j: int, da: int, db: int, err: int, rem: nat)
    requires
        0 <= db <= da,
        0 <= i,
        i + rem == da,
        0 <= j <= db,
        err == 2 * db - da + 2 * i * db - 2 * j * da,
        da > 0 ==> 2 * db - 2 * da < err,
        err <= 2 * db,
    ensures
        forall|k: int|
            0 <= k < octant_rec(i, j, da, db, err, rem).len() ==> i <= (#[trigger] octant_rec(
                i,
                j,
                da,
                db,
                err,
                rem,
            )[k]).0 <= da && j <= octant_rec(i, j, da, db, err, rem)[k].1 <= db,
    decreases rem,
{
    let s = octant_rec(i, j, da, db, err, rem);
    if rem == 0 {
    } else if err > 0 {
        lemma_err_pos_j_lt_db(i, j, da, db, err);
        assert(2 * db - da + 2 * (i + 1) * db - 2 * (j + 1) * da == err + 2 * db - 2 * da)
            by (nonlinear_arith)
            requires
                err == 2 * db - da + 2 * i * db - 2 * j * da,
        ;
        let tail = octant_rec(i + 1, j + 1, da, db, err + 2 * db - 2 * da, (rem - 1) as nat);
        lemma_octant_rec_box(i + 1, j + 1, da, db, err + 2 * db - 2 * da, (rem - 1) as nat);
        assert forall|k: int|
            0 <= k < s.len() implies i <= (#[trigger] s[k]).0 <= da && j <= s[k].1 <= db by {
            if k > 0 {
                assert(s[k] == tail[k - 1]);
            }
        }
    } else {
        assert(2 * db - da + 2 * (i + 1) * db - 2 * j * da == err + 2 * db) by (nonlinear_arith)
            requires
                err == 2 * db - da + 2 * i * db - 2 * j * da,
        ;
        let tail = octant_rec(i + 1, j, da, db, err + 2 * db, (rem - 1) as nat);
        lemma_octant_rec_box(i + 1, j, da, db, err + 2 * db, (rem - 1) as nat);
        assert forall|k: int|
            0 <= k < s.len() implies i <= (#[trigger] s[k]).0 <= da && j <= s[k].1 <= db by {
            if k > 0 {
                assert(s[k] == tail[k - 1]);
            }
        }
    }
}

proof fn lemma_directed_in_box(a: (int, int), b: (int, int))
    ensures
        forall|k: int|
            0 <= k < directed_points(a, b).len() ==> min_i(a.0, b.0) <= (
            #[trigger] directed_points(a, b)[k]).0 <= max_i(a.0, b.0) && min_i(a.1, b.1)
                <= directed_points(a, b)[k].1 <= max_i(a.1, b.1),
{
    let sx = sign_i(b.0 - a.0);
    let sy = sign_i(b.1 - a.1);
    let adx = abs_i(b.0 - a.0);
    let ady = abs_i(b.1 - a.1);
    let da = max_i(adx, ady);
    let db = min_i(adx, ady);
    let oct = octant_points(da, db);
    lemma_octant_rec_box(0, 0, da, db, 2 * db - da, da as nat);
    assert forall|k: int|
        0 <= k < directed_points(a, b).len() implies min_i(a.0, b.0) <= (
    #[trigger] directed_points(a, b)[k]).0 <= max_i(a.0, b.0) && min_i(a.1, b.1)
        <= directed_points(a, b)[k].1 <= max_i(a.1, b.1) by {
        let o = oct[k];
        lemma_mul_sign(sx, o.0);
        lemma_mul_sign(sx, o.1);
        lemma_mul_sign(sy, o.0);
        lemma_mul_sign(sy, o.1);
    }
}

/// Every pixel of a segment lies inside the bounding box of its endpoints.
pub proof fn lemma_segment_in_box(a: (int, int), b: (int, int))
    ensures
        forall|k: int|
            0 <= k < segment_points(a, b).len() ==> min_i(a.0, b.0) <= (
            #[trigger] segment_points(a, b)[k]).0 <= max_i(a.0, b.0) && min_i(a.1, b.1)
                <= segment_points(a, b)[k].1 <= max_i(a.1, b.1),
{
    lemma_directed_in_box(a, b);
    lemma_directed_in_box(b, a);
    if !lex_le(a, b) {
        let d = directed_points(b, a);
        assert(segment_points(a, b) == d.reverse());
        assert(forall|k: int|
            0 <= k < d.reverse().len() ==> #[trigger] d.reverse()[k] == d[d.len() - 1 - k]);
    }
}

/// Rasterizing the same undirected segment from either endpoint yields the
/// same pixels: traversing it the other way exactly reverses the sequence,
/// so in particular both directions cover the same set of points.
pub proof fn lemma_line_symmetric(a: (int, int), b: (int, int))
    ensures
        segment_points(b, a) == segment_points(a, b).reverse(),
        segment_points(b, a).to_set() == segment_points(a, b).to_set(),
{
    if lex_le(a, b) && lex_le(b, a) {
        assert(a == b);
        assert(segment_points(a, b) == directed_points(a, b));
        assert(segment_points(b, a) == directed_points(a, b));
        lemma_reverse_self_single(directed_points(a, b));
    } else if lex_le(a, b) {
        assert(segment_points(b, a) == directed_points(a, b).reverse());
        assert(segment_points(a, b) == directed_points(a, b));
    } else {
        assert(segment_points(a, b) == directed_points(b, a).reverse());
        assert(segment_points(b, a) == directed_points(b, a));
        assert(directed_points(b, a).reverse().reverse() =~= directed_points(b, a));
    }
    lemma_reverse_same_set(segment_points(a, b));
}

/// A sequence of length one is its own reversal; `directed_points` of a
/// point with itself has length one.
proof fn lemma_reverse_self_single(s: Seq<(int, int)>)
    requires
        s.len() == 1,
    ensures
        s.reverse() == s,
{
    assert(s.reverse() =~= s);
}

proof fn lemma_reverse_same_set(s: Seq<(int, int)>)
    ensures
        s.reverse().to_set() == s.to_set(),
{
    assert forall|p: (int, int)| s.to_set().contains(p) implies s.reverse().to_set().contains(
        p,
    ) by {
        let k = choose|k: int| 0 <= k < s.len() && s[k] == p;
        assert(s.reverse()[s.len() - 1 - k] == p);
    }
    assert forall|p: (int, int)| s.reverse().to_set().contains(p) implies s.to_set().contains(
        p,
    ) by {
        let k = choose|k: int| 0 <= k < s.reverse().len() && s.reverse()[k] == p;
        assert(s[s.len() - 1 - k] == p);
    }
    assert(s.reverse().to_set() =~= s.to_set());
}

} // verus!
