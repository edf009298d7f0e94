use vstd::prelude::*;

verus! {

/// A 2D pixel coordinate: an unsigned x/y pair, copied by value.
///
/// All coordinate arithmetic saturates: an offset can never wrap an axis
/// around, it clamps at `0` on the low end and at `u32::MAX` on the high end.
#[derive(Clone, Copy, Debug, PartialEq, Eq, Structural)]
pub struct Pixel(pub u32, pub u32);

/// Clamps a mathematical coordinate into the representable range of an axis.
pub open spec fn sat_coord(v: int) -> int {
    if v < 0 {
        0
    } else if v > u32::MAX {
        u32::MAX as int
    } else {
        v
    }
}

/// A point offset by `(dx, dy)`, each axis clamped into the axis range.
pub open spec fn sat_pt(c: (int, int), dx: int, dy: int) -> (int, int) {
    (sat_coord(c.0 + dx), sat_coord(c.1 + dy))
}

/// The coordinates of a pixel sequence, as mathematical points.
pub open spec fn pixel_views(v: Seq<Pixel>) -> Seq<(int, int)> {
    v.map_values(|p: Pixel| p@)
}

impl View for Pixel {
    type V = (int, int);

    open spec fn view(&self) -> (int, int) {
        (self.0 as int, self.1 as int)
    }
}

impl Pixel {
    pub fn x(&self) -> (r: u32)
        ensures
            r == self@.0,
    {
        self.0
    }

    pub fn y(&self) -> (r: u32)
        ensures
            r == self@.1,
    {
        self.1
    }

    /// Componentwise addition, saturating at the top of the axis range.
    pub fn add(self, rhs: Pixel) -> (r: Pixel)
        ensures
            r@ == (sat_coord(self@.0 + rhs@.0), sat_coord(self@.1 + rhs@.1)),
    {
        Pixel(self.0.saturating_add(rhs.0), self.1.saturating_add(rhs.1))
    }

    /// Componentwise subtraction, saturating at zero.
    pub fn sub(self, rhs: Pixel) -> (r: Pixel)
        ensures
            r@ == (sat_coord(self@.0 - rhs@.0), sat_coord(self@.1 - rhs@.1)),
    {
        let x = match self.0.checked_sub(rhs.0) {
            Some(v) => v,
            None => 0,
        };
        let y = match self.1.checked_sub(rhs.1) {
            Some(v) => v,
            None => 0,
        };
        Pixel(x, y)
    }

    /// Adds a signed offset to each axis, clamping into the axis range.
    pub fn add_offset(self, dx: i64, dy: i64) -> (r: Pixel)
        ensures
            r@ == (sat_coord(self@.0 + dx), sat_coord(self@.1 + dy)),
    {
        Pixel(sat_add_i64(self.0, dx), sat_add_i64(self.1, dy))
    }
}

/// Adds a signed offset to one unsigned axis coordinate, clamping the result
/// into the representable range.
pub fn sat_add_i64(base: u32, delta: i64) -> (r: u32)
    ensures
        r == sat_coord(base + delta),
{
    match (base as i64).checked_add(delta) {
        Some(sum) => if sum < 0 {
            0
        } else if sum > u32::MAX as i64 {
            u32::MAX
        } else {
            sum as u32
        },
        None => u32::MAX,
    }
}

impl From<(u32, u32)> for Pixel {
    fn from(values: (u32, u32)) -> (r: Pixel)
        ensures
            r == (Pixel(values.0, values.1)),
    {
        Pixel(values.0, values.1)
    }
}

impl vstd::std_specs::convert::FromSpecImpl<(u32, u32)> for Pixel {
    open spec fn obeys_from_spec() -> bool {
        true
    }

    open spec fn from_spec(values: (u32, u32)) -> Pixel {
        Pixel(values.0, values.1)
    }
}

} // verus!
