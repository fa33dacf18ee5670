//! Integer points and rectangles on the tile grid.

use vstd::prelude::*;

verus! {

/// A position on the tile grid.
#[derive(Copy, Clone, Debug, PartialEq, Eq, Structural, Hash)]
pub struct Point {
    pub x: i32,
    pub y: i32,
}

/// Two points are adjacent when they differ by one step in exactly one of the
/// four cardinal directions.
pub open spec fn adjacent(a: Point, b: Point) -> bool {
    ||| a.y == b.y && (a.x - b.x == 1 || b.x - a.x == 1)
    ||| a.x == b.x && (a.y - b.y == 1 || b.y - a.y == 1)
}

/// `a` comes before `b` when the grid is read row by row.
pub open spec fn reads_before(a: Point, b: Point) -> bool {
    a.y < b.y || (a.y == b.y && a.x < b.x)
}

/// The square of the Euclidean distance between two points, in tiles.
pub open spec fn distance_squared(a: Point, b: Point) -> int {
    (a.x - b.x) * (a.x - b.x) + (a.y - b.y) * (a.y - b.y)
}

/// How far apart two coordinates are.
fn span(a: i32, b: i32) -> (d: u64)
    ensures
        d == a - b || d == b - a,
        d <= 0xffff_ffff,
{
    if a >= b {
        (a as i64 - b as i64) as u64
    } else {
        (b as i64 - a as i64) as u64
    }
}

impl Point {
    /// The point `(x, y)`.
    pub fn new(x: i32, y: i32) -> (p: Point)
        ensures
            p.x == x,
            p.y == y,
    {
        Point { x, y }
    }

    /// The origin.
    pub fn zero() -> (p: Point)
        ensures
            p.x == 0,
            p.y == 0,
    {
        Point { x: 0, y: 0 }
    }

    /// The square of the Euclidean distance to `other`, in tiles.
    pub fn distance_squared(&self, other: Point) -> (d: u128)
        ensures
            d == distance_squared(*self, other),
    {
        let dx: u128 = span(self.x, other.x) as u128;
        let dy: u128 = span(self.y, other.y) as u128;
        assert(dx * dx <= 0xffff_ffff * 0xffff_ffff) by (nonlinear_arith)
            requires
                0 <= dx <= 0xffff_ffff,
        ;
        assert(dy * dy <= 0xffff_ffff * 0xffff_ffff) by (nonlinear_arith)
            requires
                0 <= dy <= 0xffff_ffff,
        ;
        assert(dx * dx == (self.x - other.x) * (self.x - other.x)) by (nonlinear_arith)
            requires
                dx == self.x - other.x || dx == other.x - self.x,
        ;
        assert(dy * dy == (self.y - other.y) * (self.y - other.y)) by (nonlinear_arith)
            requires
                dy == self.y - other.y || dy == other.y - self.y,
        ;
        dx * dx + dy * dy
    }
}

/// An axis-aligned rectangle from `(x1, y1)` to `(x2, y2)`.
#[derive(Copy, Clone, Debug, PartialEq, Eq, Structural)]
pub struct Rect {
    pub x1: i32,
    pub x2: i32,
    pub y1: i32,
    pub y2: i32,
}

/// Half of `sum`, rounded towards zero.
pub open spec fn half(sum: int) -> int {
    if sum >= 0 {
        sum / 2
    } else {
        -((-sum) / 2)
    }
}

impl Rect {
    /// The two rectangles share a point, their borders included.
    pub open spec fn intersects(self, other: Rect) -> bool {
        self.x1 <= other.x2 && self.x2 >= other.x1 && self.y1 <= other.y2 && self.y2 >= other.y1
    }

    /// The point half way between the corners.
    pub open spec fn center_point(self) -> Point {
        Point { x: half(self.x1 + self.x2) as i32, y: half(self.y1 + self.y2) as i32 }
    }

    /// The point lies inside the rectangle, the far borders excluded.
    pub open spec fn covers(self, p: Point) -> bool {
        self.x1 <= p.x < self.x2 && self.y1 <= p.y < self.y2
    }

    /// The far corner can be computed.
    pub open spec fn fits(x: i32, y: i32, w: i32, h: i32) -> bool {
        i32::MIN <= x + w <= i32::MAX && i32::MIN <= y + h <= i32::MAX
    }

    /// The sums of opposite coordinates can be computed.
    pub open spec fn has_center(self) -> bool {
        i32::MIN <= self.x1 + self.x2 <= i32::MAX && i32::MIN <= self.y1 + self.y2 <= i32::MAX
    }

    /// The rectangle with the corner `(x, y)` and the given width and height.
    pub fn with_size(x: i32, y: i32, w: i32, h: i32) -> (rect: Rect)
        requires
            Self::fits(x, y, w, h),
        ensures
            rect == (Rect { x1: x, x2: (x + w) as i32, y1: y, y2: (y + h) as i32 }),
    {
        rect_with_size(x, y, w, h)
    }

    /// Whether the two rectangles share a point, their borders included.
    pub fn intersect(&self, other: &Rect) -> (overlap: bool)
        ensures
            overlap == self.intersects(*other),
    {
        rect_intersect(self, other)
    }

    /// The point half way between the corners.
    pub fn center(&self) -> (middle: Point)
        requires
            self.has_center(),
        ensures
            middle == self.center_point(),
    {
        rect_center(self)
    }
}

/// Builds a rectangle with `bracket_geometry`'s `Rect::with_size`, which
/// keeps the corner and adds the width and the height to it for the far
/// corner.
#[verifier::external_body]
fn rect_with_size(x: i32, y: i32, w: i32, h: i32) -> (rect: Rect)
    requires
        Rect::fits(x, y, w, h),
    ensures
        rect == (Rect { x1: x, x2: (x + w) as i32, y1: y, y2: (y + h) as i32 }),
{
    let r = bracket_geometry::prelude::Rect::with_size(x, y, w, h);
    Rect { x1: r.x1, x2: r.x2, y1: r.y1, y2: r.y2 }
}

/// Asks `bracket_geometry`'s `Rect::intersect`, which compares the borders of
/// the two rectangles in both directions.
#[verifier::external_body]
fn rect_intersect(a: &Rect, b: &Rect) -> (overlap: bool)
    ensures
        overlap == a.intersects(*b),
{
    let ra = bracket_geometry::prelude::Rect { x1: a.x1, x2: a.x2, y1: a.y1, y2: a.y2 };
    let rb = bracket_geometry::prelude::Rect { x1: b.x1, x2: b.x2, y1: b.y1, y2: b.y2 };
    ra.intersect(&rb)
}

/// Asks `bracket_geometry`'s `Rect::center`, which halves the sums of the
/// opposite coordinates with integer division.
#[verifier::external_body]
fn rect_center(rect: &Rect) -> (middle: Point)
    requires
        rect.has_center(),
    ensures
        middle == rect.center_point(),
{
    let r = bracket_geometry::prelude::Rect { x1: rect.x1, x2: rect.x2, y1: rect.y1, y2: rect.y2 };
    let c = r.center();
    Point { x: c.x, y: c.y }
}

} // verus!
