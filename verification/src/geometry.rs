//! Points, sizes and rectangles in whole units.

use vstd::prelude::*;

verus! {

/// The value of `v` brought into the range of `i64`.
pub open spec fn clamp(v: int) -> int {
    if v < i64::MIN {
        i64::MIN as int
    } else if v > i64::MAX {
        i64::MAX as int
    } else {
        v
    }
}

/// The sum of two coordinates, held at the ends of the range.
pub fn saturating_sum(a: i64, b: i64) -> (r: i64)
    ensures
        r == clamp(a + b),
{
    if b >= 0 {
        if a > i64::MAX - b {
            i64::MAX
        } else {
            a + b
        }
    } else {
        if a < i64::MIN - b {
            i64::MIN
        } else {
            a + b
        }
    }
}

/// The difference of two coordinates, held at the ends of the range.
pub fn saturating_difference(a: i64, b: i64) -> (r: i64)
    ensures
        r == clamp(a - b),
{
    if b >= 0 {
        if a < i64::MIN + b {
            i64::MIN
        } else {
            a - b
        }
    } else {
        if a > i64::MAX + b {
            i64::MAX
        } else {
            a - b
        }
    }
}

/// A coordinate with its sign turned, held at the upper end of the range.
pub fn saturating_negation(a: i64) -> (r: i64)
    ensures
        r == clamp(-a),
{
    if a == i64::MIN {
        i64::MAX
    } else {
        -a
    }
}

/// A position, or a displacement between two positions.
#[derive(Clone, Copy, Debug, PartialEq, Eq, Structural)]
pub struct Point {
    pub x: i64,
    pub y: i64,
}

impl Point {
    /// This point moved by `by`.
    pub open spec fn plus(self, by: Point) -> Point {
        Point { x: clamp(self.x + by.x) as i64, y: clamp(self.y + by.y) as i64 }
    }

    /// This point as seen from `origin`.
    pub open spec fn minus(self, origin: Point) -> Point {
        Point { x: clamp(self.x - origin.x) as i64, y: clamp(self.y - origin.y) as i64 }
    }

    /// This point moved by `by`.
    pub fn offset_by(self, by: Point) -> (r: Point)
        ensures
            r == self.plus(by),
    {
        Point { x: saturating_sum(self.x, by.x), y: saturating_sum(self.y, by.y) }
    }

    /// This point as seen from `origin`.
    pub fn relative_to(self, origin: Point) -> (r: Point)
        ensures
            r == self.minus(origin),
    {
        Point {
            x: saturating_difference(self.x, origin.x),
            y: saturating_difference(self.y, origin.y),
        }
    }
}

/// The extent of a rectangle.
#[derive(Clone, Copy, Debug, PartialEq, Eq, Structural)]
pub struct Extent {
    pub width: i64,
    pub height: i64,
}

/// The rectangle that the layout solver gave a widget: where it lies in its
/// parent, and how large it is.
#[derive(Clone, Copy, Debug, PartialEq, Eq, Structural)]
pub struct Layout {
    pub size: Extent,
    pub location: Point,
}

impl Layout {
    /// The same rectangle moved by `offset`.
    pub open spec fn moved(self, offset: Point) -> Layout {
        Layout { size: self.size, location: self.location.plus(offset) }
    }

    /// Whether `local`, a position relative to the rectangle's corner, lies
    /// inside it. The edges belong to the rectangle.
    pub open spec fn holds_local(self, local: Point) -> bool {
        0 <= local.x <= self.size.width && 0 <= local.y <= self.size.height
    }

    /// Where `pos`, given in the parent's coordinates, lies relative to this
    /// rectangle's corner, if it lies inside the rectangle.
    pub open spec fn hit(self, pos: Point) -> Option<Point> {
        let local = pos.minus(self.location);
        if self.holds_local(local) {
            Some(local)
        } else {
            None
        }
    }

    /// The same rectangle moved by `offset`.
    pub fn moved_by(self, offset: Point) -> (r: Layout)
        ensures
            r == self.moved(offset),
    {
        Layout { size: self.size, location: self.location.offset_by(offset) }
    }

    /// Where `pos`, given in the parent's coordinates, lies relative to this
    /// rectangle's corner, if it lies inside the rectangle.
    pub fn local_position(self, pos: Point) -> (r: Option<Point>)
        ensures
            r == self.hit(pos),
    {
        let local = pos.relative_to(self.location);
        if local.x >= 0 && local.x <= self.size.width && local.y >= 0 && local.y
            <= self.size.height {
            Some(local)
        } else {
            None
        }
    }
}

} // verus!
