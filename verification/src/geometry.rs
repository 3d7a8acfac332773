use vstd::prelude::*;

verus! {

/// Rank of an `f32` bit pattern in the total order of `ordered_float::OrderedFloat<f32>`:
/// numeric order, `-0.0` equal to `+0.0`, and every NaN equal to every other NaN and
/// greater than every number.
pub open spec fn f32_rank(bits: u32) -> int {
    let mag = bits as int % 0x8000_0000;
    if mag > 0x7f80_0000 {
        0x7f80_0001
    } else if bits as int >= 0x8000_0000 {
        -mag
    } else {
        mag
    }
}

/// Computes `f32_rank` of a bit pattern.
pub fn f32_rank_of(bits: u32) -> (r: i64)
    ensures
        r as int == f32_rank(bits),
{
    let mag: u32 = bits % 0x8000_0000;
    if mag > 0x7f80_0000 {
        0x7f80_0001
    } else if bits >= 0x8000_0000 {
        -(mag as i64)
    } else {
        mag as i64
    }
}

/// A 2D point whose coordinates are `f32` bit patterns.
/// Two points are equal when their bit patterns are equal.
#[derive(Clone, Copy, Debug, PartialEq, Eq, Hash, Structural)]
pub struct Point {
    pub x: u32,
    pub y: u32,
}

/// The lexicographic order of points by `f32_rank` of `x`, then of `y`.
pub open spec fn point_lt(a: Point, b: Point) -> bool {
    f32_rank(a.x) < f32_rank(b.x) || (f32_rank(a.x) == f32_rank(b.x) && f32_rank(a.y) < f32_rank(b.y))
}

impl Point {
    pub fn new(xy: (u32, u32)) -> (p: Point)
        ensures
            p.x == xy.0,
            p.y == xy.1,
    {
        Point { x: xy.0, y: xy.1 }
    }

    /// `self < other` in the order of the points' coordinates as ordered floats.
    pub fn less_than(&self, other: &Point) -> (r: bool)
        ensures
            r == point_lt(*self, *other),
    {
        let ax = f32_rank_of(self.x);
        let bx = f32_rank_of(other.x);
        if ax < bx {
            true
        } else if ax == bx {
            f32_rank_of(self.y) < f32_rank_of(other.y)
        } else {
            false
        }
    }

    /// Bitwise equality of the two coordinates.
    pub fn same(&self, other: &Point) -> (r: bool)
        ensures
            r == (*self == *other),
    {
        self.x == other.x && self.y == other.y
    }
}

/// A polygon given by its vertices in order.
#[derive(Clone, Debug)]
pub struct Polygon {
    pub vertices: Vec<Point>,
}

impl Polygon {
    pub fn new(vertices: Vec<Point>) -> (p: Polygon)
        ensures
            p.vertices@ == vertices@,
    {
        Polygon { vertices }
    }
}

} // verus!
