//! Points, edges and colours, and their mathematical views.
//!
//! Executable coordinates are `u32`: a pixel grid is at most `u32::MAX` wide
//! and high, so every corner of every pixel fits. Specifications speak of
//! unbounded integer pairs instead, so that "one step further" is always
//! defined.

use vstd::prelude::*;

verus! {

/// A position on the corner lattice, or a pixel coordinate: `(x, y)`.
pub type Pos = (int, int);

/// A directed segment between two positions: `(start, end)`.
pub type Seg = (Pos, Pos);

/// A point with machine coordinates. `y` grows downwards, as in a raster.
#[derive(Clone, Copy, Debug, PartialEq, Eq, Hash, Structural)]
pub struct Point {
    pub x: u32,
    pub y: u32,
}

impl View for Point {
    type V = Pos;

    open spec fn view(&self) -> Pos {
        (self.x as int, self.y as int)
    }
}

/// A directed edge between two points.
#[derive(Clone, Copy, Debug, PartialEq, Eq, Hash, Structural)]
pub struct Edge {
    pub start: Point,
    pub end: Point,
}

impl View for Edge {
    type V = Seg;

    open spec fn view(&self) -> Seg {
        (self.start@, self.end@)
    }
}

/// A colour of four 8-bit channels. Two colours are equal when all four
/// channels are, alpha included.
#[derive(Clone, Copy, Debug, PartialEq, Eq, Hash, Structural)]
pub struct Color {
    pub r: u8,
    pub g: u8,
    pub b: u8,
    pub a: u8,
}

/// The positions that a list of points stands for.
pub open spec fn points_view(points: Seq<Point>) -> Seq<Pos> {
    Seq::new(points.len(), |i: int| points[i]@)
}

/// The segments that a list of edges stands for.
pub open spec fn edges_view(edges: Seq<Edge>) -> Seq<Seg> {
    Seq::new(edges.len(), |i: int| edges[i]@)
}

/// The point loops that a list of contours stands for.
pub open spec fn contours_view(contours: Seq<Vec<Point>>) -> Seq<Seq<Pos>> {
    Seq::new(contours.len(), |i: int| points_view(contours[i]@))
}

/// Whether a position has coordinates that a `Point` can hold.
pub open spec fn on_lattice(p: Pos) -> bool {
    0 <= p.0 <= u32::MAX && 0 <= p.1 <= u32::MAX
}

/// Whether both ends of a segment are positions that a `Point` can hold.
pub open spec fn seg_on_lattice(s: Seg) -> bool {
    on_lattice(s.0) && on_lattice(s.1)
}

/// The position one unit from `p` in direction `d`. The directions are
/// numbered in the order in which a walk tries them: 0 is down (`y + 1`),
/// 1 is right (`x + 1`), 2 is up (`y - 1`), and 3, as any other number, is
/// left (`x - 1`).
pub open spec fn step(p: Pos, d: int) -> Pos {
    if d == 0 {
        (p.0, p.1 + 1)
    } else if d == 1 {
        (p.0 + 1, p.1)
    } else if d == 2 {
        (p.0, p.1 - 1)
    } else {
        (p.0 - 1, p.1)
    }
}

/// The displacement from the start of a segment to its end.
pub open spec fn delta(s: Seg) -> Pos {
    (s.1.0 - s.0.0, s.1.1 - s.0.1)
}

/// Twice the signed area of the triangle that a segment spans with the
/// origin, signed so that a loop that keeps its inside on the left, as it is
/// drawn with `y` growing downwards, has positive area.
#[verifier::opaque]
pub open spec fn cross(s: Seg) -> int {
    s.1.0 * s.0.1 - s.0.0 * s.1.1
}

impl Point {
    /// The neighbour one unit away in direction `d`, if its coordinates can
    /// be held.
    pub fn stepped(self, d: u8) -> (next: Option<Point>)
        ensures
            match next {
                Some(q) => q@ == step(self@, d as int),
                None => !on_lattice(step(self@, d as int)),
            },
    {
        if d == 0 {
            if self.y < u32::MAX {
                Some(Point { x: self.x, y: self.y + 1 })
            } else {
                None
            }
        } else if d == 1 {
            if self.x < u32::MAX {
                Some(Point { x: self.x + 1, y: self.y })
            } else {
                None
            }
        } else if d == 2 {
            if self.y > 0 {
                Some(Point { x: self.x, y: self.y - 1 })
            } else {
                None
            }
        } else {
            if self.x > 0 {
                Some(Point { x: self.x - 1, y: self.y })
            } else {
                None
            }
        }
    }
}

impl Edge {
    /// Whether two edges point the same way and are equally long.
    pub fn same_delta(self, other: Edge) -> (same: bool)
        ensures
            same == (delta(self@) == delta(other@)),
    {
        let dx1: i64 = self.end.x as i64 - self.start.x as i64;
        let dy1: i64 = self.end.y as i64 - self.start.y as i64;
        let dx2: i64 = other.end.x as i64 - other.start.x as i64;
        let dy2: i64 = other.end.y as i64 - other.start.y as i64;
        dx1 == dx2 && dy1 == dy2
    }
}

} // verus!
