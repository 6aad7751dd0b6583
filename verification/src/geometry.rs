//! Axis-aligned integer rectangles and the corner-containment collision test.

use vstd::prelude::*;

verus! {

/// A rectangle in canvas pixel coordinates, origin at the top left.
/// Zero-sized rectangles are degenerate but not rejected.
#[derive(Clone, Copy, Debug, PartialEq, Eq, Structural)]
pub struct Rect {
    pub x: u32,
    pub y: u32,
    pub width: u32,
    pub height: u32,
}

impl Rect {
    /// Closed-box point test: the borders count as inside.
    pub open spec fn contains_point_spec(self, px: int, py: int) -> bool {
        &&& self.x <= px <= self.x + self.width
        &&& self.y <= py <= self.y + self.height
    }

    /// Corner-containment test: true when one of `other`'s four corners lies
    /// within `self`'s closed bounding box. This is a deliberate
    /// approximation of rectangle overlap, kept for compatibility: it misses
    /// configurations where `other` covers `self` without placing a corner
    /// inside it.
    pub open spec fn contains_spec(self, other: Rect) -> bool {
        ||| self.contains_point_spec(other.x as int, other.y as int)
        ||| self.contains_point_spec(other.x + other.width, other.y as int)
        ||| self.contains_point_spec(other.x as int, other.y + other.height)
        ||| self.contains_point_spec(other.x + other.width, other.y + other.height)
    }

    pub fn contains_point(&self, x: u32, y: u32) -> (r: bool)
        ensures
            r == self.contains_point_spec(x as int, y as int),
    {
        self.contains_point_wide(x as u64, y as u64)
    }

    /// Same test with wide coordinates, so that corner sums never overflow.
    fn contains_point_wide(&self, x: u64, y: u64) -> (r: bool)
        ensures
            r == self.contains_point_spec(x as int, y as int),
    {
        self.x as u64 <= x && self.y as u64 <= y && self.x as u64 + self.width as u64 >= x
            && self.y as u64 + self.height as u64 >= y
    }

    pub fn contains(&self, other: &Rect) -> (r: bool)
        ensures
            r == self.contains_spec(*other),
    {
        let x0 = other.x as u64;
        let y0 = other.y as u64;
        let x1 = other.x as u64 + other.width as u64;
        let y1 = other.y as u64 + other.height as u64;
        self.contains_point_wide(x0, y0) || self.contains_point_wide(x1, y0)
            || self.contains_point_wide(x0, y1) || self.contains_point_wide(x1, y1)
    }
}

} // verus!
