use vstd::prelude::*;

verus! {

/// An axis-aligned box in whole pixels: top-left corner, width and height.
#[derive(Clone, Copy, Debug, PartialEq, Eq, Structural)]
pub struct Rect {
    pub x: i32,
    pub y: i32,
    pub w: u32,
    pub h: u32,
}

/// The half-open boxes `[ax, ax + aw) x [ay, ay + ah)` and
/// `[bx, bx + bw) x [by, by + bh)` share a point. An empty box meets nothing.
pub open spec fn boxes_meet(
    ax: int,
    ay: int,
    aw: int,
    ah: int,
    bx: int,
    by: int,
    bw: int,
    bh: int,
) -> bool {
    &&& aw > 0 && ah > 0 && bw > 0 && bh > 0
    &&& ax < bx + bw && bx < ax + aw
    &&& ay < by + bh && by < ay + ah
}

/// Whether two boxes given by `i64` coordinates overlap, as `boxes_meet` says.
pub fn boxes_overlap(ax: i64, ay: i64, aw: i64, ah: i64, bx: i64, by: i64, bw: i64, bh: i64) -> (r:
    bool)
    ensures
        r == boxes_meet(ax as int, ay as int, aw as int, ah as int, bx as int, by as int, bw as int, bh as int),
{
    let (ax, ay, aw, ah) = (ax as i128, ay as i128, aw as i128, ah as i128);
    let (bx, by, bw, bh) = (bx as i128, by as i128, bw as i128, bh as i128);
    aw > 0 && ah > 0 && bw > 0 && bh > 0 && ax < bx + bw && bx < ax + aw && ay < by + bh && by < ay
        + ah
}

impl Rect {
    pub fn new(x: i32, y: i32, w: u32, h: u32) -> (r: Rect)
        ensures
            r == (Rect { x, y, w, h }),
    {
        Rect { x, y, w, h }
    }

    /// Vertical position of the bottom edge.
    pub open spec fn bottom(self) -> int {
        self.y + self.h
    }

    /// Horizontal centre, with the half-width rounded down.
    pub open spec fn center_x(self) -> int {
        self.x + self.w / 2
    }

    /// The two boxes overlap; boxes that only share an edge do not.
    pub fn has_intersection(&self, other: Rect) -> (r: bool)
        ensures
            r == boxes_meet(
                self.x as int,
                self.y as int,
                self.w as int,
                self.h as int,
                other.x as int,
                other.y as int,
                other.w as int,
                other.h as int,
            ),
    {
        boxes_overlap(
            self.x as i64,
            self.y as i64,
            self.w as i64,
            self.h as i64,
            other.x as i64,
            other.y as i64,
            other.w as i64,
            other.h as i64,
        )
    }

    /// The point lies in the box, edges included.
    pub fn encloses(&self, x: i32, y: i32) -> (r: bool)
        ensures
            r == (self.x <= x <= self.x + self.w && self.y <= y <= self.y + self.h),
    {
        self.x as i64 <= x as i64 && x as i64 <= self.x as i64 + self.w as i64 && self.y as i64
            <= y as i64 && y as i64 <= self.y as i64 + self.h as i64
    }
}

} // verus!
