//! Axis-aligned rectangles in fixed-point world coordinates.

use vstd::prelude::*;
use crate::kmath::{Vec2, coord_ok, in_world, WORLD_MAX};

verus! {

/// An axis-aligned box; `(x, y)` is the top-left corner, `w`/`h` extend
/// toward larger coordinates.
#[derive(Clone, Copy, Debug, PartialEq, Eq, Structural)]
pub struct Rect {
    pub x: i64,
    pub y: i64,
    pub w: i64,
    pub h: i64,
}

impl Rect {
    /// Non-degenerate shape: no negative extents.
    pub open spec fn wf(self) -> bool {
        0 <= self.w && 0 <= self.h
    }

    /// The rectangle lies within the legal world range.
    pub open spec fn bounded(self) -> bool {
        in_world(self.x as int) && in_world(self.y as int) && 0 <= self.w <= WORLD_MAX
            && 0 <= self.h <= WORLD_MAX
    }

    /// Loose bound under which the overlap arithmetic cannot overflow.
    pub open spec fn extent_ok(self) -> bool {
        coord_ok(self.x as int) && coord_ok(self.x + self.w) && coord_ok(self.y as int)
            && coord_ok(self.y + self.h) && 0 <= self.w && 0 <= self.h
    }

    pub open spec fn spec_left(self) -> int {
        self.x as int
    }

    pub open spec fn spec_right(self) -> int {
        self.x + self.w
    }

    pub open spec fn spec_top(self) -> int {
        self.y as int
    }

    pub open spec fn spec_bot(self) -> int {
        self.y + self.h
    }

    pub fn new(x: i64, y: i64, w: i64, h: i64) -> (r: Rect)
        ensures
            r == (Rect { x, y, w, h }),
    {
        Rect { x, y, w, h }
    }

    /// Center of the box, each axis rounded toward zero.
    pub fn centroid(&self) -> (r: Vec2)
        requires
            self.bounded(),
        ensures
            r.x == self.x + self.w / 2,
            r.y == self.y + self.h / 2,
    {
        Vec2::new(self.x + self.w / 2, self.y + self.h / 2)
    }

    pub fn new_centered(x: i64, y: i64, w: i64, h: i64) -> (r: Rect)
        requires
            in_world(x as int),
            in_world(y as int),
            0 <= w <= WORLD_MAX,
            0 <= h <= WORLD_MAX,
        ensures
            r == (Rect { x: (x - w / 2) as i64, y: (y - h / 2) as i64, w, h }),
    {
        Rect::new(x - w / 2, y - h / 2, w, h)
    }

    pub fn translate(&self, v: Vec2) -> (r: Rect)
        requires
            coord_ok(self.x + v.x),
            coord_ok(self.y + v.y),
        ensures
            r == (Rect {
                x: (self.x + v.x) as i64,
                y: (self.y + v.y) as i64,
                w: self.w,
                h: self.h,
            }),
    {
        Rect::new(self.x + v.x, self.y + v.y, self.w, self.h)
    }

    /// Grows (or, for negative `d`, shrinks) the box by `d` on every side.
    pub fn dilate(&self, d: i64) -> (r: Rect)
        requires
            coord_ok(d as int),
            coord_ok(self.x - d),
            coord_ok(self.y - d),
            coord_ok(self.w + 2 * d),
            coord_ok(self.h + 2 * d),
        ensures
            r == (Rect {
                x: (self.x - d) as i64,
                y: (self.y - d) as i64,
                w: (self.w + 2 * d) as i64,
                h: (self.h + 2 * d) as i64,
            }),
    {
        Rect::new(self.x - d, self.y - d, self.w + 2 * d, self.h + 2 * d)
    }

    pub fn left(self) -> (r: i64)
        ensures
            r == self.spec_left(),
    {
        self.x
    }

    pub fn right(self) -> (r: i64)
        requires
            coord_ok(self.x + self.w),
        ensures
            r == self.spec_right(),
    {
        self.x + self.w
    }

    pub fn top(self) -> (r: i64)
        ensures
            r == self.spec_top(),
    {
        self.y
    }

    pub fn bot(self) -> (r: i64)
        requires
            coord_ok(self.y + self.h),
        ensures
            r == self.spec_bot(),
    {
        self.y + self.h
    }
}

} // verus!
