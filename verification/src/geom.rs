//! Screen geometry shared by every module: page size and the inclusive
//! pixel bounding box used to track dirty regions.
use vstd::prelude::*;

verus! {

/// Page width in pixels (reMarkable Paper Pro, portrait).
pub const SCREEN_W: usize = 1620;
/// Page height in pixels.
pub const SCREEN_H: usize = 2160;


/// `v` clamped into `lo..=hi`.
pub open spec fn clamp_int(v: int, lo: int, hi: int) -> int {
    if v < lo { lo } else if v > hi { hi } else { v }
}

/// An inclusive pixel bounding box on the page; empty while `x1 < x0` or
/// `y1 < y0`.
#[derive(Debug, Clone, Copy, PartialEq, Eq, Structural)]
pub struct BBox {
    pub x0: i32,
    pub y0: i32,
    pub x1: i32,
    pub y1: i32,
}

impl BBox {
    /// No pixel covered yet.
    pub open spec fn is_empty_spec(self) -> bool {
        self.x1 < self.x0 || self.y1 < self.y0
    }

    /// Either the empty box, or a box of pixels on the page.
    pub open spec fn on_page(self) -> bool {
        ||| self == (BBox { x0: i32::MAX, y0: i32::MAX, x1: i32::MIN, y1: i32::MIN })
        ||| (0 <= self.x0 <= self.x1 < SCREEN_W && 0 <= self.y0 <= self.y1 < SCREEN_H)
    }

    /// The box grown to cover the square of radius `r` around `(x, y)`,
    /// clipped to the page.
    pub open spec fn added(self, x: int, y: int, r: int) -> BBox {
        let lx = clamp_int(x - r, 0, SCREEN_W - 1);
        let hx = clamp_int(x + r, 0, SCREEN_W - 1);
        let ly = clamp_int(y - r, 0, SCREEN_H - 1);
        let hy = clamp_int(y + r, 0, SCREEN_H - 1);
        BBox {
            x0: (if lx < self.x0 { lx } else { self.x0 as int }) as i32,
            y0: (if ly < self.y0 { ly } else { self.y0 as int }) as i32,
            x1: (if hx > self.x1 { hx } else { self.x1 as int }) as i32,
            y1: (if hy > self.y1 { hy } else { self.y1 as int }) as i32,
        }
    }

    /// `(x, y, w, h)` of the box; all zero when it is empty.
    pub open spec fn rect_spec(self) -> (i32, i32, i32, i32) {
        if self.is_empty_spec() {
            (0, 0, 0, 0)
        } else {
            (self.x0, self.y0, (self.x1 - self.x0 + 1) as i32, (self.y1 - self.y0 + 1) as i32)
        }
    }

    /// A box covering nothing.
    pub fn empty() -> (b: BBox)
        ensures
            b.is_empty_spec(),
            b.on_page(),
            b == (BBox { x0: i32::MAX, y0: i32::MAX, x1: i32::MIN, y1: i32::MIN }),
    {
        BBox { x0: i32::MAX, y0: i32::MAX, x1: i32::MIN, y1: i32::MIN }
    }

    pub fn is_empty(&self) -> (r: bool)
        ensures
            r == self.is_empty_spec(),
    {
        self.x1 < self.x0 || self.y1 < self.y0
    }

    /// Grow the box to cover the square of radius `r` around `(x, y)`,
    /// clipped to the page.
    pub fn add(&mut self, x: i32, y: i32, r: i32)
        requires
            r >= 0,
        ensures
            *final(self) == old(self).added(x as int, y as int, r as int),
            old(self).on_page() ==> final(self).on_page(),
            !final(self).is_empty_spec(),
    {
        let lx = clamp_i64(x as i64 - r as i64, 0, SCREEN_W as i64 - 1) as i32;
        let hx = clamp_i64(x as i64 + r as i64, 0, SCREEN_W as i64 - 1) as i32;
        let ly = clamp_i64(y as i64 - r as i64, 0, SCREEN_H as i64 - 1) as i32;
        let hy = clamp_i64(y as i64 + r as i64, 0, SCREEN_H as i64 - 1) as i32;
        if lx < self.x0 {
            self.x0 = lx;
        }
        if ly < self.y0 {
            self.y0 = ly;
        }
        if hx > self.x1 {
            self.x1 = hx;
        }
        if hy > self.y1 {
            self.y1 = hy;
        }
    }

    /// `(x, y, w, h)` of the box; all zero when it is empty.
    pub fn rect(&self) -> (r: (i32, i32, i32, i32))
        requires
            self.on_page(),
        ensures
            r == self.rect_spec(),
    {
        if self.is_empty() {
            (0, 0, 0, 0)
        } else {
            (self.x0, self.y0, self.x1 - self.x0 + 1, self.y1 - self.y0 + 1)
        }
    }
}

/// `v` clamped into `lo..=hi`.
pub fn clamp_i64(v: i64, lo: i64, hi: i64) -> (r: i64)
    requires
        lo <= hi,
    ensures
        r == clamp_int(v as int, lo as int, hi as int),
{
    if v < lo { lo } else if v > hi { hi } else { v }
}

} // verus!
