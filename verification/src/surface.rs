//! A luminance snapshot of the page: what the ink map, the page-turn check
//! and the page image read from the screen. The device framebuffer itself
//! lives outside the library; this holds one byte of luma per pixel.
use vstd::prelude::*;

verus! {

/// Ink color of the diary's own writing (RGB565 black).
pub const BLACK: u16 = 0x0000;
/// Paper color (RGB565 white).
pub const WHITE: u16 = 0xFFFF;
/// Light gray for trace templates and remembered pages, so the child's own
/// black pen stands out on top.
pub const FADED: u16 = 0xAD55;

/// Luma (0 = black, 255 = white) of an RGB565 color: channels widened to
/// eight bits, then weighted 299/587/114 per mille.
pub open spec fn luma565(c: u16) -> int {
    let r = (c as int / 2048) * 255 / 31;
    let g = ((c as int / 32) % 64) * 255 / 63;
    let b = (c as int % 32) * 255 / 31;
    (299 * r + 587 * g + 114 * b) / 1000
}

/// Exec twin of [`luma565`].
pub fn luma_of(c: u16) -> (l: u8)
    ensures
        l as int == luma565(c),
{
    let r = (c as u32 / 2048) * 255 / 31;
    let g = ((c as u32 / 32) % 64) * 255 / 63;
    let b = (c as u32 % 32) * 255 / 31;
    assert(r <= 255 && g <= 255 && b <= 255) by (nonlinear_arith)
        requires r == (c as u32 / 2048) * 255 / 31, g == ((c as u32 / 32) % 64) * 255 / 63, b == (c as u32 % 32) * 255 / 31, c <= 0xFFFF;
    ((299 * r + 587 * g + 114 * b) / 1000) as u8
}

/// The mathematical content of a [`Surface`].
pub ghost struct Page {
    pub w: int,
    pub h: int,
    /// Row-major luma, `w * h` bytes.
    pub luma: Seq<u8>,
}

impl Page {
    pub open spec fn wf(self) -> bool {
        self.w >= 0 && self.h >= 0 && self.luma.len() == self.w * self.h
    }

    /// Luma at `(x, y)`; anything off the page reads as white paper.
    pub open spec fn at(self, x: int, y: int) -> int {
        if 0 <= x < self.w && 0 <= y < self.h {
            self.luma[y * self.w + x] as int
        } else {
            255
        }
    }
}

/// One byte of luma per pixel, row-major.
pub struct Surface {
    w: usize,
    h: usize,
    pixels: Vec<u8>,
}

impl View for Surface {
    type V = Page;

    closed spec fn view(&self) -> Page {
        Page { w: self.w as int, h: self.h as int, luma: self.pixels@ }
    }
}

impl Surface {
    /// A blank (white) page of `w` x `h` pixels.
    pub fn blank(w: usize, h: usize) -> (s: Self)
        requires
            w * h <= usize::MAX,
        ensures
            s@.wf(),
            s@.w == w,
            s@.h == h,
            forall|x: int, y: int| #[trigger] s@.at(x, y) == 255,
    {
        let n = w * h;
        let pixels = vec![255u8; n];
        let s = Surface { w, h, pixels };
        assert forall|x: int, y: int| #[trigger] s@.at(x, y) == 255 by {
            if 0 <= x < w && 0 <= y < h {
                assert(0 <= y * w + x < w * h) by (nonlinear_arith)
                    requires 0 <= x < w, 0 <= y < h;
            }
        }
        s
    }

    /// Wrap a captured luma buffer; `None` unless it holds exactly `w * h`
    /// bytes.
    pub fn from_luma(w: usize, h: usize, luma: Vec<u8>) -> (s: Option<Self>)
        ensures
            s is Some <==> luma@.len() == w * h,
            s matches Some(p) ==> p@ == (Page { w: w as int, h: h as int, luma: luma@ }),
    {
        if w == 0 || h == 0 {
            if luma.len() == 0 {
                assert(w * h == 0) by (nonlinear_arith) requires w == 0 || h == 0;
                return Some(Surface { w, h, pixels: luma });
            }
            assert(w * h == 0) by (nonlinear_arith) requires w == 0 || h == 0;
            return None;
        }
        if luma.len() / w == h && luma.len() % w == 0 {
            proof {
                vstd::arithmetic::div_mod::lemma_fundamental_div_mod(luma@.len() as int, w as int);
                assert(w * h == h * w) by (nonlinear_arith);
            }
            Some(Surface { w, h, pixels: luma })
        } else {
            proof {
                if luma@.len() == w * h {
                    vstd::arithmetic::div_mod::lemma_fundamental_div_mod_converse(luma@.len() as int, w as int, h as int, 0);
                }
            }
            None
        }
    }

    /// Page width in pixels.
    pub fn width(&self) -> (r: usize)
        ensures
            r == self@.w,
    {
        self.w
    }

    /// Page height in pixels.
    pub fn height(&self) -> (r: usize)
        ensures
            r == self@.h,
    {
        self.h
    }

    /// Number of pixels on the page.
    pub fn pixel_count(&self) -> (n: usize)
        requires
            self@.wf(),
        ensures
            n == self@.w * self@.h,
    {
        self.pixels.len()
    }

    /// Luma at `(x, y)`; off-page reads as white (255).
    pub fn luma(&self, x: i32, y: i32) -> (l: u8)
        requires
            self@.wf(),
        ensures
            l as int == self@.at(x as int, y as int),
    {
        let n = self.pixels.len();
        if x >= 0 && y >= 0 && (x as usize) < self.w && (y as usize) < self.h {
            proof {
                assert(0 <= y * self.w + x < self.w * self.h) by (nonlinear_arith)
                    requires 0 <= x < self.w, 0 <= y < self.h;
            }
            self.pixels[y as usize * self.w + x as usize]
        } else {
            255
        }
    }

    /// Paint the pixel rect `x, y, w, h` (clipped to the page) in `color`.
    pub fn fill_rect(&mut self, x: usize, y: usize, w: usize, h: usize, color: u16)
        requires
            old(self)@.wf(),
        ensures
            final(self)@.wf(),
            final(self)@.w == old(self)@.w,
            final(self)@.h == old(self)@.h,
            forall|px: int, py: int| #[trigger] final(self)@.at(px, py) == if x <= px < x + w && y <= py < y + h
                && 0 <= px < old(self)@.w && 0 <= py < old(self)@.h {
                luma565(color)
            } else {
                old(self)@.at(px, py)
            },
    {
        let l = luma_of(color);
        let n = self.pixels.len();
        let ghost s0 = self@;
        let x1 = if x > self.w || w > self.w - x { self.w } else { x + w };
        let y1 = if y > self.h || h > self.h - y { self.h } else { y + h };
        let mut yy = y;
        while yy < y1
            invariant
                s0.wf(),
                self@.wf(),
                self@.w == s0.w,
                self@.h == s0.h,
                x1 <= self.w,
                y1 <= self.h,
                n == self.w * self.h,
                x1 as int == if x + w > s0.w { s0.w } else { x + w },
                y1 as int == if y + h > s0.h { s0.h } else { y + h },
                yy >= y,
                forall|px: int, py: int| #[trigger] self@.at(px, py) == if x <= px < x1 && y <= py < yy
                    && py < y1 { l as int } else { s0.at(px, py) },
            decreases y1 - yy,
        {
            let mut xx = x;
            while xx < x1
                invariant
                    s0.wf(),
                    self@.wf(),
                    self@.w == s0.w,
                    self@.h == s0.h,
                    x1 <= self.w,
                    y1 <= self.h,
                    n == self.w * self.h,
                    yy < y1,
                    yy >= y,
                    xx >= x,
                    forall|px: int, py: int| #[trigger] self@.at(px, py) == if (x <= px < x1 && y <= py < yy) || (py
                        == yy && x <= px < xx && px < x1) { l as int } else { s0.at(px, py) },
                decreases x1 - xx,
            {
                proof {
                    assert(0 <= yy * self.w + xx < self.w * self.h) by (nonlinear_arith)
                        requires 0 <= xx < self.w, 0 <= yy < self.h;
                }
                let ghost before = self@;
                let idx = yy * self.w + xx;
                self.pixels.set(idx, l);
                proof {
                    assert forall|px: int, py: int| #[trigger] self@.at(px, py) == if (x <= px < x1 && y <= py < yy) || (py
                        == yy && x <= px < xx + 1 && px < x1) { l as int } else { s0.at(px, py) } by {
                        if 0 <= px < self.w && 0 <= py < self.h {
                            assert(0 <= py * self.w + px < self.w * self.h) by (nonlinear_arith)
                                requires 0 <= px < self.w, 0 <= py < self.h;
                            if py * self.w + px == idx {
                                assert(py == yy && px == xx) by (nonlinear_arith)
                                    requires py * self.w + px == yy * self.w + xx, 0 <= px < self.w, 0 <= xx < self.w;
                            } else {
                                assert(self@.at(px, py) == before.at(px, py));
                            }
                        }
                    }
                }
                xx = xx + 1;
            }
            yy = yy + 1;
        }
    }
}

} // verus!
