//! Page-level pieces of the diary loop: the downscaled page image sent to
//! the server, erase checks over a region, the bounding box of fresh ink,
//! laying out Tom's reply (and its streamed continuations) and a summoned
//! memory.
use crate::cardrender::{
    block_pitch, deep3, half_toward_zero, line_ok, line_strokes, lines_ok, prepare_text, pts_small, pts_within, shift_all,
    shift_strokes, ART_MAX, COORD_MAX, MAX_LINES,
};
use crate::geom::{BBox, SCREEN_H, SCREEN_W};
use crate::layout::lemma_split_index;
use crate::script::{deep, thin, trace, Line};
use crate::surface::{Page, Surface};
use vstd::prelude::*;

verus! {

/// The `png` crate's encoder error, carried only as far as the wrapper's caller.
#[verifier::external_type_specification]
#[verifier::external_body]
pub struct ExPngEncodingError(png::EncodingError);

/// Mean luma of the 2x2 block whose top-left is `(2x, 2y)`.
pub open spec fn gray_at(p: Page, x: int, y: int) -> int {
    (p.at(2 * x, 2 * y) + p.at(2 * x + 1, 2 * y) + p.at(2 * x, 2 * y + 1) + p.at(2 * x + 1, 2 * y + 1)) / 4
}

/// The page as grayscale at half size in each direction (a 2x2 box
/// filter): the bytes, the width and the height.
pub fn page_gray(surf: &Surface) -> (r: (Vec<u8>, usize, usize))
    requires
        surf@.wf(),
        surf@.w <= 0x8000_0000,
        surf@.h <= 0x8000_0000,
    ensures
        r.1 == surf@.w / 2,
        r.2 == surf@.h / 2,
        r.0@.len() == r.1 * r.2,
        forall|x: int, y: int| 0 <= x < r.1 && 0 <= y < r.2 ==> #[trigger] r.0@[y * r.1 + x] as int == gray_at(surf@, x, y),
        r.0@ == half_gray(surf@),
{
    let w = surf.width() / 2;
    let h = surf.height() / 2;
    let _pixels = surf.pixel_count();
    proof {
        assert(w * h <= surf@.w * surf@.h) by (nonlinear_arith)
            requires 0 <= w, 0 <= h, 2 * w <= surf@.w, 2 * h <= surf@.h;
    }
    let mut gray: Vec<u8> = Vec::new();
    let mut y: usize = 0;
    while y < h
        invariant
            surf@.wf(),
            w == surf@.w / 2,
            h == surf@.h / 2,
            w <= 0x4000_0000,
            h <= 0x4000_0000,
            w * h <= usize::MAX,
            y <= h,
            gray@.len() == y * w,
            forall|x2: int, y2: int| 0 <= x2 < w && 0 <= y2 < y ==> #[trigger] gray@[y2 * w + x2] as int == gray_at(surf@, x2, y2),
        decreases h - y,
    {
        let mut x: usize = 0;
        while x < w
            invariant
                surf@.wf(),
                w == surf@.w / 2,
                h == surf@.h / 2,
                w <= 0x4000_0000,
                h <= 0x4000_0000,
                w * h <= usize::MAX,
                y < h,
                x <= w,
                gray@.len() == y * w + x,
                forall|x2: int, y2: int| 0 <= x2 < w && 0 <= y2 < y ==> #[trigger] gray@[y2 * w + x2] as int == gray_at(surf@, x2, y2),
                forall|x2: int| 0 <= x2 < x ==> #[trigger] gray@[y * w + x2] as int == gray_at(surf@, x2, y as int),
            decreases w - x,
        {
            let a = surf.luma((x * 2) as i32, (y * 2) as i32) as u32;
            let b = surf.luma((x * 2 + 1) as i32, (y * 2) as i32) as u32;
            let c = surf.luma((x * 2) as i32, (y * 2 + 1) as i32) as u32;
            let d = surf.luma((x * 2 + 1) as i32, (y * 2 + 1) as i32) as u32;
            let v = ((a + b + c + d) / 4) as u8;
            let ghost g0 = gray@;
            gray.push(v);
            proof {
                assert forall|x2: int, y2: int| 0 <= x2 < w && 0 <= y2 < y implies #[trigger] gray@[y2 * w + x2] as int == gray_at(surf@, x2, y2) by {
                    assert(y2 * w + x2 < y * w) by (nonlinear_arith)
                        requires 0 <= x2 < w, 0 <= y2 < y;
                    assert(gray@[y2 * w + x2] == g0[y2 * w + x2]);
                }
                assert forall|x2: int| 0 <= x2 < x + 1 implies #[trigger] gray@[y * w + x2] as int == gray_at(surf@, x2, y as int) by {
                    if x2 < x {
                        assert(gray@[y * w + x2] == g0[y * w + x2]);
                    }
                }
            }
            x = x + 1;
        }
        proof {
            assert((y + 1) * w == y * w + w) by (nonlinear_arith);
        }
        y = y + 1;
    }
    assert(h * w == w * h) by (nonlinear_arith);
    proof {
        lemma_page_gray_seq(surf@, gray@);
    }
    (gray, w, h)
}

/// The half-size page image as row-major bytes: entry `i` is the mean of
/// the 2x2 block under pixel `(i % w2, i / w2)` of the `w2` x `h2` image.
pub open spec fn half_gray(p: Page) -> Seq<u8> {
    let w2 = p.w / 2;
    let h2 = p.h / 2;
    Seq::new((w2 * h2) as nat, |i: int| gray_at(p, i % w2, i / w2) as u8)
}

proof fn lemma_page_gray_seq(p: Page, g: Seq<u8>)
    requires
        p.w >= 0,
        p.h >= 0,
        g.len() == (p.w / 2) * (p.h / 2),
        forall|x: int, y: int| 0 <= x < p.w / 2 && 0 <= y < p.h / 2 ==> #[trigger] g[y * (p.w / 2) + x] as int == gray_at(p, x, y),
    ensures
        g == half_gray(p),
{
    let w2 = p.w / 2;
    let h2 = p.h / 2;
    assert forall|i: int| 0 <= i < g.len() implies g[i] == #[trigger] half_gray(p)[i] by {
        lemma_split_index(i, w2, h2);
        let x = i % w2;
        let y = i / w2;
        assert(g[y * w2 + x] as int == gray_at(p, x, y));
    }
    assert(g =~= half_gray(p));
}

/// The bytes of an 8-bit grayscale PNG file of the `w` x `h` image whose
/// row-major pixels are `gray`, as the `png` crate's encoder writes them with
/// its default filter and compression settings.
pub uninterp spec fn png_gray8(gray: Seq<u8>, w: u32, h: u32) -> Seq<u8>;

/// Encodes `gray` through `png::Encoder::new` (color `Grayscale`, depth
/// `Eight`), `write_header` and `write_image_data`, into memory. Claimed of
/// the crate: the header is refused exactly when a side is zero (the buffer
/// length already matches, and writes into a `Vec` do not fail), and the
/// bytes are a function of the pixels and the sides alone, named
/// [`png_gray8`]; which bytes the compressor picks is left unsaid.
#[verifier::external_body]
fn encode_gray8(gray: &Vec<u8>, w: u32, h: u32) -> (r: Result<Vec<u8>, png::EncodingError>)
    requires
        gray@.len() == w * h,
    ensures
        r is Err <==> (w == 0 || h == 0),
        r matches Ok(bytes) ==> bytes@ == png_gray8(gray@, w, h),
{
    let mut buf = Vec::new();
    {
        let mut enc = png::Encoder::new(&mut buf, w, h);
        enc.set_color(png::ColorType::Grayscale);
        enc.set_depth(png::BitDepth::Eight);
        let mut writer = enc.write_header()?;
        writer.write_image_data(gray)?;
    }
    Ok(buf)
}

/// Why the page image could not be written.
#[derive(Debug, Clone, Copy, PartialEq, Eq, Structural)]
pub enum PagePngError {
    /// The encoder refused the image: the half-size page has no column or
    /// no row, i.e. the page is narrower or shorter than two pixels.
    Encode,
}

/// The whole page, halved in each direction by [`page_gray`], as the bytes
/// of a grayscale PNG file: what the `/turn` request carries and what the
/// test modes write to disk.
pub fn page_png_bytes(surf: &Surface) -> (r: Result<Vec<u8>, PagePngError>)
    requires
        surf@.wf(),
        surf@.w <= 0x8000_0000,
        surf@.h <= 0x8000_0000,
    ensures
        r is Err <==> (surf@.w < 2 || surf@.h < 2),
        r matches Ok(bytes) ==> bytes@ == png_gray8(half_gray(surf@), (surf@.w / 2) as u32, (surf@.h / 2) as u32),
{
    let (gray, w, h) = page_gray(surf);
    match encode_gray8(&gray, w as u32, h as u32) {
        Ok(bytes) => Ok(bytes),
        Err(_) => Err(PagePngError::Encode),
    }
}


/// No dark pixel (luma under 200) is left in the region.
pub open spec fn all_white(p: Page, b: BBox) -> bool {
    b.is_empty_spec() || forall|x: int, y: int| b.x0 <= x <= b.x1 && b.y0 <= y <= b.y1 ==> #[trigger] p.at(x, y) >= 200
}

/// True if the region no longer holds any dark pixels (fully erased).
pub fn region_all_white(surf: &Surface, region: BBox) -> (r: bool)
    requires
        surf@.wf(),
        region.on_page(),
    ensures
        r == all_white(surf@, region),
{
    if region.is_empty() {
        return true;
    }
    let mut y = region.y0;
    while y <= region.y1
        invariant
            surf@.wf(),
            region.on_page(),
            !region.is_empty_spec(),
            region.y0 <= y <= region.y1 + 1,
            forall|x2: int, y2: int| region.x0 <= x2 <= region.x1 && region.y0 <= y2 < y ==> #[trigger] surf@.at(x2, y2) >= 200,
        decreases region.y1 + 1 - y,
    {
        let mut x = region.x0;
        while x <= region.x1
            invariant
                surf@.wf(),
                region.on_page(),
                !region.is_empty_spec(),
                region.y0 <= y <= region.y1,
                region.x0 <= x <= region.x1 + 1,
                forall|x2: int, y2: int| region.x0 <= x2 <= region.x1 && region.y0 <= y2 < y ==> #[trigger] surf@.at(x2, y2) >= 200,
                forall|x2: int| region.x0 <= x2 < x ==> #[trigger] surf@.at(x2, y as int) >= 200,
            decreases region.x1 + 1 - x,
        {
            if surf.luma(x, y) < 200 {
                return false;
            }
            x = x + 1;
        }
        y = y + 1;
    }
    true
}

/// The box after adding every pen point (radius plus 2) of the strokes.
pub open spec fn box_pen(ss: Seq<Seq<(i32, i32, i32, u32)>>) -> BBox
    decreases ss.len(),
{
    if ss.len() == 0 {
        BBox { x0: i32::MAX, y0: i32::MAX, x1: i32::MIN, y1: i32::MIN }
    } else {
        box_pen_pts(ss.last(), box_pen(ss.drop_last()))
    }
}

pub open spec fn box_pen_pts(pts: Seq<(i32, i32, i32, u32)>, b: BBox) -> BBox
    decreases pts.len(),
{
    if pts.len() == 0 {
        b
    } else {
        let p = pts.last();
        box_pen_pts(pts.drop_last(), b).added(p.0 as int, p.1 as int, p.2 + 2)
    }
}

/// Pen radii a stroke may carry.
pub open spec fn radii_ok(ss: Seq<Vec<(i32, i32, i32, u32)>>) -> bool {
    forall|i: int, j: int| 0 <= i < ss.len() && 0 <= j < ss[i]@.len() ==> -2 <= (#[trigger] ss[i]@[j]).2 <= i32::MAX - 2
}

/// Bounding box of finished pen strokes (x, y, radius, time), each point
/// grown by its radius plus 2.
pub fn bbox_of(strokes: &Vec<Vec<(i32, i32, i32, u32)>>) -> (b: BBox)
    requires
        radii_ok(strokes@),
    ensures
        b == box_pen(strokes@.map_values(|s: Vec<(i32, i32, i32, u32)>| s@)),
        b.on_page(),
{
    let ghost sv = strokes@.map_values(|s: Vec<(i32, i32, i32, u32)>| s@);
    let mut bbox = BBox::empty();
    let mut i: usize = 0;
    while i < strokes.len()
        invariant
            sv == strokes@.map_values(|s: Vec<(i32, i32, i32, u32)>| s@),
            radii_ok(strokes@),
            i <= strokes@.len(),
            bbox == box_pen(sv.take(i as int)),
            bbox.on_page(),
        decreases strokes@.len() - i,
    {
        let s = &strokes[i];
        let ghost b0 = bbox;
        let mut j: usize = 0;
        while j < s.len()
            invariant
                i < strokes@.len(),
                s@ == strokes@[i as int]@,
                radii_ok(strokes@),
                j <= s@.len(),
                bbox == box_pen_pts(s@.take(j as int), b0),
                bbox.on_page(),
            decreases s@.len() - j,
        {
            assert(s@.take(j + 1).drop_last() =~= s@.take(j as int));
            let (x, y, r, _) = s[j];
            assert(-2 <= r <= i32::MAX - 2) by {
                assert(strokes@[i as int]@[j as int] == s@[j as int]);
            }
            bbox.add(x, y, r + 2);
            j = j + 1;
        }
        assert(s@.take(j as int) =~= s@);
        assert(sv.take(i + 1).drop_last() =~= sv.take(i as int));
        assert(sv[i as int] == s@);
        i = i + 1;
    }
    assert(sv.take(i as int) =~= sv);
    bbox
}

/// Reply text is written at 52 px; lines are at least this far apart
/// (the font size times 1.45, rounded down).
pub const REPLY_PITCH: i32 = 75;
/// Side margin of a centered reply.
pub const MARGIN_X: i32 = 120;

/// Tom's reply being written onto the page: its strokes, the animation's
/// position in them, the dirty region, where a streamed continuation's
/// first line starts, and the left edge to keep for it.
pub struct WritePlan {
    pub strokes: Vec<Vec<(i32, i32)>>,
    pub stroke_i: usize,
    pub point_i: usize,
    pub region: BBox,
    pub next_y: i32,
    pub origin_x: Option<i32>,
}

/// The mathematical content of a [`WritePlan`].
pub ghost struct WriteV {
    pub strokes: Seq<Seq<(i32, i32)>>,
    pub stroke_i: int,
    pub point_i: int,
    pub region: BBox,
    pub next_y: int,
    pub origin_x: Option<i32>,
}

impl View for WritePlan {
    type V = WriteV;

    open spec fn view(&self) -> WriteV {
        WriteV {
            strokes: deep(self.strokes@),
            stroke_i: self.stroke_i as int,
            point_i: self.point_i as int,
            region: self.region,
            next_y: self.next_y as int,
            origin_x: self.origin_x,
        }
    }
}

/// Width a reply wraps at: centered replies keep the side margins; one
/// anchored at `origin` stops 60 px before the right edge, at most 1380 px
/// and at least 1.
pub open spec fn reply_wrap_width_of(origin: Option<(i32, i32)>) -> int {
    match origin {
        Some((ox, _)) => {
            let w = SCREEN_W - ox - 60;
            let w = if w < 1380 { w } else { 1380 };
            if w > 1 { w } else { 1 }
        },
        None => SCREEN_W - 2 * MARGIN_X,
    }
}

/// Coordinates a caller may hand the layout.
pub open spec fn coord_ok(v: int) -> bool {
    -0x0800_0000 <= v <= 0x0800_0000
}

/// Whether `v` is a coordinate the layout takes.
pub fn coord_in_range(v: i32) -> (r: bool)
    ensures
        r == coord_ok(v as int),
{
    -0x0800_0000 <= v && v <= 0x0800_0000
}

pub fn reply_wrap_width(origin: Option<(i32, i32)>) -> (r: i32)
    requires
        origin matches Some((ox, _)) ==> coord_ok(ox as int),
    ensures
        r == reply_wrap_width_of(origin),
{
    match origin {
        Some((ox, _)) => {
            let w = SCREEN_W as i32 - ox - 60;
            let w = if w < 1380 { w } else { 1380 };
            if w > 1 { w } else { 1 }
        },
        None => SCREEN_W as i32 - 2 * MARGIN_X,
    }
}

/// One step of the handwriting jitter's generator.
pub open spec fn lcg_step(s: u32) -> u32 {
    vstd::wrapping::u32_specs::wrapping_add(vstd::wrapping::u32_specs::wrapping_mul(s, 1664525), 1013904223)
}

/// The generator after `k` steps from its fixed seed.
pub open spec fn lcg(k: nat) -> u32
    decreases k,
{
    if k == 0 { 0x1234 } else { lcg_step(lcg((k - 1) as nat)) }
}

/// Vertical wobble of reply line `k`, in -3..=3.
pub open spec fn wobble(k: nat) -> int {
    ((lcg(k + 1) >> 16u32) % 7) as int - 3
}

/// `v / 3`, rounded toward zero.
pub open spec fn third_toward_zero(v: int) -> int {
    if v >= 0 { v / 3 } else { -((-v) / 3) }
}

/// Left edge of a reply line `width` wide: the anchor, or centered.
pub open spec fn reply_x(origin: Option<(i32, i32)>, width: int) -> int {
    match origin {
        Some((ox, _)) => ox as int,
        None => half_toward_zero(SCREEN_W - width),
    }
}

/// The reply's lines written from `y0` down, `lh` apart, each with its
/// wobble.
pub open spec fn reply_placed(ls: Seq<Line>, lh: int, y0: int, origin: Option<(i32, i32)>) -> Seq<Seq<(i32, i32)>>
    decreases ls.len(),
{
    if ls.len() == 0 {
        Seq::empty()
    } else {
        let k = ls.len() - 1;
        reply_placed(ls.drop_last(), lh, y0, origin) + shift_strokes(
            line_strokes(ls[k]),
            reply_x(origin, ls[k].width as int),
            y0 + k * lh + wobble(k as nat),
        )
    }
}

/// Where the reply's first line goes: the continuation point, else the
/// anchor, else a third of the way down the free height (at least 60).
pub open spec fn reply_y0(ls: Seq<Line>, y_start: Option<i32>, origin: Option<(i32, i32)>) -> int {
    match y_start {
        Some(y) => y as int,
        None => match origin {
            Some((_, oy)) => oy as int,
            None => {
                let t = third_toward_zero(SCREEN_H - block_pitch(ls, REPLY_PITCH as int) * ls.len());
                if t > 60 { t } else { 60 }
            },
        },
    }
}

/// The box after adding every point of `pts` with radius `r` to `b`.
pub open spec fn box_pts_r(pts: Seq<(i32, i32)>, b: BBox, r: int) -> BBox
    decreases pts.len(),
{
    if pts.len() == 0 {
        b
    } else {
        box_pts_r(pts.drop_last(), b, r).added(pts.last().0 as int, pts.last().1 as int, r)
    }
}

/// The box after adding every point of every stroke with radius `r`.
pub open spec fn box_strokes_r(ss: Seq<Seq<(i32, i32)>>, b: BBox, r: int) -> BBox
    decreases ss.len(),
{
    if ss.len() == 0 {
        b
    } else {
        box_pts_r(ss.last(), box_strokes_r(ss.drop_last(), b, r), r)
    }
}

/// Grow `b` over every point of `ss`, each with radius `r`.
fn grow_box(b: &mut BBox, ss: &Vec<Vec<(i32, i32)>>, r: i32)
    requires
        r >= 0,
        old(b).on_page(),
    ensures
        *final(b) == box_strokes_r(deep(ss@), *old(b), r as int),
        final(b).on_page(),
{
    let ghost d = deep(ss@);
    let ghost b00 = *b;
    let mut i: usize = 0;
    while i < ss.len()
        invariant
            d == deep(ss@),
            r >= 0,
            b00 == *old(b),
            i <= ss@.len(),
            *b == box_strokes_r(d.take(i as int), b00, r as int),
            b.on_page(),
        decreases ss@.len() - i,
    {
        let s = &ss[i];
        let ghost b0 = *b;
        let mut j: usize = 0;
        while j < s.len()
            invariant
                r >= 0,
                j <= s@.len(),
                *b == box_pts_r(s@.take(j as int), b0, r as int),
                b.on_page(),
            decreases s@.len() - j,
        {
            assert(s@.take(j + 1).drop_last() =~= s@.take(j as int));
            let (x, y) = s[j];
            b.add(x, y, r);
            j = j + 1;
        }
        assert(s@.take(j as int) =~= s@);
        assert(d.take(i + 1).drop_last() =~= d.take(i as int));
        assert(d[i as int] == s@);
        i = i + 1;
    }
    assert(d.take(i as int) =~= d);
}

/// Widths of the lines.
fn widths(lines: &Vec<Line>) -> (r: Vec<i32>)
    requires
        lines_ok(lines@),
    ensures
        r@.len() == lines@.len(),
        forall|k: int| 0 <= k < r@.len() ==> #[trigger] r@[k] as int == lines@[k].width as int,
{
    let mut r: Vec<i32> = Vec::new();
    let mut i: usize = 0;
    while i < lines.len()
        invariant
            lines_ok(lines@),
            i <= lines@.len(),
            r@.len() == i,
            forall|k: int| 0 <= k < r@.len() ==> #[trigger] r@[k] as int == lines@[k].width as int,
        decreases lines@.len() - i,
    {
        assert(line_ok(lines@[i as int]));
        r.push(lines[i].width as i32);
        i = i + 1;
    }
    r
}

fn next_wobble(seed: &mut u32, Ghost(k): Ghost<nat>) -> (wob: i32)
    requires
        *old(seed) == lcg(k),
    ensures
        *final(seed) == lcg(k + 1),
        wob == wobble(k),
        -3 <= wob <= 3,
{
    *seed = seed.wrapping_mul(1664525).wrapping_add(1013904223);
    ((*seed >> 16) % 7) as i32 - 3
}

fn line_x(origin: Option<(i32, i32)>, width: i32) -> (x: i32)
    requires
        0 <= width <= ART_MAX,
        origin matches Some((ox, _)) ==> coord_ok(ox as int),
    ensures
        x == reply_x(origin, width as int),
        coord_ok(x as int),
{
    match origin {
        Some((ox, _)) => ox,
        None => {
            let v = SCREEN_W as i32 - width;
            if v >= 0 { v / 2 } else { -((-v) / 2) }
        },
    }
}

/// `p` is the reply plan that [`reply_layout`] makes of `lines`.
pub open spec fn laid_out(p: WritePlan, lines: Seq<Line>, y_start: Option<i32>, origin: Option<(i32, i32)>) -> bool {
    let lh = block_pitch(lines, REPLY_PITCH as int);
    let y0 = reply_y0(lines, y_start, origin);
    let placed = reply_placed(lines, lh, y0, origin);
    &&& deep(p.strokes@) == placed
    &&& p.stroke_i == 0
    &&& p.point_i == 0
    &&& p.region == box_strokes_r(placed, BBox { x0: i32::MAX, y0: i32::MAX, x1: i32::MIN, y1: i32::MIN }, 5)
    &&& p.next_y == y0 + lines.len() * lh
    &&& p.origin_x == match origin {
        Some((ox, _)) => Some(ox),
        None => None::<i32>,
    }
}

/// Lay out Tom's reply: rasterized lines thinned and traced, stacked down
/// the page with a little hand-like wobble, each line centered (or
/// left-aligned at `origin`). `y_start` continues a streamed reply below
/// its previous chunk and wins over the anchor's y.
#[verifier::rlimit(40)]
pub fn reply_layout(lines: Vec<Line>, y_start: Option<i32>, origin: Option<(i32, i32)>) -> (p: WritePlan)
    requires
        lines_ok(lines@),
        y_start matches Some(y) ==> coord_ok(y as int),
        origin matches Some((ox, oy)) ==> coord_ok(ox as int) && coord_ok(oy as int),
    ensures
        ({
            let lh = block_pitch(lines@, REPLY_PITCH as int);
            let y0 = reply_y0(lines@, y_start, origin);
            let placed = reply_placed(lines@, lh, y0, origin);
            &&& deep(p.strokes@) == placed
            &&& p.stroke_i == 0
            &&& p.point_i == 0
            &&& p.region == box_strokes_r(placed, BBox { x0: i32::MAX, y0: i32::MAX, x1: i32::MIN, y1: i32::MIN }, 5)
            &&& p.next_y == y0 + lines@.len() * lh
            &&& p.origin_x == match origin {
                Some((ox, _)) => Some(ox),
                None => None::<i32>,
            }
        }),
        p.region.on_page(),
{
    let ghost ls = lines@;
    let ws = widths(&lines);
    let n = lines.len();
    let (_w, total_h, line_h, prepared) = prepare_text(lines, REPLY_PITCH);
    assert(prepared@.len() == deep3(prepared@).len());
    let default_y: i32 = match origin {
        Some((_, oy)) => oy,
        None => {
            let v = SCREEN_H as i32 - total_h;
            let t = if v >= 0 { v / 3 } else { -((-v) / 3) };
            if t > 60 { t } else { 60 }
        },
    };
    let y0: i32 = match y_start {
        Some(y) => y,
        None => default_y,
    };
    assert(y0 as int == reply_y0(ls, y_start, origin));
    let mut strokes: Vec<Vec<(i32, i32)>> = Vec::new();
    let mut seed: u32 = 0x1234;
    let mut k: usize = 0;
    while k < n
        invariant
            n == ls.len(),
            n <= MAX_LINES,
            lines_ok(ls),
            k <= n,
            prepared@.len() == n,
            deep3(prepared@) == Seq::new(n as nat, |t: int| line_strokes(ls[t])),
            forall|t: int| 0 <= t < prepared@.len() ==> pts_within(#[trigger] deep3(prepared@)[t], ART_MAX as int),
            ws@.len() == n,
            forall|t: int| 0 <= t < n ==> #[trigger] ws@[t] as int == ls[t].width as int,
            line_h as int == block_pitch(ls, REPLY_PITCH as int),
            0 <= line_h <= ART_MAX + 200,
            origin matches Some((ox, oy)) ==> coord_ok(ox as int) && coord_ok(oy as int),
            -0x0800_0000 <= y0 <= 0x0800_0000,
            seed == lcg(k as nat),
            deep(strokes@) == reply_placed(ls.take(k as int), line_h as int, y0 as int, origin),
        decreases n - k,
    {
        let wob = next_wobble(&mut seed, Ghost(k as nat));
        let width = ws[k];
        assert(line_ok(ls[k as int]));
        let x0 = line_x(origin, width);
        assert(0 <= k * line_h <= MAX_LINES * (ART_MAX + 200)) by (nonlinear_arith)
            requires k <= MAX_LINES, 0 <= line_h <= ART_MAX + 200;
        let dy = y0 + (k as i32) * line_h + wob;
        let line = &prepared[k];
        assert(deep3(prepared@)[k as int] == deep(prepared@[k as int]@));
        assert(deep3(prepared@)[k as int] == line_strokes(ls[k as int]));
        assert(deep(line@) == line_strokes(ls[k as int]));
        assert(pts_small(deep(line@), COORD_MAX as int)) by {
            assert(pts_within(deep3(prepared@)[k as int], ART_MAX as int));
        }
        let mut moved = shift_all(line, x0, dy);
        let ghost o = deep(strokes@);
        let ghost sv = strokes@;
        let ghost mv = moved@;
        strokes.append(&mut moved);
        proof {
            assert(deep(strokes@) =~= o + deep(mv)) by {
                assert(strokes@ =~= sv + mv);
            }
            assert(ls.take(k + 1).drop_last() =~= ls.take(k as int));
            assert(ls.take(k + 1)[k as int] == ls[k as int]);
        }
        k = k + 1;
    }
    assert(ls.take(n as int) =~= ls);
    assert(0 <= n * line_h <= MAX_LINES * (ART_MAX + 200)) by (nonlinear_arith)
        requires n <= MAX_LINES, 0 <= line_h <= ART_MAX + 200;
    let next_y = y0 + (n as i32) * line_h;
    let mut region = BBox::empty();
    grow_box(&mut region, &strokes, 5);
    WritePlan {
        strokes,
        stroke_i: 0,
        point_i: 0,
        region,
        next_y,
        origin_x: match origin {
            Some((ox, _)) => Some(ox),
            None => None,
        },
    }
}

/// Splice a streamed continuation into a running write animation: its
/// strokes follow the current ones, its region joins the plan's, and the
/// next chunk starts below it. An empty continuation changes nothing.
pub fn append_reply(plan: &mut WritePlan, cont: WritePlan)
    requires
        old(plan).region.on_page(),
    ensures
        cont.strokes@.len() == 0 ==> *final(plan) == *old(plan),
        cont.strokes@.len() > 0 ==> {
            &&& deep(final(plan).strokes@) == deep(old(plan).strokes@) + deep(cont.strokes@)
            &&& final(plan).region == old(plan).region.added(cont.region.x0 as int, cont.region.y0 as int, 0).added(
                cont.region.x1 as int,
                cont.region.y1 as int,
                0,
            )
            &&& final(plan).next_y == cont.next_y
            &&& final(plan).stroke_i == old(plan).stroke_i
            &&& final(plan).point_i == old(plan).point_i
            &&& final(plan).origin_x == old(plan).origin_x
        },
        final(plan).region.on_page(),
{
    if cont.strokes.len() == 0 {
        return;
    }
    plan.region.add(cont.region.x0, cont.region.y0, 0);
    plan.region.add(cont.region.x1, cont.region.y1, 0);
    let mut more = cont.strokes;
    let ghost a = plan.strokes@;
    let ghost b = more@;
    plan.strokes.append(&mut more);
    assert(deep(plan.strokes@) =~= deep(a) + deep(b)) by {
        assert(plan.strokes@ =~= a + b);
    }
    plan.next_y = cont.next_y;
}

/// A memory being rewritten onto the page: positioned strokes with their
/// pen radii, the animation's position in them, and the dirty region.
pub struct ConjurePlan {
    pub strokes: Vec<Vec<(i32, i32, i32)>>,
    pub stroke_i: usize,
    pub point_i: usize,
    pub region: BBox,
}

/// The mathematical content of a [`ConjurePlan`].
pub ghost struct ConjureV {
    pub strokes: Seq<Seq<(i32, i32, i32)>>,
    pub stroke_i: int,
    pub point_i: int,
    pub region: BBox,
}

impl View for ConjurePlan {
    type V = ConjureV;

    open spec fn view(&self) -> ConjureV {
        ConjureV {
            strokes: self.strokes@.map_values(|s: Vec<(i32, i32, i32)>| s@),
            stroke_i: self.stroke_i as int,
            point_i: self.point_i as int,
            region: self.region,
        }
    }
}

/// Strokes drawn with pen radius `r`.
pub open spec fn with_radius(ss: Seq<Seq<(i32, i32)>>, r: i32) -> Seq<Seq<(i32, i32, i32)>> {
    ss.map_values(|s: Seq<(i32, i32)>| s.map_values(|p: (i32, i32)| (p.0, p.1, r)))
}

/// Recorded pen strokes without their timestamps.
pub open spec fn untimed(ss: Seq<Vec<(i32, i32, i32, u32)>>) -> Seq<Seq<(i32, i32, i32)>> {
    ss.map_values(|s: Vec<(i32, i32, i32, u32)>| s@.map_values(|p: (i32, i32, i32, u32)| (p.0, p.1, p.2)))
}

/// Lowest ink (largest y) over the strokes, starting from `b`.
pub open spec fn bottom_of(ss: Seq<Seq<(i32, i32, i32)>>, b: int) -> int
    decreases ss.len(),
{
    if ss.len() == 0 {
        b
    } else {
        bottom_pts(ss.last(), bottom_of(ss.drop_last(), b))
    }
}

pub open spec fn bottom_pts(pts: Seq<(i32, i32, i32)>, b: int) -> int
    decreases pts.len(),
{
    if pts.len() == 0 {
        b
    } else {
        let r = bottom_pts(pts.drop_last(), b);
        if pts.last().1 as int > r { pts.last().1 as int } else { r }
    }
}

/// The box after adding every pen point (radius plus 2) to `b`.
pub open spec fn box_pen3(ss: Seq<Seq<(i32, i32, i32)>>, b: BBox) -> BBox
    decreases ss.len(),
{
    if ss.len() == 0 {
        b
    } else {
        box_pen3_pts(ss.last(), box_pen3(ss.drop_last(), b))
    }
}

pub open spec fn box_pen3_pts(pts: Seq<(i32, i32, i32)>, b: BBox) -> BBox
    decreases pts.len(),
{
    if pts.len() == 0 {
        b
    } else {
        let p = pts.last();
        box_pen3_pts(pts.drop_last(), b).added(p.0 as int, p.1 as int, p.2 + 2)
    }
}

/// The date heading: the raster's strokes centered across the page, 64 px
/// from the top, drawn with radius 1.
pub open spec fn date_strokes(date: Line) -> Seq<Seq<(i32, i32, i32)>> {
    with_radius(shift_strokes(line_strokes(date), half_toward_zero(SCREEN_W - date.width), 64), 1)
}

/// All strokes of a summoned memory: the date, the writer's own strokes
/// exactly as penned, then Tom's old reply 130 px below the lowest ink (but
/// no lower than 400 px above the page bottom), drawn with radius 2.
pub open spec fn conjured(date: Line, memory: Seq<Vec<(i32, i32, i32, u32)>>, reply: Option<Vec<Line>>) -> Seq<Seq<(i32, i32, i32)>> {
    let head = date_strokes(date) + untimed(memory);
    match reply {
        None => head,
        Some(ls) => {
            let bottom = bottom_of(head, 64);
            let y = if bottom + 130 < SCREEN_H - 400 { bottom + 130 } else { SCREEN_H - 400 };
            head + with_radius(reply_placed(ls@, block_pitch(ls@, REPLY_PITCH as int), y, None), 2)
        },
    }
}

/// Memory strokes the layout can take.
pub open spec fn memory_ok(memory: Seq<Vec<(i32, i32, i32, u32)>>) -> bool {
    forall|i: int, j: int| 0 <= i < memory.len() && 0 <= j < memory[i]@.len() ==> {
        let p = #[trigger] memory[i]@[j];
        -2 <= p.2 <= i32::MAX - 2
    }
}

/// Attach pen radius `r` to every point, growing the region and the
/// lowest-ink mark as it goes.
fn pen_all(ss: &Vec<Vec<(i32, i32)>>, r: i32, out: &mut Vec<Vec<(i32, i32, i32)>>)
    ensures
        final(out)@.map_values(|s: Vec<(i32, i32, i32)>| s@) == old(out)@.map_values(|s: Vec<(i32, i32, i32)>| s@)
            + with_radius(deep(ss@), r),
{
    let ghost d = deep(ss@);
    let ghost o0 = old(out)@.map_values(|s: Vec<(i32, i32, i32)>| s@);
    let mut i: usize = 0;
    while i < ss.len()
        invariant
            d == deep(ss@),
            o0 == old(out)@.map_values(|s: Vec<(i32, i32, i32)>| s@),
            i <= ss@.len(),
            out@.map_values(|s: Vec<(i32, i32, i32)>| s@) == o0 + with_radius(d.take(i as int), r),
        decreases ss@.len() - i,
    {
        let s = &ss[i];
        let mut t: Vec<(i32, i32, i32)> = Vec::new();
        let mut j: usize = 0;
        while j < s.len()
            invariant
                j <= s@.len(),
                t@ == s@.take(j as int).map_values(|p: (i32, i32)| (p.0, p.1, r)),
            decreases s@.len() - j,
        {
            let (x, y) = s[j];
            t.push((x, y, r));
            assert(t@ =~= s@.take(j + 1).map_values(|p: (i32, i32)| (p.0, p.1, r)));
            j = j + 1;
        }
        assert(s@.take(j as int) =~= s@);
        let ghost before = out@;
        out.push(t);
        assert(out@.map_values(|s: Vec<(i32, i32, i32)>| s@) =~= o0 + with_radius(d.take(i + 1), r)) by {
            assert(out@.map_values(|s: Vec<(i32, i32, i32)>| s@) =~= before.map_values(|s: Vec<(i32, i32, i32)>| s@).push(t@));
            assert(with_radius(d.take(i + 1), r) =~= with_radius(d.take(i as int), r).push(t@));
        }
        i = i + 1;
    }
    assert(d.take(i as int) =~= d);
}

/// Drop the timestamps from recorded pen strokes.
fn untime_all(ss: &Vec<Vec<(i32, i32, i32, u32)>>, out: &mut Vec<Vec<(i32, i32, i32)>>)
    ensures
        final(out)@.map_values(|s: Vec<(i32, i32, i32)>| s@) == old(out)@.map_values(|s: Vec<(i32, i32, i32)>| s@)
            + untimed(ss@),
{
    let ghost o0 = old(out)@.map_values(|s: Vec<(i32, i32, i32)>| s@);
    let mut i: usize = 0;
    while i < ss.len()
        invariant
            o0 == old(out)@.map_values(|s: Vec<(i32, i32, i32)>| s@),
            i <= ss@.len(),
            out@.map_values(|s: Vec<(i32, i32, i32)>| s@) == o0 + untimed(ss@.take(i as int)),
        decreases ss@.len() - i,
    {
        let s = &ss[i];
        let mut t: Vec<(i32, i32, i32)> = Vec::new();
        let mut j: usize = 0;
        while j < s.len()
            invariant
                j <= s@.len(),
                t@ == s@.take(j as int).map_values(|p: (i32, i32, i32, u32)| (p.0, p.1, p.2)),
            decreases s@.len() - j,
        {
            let (x, y, r, _) = s[j];
            t.push((x, y, r));
            assert(t@ =~= s@.take(j + 1).map_values(|p: (i32, i32, i32, u32)| (p.0, p.1, p.2)));
            j = j + 1;
        }
        assert(s@.take(j as int) =~= s@);
        let ghost before = out@;
        out.push(t);
        assert(out@.map_values(|s: Vec<(i32, i32, i32)>| s@) =~= o0 + untimed(ss@.take(i + 1))) by {
            assert(out@.map_values(|s: Vec<(i32, i32, i32)>| s@) =~= before.map_values(|s: Vec<(i32, i32, i32)>| s@).push(t@));
            assert(untimed(ss@.take(i + 1)) =~= untimed(ss@.take(i as int)).push(t@));
        }
        i = i + 1;
    }
    assert(ss@.take(i as int) =~= ss@);
}

fn bottom_scan(ss: &Vec<Vec<(i32, i32, i32)>>, b: i64) -> (r: i64)
    requires
        b <= i32::MAX,
    ensures
        r == bottom_of(ss@.map_values(|s: Vec<(i32, i32, i32)>| s@), b as int),
        r <= i32::MAX,
{
    let ghost sv = ss@.map_values(|s: Vec<(i32, i32, i32)>| s@);
    let mut r: i64 = b;
    let mut i: usize = 0;
    while i < ss.len()
        invariant
            sv == ss@.map_values(|s: Vec<(i32, i32, i32)>| s@),
            i <= ss@.len(),
            r == bottom_of(sv.take(i as int), b as int),
            r <= i32::MAX,
            b <= i32::MAX,
        decreases ss@.len() - i,
    {
        let s = &ss[i];
        let ghost r0 = r;
        let mut j: usize = 0;
        while j < s.len()
            invariant
                j <= s@.len(),
                r == bottom_pts(s@.take(j as int), r0 as int),
                r <= i32::MAX,
            decreases s@.len() - j,
        {
            assert(s@.take(j + 1).drop_last() =~= s@.take(j as int));
            let y = s[j].1 as i64;
            if y > r {
                r = y;
            }
            j = j + 1;
        }
        assert(s@.take(j as int) =~= s@);
        assert(sv.take(i + 1).drop_last() =~= sv.take(i as int));
        assert(sv[i as int] == s@);
        i = i + 1;
    }
    assert(sv.take(i as int) =~= sv);
    r
}

/// Pen radii the region can take: every radius plus 2 is a valid radius.
pub open spec fn radii3_ok(ss: Seq<Seq<(i32, i32, i32)>>) -> bool {
    forall|i: int, j: int| 0 <= i < ss.len() && 0 <= j < ss[i].len() ==> -2 <= (#[trigger] ss[i][j]).2 <= i32::MAX - 2
}

fn grow_pen(b: &mut BBox, ss: &Vec<Vec<(i32, i32, i32)>>)
    requires
        old(b).on_page(),
        radii3_ok(ss@.map_values(|s: Vec<(i32, i32, i32)>| s@)),
    ensures
        *final(b) == box_pen3(ss@.map_values(|s: Vec<(i32, i32, i32)>| s@), *old(b)),
        final(b).on_page(),
{
    let ghost sv = ss@.map_values(|s: Vec<(i32, i32, i32)>| s@);
    let ghost b00 = *b;
    let mut i: usize = 0;
    while i < ss.len()
        invariant
            sv == ss@.map_values(|s: Vec<(i32, i32, i32)>| s@),
            radii3_ok(sv),
            b00 == *old(b),
            i <= ss@.len(),
            *b == box_pen3(sv.take(i as int), b00),
            b.on_page(),
        decreases ss@.len() - i,
    {
        let s = &ss[i];
        assert(sv[i as int] == s@);
        let ghost b0 = *b;
        let mut j: usize = 0;
        while j < s.len()
            invariant
                i < sv.len(),
                sv[i as int] == s@,
                radii3_ok(sv),
                j <= s@.len(),
                *b == box_pen3_pts(s@.take(j as int), b0),
                b.on_page(),
            decreases s@.len() - j,
        {
            assert(s@.take(j + 1).drop_last() =~= s@.take(j as int));
            let (x, y, r) = s[j];
            assert(-2 <= r <= i32::MAX - 2) by {
                assert(sv[i as int][j as int] == s@[j as int]);
            }
            b.add(x, y, r + 2);
            j = j + 1;
        }
        assert(s@.take(j as int) =~= s@);
        assert(sv.take(i + 1).drop_last() =~= sv.take(i as int));
        i = i + 1;
    }
    assert(sv.take(i as int) =~= sv);
}

/// Lay out a summoned memory: the date heading, the writer's own strokes
/// exactly as they were penned, then Tom's old reply below (when there is
/// one), all with the region they cover.
pub fn conjure_layout(date: Line, memory: &Vec<Vec<(i32, i32, i32, u32)>>, reply: Option<Vec<Line>>) -> (p: ConjurePlan)
    requires
        line_ok(date),
        memory_ok(memory@),
        reply matches Some(ls) ==> lines_ok(ls@),
    ensures
        p.strokes@.map_values(|s: Vec<(i32, i32, i32)>| s@) == conjured(date, memory@, reply),
        p.region == box_pen3(conjured(date, memory@, reply), BBox { x0: i32::MAX, y0: i32::MAX, x1: i32::MIN, y1: i32::MIN }),
        p.stroke_i == 0,
        p.point_i == 0,
        p.region.on_page(),
        radii3_ok(p@.strokes),
{
    let ghost r0 = reply;
    let mut raster = date;
    let ghost l0 = raster;
    let gw = raster.width as i32;
    thin(&mut raster);
    proof {
        crate::script::lemma_zs_thin_len(l0.mask@, l0.width as int, l0.height as int);
        crate::cardrender::lemma_line_strokes_within(l0);
    }
    let local = trace(&raster);
    assert(pts_small(deep(local@), COORD_MAX as int)) by {
        assert(pts_within(deep(local@), ART_MAX as int));
    }
    let v = SCREEN_W as i32 - gw;
    let x0 = if v >= 0 { v / 2 } else { -((-v) / 2) };
    let heading = shift_all(&local, x0, 64);
    let mut all: Vec<Vec<(i32, i32, i32)>> = Vec::new();
    assert(all@.map_values(|s: Vec<(i32, i32, i32)>| s@) =~= Seq::<Seq<(i32, i32, i32)>>::empty());
    pen_all(&heading, 1, &mut all);
    untime_all(memory, &mut all);
    let ghost head = all@.map_values(|s: Vec<(i32, i32, i32)>| s@);
    assert(head =~= date_strokes(l0) + untimed(memory@));
    match reply {
        None => {},
        Some(ls) => {
            let bottom = bottom_scan(&all, 64);
            let y: i64 = if bottom + 130 < SCREEN_H as i64 - 400 { bottom + 130 } else { SCREEN_H as i64 - 400 };
            proof {
                lemma_bottom_floor(head, 64);
            }
            let wp = reply_layout(ls, Some(y as i32), None);
            pen_all(&wp.strokes, 2, &mut all);
        },
    }
    let ghost cv = conjured(l0, memory@, r0);
    assert(all@.map_values(|s: Vec<(i32, i32, i32)>| s@) =~= cv);
    proof {
        lemma_conjured_radii(l0, memory@, r0);
    }
    let mut region = BBox::empty();
    grow_pen(&mut region, &all);
    ConjurePlan { strokes: all, stroke_i: 0, point_i: 0, region }
}

proof fn lemma_bottom_floor(ss: Seq<Seq<(i32, i32, i32)>>, b: int)
    ensures
        bottom_of(ss, b) >= b,
    decreases ss.len(),
{
    if ss.len() > 0 {
        lemma_bottom_floor(ss.drop_last(), b);
        lemma_bottom_pts_floor(ss.last(), bottom_of(ss.drop_last(), b));
    }
}

proof fn lemma_bottom_pts_floor(pts: Seq<(i32, i32, i32)>, b: int)
    ensures
        bottom_pts(pts, b) >= b,
    decreases pts.len(),
{
    if pts.len() > 0 {
        lemma_bottom_pts_floor(pts.drop_last(), b);
    }
}

proof fn lemma_conjured_radii(date: Line, memory: Seq<Vec<(i32, i32, i32, u32)>>, reply: Option<Vec<Line>>)
    requires
        memory_ok(memory),
    ensures
        radii3_ok(conjured(date, memory, reply)),
{
    let c = conjured(date, memory, reply);
    let d = date_strokes(date);
    let u = untimed(memory);
    assert forall|i: int, j: int| 0 <= i < c.len() && 0 <= j < c[i].len() implies -2 <= (#[trigger] c[i][j]).2 <= i32::MAX - 2 by {
        if i < d.len() {
            assert(c[i] == d[i]);
        } else if i < d.len() + u.len() {
            assert(c[i] == u[i - d.len()]);
            assert(u[i - d.len()][j] == (memory[i - d.len()]@[j].0, memory[i - d.len()]@[j].1, memory[i - d.len()]@[j].2));
        } else {
        }
    }
}
} // verus!
