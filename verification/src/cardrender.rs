//! Card -> render plan: turns a parsed card into concrete screen-space
//! stroke plans the animation loop can draw, using the placement resolver
//! and art already rasterized for the card (text lines, numerals, glyphs,
//! shape and stamp outlines scaled to their boxes).
use crate::cards::{clamp_norm, clamp_norm_spec, strokes_view, Card, CardCommon, CountStyle, NORM_ONE, Pace, Place, Size, TraceGuide, TraceKind};
use crate::geom::{BBox, SCREEN_H, SCREEN_W};
use crate::layout::{cheb, resolve, resolve_spec, opt_point, spot_params, Anchor, InkGrid, InkMap, DEFAULT_MARGIN};
use crate::script::{deep, thin, trace, traced, zs_thin, Line};
use crate::surface::{BLACK, FADED};
use vstd::prelude::*;

verus! {

/// One card's worth of screen-space drawing: ordered strokes, ink color,
/// the animation speed (points drawn per frame), and the dirty region,
/// already marked occupied on the ink map.
pub struct RenderPlan {
    pub strokes: Vec<Vec<(i32, i32)>>,
    pub color: u16,
    pub points_per_frame: i32,
    pub region: BBox,
}

/// The mathematical content of a [`RenderPlan`].
pub ghost struct PlanV {
    pub strokes: Seq<Seq<(i32, i32)>>,
    pub color: u16,
    pub points_per_frame: i32,
    pub region: BBox,
}

impl View for RenderPlan {
    type V = PlanV;

    open spec fn view(&self) -> PlanV {
        PlanV {
            strokes: deep(self.strokes@),
            color: self.color,
            points_per_frame: self.points_per_frame,
            region: self.region,
        }
    }
}

/// The views of a list of plans.
pub open spec fn plans_view(v: Seq<RenderPlan>) -> Seq<PlanV> {
    v.map_values(|p: RenderPlan| p@)
}

/// Square placement-box side, in pixels, for each size tier.
pub open spec fn box_of(size: Size) -> i32 {
    match size {
        Size::S => 243,
        Size::M => 486,
        Size::L => 810,
    }
}

/// Square placement-box side, in pixels, for each size tier.
pub fn size_box(size: Size) -> (r: i32)
    ensures
        r == box_of(size),
{
    match size {
        Size::S => 243,
        Size::M => 486,
        Size::L => 810,
    }
}

/// Line pitch of a text card at each size tier: the font size times 1.45,
/// rounded down (44, 56 and 84 px fonts).
pub open spec fn pitch_of(size: Size) -> i32 {
    match size {
        Size::S => 63,
        Size::M => 81,
        Size::L => 121,
    }
}

pub fn text_pitch(size: Size) -> (r: i32)
    ensures
        r == pitch_of(size),
{
    match size {
        Size::S => 63,
        Size::M => 81,
        Size::L => 121,
    }
}

/// Widest a top-level text card wraps at each size tier: twice its box,
/// but never past 1380 px.
pub open spec fn wrap_width_of(size: Size) -> i32 {
    if 2 * box_of(size) < 1380 { (2 * box_of(size)) as i32 } else { 1380 }
}

pub fn text_wrap_width(size: Size) -> (r: i32)
    ensures
        r == wrap_width_of(size),
{
    let b = size_box(size);
    if 2 * b < 1380 { 2 * b } else { 1380 }
}

/// Points per frame for the animation loop, by pace.
pub open spec fn ppf_of(pace: Pace) -> i32 {
    match pace {
        Pace::Normal => 26,
        Pace::Slow => 8,
    }
}

pub fn ppf(pace: Pace) -> (r: i32)
    ensures
        r == ppf_of(pace),
{
    match pace {
        Pace::Normal => 26,
        Pace::Slow => 8,
    }
}

/// The shrink ladder a card's box steps down when the larger size does not
/// fit anywhere: L -> M -> S, starting at the requested size.
pub open spec fn ladder_of(size: Size) -> Seq<Size> {
    match size {
        Size::L => seq![Size::L, Size::M, Size::S],
        Size::M => seq![Size::M, Size::S],
        Size::S => seq![Size::S],
    }
}

pub fn size_ladder(size: Size) -> (r: Vec<Size>)
    ensures
        r@ == ladder_of(size),
{
    let mut v: Vec<Size> = Vec::new();
    match size {
        Size::L => {
            v.push(Size::L);
            v.push(Size::M);
            v.push(Size::S);
        },
        Size::M => {
            v.push(Size::M);
            v.push(Size::S);
        },
        Size::S => {
            v.push(Size::S);
        },
    }
    assert(v@ =~= ladder_of(size));
    v
}

/// A normalized coordinate (millionths) in pixels over `extent`, rounded
/// to nearest.
pub open spec fn norm_px(n: i64, extent: int) -> int {
    (n * extent + 500000) / 1000000
}

fn to_px(n: i64, extent: i64) -> (r: i32)
    requires
        0 <= n <= NORM_ONE,
        0 <= extent <= 4096,
    ensures
        r == norm_px(n, extent as int),
        0 <= r <= extent,
{
    let ghost ni = n as int;
    let ghost ei = extent as int;
    assert(0 <= ni * ei <= 1000000 * ei) by (nonlinear_arith)
        requires 0 <= ni <= 1000000, 0 <= ei;
    let v = (n * extent + NORM_ONE / 2) / NORM_ONE;
    assert(v <= extent) by (nonlinear_arith)
        requires v as int == (ni * ei + 500000) / 1000000, ni * ei <= 1000000 * ei, ei == extent, 0 <= ei;
    v as i32
}

/// Where a card's placement search seeds from.
pub open spec fn seed_of(common: CardCommon, new_ink: (i32, i32)) -> Anchor {
    match common.place {
        Place::NearNewInk => Anchor::Point(new_ink.0, new_ink.1),
        Place::NearAnchor => match common.anchor_norm {
            Some((nx, ny)) => Anchor::Point(
                norm_px(clamp_norm_spec(nx), SCREEN_W as int) as i32,
                norm_px(clamp_norm_spec(ny), SCREEN_H as int) as i32,
            ),
            None => Anchor::Nowhere,
        },
        _ => Anchor::Nowhere,
    }
}

/// Where a card's placement search should seed from: the new ink for
/// `NearNewInk`, the card's own anchor (in pixels) for `NearAnchor`, or
/// nothing for the placements that pick their own seed.
pub fn seed_anchor(common: &CardCommon, new_ink_anchor: (i32, i32)) -> (a: Anchor)
    ensures
        a == seed_of(*common, new_ink_anchor),
{
    match common.place {
        Place::NearNewInk => Anchor::Point(new_ink_anchor.0, new_ink_anchor.1),
        Place::NearAnchor => match common.anchor_norm {
            Some((nx, ny)) => Anchor::Point(to_px(clamp_norm(nx), SCREEN_W as i64), to_px(clamp_norm(ny), SCREEN_H as i64)),
            None => Anchor::Nowhere,
        },
        _ => Anchor::Nowhere,
    }
}

/// A page child's normalized rect in pixels (each fraction clamped into
/// the page first).
pub open spec fn pixel_rect_of(r: (i64, i64, i64, i64)) -> (i32, i32, i32, i32) {
    (
        norm_px(clamp_norm_spec(r.0), SCREEN_W as int) as i32,
        norm_px(clamp_norm_spec(r.1), SCREEN_H as int) as i32,
        norm_px(clamp_norm_spec(r.2), SCREEN_W as int) as i32,
        norm_px(clamp_norm_spec(r.3), SCREEN_H as int) as i32,
    )
}

pub fn pixel_rect(rect_norm: (i64, i64, i64, i64)) -> (r: (i32, i32, i32, i32))
    ensures
        r == pixel_rect_of(rect_norm),
        0 <= r.0 <= SCREEN_W,
        0 <= r.1 <= SCREEN_H,
        0 <= r.2 <= SCREEN_W,
        0 <= r.3 <= SCREEN_H,
{
    (
        to_px(clamp_norm(rect_norm.0), SCREEN_W as i64),
        to_px(clamp_norm(rect_norm.1), SCREEN_H as i64),
        to_px(clamp_norm(rect_norm.2), SCREEN_W as i64),
        to_px(clamp_norm(rect_norm.3), SCREEN_H as i64),
    )
}

} // verus!

verus! {

/// The box after adding every point of `pts` (radius 4) to `b`.
pub open spec fn box_pts(pts: Seq<(i32, i32)>, b: BBox) -> BBox
    decreases pts.len(),
{
    if pts.len() == 0 {
        b
    } else {
        box_pts(pts.drop_last(), b).added(pts.last().0 as int, pts.last().1 as int, 4)
    }
}

/// The box after adding every point of every stroke (radius 4) to `b`.
pub open spec fn box_strokes(ss: Seq<Seq<(i32, i32)>>, b: BBox) -> BBox
    decreases ss.len(),
{
    if ss.len() == 0 {
        b
    } else {
        box_pts(ss.last(), box_strokes(ss.drop_last(), b))
    }
}

/// The empty box.
pub open spec fn no_box() -> BBox {
    BBox { x0: i32::MAX, y0: i32::MAX, x1: i32::MIN, y1: i32::MIN }
}

/// A plan over `ss`, or `None` when it carries no ink at all.
pub open spec fn plan_of(ss: Seq<Seq<(i32, i32)>>, color: u16, ppf: i32) -> Option<PlanV> {
    let region = box_strokes(ss, no_box());
    if region.is_empty_spec() {
        None
    } else {
        Some(PlanV { strokes: ss, color, points_per_frame: ppf, region })
    }
}

pub open spec fn opt_plan_view(p: Option<RenderPlan>) -> Option<PlanV> {
    match p {
        Some(plan) => Some(plan@),
        None => None,
    }
}

/// Build a plan from finished screen-space strokes, or `None` if they carry
/// no ink at all — callers drop the card quietly rather than push a plan
/// with a degenerate region.
fn make_plan(strokes: Vec<Vec<(i32, i32)>>, color: u16, points_per_frame: i32) -> (r: Option<RenderPlan>)
    ensures
        opt_plan_view(r) == plan_of(deep(strokes@), color, points_per_frame),
        r matches Some(p) ==> p.region.on_page(),
{
    let ghost ss = deep(strokes@);
    let mut region = BBox::empty();
    let mut i: usize = 0;
    while i < strokes.len()
        invariant
            ss == deep(strokes@),
            i <= strokes@.len(),
            region == box_strokes(ss.take(i as int), no_box()),
            region.on_page(),
        decreases strokes@.len() - i,
    {
        let s = &strokes[i];
        let ghost b0 = region;
        let mut j: usize = 0;
        while j < s.len()
            invariant
                i < strokes@.len(),
                s@ == ss[i as int],
                j <= s@.len(),
                region == box_pts(s@.take(j as int), b0),
                region.on_page(),
            decreases s@.len() - j,
        {
            assert(s@.take(j + 1).drop_last() =~= s@.take(j as int));
            let (x, y) = s[j];
            region.add(x, y, 4);
            j = j + 1;
        }
        assert(s@.take(j as int) =~= s@);
        assert(ss.take(i + 1).drop_last() =~= ss.take(i as int));
        i = i + 1;
    }
    assert(ss.take(i as int) =~= ss);
    if region.is_empty() {
        None
    } else {
        Some(RenderPlan { strokes, color, points_per_frame, region })
    }
}

/// Plans and ink map after committing `plan`: its region is marked and it
/// joins the list.
pub open spec fn commit_of(plan: Option<PlanV>, g: InkGrid, out: Seq<PlanV>) -> (Seq<PlanV>, InkGrid) {
    match plan {
        Some(p) => {
            let r = p.region.rect_spec();
            (out.push(p), g.marked(r.0 as int, r.1 as int, r.2 as int, r.3 as int))
        },
        None => (out, g),
    }
}

/// Push `plan` (if any) onto `out`, marking its region on `map` at once, so
/// instance #2 of a multi-plan card never lands on top of instance #1.
fn commit(plan: Option<RenderPlan>, map: &mut InkMap, out: &mut Vec<RenderPlan>)
    requires
        old(map)@.wf(),
        plan matches Some(p) ==> p.region.on_page(),
    ensures
        final(map)@.wf(),
        final(map)@.screen_w == old(map)@.screen_w,
        final(map)@.screen_h == old(map)@.screen_h,
        (plans_view(final(out)@), final(map)@) == commit_of(opt_plan_view(plan), old(map)@, plans_view(old(out)@)),
{
    match plan {
        Some(p) => {
            let (x, y, w, h) = p.region.rect();
            map.mark_rect(x, y, w, h);
            let ghost o = out@;
            out.push(p);
            assert(plans_view(out@) =~= plans_view(o).push(p@));
        },
        None => {},
    }
}

/// The first step of the ladder whose square box fits, with where it goes.
pub open spec fn boxed_from(g: InkGrid, common: CardCommon, anchor: Anchor, k: int) -> Option<(int, (int, int))>
    decreases ladder_of(common.size).len() - k,
{
    let ladder = ladder_of(common.size);
    if k < 0 || k >= ladder.len() {
        None
    } else {
        let b = box_of(ladder[k]) as int;
        match resolve_spec(g, common.place, anchor, b, b) {
            Some(p) => Some((k, p)),
            None => boxed_from(g, common, anchor, k + 1),
        }
    }
}

/// Resolve a square box for `common`, shrinking down the ladder until one
/// fits: the ladder step, its size and the box's top-left.
fn resolve_boxed(map: &InkMap, common: &CardCommon, anchor: Anchor) -> (r: Option<(usize, Size, i32, i32)>)
    requires
        map@.wf(),
    ensures
        match r {
            Some((k, size, x, y)) => boxed_from(map@, *common, anchor, 0) == Some((k as int, (x as int, y as int)))
                && size == ladder_of(common.size)[k as int]
                && 0 <= x <= map@.screen_w && 0 <= y <= map@.screen_h,
            None => boxed_from(map@, *common, anchor, 0) is None,
        },
{
    let ladder = size_ladder(common.size);
    let mut k: usize = 0;
    while k < ladder.len()
        invariant
            map@.wf(),
            ladder@ == ladder_of(common.size),
            k <= ladder@.len(),
            boxed_from(map@, *common, anchor, k as int) == boxed_from(map@, *common, anchor, 0),
        decreases ladder@.len() - k,
    {
        let size = ladder[k];
        let b = size_box(size);
        match resolve(map, &common.place, anchor, b, b) {
            Some((x, y)) => {
                proof {
                    crate::layout::law_resolve_in_page(map@, common.place, anchor, b as int, b as int);
                }
                return Some((k, size, x, y));
            },
            None => {},
        }
        k = k + 1;
    }
    None
}

} // verus!

verus! {

/// Largest raster side, and largest number of lines, a card's art may have.
pub const ART_MAX: usize = 65536;
/// Most wrapped lines a text block may have.
pub const MAX_LINES: usize = 4096;

/// A rasterized line the planner can take: consistent and of sane size.
pub open spec fn line_ok(l: Line) -> bool {
    l.wf() && l.width <= ART_MAX && l.height <= ART_MAX
}

/// The pen strokes of a rasterized line: thinned, then traced.
pub open spec fn line_strokes(l: Line) -> Seq<Seq<(i32, i32)>> {
    traced(zs_thin(l.mask@, l.width as int, l.height as int), l.width as int, l.height as int)
}

/// Widest line (0 for none).
pub open spec fn max_width(ls: Seq<Line>) -> int
    decreases ls.len(),
{
    if ls.len() == 0 {
        0
    } else {
        let r = max_width(ls.drop_last());
        if ls.last().width as int > r { ls.last().width as int } else { r }
    }
}

/// Line pitch: at least `pitch`, and at least each line's height plus 10.
pub open spec fn block_pitch(ls: Seq<Line>, pitch: int) -> int
    decreases ls.len(),
{
    if ls.len() == 0 {
        pitch
    } else {
        let r = block_pitch(ls.drop_last(), pitch);
        if ls.last().height + 10 > r { ls.last().height + 10 } else { r }
    }
}

/// Three-level point sequences.
pub open spec fn deep3(v: Seq<Vec<Vec<(i32, i32)>>>) -> Seq<Seq<Seq<(i32, i32)>>> {
    v.map_values(|x: Vec<Vec<(i32, i32)>>| deep(x@))
}

/// Every point lies in `0..bound` on both axes.
pub open spec fn pts_within(ss: Seq<Seq<(i32, i32)>>, bound: int) -> bool {
    forall|i: int, j: int| 0 <= i < ss.len() && 0 <= j < ss[i].len() ==> {
        let p = #[trigger] ss[i][j];
        0 <= p.0 < bound && 0 <= p.1 < bound
    }
}

pub(crate) proof fn lemma_line_strokes_within(l: Line)
    requires
        line_ok(l),
    ensures
        pts_within(line_strokes(l), ART_MAX as int),
{
    let w = l.width as int;
    let h = l.height as int;
    let t = zs_thin(l.mask@, w, h);
    crate::script::lemma_zs_thin_len(l.mask@, w, h);
    crate::script::law_traced_points_inked(t, w, h);
    let ss = line_strokes(l);
    assert forall|i: int, j: int| 0 <= i < ss.len() && 0 <= j < ss[i].len() implies {
        let p = #[trigger] ss[i][j];
        0 <= p.0 < ART_MAX && 0 <= p.1 < ART_MAX
    } by {
        assert(crate::script::stroke_on_ink(ss[i], t, w, h));
    }
}

/// Thin and trace each wrapped line: the block's width, its height, the
/// pitch the lines stack at, and each line's raster-local strokes.
pub(crate) fn prepare_text(lines: Vec<Line>, pitch: i32) -> (r: (i32, i32, i32, Vec<Vec<Vec<(i32, i32)>>>))
    requires
        forall|k: int| 0 <= k < lines@.len() ==> line_ok(#[trigger] lines@[k]),
        lines@.len() <= MAX_LINES,
        0 <= pitch <= 200,
    ensures
        r.0 == max_width(lines@),
        r.2 == block_pitch(lines@, pitch as int),
        r.1 == r.2 * lines@.len(),
        deep3(r.3@) == Seq::new(lines@.len(), |k: int| line_strokes(lines@[k])),
        0 <= r.0 <= ART_MAX,
        0 <= r.2 <= ART_MAX + 200,
        forall|k: int| 0 <= k < r.3@.len() ==> pts_within(#[trigger] deep3(r.3@)[k], ART_MAX as int),
{
    let ghost all = lines@;
    let n = lines.len();
    let mut lines = lines;
    let mut w: i32 = 0;
    let mut line_h: i32 = pitch;
    let mut out: Vec<Vec<Vec<(i32, i32)>>> = Vec::new();
    let mut k: usize = 0;
    while k < n
        invariant
            n == all.len(),
            n <= MAX_LINES,
            0 <= pitch <= 200,
            forall|t: int| 0 <= t < all.len() ==> line_ok(#[trigger] all[t]),
            k <= n,
            lines@ == all.skip(k as int),
            w == max_width(all.take(k as int)),
            line_h == block_pitch(all.take(k as int), pitch as int),
            0 <= w <= ART_MAX,
            0 <= line_h <= ART_MAX + 200,
            deep3(out@) == Seq::new(k as nat, |t: int| line_strokes(all[t])),
            forall|t: int| 0 <= t < out@.len() ==> pts_within(#[trigger] deep3(out@)[t], ART_MAX as int),
        decreases n - k,
    {
        let mut raster = lines.remove(0);
        assert(raster == all[k as int]);
        assert(all.take(k + 1).drop_last() =~= all.take(k as int));
        let ghost l0 = raster;
        thin(&mut raster);
        proof {
            crate::script::lemma_zs_thin_len(l0.mask@, l0.width as int, l0.height as int);
        }
        let strokes = trace(&raster);
        proof {
            lemma_line_strokes_within(l0);
        }
        if raster.height as i32 + 10 > line_h {
            line_h = raster.height as i32 + 10;
        }
        if raster.width as i32 > w {
            w = raster.width as i32;
        }
        let ghost o = out@;
        out.push(strokes);
        assert(deep3(out@) =~= Seq::new((k + 1) as nat, |t: int| line_strokes(all[t]))) by {
            assert(deep3(out@) =~= deep3(o).push(deep(strokes@)));
        }
        assert forall|t: int| 0 <= t < out@.len() implies pts_within(#[trigger] deep3(out@)[t], ART_MAX as int) by {
            assert(deep3(out@) =~= deep3(o).push(deep(strokes@)));
            if t < o.len() {
                assert(deep3(out@)[t] == deep3(o)[t]);
            } else {
                assert(deep3(out@)[t] == line_strokes(l0));
            }
        }
        k = k + 1;
        assert(lines@ =~= all.skip(k as int));
    }
    assert(all.take(n as int) =~= all);
    assert(0 <= line_h * n <= (ART_MAX + 200) * MAX_LINES) by (nonlinear_arith)
        requires 0 <= line_h <= ART_MAX + 200, n <= MAX_LINES;
    let h = line_h * n as i32;
    (w, h, line_h, out)
}

} // verus!

verus! {

/// Offsets and coordinates kept below this magnitude never overflow `i32`
/// when added.
pub const COORD_MAX: i32 = 0x2000_0000;

/// A stroke moved by `(dx, dy)`.
pub open spec fn shift_stroke(s: Seq<(i32, i32)>, dx: int, dy: int) -> Seq<(i32, i32)> {
    s.map_values(|p: (i32, i32)| ((p.0 + dx) as i32, (p.1 + dy) as i32))
}

/// Strokes moved by `(dx, dy)`.
pub open spec fn shift_strokes(ss: Seq<Seq<(i32, i32)>>, dx: int, dy: int) -> Seq<Seq<(i32, i32)>> {
    ss.map_values(|s: Seq<(i32, i32)>| shift_stroke(s, dx, dy))
}

/// Every point lies within `bound` of the origin on both axes.
pub open spec fn pts_small(ss: Seq<Seq<(i32, i32)>>, bound: int) -> bool {
    forall|i: int, j: int| 0 <= i < ss.len() && 0 <= j < ss[i].len() ==> {
        let p = #[trigger] ss[i][j];
        -bound <= p.0 <= bound && -bound <= p.1 <= bound
    }
}

fn shift_one(s: &Vec<(i32, i32)>, dx: i32, dy: i32) -> (r: Vec<(i32, i32)>)
    requires
        forall|j: int| 0 <= j < s@.len() ==> {
            let p = #[trigger] s@[j];
            -COORD_MAX <= p.0 <= COORD_MAX && -COORD_MAX <= p.1 <= COORD_MAX
        },
        -COORD_MAX <= dx <= COORD_MAX,
        -COORD_MAX <= dy <= COORD_MAX,
    ensures
        r@ == shift_stroke(s@, dx as int, dy as int),
{
    let mut r: Vec<(i32, i32)> = Vec::new();
    let mut j: usize = 0;
    while j < s.len()
        invariant
            j <= s@.len(),
            -COORD_MAX <= dx <= COORD_MAX,
            -COORD_MAX <= dy <= COORD_MAX,
            forall|t: int| 0 <= t < s@.len() ==> {
                let p = #[trigger] s@[t];
                -COORD_MAX <= p.0 <= COORD_MAX && -COORD_MAX <= p.1 <= COORD_MAX
            },
            r@ == shift_stroke(s@.take(j as int), dx as int, dy as int),
        decreases s@.len() - j,
    {
        let (x, y) = s[j];
        assert(s@[j as int] == (x, y));
        r.push((x + dx, y + dy));
        assert(r@ =~= shift_stroke(s@.take(j + 1), dx as int, dy as int));
        j = j + 1;
    }
    assert(s@.take(j as int) =~= s@);
    r
}

/// Move strokes by `(dx, dy)`.
pub(crate) fn shift_all(ss: &Vec<Vec<(i32, i32)>>, dx: i32, dy: i32) -> (r: Vec<Vec<(i32, i32)>>)
    requires
        pts_small(deep(ss@), COORD_MAX as int),
        -COORD_MAX <= dx <= COORD_MAX,
        -COORD_MAX <= dy <= COORD_MAX,
    ensures
        deep(r@) == shift_strokes(deep(ss@), dx as int, dy as int),
{
    let ghost d = deep(ss@);
    let mut r: Vec<Vec<(i32, i32)>> = Vec::new();
    let mut i: usize = 0;
    while i < ss.len()
        invariant
            d == deep(ss@),
            i <= ss@.len(),
            -COORD_MAX <= dx <= COORD_MAX,
            -COORD_MAX <= dy <= COORD_MAX,
            pts_small(d, COORD_MAX as int),
            deep(r@) == shift_strokes(d.take(i as int), dx as int, dy as int),
        decreases ss@.len() - i,
    {
        let s = &ss[i];
        assert(s@ == d[i as int]);
        assert forall|j: int| 0 <= j < s@.len() implies {
            let p = #[trigger] s@[j];
            -COORD_MAX <= p.0 <= COORD_MAX && -COORD_MAX <= p.1 <= COORD_MAX
        } by {
            assert(s@[j] == d[i as int][j]);
        }
        let t = shift_one(s, dx, dy);
        let ghost r0 = r@;
        r.push(t);
        assert(deep(r@) =~= deep(r0).push(t@));
        assert(deep(r@) =~= shift_strokes(d.take(i + 1), dx as int, dy as int));
        i = i + 1;
    }
    assert(d.take(i as int) =~= d);
    r
}

/// Lines of strokes placed left-aligned at `(x0, y0)`, stacked down by
/// `line_h`.
pub open spec fn placed_text(pre: Seq<Seq<Seq<(i32, i32)>>>, line_h: int, x0: int, y0: int) -> Seq<Seq<(i32, i32)>>
    decreases pre.len(),
{
    if pre.len() == 0 {
        Seq::empty()
    } else {
        placed_text(pre.drop_last(), line_h, x0, y0) + shift_strokes(pre.last(), x0, y0 + (pre.len() - 1) * line_h)
    }
}

/// Place prepared line strokes left-aligned at `(x0, y0)`, stacked
/// downward by `line_h`.
fn place_text(prepared: Vec<Vec<Vec<(i32, i32)>>>, line_h: i32, x0: i32, y0: i32) -> (r: Vec<Vec<(i32, i32)>>)
    requires
        forall|k: int| 0 <= k < prepared@.len() ==> pts_within(#[trigger] deep3(prepared@)[k], ART_MAX as int),
        prepared@.len() <= MAX_LINES,
        0 <= line_h <= ART_MAX + 200,
        0 <= x0 <= 0x100000,
        0 <= y0 <= 0x100000,
    ensures
        deep(r@) == placed_text(deep3(prepared@), line_h as int, x0 as int, y0 as int),
{
    let ghost pre = deep3(prepared@);
    let mut out: Vec<Vec<(i32, i32)>> = Vec::new();
    let mut k: usize = 0;
    while k < prepared.len()
        invariant
            pre == deep3(prepared@),
            k <= prepared@.len(),
            prepared@.len() <= MAX_LINES,
            forall|t: int| 0 <= t < prepared@.len() ==> pts_within(#[trigger] deep3(prepared@)[t], ART_MAX as int),
            0 <= line_h <= ART_MAX + 200,
            0 <= x0 <= 0x100000,
            0 <= y0 <= 0x100000,
            deep(out@) == placed_text(pre.take(k as int), line_h as int, x0 as int, y0 as int),
        decreases prepared@.len() - k,
    {
        assert(0 <= k * line_h <= MAX_LINES * (ART_MAX + 200)) by (nonlinear_arith)
            requires k <= MAX_LINES, 0 <= line_h <= ART_MAX + 200;
        let y = y0 + (k as i32) * line_h;
        let line = &prepared[k];
        assert(deep(line@) == pre[k as int]);
        assert(pts_small(deep(line@), COORD_MAX as int)) by {
            assert(pts_within(pre[k as int], ART_MAX as int));
        }
        let mut moved = shift_all(line, x0, y);
        let ghost o = out@;
        let ghost mv = moved@;
        out.append(&mut moved);
        proof {
            assert(deep(out@) =~= deep(o) + deep(mv));
            assert(pre.take(k + 1).drop_last() =~= pre.take(k as int));
        }
        k = k + 1;
    }
    assert(pre.take(k as int) =~= pre);
    out
}

} // verus!

verus! {

/// What a card needs drawn by the font and the shape library before it can
/// be planned; fields a card does not use stay empty.
pub struct CardArt {
    /// Text cards and counts drawn as numbers: for each step of the card's
    /// size ladder (for a page child, with the rect's width as the wrap
    /// width), the wrapped lines rasterized at that step's size.
    pub text_lines: Vec<Vec<Line>>,
    /// Counts drawn as dots: the numerals 1, 2, ... rasterized.
    pub numerals: Vec<Line>,
    /// Counts drawn as dots: a closed circle of the dot radius around the
    /// origin.
    pub dot_circle: Vec<(i32, i32)>,
    /// Stamp cards: the stamp's strokes scaled to the stamp box, relative
    /// to its top-left; `None` for a stamp the library does not have.
    pub stamp: Option<Vec<Vec<(i32, i32)>>>,
    /// Hanzi trace cards: for each candidate box (each ladder step; for a
    /// page child the one box in its rect), the first character rasterized
    /// to fit the box; `None` when the content is empty.
    pub glyphs: Vec<Option<Line>>,
    /// Shape trace cards: for each candidate box, the shape's strokes
    /// scaled to the box, relative to its top-left; `None` for an unknown
    /// shape.
    pub shapes: Vec<Option<Vec<Vec<(i32, i32)>>>>,
    /// Page cards: one entry per layout item, in order.
    pub children: Vec<CardArt>,
}

/// Every raster is consistent and of sane size, and every outline is
/// small.
pub open spec fn art_ok(a: CardArt) -> bool
    decreases a,
{
    &&& forall|k: int| 0 <= k < a.text_lines@.len() ==> lines_ok(#[trigger] a.text_lines@[k]@)
    &&& lines_ok(a.numerals@)
    &&& forall|j: int| 0 <= j < a.dot_circle@.len() ==> {
        let p = #[trigger] a.dot_circle@[j];
        -ART_MAX <= p.0 <= ART_MAX && -ART_MAX <= p.1 <= ART_MAX
    }
    &&& a.stamp matches Some(s) ==> pts_small(deep(s@), ART_MAX as int)
    &&& forall|k: int| 0 <= k < a.glyphs@.len() ==> (#[trigger] a.glyphs@[k] matches Some(l) ==> line_ok(l))
    &&& forall|k: int| 0 <= k < a.shapes@.len() ==> (#[trigger] a.shapes@[k] matches Some(s) ==> pts_small(deep(s@), ART_MAX as int))
    &&& forall|k: int| 0 <= k < a.children@.len() ==> {
        proof {
            assert(decreases_to!(a => a.children));
        }
        art_ok(#[trigger] a.children@[k])
    }
}

/// Rasters the planner can take, and not too many of them.
pub open spec fn lines_ok(ls: Seq<Line>) -> bool {
    ls.len() <= MAX_LINES && forall|t: int| 0 <= t < ls.len() ==> line_ok(#[trigger] ls[t])
}

} // verus!

verus! {

/// The lines of ladder step `k` (none when the art has no such step).
pub open spec fn step_lines(steps: Seq<Vec<Line>>, k: int) -> Seq<Line> {
    if 0 <= k < steps.len() { steps[k]@ } else { Seq::empty() }
}

/// Each line's pen strokes.
pub open spec fn prepared_of(ls: Seq<Line>) -> Seq<Seq<Seq<(i32, i32)>>> {
    Seq::new(ls.len(), |t: int| line_strokes(ls[t]))
}

/// Top-level text placement from ladder step `k` on: the first step whose
/// block fits somewhere and carries ink is placed and committed.
pub open spec fn text_from(g: InkGrid, common: CardCommon, anchor: Anchor, steps: Seq<Vec<Line>>, k: int) -> (Seq<PlanV>, InkGrid)
    decreases ladder_of(common.size).len() - k,
{
    let ladder = ladder_of(common.size);
    if k < 0 || k >= ladder.len() {
        (Seq::empty(), g)
    } else {
        let ls = step_lines(steps, k);
        if ls.len() == 0 {
            text_from(g, common, anchor, steps, k + 1)
        } else {
            let lh = block_pitch(ls, pitch_of(ladder[k]) as int);
            match resolve_spec(g, common.place, anchor, max_width(ls), lh * ls.len()) {
                None => text_from(g, common, anchor, steps, k + 1),
                Some((x0, y0)) => match plan_of(placed_text(prepared_of(ls), lh, x0, y0), BLACK, ppf_of(common.pace)) {
                    Some(p) => commit_of(Some(p), g, Seq::empty()),
                    None => text_from(g, common, anchor, steps, k + 1),
                },
            }
        }
    }
}

/// Take entry `k` out of `v`, leaving a default in its place (a default
/// when there is no such entry).
fn take_at<T>(v: &mut Vec<Vec<T>>, k: usize) -> (r: Vec<T>)
    ensures
        r@ == (if k < old(v)@.len() { old(v)@[k as int]@ } else { Seq::<T>::empty() }),
        final(v)@.len() == old(v)@.len(),
        forall|t: int| 0 <= t < old(v)@.len() && t != k ==> #[trigger] final(v)@[t] == old(v)@[t],
{
    if k < v.len() {
        let empty: Vec<T> = Vec::new();
        let ghost s0 = v@;
        v.push(empty);
        let r = v.swap_remove(k);
        assert(v@ =~= s0.update(k as int, empty));
        r
    } else {
        Vec::new()
    }
}

/// Place a top-level text card: try each size of its ladder, largest
/// first, until a wrapped block fits; nothing when none does.
fn plan_text(common: &CardCommon, text_lines: Vec<Vec<Line>>, map: &mut InkMap, anchor: Anchor) -> (out: Vec<RenderPlan>)
    requires
        old(map)@.wf(),
        old(map)@.screen_w <= 0x100000,
        old(map)@.screen_h <= 0x100000,
        forall|k: int| 0 <= k < text_lines@.len() ==> lines_ok(#[trigger] text_lines@[k]@),
    ensures
        final(map)@.wf(),
        final(map)@.screen_w == old(map)@.screen_w,
        final(map)@.screen_h == old(map)@.screen_h,
        (plans_view(out@), final(map)@) == text_from(old(map)@, *common, anchor, text_lines@, 0),
{
    let ghost all = text_lines@;
    let ghost g0 = map@;
    let mut steps = text_lines;
    let ladder = size_ladder(common.size);
    let mut k: usize = 0;
    while k < ladder.len()
        invariant
            ladder@ == ladder_of(common.size),
            k <= ladder@.len(),
            map@ == g0,
            g0 == old(map)@,
            all == text_lines@,
            g0.wf(),
            g0.screen_w <= 0x100000,
            g0.screen_h <= 0x100000,
            steps@.len() == all.len(),
            forall|t: int| k <= t < all.len() ==> #[trigger] steps@[t] == all[t],
            forall|t: int| 0 <= t < all.len() ==> lines_ok(#[trigger] all[t]@),
            text_from(g0, *common, anchor, all, k as int) == text_from(g0, *common, anchor, all, 0),
        decreases ladder@.len() - k,
    {
        let lines = take_at(&mut steps, k);
        assert(lines@ == step_lines(all, k as int));
        let ghost ls = lines@;
        let (w, h, line_h, prepared) = prepare_text(lines, text_pitch(ladder[k]));
        if prepared.len() > 0 {
            match resolve(map, &common.place, anchor, w, h) {
                Some((x0, y0)) => {
                    proof {
                        crate::layout::law_resolve_in_page(g0, common.place, anchor, w as int, h as int);
                    }
                    let ghost pre = deep3(prepared@);
                    assert(pre =~= prepared_of(ls));
                    let strokes = place_text(prepared, line_h, x0, y0);
                    let plan = make_plan(strokes, BLACK, ppf(common.pace));
                    if plan.is_some() {
                        let mut out: Vec<RenderPlan> = Vec::new();
                        assert(plans_view(out@) =~= Seq::<PlanV>::empty());
                        assert(text_from(g0, *common, anchor, all, k as int)
                            == commit_of(opt_plan_view(plan), g0, Seq::empty()));
                        commit(plan, map, &mut out);
                        return out;
                    }
                },
                None => {},
            }
        }
        k = k + 1;
    }
    let out: Vec<RenderPlan> = Vec::new();
    assert(plans_view(out@) =~= Seq::<PlanV>::empty());
    out
}

} // verus!

verus! {

/// A rect's text from ladder step `k` on: the first step whose block fits
/// the rect's height is placed at its top-left; if none does, the last
/// step with lines is kept, cut to the whole lines that fit.
pub open spec fn text_rect_from(
    common: CardCommon,
    steps: Seq<Vec<Line>>,
    rect: (i32, i32, i32, i32),
    k: int,
    last: Option<(int, Seq<Seq<Seq<(i32, i32)>>>)>,
) -> Option<PlanV>
    decreases ladder_of(common.size).len() - k,
{
    let ladder = ladder_of(common.size);
    if k < 0 || k >= ladder.len() {
        match last {
            None => None,
            Some((lh, pre)) => {
                let m = (rect.3 as int) / lh;
                let kept = if m < pre.len() { pre.take(m) } else { pre };
                if kept.len() == 0 {
                    None
                } else {
                    plan_of(placed_text(kept, lh, rect.0 as int, rect.1 as int), BLACK, ppf_of(common.pace))
                }
            },
        }
    } else {
        let ls = step_lines(steps, k);
        if ls.len() == 0 {
            text_rect_from(common, steps, rect, k + 1, last)
        } else {
            let lh = block_pitch(ls, pitch_of(ladder[k]) as int);
            if lh * ls.len() <= rect.3 {
                plan_of(placed_text(prepared_of(ls), lh, rect.0 as int, rect.1 as int), BLACK, ppf_of(common.pace))
            } else {
                text_rect_from(common, steps, rect, k + 1, Some((lh, prepared_of(ls))))
            }
        }
    }
}

pub(crate) proof fn lemma_pitch_bounds(ls: Seq<Line>, pitch: int)
    ensures
        block_pitch(ls, pitch) >= pitch,
    decreases ls.len(),
{
    if ls.len() > 0 {
        lemma_pitch_bounds(ls.drop_last(), pitch);
    }
}

/// Place text into an explicit page-child rect: the card's own size first,
/// then down the ladder, until the wrapped block fits the rect's height;
/// if nothing does, keep the smallest size's lines that fit whole — never
/// a stroke below the rect.
fn text_plan_in_rect(common: &CardCommon, text_lines: Vec<Vec<Line>>, rect: (i32, i32, i32, i32)) -> (r: Option<RenderPlan>)
    requires
        forall|k: int| 0 <= k < text_lines@.len() ==> lines_ok(#[trigger] text_lines@[k]@),
        0 <= rect.0 <= SCREEN_W,
        0 <= rect.1 <= SCREEN_H,
        0 <= rect.3 <= SCREEN_H,
    ensures
        opt_plan_view(r) == text_rect_from(*common, text_lines@, rect, 0, None),
        r matches Some(p) ==> p.region.on_page(),
{
    let ghost all = text_lines@;
    let mut steps = text_lines;
    let ladder = size_ladder(common.size);
    let mut last: Option<(i32, Vec<Vec<Vec<(i32, i32)>>>)> = None;
    let ghost mut glast: Option<(int, Seq<Seq<Seq<(i32, i32)>>>)> = None;
    let mut k: usize = 0;
    while k < ladder.len()
        invariant
            ladder@ == ladder_of(common.size),
            k <= ladder@.len(),
            all == text_lines@,
            0 <= rect.0 <= SCREEN_W,
            0 <= rect.1 <= SCREEN_H,
            0 <= rect.3 <= SCREEN_H,
            steps@.len() == all.len(),
            forall|t: int| k <= t < all.len() ==> #[trigger] steps@[t] == all[t],
            forall|t: int| 0 <= t < all.len() ==> lines_ok(#[trigger] all[t]@),
            match last {
                None => glast is None,
                Some((lh, pre)) => {
                    &&& glast == Some((lh as int, deep3(pre@)))
                    &&& 63 <= lh <= ART_MAX + 200
                    &&& pre@.len() <= MAX_LINES
                    &&& forall|t: int| 0 <= t < pre@.len() ==> pts_within(#[trigger] deep3(pre@)[t], ART_MAX as int)
                },
            },
            text_rect_from(*common, all, rect, k as int, glast) == text_rect_from(*common, all, rect, 0, None),
        decreases ladder@.len() - k,
    {
        let lines = take_at(&mut steps, k);
        let ghost ls = lines@;
        let pitch = text_pitch(ladder[k]);
        proof {
            lemma_pitch_bounds(ls, pitch as int);
        }
        let (_w, block_h, line_h, prepared) = prepare_text(lines, pitch);
        proof {
            assert(deep3(prepared@) =~= prepared_of(ls));
        }
        if prepared.len() > 0 {
            if block_h <= rect.3 {
                let strokes = place_text(prepared, line_h, rect.0, rect.1);
                return make_plan(strokes, BLACK, ppf(common.pace));
            }
            proof {
                glast = Some((line_h as int, deep3(prepared@)));
            }
            last = Some((line_h, prepared));
        }
        k = k + 1;
    }
    match last {
        None => None,
        Some((line_h, prepared)) => {
            let m = rect.3 / line_h;
            let mut prepared = prepared;
            let ghost pre0 = deep3(prepared@);
            if (m as usize) < prepared.len() {
                prepared.truncate(m as usize);
                assert(deep3(prepared@) =~= pre0.take(m as int));
            }
            if prepared.len() == 0 {
                None
            } else {
                let strokes = place_text(prepared, line_h, rect.0, rect.1);
                make_plan(strokes, BLACK, ppf(common.pace))
            }
        },
    }
}

} // verus!

verus! {

/// Every point of every stroke, in order.
pub open spec fn all_pts(ss: Seq<Seq<(i64, i64)>>) -> Seq<(i64, i64)>
    decreases ss.len(),
{
    if ss.len() == 0 { Seq::empty() } else { all_pts(ss.drop_last()) + ss.last() }
}

/// Bounding box `(min_x, min_y, max_x, max_y)` of a non-empty point list.
pub open spec fn bounds_of(pts: Seq<(i64, i64)>) -> (int, int, int, int)
    decreases pts.len(),
{
    if pts.len() <= 1 {
        (pts[0].0 as int, pts[0].1 as int, pts[0].0 as int, pts[0].1 as int)
    } else {
        let (a, b, c, d) = bounds_of(pts.drop_last());
        let p = pts.last();
        (
            if (p.0 as int) < a { p.0 as int } else { a },
            if (p.1 as int) < b { p.1 as int } else { b },
            if (p.0 as int) > c { p.0 as int } else { c },
            if (p.1 as int) > d { p.1 as int } else { d },
        )
    }
}

/// Pixels per normalized unit (millionth) as a fraction `(num, den)`:
/// the largest uniform scale that fits the spans into the box; one pixel
/// per whole page fraction when the sketch is a single point.
pub open spec fn sketch_scale(sw: int, sh: int, bw: int, bh: int) -> (int, int) {
    if sw > 1 || sh > 1 {
        let dw = if sw > 1 { sw } else { 1 };
        let dh = if sh > 1 { sh } else { 1 };
        if bw * dh <= bh * dw { (bw, dw) } else { (bh, dh) }
    } else {
        (1, NORM_ONE as int)
    }
}

/// One coordinate of the aspect fit: `origin + (extent - span * s) / 2 +
/// (v - lo) * s` with `s = sn / sd`, rounded to nearest (halves up).
pub open spec fn fit_coord(v: int, lo: int, span: int, sn: int, sd: int, origin: int, extent: int) -> int {
    (2 * sd * origin + extent * sd - span * sn + 2 * (v - lo) * sn + sd) / (2 * sd)
}

/// Drop empty strokes.
pub open spec fn non_empty(ss: Seq<Seq<(i64, i64)>>) -> Seq<Seq<(i64, i64)>>
    decreases ss.len(),
{
    if ss.len() == 0 {
        Seq::empty()
    } else if ss.last().len() == 0 {
        non_empty(ss.drop_last())
    } else {
        non_empty(ss.drop_last()).push(ss.last())
    }
}

/// Normalized strokes aspect-fit, centered, into the `bw` x `bh` box at
/// `(x0, y0)`; nothing when there are no points.
pub open spec fn sketch_of(ss: Seq<Seq<(i64, i64)>>, x0: int, y0: int, bw: int, bh: int) -> Seq<Seq<(i32, i32)>> {
    let pts = all_pts(ss);
    if pts.len() == 0 {
        Seq::empty()
    } else {
        let (mnx, mny, mxx, mxy) = bounds_of(pts);
        let (sn, sd) = sketch_scale(mxx - mnx, mxy - mny, bw, bh);
        let f = FitParams { mnx, mny, sw: mxx - mnx, sh: mxy - mny, sn, sd, x0, y0, bw, bh };
        non_empty(ss).map_values(|s: Seq<(i64, i64)>| fit_stroke(s, f))
    }
}

/// Everything one aspect fit needs.
pub ghost struct FitParams {
    pub mnx: int,
    pub mny: int,
    pub sw: int,
    pub sh: int,
    pub sn: int,
    pub sd: int,
    pub x0: int,
    pub y0: int,
    pub bw: int,
    pub bh: int,
}

/// One normalized point in pixels.
pub open spec fn fit_pt(p: (i64, i64), f: FitParams) -> (i32, i32) {
    (
        fit_coord(p.0 as int, f.mnx, f.sw, f.sn, f.sd, f.x0, f.bw) as i32,
        fit_coord(p.1 as int, f.mny, f.sh, f.sn, f.sd, f.y0, f.bh) as i32,
    )
}

/// One normalized stroke in pixels.
pub open spec fn fit_stroke(s: Seq<(i64, i64)>, f: FitParams) -> Seq<(i32, i32)> {
    s.map_values(|p: (i64, i64)| fit_pt(p, f))
}

proof fn lemma_fit_bounds(v: int, lo: int, span: int, sn: int, sd: int, origin: int, extent: int)
    requires
        0 <= v - lo <= span,
        sd >= 1,
        sn >= 0,
        span * sn <= extent * sd + sd,
        0 <= origin,
        0 <= extent,
    ensures
        0 <= fit_coord(v, lo, span, sn, sd, origin, extent) <= origin + extent + 1,
{
    let n = 2 * sd * origin + extent * sd - span * sn + 2 * (v - lo) * sn + sd;
    assert(0 <= (v - lo) * sn <= span * sn) by (nonlinear_arith)
        requires 0 <= v - lo <= span, sn >= 0;
    assert(sd * origin >= 0) by (nonlinear_arith)
        requires sd >= 1, origin >= 0;
    assert(extent * sd >= 0) by (nonlinear_arith)
        requires sd >= 1, extent >= 0;
    assert(0 <= n);
    assert(n <= 2 * sd * (origin + extent + 1)) by (nonlinear_arith)
        requires n == 2 * sd * origin + extent * sd - span * sn + 2 * (v - lo) * sn + sd,
            (v - lo) * sn <= span * sn, span * sn <= extent * sd + sd, span * sn >= 0, sd >= 1;
    assert(0 <= n / (2 * sd) <= origin + extent + 1) by (nonlinear_arith)
        requires 0 <= n <= 2 * sd * (origin + extent + 1), sd >= 1;
}

proof fn lemma_scale_ok(sw: int, sh: int, bw: int, bh: int)
    requires
        sw >= 0,
        sh >= 0,
        bw >= 0,
        bh >= 0,
    ensures
        ({
            let (sn, sd) = sketch_scale(sw, sh, bw, bh);
            &&& sd >= 1
            &&& sn >= 0
            &&& sw * sn <= bw * sd + sd
            &&& sh * sn <= bh * sd + sd
            &&& sn <= (if bw > bh { bw } else { bh }) + 1
            &&& sd <= (if sw > sh { sw } else { sh }) + NORM_ONE
        }),
{
    let (sn, sd) = sketch_scale(sw, sh, bw, bh);
    if sw > 1 || sh > 1 {
        let dw = if sw > 1 { sw } else { 1 };
        let dh = if sh > 1 { sh } else { 1 };
        if bw * dh <= bh * dw {
            assert(sw * bw <= bw * dw) by (nonlinear_arith)
                requires sw <= dw, bw >= 0;
            assert(sh * bw <= bh * dw) by (nonlinear_arith)
                requires bw * dh <= bh * dw, sh <= dh, bw >= 0;
        } else {
            assert(sh * bh <= bh * dh) by (nonlinear_arith)
                requires sh <= dh, bh >= 0;
            assert(sw * bh <= bw * dh) by (nonlinear_arith)
                requires bw * dh > bh * dw, sw <= dw, bh >= 0;
        }
    } else {
        assert(sw * 1 <= bw * NORM_ONE + NORM_ONE);
        assert(sh * 1 <= bh * NORM_ONE + NORM_ONE);
    }
}

} // verus!

verus! {

fn bounds(ss: &Vec<Vec<(i64, i64)>>) -> (r: Option<(i64, i64, i64, i64)>)
    ensures
        match r {
            None => all_pts(strokes_view(ss@)).len() == 0,
            Some((a, b, c, d)) => all_pts(strokes_view(ss@)).len() > 0
                && bounds_of(all_pts(strokes_view(ss@))) == (a as int, b as int, c as int, d as int),
        },
{
    let ghost sv = strokes_view(ss@);
    let mut r: Option<(i64, i64, i64, i64)> = None;
    let mut i: usize = 0;
    while i < ss.len()
        invariant
            sv == strokes_view(ss@),
            i <= ss@.len(),
            match r {
                None => all_pts(sv.take(i as int)).len() == 0,
                Some((a, b, c, d)) => all_pts(sv.take(i as int)).len() > 0
                    && bounds_of(all_pts(sv.take(i as int))) == (a as int, b as int, c as int, d as int),
            },
        decreases ss@.len() - i,
    {
        let s = &ss[i];
        let ghost pre = all_pts(sv.take(i as int));
        assert(s@ == sv[i as int]);
        let mut j: usize = 0;
        while j < s.len()
            invariant
                j <= s@.len(),
                match r {
                    None => (pre + s@.take(j as int)).len() == 0,
                    Some((a, b, c, d)) => (pre + s@.take(j as int)).len() > 0
                        && bounds_of(pre + s@.take(j as int)) == (a as int, b as int, c as int, d as int),
                },
            decreases s@.len() - j,
        {
            let (x, y) = s[j];
            let ghost q = pre + s@.take(j as int);
            assert(pre + s@.take(j + 1) =~= q.push((x, y)));
            assert(q.push((x, y)).drop_last() =~= q);
            r = match r {
                None => Some((x, y, x, y)),
                Some((a, b, c, d)) => Some((
                    if x < a { x } else { a },
                    if y < b { y } else { b },
                    if x > c { x } else { c },
                    if y > d { y } else { d },
                )),
            };
            j = j + 1;
        }
        assert(s@.take(j as int) =~= s@);
        assert(sv.take(i + 1).drop_last() =~= sv.take(i as int));
        i = i + 1;
    }
    assert(sv.take(i as int) =~= sv);
    r
}

fn fit_one(v: i64, lo: i64, span: i128, sn: i128, sd: i128, origin: i32, extent: i32) -> (r: i32)
    requires
        0 <= v - lo <= span,
        span < 0x2_0000_0000_0000_0000,
        1 <= sd <= 0x2_0000_0000_0000_0000,
        0 <= sn <= 0x20_0000,
        span * sn <= extent * sd + sd,
        0 <= origin <= 0x10_0000,
        0 <= extent <= 0x10_0000,
    ensures
        r == fit_coord(v as int, lo as int, span as int, sn as int, sd as int, origin as int, extent as int),
{
    proof {
        lemma_fit_bounds(v as int, lo as int, span as int, sn as int, sd as int, origin as int, extent as int);
        assert(sd * origin <= 0x2_0000_0000_0000_0000 * 0x10_0000) by (nonlinear_arith)
            requires 1 <= sd <= 0x2_0000_0000_0000_0000, 0 <= origin <= 0x10_0000;
        assert(extent * sd <= 0x2_0000_0000_0000_0000 * 0x10_0000) by (nonlinear_arith)
            requires 1 <= sd <= 0x2_0000_0000_0000_0000, 0 <= extent <= 0x10_0000;
        assert(0 <= span * sn <= 0x2_0000_0000_0000_0000 * 0x20_0000) by (nonlinear_arith)
            requires 0 <= span < 0x2_0000_0000_0000_0000, 0 <= sn <= 0x20_0000;
        assert(0 <= (v - lo) * sn <= 0x2_0000_0000_0000_0000 * 0x20_0000) by (nonlinear_arith)
            requires 0 <= v - lo <= span, span < 0x2_0000_0000_0000_0000, 0 <= sn <= 0x20_0000;
    }
    let d = (v as i128) - (lo as i128);
    let a1 = sd * (origin as i128);
    let a2 = (extent as i128) * sd;
    let a3 = span * sn;
    let a4 = d * sn;
    let n = 2 * a1 + a2 - a3 + 2 * a4 + sd;
    assert(n == 2 * sd * origin + extent * sd - span * sn + 2 * (v - lo) * sn + sd) by (nonlinear_arith)
        requires a1 == sd * origin, a2 == extent * sd, a3 == span * sn, a4 == d * sn, d == v - lo,
            n == 2 * a1 + a2 - a3 + 2 * a4 + sd;
    (n / (2 * sd)) as i32
}

/// Scale normalized strokes to fit uniformly, centered, inside the `bw` x
/// `bh` box whose top-left is `(x0, y0)`; empty strokes are dropped, and no
/// points at all yields nothing.
fn sketch_geometry(strokes: &Vec<Vec<(i64, i64)>>, x0: i32, y0: i32, bw: i32, bh: i32) -> (r: Vec<Vec<(i32, i32)>>)
    requires
        0 <= x0 <= 0x10_0000,
        0 <= y0 <= 0x10_0000,
        0 <= bw <= 0x10_0000,
        0 <= bh <= 0x10_0000,
    ensures
        deep(r@) == sketch_of(strokes_view(strokes@), x0 as int, y0 as int, bw as int, bh as int),
{
    let ghost sv = strokes_view(strokes@);
    let (mnx, mny, mxx, mxy) = match bounds(strokes) {
        None => {
            let r: Vec<Vec<(i32, i32)>> = Vec::new();
            assert(deep(r@) =~= Seq::<Seq<(i32, i32)>>::empty());
            return r;
        },
        Some(b) => b,
    };
    let sw = (mxx as i128) - (mnx as i128);
    let sh = (mxy as i128) - (mny as i128);
    proof {
        lemma_bounds_order(all_pts(sv));
    }
    let (sn, sd): (i128, i128) = if sw > 1 || sh > 1 {
        let dw: i128 = if sw > 1 { sw } else { 1 };
        let dh: i128 = if sh > 1 { sh } else { 1 };
        proof {
            assert((bw as int) * dh <= 0x10_0000 * 0x2_0000_0000_0000_0000) by (nonlinear_arith)
                requires 0 <= bw <= 0x10_0000, 1 <= dh <= 0x2_0000_0000_0000_0000;
            assert((bh as int) * dw <= 0x10_0000 * 0x2_0000_0000_0000_0000) by (nonlinear_arith)
                requires 0 <= bh <= 0x10_0000, 1 <= dw <= 0x2_0000_0000_0000_0000;
        }
        if (bw as i128) * dh <= (bh as i128) * dw { (bw as i128, dw) } else { (bh as i128, dh) }
    } else {
        (1, NORM_ONE as i128)
    };
    proof {
        lemma_scale_ok(sw as int, sh as int, bw as int, bh as int);
    }
    let ghost f = FitParams {
        mnx: mnx as int,
        mny: mny as int,
        sw: sw as int,
        sh: sh as int,
        sn: sn as int,
        sd: sd as int,
        x0: x0 as int,
        y0: y0 as int,
        bw: bw as int,
        bh: bh as int,
    };
    let mut out: Vec<Vec<(i32, i32)>> = Vec::new();
    let mut i: usize = 0;
    while i < strokes.len()
        invariant
            sv == strokes_view(strokes@),
            i <= strokes@.len(),
            all_pts(sv).len() > 0,
            bounds_of(all_pts(sv)) == (mnx as int, mny as int, mxx as int, mxy as int),
            forall|p: (i64, i64)| all_pts(sv).contains(p) ==> mnx <= p.0 <= mxx && mny <= p.1 <= mxy,
            sw == mxx - mnx,
            sh == mxy - mny,
            0 <= sw < 0x2_0000_0000_0000_0000,
            0 <= sh < 0x2_0000_0000_0000_0000,
            (sn as int, sd as int) == sketch_scale(sw as int, sh as int, bw as int, bh as int),
            1 <= sd <= 0x2_0000_0000_0000_0000,
            0 <= sn <= 0x20_0000,
            sw * sn <= bw * sd + sd,
            sh * sn <= bh * sd + sd,
            f == (FitParams {
                mnx: mnx as int, mny: mny as int, sw: sw as int, sh: sh as int, sn: sn as int, sd: sd as int,
                x0: x0 as int, y0: y0 as int, bw: bw as int, bh: bh as int,
            }),
            0 <= x0 <= 0x10_0000,
            0 <= y0 <= 0x10_0000,
            0 <= bw <= 0x10_0000,
            0 <= bh <= 0x10_0000,
            deep(out@) == non_empty(sv.take(i as int)).map_values(|s: Seq<(i64, i64)>| fit_stroke(s, f)),
        decreases strokes@.len() - i,
    {
        let s = &strokes[i];
        assert(s@ == sv[i as int]);
        proof {
            lemma_pts_of_stroke(sv, i as int);
        }
        let ghost o = out@;
        assert(sv.take(i + 1).drop_last() =~= sv.take(i as int));
        assert forall|k: int| 0 <= k < s@.len() implies mnx <= (#[trigger] s@[k]).0 <= mxx && mny <= s@[k].1 <= mxy by {
            assert(all_pts(sv).contains(sv[i as int][k]));
        }
        if s.len() > 0 {
            let mut t: Vec<(i32, i32)> = Vec::new();
            let mut j: usize = 0;
            while j < s.len()
                invariant
                    j <= s@.len(),
                    forall|k: int| 0 <= k < s@.len() ==> mnx <= (#[trigger] s@[k]).0 <= mxx && mny <= s@[k].1 <= mxy,
                    sw == mxx - mnx,
                    sh == mxy - mny,
                    0 <= sw < 0x2_0000_0000_0000_0000,
                    0 <= sh < 0x2_0000_0000_0000_0000,
                    1 <= sd <= 0x2_0000_0000_0000_0000,
                    0 <= sn <= 0x20_0000,
                    sw * sn <= bw * sd + sd,
                    sh * sn <= bh * sd + sd,
                    f == (FitParams {
                        mnx: mnx as int, mny: mny as int, sw: sw as int, sh: sh as int, sn: sn as int, sd: sd as int,
                        x0: x0 as int, y0: y0 as int, bw: bw as int, bh: bh as int,
                    }),
                    0 <= x0 <= 0x10_0000,
                    0 <= y0 <= 0x10_0000,
                    0 <= bw <= 0x10_0000,
                    0 <= bh <= 0x10_0000,
                    t@ == fit_stroke(s@.take(j as int), f),
                decreases s@.len() - j,
            {
                let (x, y) = s[j];
                assert(s@[j as int] == (x, y));
                let px = fit_one(x, mnx, sw, sn, sd, x0, bw);
                let py = fit_one(y, mny, sh, sn, sd, y0, bh);
                t.push((px, py));
                assert(t@ =~= fit_stroke(s@.take(j + 1), f));
                j = j + 1;
            }
            assert(s@.take(j as int) =~= s@);
            out.push(t);
            assert(deep(out@) =~= deep(o).push(t@));
        }
        i = i + 1;
    }
    assert(sv.take(i as int) =~= sv);
    out
}


proof fn lemma_bounds_order(pts: Seq<(i64, i64)>)
    requires
        pts.len() > 0,
    ensures
        ({
            let (a, b, c, d) = bounds_of(pts);
            &&& a <= c
            &&& b <= d
            &&& forall|p: (i64, i64)| pts.contains(p) ==> a <= p.0 <= c && b <= p.1 <= d
        }),
    decreases pts.len(),
{
    if pts.len() > 1 {
        lemma_bounds_order(pts.drop_last());
        let (a, b, c, d) = bounds_of(pts);
        assert forall|p: (i64, i64)| pts.contains(p) implies a <= p.0 <= c && b <= p.1 <= d by {
            let k = choose|k: int| 0 <= k < pts.len() && pts[k] == p;
            if k < pts.len() - 1 {
                assert(pts.drop_last()[k] == p);
                assert(pts.drop_last().contains(p));
            }
        }
    } else {
        assert forall|p: (i64, i64)| pts.contains(p) implies p == pts[0] by {
            let k = choose|k: int| 0 <= k < pts.len() && pts[k] == p;
        }
    }
}

proof fn lemma_pts_of_stroke(sv: Seq<Seq<(i64, i64)>>, i: int)
    requires
        0 <= i < sv.len(),
    ensures
        forall|k: int| 0 <= k < sv[i].len() ==> all_pts(sv).contains(#[trigger] sv[i][k]),
    decreases sv.len(),
{
    let a = all_pts(sv.drop_last());
    if i == sv.len() - 1 {
        assert forall|k: int| 0 <= k < sv[i].len() implies all_pts(sv).contains(#[trigger] sv[i][k]) by {
            assert(all_pts(sv)[a.len() + k] == sv[i][k]);
        }
    } else {
        lemma_pts_of_stroke(sv.drop_last(), i);
        assert forall|k: int| 0 <= k < sv[i].len() implies all_pts(sv).contains(#[trigger] sv[i][k]) by {
            assert(sv.drop_last()[i] == sv[i]);
            let t = choose|t: int| 0 <= t < a.len() && a[t] == sv[i][k];
            assert(all_pts(sv)[t] == sv[i][k]);
        }
    }
}
} // verus!

verus! {

/// Plans and ink map after committing each optional plan in turn.
pub open spec fn commit_all(ps: Seq<Option<PlanV>>, g: InkGrid, out: Seq<PlanV>) -> (Seq<PlanV>, InkGrid)
    decreases ps.len(),
{
    if ps.len() == 0 {
        (out, g)
    } else {
        let (o2, g2) = commit_all(ps.drop_last(), g, out);
        commit_of(ps.last(), g2, o2)
    }
}

pub open spec fn opt_plans_view(v: Seq<Option<RenderPlan>>) -> Seq<Option<PlanV>> {
    v.map_values(|p: Option<RenderPlan>| opt_plan_view(p))
}

/// Commit each plan in turn, marking its region as soon as it is placed.
fn commit_each(plans: Vec<Option<RenderPlan>>, map: &mut InkMap, out: &mut Vec<RenderPlan>)
    requires
        old(map)@.wf(),
        forall|k: int| 0 <= k < plans@.len() ==> (#[trigger] plans@[k] matches Some(p) ==> p.region.on_page()),
    ensures
        final(map)@.wf(),
        final(map)@.screen_w == old(map)@.screen_w,
        final(map)@.screen_h == old(map)@.screen_h,
        (plans_view(final(out)@), final(map)@) == commit_all(opt_plans_view(plans@), old(map)@, plans_view(old(out)@)),
{
    let ghost all = plans@;
    let ghost pv = opt_plans_view(all);
    let ghost g0 = map@;
    let ghost o0 = plans_view(out@);
    let mut plans = plans;
    let mut k: usize = 0;
    let n = plans.len();
    while k < n
        invariant
            n == all.len(),
            k <= n,
            pv == opt_plans_view(all),
            map@.wf(),
            map@.screen_w == g0.screen_w,
            map@.screen_h == g0.screen_h,
            plans@.len() == n,
            forall|t: int| k <= t < n ==> #[trigger] plans@[t] == all[t],
            forall|t: int| 0 <= t < n ==> (#[trigger] all[t] matches Some(p) ==> p.region.on_page()),
            (plans_view(out@), map@) == commit_all(pv.take(k as int), g0, o0),
        decreases n - k,
    {
        let ghost before = plans@;
        plans.push(None);
        let p = plans.swap_remove(k);
        assert(p == all[k as int]);
        assert forall|t: int| k + 1 <= t < n implies #[trigger] plans@[t] == all[t] by {
            assert(plans@[t] == before[t]);
        }
        assert(pv.take(k + 1).drop_last() =~= pv.take(k as int));
        commit(p, map, out);
        k = k + 1;
    }
    assert(pv.take(k as int) =~= pv);
}

/// Size of a block of `count` stamps: rows of three, 243 px each with a
/// 24 px gap.
pub open spec fn stamp_dims_of(count: int) -> (int, int) {
    let cols = if count < 3 { count } else { 3 };
    let rows = (count + 2) / 3;
    (cols * 267 - 24, rows * 267 - 24)
}

fn stamp_block_dims(count: u32) -> (r: (i32, i32))
    requires
        1 <= count <= 5,
    ensures
        r == ((stamp_dims_of(count as int).0) as i32, (stamp_dims_of(count as int).1) as i32),
        (r.0 as int, r.1 as int) == stamp_dims_of(count as int),
{
    let cols: i32 = if count < 3 { count as i32 } else { 3 };
    let rows: i32 = ((count + 2) / 3) as i32;
    (cols * 267 - 24, rows * 267 - 24)
}

/// The plan of stamp copy `i` of a block at `(bx, by)`.
pub open spec fn stamp_plan(unit: Seq<Seq<(i32, i32)>>, i: int, bx: int, by: int, pace: Pace) -> Option<PlanV> {
    plan_of(shift_strokes(unit, bx + (i % 3) * 267, by + (i / 3) * 267), BLACK, ppf_of(pace))
}

/// Every copy of a stamp block, one plan each.
pub open spec fn stamp_plans(unit: Seq<Seq<(i32, i32)>>, count: int, bx: int, by: int, pace: Pace) -> Seq<Option<PlanV>> {
    Seq::new(count as nat, |i: int| stamp_plan(unit, i, bx, by, pace))
}

/// Lay out `count` copies of the stamp starting at block top-left
/// `(bx, by)`, stepping right and wrapping after three per row.
fn stamp_instances(unit: &Vec<Vec<(i32, i32)>>, count: u32, bx: i32, by: i32, pace: Pace) -> (r: Vec<Option<RenderPlan>>)
    requires
        pts_small(deep(unit@), ART_MAX as int),
        count <= 5,
        0 <= bx <= 0x100000,
        0 <= by <= 0x100000,
    ensures
        opt_plans_view(r@) == stamp_plans(deep(unit@), count as int, bx as int, by as int, pace),
        forall|k: int| 0 <= k < r@.len() ==> (#[trigger] r@[k] matches Some(p) ==> p.region.on_page()),
{
    let mut r: Vec<Option<RenderPlan>> = Vec::new();
    let mut i: u32 = 0;
    while i < count
        invariant
            i <= count <= 5,
            0 <= bx <= 0x100000,
            0 <= by <= 0x100000,
            pts_small(deep(unit@), ART_MAX as int),
            opt_plans_view(r@) == stamp_plans(deep(unit@), i as int, bx as int, by as int, pace),
            forall|k: int| 0 <= k < r@.len() ==> (#[trigger] r@[k] matches Some(p) ==> p.region.on_page()),
        decreases count - i,
    {
        let ox = bx + ((i % 3) as i32) * 267;
        let oy = by + ((i / 3) as i32) * 267;
        let moved = shift_all(unit, ox, oy);
        let p = make_plan(moved, BLACK, ppf(pace));
        let ghost r0 = r@;
        r.push(p);
        assert(opt_plans_view(r@) =~= stamp_plans(deep(unit@), i + 1, bx as int, by as int, pace)) by {
            assert(opt_plans_view(r@) =~= opt_plans_view(r0).push(opt_plan_view(p)));
        }
        i = i + 1;
    }
    r
}

} // verus!

verus! {

/// Size of a block of `n` count dots: rows of five 60 px dots on an 84 px
/// pitch, each with its numeral 6 px below, rows 24 px apart.
pub open spec fn dots_dims_of(n: int, numeral_h: int) -> (int, int) {
    let n = if n < 1 { 1 } else { n };
    let cols = if n < 5 { n } else { 5 };
    let rows = (n + 4) / 5;
    let row_h = 66 + numeral_h;
    (cols * 84 - 24, rows * (row_h + 24) - 24)
}

/// Tallest numeral (0 for none).
pub open spec fn max_height(ls: Seq<Line>) -> int
    decreases ls.len(),
{
    if ls.len() == 0 {
        0
    } else {
        let r = max_height(ls.drop_last());
        if ls.last().height as int > r { ls.last().height as int } else { r }
    }
}

/// Half of `v`, rounded toward zero.
pub open spec fn half_toward_zero(v: int) -> int {
    if v >= 0 { v / 2 } else { -((-v) / 2) }
}

/// The strokes of count dot `i` of a block at `(bx, by)`: the circle, then
/// its numeral centered below it.
pub open spec fn dot_strokes(circle: Seq<(i32, i32)>, num: Line, i: int, numeral_h: int, bx: int, by: int) -> Seq<Seq<(i32, i32)>> {
    let ox = bx + (i % 5) * 84;
    let oy = by + (i / 5) * (66 + numeral_h + 24);
    seq![shift_stroke(circle, ox + 30, oy + 30)] + shift_strokes(
        line_strokes(num),
        ox + 30 - half_toward_zero(num.width as int),
        oy + 66,
    )
}

/// Every dot of a count block, one plan each.
pub open spec fn dot_plans(circle: Seq<(i32, i32)>, nums: Seq<Line>, bx: int, by: int, pace: Pace) -> Seq<Option<PlanV>> {
    Seq::new(
        nums.len(),
        |i: int| plan_of(dot_strokes(circle, nums[i], i, max_height(nums), bx, by), BLACK, ppf_of(pace)),
    )
}

fn max_height_of(nums: &Vec<Line>) -> (r: i32)
    requires
        lines_ok(nums@),
    ensures
        r == max_height(nums@),
        0 <= r <= ART_MAX,
{
    let mut r: i32 = 0;
    let mut i: usize = 0;
    while i < nums.len()
        invariant
            lines_ok(nums@),
            i <= nums@.len(),
            r == max_height(nums@.take(i as int)),
            0 <= r <= ART_MAX,
        decreases nums@.len() - i,
    {
        assert(nums@.take(i + 1).drop_last() =~= nums@.take(i as int));
        assert(line_ok(nums@[i as int]));
        if nums[i].height as i32 > r {
            r = nums[i].height as i32;
        }
        i = i + 1;
    }
    assert(nums@.take(i as int) =~= nums@);
    r
}

/// Lay out one circle-and-numeral per numeral, five to a row.
fn dot_instances(circle: &Vec<(i32, i32)>, nums: Vec<Line>, bx: i32, by: i32, pace: Pace) -> (r: Vec<Option<RenderPlan>>)
    requires
        lines_ok(nums@),
        nums@.len() <= 20,
        forall|j: int| 0 <= j < circle@.len() ==> {
            let p = #[trigger] circle@[j];
            -ART_MAX <= p.0 <= ART_MAX && -ART_MAX <= p.1 <= ART_MAX
        },
        0 <= bx <= 0x100000,
        0 <= by <= 0x100000,
    ensures
        opt_plans_view(r@) == dot_plans(circle@, nums@, bx as int, by as int, pace),
        forall|k: int| 0 <= k < r@.len() ==> (#[trigger] r@[k] matches Some(p) ==> p.region.on_page()),
{
    let ghost all = nums@;
    let numeral_h = max_height_of(&nums);
    let n = nums.len();
    let mut nums = nums;
    let mut r: Vec<Option<RenderPlan>> = Vec::new();
    let mut i: usize = 0;
    while i < n
        invariant
            n == all.len(),
            n <= 20,
            lines_ok(all),
            numeral_h == max_height(all),
            0 <= numeral_h <= ART_MAX,
            i <= n,
            nums@ == all.skip(i as int),
            forall|j: int| 0 <= j < circle@.len() ==> {
                let p = #[trigger] circle@[j];
                -ART_MAX <= p.0 <= ART_MAX && -ART_MAX <= p.1 <= ART_MAX
            },
            0 <= bx <= 0x100000,
            0 <= by <= 0x100000,
            opt_plans_view(r@) == dot_plans(circle@, all, bx as int, by as int, pace).take(i as int),
            forall|k: int| 0 <= k < r@.len() ==> (#[trigger] r@[k] matches Some(p) ==> p.region.on_page()),
        decreases n - i,
    {
        let mut raster = nums.remove(0);
        let ghost l0 = raster;
        assert(l0 == all[i as int]);
        assert(line_ok(l0));
        let nw = raster.width as i32;
        thin(&mut raster);
        proof {
            crate::script::lemma_zs_thin_len(l0.mask@, l0.width as int, l0.height as int);
            lemma_line_strokes_within(l0);
        }
        let local = trace(&raster);
        let ox = bx + ((i % 5) as i32) * 84;
        let row = (i / 5) as i32;
        assert(0 <= row <= 4);
        assert(0 <= row * (66 + numeral_h + 24) <= 4 * (ART_MAX + 90)) by (nonlinear_arith)
            requires 0 <= row <= 4, 0 <= numeral_h <= ART_MAX;
        let oy = by + row * (66 + numeral_h + 24);
        let c = shift_one(circle, ox + 30, oy + 30);
        let mut strokes: Vec<Vec<(i32, i32)>> = Vec::new();
        strokes.push(c);
        assert(pts_small(deep(local@), COORD_MAX as int)) by {
            assert(pts_within(deep(local@), ART_MAX as int));
        }
        let mut moved = shift_all(&local, ox + 30 - nw / 2, oy + 66);
        let ghost cv = c@;
        let ghost mv = moved@;
        strokes.append(&mut moved);
        assert(deep(strokes@) =~= seq![cv] + deep(mv));
        assert(half_toward_zero(nw as int) == nw / 2);
        let p = make_plan(strokes, BLACK, ppf(pace));
        let ghost r0 = r@;
        r.push(p);
        assert(opt_plans_view(r@) =~= dot_plans(circle@, all, bx as int, by as int, pace).take(i + 1)) by {
            assert(opt_plans_view(r@) =~= opt_plans_view(r0).push(opt_plan_view(p)));
        }
        i = i + 1;
        assert(nums@ =~= all.skip(i as int));
    }
    r
}

} // verus!

verus! {

/// Size of a block of `n` tally marks: groups of five on a 90 px pitch,
/// four groups to a row, rows 120 px apart, with room for the slash's
/// 6 px overshoot on each side.
pub open spec fn tally_dims_of(n: int) -> (int, int) {
    let n = if n < 1 { 1 } else { n };
    let groups = (n + 4) / 5;
    let cols = if groups < 4 { groups } else { 4 };
    let rows = (groups + 3) / 4;
    (cols * 90 - 36 + 12, rows * 120 - 30)
}

/// The strokes of tally group `g` of `n` marks, block at `(bx, by)`: up to
/// four verticals, plus a slash across them once the group reaches five.
pub open spec fn tally_group(n: int, g: int, bx: int, by: int) -> Seq<Seq<(i32, i32)>> {
    let gx = bx + 6 + (g % 4) * 90;
    let gy = by + (g / 4) * 120;
    let in_group = if n - 5 * g < 5 { n - 5 * g } else { 5 };
    let verticals = if in_group < 4 { in_group } else { 4 };
    let bars = Seq::new(
        verticals as nat,
        |k: int| seq![((gx + 18 * k) as i32, gy as i32), ((gx + 18 * k) as i32, (gy + 90) as i32)],
    );
    if in_group == 5 {
        bars.push(seq![((gx - 6) as i32, (gy + 80) as i32), ((gx + 60) as i32, (gy + 10) as i32)])
    } else {
        bars
    }
}

/// Every group of a tally block, one plan each.
pub open spec fn tally_plans(n: int, bx: int, by: int, pace: Pace) -> Seq<Option<PlanV>> {
    let n = if n < 1 { 1 } else { n };
    Seq::new(((n + 4) / 5) as nat, |g: int| plan_of(tally_group(n, g, bx, by), BLACK, ppf_of(pace)))
}

fn tally_block_dims(n: u32) -> (r: (i32, i32))
    requires
        n <= 20,
    ensures
        (r.0 as int, r.1 as int) == tally_dims_of(n as int),
{
    let n = if n < 1 { 1 } else { n };
    let groups = (n + 4) / 5;
    let cols: i32 = if groups < 4 { groups as i32 } else { 4 };
    let rows: i32 = ((groups + 3) / 4) as i32;
    (cols * 90 - 36 + 12, rows * 120 - 30)
}

/// One plan per group of up to five: up to four verticals, plus a diagonal
/// slash across them once a group actually reaches five.
fn tally_groups(n: u32, bx: i32, by: i32, pace: Pace) -> (r: Vec<Option<RenderPlan>>)
    requires
        n <= 20,
        0 <= bx <= 0x100000,
        0 <= by <= 0x100000,
    ensures
        opt_plans_view(r@) == tally_plans(n as int, bx as int, by as int, pace),
        forall|k: int| 0 <= k < r@.len() ==> (#[trigger] r@[k] matches Some(p) ==> p.region.on_page()),
{
    let n = if n < 1 { 1 } else { n };
    let groups = (n + 4) / 5;
    let mut r: Vec<Option<RenderPlan>> = Vec::new();
    let mut g: u32 = 0;
    while g < groups
        invariant
            1 <= n <= 20,
            groups == (n + 4) / 5,
            g <= groups,
            0 <= bx <= 0x100000,
            0 <= by <= 0x100000,
            opt_plans_view(r@) == tally_plans(n as int, bx as int, by as int, pace).take(g as int),
            forall|k: int| 0 <= k < r@.len() ==> (#[trigger] r@[k] matches Some(p) ==> p.region.on_page()),
        decreases groups - g,
    {
        let gx = bx + 6 + ((g % 4) as i32) * 90;
        let gy = by + ((g / 4) as i32) * 120;
        let remaining = n - 5 * g;
        let in_group = if remaining < 5 { remaining } else { 5 };
        let verticals = if in_group < 4 { in_group } else { 4 };
        let mut strokes: Vec<Vec<(i32, i32)>> = Vec::new();
        let mut k: u32 = 0;
        while k < verticals
            invariant
                k <= verticals <= 4,
                0 <= gx <= 0x100000 + 400,
                0 <= gy <= 0x100000 + 400,
                deep(strokes@) == Seq::new(
                    k as nat,
                    |t: int| seq![((gx + 18 * t) as i32, gy as i32), ((gx + 18 * t) as i32, (gy + 90) as i32)],
                ),
            decreases verticals - k,
        {
            let x = gx + (k as i32) * 18;
            let mut bar: Vec<(i32, i32)> = Vec::new();
            bar.push((x, gy));
            bar.push((x, gy + 90));
            let ghost s0 = strokes@;
            strokes.push(bar);
            assert(bar@ =~= seq![((gx + 18 * k) as i32, gy as i32), ((gx + 18 * k) as i32, (gy + 90) as i32)]);
            assert(deep(strokes@) =~= Seq::new(
                (k + 1) as nat,
                |t: int| seq![((gx + 18 * t) as i32, gy as i32), ((gx + 18 * t) as i32, (gy + 90) as i32)],
            )) by {
                assert(deep(strokes@) =~= deep(s0).push(bar@));
            }
            k = k + 1;
        }
        if in_group == 5 {
            let mut slash: Vec<(i32, i32)> = Vec::new();
            slash.push((gx - 6, gy + 80));
            slash.push((gx + 60, gy + 10));
            let ghost s0 = strokes@;
            strokes.push(slash);
            assert(deep(strokes@) =~= deep(s0).push(slash@));
        }
        proof {
            let gxi = bx + 6 + (g % 4) * 90;
            let gyi = by + (g / 4) * 120;
            assert(gx as int == gxi);
            assert(gy as int == gyi);
            let bars = Seq::new(
                verticals as nat,
                |t: int| seq![((gxi + 18 * t) as i32, gyi as i32), ((gxi + 18 * t) as i32, (gyi + 90) as i32)],
            );
            let tg = tally_group(n as int, g as int, bx as int, by as int);
            if in_group == 5 {
                assert(tg =~= bars.push(seq![((gxi - 6) as i32, (gyi + 80) as i32), ((gxi + 60) as i32, (gyi + 10) as i32)]));
            } else {
                assert(tg =~= bars);
            }
            assert(deep(strokes@) =~~= tg);
        }
        let p = make_plan(strokes, BLACK, ppf(pace));
        let ghost r0 = r@;
        r.push(p);
        assert(opt_plans_view(r@) =~= tally_plans(n as int, bx as int, by as int, pace).take(g + 1)) by {
            assert(opt_plans_view(r@) =~= opt_plans_view(r0).push(opt_plan_view(p)));
        }
        g = g + 1;
    }
    assert(tally_plans(n as int, bx as int, by as int, pace).take(g as int) =~= tally_plans(n as int, bx as int, by as int, pace));
    r
}

} // verus!

verus! {

/// Take entry `k` out of `v`, leaving `None` in its place (`None` when
/// there is no such entry).
fn take_opt_at<T>(v: &mut Vec<Option<T>>, k: usize) -> (r: Option<T>)
    ensures
        r == (if k < old(v)@.len() { old(v)@[k as int] } else { None }),
        final(v)@.len() == old(v)@.len(),
        forall|t: int| 0 <= t < old(v)@.len() && t != k ==> #[trigger] final(v)@[t] == old(v)@[t],
{
    if k < v.len() {
        let ghost s0 = v@;
        v.push(None);
        let r = v.swap_remove(k);
        assert(v@ =~= s0.update(k as int, None));
        r
    } else {
        None
    }
}

/// The six strokes of a tian grid over the box: the four edges, then the
/// horizontal and vertical midlines.
pub open spec fn grid_of(x0: int, y0: int, b: int) -> Seq<Seq<(i32, i32)>> {
    let (x1, y1) = (x0 + b, y0 + b);
    let (mx, my) = (x0 + b / 2, y0 + b / 2);
    seq![
        seq![(x0 as i32, y0 as i32), (x1 as i32, y0 as i32)],
        seq![(x1 as i32, y0 as i32), (x1 as i32, y1 as i32)],
        seq![(x1 as i32, y1 as i32), (x0 as i32, y1 as i32)],
        seq![(x0 as i32, y1 as i32), (x0 as i32, y0 as i32)],
        seq![(x0 as i32, my as i32), (x1 as i32, my as i32)],
        seq![(mx as i32, y0 as i32), (mx as i32, y1 as i32)],
    ]
}

fn pair(a: (i32, i32), b: (i32, i32)) -> (r: Vec<(i32, i32)>)
    ensures
        r@ == seq![a, b],
{
    let mut r: Vec<(i32, i32)> = Vec::new();
    r.push(a);
    r.push(b);
    assert(r@ =~= seq![a, b]);
    r
}

/// Outer square (4 edges, one polyline each) plus the horizontal and
/// vertical midlines: the character-writing grid.
fn grid_strokes(x0: i32, y0: i32, b: i32) -> (r: Vec<Vec<(i32, i32)>>)
    requires
        0 <= x0 <= 0x100000,
        0 <= y0 <= 0x100000,
        0 <= b <= 0x100000,
    ensures
        deep(r@) == grid_of(x0 as int, y0 as int, b as int),
{
    let (x1, y1) = (x0 + b, y0 + b);
    let (mx, my) = (x0 + b / 2, y0 + b / 2);
    let mut r: Vec<Vec<(i32, i32)>> = Vec::new();
    r.push(pair((x0, y0), (x1, y0)));
    r.push(pair((x1, y0), (x1, y1)));
    r.push(pair((x1, y1), (x0, y1)));
    r.push(pair((x0, y1), (x0, y0)));
    r.push(pair((x0, my), (x1, my)));
    r.push(pair((mx, y0), (mx, y1)));
    assert(deep(r@) =~= grid_of(x0 as int, y0 as int, b as int));
    r
}

/// The template to trace over, placed in the box: the glyph centered in
/// it, or the shape at its top-left; nothing when the art has none.
pub open spec fn template_of(kind: TraceKind, glyph: Option<Line>, shape: Option<Vec<Vec<(i32, i32)>>>, x0: int, y0: int, b: int) -> Seq<Seq<(i32, i32)>> {
    match kind {
        TraceKind::Hanzi => match glyph {
            Some(l) => shift_strokes(
                line_strokes(l),
                x0 + half_toward_zero(b - l.width),
                y0 + half_toward_zero(b - l.height),
            ),
            None => Seq::empty(),
        },
        TraceKind::Shape => match shape {
            Some(s) => shift_strokes(deep(s@), x0, y0),
            None => Seq::empty(),
        },
    }
}

/// A trace card's plans in the box at `(x0, y0)`: the grid first (when
/// asked for), then the template, both faded.
pub open spec fn trace_plans(pace: Pace, kind: TraceKind, guide: TraceGuide, glyph: Option<Line>, shape: Option<Vec<Vec<(i32, i32)>>>, x0: int, y0: int, b: int) -> Seq<Option<PlanV>> {
    let grid: Seq<Option<PlanV>> = if guide == TraceGuide::TianGrid {
        seq![plan_of(grid_of(x0, y0, b), FADED, ppf_of(pace))]
    } else {
        Seq::empty()
    };
    grid.push(plan_of(template_of(kind, glyph, shape, x0, y0, b), FADED, ppf_of(pace)))
}

/// Grid plan (if any) first, then the template plan — both faded.
fn trace_plans_at(
    pace: Pace,
    kind: TraceKind,
    guide: TraceGuide,
    glyph: Option<Line>,
    shape: Option<Vec<Vec<(i32, i32)>>>,
    x0: i32,
    y0: i32,
    b: i32,
) -> (r: Vec<Option<RenderPlan>>)
    requires
        glyph matches Some(l) ==> line_ok(l),
        shape matches Some(s) ==> pts_small(deep(s@), ART_MAX as int),
        0 <= x0 <= 0x100000,
        0 <= y0 <= 0x100000,
        0 <= b <= 0x100000,
    ensures
        opt_plans_view(r@) == trace_plans(pace, kind, guide, glyph, shape, x0 as int, y0 as int, b as int),
        forall|k: int| 0 <= k < r@.len() ==> (#[trigger] r@[k] matches Some(p) ==> p.region.on_page()),
{
    let ghost g0 = glyph;
    let ghost s0 = shape;
    let mut r: Vec<Option<RenderPlan>> = Vec::new();
    if guide == TraceGuide::TianGrid {
        let p = make_plan(grid_strokes(x0, y0, b), FADED, ppf(pace));
        r.push(p);
    }
    let template: Vec<Vec<(i32, i32)>> = match kind {
        TraceKind::Hanzi => match glyph {
            Some(raster) => {
                let mut raster = raster;
                let ghost l0 = raster;
                let gw = raster.width as i32;
                let gh = raster.height as i32;
                thin(&mut raster);
                proof {
                    crate::script::lemma_zs_thin_len(l0.mask@, l0.width as int, l0.height as int);
                    lemma_line_strokes_within(l0);
                }
                let local = trace(&raster);
                assert(pts_small(deep(local@), COORD_MAX as int)) by {
                    assert(pts_within(deep(local@), ART_MAX as int));
                }
                let dx = if b >= gw { (b - gw) / 2 } else { -((gw - b) / 2) };
                let dy = if b >= gh { (b - gh) / 2 } else { -((gh - b) / 2) };
                shift_all(&local, x0 + dx, y0 + dy)
            },
            None => Vec::new(),
        },
        TraceKind::Shape => match shape {
            Some(s) => shift_all(&s, x0, y0),
            None => Vec::new(),
        },
    };
    assert(deep(template@) =~= template_of(kind, g0, s0, x0 as int, y0 as int, b as int));
    let p = make_plan(template, FADED, ppf(pace));
    let ghost r0 = r@;
    r.push(p);
    assert(opt_plans_view(r@) =~= trace_plans(pace, kind, guide, g0, s0, x0 as int, y0 as int, b as int)) by {
        assert(opt_plans_view(r@) =~= opt_plans_view(r0).push(opt_plan_view(p)));
    }
    r
}

} // verus!

verus! {

/// `v` clamped into `lo..=hi`.
pub open spec fn clamp_count(v: u32, lo: u32, hi: u32) -> u32 {
    if v < lo { lo } else if v > hi { hi } else { v }
}

/// Top-level sketch: aspect-fit into the first ladder box that fits.
pub open spec fn sketch_card(g: InkGrid, common: CardCommon, anchor: Anchor, sv: Seq<Seq<(i64, i64)>>) -> (Seq<PlanV>, InkGrid) {
    if all_pts(sv).len() == 0 {
        (Seq::empty(), g)
    } else {
        match boxed_from(g, common, anchor, 0) {
            None => (Seq::empty(), g),
            Some((k, (x, y))) => {
                let b = box_of(ladder_of(common.size)[k]) as int;
                commit_of(plan_of(sketch_of(sv, x, y, b, b), BLACK, ppf_of(common.pace)), g, Seq::empty())
            },
        }
    }
}

/// Top-level stamp: one plan per copy, the whole block placed at once.
pub open spec fn stamp_card(g: InkGrid, common: CardCommon, anchor: Anchor, unit: Option<Vec<Vec<(i32, i32)>>>, count: u32) -> (Seq<PlanV>, InkGrid) {
    match unit {
        None => (Seq::empty(), g),
        Some(u) => {
            let c = clamp_count(count, 1, 5) as int;
            let (bw, bh) = stamp_dims_of(c);
            match resolve_spec(g, common.place, anchor, bw, bh) {
                None => (Seq::empty(), g),
                Some((bx, by)) => commit_all(stamp_plans(deep(u@), c, bx, by, common.pace), g, Seq::empty()),
            }
        },
    }
}

/// Top-level count: dots, tally marks, or the numbers written as text.
pub open spec fn count_card(g: InkGrid, common: CardCommon, anchor: Anchor, art: CardArt, n: u32, style: CountStyle) -> (Seq<PlanV>, InkGrid) {
    let n = clamp_count(n, 1, 20) as int;
    match style {
        CountStyle::Dots => {
            let (bw, bh) = dots_dims_of(n, max_height(art.numerals@));
            match resolve_spec(g, common.place, anchor, bw, bh) {
                None => (Seq::empty(), g),
                Some((bx, by)) => commit_all(dot_plans(art.dot_circle@, art.numerals@, bx, by, common.pace), g, Seq::empty()),
            }
        },
        CountStyle::Tally => {
            let (bw, bh) = tally_dims_of(n);
            match resolve_spec(g, common.place, anchor, bw, bh) {
                None => (Seq::empty(), g),
                Some((bx, by)) => commit_all(tally_plans(n, bx, by, common.pace), g, Seq::empty()),
            }
        },
        CountStyle::Numbers => text_from(g, common, anchor, art.text_lines@, 0),
    }
}

/// The art entry for ladder step `k`.
pub open spec fn art_at<T>(v: Seq<Option<T>>, k: int) -> Option<T> {
    if 0 <= k < v.len() { v[k] } else { None }
}

/// Top-level trace: grid and template in the first ladder box that fits.
pub open spec fn trace_card(g: InkGrid, common: CardCommon, anchor: Anchor, art: CardArt, kind: TraceKind, guide: TraceGuide) -> (Seq<PlanV>, InkGrid) {
    match boxed_from(g, common, anchor, 0) {
        None => (Seq::empty(), g),
        Some((k, (x, y))) => {
            let b = box_of(ladder_of(common.size)[k]) as int;
            commit_all(
                trace_plans(common.pace, kind, guide, art_at(art.glyphs@, k), art_at(art.shapes@, k), x, y, b),
                g,
                Seq::empty(),
            )
        },
    }
}

fn has_points(strokes: &Vec<Vec<(i64, i64)>>) -> (r: bool)
    ensures
        r == (all_pts(strokes_view(strokes@)).len() > 0),
{
    bounds(strokes).is_some()
}

fn plan_sketch(common: &CardCommon, strokes: &Vec<Vec<(i64, i64)>>, map: &mut InkMap, anchor: Anchor) -> (out: Vec<RenderPlan>)
    requires
        old(map)@.wf(),
        old(map)@.screen_w <= 0x100000,
        old(map)@.screen_h <= 0x100000,
    ensures
        final(map)@.wf(),
        final(map)@.screen_w == old(map)@.screen_w,
        final(map)@.screen_h == old(map)@.screen_h,
        (plans_view(out@), final(map)@) == sketch_card(old(map)@, *common, anchor, strokes_view(strokes@)),
{
    let mut out: Vec<RenderPlan> = Vec::new();
    assert(plans_view(out@) =~= Seq::<PlanV>::empty());
    if !has_points(strokes) {
        return out;
    }
    match resolve_boxed(map, common, anchor) {
        None => out,
        Some((k, size, x0, y0)) => {
            let b = size_box(size);
            let mapped = sketch_geometry(strokes, x0, y0, b, b);
            commit(make_plan(mapped, BLACK, ppf(common.pace)), map, &mut out);
            out
        },
    }
}

fn plan_stamp(common: &CardCommon, unit: Option<Vec<Vec<(i32, i32)>>>, count: u32, map: &mut InkMap, anchor: Anchor) -> (out: Vec<RenderPlan>)
    requires
        old(map)@.wf(),
        old(map)@.screen_w <= 0x100000,
        old(map)@.screen_h <= 0x100000,
        unit matches Some(u) ==> pts_small(deep(u@), ART_MAX as int),
    ensures
        final(map)@.wf(),
        final(map)@.screen_w == old(map)@.screen_w,
        final(map)@.screen_h == old(map)@.screen_h,
        (plans_view(out@), final(map)@) == stamp_card(old(map)@, *common, anchor, unit, count),
{
    let mut out: Vec<RenderPlan> = Vec::new();
    assert(plans_view(out@) =~= Seq::<PlanV>::empty());
    match unit {
        None => out,
        Some(u) => {
            let c = if count < 1 { 1 } else if count > 5 { 5 } else { count };
            let (bw, bh) = stamp_block_dims(c);
            match resolve(map, &common.place, anchor, bw, bh) {
                None => out,
                Some((bx, by)) => {
                    proof {
                        crate::layout::law_resolve_in_page(map@, common.place, anchor, bw as int, bh as int);
                    }
                    let plans = stamp_instances(&u, c, bx, by, common.pace);
                    commit_each(plans, map, &mut out);
                    out
                },
            }
        },
    }
}

fn dots_block_dims(n: u32, numeral_h: i32) -> (r: (i32, i32))
    requires
        1 <= n <= 20,
        0 <= numeral_h <= ART_MAX,
    ensures
        (r.0 as int, r.1 as int) == dots_dims_of(n as int, numeral_h as int),
{
    let nn: i32 = n as i32;
    let cols: i32 = if nn < 5 { nn } else { 5 };
    let rows: i32 = (nn + 4) / 5;
    let row_h: i32 = 66 + numeral_h;
    assert(0 <= rows * (row_h + 24) <= 4 * (ART_MAX + 90)) by (nonlinear_arith)
        requires 1 <= rows <= 4, 66 <= row_h <= ART_MAX + 66;
    (cols * 84 - 24, rows * (row_h + 24) - 24)
}

fn plan_count_dots(common: &CardCommon, n: u32, numerals: Vec<Line>, circle: &Vec<(i32, i32)>, map: &mut InkMap, anchor: Anchor) -> (out: Vec<RenderPlan>)
    requires
        old(map)@.wf(),
        old(map)@.screen_w <= 0x100000,
        old(map)@.screen_h <= 0x100000,
        1 <= n <= 20,
        lines_ok(numerals@),
        numerals@.len() <= 20,
        forall|j: int| 0 <= j < circle@.len() ==> {
            let p = #[trigger] circle@[j];
            -ART_MAX <= p.0 <= ART_MAX && -ART_MAX <= p.1 <= ART_MAX
        },
    ensures
        final(map)@.wf(),
        final(map)@.screen_w == old(map)@.screen_w,
        final(map)@.screen_h == old(map)@.screen_h,
        (plans_view(out@), final(map)@) == ({
            let (bw, bh) = dots_dims_of(n as int, max_height(numerals@));
            match resolve_spec(old(map)@, common.place, anchor, bw, bh) {
                None => (Seq::<PlanV>::empty(), old(map)@),
                Some((bx, by)) => commit_all(dot_plans(circle@, numerals@, bx, by, common.pace), old(map)@, Seq::empty()),
            }
        }),
{
    let mut out: Vec<RenderPlan> = Vec::new();
    assert(plans_view(out@) =~= Seq::<PlanV>::empty());
    let numeral_h = max_height_of(&numerals);
    let (bw, bh) = dots_block_dims(n, numeral_h);
    match resolve(map, &common.place, anchor, bw, bh) {
        None => out,
        Some((bx, by)) => {
            proof {
                crate::layout::law_resolve_in_page(map@, common.place, anchor, bw as int, bh as int);
            }
            let plans = dot_instances(circle, numerals, bx, by, common.pace);
            commit_each(plans, map, &mut out);
            out
        },
    }
}

fn plan_count_tally(common: &CardCommon, n: u32, map: &mut InkMap, anchor: Anchor) -> (out: Vec<RenderPlan>)
    requires
        old(map)@.wf(),
        old(map)@.screen_w <= 0x100000,
        old(map)@.screen_h <= 0x100000,
        1 <= n <= 20,
    ensures
        final(map)@.wf(),
        final(map)@.screen_w == old(map)@.screen_w,
        final(map)@.screen_h == old(map)@.screen_h,
        (plans_view(out@), final(map)@) == ({
            let (bw, bh) = tally_dims_of(n as int);
            match resolve_spec(old(map)@, common.place, anchor, bw, bh) {
                None => (Seq::<PlanV>::empty(), old(map)@),
                Some((bx, by)) => commit_all(tally_plans(n as int, bx, by, common.pace), old(map)@, Seq::empty()),
            }
        }),
{
    let mut out: Vec<RenderPlan> = Vec::new();
    assert(plans_view(out@) =~= Seq::<PlanV>::empty());
    let (bw, bh) = tally_block_dims(n);
    match resolve(map, &common.place, anchor, bw, bh) {
        None => out,
        Some((bx, by)) => {
            proof {
                crate::layout::law_resolve_in_page(map@, common.place, anchor, bw as int, bh as int);
            }
            let plans = tally_groups(n, bx, by, common.pace);
            commit_each(plans, map, &mut out);
            out
        },
    }
}

fn plan_count(common: &CardCommon, n: u32, style: CountStyle, art: CardArt, map: &mut InkMap, anchor: Anchor) -> (out: Vec<RenderPlan>)
    requires
        old(map)@.wf(),
        old(map)@.screen_w <= 0x100000,
        old(map)@.screen_h <= 0x100000,
        art_ok(art),
        art.numerals@.len() <= 20,
    ensures
        final(map)@.wf(),
        final(map)@.screen_w == old(map)@.screen_w,
        final(map)@.screen_h == old(map)@.screen_h,
        (plans_view(out@), final(map)@) == count_card(old(map)@, *common, anchor, art, n, style),
{
    let n = if n < 1 { 1 } else if n > 20 { 20 } else { n };
    match style {
        CountStyle::Dots => plan_count_dots(common, n, art.numerals, &art.dot_circle, map, anchor),
        CountStyle::Tally => plan_count_tally(common, n, map, anchor),
        CountStyle::Numbers => plan_text(common, art.text_lines, map, anchor),
    }
}

fn plan_trace(common: &CardCommon, kind: TraceKind, guide: TraceGuide, art: CardArt, map: &mut InkMap, anchor: Anchor) -> (out: Vec<RenderPlan>)
    requires
        old(map)@.wf(),
        old(map)@.screen_w <= 0x100000,
        old(map)@.screen_h <= 0x100000,
        art_ok(art),
    ensures
        final(map)@.wf(),
        final(map)@.screen_w == old(map)@.screen_w,
        final(map)@.screen_h == old(map)@.screen_h,
        (plans_view(out@), final(map)@) == trace_card(old(map)@, *common, anchor, art, kind, guide),
{
    let ghost a0 = art;
    let mut out: Vec<RenderPlan> = Vec::new();
    assert(plans_view(out@) =~= Seq::<PlanV>::empty());
    match resolve_boxed(map, common, anchor) {
        None => out,
        Some((k, size, x0, y0)) => {
            let b = size_box(size);
            let mut glyphs = art.glyphs;
            let mut shapes = art.shapes;
            let glyph = take_opt_at(&mut glyphs, k);
            let shape = take_opt_at(&mut shapes, k);
            assert(glyph == art_at(a0.glyphs@, k as int));
            assert(shape == art_at(a0.shapes@, k as int));
            let plans = trace_plans_at(common.pace, kind, guide, glyph, shape, x0, y0, b);
            commit_each(plans, map, &mut out);
            out
        },
    }
}

} // verus!

verus! {

/// The smaller of two sides.
pub open spec fn min_side(a: i32, b: i32) -> i32 {
    if a < b { a } else { b }
}

/// A page child drawn straight into its pixel rect (no placement search);
/// its plans are committed in order. A page nested in a page draws nothing.
pub open spec fn in_rect(card: Card, rect: (i32, i32, i32, i32), g: InkGrid, art: CardArt) -> (Seq<PlanV>, InkGrid) {
    let (x0, y0) = (rect.0 as int, rect.1 as int);
    match card {
        Card::Text { common, .. } => commit_of(text_rect_from(common, art.text_lines@, rect, 0, None), g, Seq::empty()),
        Card::Sketch { common, strokes } => {
            let sv = strokes_view(strokes@);
            let plan = if all_pts(sv).len() == 0 {
                None
            } else {
                plan_of(sketch_of(sv, x0, y0, rect.2 as int, rect.3 as int), BLACK, ppf_of(common.pace))
            };
            commit_of(plan, g, Seq::empty())
        },
        Card::Stamp { common, count, .. } => match art.stamp {
            None => (Seq::empty(), g),
            Some(u) => commit_all(
                stamp_plans(deep(u@), clamp_count(count, 1, 5) as int, x0, y0, common.pace),
                g,
                Seq::empty(),
            ),
        },
        Card::Count { common, n, style } => {
            let n = clamp_count(n, 1, 20) as int;
            match style {
                CountStyle::Dots => commit_all(dot_plans(art.dot_circle@, art.numerals@, x0, y0, common.pace), g, Seq::empty()),
                CountStyle::Tally => commit_all(tally_plans(n, x0, y0, common.pace), g, Seq::empty()),
                CountStyle::Numbers => commit_of(text_rect_from(common, art.text_lines@, rect, 0, None), g, Seq::empty()),
            }
        },
        Card::Trace { common, kind, guide, .. } => commit_all(
            trace_plans(
                common.pace,
                kind,
                guide,
                art_at(art.glyphs@, 0),
                art_at(art.shapes@, 0),
                x0,
                y0,
                min_side(rect.2, rect.3) as int,
            ),
            g,
            Seq::empty(),
        ),
        Card::Page { .. } => (Seq::empty(), g),
    }
}

/// A page: every layout item drawn into its rect, in order.
pub open spec fn page_from(layout: Seq<(Card, (i64, i64, i64, i64))>, children: Seq<CardArt>, g: InkGrid) -> (Seq<PlanV>, InkGrid)
    decreases layout.len(),
{
    if layout.len() == 0 {
        (Seq::empty(), g)
    } else {
        let i = layout.len() - 1;
        let (o, g2) = page_from(layout.drop_last(), children, g);
        let (p, g3) = in_rect(layout[i].0, pixel_rect_of(layout[i].1), g2, children[i]);
        (o + p, g3)
    }
}

/// What [`plan_card`] returns and leaves on the map.
pub open spec fn card_plans(card: Card, g: InkGrid, art: CardArt, new_ink: (i32, i32)) -> (Seq<PlanV>, InkGrid) {
    match card {
        Card::Text { common, .. } => text_from(g, common, seed_of(common, new_ink), art.text_lines@, 0),
        Card::Sketch { common, strokes } => sketch_card(g, common, seed_of(common, new_ink), strokes_view(strokes@)),
        Card::Stamp { common, count, .. } => stamp_card(g, common, seed_of(common, new_ink), art.stamp, count),
        Card::Count { common, n, style } => count_card(g, common, seed_of(common, new_ink), art, n, style),
        Card::Trace { common, kind, guide, .. } => trace_card(g, common, seed_of(common, new_ink), art, kind, guide),
        Card::Page { layout } => page_from(layout@, art.children@, g),
    }
}

fn plan_in_rect(card: &Card, rect: (i32, i32, i32, i32), map: &mut InkMap, art: CardArt) -> (out: Vec<RenderPlan>)
    requires
        old(map)@.wf(),
        art_ok(art),
        art.numerals@.len() <= 20,
        0 <= rect.0 <= SCREEN_W,
        0 <= rect.1 <= SCREEN_H,
        0 <= rect.2 <= SCREEN_W,
        0 <= rect.3 <= SCREEN_H,
    ensures
        final(map)@.wf(),
        final(map)@.screen_w == old(map)@.screen_w,
        final(map)@.screen_h == old(map)@.screen_h,
        (plans_view(out@), final(map)@) == in_rect(*card, rect, old(map)@, art),
{
    let ghost a0 = art;
    let mut out: Vec<RenderPlan> = Vec::new();
    assert(plans_view(out@) =~= Seq::<PlanV>::empty());
    let (x0, y0, w, h) = rect;
    match card {
        Card::Text { common, .. } => {
            let p = text_plan_in_rect(common, art.text_lines, rect);
            commit(p, map, &mut out);
        },
        Card::Sketch { common, strokes } => {
            let p = if has_points(strokes) {
                make_plan(sketch_geometry(strokes, x0, y0, w, h), BLACK, ppf(common.pace))
            } else {
                None
            };
            commit(p, map, &mut out);
        },
        Card::Stamp { common, count, .. } => match art.stamp {
            None => {},
            Some(u) => {
                let c = if *count < 1 { 1 } else if *count > 5 { 5 } else { *count };
                let plans = stamp_instances(&u, c, x0, y0, common.pace);
                commit_each(plans, map, &mut out);
            },
        },
        Card::Count { common, n, style } => {
            let n = if *n < 1 { 1 } else if *n > 20 { 20 } else { *n };
            match style {
                CountStyle::Dots => {
                    let plans = dot_instances(&art.dot_circle, art.numerals, x0, y0, common.pace);
                    commit_each(plans, map, &mut out);
                },
                CountStyle::Tally => {
                    let plans = tally_groups(n, x0, y0, common.pace);
                    commit_each(plans, map, &mut out);
                },
                CountStyle::Numbers => {
                    let p = text_plan_in_rect(common, art.text_lines, rect);
                    commit(p, map, &mut out);
                },
            }
        },
        Card::Trace { common, kind, guide, .. } => {
            let b = if w < h { w } else { h };
            let mut glyphs = art.glyphs;
            let mut shapes = art.shapes;
            let glyph = take_opt_at(&mut glyphs, 0);
            let shape = take_opt_at(&mut shapes, 0);
            assert(glyph == art_at(a0.glyphs@, 0));
            assert(shape == art_at(a0.shapes@, 0));
            let plans = trace_plans_at(common.pace, *kind, *guide, glyph, shape, x0, y0, b);
            commit_each(plans, map, &mut out);
        },
        Card::Page { .. } => {},
    }
    out
}

} // verus!

verus! {

impl CardArt {
    /// Art with nothing in it.
    pub fn none() -> (a: CardArt)
        ensures
            a.text_lines@.len() == 0,
            a.numerals@.len() == 0,
            a.dot_circle@.len() == 0,
            a.stamp is None,
            a.glyphs@.len() == 0,
            a.shapes@.len() == 0,
            a.children@.len() == 0,
            art_ok(a),
    {
        CardArt {
            text_lines: Vec::new(),
            numerals: Vec::new(),
            dot_circle: Vec::new(),
            stamp: None,
            glyphs: Vec::new(),
            shapes: Vec::new(),
            children: Vec::new(),
        }
    }
}

/// The art describes the card: one entry per layout item of a page, and
/// all of it of sane size.
pub open spec fn art_for(card: Card, art: CardArt) -> bool {
    &&& art_ok(art)
    &&& art.numerals@.len() <= 20
    &&& card matches Card::Page { layout } ==> {
        &&& art.children@.len() == layout@.len()
        &&& forall|k: int| 0 <= k < art.children@.len() ==> (#[trigger] art.children@[k]).numerals@.len() <= 20
    }
}

fn plan_page(layout: &Vec<(Card, (i64, i64, i64, i64))>, children: Vec<CardArt>, map: &mut InkMap) -> (out: Vec<RenderPlan>)
    requires
        old(map)@.wf(),
        children@.len() == layout@.len(),
        forall|k: int| 0 <= k < children@.len() ==> art_ok(#[trigger] children@[k]) && children@[k].numerals@.len() <= 20,
    ensures
        final(map)@.wf(),
        final(map)@.screen_w == old(map)@.screen_w,
        final(map)@.screen_h == old(map)@.screen_h,
        (plans_view(out@), final(map)@) == page_from(layout@, children@, old(map)@),
{
    let ghost all = children@;
    let ghost g0 = map@;
    let mut arts = children;
    let mut out: Vec<RenderPlan> = Vec::new();
    assert(plans_view(out@) =~= Seq::<PlanV>::empty());
    let mut i: usize = 0;
    while i < layout.len()
        invariant
            all == children@,
            g0 == old(map)@,
            all.len() == layout@.len(),
            forall|k: int| 0 <= k < all.len() ==> art_ok(#[trigger] all[k]) && all[k].numerals@.len() <= 20,
            i <= layout@.len(),
            arts@.len() == all.len(),
            forall|k: int| i <= k < all.len() ==> #[trigger] arts@[k] == all[k],
            map@.wf(),
            map@.screen_w == g0.screen_w,
            map@.screen_h == g0.screen_h,
            (plans_view(out@), map@) == page_from(layout@.take(i as int), all, g0),
        decreases layout@.len() - i,
    {
        let rect = pixel_rect(layout[i].1);
        let ghost before = arts@;
        arts.push(CardArt::none());
        let art = arts.swap_remove(i);
        assert(art == all[i as int]);
        assert forall|k: int| i + 1 <= k < all.len() implies #[trigger] arts@[k] == all[k] by {
            assert(arts@[k] == before[k]);
        }
        let ghost o = plans_view(out@);
        let mut plans = plan_in_rect(&layout[i].0, rect, map, art);
        let ghost pv = plans_view(plans@);
        let ghost ov = out@;
        let ghost pl = plans@;
        out.append(&mut plans);
        assert(plans_view(out@) =~= o + pv) by {
            assert(out@ =~= ov + pl);
        }
        assert(layout@.take(i + 1).drop_last() =~= layout@.take(i as int));
        i = i + 1;
    }
    assert(layout@.take(i as int) =~= layout@);
    out
}

/// Turn one card into its render plans (a stamp's copies, a count's dots
/// or tally groups, and a trace's grid and template each get their own).
/// The placement search walks the card's shrink ladder until something
/// fits; if nothing does anywhere on the page, the card is dropped and
/// this returns nothing. Every plan returned is already marked on `map`.
pub fn plan_card(card: &Card, map: &mut InkMap, art: CardArt, new_ink_anchor: (i32, i32)) -> (out: Vec<RenderPlan>)
    requires
        old(map)@.wf(),
        art_for(*card, art),
    ensures
        final(map)@.wf(),
        final(map)@.screen_w == old(map)@.screen_w,
        final(map)@.screen_h == old(map)@.screen_h,
        (plans_view(out@), final(map)@) == card_plans(*card, old(map)@, art, new_ink_anchor),
{
    let ghost a0 = art;
    match card {
        Card::Text { common, .. } => {
            let anchor = seed_anchor(common, new_ink_anchor);
            plan_text(common, art.text_lines, map, anchor)
        },
        Card::Sketch { common, strokes } => {
            let anchor = seed_anchor(common, new_ink_anchor);
            plan_sketch(common, strokes, map, anchor)
        },
        Card::Stamp { common, count, .. } => {
            let anchor = seed_anchor(common, new_ink_anchor);
            plan_stamp(common, art.stamp, *count, map, anchor)
        },
        Card::Count { common, n, style } => {
            let anchor = seed_anchor(common, new_ink_anchor);
            plan_count(common, *n, *style, art, map, anchor)
        },
        Card::Trace { common, kind, guide, .. } => {
            let anchor = seed_anchor(common, new_ink_anchor);
            plan_trace(common, *kind, *guide, art, map, anchor)
        },
        Card::Page { layout } => {
            proof {
                assert forall|k: int| 0 <= k < a0.children@.len() implies art_ok(#[trigger] a0.children@[k]) by {
                    assert(art_ok(a0));
                }
            }
            plan_page(layout, art.children, map)
        },
    }
}

} // verus!

verus! {

/// The decimal digit `d`.
pub open spec fn digit_char(d: int) -> char {
    if d == 0 {
        '0'
    } else if d == 1 {
        '1'
    } else if d == 2 {
        '2'
    } else if d == 3 {
        '3'
    } else if d == 4 {
        '4'
    } else if d == 5 {
        '5'
    } else if d == 6 {
        '6'
    } else if d == 7 {
        '7'
    } else if d == 8 {
        '8'
    } else {
        '9'
    }
}

/// `v` written in decimal.
pub open spec fn decimal(v: nat) -> Seq<char>
    decreases v,
{
    if v < 10 {
        seq![digit_char(v as int)]
    } else {
        decimal(v / 10).push(digit_char((v % 10) as int))
    }
}

/// `1 2 ... n`, space separated.
pub open spec fn numbers_text(n: nat) -> Seq<char>
    decreases n,
{
    if n <= 1 {
        decimal(1)
    } else {
        numbers_text((n - 1) as nat) + seq![' '] + decimal(n)
    }
}

fn digit(d: u32) -> (c: char)
    requires
        d < 10,
    ensures
        c == digit_char(d as int),
{
    if d == 0 {
        '0'
    } else if d == 1 {
        '1'
    } else if d == 2 {
        '2'
    } else if d == 3 {
        '3'
    } else if d == 4 {
        '4'
    } else if d == 5 {
        '5'
    } else if d == 6 {
        '6'
    } else if d == 7 {
        '7'
    } else if d == 8 {
        '8'
    } else {
        '9'
    }
}

fn push_decimal(out: &mut Vec<char>, v: u32)
    ensures
        final(out)@ == old(out)@ + decimal(v as nat),
    decreases v,
{
    if v >= 10 {
        push_decimal(out, v / 10);
    }
    let ghost mid = out@;
    out.push(digit(v % 10));
    if v >= 10 {
        assert(out@ =~= old(out)@ + decimal(v as nat));
    } else {
        assert(out@ =~= old(out)@ + decimal(v as nat));
    }
}

/// The text a count card drawn as numbers writes: `1 2 ... n`.
pub fn count_numbers_text(n: u32) -> (r: Vec<char>)
    ensures
        r@ == numbers_text(if n < 1 { 1 } else { n as nat }),
{
    let n = if n < 1 { 1 } else { n };
    let mut r: Vec<char> = Vec::new();
    push_decimal(&mut r, 1);
    assert(r@ =~= numbers_text(1));
    let mut i: u32 = 1;
    while i < n
        invariant
            1 <= i <= n,
            r@ == numbers_text(i as nat),
        decreases n - i,
    {
        i = i + 1;
        let ghost r0 = r@;
        r.push(' ');
        push_decimal(&mut r, i);
        assert(r@ =~= numbers_text(i as nat));
    }
    r
}

} // verus!

verus! {

/// Marking rect `r` on `g` changes nothing: it is already marked.
pub open spec fn has_marked(g: InkGrid, r: (i32, i32, i32, i32)) -> bool {
    g.marked(r.0 as int, r.1 as int, r.2 as int, r.3 as int) == g
}

/// Every plan's region is already marked on `g`.
pub open spec fn all_marked(ps: Seq<PlanV>, g: InkGrid) -> bool {
    forall|i: int| 0 <= i < ps.len() ==> #[trigger] has_marked(g, ps[i].region.rect_spec())
}

/// Whatever `g` has marked, `g2` has marked too.
pub open spec fn keeps(g: InkGrid, g2: InkGrid) -> bool {
    forall|r: (i32, i32, i32, i32)| #[trigger] has_marked(g, r) ==> has_marked(g2, r)
}

proof fn lemma_commit_of_marks(p: Option<PlanV>, g: InkGrid, out: Seq<PlanV>)
    requires
        all_marked(out, g),
    ensures
        all_marked(commit_of(p, g, out).0, commit_of(p, g, out).1),
        keeps(g, commit_of(p, g, out).1),
{
    match p {
        Some(q) => {
            let rq = q.region.rect_spec();
            let g2 = g.marked(rq.0 as int, rq.1 as int, rq.2 as int, rq.3 as int);
            assert forall|r: (i32, i32, i32, i32)| #[trigger] has_marked(g, r) implies has_marked(g2, r) by {
                crate::layout::law_mark_commutes(g, (rq.0 as int, rq.1 as int, rq.2 as int, rq.3 as int), (r.0 as int, r.1 as int, r.2 as int, r.3 as int));
            }
            crate::layout::law_mark_idempotent(g, rq.0 as int, rq.1 as int, rq.2 as int, rq.3 as int);
            let o2 = out.push(q);
            assert forall|i: int| 0 <= i < o2.len() implies #[trigger] has_marked(g2, o2[i].region.rect_spec()) by {
                if i < out.len() {
                    assert(o2[i] == out[i]);
                    assert(has_marked(g, out[i].region.rect_spec()));
                }
            }
        },
        None => {},
    }
}

proof fn lemma_commit_all_marks(ps: Seq<Option<PlanV>>, g: InkGrid, out: Seq<PlanV>)
    requires
        all_marked(out, g),
    ensures
        all_marked(commit_all(ps, g, out).0, commit_all(ps, g, out).1),
        keeps(g, commit_all(ps, g, out).1),
    decreases ps.len(),
{
    if ps.len() > 0 {
        lemma_commit_all_marks(ps.drop_last(), g, out);
        let (o2, g2) = commit_all(ps.drop_last(), g, out);
        lemma_commit_of_marks(ps.last(), g2, o2);
    }
}

proof fn lemma_text_from_marks(g: InkGrid, common: CardCommon, anchor: Anchor, steps: Seq<Vec<Line>>, k: int)
    ensures
        all_marked(text_from(g, common, anchor, steps, k).0, text_from(g, common, anchor, steps, k).1),
        keeps(g, text_from(g, common, anchor, steps, k).1),
    decreases ladder_of(common.size).len() - k,
{
    let ladder = ladder_of(common.size);
    if k < 0 || k >= ladder.len() {
    } else {
        let ls = step_lines(steps, k);
        if ls.len() == 0 {
            lemma_text_from_marks(g, common, anchor, steps, k + 1);
        } else {
            let lh = block_pitch(ls, pitch_of(ladder[k]) as int);
            match resolve_spec(g, common.place, anchor, max_width(ls), lh * ls.len()) {
                None => lemma_text_from_marks(g, common, anchor, steps, k + 1),
                Some((x0, y0)) => match plan_of(placed_text(prepared_of(ls), lh, x0, y0), BLACK, ppf_of(common.pace)) {
                    Some(p) => lemma_commit_of_marks(Some(p), g, Seq::empty()),
                    None => lemma_text_from_marks(g, common, anchor, steps, k + 1),
                },
            }
        }
    }
}

proof fn lemma_in_rect_marks(card: Card, rect: (i32, i32, i32, i32), g: InkGrid, art: CardArt)
    ensures
        all_marked(in_rect(card, rect, g, art).0, in_rect(card, rect, g, art).1),
        keeps(g, in_rect(card, rect, g, art).1),
{
    let (x0, y0) = (rect.0 as int, rect.1 as int);
    match card {
        Card::Text { common, .. } => lemma_commit_of_marks(text_rect_from(common, art.text_lines@, rect, 0, None), g, Seq::empty()),
        Card::Sketch { common, strokes } => {
            let sv = strokes_view(strokes@);
            let plan = if all_pts(sv).len() == 0 {
                None
            } else {
                plan_of(sketch_of(sv, x0, y0, rect.2 as int, rect.3 as int), BLACK, ppf_of(common.pace))
            };
            lemma_commit_of_marks(plan, g, Seq::empty());
        },
        Card::Stamp { common, count, .. } => match art.stamp {
            None => {},
            Some(u) => lemma_commit_all_marks(
                stamp_plans(deep(u@), clamp_count(count, 1, 5) as int, x0, y0, common.pace),
                g,
                Seq::empty(),
            ),
        },
        Card::Count { common, n, style } => {
            let n = clamp_count(n, 1, 20) as int;
            match style {
                CountStyle::Dots => lemma_commit_all_marks(dot_plans(art.dot_circle@, art.numerals@, x0, y0, common.pace), g, Seq::empty()),
                CountStyle::Tally => lemma_commit_all_marks(tally_plans(n, x0, y0, common.pace), g, Seq::empty()),
                CountStyle::Numbers => lemma_commit_of_marks(text_rect_from(common, art.text_lines@, rect, 0, None), g, Seq::empty()),
            }
        },
        Card::Trace { common, kind, guide, .. } => lemma_commit_all_marks(
            trace_plans(common.pace, kind, guide, art_at(art.glyphs@, 0), art_at(art.shapes@, 0), x0, y0, min_side(rect.2, rect.3) as int),
            g,
            Seq::empty(),
        ),
        Card::Page { .. } => {},
    }
}

proof fn lemma_page_from_marks(layout: Seq<(Card, (i64, i64, i64, i64))>, children: Seq<CardArt>, g: InkGrid)
    ensures
        all_marked(page_from(layout, children, g).0, page_from(layout, children, g).1),
        keeps(g, page_from(layout, children, g).1),
    decreases layout.len(),
{
    if layout.len() > 0 {
        let i = layout.len() - 1;
        lemma_page_from_marks(layout.drop_last(), children, g);
        let (o, g2) = page_from(layout.drop_last(), children, g);
        lemma_in_rect_marks(layout[i].0, pixel_rect_of(layout[i].1), g2, children[i]);
        let (p, g3) = in_rect(layout[i].0, pixel_rect_of(layout[i].1), g2, children[i]);
        let all = o + p;
        assert forall|j: int| 0 <= j < all.len() implies #[trigger] has_marked(g3, all[j].region.rect_spec()) by {
            if j < o.len() {
                assert(all[j] == o[j]);
                assert(has_marked(g2, o[j].region.rect_spec()));
            } else {
                assert(all[j] == p[j - o.len()]);
            }
        }
    }
}

/// `g` with the region of every plan of `ps` marked, in order.
pub open spec fn marked_by(g: InkGrid, ps: Seq<PlanV>) -> InkGrid
    decreases ps.len(),
{
    if ps.len() == 0 {
        g
    } else {
        let r = ps.last().region.rect_spec();
        marked_by(g, ps.drop_last()).marked(r.0 as int, r.1 as int, r.2 as int, r.3 as int)
    }
}

proof fn lemma_marked_by_append(g: InkGrid, a: Seq<PlanV>, b: Seq<PlanV>)
    ensures
        marked_by(g, a + b) == marked_by(marked_by(g, a), b),
    decreases b.len(),
{
    if b.len() == 0 {
        assert(a + b =~= a);
    } else {
        lemma_marked_by_append(g, a, b.drop_last());
        assert((a + b).drop_last() =~= a + b.drop_last());
        assert((a + b).last() == b.last());
    }
}

proof fn lemma_marked_by_keeps_ink(g: InkGrid, ps: Seq<PlanV>)
    ensures
        marked_by(g, ps).cols == g.cols,
        marked_by(g, ps).rows == g.rows,
        marked_by(g, ps).screen_w == g.screen_w,
        marked_by(g, ps).screen_h == g.screen_h,
        marked_by(g, ps).dirty.len() == g.dirty.len(),
        forall|i: int| 0 <= i < g.dirty.len() && #[trigger] g.dirty[i] ==> marked_by(g, ps).dirty[i],
    decreases ps.len(),
{
    if ps.len() > 0 {
        lemma_marked_by_keeps_ink(g, ps.drop_last());
    }
}

proof fn lemma_commit_of_grid(p: Option<PlanV>, g0: InkGrid, g: InkGrid, out: Seq<PlanV>)
    requires
        g == marked_by(g0, out),
    ensures
        commit_of(p, g, out).1 == marked_by(g0, commit_of(p, g, out).0),
{
    if let Some(q) = p {
        assert(out.push(q).drop_last() =~= out);
    }
}

proof fn lemma_commit_all_grid(ps: Seq<Option<PlanV>>, g0: InkGrid, g: InkGrid, out: Seq<PlanV>)
    requires
        g == marked_by(g0, out),
    ensures
        commit_all(ps, g, out).1 == marked_by(g0, commit_all(ps, g, out).0),
    decreases ps.len(),
{
    if ps.len() > 0 {
        lemma_commit_all_grid(ps.drop_last(), g0, g, out);
        let (o2, g2) = commit_all(ps.drop_last(), g, out);
        lemma_commit_of_grid(ps.last(), g0, g2, o2);
    }
}

proof fn lemma_text_from_grid(g: InkGrid, common: CardCommon, anchor: Anchor, steps: Seq<Vec<Line>>, k: int)
    ensures
        text_from(g, common, anchor, steps, k).1 == marked_by(g, text_from(g, common, anchor, steps, k).0),
    decreases ladder_of(common.size).len() - k,
{
    let ladder = ladder_of(common.size);
    if k < 0 || k >= ladder.len() {
    } else {
        let ls = step_lines(steps, k);
        if ls.len() == 0 {
            lemma_text_from_grid(g, common, anchor, steps, k + 1);
        } else {
            let lh = block_pitch(ls, pitch_of(ladder[k]) as int);
            match resolve_spec(g, common.place, anchor, max_width(ls), lh * ls.len()) {
                None => lemma_text_from_grid(g, common, anchor, steps, k + 1),
                Some((x0, y0)) => match plan_of(placed_text(prepared_of(ls), lh, x0, y0), BLACK, ppf_of(common.pace)) {
                    Some(p) => lemma_commit_of_grid(Some(p), g, g, Seq::empty()),
                    None => lemma_text_from_grid(g, common, anchor, steps, k + 1),
                },
            }
        }
    }
}

proof fn lemma_in_rect_grid(card: Card, rect: (i32, i32, i32, i32), g: InkGrid, art: CardArt)
    ensures
        in_rect(card, rect, g, art).1 == marked_by(g, in_rect(card, rect, g, art).0),
{
    let (x0, y0) = (rect.0 as int, rect.1 as int);
    let e = Seq::<PlanV>::empty();
    match card {
        Card::Text { common, .. } => lemma_commit_of_grid(text_rect_from(common, art.text_lines@, rect, 0, None), g, g, e),
        Card::Sketch { common, strokes } => {
            let sv = strokes_view(strokes@);
            let plan = if all_pts(sv).len() == 0 {
                None
            } else {
                plan_of(sketch_of(sv, x0, y0, rect.2 as int, rect.3 as int), BLACK, ppf_of(common.pace))
            };
            lemma_commit_of_grid(plan, g, g, e);
        },
        Card::Stamp { common, count, .. } => match art.stamp {
            None => {},
            Some(u) => lemma_commit_all_grid(stamp_plans(deep(u@), clamp_count(count, 1, 5) as int, x0, y0, common.pace), g, g, e),
        },
        Card::Count { common, n, style } => {
            let n = clamp_count(n, 1, 20) as int;
            match style {
                CountStyle::Dots => lemma_commit_all_grid(dot_plans(art.dot_circle@, art.numerals@, x0, y0, common.pace), g, g, e),
                CountStyle::Tally => lemma_commit_all_grid(tally_plans(n, x0, y0, common.pace), g, g, e),
                CountStyle::Numbers => lemma_commit_of_grid(text_rect_from(common, art.text_lines@, rect, 0, None), g, g, e),
            }
        },
        Card::Trace { common, kind, guide, .. } => lemma_commit_all_grid(
            trace_plans(common.pace, kind, guide, art_at(art.glyphs@, 0), art_at(art.shapes@, 0), x0, y0, min_side(rect.2, rect.3) as int),
            g,
            g,
            e,
        ),
        Card::Page { .. } => {},
    }
}

proof fn lemma_page_from_grid(layout: Seq<(Card, (i64, i64, i64, i64))>, children: Seq<CardArt>, g: InkGrid)
    ensures
        page_from(layout, children, g).1 == marked_by(g, page_from(layout, children, g).0),
    decreases layout.len(),
{
    if layout.len() > 0 {
        let i = layout.len() - 1;
        lemma_page_from_grid(layout.drop_last(), children, g);
        let (o, g2) = page_from(layout.drop_last(), children, g);
        lemma_in_rect_grid(layout[i].0, pixel_rect_of(layout[i].1), g2, children[i]);
        let (p, g3) = in_rect(layout[i].0, pixel_rect_of(layout[i].1), g2, children[i]);
        lemma_marked_by_append(g, o, p);
    }
}

proof fn lemma_card_grid(card: Card, g: InkGrid, art: CardArt, new_ink: (i32, i32))
    ensures
        card_plans(card, g, art, new_ink).1 == marked_by(g, card_plans(card, g, art, new_ink).0),
{
    let e = Seq::<PlanV>::empty();
    match card {
        Card::Text { common, .. } => lemma_text_from_grid(g, common, seed_of(common, new_ink), art.text_lines@, 0),
        Card::Sketch { common, strokes } => {
            let sv = strokes_view(strokes@);
            if all_pts(sv).len() > 0 {
                match boxed_from(g, common, seed_of(common, new_ink), 0) {
                    None => {},
                    Some((k, (x, y))) => {
                        let b = box_of(ladder_of(common.size)[k]) as int;
                        lemma_commit_of_grid(plan_of(sketch_of(sv, x, y, b, b), BLACK, ppf_of(common.pace)), g, g, e);
                    },
                }
            }
        },
        Card::Stamp { common, count, .. } => match art.stamp {
            None => {},
            Some(u) => {
                let c = clamp_count(count, 1, 5) as int;
                let (bw, bh) = stamp_dims_of(c);
                match resolve_spec(g, common.place, seed_of(common, new_ink), bw, bh) {
                    None => {},
                    Some((bx, by)) => lemma_commit_all_grid(stamp_plans(deep(u@), c, bx, by, common.pace), g, g, e),
                }
            },
        },
        Card::Count { common, n, style } => {
            let anchor = seed_of(common, new_ink);
            let n = clamp_count(n, 1, 20) as int;
            match style {
                CountStyle::Dots => {
                    let (bw, bh) = dots_dims_of(n, max_height(art.numerals@));
                    match resolve_spec(g, common.place, anchor, bw, bh) {
                        None => {},
                        Some((bx, by)) => lemma_commit_all_grid(dot_plans(art.dot_circle@, art.numerals@, bx, by, common.pace), g, g, e),
                    }
                },
                CountStyle::Tally => {
                    let (bw, bh) = tally_dims_of(n);
                    match resolve_spec(g, common.place, anchor, bw, bh) {
                        None => {},
                        Some((bx, by)) => lemma_commit_all_grid(tally_plans(n, bx, by, common.pace), g, g, e),
                    }
                },
                CountStyle::Numbers => lemma_text_from_grid(g, common, anchor, art.text_lines@, 0),
            }
        },
        Card::Trace { common, kind, guide, .. } => match boxed_from(g, common, seed_of(common, new_ink), 0) {
            None => {},
            Some((k, (x, y))) => {
                let b = box_of(ladder_of(common.size)[k]) as int;
                lemma_commit_all_grid(
                    trace_plans(common.pace, kind, guide, art_at(art.glyphs@, k), art_at(art.shapes@, k), x, y, b),
                    g,
                    g,
                    e,
                );
            },
        },
        Card::Page { layout } => lemma_page_from_grid(layout@, art.children@, g),
    }
}

/// Law: every plan [`plan_card`] returns is already marked on the ink map
/// it leaves behind — the caller may mark it again, which changes nothing —
/// and nothing the map had marked before is lost. The map it leaves is
/// exactly the old map with each returned plan's region marked, so no
/// dirty cell is ever cleared, and when nothing is returned the map is
/// unchanged.
pub proof fn law_plans_already_marked(card: Card, g: InkGrid, art: CardArt, new_ink: (i32, i32))
    ensures
        all_marked(card_plans(card, g, art, new_ink).0, card_plans(card, g, art, new_ink).1),
        keeps(g, card_plans(card, g, art, new_ink).1),
        card_plans(card, g, art, new_ink).1 == marked_by(g, card_plans(card, g, art, new_ink).0),
        forall|i: int| 0 <= i < g.dirty.len() && #[trigger] g.dirty[i] ==> card_plans(card, g, art, new_ink).1.dirty[i],
        card_plans(card, g, art, new_ink).0.len() == 0 ==> card_plans(card, g, art, new_ink).1 == g,
{
    lemma_card_grid(card, g, art, new_ink);
    lemma_marked_by_keeps_ink(g, card_plans(card, g, art, new_ink).0);
    match card {
        Card::Text { common, .. } => lemma_text_from_marks(g, common, seed_of(common, new_ink), art.text_lines@, 0),
        Card::Sketch { common, strokes } => {
            let sv = strokes_view(strokes@);
            if all_pts(sv).len() > 0 {
                match boxed_from(g, common, seed_of(common, new_ink), 0) {
                    None => {},
                    Some((k, (x, y))) => {
                        let b = box_of(ladder_of(common.size)[k]) as int;
                        lemma_commit_of_marks(plan_of(sketch_of(sv, x, y, b, b), BLACK, ppf_of(common.pace)), g, Seq::empty());
                    },
                }
            }
        },
        Card::Stamp { common, count, .. } => match art.stamp {
            None => {},
            Some(u) => {
                let c = clamp_count(count, 1, 5) as int;
                let (bw, bh) = stamp_dims_of(c);
                match resolve_spec(g, common.place, seed_of(common, new_ink), bw, bh) {
                    None => {},
                    Some((bx, by)) => lemma_commit_all_marks(stamp_plans(deep(u@), c, bx, by, common.pace), g, Seq::empty()),
                }
            },
        },
        Card::Count { common, n, style } => {
            let anchor = seed_of(common, new_ink);
            let n = clamp_count(n, 1, 20) as int;
            match style {
                CountStyle::Dots => {
                    let (bw, bh) = dots_dims_of(n, max_height(art.numerals@));
                    match resolve_spec(g, common.place, anchor, bw, bh) {
                        None => {},
                        Some((bx, by)) => lemma_commit_all_marks(dot_plans(art.dot_circle@, art.numerals@, bx, by, common.pace), g, Seq::empty()),
                    }
                },
                CountStyle::Tally => {
                    let (bw, bh) = tally_dims_of(n);
                    match resolve_spec(g, common.place, anchor, bw, bh) {
                        None => {},
                        Some((bx, by)) => lemma_commit_all_marks(tally_plans(n, bx, by, common.pace), g, Seq::empty()),
                    }
                },
                CountStyle::Numbers => lemma_text_from_marks(g, common, anchor, art.text_lines@, 0),
            }
        },
        Card::Trace { common, kind, guide, .. } => match boxed_from(g, common, seed_of(common, new_ink), 0) {
            None => {},
            Some((k, (x, y))) => {
                let b = box_of(ladder_of(common.size)[k]) as int;
                lemma_commit_all_marks(
                    trace_plans(common.pace, kind, guide, art_at(art.glyphs@, k), art_at(art.shapes@, k), x, y, b),
                    g,
                    Seq::empty(),
                );
            },
        },
        Card::Page { layout } => lemma_page_from_marks(layout@, art.children@, g),
    }
}


/// Law: a card meant to sit by the new ink is searched for from the new
/// ink's own point: whatever the card, its placement search is seeded at
/// `new_ink_anchor`.
pub proof fn law_new_ink_seeds_the_search(common: CardCommon, new_ink: (i32, i32))
    requires
        common.place == Place::NearNewInk,
    ensures
        seed_of(common, new_ink) == Anchor::Point(new_ink.0, new_ink.1),
{
}

/// Law: a sketch meant to sit by the new ink, when its own box fits
/// anywhere on the page, is drawn into the clear box nearest the new ink:
/// the box whose top-left cell is Chebyshev-nearest the new ink's cell
/// among all clear boxes of its size, with the sketch aspect-fitted into
/// it.
pub proof fn law_new_ink_sketch_sits_nearest(card: Card, g: InkGrid, art: CardArt, new_ink: (i32, i32))
    requires
        g.wf(),
        card matches Card::Sketch { common, strokes } && common.place == Place::NearNewInk && all_pts(strokes_view(strokes@)).len() > 0
            && g.spot(box_of(common.size) as int, box_of(common.size) as int, (new_ink.0 as int, new_ink.1 as int), DEFAULT_MARGIN as int) is Some,
    ensures
        card matches Card::Sketch { common, strokes } && {
            let b = box_of(common.size) as int;
            let seed = (new_ink.0 as int, new_ink.1 as int);
            let (x, y) = g.spot(b, b, seed, DEFAULT_MARGIN as int).unwrap();
            let p = spot_params(b, b, DEFAULT_MARGIN as int);
            let (cx, cy) = g.seed_cell(seed);
            &&& card_plans(card, g, art, new_ink) == commit_of(
                plan_of(sketch_of(strokes_view(strokes@), x, y, b, b), BLACK, ppf_of(common.pace)),
                g,
                Seq::empty(),
            )
            &&& forall|col: int, row: int| #[trigger] g.candidate_ok(p, col, row) ==>
                cheb((x - p.margin) / 25, (y - p.margin) / 25, cx, cy) <= cheb(col, row, cx, cy)
        },
{
    if let Card::Sketch { common, strokes } = card {
        let b = box_of(common.size) as int;
        let seed = (new_ink.0 as int, new_ink.1 as int);
        let p = spot_params(b, b, DEFAULT_MARGIN as int);
        let (cx, cy) = g.seed_cell(seed);
        assert(ladder_of(common.size)[0] == common.size);
        assert(boxed_from(g, common, seed_of(common, new_ink), 0) == Some((0int, g.spot(b, b, seed, DEFAULT_MARGIN as int).unwrap())));
        let (x, y) = g.spot(b, b, seed, DEFAULT_MARGIN as int).unwrap();
        assert forall|col: int, row: int| #[trigger] g.candidate_ok(p, col, row) implies
            cheb((x - p.margin) / 25, (y - p.margin) / 25, cx, cy) <= cheb(col, row, cx, cy) by {
            crate::layout::law_spot_is_nearest(g, b, b, seed, DEFAULT_MARGIN as int, col, row);
        }
    }
}
} // verus!
