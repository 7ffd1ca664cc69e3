//! The diary's main loop as decisions. A [`Diary`] knows what the page is
//! doing (listening for ink, thinking, writing a reply, drawing cards,
//! showing the guide or a remembered page) and turns each pen sample, each
//! pass of the loop and each answer from the server into its next phase and
//! a list of [`Effect`]s. The loop around it reads the pen, the clock and
//! the reply channels, and performs those effects on the screen, the
//! child's ink, the server and the memory store.
//!
//! Time is the loop's clock in milliseconds; a deadline past `u64::MAX`
//! saturates there.
use crate::cardrender::{
    art_for, block_pitch, card_plans, lemma_pitch_bounds, lines_ok, plan_card, plans_view, CardArt, PlanV, RenderPlan,
};
use crate::cards::{Card, PageAction, Place, TurnResponse};
use crate::diary::{
    all_white, append_reply, bbox_of, box_pen, box_strokes_r, coord_ok, laid_out, radii3_ok, radii_ok, region_all_white,
    reply_layout, reply_placed, reply_y0, ConjurePlan, ConjureV, WritePlan, WriteV, REPLY_PITCH,
};
use crate::geom::BBox;
use crate::layout::{opt_point, page_grid, resolve, resolve_spec, Anchor, InkGrid, InkMap, MAX_SIDE};
use crate::script::{deep, Line};
use crate::surface::{Page, Surface, BLACK, FADED};
use vstd::prelude::*;

verus! {

/// The oracle's free-text reply may take this long before the diary gives up.
pub const ORACLE_PATIENCE_MS: u64 = 120_000;
/// A structured `/turn` answer may take this long.
pub const TURN_PATIENCE_MS: u64 = 30_000;
/// The thinking dot blinks at this period.
pub const PULSE_MS: u64 = 600;
/// Frame period of a reply or of cards being drawn.
pub const WRITE_FRAME_MS: u64 = 14;
/// Frame period of a memory being rewritten (it is remembered, not composed).
pub const CONJURE_FRAME_MS: u64 = 10;
/// How long the guide stays up untouched.
pub const GUIDE_MS: u64 = 45_000;
/// How long a remembered page rests on the paper untouched.
pub const MEMORY_MS: u64 = 120_000;
/// Reply points drawn per frame.
pub const REPLY_BUDGET: i32 = 26;
/// Memory points drawn per frame.
pub const CONJURE_BUDGET: i32 = 48;
/// Pen pressure is read at this scale: radius `2 + p * 3 / MAX_PRESSURE`.
pub const MAX_PRESSURE: i32 = 4096;
/// A pen sample counts as writing above this pressure.
pub const WRITE_PRESSURE: i32 = 40;
/// Radius of the eraser end.
pub const ERASER_R: i32 = 22;
/// A streamed reply chunk is dropped once the reply has reached this far
/// down the page (200 px above its bottom edge).
pub const REPLY_FLOOR: i32 = 1960;

/// The end of the stylus that touches the page.
#[derive(Debug, Clone, Copy, PartialEq, Eq, Structural)]
pub enum Tool {
    Pen,
    Eraser,
}

/// One reading of the raw stylus.
#[derive(Debug, Clone, Copy, PartialEq, Eq, Structural)]
pub struct PenSample {
    pub x: i32,
    pub y: i32,
    pub pressure: i32,
    pub touching: bool,
    pub tool: Tool,
}

/// One pen event of the window system (the fallback when the raw stylus
/// cannot be read): `d` is its pressure reading, `0..=100`.
#[derive(Debug, Clone, Copy, PartialEq, Eq, Structural)]
pub enum WindowPen {
    Press { x: i32, y: i32, d: i32 },
    Update { x: i32, y: i32, d: i32 },
    Release,
}

/// What the page is doing.
pub enum Phase {
    /// Waiting for the child to draw and pause; `last_pen` is when the pen
    /// last touched or left the page.
    Listening { last_pen: Option<u64> },
    /// The oracle has been asked; the corner dot blinks. `origin` is where
    /// the reply will stand (`None`: centered), `page_full` whether the page
    /// was already past the coverage threshold at commit time.
    Thinking { pulse: u64, blot_on: bool, since: u64, origin: Option<(i32, i32)>, page_full: bool },
    /// Tom's reply being written; `streaming` while more of it may arrive.
    Replying { plan: WritePlan, next: u64, streaming: bool, page_full: bool },
    /// Waiting on a `/turn` answer; `anchor` is the point beside the new ink
    /// the cards will aim for.
    CardTurn { page_full: bool, anchor: (i32, i32), since: u64 },
    /// The answer's cards being drawn one after another.
    DrawingCards { plans: Vec<RenderPlan>, plan_i: usize, point_i: usize, next: u64, page_full: bool },
    /// The guide panel; once dismissed (`open` false) it waits for pen-up so
    /// the dismissing touch leaves no mark.
    Help { open: bool, until: u64 },
    /// A remembered page being rewritten in faded ink.
    Conjuring { memory: ConjurePlan, next: u64 },
    /// The remembered page rests on the paper; once dismissed (`shown`
    /// false) it waits for pen-up.
    MemoryShown { shown: bool, until: u64, region: BBox },
}

/// The stylus as the loop sees it.
#[derive(Debug, Clone, Copy, PartialEq, Eq, Structural)]
pub struct Stylus {
    /// A stroke of the child's ink is in progress.
    pub pen_down: bool,
    /// The stylus is on the paper right now.
    pub on: bool,
    /// The stylus touched the paper during this pass of the loop.
    pub tapped: bool,
}

/// The turn in progress.
#[derive(Debug, Clone, Copy, PartialEq, Eq, Structural)]
pub struct TurnBook {
    /// How many of the child's strokes the diary has already answered (or
    /// seen erased); the strokes from here on are new.
    pub committed: usize,
    /// The reply failed midway.
    pub failed: bool,
    /// Some reply text arrived this turn.
    pub said: bool,
}

/// What the oracle's channel gave on one pass of the loop.
pub enum OracleMsg {
    /// Nothing yet.
    Nothing,
    /// A remembered page was summoned. The caller has looked it up and, when
    /// it exists, saved and cleared today's page and laid the memory out.
    Show(Option<ConjurePlan>),
    /// Reply text, wrapped at [`Diary::wrap_width`] and rasterized into
    /// lines by the caller; `said` when the text was not empty.
    Ink { lines: Vec<Line>, said: bool },
    /// The words the oracle read off the page (kept by the caller).
    Transcript,
    /// The oracle reported an error.
    Failed,
    /// The channel closed.
    Gone,
}

/// What the `/turn` channel gave on one pass of the loop.
pub enum TurnMsg {
    /// Nothing yet.
    Nothing,
    /// The server's answer, with the art the caller drew for each of its
    /// cards (in order).
    Answer { resp: TurnResponse, arts: Vec<CardArt> },
    /// The request or its answer failed.
    Failed,
    /// The channel closed.
    Gone,
}

/// A reply plan the loop can keep extending.
pub open spec fn plan_ok(p: WritePlan) -> bool {
    &&& p.region.on_page()
    &&& p.next_y >= -0x0800_0000
    &&& p.origin_x matches Some(ox) ==> coord_ok(ox as int)
}

/// A memory plan the loop can draw.
pub open spec fn conjure_ok(p: ConjurePlan) -> bool {
    radii3_ok(p@.strokes)
}

/// The whole state the loop's decisions read and write.
pub struct Diary {
    pub phase: Phase,
    pub stylus: Stylus,
    pub turn: TurnBook,
}

/// Something the loop must do.
#[derive(Debug, Clone, Copy, PartialEq, Eq)]
pub enum Effect {
    /// Ink a point of the child's stroke with radius `r`.
    Pen { x: i32, y: i32, r: i32 },
    /// Erase the child's ink around a point.
    Erase { x: i32, y: i32, r: i32 },
    /// The child's stroke ended.
    PenUp,
    /// Draw (`true`) or wipe (`false`) the thinking dot in the corner.
    Dot(bool),
    /// Wipe the child's ink (the "?" just drawn) and open the guide.
    ShowGuide,
    /// Close the guide, restoring what it covered.
    DismissGuide,
    /// Send the page to the oracle; this turn's strokes start at `fresh_from`.
    AskOracle { fresh_from: usize },
    /// Send the page to the `/turn` server; this turn's strokes start at `fresh_from`.
    AskTurn { fresh_from: usize },
    /// File the finished reply in the memory store.
    Remember,
    /// File a card turn's spoken words in the memory store.
    RememberSpoken,
    /// Wipe the page and the child's ink: a fresh sheet.
    TurnPage,
    /// Ink a dot (`from` is `None`) or a segment ending at `to`.
    Brush { from: Option<(i32, i32)>, to: (i32, i32), r: i32, color: u16 },
    /// Push the pixels of a region to the panel.
    Refresh(BBox),
    /// Put today's page back where a memory was shown.
    RestorePage,
}

impl Diary {
    /// The plans a phase carries are ones the loop can use.
    pub open spec fn wf(self) -> bool {
        match self.phase {
            Phase::Thinking { origin, .. } => origin matches Some((ox, oy)) ==> coord_ok(ox as int) && coord_ok(oy as int),
            Phase::Replying { plan, .. } => plan_ok(plan),
            Phase::Conjuring { memory, .. } => conjure_ok(memory),
            _ => true,
        }
    }
}

proof fn lemma_laid_out_ok(p: WritePlan, lines: Seq<Line>, y_start: Option<i32>, origin: Option<(i32, i32)>)
    requires
        laid_out(p, lines, y_start, origin),
        p.region.on_page(),
        y_start matches Some(y) ==> coord_ok(y as int),
        origin matches Some((ox, oy)) ==> coord_ok(ox as int) && coord_ok(oy as int),
    ensures
        plan_ok(p),
{
    let lh = block_pitch(lines, REPLY_PITCH as int);
    lemma_pitch_bounds(lines, REPLY_PITCH as int);
    assert(lines.len() * lh >= 0) by (nonlinear_arith)
        requires lh >= 0;
}

/// `d` ms after `t`, saturating.
pub open spec fn after(t: u64, d: u64) -> u64 {
    if t + d <= u64::MAX { (t + d) as u64 } else { u64::MAX }
}

/// Milliseconds from `t` to `now`; zero when `t` is later.
pub open spec fn elapsed(now: u64, t: u64) -> int {
    if now >= t { now - t } else { 0 }
}

/// The phases in which the child may keep drawing.
pub open spec fn inks_in(p: Phase) -> bool {
    p is Listening || p is Thinking || p is CardTurn || p is DrawingCards
}

/// The phase after the pen touched or left the paper at `now`: a listening
/// page restarts its idle timer, any other phase is unchanged.
pub open spec fn touched(p: Phase, now: u64) -> Phase {
    if p is Listening {
        Phase::Listening { last_pen: Some(now) }
    } else {
        p
    }
}

/// The ink a writing sample leaves.
pub open spec fn ink_of(s: PenSample) -> Effect {
    match s.tool {
        Tool::Pen => Effect::Pen { x: s.x, y: s.y, r: (2 + (s.pressure * 3) / (MAX_PRESSURE as int)) as i32 },
        Tool::Eraser => Effect::Erase { x: s.x, y: s.y, r: ERASER_R },
    }
}

/// The ink a window-system press or update leaves.
pub open spec fn window_ink(x: i32, y: i32, d: i32) -> Effect {
    let c = if d < 0 { 0 } else if d > 100 { 100 } else { d as int };
    Effect::Pen { x, y, r: (2 + c / 45) as i32 }
}

/// A reply is aimed at a box this wide and tall.
pub const REPLY_BOX_W: i32 = 700;
pub const REPLY_BOX_H: i32 = 320;

/// Where a reply stands on page grid `g` when the new ink ends at
/// `anchor`: the nearest clear spot beside it, else any clear spot, else
/// nowhere (the reply is then centered).
pub open spec fn reply_origin(g: InkGrid, anchor: (i32, i32)) -> Option<(int, int)> {
    let near = resolve_spec(g, Place::NearNewInk, Anchor::Point(anchor.0, anchor.1), REPLY_BOX_W as int, REPLY_BOX_H as int);
    if near is Some {
        near
    } else {
        resolve_spec(g, Place::BlankArea, Anchor::Nowhere, REPLY_BOX_W as int, REPLY_BOX_H as int)
    }
}

/// Whether a listening page answers at `now`: the pen is up and was last
/// used at least `idle_ms` ago, and at least one of the `total` strokes on
/// the page is new.
pub open spec fn due(d: Diary, now: u64, idle_ms: u64, total: usize) -> bool {
    &&& d.phase matches Phase::Listening { last_pen: Some(t) } && elapsed(now, t) >= idle_ms
    &&& !d.stylus.pen_down
    &&& total > d.turn.committed
}

/// What a frame draws, starting at point `pi` of stroke `si` of `ss` with
/// `budget` points to spend: each point in turn as a dot (first point of a
/// stroke) or a segment from the point before, skipping over finished
/// strokes; and the stroke and point it stops at.
pub open spec fn walk(ss: Seq<Seq<(i32, i32)>>, si: int, pi: int, budget: int) -> (Seq<(Option<(i32, i32)>, (i32, i32))>, int, int)
    decreases budget, ss.len() - si,
{
    if budget <= 0 || si < 0 || si >= ss.len() || pi < 0 {
        (Seq::empty(), si, pi)
    } else if pi >= ss[si].len() {
        walk(ss, si + 1, 0, budget)
    } else {
        let seg = (if pi > 0 { Some(ss[si][pi - 1]) } else { None::<(i32, i32)> }, ss[si][pi]);
        let rest = walk(ss, si, pi + 1, budget - 1);
        (seq![seg] + rest.0, rest.1, rest.2)
    }
}

/// The brush effects of a frame's dots and segments.
pub open spec fn brushes(segs: Seq<(Option<(i32, i32)>, (i32, i32))>, r: i32, color: u16) -> Seq<Effect> {
    segs.map_values(|g: (Option<(i32, i32)>, (i32, i32))| Effect::Brush { from: g.0, to: g.1, r, color })
}

/// The region a frame dirties: each point it reaches grown by `dr`.
pub open spec fn seg_box(segs: Seq<(Option<(i32, i32)>, (i32, i32))>, dr: int) -> BBox
    decreases segs.len(),
{
    if segs.len() == 0 {
        BBox { x0: i32::MAX, y0: i32::MAX, x1: i32::MIN, y1: i32::MIN }
    } else {
        seg_box(segs.drop_last(), dr).added(segs.last().1.0 as int, segs.last().1.1 as int, dr)
    }
}

/// A frame's effects: its brushes, then a refresh of the region it
/// dirtied when it drew anything.
pub open spec fn painted(segs: Seq<(Option<(i32, i32)>, (i32, i32))>, r: i32, color: u16, dr: int) -> Seq<Effect> {
    let b = seg_box(segs, dr);
    brushes(segs, r, color) + if b.is_empty_spec() {
        Seq::<Effect>::empty()
    } else {
        seq![Effect::Refresh(b)]
    }
}

/// One frame of Tom's writing: up to [`REPLY_BUDGET`] points in black,
/// and the plan's position after them.
pub open spec fn reply_frame(v: WriteV) -> (Seq<Effect>, WriteV) {
    let w = walk(v.strokes, v.stroke_i, v.point_i, REPLY_BUDGET as int);
    (painted(w.0, 2, BLACK, 4), WriteV { stroke_i: w.1, point_i: w.2, ..v })
}

/// Where a streamed chunk starts: at the reply's current bottom, keeping
/// the reply's own left edge when it has one.
pub open spec fn chunk_origin(v: WriteV) -> Option<(i32, i32)> {
    match v.origin_x {
        Some(ox) => Some((ox, v.next_y as i32)),
        None => None,
    }
}

/// The reply after streamed chunk `lines` is laid out below it and spliced
/// on; a chunk that draws nothing changes nothing.
pub open spec fn spliced(v: WriteV, lines: Seq<Line>) -> WriteV {
    let origin = chunk_origin(v);
    let lh = block_pitch(lines, REPLY_PITCH as int);
    let y0 = reply_y0(lines, Some(v.next_y as i32), origin);
    let placed = reply_placed(lines, lh, y0, origin);
    if placed.len() == 0 {
        v
    } else {
        let cr = box_strokes_r(placed, BBox { x0: i32::MAX, y0: i32::MAX, x1: i32::MIN, y1: i32::MIN }, 5);
        WriteV {
            strokes: v.strokes + placed,
            region: v.region.added(cr.x0 as int, cr.y0 as int, 0).added(cr.x1 as int, cr.y1 as int, 0),
            next_y: y0 + lines.len() * lh,
            ..v
        }
    }
}

/// A writing reply after what its channel gave: more text is spliced on
/// unless the reply already reached [`REPLY_FLOOR`], when the rest is
/// dropped; an error marks the turn failed and ends the stream, as does a
/// closed channel. Once the stream has ended, nothing more is read.
pub open spec fn heard(v: WriteV, streaming: bool, t: TurnBook, msg: OracleMsg) -> (WriteV, bool, TurnBook) {
    if !streaming {
        (v, false, t)
    } else {
        match msg {
            OracleMsg::Ink { lines, .. } => if v.next_y > REPLY_FLOOR {
                (v, false, t)
            } else {
                (spliced(v, lines@), true, TurnBook { said: true, ..t })
            },
            OracleMsg::Failed => (v, false, TurnBook { failed: true, ..t }),
            OracleMsg::Gone => (v, false, t),
            _ => (v, true, t),
        }
    }
}

/// The page turn owed once an answer is complete on a full page: only when
/// no stroke has been drawn since the answer was asked for (`total` strokes
/// on the page, `t.committed` of them answered), so the child's unanswered
/// ink is never wiped; a turned page starts its count from zero.
pub open spec fn page_turn(t: TurnBook, page_full: bool, total: usize) -> (Seq<Effect>, TurnBook) {
    if page_full && total == t.committed {
        (seq![Effect::TurnPage], TurnBook { committed: 0, ..t })
    } else {
        (Seq::empty(), t)
    }
}

/// What a completed reply leaves: a reply that said something and did not
/// fail is remembered, and only such a reply turns a full page.
pub open spec fn reply_done(t: TurnBook, page_full: bool, total: usize) -> (Seq<Effect>, TurnBook) {
    if !t.failed && t.said {
        let p = page_turn(t, page_full, total);
        (seq![Effect::Remember] + p.0, p.1)
    } else {
        (Seq::empty(), t)
    }
}

/// The plans of a turn's cards, each planned in order around the new
/// ink's `anchor` on the ink map the cards before it left.
pub open spec fn turn_plans(cards: Seq<Card>, arts: Seq<CardArt>, g: InkGrid, anchor: (i32, i32)) -> (Seq<PlanV>, InkGrid)
    decreases cards.len(),
{
    if cards.len() == 0 {
        (Seq::empty(), g)
    } else {
        let before = turn_plans(cards.drop_last(), arts, g, anchor);
        let last = card_plans(cards.last(), before.1, arts[cards.len() - 1], anchor);
        (before.0 + last.0, last.1)
    }
}

/// What a frame of the cards draws, starting at point `pi` of the first of
/// strokes `ss` with `budget` points to spend: finished strokes are dropped
/// from the front. Also the strokes left and the point it stops at.
pub open spec fn drain(ss: Seq<Seq<(i32, i32)>>, pi: int, budget: int) -> (Seq<(Option<(i32, i32)>, (i32, i32))>, Seq<Seq<(i32, i32)>>, int)
    decreases budget, ss.len(),
{
    if budget <= 0 || ss.len() == 0 || pi < 0 {
        (Seq::empty(), ss, pi)
    } else if pi >= ss[0].len() {
        drain(ss.drop_first(), 0, budget)
    } else {
        let seg = (if pi > 0 { Some(ss[0][pi - 1]) } else { None::<(i32, i32)> }, ss[0][pi]);
        let rest = drain(ss, pi + 1, budget - 1);
        (seq![seg] + rest.0, rest.1, rest.2)
    }
}

/// One frame of the cards: the current plan spends its own pace in points
/// of its own color; a plan whose strokes are all drawn hands over to the
/// next. Also the plans, plan and point after it.
pub open spec fn cards_frame(plans: Seq<PlanV>, plan_i: int, point_i: int) -> (Seq<Effect>, Seq<PlanV>, int, int) {
    if plan_i < 0 || plan_i >= plans.len() {
        (Seq::empty(), plans, plan_i, point_i)
    } else {
        let p = plans[plan_i];
        let d = drain(p.strokes, point_i, p.points_per_frame as int);
        let rest = plans.update(plan_i, PlanV { strokes: d.1, ..p });
        if d.1.len() == 0 {
            (painted(d.0, 2, p.color, 4), rest, plan_i + 1, 0)
        } else {
            (painted(d.0, 2, p.color, 4), rest, plan_i, d.2)
        }
    }
}

/// What a frame of a memory draws, like [`walk`] but with the pen radius
/// each point was written with: a dot of that radius, or a segment no
/// wider than one past the previous point's radius; each entry also keeps
/// the point's own radius.
pub open spec fn walk3(ss: Seq<Seq<(i32, i32, i32)>>, si: int, pi: int, budget: int) -> (Seq<(Option<(i32, i32)>, (i32, i32), i32, i32)>, int, int)
    decreases budget, ss.len() - si,
{
    if budget <= 0 || si < 0 || si >= ss.len() || pi < 0 {
        (Seq::empty(), si, pi)
    } else if pi >= ss[si].len() {
        walk3(ss, si + 1, 0, budget)
    } else {
        let (x, y, r) = ss[si][pi];
        let seg = if pi > 0 {
            let (px, py, pr) = ss[si][pi - 1];
            (Some((px, py)), (x, y), if r < pr + 1 { r } else { (pr + 1) as i32 }, r)
        } else {
            (None::<(i32, i32)>, (x, y), r, r)
        };
        let rest = walk3(ss, si, pi + 1, budget - 1);
        (seq![seg] + rest.0, rest.1, rest.2)
    }
}

/// The faded brushes of a memory frame.
pub open spec fn brushes3(segs: Seq<(Option<(i32, i32)>, (i32, i32), i32, i32)>) -> Seq<Effect> {
    segs.map_values(|g: (Option<(i32, i32)>, (i32, i32), i32, i32)| Effect::Brush { from: g.0, to: g.1, r: g.2, color: FADED })
}

/// The region a memory frame dirties: each point grown by its radius plus 2.
pub open spec fn seg_box3(segs: Seq<(Option<(i32, i32)>, (i32, i32), i32, i32)>) -> BBox
    decreases segs.len(),
{
    if segs.len() == 0 {
        BBox { x0: i32::MAX, y0: i32::MAX, x1: i32::MIN, y1: i32::MIN }
    } else {
        let g = segs.last();
        seg_box3(segs.drop_last()).added(g.1.0 as int, g.1.1 as int, g.3 + 2)
    }
}

/// One frame of a memory: up to [`CONJURE_BUDGET`] points in faded ink,
/// a refresh of what they dirtied, and the plan's position after them.
pub open spec fn conjure_frame(v: ConjureV) -> (Seq<Effect>, ConjureV) {
    let w = walk3(v.strokes, v.stroke_i, v.point_i, CONJURE_BUDGET as int);
    let b = seg_box3(w.0);
    (
        brushes3(w.0) + if b.is_empty_spec() {
            Seq::<Effect>::empty()
        } else {
            seq![Effect::Refresh(b)]
        },
        ConjureV { stroke_i: w.1, point_i: w.2, ..v },
    )
}

/// What answering the child's pause does (see [`Diary::commit`]): `d` is
/// the diary before, `d2` after, `e` the effects, `fresh` the strokes drawn
/// since the last answer and `page` the page as it stands.
pub open spec fn answered(
    d: Diary,
    d2: Diary,
    e: Seq<Effect>,
    now: u64,
    total: usize,
    fresh: Seq<Seq<(i32, i32, i32, u32)>>,
    page: Page,
    question: bool,
    turn_mode: bool,
    oracle_ready: bool,
    page_full: bool,
) -> bool {
    let b = box_pen(fresh);
    let from = d.turn.committed;
    let seen = TurnBook { committed: total, ..d.turn };
    if all_white(page, b) {
        &&& d2.turn == seen
        &&& d2.phase == (Phase::Listening { last_pen: None })
        &&& e =~= Seq::<Effect>::empty()
    } else if question {
        &&& d2.turn == (TurnBook { committed: 0, ..d.turn })
        &&& d2.phase == (Phase::Help { open: true, until: after(now, GUIDE_MS) })
        &&& e =~= seq![Effect::ShowGuide]
    } else if !turn_mode && !oracle_ready {
        &&& d2.turn == seen
        &&& d2.phase == (Phase::Listening { last_pen: None })
        &&& e =~= Seq::<Effect>::empty()
    } else {
        let anchor = ((b.x1 + 60) as i32, b.y0);
        &&& d2.turn == (TurnBook { committed: total, failed: false, said: false })
        &&& if turn_mode {
            &&& d2.phase == (Phase::CardTurn { page_full, anchor, since: now })
            &&& e =~= seq![Effect::AskTurn { fresh_from: from }, Effect::Dot(true)]
        } else {
            &&& d2.phase matches Phase::Thinking { pulse, blot_on, since, origin, page_full: pf }
                && pulse == now && !blot_on && since == now && pf == page_full
                && opt_point(origin) == reply_origin(page_grid(page), anchor)
            &&& e =~= seq![Effect::AskOracle { fresh_from: from }]
        }
    }
}

fn later(t: u64, d: u64) -> (r: u64)
    ensures
        r == after(t, d),
{
    t.saturating_add(d)
}

fn draw_reply(plan: &mut WritePlan, e: &mut Vec<Effect>)
    ensures
        final(e)@ == old(e)@ + reply_frame(old(plan)@).0,
        final(plan)@ == reply_frame(old(plan)@).1,
{
    let ghost ss = deep(plan.strokes@);
    let ghost w0 = walk(ss, plan.stroke_i as int, plan.point_i as int, REPLY_BUDGET as int);
    let ghost v0 = plan@;
    let ghost e0 = e@;
    let ghost mut done: Seq<(Option<(i32, i32)>, (i32, i32))> = Seq::empty();
    let mut dirty = BBox::empty();
    let mut budget: i32 = REPLY_BUDGET;
    while budget > 0 && plan.stroke_i < plan.strokes.len()
        invariant
            ss == deep(plan.strokes@),
            plan@ == (WriteV { stroke_i: plan.stroke_i as int, point_i: plan.point_i as int, ..v0 }),
            0 <= budget <= REPLY_BUDGET,
            w0.0 == done + walk(ss, plan.stroke_i as int, plan.point_i as int, budget as int).0,
            w0.1 == walk(ss, plan.stroke_i as int, plan.point_i as int, budget as int).1,
            w0.2 == walk(ss, plan.stroke_i as int, plan.point_i as int, budget as int).2,
            e@ == e0 + brushes(done, 2, BLACK),
            dirty == seg_box(done, 4),
            dirty.on_page(),
        decreases budget, plan.strokes@.len() - plan.stroke_i,
    {
        let n = plan.strokes[plan.stroke_i].len();
        if plan.point_i >= n {
            plan.stroke_i = plan.stroke_i + 1;
            plan.point_i = 0;
            continue;
        }
        let to = plan.strokes[plan.stroke_i][plan.point_i];
        let from = if plan.point_i > 0 {
            Some(plan.strokes[plan.stroke_i][plan.point_i - 1])
        } else {
            None
        };
        let ghost g = (from, to);
        e.push(Effect::Brush { from, to, r: 2, color: BLACK });
        dirty.add(to.0, to.1, 4);
        proof {
            assert(done.push(g).drop_last() =~= done);
            assert(brushes(done.push(g), 2, BLACK) =~= brushes(done, 2, BLACK).push(Effect::Brush { from, to, r: 2, color: BLACK }));
            assert(seq![g] + walk(ss, plan.stroke_i as int, plan.point_i + 1, budget - 1).0 == walk(ss, plan.stroke_i as int, plan.point_i as int, budget as int).0);
            assert(done + (seq![g] + walk(ss, plan.stroke_i as int, plan.point_i + 1, budget - 1).0) =~= done.push(g) + walk(ss, plan.stroke_i as int, plan.point_i + 1, budget - 1).0);
            done = done.push(g);
        }
        plan.point_i = plan.point_i + 1;
        budget = budget - 1;
    }
    assert(done == w0.0);
    if !dirty.is_empty() {
        e.push(Effect::Refresh(dirty));
    }
    assert(e@ =~= e0 + painted(done, 2, BLACK, 4));
}

fn draw_card(plan: &mut RenderPlan, point_i: usize, e: &mut Vec<Effect>) -> (pt: usize)
    ensures
        ({
            let d = drain(old(plan)@.strokes, point_i as int, old(plan)@.points_per_frame as int);
            &&& final(e)@ == old(e)@ + painted(d.0, 2, old(plan)@.color, 4)
            &&& final(plan)@ == (PlanV { strokes: d.1, ..old(plan)@ })
            &&& pt == d.2
        }),
{
    let ghost w0 = drain(plan@.strokes, point_i as int, plan.points_per_frame as int);
    let ghost v0 = plan@;
    let ghost e0 = e@;
    let ghost mut done: Seq<(Option<(i32, i32)>, (i32, i32))> = Seq::empty();
    let mut dirty = BBox::empty();
    let mut budget: i32 = plan.points_per_frame;
    let color = plan.color;
    let mut pt = point_i;
    while budget > 0 && plan.strokes.len() > 0
        invariant
            plan@ == (PlanV { strokes: plan@.strokes, ..v0 }),
            color == v0.color,
            budget <= v0.points_per_frame,
            w0.0 == done + drain(plan@.strokes, pt as int, budget as int).0,
            w0.1 == drain(plan@.strokes, pt as int, budget as int).1,
            w0.2 == drain(plan@.strokes, pt as int, budget as int).2,
            e@ == e0 + brushes(done, 2, color),
            dirty == seg_box(done, 4),
            dirty.on_page(),
        decreases budget, plan.strokes@.len(),
    {
        let n = plan.strokes[0].len();
        if pt >= n {
            let ghost before = plan@.strokes;
            plan.strokes.remove(0);
            assert(plan@.strokes =~= before.drop_first());
            pt = 0;
            continue;
        }
        let to = plan.strokes[0][pt];
        let from = if pt > 0 {
            Some(plan.strokes[0][pt - 1])
        } else {
            None
        };
        let ghost g = (from, to);
        e.push(Effect::Brush { from, to, r: 2, color });
        dirty.add(to.0, to.1, 4);
        proof {
            let ss = plan@.strokes;
            assert(done.push(g).drop_last() =~= done);
            assert(brushes(done.push(g), 2, color) =~= brushes(done, 2, color).push(Effect::Brush { from, to, r: 2, color }));
            assert(seq![g] + drain(ss, pt + 1, budget - 1).0 == drain(ss, pt as int, budget as int).0);
            assert(done + (seq![g] + drain(ss, pt + 1, budget - 1).0) =~= done.push(g) + drain(ss, pt + 1, budget - 1).0);
            done = done.push(g);
        }
        pt = pt + 1;
        budget = budget - 1;
    }
    assert(done == w0.0);
    if !dirty.is_empty() {
        e.push(Effect::Refresh(dirty));
    }
    assert(e@ =~= e0 + painted(done, 2, color, 4));
    pt
}

fn draw_memory(plan: &mut ConjurePlan, e: &mut Vec<Effect>)
    requires
        conjure_ok(*old(plan)),
    ensures
        final(e)@ == old(e)@ + conjure_frame(old(plan)@).0,
        final(plan)@ == conjure_frame(old(plan)@).1,
        conjure_ok(*final(plan)),
{
    let ghost ss = plan@.strokes;
    let ghost w0 = walk3(ss, plan.stroke_i as int, plan.point_i as int, CONJURE_BUDGET as int);
    let ghost v0 = plan@;
    let ghost e0 = e@;
    let ghost mut done: Seq<(Option<(i32, i32)>, (i32, i32), i32, i32)> = Seq::empty();
    let mut dirty = BBox::empty();
    let mut budget: i32 = CONJURE_BUDGET;
    while budget > 0 && plan.stroke_i < plan.strokes.len()
        invariant
            ss == plan@.strokes,
            radii3_ok(ss),
            plan@ == (ConjureV { stroke_i: plan.stroke_i as int, point_i: plan.point_i as int, ..v0 }),
            0 <= budget <= CONJURE_BUDGET,
            w0.0 == done + walk3(ss, plan.stroke_i as int, plan.point_i as int, budget as int).0,
            w0.1 == walk3(ss, plan.stroke_i as int, plan.point_i as int, budget as int).1,
            w0.2 == walk3(ss, plan.stroke_i as int, plan.point_i as int, budget as int).2,
            e@ == e0 + brushes3(done),
            dirty == seg_box3(done),
            dirty.on_page(),
        decreases budget, plan.strokes@.len() - plan.stroke_i,
    {
        let n = plan.strokes[plan.stroke_i].len();
        if plan.point_i >= n {
            plan.stroke_i = plan.stroke_i + 1;
            plan.point_i = 0;
            continue;
        }
        let (x, y, r) = plan.strokes[plan.stroke_i][plan.point_i];
        assert(ss[plan.stroke_i as int][plan.point_i as int] == (x, y, r));
        let (from, w) = if plan.point_i > 0 {
            let (px, py, pr) = plan.strokes[plan.stroke_i][plan.point_i - 1];
            assert(ss[plan.stroke_i as int][plan.point_i - 1] == (px, py, pr));
            (Some((px, py)), if r < pr + 1 { r } else { pr + 1 })
        } else {
            (None, r)
        };
        let ghost g = (from, (x, y), w, r);
        e.push(Effect::Brush { from, to: (x, y), r: w, color: FADED });
        dirty.add(x, y, r + 2);
        proof {
            assert(done.push(g).drop_last() =~= done);
            assert(brushes3(done.push(g)) =~= brushes3(done).push(Effect::Brush { from, to: (x, y), r: w, color: FADED }));
            assert(seq![g] + walk3(ss, plan.stroke_i as int, plan.point_i + 1, budget - 1).0 == walk3(ss, plan.stroke_i as int, plan.point_i as int, budget as int).0);
            assert(done + (seq![g] + walk3(ss, plan.stroke_i as int, plan.point_i + 1, budget - 1).0) =~= done.push(g) + walk3(ss, plan.stroke_i as int, plan.point_i + 1, budget - 1).0);
            done = done.push(g);
        }
        plan.point_i = plan.point_i + 1;
        budget = budget - 1;
    }
    assert(done == w0.0);
    if !dirty.is_empty() {
        e.push(Effect::Refresh(dirty));
    }
    assert(e@ =~= e0 + conjure_frame(v0).0);
}

impl Diary {
    /// A fresh page, listening, nothing answered yet.
    pub fn new() -> (d: Self)
        ensures
            d.phase == (Phase::Listening { last_pen: None }),
            d.stylus == (Stylus { pen_down: false, on: false, tapped: false }),
            d.turn == (TurnBook { committed: 0, failed: false, said: false }),
    {
        Diary {
            phase: Phase::Listening { last_pen: None },
            stylus: Stylus { pen_down: false, on: false, tapped: false },
            turn: TurnBook { committed: 0, failed: false, said: false },
        }
    }

    fn restart_timer(&mut self, now: u64)
        ensures
            final(self).phase == touched(old(self).phase, now),
            final(self).stylus == old(self).stylus,
            final(self).turn == old(self).turn,
    {
        if let Phase::Listening { .. } = self.phase {
            self.phase = Phase::Listening { last_pen: Some(now) };
        }
    }

    /// Whether the page answers now (see [`due`]).
    pub fn commit_due(&self, now: u64, idle_ms: u64, total: usize) -> (r: bool)
        ensures
            r == due(*self, now, idle_ms, total),
    {
        match self.phase {
            Phase::Listening { last_pen: Some(t) } => {
                let waited = if now >= t { now - t } else { 0 };
                !self.stylus.pen_down && waited >= idle_ms && total > self.turn.committed
            },
            _ => false,
        }
    }

    /// One pass of a listening page: when the child has paused long
    /// enough over new ink (see [`due`]) the pause is answered as
    /// [`Diary::commit`] does; otherwise nothing happens. So the page leaves
    /// listening only once it is due, and a turn starts with every stroke
    /// on the page counted as answered.
    pub fn listen(
        &mut self,
        now: u64,
        idle_ms: u64,
        total: usize,
        fresh: &Vec<Vec<(i32, i32, i32, u32)>>,
        surf: &Surface,
        question: bool,
        turn_mode: bool,
        oracle_ready: bool,
        page_full: bool,
    ) -> (e: Vec<Effect>)
        requires
            old(self).phase is Listening,
            radii_ok(fresh@),
            surf@.wf(),
            surf@.w <= MAX_SIDE,
            surf@.h <= MAX_SIDE,
        ensures
            final(self).wf(),
            final(self).stylus == old(self).stylus,
            if due(*old(self), now, idle_ms, total) {
                answered(
                    *old(self),
                    *final(self),
                    e@,
                    now,
                    total,
                    fresh@.map_values(|s: Vec<(i32, i32, i32, u32)>| s@),
                    surf@,
                    question,
                    turn_mode,
                    oracle_ready,
                    page_full,
                )
            } else {
                &&& e@ == Seq::<Effect>::empty()
                &&& final(self).phase == old(self).phase
                &&& final(self).turn == old(self).turn
            },
            !(final(self).phase is Listening) ==> due(*old(self), now, idle_ms, total),
            (final(self).phase is Thinking || final(self).phase is CardTurn) ==> final(self).turn.committed == total,
            final(self).phase is Help ==> final(self).turn.committed == 0,
    {
        if self.commit_due(now, idle_ms, total) {
            self.commit(now, total, fresh, surf, question, turn_mode, oracle_ready, page_full)
        } else {
            Vec::new()
        }
    }

    /// The child paused: answer the new ink. `fresh` holds the strokes drawn
    /// since the last answer (pen points with radius and time), `total` the
    /// number of strokes on the page, `surf` the page as it stands.
    /// `question` says the new ink is a "?", `page_full` that the page is
    /// past its coverage threshold. New ink that was erased again is just
    /// marked seen; a "?" opens the guide; with no server at all nothing is
    /// said. Otherwise the turn starts: with the `/turn` server configured
    /// the page goes there and the thinking dot appears, else to the oracle,
    /// with the reply aimed beside the new ink.
    pub fn commit(
        &mut self,
        now: u64,
        total: usize,
        fresh: &Vec<Vec<(i32, i32, i32, u32)>>,
        surf: &Surface,
        question: bool,
        turn_mode: bool,
        oracle_ready: bool,
        page_full: bool,
    ) -> (e: Vec<Effect>)
        requires
            old(self).phase is Listening,
            radii_ok(fresh@),
            surf@.wf(),
            surf@.w <= MAX_SIDE,
            surf@.h <= MAX_SIDE,
        ensures
            final(self).wf(),
            final(self).stylus == old(self).stylus,
            answered(
                *old(self),
                *final(self),
                e@,
                now,
                total,
                fresh@.map_values(|s: Vec<(i32, i32, i32, u32)>| s@),
                surf@,
                question,
                turn_mode,
                oracle_ready,
                page_full,
            ),
    {
        let b = bbox_of(fresh);
        let from = self.turn.committed;
        if region_all_white(surf, b) {
            self.turn.committed = total;
            self.phase = Phase::Listening { last_pen: None };
            return Vec::new();
        }
        if question {
            self.turn.committed = 0;
            self.phase = Phase::Help { open: true, until: later(now, GUIDE_MS) };
            return vec![Effect::ShowGuide];
        }
        if !turn_mode && !oracle_ready {
            self.turn.committed = total;
            self.phase = Phase::Listening { last_pen: None };
            return Vec::new();
        }
        let anchor = (b.x1 + 60, b.y0);
        self.turn = TurnBook { committed: total, failed: false, said: false };
        if turn_mode {
            self.phase = Phase::CardTurn { page_full, anchor, since: now };
            return vec![Effect::AskTurn { fresh_from: from }, Effect::Dot(true)];
        }
        let map = InkMap::from_surface(surf);
        proof {
            crate::layout::law_resolve_in_page(map@, Place::NearNewInk, Anchor::Point(anchor.0, anchor.1), REPLY_BOX_W as int, REPLY_BOX_H as int);
            crate::layout::law_resolve_in_page(map@, Place::BlankArea, Anchor::Nowhere, REPLY_BOX_W as int, REPLY_BOX_H as int);
        }
        let origin = match resolve(&map, &Place::NearNewInk, Anchor::Point(anchor.0, anchor.1), REPLY_BOX_W, REPLY_BOX_H) {
            Some(o) => Some(o),
            None => resolve(&map, &Place::BlankArea, Anchor::Nowhere, REPLY_BOX_W, REPLY_BOX_H),
        };
        self.phase = Phase::Thinking { pulse: now, blot_on: false, since: now, origin, page_full };
        vec![Effect::AskOracle { fresh_from: from }]
    }

    /// The width reply text is wrapped at for the phase's next chunk: the
    /// reply's own margin while thinking or writing, else a centered reply's.
    pub fn wrap_width(&self) -> (w: i32)
        requires
            self.wf(),
        ensures
            w == crate::diary::reply_wrap_width_of(match self.phase {
                Phase::Thinking { origin, .. } => origin,
                Phase::Replying { plan, .. } => match plan.origin_x {
                    Some(ox) => Some((ox, plan.next_y)),
                    None => None,
                },
                _ => None,
            }),
    {
        let origin = match &self.phase {
            Phase::Thinking { origin, .. } => *origin,
            Phase::Replying { plan, .. } => match plan.origin_x {
                Some(ox) => Some((ox, plan.next_y)),
                None => None,
            },
            _ => None,
        };
        crate::diary::reply_wrap_width(origin)
    }

    /// One pass while the oracle thinks. Whatever arrives wipes the dot
    /// first. A summoned memory is rewritten (or, when it does not exist,
    /// the page goes quiet); reply text starts Tom's writing at the reply's
    /// spot; an error or a closed channel ends the turn quietly. With
    /// nothing new the dot blinks every [`PULSE_MS`] until
    /// [`ORACLE_PATIENCE_MS`] have passed, when the turn ends quietly.
    pub fn think(&mut self, now: u64, msg: OracleMsg) -> (e: Vec<Effect>)
        requires
            old(self).phase is Thinking,
            old(self).wf(),
            msg matches OracleMsg::Ink { lines, .. } ==> lines_ok(lines@),
            msg matches OracleMsg::Show(Some(plan)) ==> conjure_ok(plan),
        ensures
            final(self).wf(),
            final(self).stylus == old(self).stylus,
            !(final(self).phase is Thinking) ==> e@ == seq![Effect::Dot(false)],
            old(self).phase matches Phase::Thinking { pulse, blot_on, since, origin, page_full } && match msg {
                OracleMsg::Show(Some(plan)) => {
                    &&& e@ == seq![Effect::Dot(false)]
                    &&& final(self).phase == (Phase::Conjuring { memory: plan, next: now })
                    &&& final(self).turn == old(self).turn
                },
                OracleMsg::Ink { lines, said } => {
                    &&& e@ == seq![Effect::Dot(false)]
                    &&& final(self).turn == (TurnBook { said: old(self).turn.said || said, ..old(self).turn })
                    &&& final(self).phase matches Phase::Replying { plan, next, streaming, page_full: pf }
                        && laid_out(plan, lines@, None, origin) && next == now && streaming && pf == page_full
                },
                OracleMsg::Transcript => {
                    &&& e@ == seq![Effect::Dot(false)]
                    &&& final(self).phase == old(self).phase
                    &&& final(self).turn == old(self).turn
                },
                OracleMsg::Nothing => {
                    &&& final(self).turn == old(self).turn
                    &&& if elapsed(now, since) >= ORACLE_PATIENCE_MS {
                        &&& e@ == seq![Effect::Dot(false)]
                        &&& final(self).phase == (Phase::Listening { last_pen: None })
                    } else if elapsed(now, pulse) >= PULSE_MS {
                        &&& e@ == seq![Effect::Dot(!blot_on)]
                        &&& final(self).phase == (Phase::Thinking { pulse: now, blot_on: !blot_on, since, origin, page_full })
                    } else {
                        &&& e@ == Seq::<Effect>::empty()
                        &&& final(self).phase == old(self).phase
                    }
                },
                _ => {
                    &&& e@ == seq![Effect::Dot(false)]
                    &&& final(self).phase == (Phase::Listening { last_pen: None })
                    &&& final(self).turn == old(self).turn
                },
            },
    {
        let (pulse, blot_on, since, origin, page_full) = match self.phase {
            Phase::Thinking { pulse, blot_on, since, origin, page_full } => (pulse, blot_on, since, origin, page_full),
            _ => {
                assert(false);
                (0, false, 0, None, false)
            },
        };
        match msg {
            OracleMsg::Nothing => {
                if now >= since && now - since >= ORACLE_PATIENCE_MS {
                    self.phase = Phase::Listening { last_pen: None };
                    vec![Effect::Dot(false)]
                } else if now >= pulse && now - pulse >= PULSE_MS {
                    self.phase = Phase::Thinking { pulse: now, blot_on: !blot_on, since, origin, page_full };
                    vec![Effect::Dot(!blot_on)]
                } else {
                    Vec::new()
                }
            },
            OracleMsg::Show(found) => {
                match found {
                    Some(plan) => {
                        self.phase = Phase::Conjuring { memory: plan, next: now };
                    },
                    None => {
                        self.phase = Phase::Listening { last_pen: None };
                    },
                }
                vec![Effect::Dot(false)]
            },
            OracleMsg::Ink { lines, said } => {
                let ghost ls = lines@;
                self.turn.said = self.turn.said || said;
                let plan = reply_layout(lines, None, origin);
                proof {
                    lemma_laid_out_ok(plan, ls, None, origin);
                }
                self.phase = Phase::Replying { plan, next: now, streaming: true, page_full };
                vec![Effect::Dot(false)]
            },
            OracleMsg::Transcript => vec![Effect::Dot(false)],
            OracleMsg::Failed | OracleMsg::Gone => {
                self.phase = Phase::Listening { last_pen: None };
                vec![Effect::Dot(false)]
            },
        }
    }

    /// The page turn owed once an answer is complete (see [`page_turn`]).
    fn turn_page_if(&mut self, page_full: bool, total: usize, e: &mut Vec<Effect>)
        ensures
            final(e)@ == old(e)@ + page_turn(old(self).turn, page_full, total).0,
            final(self).turn == page_turn(old(self).turn, page_full, total).1,
            final(self).phase == old(self).phase,
            final(self).stylus == old(self).stylus,
    {
        if page_full && total == self.turn.committed {
            e.push(Effect::TurnPage);
            self.turn.committed = 0;
        }
    }

    /// One pass while Tom writes his reply. What the channel gave is taken
    /// first (see [`heard`]); then, when the frame is due, up to
    /// [`REPLY_BUDGET`] more points are drawn. When every stroke is drawn
    /// and the stream has ended the turn is complete (see [`reply_done`])
    /// and the page listens again; else the next frame is due
    /// [`WRITE_FRAME_MS`] later. `total` is the number of strokes on the page.
    pub fn write(&mut self, now: u64, msg: OracleMsg, total: usize) -> (e: Vec<Effect>)
        requires
            old(self).phase is Replying,
            old(self).wf(),
            msg matches OracleMsg::Ink { lines, .. } ==> lines_ok(lines@),
        ensures
            final(self).wf(),
            final(self).stylus == old(self).stylus,
            old(self).phase matches Phase::Replying { plan, next, streaming, page_full } && {
                let h = heard(plan@, streaming, old(self).turn, msg);
                if now >= next {
                    let f = reply_frame(h.0);
                    if f.1.stroke_i >= f.1.strokes.len() && !h.1 {
                        let d = reply_done(h.2, page_full, total);
                        &&& e@ == f.0 + d.0
                        &&& final(self).turn == d.1
                        &&& final(self).phase == (Phase::Listening { last_pen: None })
                    } else {
                        &&& e@ == f.0
                        &&& final(self).turn == h.2
                        &&& final(self).phase matches Phase::Replying { plan: p, next: n, streaming: st, page_full: pf }
                            && p@ == f.1 && n == after(now, WRITE_FRAME_MS) && st == h.1 && pf == page_full
                    }
                } else {
                    &&& e@ == Seq::<Effect>::empty()
                    &&& final(self).turn == h.2
                    &&& final(self).phase matches Phase::Replying { plan: p, next: n, streaming: st, page_full: pf }
                        && p@ == h.0 && n == next && st == h.1 && pf == page_full
                }
            },
    {
        let mut cur = Phase::Listening { last_pen: None };
        core::mem::swap(&mut cur, &mut self.phase);
        let (mut plan, next, mut streaming, page_full) = match cur {
            Phase::Replying { plan, next, streaming, page_full } => (plan, next, streaming, page_full),
            _ => {
                assert(false);
                return Vec::new();
            },
        };
        if streaming {
            match msg {
                OracleMsg::Ink { lines, .. } => {
                    if plan.next_y > REPLY_FLOOR {
                        streaming = false;
                    } else {
                        let ghost ls = lines@;
                        let origin = match plan.origin_x {
                            Some(ox) => Some((ox, plan.next_y)),
                            None => None,
                        };
                        let cont = reply_layout(lines, Some(plan.next_y), origin);
                        proof {
                            lemma_laid_out_ok(cont, ls, Some(plan.next_y), origin);
                        }
                        append_reply(&mut plan, cont);
                        self.turn.said = true;
                    }
                },
                OracleMsg::Failed => {
                    self.turn.failed = true;
                    streaming = false;
                },
                OracleMsg::Gone => {
                    streaming = false;
                },
                _ => {},
            }
        }
        let mut e: Vec<Effect> = Vec::new();
        if now < next {
            self.phase = Phase::Replying { plan, next, streaming, page_full };
            return e;
        }
        draw_reply(&mut plan, &mut e);
        if plan.stroke_i >= plan.strokes.len() && !streaming {
            if !self.turn.failed && self.turn.said {
                e.push(Effect::Remember);
                self.turn_page_if(page_full, total, &mut e);
            }
            self.phase = Phase::Listening { last_pen: None };
        } else {
            self.phase = Phase::Replying { plan, next: later(now, WRITE_FRAME_MS), streaming, page_full };
        }
        e
    }

    /// One pass while the `/turn` server is asked. Whatever arrives wipes
    /// the dot first. An answer's cards are planned on the page as it
    /// stands (`surf`), each around the new ink, and its spoken words are
    /// remembered when there are any; the cards are then drawn (an answer
    /// asking for a new page makes this page full), unless none of them fit
    /// anywhere, when the page listens again. A failure or a closed channel
    /// ends the turn quietly, and so does [`TURN_PATIENCE_MS`] of silence.
    pub fn card_turn(&mut self, now: u64, msg: TurnMsg, surf: &Surface) -> (e: Vec<Effect>)
        requires
            old(self).phase is CardTurn,
            old(self).wf(),
            surf@.wf(),
            surf@.w <= MAX_SIDE,
            surf@.h <= MAX_SIDE,
            msg matches TurnMsg::Answer { resp, arts } ==> {
                &&& arts@.len() == resp.paper_cards@.len()
                &&& forall|k: int| 0 <= k < arts@.len() ==> art_for(resp.paper_cards@[k], #[trigger] arts@[k])
            },
        ensures
            final(self).wf(),
            final(self).stylus == old(self).stylus,
            final(self).turn == old(self).turn,
            !(final(self).phase is CardTurn) ==> e@.len() > 0 && e@[0] == Effect::Dot(false),
            old(self).phase matches Phase::CardTurn { page_full, anchor, since } && match msg {
                TurnMsg::Answer { resp, arts } => {
                    let planned = turn_plans(resp.paper_cards@, arts@, page_grid(surf@), anchor).0;
                    let said = resp.spoken_text@.len() > 0;
                    &&& e@ == seq![Effect::Dot(false)] + if said { seq![Effect::RememberSpoken] } else { Seq::<Effect>::empty() }
                    &&& if planned.len() == 0 {
                        final(self).phase == (Phase::Listening { last_pen: None })
                    } else {
                        final(self).phase matches Phase::DrawingCards { plans, plan_i, point_i, next, page_full: pf }
                            && plans_view(plans@) == planned && plan_i == 0 && point_i == 0 && next == now
                            && pf == (page_full || resp.page_action == PageAction::NewPage)
                    }
                },
                TurnMsg::Nothing => if elapsed(now, since) >= TURN_PATIENCE_MS {
                    &&& e@ == seq![Effect::Dot(false)]
                    &&& final(self).phase == (Phase::Listening { last_pen: None })
                } else {
                    &&& e@ == Seq::<Effect>::empty()
                    &&& final(self).phase == old(self).phase
                },
                _ => {
                    &&& e@ == seq![Effect::Dot(false)]
                    &&& final(self).phase == (Phase::Listening { last_pen: None })
                },
            },
    {
        let (page_full, anchor, since) = match self.phase {
            Phase::CardTurn { page_full, anchor, since } => (page_full, anchor, since),
            _ => {
                assert(false);
                (false, (0, 0), 0)
            },
        };
        match msg {
            TurnMsg::Nothing => {
                if now >= since && now - since >= TURN_PATIENCE_MS {
                    self.phase = Phase::Listening { last_pen: None };
                    vec![Effect::Dot(false)]
                } else {
                    Vec::new()
                }
            },
            TurnMsg::Failed | TurnMsg::Gone => {
                self.phase = Phase::Listening { last_pen: None };
                vec![Effect::Dot(false)]
            },
            TurnMsg::Answer { resp, arts } => {
                let mut e = vec![Effect::Dot(false)];
                let mut map = InkMap::from_surface(surf);
                let ghost g0 = map@;
                let ghost all = arts@;
                let ghost cards = resp.paper_cards@;
                let mut rest = arts;
                let mut plans: Vec<RenderPlan> = Vec::new();
                assert(plans_view(plans@) =~= Seq::<PlanV>::empty());
                let mut i: usize = 0;
                while i < resp.paper_cards.len()
                    invariant
                        cards == resp.paper_cards@,
                        all.len() == cards.len(),
                        forall|k: int| 0 <= k < all.len() ==> art_for(cards[k], #[trigger] all[k]),
                        i <= cards.len(),
                        rest@.len() == all.len(),
                        forall|k: int| i <= k < all.len() ==> #[trigger] rest@[k] == all[k],
                        map@.wf(),
                        map@.screen_w == g0.screen_w,
                        map@.screen_h == g0.screen_h,
                        g0.screen_w <= 0x100000,
                        g0.screen_h <= 0x100000,
                        (plans_view(plans@), map@) == turn_plans(cards.take(i as int), all, g0, anchor),
                    decreases cards.len() - i,
                {
                    let ghost before = rest@;
                    rest.push(CardArt::none());
                    let art = rest.swap_remove(i);
                    assert(art == all[i as int]);
                    assert forall|k: int| i + 1 <= k < all.len() implies #[trigger] rest@[k] == all[k] by {
                        assert(rest@[k] == before[k]);
                    }
                    let ghost o = plans_view(plans@);
                    let mut more = plan_card(&resp.paper_cards[i], &mut map, art, anchor);
                    let ghost mv = plans_view(more@);
                    let ghost pl = plans@;
                    let ghost ml = more@;
                    plans.append(&mut more);
                    assert(plans_view(plans@) =~= o + mv) by {
                        assert(plans@ =~= pl + ml);
                    }
                    assert(cards.take(i + 1).drop_last() =~= cards.take(i as int));
                    i = i + 1;
                }
                assert(cards.take(i as int) =~= cards);
                if !resp.spoken_text.as_str().is_empty() {
                    e.push(Effect::RememberSpoken);
                }
                if plans.len() == 0 {
                    self.phase = Phase::Listening { last_pen: None };
                } else {
                    let new_page = match resp.page_action {
                        PageAction::NewPage => true,
                        _ => false,
                    };
                    self.phase = Phase::DrawingCards { plans, plan_i: 0, point_i: 0, next: now, page_full: page_full || new_page };
                }
                e
            },
        }
    }

    /// One pass while the cards are drawn: when the frame is due, one
    /// frame of the current card (see [`cards_frame`]); once every card is
    /// drawn a full page turns (see [`page_turn`]) and the page listens
    /// again, else the next frame is due [`WRITE_FRAME_MS`] later. `total`
    /// is the number of strokes on the page.
    pub fn draw_cards(&mut self, now: u64, total: usize) -> (e: Vec<Effect>)
        requires
            old(self).phase is DrawingCards,
            old(self).wf(),
        ensures
            final(self).wf(),
            final(self).stylus == old(self).stylus,
            old(self).phase matches Phase::DrawingCards { plans, plan_i, point_i, next, page_full } && if now >= next {
                let f = cards_frame(plans_view(plans@), plan_i as int, point_i as int);
                if f.2 >= f.1.len() {
                    let t = page_turn(old(self).turn, page_full, total);
                    &&& e@ == f.0 + t.0
                    &&& final(self).turn == t.1
                    &&& final(self).phase == (Phase::Listening { last_pen: None })
                } else {
                    &&& e@ == f.0
                    &&& final(self).turn == old(self).turn
                    &&& final(self).phase matches Phase::DrawingCards { plans: ps, plan_i: pi, point_i: pt, next: n, page_full: pf }
                        && plans_view(ps@) == f.1 && pi == f.2 && pt == f.3 && n == after(now, WRITE_FRAME_MS) && pf == page_full
                }
            } else {
                &&& e@ == Seq::<Effect>::empty()
                &&& final(self).turn == old(self).turn
                &&& final(self).phase == old(self).phase
            },
    {
        if let Phase::DrawingCards { next, .. } = self.phase {
            if now < next {
                return Vec::new();
            }
        }
        let mut cur = Phase::Listening { last_pen: None };
        core::mem::swap(&mut cur, &mut self.phase);
        let (mut plans, mut plan_i, mut point_i, page_full) = match cur {
            Phase::DrawingCards { plans, plan_i, point_i, page_full, .. } => (plans, plan_i, point_i, page_full),
            _ => {
                assert(false);
                return Vec::new();
            },
        };
        let mut e: Vec<Effect> = Vec::new();
        if plan_i < plans.len() {
            let ghost pv = plans_view(plans@);
            let mut p = plans.remove(plan_i);
            let pt = draw_card(&mut p, point_i, &mut e);
            let done = p.strokes.len() == 0;
            let ghost pp = p;
            let ghost left = plans@;
            plans.insert(plan_i, p);
            assert(plans_view(plans@) =~= pv.update(plan_i as int, pp@)) by {
                assert(plans@ =~= left.insert(plan_i as int, pp));
            }
            if done {
                plan_i = plan_i + 1;
                point_i = 0;
            } else {
                point_i = pt;
            }
        }
        if plan_i >= plans.len() {
            self.turn_page_if(page_full, total, &mut e);
            self.phase = Phase::Listening { last_pen: None };
        } else {
            self.phase = Phase::DrawingCards { plans, plan_i, point_i, next: later(now, WRITE_FRAME_MS), page_full };
        }
        e
    }

    /// One pass while the guide is up: a touch of the stylus or
    /// [`GUIDE_MS`] closes it; the page listens again once the stylus is
    /// off the paper, so the closing touch leaves no ink.
    pub fn guide(&mut self, now: u64) -> (e: Vec<Effect>)
        requires
            old(self).phase is Help,
        ensures
            final(self).wf(),
            final(self).stylus == old(self).stylus,
            final(self).turn == old(self).turn,
            old(self).phase matches Phase::Help { open, until } && if open {
                if old(self).stylus.tapped || now >= until {
                    &&& e@ == seq![Effect::DismissGuide]
                    &&& final(self).phase == (Phase::Help { open: false, until })
                } else {
                    &&& e@ == Seq::<Effect>::empty()
                    &&& final(self).phase == old(self).phase
                }
            } else {
                &&& e@ == Seq::<Effect>::empty()
                &&& final(self).phase == if old(self).stylus.on {
                    old(self).phase
                } else {
                    Phase::Listening { last_pen: None }
                }
            },
    {
        let (open, until) = match self.phase {
            Phase::Help { open, until } => (open, until),
            _ => {
                assert(false);
                (false, 0)
            },
        };
        if open {
            if self.stylus.tapped || now >= until {
                self.phase = Phase::Help { open: false, until };
                return vec![Effect::DismissGuide];
            }
        } else if !self.stylus.on {
            self.phase = Phase::Listening { last_pen: None };
        }
        Vec::new()
    }

    /// One pass while a memory is rewritten: a touch brings today's page
    /// back at once; otherwise, when the frame is due, up to
    /// [`CONJURE_BUDGET`] more points are drawn, and once all are the
    /// memory rests on the page for [`MEMORY_MS`]; else the next frame is
    /// due [`CONJURE_FRAME_MS`] later.
    pub fn conjure(&mut self, now: u64) -> (e: Vec<Effect>)
        requires
            old(self).phase is Conjuring,
            old(self).wf(),
        ensures
            final(self).wf(),
            final(self).stylus == old(self).stylus,
            final(self).turn == old(self).turn,
            old(self).phase matches Phase::Conjuring { memory, next } && if old(self).stylus.tapped {
                &&& e@ == seq![Effect::RestorePage]
                &&& final(self).phase == (Phase::MemoryShown { shown: false, until: now, region: memory.region })
            } else if now >= next {
                let f = conjure_frame(memory@);
                &&& e@ == f.0
                &&& if f.1.stroke_i >= f.1.strokes.len() {
                    final(self).phase == (Phase::MemoryShown { shown: true, until: after(now, MEMORY_MS), region: memory.region })
                } else {
                    final(self).phase matches Phase::Conjuring { memory: m, next: n } && m@ == f.1 && n == after(now, CONJURE_FRAME_MS)
                }
            } else {
                &&& e@ == Seq::<Effect>::empty()
                &&& final(self).phase == old(self).phase
            },
    {
        let tapped = self.stylus.tapped;
        if let Phase::Conjuring { next, .. } = self.phase {
            if !tapped && now < next {
                return Vec::new();
            }
        }
        let mut cur = Phase::Listening { last_pen: None };
        core::mem::swap(&mut cur, &mut self.phase);
        let mut memory = match cur {
            Phase::Conjuring { memory, .. } => memory,
            _ => {
                assert(false);
                return Vec::new();
            },
        };
        if tapped {
            self.phase = Phase::MemoryShown { shown: false, until: now, region: memory.region };
            return vec![Effect::RestorePage];
        }
        let mut e: Vec<Effect> = Vec::new();
        draw_memory(&mut memory, &mut e);
        if memory.stroke_i >= memory.strokes.len() {
            self.phase = Phase::MemoryShown { shown: true, until: later(now, MEMORY_MS), region: memory.region };
        } else {
            self.phase = Phase::Conjuring { memory, next: later(now, CONJURE_FRAME_MS) };
        }
        e
    }

    /// One pass while a memory rests on the page: a touch or [`MEMORY_MS`]
    /// brings today's page back; the page listens again once the stylus is
    /// off the paper.
    pub fn rest(&mut self, now: u64) -> (e: Vec<Effect>)
        requires
            old(self).phase is MemoryShown,
        ensures
            final(self).wf(),
            final(self).stylus == old(self).stylus,
            final(self).turn == old(self).turn,
            old(self).phase matches Phase::MemoryShown { shown, until, region } && if shown {
                if old(self).stylus.tapped || now >= until {
                    &&& e@ == seq![Effect::RestorePage]
                    &&& final(self).phase == (Phase::MemoryShown { shown: false, until, region })
                } else {
                    &&& e@ == Seq::<Effect>::empty()
                    &&& final(self).phase == old(self).phase
                }
            } else {
                &&& e@ == Seq::<Effect>::empty()
                &&& final(self).phase == if old(self).stylus.on {
                    old(self).phase
                } else {
                    Phase::Listening { last_pen: None }
                }
            },
    {
        let (shown, until, region) = match self.phase {
            Phase::MemoryShown { shown, until, region } => (shown, until, region),
            _ => {
                assert(false);
                (false, 0, BBox::empty())
            },
        };
        if shown {
            if self.stylus.tapped || now >= until {
                self.phase = Phase::MemoryShown { shown: false, until, region };
                return vec![Effect::RestorePage];
            }
        } else if !self.stylus.on {
            self.phase = Phase::Listening { last_pen: None };
        }
        Vec::new()
    }

    /// The end of a pass of the loop: the stylus's touch has been seen.
    pub fn end_pass(&mut self)
        ensures
            final(self).phase == old(self).phase,
            final(self).turn == old(self).turn,
            final(self).stylus == (Stylus { tapped: false, ..old(self).stylus }),
    {
        self.stylus.tapped = false;
    }

    /// A reading of the raw stylus at `now`. It writes when it touches the
    /// paper harder than [`WRITE_PRESSURE`]; the pen inks (radius from the
    /// pressure) and the eraser erases while the page is listening,
    /// thinking or drawing its answer, and a listening page restarts its
    /// idle timer. Lifting the stylus ends the stroke in progress.
    pub fn pen_sample(&mut self, s: PenSample, now: u64) -> (e: Option<Effect>)
        requires
            s.pressure <= i32::MAX / 3,
            old(self).wf(),
        ensures
            final(self).wf(),
            ({
                let writing = s.touching && s.pressure > WRITE_PRESSURE;
                &&& final(self).stylus.on == writing
                &&& final(self).stylus.tapped == (old(self).stylus.tapped || writing)
                &&& final(self).turn == old(self).turn
                &&& if writing && inks_in(old(self).phase) {
                    &&& final(self).stylus.pen_down
                    &&& e == Some(ink_of(s))
                    &&& final(self).phase == touched(old(self).phase, now)
                } else if !writing && old(self).stylus.pen_down {
                    &&& !final(self).stylus.pen_down
                    &&& e == Some(Effect::PenUp)
                    &&& final(self).phase == touched(old(self).phase, now)
                } else {
                    &&& final(self).stylus.pen_down == old(self).stylus.pen_down
                    &&& e == None::<Effect>
                    &&& final(self).phase == old(self).phase
                }
            }),
    {
        let writing = s.touching && s.pressure > WRITE_PRESSURE;
        self.stylus.on = writing;
        self.stylus.tapped = self.stylus.tapped || writing;
        if !writing {
            if self.stylus.pen_down {
                self.stylus.pen_down = false;
                self.restart_timer(now);
                return Some(Effect::PenUp);
            }
            return None;
        }
        let inks = match self.phase {
            Phase::Listening { .. } | Phase::Thinking { .. } | Phase::CardTurn { .. } | Phase::DrawingCards { .. } => true,
            _ => false,
        };
        if !inks {
            return None;
        }
        self.stylus.pen_down = true;
        self.restart_timer(now);
        match s.tool {
            Tool::Pen => Some(Effect::Pen { x: s.x, y: s.y, r: 2 + s.pressure * 3 / MAX_PRESSURE }),
            Tool::Eraser => Some(Effect::Erase { x: s.x, y: s.y, r: ERASER_R }),
        }
    }

    /// A pen event of the window system at `now`: a press or update puts
    /// the stylus on the paper and inks where the page takes ink (radius
    /// from the clamped pressure); a release lifts it.
    pub fn window_pen(&mut self, ev: WindowPen, now: u64) -> (e: Option<Effect>)
        requires
            old(self).wf(),
        ensures
            final(self).wf(),
            final(self).turn == old(self).turn,
            match ev {
                WindowPen::Release => {
                    &&& !final(self).stylus.on
                    &&& final(self).stylus.tapped == old(self).stylus.tapped
                    &&& if old(self).stylus.pen_down {
                        &&& !final(self).stylus.pen_down
                        &&& e == Some(Effect::PenUp)
                        &&& final(self).phase == touched(old(self).phase, now)
                    } else {
                        &&& !final(self).stylus.pen_down
                        &&& e == None::<Effect>
                        &&& final(self).phase == old(self).phase
                    }
                },
                WindowPen::Press { x, y, d } | WindowPen::Update { x, y, d } => {
                    &&& final(self).stylus.on
                    &&& final(self).stylus.tapped
                    &&& if inks_in(old(self).phase) {
                        &&& final(self).stylus.pen_down
                        &&& e == Some(window_ink(x, y, d))
                        &&& final(self).phase == touched(old(self).phase, now)
                    } else {
                        &&& final(self).stylus.pen_down == old(self).stylus.pen_down
                        &&& e == None::<Effect>
                        &&& final(self).phase == old(self).phase
                    }
                },
            },
    {
        match ev {
            WindowPen::Release => {
                self.stylus.on = false;
                if self.stylus.pen_down {
                    self.stylus.pen_down = false;
                    self.restart_timer(now);
                    Some(Effect::PenUp)
                } else {
                    None
                }
            },
            WindowPen::Press { x, y, d } | WindowPen::Update { x, y, d } => {
                self.stylus.on = true;
                self.stylus.tapped = true;
                let inks = match self.phase {
                    Phase::Listening { .. } | Phase::Thinking { .. } | Phase::CardTurn { .. } | Phase::DrawingCards { .. } => true,
                    _ => false,
                };
                if !inks {
                    return None;
                }
                self.stylus.pen_down = true;
                self.restart_timer(now);
                let c = if d < 0 { 0 } else if d > 100 { 100 } else { d };
                Some(Effect::Pen { x, y, r: 2 + c / 45 })
            },
        }
    }
}

/// Law: a finished answer turns the page only when the child has drawn
/// nothing since it was asked for, so unanswered ink is never wiped; the
/// turned page counts its strokes from zero. A reply turns it only when it
/// said something and did not fail.
pub proof fn law_page_turn_spares_new_ink(t: TurnBook, page_full: bool, total: usize)
    ensures
        page_turn(t, page_full, total).0.contains(Effect::TurnPage) ==> {
            &&& page_full
            &&& total == t.committed
            &&& page_turn(t, page_full, total).1.committed == 0
        },
        reply_done(t, page_full, total).0.contains(Effect::TurnPage) ==> {
            &&& page_full
            &&& total == t.committed
            &&& !t.failed
            &&& t.said
        },
{
    let p = page_turn(t, page_full, total);
    if p.0.contains(Effect::TurnPage) {
        let k = choose|k: int| 0 <= k < p.0.len() && p.0[k] == Effect::TurnPage;
        assert(p.0.len() > 0);
    }
    let d = reply_done(t, page_full, total);
    if d.0.contains(Effect::TurnPage) {
        let k = choose|k: int| 0 <= k < d.0.len() && d.0[k] == Effect::TurnPage;
        assert(d.0.len() > 0);
        if !t.failed && t.said {
            assert(d.0 == seq![Effect::Remember] + p.0);
            if k > 0 {
                assert(d.0[k] == p.0[k - 1]);
            }
            assert(p.0.contains(Effect::TurnPage));
        }
    }
}

/// Law: a reply that failed midway, or never said anything, leaves no
/// trace: it is not remembered and the page stays as it is.
pub proof fn law_unfinished_reply_is_forgotten(t: TurnBook, page_full: bool, total: usize)
    requires
        t.failed || !t.said,
    ensures
        reply_done(t, page_full, total) == (Seq::<Effect>::empty(), t),
{
}

/// Law: once the reply has reached [`REPLY_FLOOR`], more streamed text is
/// dropped rather than written below the page, and the stream ends.
pub proof fn law_reply_stops_at_floor(v: WriteV, t: TurnBook, msg: OracleMsg)
    requires
        v.next_y > REPLY_FLOOR,
        msg is Ink,
    ensures
        heard(v, true, t, msg) == (v, false, t),
{
}

/// Law: a frame never draws more points than its budget.
pub proof fn law_frame_within_budget(ss: Seq<Seq<(i32, i32)>>, si: int, pi: int, budget: int)
    requires
        budget >= 0,
    ensures
        walk(ss, si, pi, budget).0.len() <= budget,
        drain(ss, pi, budget).0.len() <= budget,
    decreases budget, ss.len() - si,
{
    if budget > 0 && 0 <= si < ss.len() && pi >= 0 {
        if pi >= ss[si].len() {
            law_frame_within_budget(ss, si + 1, 0, budget);
        } else {
            law_frame_within_budget(ss, si, pi + 1, budget - 1);
        }
    }
    lemma_drain_within_budget(ss, pi, budget);
}

proof fn lemma_drain_within_budget(ss: Seq<Seq<(i32, i32)>>, pi: int, budget: int)
    requires
        budget >= 0,
    ensures
        drain(ss, pi, budget).0.len() <= budget,
    decreases budget, ss.len(),
{
    if budget > 0 && ss.len() > 0 && pi >= 0 {
        if pi >= ss[0].len() {
            lemma_drain_within_budget(ss.drop_first(), 0, budget);
        } else {
            lemma_drain_within_budget(ss, pi + 1, budget - 1);
        }
    }
}

/// Law: splitting the drawing into frames neither skips nor repeats a
/// point: a frame of `a` points followed by one of `b` points draws
/// exactly what one frame of `a + b` points draws, and stops at the same
/// place, for a reply ([`walk`]) as for a card ([`drain`]).
pub proof fn law_frames_compose(ss: Seq<Seq<(i32, i32)>>, si: int, pi: int, a: int, b: int)
    requires
        a >= 0,
        b >= 0,
    ensures
        ({
            let w1 = walk(ss, si, pi, a);
            let w2 = walk(ss, w1.1, w1.2, b);
            walk(ss, si, pi, a + b) == (w1.0 + w2.0, w2.1, w2.2)
        }),
        ({
            let d1 = drain(ss, pi, a);
            let d2 = drain(d1.1, d1.2, b);
            drain(ss, pi, a + b) == (d1.0 + d2.0, d2.1, d2.2)
        }),
{
    lemma_walk_compose(ss, si, pi, a, b);
    lemma_drain_compose(ss, pi, a, b);
}

proof fn lemma_drain_compose(ss: Seq<Seq<(i32, i32)>>, pi: int, a: int, b: int)
    requires
        a >= 0,
        b >= 0,
    ensures
        ({
            let d1 = drain(ss, pi, a);
            let d2 = drain(d1.1, d1.2, b);
            drain(ss, pi, a + b) == (d1.0 + d2.0, d2.1, d2.2)
        }),
    decreases a, ss.len(),
{
    let d1 = drain(ss, pi, a);
    if a == 0 {
        assert(d1.0 + drain(ss, pi, b).0 =~= drain(ss, pi, b).0);
    } else if ss.len() == 0 || pi < 0 {
        assert(d1.0 + drain(ss, pi, b).0 =~= drain(ss, pi, b).0);
        if b == 0 {
            assert(drain(ss, pi, a + b).0 =~= Seq::<(Option<(i32, i32)>, (i32, i32))>::empty());
        }
    } else if pi >= ss[0].len() {
        lemma_drain_compose(ss.drop_first(), 0, a, b);
    } else {
        lemma_drain_compose(ss, pi + 1, a - 1, b);
        let seg = (if pi > 0 { Some(ss[0][pi - 1]) } else { None::<(i32, i32)> }, ss[0][pi]);
        let r1 = drain(ss, pi + 1, a - 1);
        let r2 = drain(r1.1, r1.2, b);
        assert(a + b - 1 == (a - 1) + b);
        assert(seq![seg] + (r1.0 + r2.0) =~= (seq![seg] + r1.0) + r2.0);
    }
}

proof fn lemma_walk_compose(ss: Seq<Seq<(i32, i32)>>, si: int, pi: int, a: int, b: int)
    requires
        a >= 0,
        b >= 0,
    ensures
        ({
            let w1 = walk(ss, si, pi, a);
            let w2 = walk(ss, w1.1, w1.2, b);
            walk(ss, si, pi, a + b) == (w1.0 + w2.0, w2.1, w2.2)
        }),
    decreases a, ss.len() - si,
{
    let w1 = walk(ss, si, pi, a);
    if a == 0 {
        assert(w1.0 + walk(ss, si, pi, b).0 =~= walk(ss, si, pi, b).0);
    } else if si < 0 || si >= ss.len() || pi < 0 {
        assert(w1.0 + walk(ss, si, pi, b).0 =~= walk(ss, si, pi, b).0);
        if b == 0 {
            assert(walk(ss, si, pi, a + b).0 =~= Seq::<(Option<(i32, i32)>, (i32, i32))>::empty());
        }
    } else if pi >= ss[si].len() {
        lemma_walk_compose(ss, si + 1, 0, a, b);
    } else {
        lemma_walk_compose(ss, si, pi + 1, a - 1, b);
        let seg = (if pi > 0 { Some(ss[si][pi - 1]) } else { None::<(i32, i32)> }, ss[si][pi]);
        let r1 = walk(ss, si, pi + 1, a - 1);
        let r2 = walk(ss, r1.1, r1.2, b);
        assert(a + b - 1 == (a - 1) + b);
        assert(seq![seg] + (r1.0 + r2.0) =~= (seq![seg] + r1.0) + r2.0);
    }
}

} // verus!
