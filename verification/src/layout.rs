//! Ink-coverage map and placement resolver: a coarse dirty/clear grid over
//! the page, plus a search that turns a card's semantic `Place` intent into
//! concrete pixel coordinates that never overlap existing ink.
use crate::cards::Place;
use crate::surface::{Page, Surface};
use vstd::prelude::*;

verus! {

/// Grid cell size in pixels. 1620/25 = 64.8 -> 65 cols; 2160/25 = 86.4 -> 87 rows.
pub const CELL: usize = 25;

/// Largest page side the map accepts. Keeps every summed-area count and
/// every pixel coordinate derived from the grid inside `i32`.
pub const MAX_SIDE: usize = 524288;

/// Number of `CELL`-sized cells needed to cover `px` pixels (rounded up).
pub open spec fn cells_for(px: int) -> int {
    (px + 24) / 25
}

/// The mathematical content of an [`InkMap`].
pub ghost struct InkGrid {
    pub cols: int,
    pub rows: int,
    pub screen_w: int,
    pub screen_h: int,
    /// Row-major dirty flags, `rows * cols` of them.
    pub dirty: Seq<bool>,
}

impl InkGrid {
    /// The grid covers its page: whole cells over each side, one flag per
    /// cell.
    pub open spec fn shaped(self) -> bool {
        &&& 0 <= self.screen_w
        &&& 0 <= self.screen_h
        &&& self.cols == cells_for(self.screen_w)
        &&& self.rows == cells_for(self.screen_h)
        &&& self.dirty.len() == self.cols * self.rows
    }

    /// A shaped grid over a page whose sides the placement search can
    /// handle (pixel and cell arithmetic in `i32`).
    pub open spec fn wf(self) -> bool {
        &&& self.shaped()
        &&& self.screen_w <= MAX_SIDE
        &&& self.screen_h <= MAX_SIDE
    }

    /// Whether grid cell `(col, row)` exists and holds ink.
    pub open spec fn is_dirty(self, col: int, row: int) -> bool {
        &&& 0 <= col < self.cols
        &&& 0 <= row < self.rows
        &&& self.dirty[row * self.cols + col]
    }

    /// Whether pixel span `[a, a + len)` touches cell index `i` (cells are
    /// `CELL` pixels wide).
    pub open spec fn span_touches(a: int, len: int, i: int) -> bool {
        25 * i < a + len && a < 25 * i + 25
    }

    /// The grid after marking the pixel rect `x, y, w, h`: every cell that
    /// the rect touches becomes dirty; nothing else changes.
    pub open spec fn marked(self, x: int, y: int, w: int, h: int) -> InkGrid {
        InkGrid {
            dirty: Seq::new(
                self.dirty.len(),
                |i: int|
                    self.dirty[i] || (w > 0 && h > 0 && Self::span_touches(x, w, i % self.cols)
                        && Self::span_touches(y, h, i / self.cols)),
            ),
            ..self
        }
    }

    /// Every cell of the `gw` x `gh` block whose top-left cell is
    /// `(col, row)` is clear of ink.
    pub open spec fn block_clean(self, col: int, row: int, gw: int, gh: int) -> bool {
        forall|c: int, r: int|
            col <= c < col + gw && row <= r < row + gh ==> !#[trigger] self.is_dirty(c, r)
    }

    /// Whether the search may place content with top-left cell `(col, row)`:
    /// the padded block lies on the grid and is clean, and the content rect
    /// itself (margin folded in) ends within the true page.
    pub open spec fn candidate_ok(self, p: SpotParams, col: int, row: int) -> bool {
        &&& 0 <= col
        &&& 0 <= row
        &&& col + p.gw <= self.cols
        &&& row + p.gh <= self.rows
        &&& 25 * col + p.margin + p.want_w <= self.screen_w
        &&& 25 * row + p.margin + p.want_h <= self.screen_h
        &&& self.block_clean(col, row, p.gw, p.gh)
    }

    /// The ring search from ring `r`, position `k` on: the first acceptable
    /// candidate (as its content's top-left pixel), or `None`.
    pub open spec fn search_from(self, p: SpotParams, cx: int, cy: int, r: int, k: int, maxr: int) -> Option<(int, int)>
        decreases maxr + 1 - r, ring_len(r) - k,
    {
        if r < 0 || r > maxr {
            None
        } else if k < 0 || k >= ring_len(r) {
            self.search_from(p, cx, cy, r + 1, 0, maxr)
        } else {
            let cand = ring_at(cx, cy, r, k);
            if self.candidate_ok(p, cand.0, cand.1) {
                Some((25 * cand.0 + p.margin, 25 * cand.1 + p.margin))
            } else {
                self.search_from(p, cx, cy, r, k + 1, maxr)
            }
        }
    }

    /// What `InkMap::find_spot` returns for this grid.
    pub open spec fn spot(self, want_w: int, want_h: int, seed: (int, int), margin: int) -> Option<(int, int)> {
        let p = spot_params(want_w, want_h, margin);
        if self.cols == 0 || self.rows == 0 || p.gw > self.cols || p.gh > self.rows {
            None
        } else {
            let (cx, cy) = self.seed_cell(seed);
            self.search_from(p, cx, cy, 0, 0, max_int(self.cols, self.rows))
        }
    }

    /// The grid cell a search seeded at pixel `seed` starts from.
    pub open spec fn seed_cell(self, seed: (int, int)) -> (int, int) {
        (clamp_int(seed.0 / 25, 0, self.cols - 1), clamp_int(seed.1 / 25, 0, self.rows - 1))
    }

    /// A blank grid for a `screen_w` x `screen_h` page.
    pub open spec fn blank(screen_w: int, screen_h: int) -> InkGrid {
        InkGrid {
            cols: cells_for(screen_w),
            rows: cells_for(screen_h),
            screen_w,
            screen_h,
            dirty: Seq::new((cells_for(screen_w) * cells_for(screen_h)) as nat, |i: int| false),
        }
    }
}

pub open spec fn max_int(a: int, b: int) -> int {
    if a >= b { a } else { b }
}

pub open spec fn clamp_int(v: int, lo: int, hi: int) -> int {
    if v < lo { lo } else if v > hi { hi } else { v }
}

/// `i32` saturating addition of two values.
pub open spec fn sat_i32(v: int) -> int {
    if v > i32::MAX { i32::MAX as int } else { v }
}

/// The normalized request behind one `find_spot` call: negative sizes and
/// margins count as zero; `gw` x `gh` is the padded footprint in cells.
pub ghost struct SpotParams {
    pub want_w: int,
    pub want_h: int,
    pub margin: int,
    pub gw: int,
    pub gh: int,
}

pub open spec fn spot_params(want_w: int, want_h: int, margin: int) -> SpotParams {
    let m = max_int(margin, 0);
    let ww = max_int(want_w, 0);
    let wh = max_int(want_h, 0);
    let full_w = sat_i32(ww + sat_i32(2 * m));
    let full_h = sat_i32(wh + sat_i32(2 * m));
    SpotParams {
        want_w: ww,
        want_h: wh,
        margin: m,
        gw: max_int(cells_for(full_w), 1),
        gh: max_int(cells_for(full_h), 1),
    }
}

/// Number of cells at exactly Chebyshev distance `r` from a center.
pub open spec fn ring_len(r: int) -> int {
    if r == 0 { 1 } else { 8 * r }
}

/// The `i`-th cell of the ring at Chebyshev distance `r` around `(cx, cy)`,
/// in search order: top and bottom rows (interleaved, left to right), then
/// the left and right edges (interleaved, top to bottom).
pub open spec fn ring_at(cx: int, cy: int, r: int, i: int) -> (int, int) {
    if r == 0 {
        (cx, cy)
    } else if i < 2 * (2 * r + 1) {
        if i % 2 == 0 { (cx - r + i / 2, cy - r) } else { (cx - r + i / 2, cy + r) }
    } else {
        let j = i - 2 * (2 * r + 1);
        if j % 2 == 0 { (cx - r, cy - r + 1 + j / 2) } else { (cx + r, cy - r + 1 + j / 2) }
    }
}

/// An optional exec point as mathematical integers.
pub open spec fn opt_point(r: Option<(i32, i32)>) -> Option<(int, int)> {
    match r {
        Some((x, y)) => Some((x as int, y as int)),
        None => None,
    }
}

/// The ink map read off page `p`: each cell dirty exactly when one of its
/// sample points is inked.
pub open spec fn page_grid(p: Page) -> InkGrid {
    let cols = cells_for(p.w);
    let rows = cells_for(p.h);
    InkGrid {
        cols,
        rows,
        screen_w: p.w,
        screen_h: p.h,
        dirty: Seq::new((cols * rows) as nat, |i: int| cell_sampled_dirty(p, i % cols, i / cols)),
    }
}

/// Sample point `(sx, sy)` of cell `(col, row)`: a 5x5 grid stepping
/// `CELL / 5` px, clamped to the last true pixel row/column of the page.
pub open spec fn sample_point(p: Page, col: int, row: int, sx: int, sy: int) -> (int, int) {
    let x = 25 * col + 5 * sx;
    let y = 25 * row + 5 * sy;
    (if x > p.w - 1 { p.w - 1 } else { x }, if y > p.h - 1 { p.h - 1 } else { y })
}

/// Whether sample `(sx, sy)` of cell `(col, row)` reads as ink (luma < 200).
pub open spec fn sample_inked(p: Page, col: int, row: int, sx: int, sy: int) -> bool {
    let (x, y) = sample_point(p, col, row, sx, sy);
    p.at(x, y) < 200
}

/// A cell is dirty when any of its 25 sample points reads as ink.
pub open spec fn cell_sampled_dirty(p: Page, col: int, row: int) -> bool {
    exists|sx: int, sy: int| 0 <= sx < 5 && 0 <= sy < 5 && #[trigger] sample_inked(p, col, row, sx, sy)
}

/// Number of `true` entries.
pub open spec fn count_true(s: Seq<bool>) -> nat
    decreases s.len(),
{
    if s.len() == 0 { 0 } else { count_true(s.drop_last()) + if s.last() { 1nat } else { 0nat } }
}

/// Low-res dirty/clear grid over the page. A cell is dirty once any ink (or
/// a previously-placed card) has touched it.
pub struct InkMap {
    cols: usize,
    rows: usize,
    cells: Vec<bool>,
    screen_w: usize,
    screen_h: usize,
}

impl View for InkMap {
    type V = InkGrid;

    closed spec fn view(&self) -> InkGrid {
        InkGrid {
            cols: self.cols as int,
            rows: self.rows as int,
            screen_w: self.screen_w as int,
            screen_h: self.screen_h as int,
            dirty: self.cells@,
        }
    }
}

proof fn lemma_cells_bound(px: int)
    requires
        0 <= px <= MAX_SIDE,
    ensures
        0 <= cells_for(px) <= 20972,
        25 * cells_for(px) >= px,
        25 * cells_for(px) <= px + 24,
{
}

/// The cells over a page are no more than its pixels.
proof fn lemma_cells_fit(w: int, h: int)
    requires
        w >= 0,
        h >= 0,
    ensures
        0 <= cells_for(w) * cells_for(h) <= w * h,
        25 * cells_for(w) <= w + 24,
        25 * cells_for(h) <= h + 24,
        w > 0 ==> 25 * cells_for(w) >= w,
        h > 0 ==> 25 * cells_for(h) >= h,
{
    let c = cells_for(w);
    let r = cells_for(h);
    assert(0 <= c <= w);
    assert(0 <= r <= h);
    assert(0 <= c * r <= w * h) by (nonlinear_arith)
        requires 0 <= c <= w, 0 <= r <= h;
}

proof fn lemma_grid_size(cols: int, rows: int)
    requires
        0 <= cols <= 20972,
        0 <= rows <= 20972,
    ensures
        0 <= cols * rows <= 439825000,
        0 <= (cols + 1) * (rows + 1) <= 439866945,
{
    assert(0 <= cols * rows <= 439825000) by (nonlinear_arith)
        requires 0 <= cols <= 20972, 0 <= rows <= 20972;
    assert(0 <= (cols + 1) * (rows + 1) <= 439866945) by (nonlinear_arith)
        requires 0 <= cols <= 20972, 0 <= rows <= 20972;
}

/// Floor division by `CELL` (rounds toward negative infinity, like
/// `i32::div_euclid` for a positive divisor).
fn floor_cell(v: i64) -> (r: i64)
    requires
        -0x4000_0000_0000 <= v <= 0x4000_0000_0000,
    ensures
        r == v / 25,
{
    if v >= 0 {
        v / 25
    } else {
        let q = (24 - v) / 25;
        proof {
            let k = (24 - v) / 25;
            assert(25 * k <= 24 - v < 25 * k + 25);
            vstd::arithmetic::div_mod::lemma_fundamental_div_mod_converse(v as int, 25, -k, v + 25 * k);
        }
        -q
    }
}

/// Index arithmetic of a row-major grid: `row * cols + col` splits back into
/// `row` and `col`.
proof fn lemma_index(row: int, col: int, cols: int)
    requires
        0 <= col < cols,
    ensures
        (row * cols + col) / cols == row,
        (row * cols + col) % cols == col,
{
    vstd::arithmetic::div_mod::lemma_fundamental_div_mod_converse(row * cols + col, cols, row, col);
}

proof fn lemma_index_bounds(row: int, col: int, cols: int, rows: int)
    requires
        0 <= col < cols,
        0 <= row < rows,
    ensures
        0 <= row * cols + col < cols * rows,
{
    assert(0 <= row * cols + col < cols * rows) by (nonlinear_arith)
        requires 0 <= col < cols, 0 <= row < rows;
}

pub(crate) proof fn lemma_split_index(i: int, cols: int, rows: int)
    requires
        0 <= i < cols * rows,
        cols > 0,
    ensures
        0 <= i % cols < cols,
        0 <= i / cols < rows,
        i == (i / cols) * cols + i % cols,
{
    vstd::arithmetic::div_mod::lemma_fundamental_div_mod(i, cols);
    assert(cols * (i / cols) == (i / cols) * cols) by (nonlinear_arith);
    assert(0 <= i / cols < rows) by (nonlinear_arith)
        requires 0 <= i < cols * rows, cols > 0, i == cols * (i / cols) + i % cols, 0 <= i % cols < cols;
}

impl InkMap {
    /// A blank page of `screen_w` x `screen_h` pixels.
    pub fn new(screen_w: usize, screen_h: usize) -> (m: Self)
        requires
            cells_for(screen_w as int) * cells_for(screen_h as int) <= usize::MAX,
        ensures
            m@ == InkGrid::blank(screen_w as int, screen_h as int),
            m@.shaped(),
            screen_w <= MAX_SIDE && screen_h <= MAX_SIDE ==> m@.wf(),
    {
        let cols = screen_w / CELL + if screen_w % CELL != 0 { 1 } else { 0 };
        let rows = screen_h / CELL + if screen_h % CELL != 0 { 1 } else { 0 };
        assert(cols == cells_for(screen_w as int));
        assert(rows == cells_for(screen_h as int));
        let n = cols * rows;
        let cells = vec![false; n];
        let m = InkMap { cols, rows, cells, screen_w, screen_h };
        assert(m@.dirty =~= InkGrid::blank(screen_w as int, screen_h as int).dirty);
        m
    }

    /// Mark a pixel rect (freshly rendered ink, or a card's own footprint)
    /// occupied. Cells only partly covered by the rect are still marked
    /// whole — deliberately conservative, not exact. Rects (or parts of
    /// them) outside the page are simply clipped: off-page space is never
    /// stored, but `find_spot` treats it as dirty anyway (see there).
    pub fn mark_rect(&mut self, x: i32, y: i32, w: i32, h: i32)
        requires
            old(self)@.wf(),
            w > 0 && h > 0 && old(self)@.cols > 0 && old(self)@.rows > 0 ==> x + w <= i32::MAX && y
                + h <= i32::MAX,
        ensures
            final(self)@ == old(self)@.marked(x as int, y as int, w as int, h as int),
            final(self)@.wf(),
    {
        let ghost g0 = self@;
        if w <= 0 || h <= 0 || self.cols == 0 || self.rows == 0 {
            if self.cols == 0 || self.rows == 0 {
                assert(self.cols * self.rows == 0) by (nonlinear_arith)
                    requires self.cols == 0 || self.rows == 0;
            }
            assert(self@.dirty =~= g0.marked(x as int, y as int, w as int, h as int).dirty);
            return;
        }
        proof {
            lemma_cells_bound(self.screen_w as int);
            lemma_cells_bound(self.screen_h as int);
        }
        let cols = self.cols;
        let rows = self.rows;
        proof { lemma_grid_size(cols as int, rows as int); }
        let col_lo0 = floor_cell(x as i64);
        let col_hi0 = floor_cell(x as i64 + w as i64 - 1);
        let row_lo0 = floor_cell(y as i64);
        let row_hi0 = floor_cell(y as i64 + h as i64 - 1);
        let col_lo: i64 = if col_lo0 < 0 { 0 } else { col_lo0 };
        let col_hi: i64 = if col_hi0 > cols as i64 - 1 { cols as i64 - 1 } else { col_hi0 };
        let row_lo: i64 = if row_lo0 < 0 { 0 } else { row_lo0 };
        let row_hi: i64 = if row_hi0 > rows as i64 - 1 { rows as i64 - 1 } else { row_hi0 };
        let ghost hit = |i: int|
            InkGrid::span_touches(x as int, w as int, i % (cols as int)) && InkGrid::span_touches(
                y as int,
                h as int,
                i / (cols as int),
            );
        assert forall|i: int| 0 <= i < cols * rows implies #[trigger] hit(i) == (col_lo <= i
            % (cols as int) <= col_hi && row_lo <= i / (cols as int) <= row_hi) by {
            lemma_split_index(i, (cols as int), rows as int);
        }
        let mut row = row_lo;
        while row <= row_hi
            invariant
                g0.wf(),
                g0.cols == cols,
                g0.rows == rows,
                self.cols == cols,
                self.rows == rows,
                self.screen_w == g0.screen_w,
                self.screen_h == g0.screen_h,
                cols > 0,
                rows > 0,
                cols <= 20972,
                rows <= 20972,
                cols * rows <= 439825000,
                0 <= row_lo,
                row_lo <= row <= row_hi + 1 || row == row_lo,
                row_hi < rows,
                0 <= col_lo,
                col_hi < cols,
                self.cells@.len() == g0.dirty.len(),
                forall|i: int| 0 <= i < cols * rows ==> #[trigger] hit(i) == (col_lo <= i
                    % (cols as int) <= col_hi && row_lo <= i / (cols as int) <= row_hi),
                forall|i: int|
                    0 <= i < self.cells@.len() ==> #[trigger] self.cells@[i] == (g0.dirty[i] || (
                    hit(i) && i / (cols as int) < row)),
            decreases row_hi + 1 - row,
        {
            let mut col = col_lo;
            while col <= col_hi
                invariant
                    g0.wf(),
                    g0.cols == cols,
                    g0.rows == rows,
                    self.cols == cols,
                    self.rows == rows,
                    self.screen_w == g0.screen_w,
                    self.screen_h == g0.screen_h,
                    cols > 0,
                    rows > 0,
                    cols <= 20972,
                    rows <= 20972,
                    cols * rows <= 439825000,
                    0 <= row_lo <= row <= row_hi,
                    row_hi < rows,
                    0 <= col_lo,
                    col_lo <= col <= col_hi + 1 || col == col_lo,
                    col_hi < cols,
                    self.cells@.len() == g0.dirty.len(),
                    forall|i: int| 0 <= i < cols * rows ==> #[trigger] hit(i) == (col_lo <= i
                        % (cols as int) <= col_hi && row_lo <= i / (cols as int) <= row_hi),
                    forall|i: int|
                        0 <= i < self.cells@.len() ==> #[trigger] self.cells@[i] == (g0.dirty[i] || (
                        hit(i) && (i / (cols as int)) < row) || (hit(i) && i / (cols as int) == row
                        && i % (cols as int) < col)),
                decreases col_hi + 1 - col,
            {
                proof {
                    lemma_index_bounds(row as int, col as int, (cols as int), rows as int);
                    lemma_index(row as int, col as int, (cols as int));
                }
                let idx = row as usize * cols + col as usize;
                self.cells.set(idx, true);
                proof {
                    assert forall|i: int| 0 <= i < self.cells@.len() implies #[trigger] self.cells@[i]
                        == (g0.dirty[i] || (hit(i) && (i / (cols as int)) < row) || (hit(i) && i
                        / (cols as int) == row && i % (cols as int) < col + 1)) by {
                        lemma_split_index(i, (cols as int), rows as int);
                        if i != idx {
                            if i / (cols as int) == row && i % (cols as int) == col {
                                assert(i == row * cols + col);
                            }
                        }
                    }
                }
                col = col + 1;
            }
            proof {
                assert forall|i: int| 0 <= i < self.cells@.len() implies #[trigger] self.cells@[i]
                    == (g0.dirty[i] || (hit(i) && i / (cols as int) < row + 1)) by {
                    lemma_split_index(i, (cols as int), rows as int);
                }
            }
            row = row + 1;
        }
        proof {
            assert forall|i: int| 0 <= i < self.cells@.len() implies #[trigger] self.cells@[i]
                == (g0.dirty[i] || hit(i)) by {
                lemma_split_index(i, (cols as int), rows as int);
            }
            assert(self@.dirty =~= g0.marked(x as int, y as int, w as int, h as int).dirty);
        }
    }

    /// Find the top-left pixel of a `want_w` x `want_h` rect — with `margin`
    /// px of clearance on every side — that is entirely free of ink.
    /// Searches outward from the cell containing `seed` in Chebyshev rings
    /// (closest candidates first), so the result naturally stays near the
    /// seed when the seed itself is already clear. Cells off the edge of
    /// the page count as dirty for the ink-clearance check; separately, the
    /// returned coordinate is checked against the true `screen_w`/`screen_h`
    /// (not just the cell grid, which rounds them up to whole cells) — so
    /// the returned CONTENT rect itself never hangs off the true page,
    /// even though its margin buffer may reach into the last cell's
    /// rounding overhang. `None` if nothing on the whole page fits — the
    /// caller should retry at a smaller size.
    pub fn find_spot(&self, want_w: i32, want_h: i32, seed: (i32, i32), margin: i32) -> (r: Option<(i32, i32)>)
        requires
            self@.wf(),
        ensures
            opt_point(r) == self@.spot(want_w as int, want_h as int, (seed.0 as int, seed.1 as int), margin as int),
    {
        let ghost g = self@;
        let ghost p = spot_params(want_w as int, want_h as int, margin as int);
        let ghost (ow, oh, om, os) = (want_w as int, want_h as int, margin as int, (seed.0 as int, seed.1 as int));
        proof {
            lemma_cells_bound(g.screen_w);
            lemma_cells_bound(g.screen_h);
            lemma_grid_size(g.cols, g.rows);
        }
        if self.cols == 0 || self.rows == 0 {
            return None;
        }
        let mg: i32 = if margin < 0 { 0 } else { margin };
        let ww: i32 = if want_w < 0 { 0 } else { want_w };
        let wh: i32 = if want_h < 0 { 0 } else { want_h };
        let two_m: i64 = 2 * mg as i64;
        let two_m: i32 = if two_m > i32::MAX as i64 { i32::MAX } else { two_m as i32 };
        let full_w: i64 = ww as i64 + two_m as i64;
        let full_w: i32 = if full_w > i32::MAX as i64 { i32::MAX } else { full_w as i32 };
        let full_h: i64 = wh as i64 + two_m as i64;
        let full_h: i32 = if full_h > i32::MAX as i64 { i32::MAX } else { full_h as i32 };
        let gw0 = (full_w as usize + 24) / CELL;
        let gw = if gw0 < 1 { 1 } else { gw0 };
        let gh0 = (full_h as usize + 24) / CELL;
        let gh = if gh0 < 1 { 1 } else { gh0 };
        assert(gw == p.gw && gh == p.gh && mg == p.margin && ww == p.want_w && wh == p.want_h);
        if gw > self.cols || gh > self.rows {
            return None;
        }
        assert(full_w <= 25 * g.cols && full_h <= 25 * g.rows);
        let ii = integral_image(self);
        let iw = self.cols + 1;
        let seed_col0 = floor_cell(seed.0 as i64);
        let seed_row0 = floor_cell(seed.1 as i64);
        let seed_col: i32 = if seed_col0 < 0 { 0 } else if seed_col0 > self.cols as i64 - 1 { self.cols as i32 - 1 } else { seed_col0 as i32 };
        let seed_row: i32 = if seed_row0 < 0 { 0 } else if seed_row0 > self.rows as i64 - 1 { self.rows as i32 - 1 } else { seed_row0 as i32 };
        let max_radius: i32 = if self.cols >= self.rows { self.cols as i32 } else { self.rows as i32 };
        let ghost maxr = max_int(g.cols, g.rows);
        let ghost total = g.search_from(p, seed_col as int, seed_row as int, 0, 0, maxr);
        assert(g.seed_cell((seed.0 as int, seed.1 as int)) == (seed_col as int, seed_row as int));
        assert(g.spot(ow, oh, os, om) == total);
        let mut radius: i32 = 0;
        while radius <= max_radius
            invariant
                g == self@,
                g.wf(),
                g.cols <= 20972,
                g.rows <= 20972,
                g.cols * g.rows <= 439825000,
                ii@.len() == (g.cols + 1) * (g.rows + 1),
                forall|r: int, c: int|
                    0 <= r <= g.rows && 0 <= c <= g.cols ==> #[trigger] ii@[r * (g.cols + 1) + c] == prefix(g, r, c),
                iw == g.cols + 1,
                0 <= seed_col < g.cols,
                0 <= seed_row < g.rows,
                max_radius == maxr,
                max_radius <= 20972,
                0 <= radius <= max_radius + 1,
                p.gw == gw,
                p.gh == gh,
                p.margin == mg,
                p.want_w == ww,
                p.want_h == wh,
                1 <= gw <= g.cols,
                1 <= gh <= g.rows,
                0 <= mg,
                0 <= ww,
                0 <= wh,
                ww + 2 * mg <= 25 * g.cols,
                wh + 2 * mg <= 25 * g.rows,
                g.search_from(p, seed_col as int, seed_row as int, radius as int, 0, maxr) == total,
                g.spot(ow, oh, os, om) == total,
                ow == want_w as int && oh == want_h as int && om == margin as int,
                os == (seed.0 as int, seed.1 as int),
            decreases max_radius + 1 - radius,
        {
            let cand = ring(seed_col, seed_row, radius);
            let mut k: usize = 0;
            while k < cand.len()
                invariant
                    g == self@,
                    g.wf(),
                    g.cols <= 20972,
                    g.rows <= 20972,
                    g.cols * g.rows <= 439825000,
                    ii@.len() == (g.cols + 1) * (g.rows + 1),
                    forall|r: int, c: int|
                        0 <= r <= g.rows && 0 <= c <= g.cols ==> #[trigger] ii@[r * (g.cols + 1) + c] == prefix(g, r, c),
                    iw == g.cols + 1,
                    0 <= seed_col < g.cols,
                    0 <= seed_row < g.rows,
                    max_radius == maxr,
                    max_radius <= 20972,
                max_radius <= 20972,
                    0 <= radius <= max_radius,
                    p.gw == gw,
                    p.gh == gh,
                    p.margin == mg,
                    p.want_w == ww,
                    p.want_h == wh,
                    1 <= gw <= g.cols,
                    1 <= gh <= g.rows,
                    0 <= mg,
                    0 <= ww,
                    0 <= wh,
                    ww + 2 * mg <= 25 * g.cols,
                    wh + 2 * mg <= 25 * g.rows,
                    cand@.len() == ring_len(radius as int),
                    forall|i: int| 0 <= i < cand@.len() ==> (#[trigger] cand@[i]).0 == ring_at(seed_col as int, seed_row as int, radius as int, i).0
                        && cand@[i].1 == ring_at(seed_col as int, seed_row as int, radius as int, i).1,
                    k <= cand@.len(),
                    g.search_from(p, seed_col as int, seed_row as int, radius as int, k as int, maxr) == total,
                    g.spot(ow, oh, os, om) == total,
                    ow == want_w as int && oh == want_h as int && om == margin as int,
                    os == (seed.0 as int, seed.1 as int),
                ow == want_w as int && oh == want_h as int && om == margin as int,
                os == (seed.0 as int, seed.1 as int),
                decreases cand@.len() - k,
            {
                let (col, row) = cand[k];
                let ghost here = ring_at(seed_col as int, seed_row as int, radius as int, k as int);
                assert(col == here.0 && row == here.1);
                if col >= 0 && row >= 0 {
                    let cu = col as usize;
                    let ru = row as usize;
                    assert(cu as int == col as int && ru as int == row as int);
                    if cu + gw <= self.cols && ru + gh <= self.rows {
                        let px = col * 25 + mg;
                        let py = row * 25 + mg;
                        if px + ww <= self.screen_w as i32 && py + wh <= self.screen_h as i32 {
                            let sum = rect_sum(&ii, iw, ru, cu, gh, gw, Ghost(g));
                            if sum == 0 {
                                assert(g.candidate_ok(p, col as int, row as int));
                                assert(g.search_from(p, seed_col as int, seed_row as int, radius as int, k as int, maxr)
                                    == Some((25 * here.0 + p.margin, 25 * here.1 + p.margin)));
                                return Some((px, py));
                            }
                        }
                    }
                }
                assert(!g.candidate_ok(p, col as int, row as int));
                k = k + 1;
            }
            radius = radius + 1;
        }
        None
    }

    /// Sample the rendered page into a fresh map: a cell is dirty if any of
    /// a 5x5 grid of sample points inside it (step `CELL/5`) reads darker
    /// than luma 200. Cheaper than scanning every pixel, plenty accurate at
    /// `CELL` = 25px. The last col/row of cells overhangs the true page
    /// edge, so sample points are clamped to the last true pixel rather
    /// than read as off-page white.
    pub fn from_surface(surf: &Surface) -> (m: Self)
        requires
            surf@.wf(),
            surf@.w + 19 <= i32::MAX,
            surf@.h + 19 <= i32::MAX,
        ensures
            m@.shaped(),
            surf@.w <= MAX_SIDE && surf@.h <= MAX_SIDE ==> m@.shaped(),
            m@.screen_w == surf@.w,
            m@.screen_h == surf@.h,
            forall|col: int, row: int|
                0 <= col < m@.cols && 0 <= row < m@.rows ==> (#[trigger] m@.is_dirty(col, row) <==> cell_sampled_dirty(surf@, col, row)),
            m@ == page_grid(surf@),
    {
        let sw = surf.width();
        let sh = surf.height();
        let _pixels = surf.pixel_count();
        proof {
            lemma_cells_fit(sw as int, sh as int);
        }
        let mut m = Self::new(sw, sh);
        let ghost pg = surf@;
        let cols = m.cols;
        let rows = m.rows;
        let mut row: usize = 0;
        while row < rows
            invariant
                m@.shaped(),
                m.cols == cols,
                m.rows == rows,
                m.screen_w == surf@.w,
                m.screen_h == surf@.h,
                pg == surf@,
                sw == surf@.w && sh == surf@.h,
                pg.wf(),
                cols * rows <= usize::MAX,
                25 * cols <= sw + 24,
                25 * rows <= sh + 24,
                surf@.w + 19 <= i32::MAX,
                surf@.h + 19 <= i32::MAX,
                row <= rows,
                forall|i: int| 0 <= i < cols * rows ==> #[trigger] m.cells@[i] == (i / (cols as int) < row && cell_sampled_dirty(pg, i % (cols as int), i / (cols as int))),
            decreases rows - row,
        {
            let mut col: usize = 0;
            while col < cols
                invariant
                    m@.shaped(),
                    m.cols == cols,
                    m.rows == rows,
                    m.screen_w == surf@.w,
                    m.screen_h == surf@.h,
                    pg == surf@,
                    sw == surf@.w && sh == surf@.h,
                    pg.wf(),
                    cols * rows <= usize::MAX,
                    25 * cols <= sw + 24,
                    25 * rows <= sh + 24,
                    surf@.w + 19 <= i32::MAX,
                    surf@.h + 19 <= i32::MAX,
                    row < rows,
                    col <= cols,
                    forall|i: int| 0 <= i < cols * rows ==> #[trigger] m.cells@[i] == ((i / (cols as int) < row || (i / (cols as int) == row && i % (cols as int) < col)) && cell_sampled_dirty(pg, i % (cols as int), i / (cols as int))),
                decreases cols - col,
            {
                let x0 = (col * CELL) as i32;
                let y0 = (row * CELL) as i32;
                let mut dirty = false;
                let mut sy: i32 = 0;
                while sy < 5 && !dirty
                    invariant
                        pg == surf@,
                        sw == surf@.w && sh == surf@.h,
                        pg.wf(),
                        surf@.w + 19 <= i32::MAX,
                        surf@.h + 19 <= i32::MAX,
                        col < cols,
                        row < rows,
                        cols * rows <= usize::MAX,
                        25 * cols <= sw + 24,
                        25 * rows <= sh + 24,
                        x0 == 25 * col,
                        y0 == 25 * row,
                        0 <= sy <= 5,
                        dirty ==> cell_sampled_dirty(pg, col as int, row as int),
                        !dirty ==> forall|a: int, b: int| 0 <= a < 5 && 0 <= b < sy ==> !#[trigger] sample_inked(pg, col as int, row as int, a, b),
                    decreases 5 - sy + if dirty { 0int } else { 1int },
                {
                    let mut sx: i32 = 0;
                    while sx < 5 && !dirty
                        invariant
                            pg == surf@,
                            sw == surf@.w && sh == surf@.h,
                            pg.wf(),
                            surf@.w + 19 <= i32::MAX,
                            surf@.h + 19 <= i32::MAX,
                            col < cols,
                            row < rows,
                            cols * rows <= usize::MAX,
                            25 * cols <= sw + 24,
                            25 * rows <= sh + 24,
                            x0 == 25 * col,
                            y0 == 25 * row,
                            0 <= sy < 5,
                            0 <= sx <= 5,
                            dirty ==> cell_sampled_dirty(pg, col as int, row as int),
                            !dirty ==> forall|a: int, b: int| 0 <= a < 5 && 0 <= b < sy ==> !#[trigger] sample_inked(pg, col as int, row as int, a, b),
                            !dirty ==> forall|a: int| 0 <= a < sx ==> !#[trigger] sample_inked(pg, col as int, row as int, a, sy as int),
                        decreases 5 - sx + if dirty { 0int } else { 1int },
                    {
                        assert(sw == surf@.w && sh == surf@.h);
                        let xr = x0 + sx * 5;
                        let yr = y0 + sy * 5;
                        let x = if xr > sw as i32 - 1 { sw as i32 - 1 } else { xr };
                        let y = if yr > sh as i32 - 1 { sh as i32 - 1 } else { yr };
                        if surf.luma(x, y) < 200 {
                            assert(sample_inked(pg, col as int, row as int, sx as int, sy as int));
                            dirty = true;
                        } else {
                            sx = sx + 1;
                        }
                    }
                    if !dirty {
                        sy = sy + 1;
                    }
                }
                proof {
                    lemma_index_bounds(row as int, col as int, cols as int, rows as int);
                    lemma_index(row as int, col as int, cols as int);
                    if !dirty {
                        assert forall|a: int, b: int| 0 <= a < 5 && 0 <= b < 5 implies !#[trigger] sample_inked(pg, col as int, row as int, a, b) by {
                        }
                    }
                }
                let idx = row * cols + col;
                if dirty {
                    m.cells.set(idx, true);
                }
                proof {
                    assert forall|i: int| 0 <= i < cols * rows implies #[trigger] m.cells@[i] == ((i / (cols as int) < row || (i / (cols as int) == row && i % (cols as int) < col + 1)) && cell_sampled_dirty(pg, i % (cols as int), i / (cols as int))) by {
                        lemma_split_index(i, cols as int, rows as int);
                        if i / (cols as int) == row && i % (cols as int) == col {
                            assert(i == idx);
                        }
                    }
                }
                col = col + 1;
            }
            proof {
                if cols == 0 {
                    assert(cols * rows == 0);
                }
                assert forall|i: int| 0 <= i < cols * rows implies #[trigger] m.cells@[i] == (i / (cols as int) < row + 1 && cell_sampled_dirty(pg, i % (cols as int), i / (cols as int))) by {
                    lemma_split_index(i, cols as int, rows as int);
                }
            }
            row = row + 1;
        }
        proof {
            assert forall|col: int, row: int| 0 <= col < m@.cols && 0 <= row < m@.rows implies (#[trigger] m@.is_dirty(col, row) <==> cell_sampled_dirty(surf@, col, row)) by {
                lemma_index_bounds(row, col, cols as int, rows as int);
                lemma_index(row, col, cols as int);
            }
            assert forall|i: int| 0 <= i < cols * rows implies #[trigger] m.cells@[i] == page_grid(pg).dirty[i] by {
                assert(cols > 0) by (nonlinear_arith)
                    requires 0 <= i < cols * rows, rows >= 0;
                lemma_split_index(i, cols as int, rows as int);
            }
            assert(m.cells@ =~= page_grid(pg).dirty);
        }
        m
    }

    /// Dirty cells and total cells: the page's ink coverage as a ratio
    /// (the caller divides; an empty grid has coverage 0).
    pub fn coverage_ratio(&self) -> (r: (usize, usize))
        requires
            self@.shaped(),
        ensures
            r.0 == count_true(self@.dirty),
            r.1 == self@.dirty.len(),
    {
        let mut dirty: usize = 0;
        let mut i: usize = 0;
        while i < self.cells.len()
            invariant
                i <= self.cells@.len(),
                dirty == count_true(self.cells@.subrange(0, i as int)),
                dirty <= i,
            decreases self.cells@.len() - i,
        {
            assert(self.cells@.subrange(0, i as int + 1).drop_last() =~= self.cells@.subrange(0, i as int));
            if self.cells[i] {
                dirty = dirty + 1;
            }
            i = i + 1;
        }
        assert(self.cells@.subrange(0, i as int) =~= self.cells@);
        (dirty, self.cells.len())
    }

    /// An independent copy of this map.
    pub fn duplicate(&self) -> (m: Self)
        ensures
            m@ == self@,
    {
        let mut cells: Vec<bool> = Vec::new();
        let mut i: usize = 0;
        while i < self.cells.len()
            invariant
                i <= self.cells@.len(),
                cells@ == self.cells@.subrange(0, i as int),
            decreases self.cells@.len() - i,
        {
            cells.push(self.cells[i]);
            i = i + 1;
        }
        assert(cells@ =~= self.cells@);
        InkMap { cols: self.cols, rows: self.rows, cells, screen_w: self.screen_w, screen_h: self.screen_h }
    }

    /// Page width in pixels.
    pub fn screen_w(&self) -> (r: usize)
        ensures
            r == self@.screen_w,
    {
        self.screen_w
    }

    /// Page height in pixels.
    pub fn screen_h(&self) -> (r: usize)
        ensures
            r == self@.screen_h,
    {
        self.screen_h
    }
}


// ---- summed-area table over the dirty grid ----

spec fn cell_val(g: InkGrid, r: int, c: int) -> int {
    if g.dirty[r * g.cols + c] { 1 } else { 0 }
}

/// Dirty cells in row `r`, columns `[0, c)`.
spec fn row_prefix(g: InkGrid, r: int, c: int) -> int
    decreases c,
{
    if c <= 0 { 0 } else { row_prefix(g, r, c - 1) + cell_val(g, r, c - 1) }
}

/// Dirty cells in rows `[0, r)`, columns `[0, c)`.
spec fn prefix(g: InkGrid, r: int, c: int) -> int
    decreases r,
{
    if r <= 0 { 0 } else { prefix(g, r - 1, c) + row_prefix(g, r - 1, c) }
}

/// Dirty cells in rows `[r0, r1)`, columns `[c0, c1)`.
spec fn band(g: InkGrid, r0: int, r1: int, c0: int, c1: int) -> int
    decreases r1 - r0,
{
    if r1 <= r0 { 0 } else { band(g, r0, r1 - 1, c0, c1) + row_prefix(g, r1 - 1, c1) - row_prefix(g, r1 - 1, c0) }
}

proof fn lemma_prefix_step(g: InkGrid, r: int, c: int)
    requires
        r >= 0,
        c >= 0,
    ensures
        prefix(g, r + 1, c + 1) == cell_val(g, r, c) + prefix(g, r, c + 1) + prefix(g, r + 1, c) - prefix(g, r, c),
{
    assert(row_prefix(g, r, c + 1) == row_prefix(g, r, c) + cell_val(g, r, c));
}

proof fn lemma_prefix_col0(g: InkGrid, r: int)
    ensures
        prefix(g, r, 0) == 0,
    decreases r,
{
    if r > 0 {
        lemma_prefix_col0(g, r - 1);
    }
}

proof fn lemma_row_prefix_bounds(g: InkGrid, r: int, c: int)
    ensures
        c >= 0 ==> 0 <= row_prefix(g, r, c) <= c,
    decreases c,
{
    if c > 0 {
        lemma_row_prefix_bounds(g, r, c - 1);
    }
}

proof fn lemma_prefix_bounds(g: InkGrid, r: int, c: int)
    requires
        c >= 0,
    ensures
        r >= 0 ==> 0 <= prefix(g, r, c) <= r * c,
    decreases r,
{
    if r > 0 {
        lemma_prefix_bounds(g, r - 1, c);
        lemma_row_prefix_bounds(g, r - 1, c);
        assert((r - 1) * c + c == r * c) by (nonlinear_arith);
    }
}

proof fn lemma_row_prefix_mono(g: InkGrid, r: int, c0: int, c1: int)
    requires
        0 <= c0 <= c1,
    ensures
        row_prefix(g, r, c0) <= row_prefix(g, r, c1),
        row_prefix(g, r, c0) == row_prefix(g, r, c1) <==> forall|c: int| c0 <= c < c1 ==> #[trigger] cell_val(g, r, c) == 0,
    decreases c1 - c0,
{
    if c1 > c0 {
        lemma_row_prefix_mono(g, r, c0, c1 - 1);
        if row_prefix(g, r, c0) == row_prefix(g, r, c1) {
            assert forall|c: int| c0 <= c < c1 implies #[trigger] cell_val(g, r, c) == 0 by {
                if c < c1 - 1 {
                } else {
                }
            }
        }
    }
}

proof fn lemma_band(g: InkGrid, r0: int, r1: int, c0: int, c1: int)
    requires
        0 <= r0 <= r1,
        0 <= c0 <= c1,
    ensures
        band(g, r0, r1, c0, c1) == prefix(g, r1, c1) - prefix(g, r0, c1) - prefix(g, r1, c0) + prefix(g, r0, c0),
        band(g, r0, r1, c0, c1) >= 0,
        band(g, r0, r1, c0, c1) == 0 <==> forall|r: int, c: int|
            r0 <= r < r1 && c0 <= c < c1 ==> #[trigger] cell_val(g, r, c) == 0,
    decreases r1 - r0,
{
    if r1 > r0 {
        lemma_band(g, r0, r1 - 1, c0, c1);
        lemma_row_prefix_mono(g, r1 - 1, c0, c1);
        if band(g, r0, r1, c0, c1) == 0 {
            assert forall|r: int, c: int| r0 <= r < r1 && c0 <= c < c1 implies #[trigger] cell_val(g, r, c) == 0 by {
                if r < r1 - 1 {
                } else {
                }
            }
        } else {
        }
        if forall|r: int, c: int| r0 <= r < r1 && c0 <= c < c1 ==> #[trigger] cell_val(g, r, c) == 0 {
            assert forall|c: int| c0 <= c < c1 implies #[trigger] cell_val(g, r1 - 1, c) == 0 by {
            }
            assert forall|r: int, c: int| r0 <= r < r1 - 1 && c0 <= c < c1 implies #[trigger] cell_val(g, r, c) == 0 by {
            }
        }
    }
}

/// A rectangle's summed-area lookup is zero exactly when its block is clean.
proof fn lemma_rect_clean(g: InkGrid, row0: int, col0: int, gh: int, gw: int)
    requires
        g.wf(),
        0 <= row0,
        0 <= col0,
        0 <= gh,
        0 <= gw,
        row0 + gh <= g.rows,
        col0 + gw <= g.cols,
    ensures
        (prefix(g, row0 + gh, col0 + gw) - prefix(g, row0, col0 + gw) - prefix(g, row0 + gh, col0) + prefix(g, row0, col0) == 0)
            <==> g.block_clean(col0, row0, gw, gh),
{
    lemma_band(g, row0, row0 + gh, col0, col0 + gw);
    if g.block_clean(col0, row0, gw, gh) {
        assert forall|r: int, c: int| row0 <= r < row0 + gh && col0 <= c < col0 + gw implies #[trigger] cell_val(g, r, c) == 0 by {
            assert(!g.is_dirty(c, r));
        }
    }
    if forall|r: int, c: int| row0 <= r < row0 + gh && col0 <= c < col0 + gw ==> #[trigger] cell_val(g, r, c) == 0 {
        assert forall|c: int, r: int| col0 <= c < col0 + gw && row0 <= r < row0 + gh implies !#[trigger] g.is_dirty(c, r) by {
            assert(cell_val(g, r, c) == 0);
        }
    }
}


proof fn lemma_index_unique(a: int, b: int, a2: int, b2: int, w: int)
    requires
        0 <= b < w,
        0 <= b2 < w,
        a * w + b == a2 * w + b2,
    ensures
        a == a2,
        b == b2,
{
    lemma_index(a, b, w);
    lemma_index(a2, b2, w);
}

/// Summed-area table over the dirty grid (dirty = 1), so any candidate
/// rect's cleanliness is an O(1) lookup during the ring search. Entry
/// `r * (cols + 1) + c` holds the dirty count of rows `[0, r)`, cols `[0, c)`.
fn integral_image(m: &InkMap) -> (ii: Vec<i32>)
    requires
        m@.wf(),
    ensures
        ii@.len() == (m@.cols + 1) * (m@.rows + 1),
        forall|r: int, c: int|
            0 <= r <= m@.rows && 0 <= c <= m@.cols ==> #[trigger] ii@[r * (m@.cols + 1) + c] == prefix(m@, r, c),
{
    let ghost g = m@;
    proof {
        lemma_cells_bound(g.screen_w);
        lemma_cells_bound(g.screen_h);
        lemma_grid_size(g.cols, g.rows);
    }
    let cols = m.cols;
    let rows = m.rows;
    let w = cols + 1;
    let n = w * (rows + 1);
    let mut ii: Vec<i32> = vec![0i32; n];
    assert forall|r: int, c: int| 0 <= r <= rows && 0 <= c <= cols && (r == 0 || c == 0) implies #[trigger] ii@[r * w + c] == prefix(g, r, c) by {
        lemma_index_bounds(r, c, w as int, (rows + 1) as int);
        lemma_prefix_col0(g, r);
    }
    let mut row: usize = 0;
    while row < rows
        invariant
            g == m@,
            g.wf(),
            cols == g.cols,
            rows == g.rows,
            w == cols + 1,
            cols <= 20972,
            rows <= 20972,
            cols * rows <= 439825000,
            n == w * (rows + 1),
            n <= 439866945,
            ii@.len() == n,
            row <= rows,
            forall|r: int, c: int|
                0 <= r <= rows && 0 <= c <= cols && (r <= row || c == 0) ==> #[trigger] ii@[r * w + c] == prefix(g, r, c),
        decreases rows - row,
    {
        let mut col: usize = 0;
        while col < cols
            invariant
                g == m@,
                g.wf(),
                cols == g.cols,
                rows == g.rows,
                w == cols + 1,
                cols <= 20972,
                rows <= 20972,
                cols * rows <= 439825000,
                n == w * (rows + 1),
                n <= 439866945,
                ii@.len() == n,
                row < rows,
                col <= cols,
                forall|r: int, c: int|
                    0 <= r <= rows && 0 <= c <= cols && (r <= row || c == 0 || (r == row + 1 && c <= col)) ==> #[trigger] ii@[r * w + c] == prefix(g, r, c),
            decreases cols - col,
        {
            proof {
                lemma_index_bounds(row as int, col as int, cols as int, rows as int);
                lemma_index_bounds(row as int, col as int + 1, w as int, rows as int + 1);
                lemma_index_bounds(row as int + 1, col as int, w as int, rows as int + 1);
                lemma_index_bounds(row as int + 1, col as int + 1, w as int, rows as int + 1);
                lemma_index_bounds(row as int, col as int, w as int, rows as int + 1);
                lemma_prefix_step(g, row as int, col as int);
                lemma_prefix_bounds(g, row as int, col as int + 1);
                lemma_prefix_bounds(g, row as int + 1, col as int);
                lemma_prefix_bounds(g, row as int, col as int);
                assert(row * (col + 1) <= cols * rows) by (nonlinear_arith)
                    requires row < rows, col < cols;
                assert((row + 1) * col <= cols * rows) by (nonlinear_arith)
                    requires row < rows, col < cols;
                assert(ii@[row * w + (col + 1)] == prefix(g, row as int, col + 1));
                assert(ii@[(row + 1) * w + col] == prefix(g, row + 1, col as int));
                assert(ii@[row * w + col] == prefix(g, row as int, col as int));
            }
            let v: i32 = if m.cells[row * cols + col] { 1 } else { 0 };
            let val = v + ii[row * w + (col + 1)] + ii[(row + 1) * w + col] - ii[row * w + col];
            let ghost old_ii = ii@;
            assert(val == prefix(g, row + 1, col + 1));
            ii.set((row + 1) * w + (col + 1), val);
            proof {
                assert forall|r: int, c: int|
                    0 <= r <= rows && 0 <= c <= cols && (r <= row || c == 0 || (r == row + 1 && c <= col + 1)) implies #[trigger] ii@[r * w + c] == prefix(g, r, c) by {
                    lemma_index_bounds(r, c, w as int, rows as int + 1);
                    if r * w + c == (row + 1) * w + (col + 1) {
                        lemma_index_unique(r, c, row as int + 1, col as int + 1, w as int);
                    } else {
                        assert(ii@[r * w + c] == old_ii[r * w + c]);
                        if r == row + 1 && c == col + 1 {
                        }
                    }
                }
            }
            col = col + 1;
        }
        row = row + 1;
    }
    ii
}

/// Dirty count of rows `[row0, row0 + gh)`, cols `[col0, col0 + gw)` via the
/// summed-area table `ii` (stride `iw` = cols + 1). Intermediate terms can go
/// negative (signed on purpose) even though the final sum can't.
fn rect_sum(ii: &Vec<i32>, iw: usize, row0: usize, col0: usize, gh: usize, gw: usize, Ghost(g): Ghost<InkGrid>) -> (s: i32)
    requires
        g.wf(),
        iw == g.cols + 1,
        ii@.len() == (g.cols + 1) * (g.rows + 1),
        forall|r: int, c: int|
            0 <= r <= g.rows && 0 <= c <= g.cols ==> #[trigger] ii@[r * (g.cols + 1) + c] == prefix(g, r, c),
        row0 + gh <= g.rows,
        col0 + gw <= g.cols,
    ensures
        s == 0 <==> g.block_clean(col0 as int, row0 as int, gw as int, gh as int),
{
    proof {
        lemma_cells_bound(g.screen_w);
        lemma_cells_bound(g.screen_h);
        lemma_grid_size(g.cols, g.rows);
    }
    let (row1, col1) = (row0 + gh, col0 + gw);
    proof {
        lemma_index_bounds(row1 as int, col1 as int, iw as int, g.rows + 1);
        lemma_index_bounds(row0 as int, col1 as int, iw as int, g.rows + 1);
        lemma_index_bounds(row1 as int, col0 as int, iw as int, g.rows + 1);
        lemma_index_bounds(row0 as int, col0 as int, iw as int, g.rows + 1);
        lemma_prefix_bounds(g, row1 as int, col1 as int);
        lemma_prefix_bounds(g, row0 as int, col1 as int);
        lemma_prefix_bounds(g, row1 as int, col0 as int);
        lemma_prefix_bounds(g, row0 as int, col0 as int);
        assert(row1 * col1 <= g.cols * g.rows) by (nonlinear_arith)
            requires row1 <= g.rows, col1 <= g.cols, row1 >= 0, col1 >= 0;
        assert(row0 * col1 <= g.cols * g.rows) by (nonlinear_arith)
            requires row0 <= g.rows, col1 <= g.cols, row0 >= 0, col1 >= 0;
        assert(row1 * col0 <= g.cols * g.rows) by (nonlinear_arith)
            requires row1 <= g.rows, col0 <= g.cols, row1 >= 0, col0 >= 0;
        assert(row0 * col0 <= g.cols * g.rows) by (nonlinear_arith)
            requires row0 <= g.rows, col0 <= g.cols, row0 >= 0, col0 >= 0;
        lemma_rect_clean(g, row0 as int, col0 as int, gh as int, gw as int);
    }
    ii[row1 * iw + col1] - ii[row0 * iw + col1] - ii[row1 * iw + col0] + ii[row0 * iw + col0]
}

/// Cells at exactly Chebyshev distance `r` from `(cx, cy)` (the ring's
/// perimeter), in a fixed order — top row, bottom row, then the left/right
/// edges — so the same map and seed always search in the same order.
fn ring(cx: i32, cy: i32, r: i32) -> (out: Vec<(i32, i32)>)
    requires
        -100000 <= cx <= 100000,
        -100000 <= cy <= 100000,
        0 <= r <= 100000,
    ensures
        out@.len() == ring_len(r as int),
        forall|i: int| 0 <= i < out@.len() ==> (#[trigger] out@[i]).0 == ring_at(cx as int, cy as int, r as int, i).0
            && out@[i].1 == ring_at(cx as int, cy as int, r as int, i).1,
{
    if r == 0 {
        let out = vec![(cx, cy)];
        return out;
    }
    let mut out: Vec<(i32, i32)> = Vec::new();
    let mut col = cx - r;
    while col <= cx + r
        invariant
            -100000 <= cx <= 100000,
            -100000 <= cy <= 100000,
            0 < r <= 100000,
            cx - r <= col <= cx + r + 1,
            out@.len() == 2 * (col - (cx - r)),
            forall|i: int| 0 <= i < out@.len() ==> (#[trigger] out@[i]).0 == ring_at(cx as int, cy as int, r as int, i).0
                && out@[i].1 == ring_at(cx as int, cy as int, r as int, i).1,
        decreases cx + r + 1 - col,
    {
        out.push((col, cy - r));
        out.push((col, cy + r));
        col = col + 1;
    }
    let mut row = cy - r + 1;
    while row <= cy + r - 1
        invariant
            -100000 <= cx <= 100000,
            -100000 <= cy <= 100000,
            0 < r <= 100000,
            cy - r + 1 <= row <= cy + r,
            out@.len() == 2 * (2 * r + 1) + 2 * (row - (cy - r + 1)),
            forall|i: int| 0 <= i < out@.len() ==> (#[trigger] out@[i]).0 == ring_at(cx as int, cy as int, r as int, i).0
                && out@[i].1 == ring_at(cx as int, cy as int, r as int, i).1,
        decreases cy + r - row,
    {
        out.push((cx - r, row));
        out.push((cx + r, row));
        row = row + 1;
    }
    out
}


/// Where an anchor-relative card should search from: an explicit point, or
/// "none given" — a caller bug for `NearNewInk`/`NearAnchor` that `resolve`
/// degrades gracefully rather than panicking on.
#[derive(Debug, Clone, Copy, PartialEq, Eq, Structural)]
pub enum Anchor {
    Point(i32, i32),
    /// No anchor given.
    Nowhere,
}

/// Breathing room `resolve` leaves around content placed away from the page
/// edge — what most callers want from `find_spot`.
pub const DEFAULT_MARGIN: i32 = 40;
/// Thickness of the four edge bands `Place::Margin` searches within.
pub const EDGE_BAND: i32 = 120;

/// The page center, where searches without an anchor start.
pub open spec fn center_of(g: InkGrid) -> (int, int) {
    (g.screen_w / 2, g.screen_h / 2)
}

/// The four `Place::Margin` attempts, in try order (top, bottom, left,
/// right): the rect masked dirty on a scratch copy of the grid, and the
/// seed point half a band in from that edge.
pub open spec fn margin_band(g: InkGrid, i: int) -> ((int, int, int, int), (int, int)) {
    let (sw, sh) = (g.screen_w, g.screen_h);
    let (cx, cy) = (sw / 2, sh / 2);
    let half = EDGE_BAND / 2;
    if i == 0 {
        ((0, EDGE_BAND as int, sw, sh - EDGE_BAND), (cx, half as int))
    } else if i == 1 {
        ((0, 0, sw, sh - EDGE_BAND), (cx, sh - half))
    } else if i == 2 {
        ((EDGE_BAND as int, 0, sw - EDGE_BAND, sh), (half as int, cy))
    } else {
        ((0, 0, sw - EDGE_BAND, sh), (sw - half, cy))
    }
}

/// Result of the margin attempt `i` (with `i..4` still to try).
pub open spec fn margin_from(g: InkGrid, w: int, h: int, i: int) -> Option<(int, int)>
    decreases 4 - i,
{
    if i < 0 || i >= 4 {
        None
    } else {
        let ((mx, my, mw, mh), seed) = margin_band(g, i);
        match g.marked(mx, my, mw, mh).spot(w, h, seed, 0) {
            Some(p) => Some(p),
            None => margin_from(g, w, h, i + 1),
        }
    }
}

/// What [`resolve`] returns for this grid and request.
pub open spec fn resolve_spec(g: InkGrid, place: Place, anchor: Anchor, w: int, h: int) -> Option<(int, int)> {
    match place {
        Place::FullPage => Some((0, 0)),
        Place::NearNewInk | Place::NearAnchor => {
            let seed = match anchor {
                Anchor::Point(x, y) => (x as int, y as int),
                Anchor::Nowhere => center_of(g),
            };
            g.spot(w, h, seed, DEFAULT_MARGIN as int)
        },
        Place::BlankArea => g.spot(w, h, center_of(g), DEFAULT_MARGIN as int),
        Place::Margin => margin_from(g, w, h, 0),
    }
}

/// Resolve a card's semantic placement into a concrete top-left pixel.
/// `anchor` is only consulted for `NearNewInk`/`NearAnchor`; every other
/// place picks its own seed. `None` means nothing on the page fits at this
/// size — the caller should retry with a smaller card.
pub fn resolve(map: &InkMap, place: &Place, anchor: Anchor, want_w: i32, want_h: i32) -> (r: Option<(i32, i32)>)
    requires
        map@.wf(),
    ensures
        opt_point(r) == resolve_spec(map@, *place, anchor, want_w as int, want_h as int),
{
    match place {
        Place::FullPage => Some((0, 0)),
        Place::NearNewInk | Place::NearAnchor => {
            let seed = match anchor {
                Anchor::Point(x, y) => (x, y),
                Anchor::Nowhere => screen_center(map),
            };
            map.find_spot(want_w, want_h, seed, DEFAULT_MARGIN)
        },
        Place::BlankArea => map.find_spot(want_w, want_h, screen_center(map), DEFAULT_MARGIN),
        Place::Margin => resolve_margin(map, want_w, want_h),
    }
}

fn screen_center(map: &InkMap) -> (c: (i32, i32))
    requires
        map@.wf(),
    ensures
        c.0 as int == center_of(map@).0,
        c.1 as int == center_of(map@).1,
{
    (map.screen_w as i32 / 2, map.screen_h as i32 / 2)
}

/// `Place::Margin`: search only the four `EDGE_BAND`-px edge bands, tried
/// top -> bottom -> left -> right, first fit wins. For each attempt,
/// everything outside that one band is masked dirty on a throwaway copy,
/// so `find_spot` can't wander into the page interior chasing a "closer"
/// clear cell. Unlike other places this asks `find_spot` for zero breathing
/// margin: edge decorations sit flush against the border, and the page edge
/// is already the boundary — there's no ink there to keep clear of.
///
/// Every band's seed sits `EDGE_BAND / 2` px in from the true page edge —
/// the middle of that band's clear strip — symmetric on all four sides.
fn resolve_margin(map: &InkMap, want_w: i32, want_h: i32) -> (r: Option<(i32, i32)>)
    requires
        map@.wf(),
    ensures
        opt_point(r) == margin_from(map@, want_w as int, want_h as int, 0),
{
    let sw = map.screen_w as i32;
    let sh = map.screen_h as i32;
    let (cx, cy) = (sw / 2, sh / 2);
    let half = EDGE_BAND / 2;
    let bands: [((i32, i32, i32, i32), (i32, i32)); 4] = [
        ((0, EDGE_BAND, sw, sh - EDGE_BAND), (cx, half)),
        ((0, 0, sw, sh - EDGE_BAND), (cx, sh - half)),
        ((EDGE_BAND, 0, sw - EDGE_BAND, sh), (half, cy)),
        ((0, 0, sw - EDGE_BAND, sh), (sw - half, cy)),
    ];
    let mut i: usize = 0;
    while i < 4
        invariant
            map@.wf(),
            i <= 4,
            sw == map@.screen_w,
            sh == map@.screen_h,
            forall|j: int| 0 <= j < 4 ==> {
                let b = #[trigger] bands@[j];
                let sb = margin_band(map@, j);
                &&& b.0.0 as int == sb.0.0
                &&& b.0.1 as int == sb.0.1
                &&& b.0.2 as int == sb.0.2
                &&& b.0.3 as int == sb.0.3
                &&& b.1.0 as int == sb.1.0
                &&& b.1.1 as int == sb.1.1
            },
            margin_from(map@, want_w as int, want_h as int, i as int) == margin_from(map@, want_w as int, want_h as int, 0),
        decreases 4 - i,
    {
        let ((mx, my, mw, mh), seed) = bands[i];
        let mut band = map.duplicate();
        band.mark_rect(mx, my, mw, mh);
        let found = band.find_spot(want_w, want_h, seed, 0);
        if let Some(p) = found {
            return Some(p);
        }
        i = i + 1;
    }
    None
}

// ---- laws of the placement search ----

/// Pixel `(a, b)` lies in the rect with top-left `(x, y)` and size `w` x `h`.
pub open spec fn pixel_in(a: int, b: int, x: int, y: int, w: int, h: int) -> bool {
    x <= a < x + w && y <= b < y + h
}

/// Chebyshev distance between two cells.
pub open spec fn cheb(c0: int, r0: int, c1: int, r1: int) -> int {
    let dx = if c0 >= c1 { c0 - c1 } else { c1 - c0 };
    let dy = if r0 >= r1 { r0 - r1 } else { r1 - r0 };
    max_int(dx, dy)
}

/// Every cell lies on the ring at its Chebyshev distance from the center.
proof fn lemma_on_ring(cx: int, cy: int, c: int, r: int) -> (k: int)
    ensures
        0 <= k < ring_len(cheb(c, r, cx, cy)),
        ring_at(cx, cy, cheb(c, r, cx, cy), k) == (c, r),
{
    let d = cheb(c, r, cx, cy);
    if d == 0 {
        0
    } else if r == cy - d {
        let k = 2 * (c - (cx - d));
        assert(k / 2 == c - (cx - d) && k % 2 == 0);
        k
    } else if r == cy + d {
        let k = 2 * (c - (cx - d)) + 1;
        assert(k / 2 == c - (cx - d) && k % 2 == 1);
        k
    } else {
        let j = 2 * (r - (cy - d + 1)) + if c == cx + d { 1int } else { 0int };
        assert(j / 2 == r - (cy - d + 1));
        assert(j % 2 == if c == cx + d { 1int } else { 0int });
        2 * (2 * d + 1) + j
    }
}

/// A ring cell sits at exactly the ring's Chebyshev distance.
proof fn lemma_ring_dist(cx: int, cy: int, r: int, k: int)
    requires
        r >= 0,
        0 <= k < ring_len(r),
    ensures
        cheb(ring_at(cx, cy, r, k).0, ring_at(cx, cy, r, k).1, cx, cy) == r,
{
    if r > 0 {
        if k < 2 * (2 * r + 1) {
            assert(0 <= k / 2 <= 2 * r);
        } else {
            let j = k - 2 * (2 * r + 1);
            assert(0 <= j / 2 <= 2 * r - 2);
        }
    }
}

/// What the search returns is an acceptable candidate on ring `rr` at or
/// after `(r, k)`, and nothing acceptable comes before it.
proof fn lemma_search_some(g: InkGrid, p: SpotParams, cx: int, cy: int, r: int, k: int, maxr: int)
    requires
        0 <= k,
        g.search_from(p, cx, cy, r, k, maxr) is Some,
    ensures
        exists|rr: int, kk: int| #![trigger ring_at(cx, cy, rr, kk)]
            r <= rr <= maxr && 0 <= kk < ring_len(rr) && (rr > r || kk >= k) && g.candidate_ok(p, ring_at(cx, cy, rr, kk).0, ring_at(cx, cy, rr, kk).1)
                && g.search_from(p, cx, cy, r, k, maxr) == Some((25 * ring_at(cx, cy, rr, kk).0 + p.margin, 25 * ring_at(cx, cy, rr, kk).1 + p.margin))
                && forall|r2: int, k2: int| r <= r2 <= rr && 0 <= k2 < ring_len(r2) && (r2 > r || k2 >= k) && (r2 < rr || k2 < kk)
                    ==> !g.candidate_ok(p, #[trigger] ring_at(cx, cy, r2, k2).0, ring_at(cx, cy, r2, k2).1),
    decreases maxr + 1 - r, ring_len(r) - k,
{
    if r < 0 || r > maxr {
    } else if k < 0 || k >= ring_len(r) {
        lemma_search_some(g, p, cx, cy, r + 1, 0, maxr);
        let (rr, kk) = choose|rr: int, kk: int| #![trigger ring_at(cx, cy, rr, kk)]
            r + 1 <= rr <= maxr && 0 <= kk < ring_len(rr) && (rr > r + 1 || kk >= 0) && g.candidate_ok(p, ring_at(cx, cy, rr, kk).0, ring_at(cx, cy, rr, kk).1)
                && g.search_from(p, cx, cy, r + 1, 0, maxr) == Some((25 * ring_at(cx, cy, rr, kk).0 + p.margin, 25 * ring_at(cx, cy, rr, kk).1 + p.margin))
                && forall|r2: int, k2: int| r + 1 <= r2 <= rr && 0 <= k2 < ring_len(r2) && (r2 > r + 1 || k2 >= 0) && (r2 < rr || k2 < kk)
                    ==> !g.candidate_ok(p, #[trigger] ring_at(cx, cy, r2, k2).0, ring_at(cx, cy, r2, k2).1);
        assert(ring_at(cx, cy, rr, kk) == ring_at(cx, cy, rr, kk));
    } else {
        let cand = ring_at(cx, cy, r, k);
        if g.candidate_ok(p, cand.0, cand.1) {
            assert(ring_at(cx, cy, r, k) == cand);
        } else {
            lemma_search_some(g, p, cx, cy, r, k + 1, maxr);
            let (rr, kk) = choose|rr: int, kk: int| #![trigger ring_at(cx, cy, rr, kk)]
                r <= rr <= maxr && 0 <= kk < ring_len(rr) && (rr > r || kk >= k + 1) && g.candidate_ok(p, ring_at(cx, cy, rr, kk).0, ring_at(cx, cy, rr, kk).1)
                    && g.search_from(p, cx, cy, r, k + 1, maxr) == Some((25 * ring_at(cx, cy, rr, kk).0 + p.margin, 25 * ring_at(cx, cy, rr, kk).1 + p.margin))
                    && forall|r2: int, k2: int| r <= r2 <= rr && 0 <= k2 < ring_len(r2) && (r2 > r || k2 >= k + 1) && (r2 < rr || k2 < kk)
                        ==> !g.candidate_ok(p, #[trigger] ring_at(cx, cy, r2, k2).0, ring_at(cx, cy, r2, k2).1);
            assert(ring_at(cx, cy, rr, kk) == ring_at(cx, cy, rr, kk));
        }
    }
}

/// When the search finds nothing, no candidate from `(r, k)` on is acceptable.
proof fn lemma_search_none(g: InkGrid, p: SpotParams, cx: int, cy: int, r: int, k: int, maxr: int)
    requires
        0 <= k,
        g.search_from(p, cx, cy, r, k, maxr) is None,
    ensures
        forall|r2: int, k2: int| 0 <= r <= r2 <= maxr && 0 <= k2 < ring_len(r2) && (r2 > r || k2 >= k)
            ==> !g.candidate_ok(p, #[trigger] ring_at(cx, cy, r2, k2).0, ring_at(cx, cy, r2, k2).1),
    decreases maxr + 1 - r, ring_len(r) - k,
{
    if r < 0 || r > maxr {
    } else if k < 0 || k >= ring_len(r) {
        lemma_search_none(g, p, cx, cy, r + 1, 0, maxr);
    } else {
        lemma_search_none(g, p, cx, cy, r, k + 1, maxr);
    }
}

/// Law: a spot `find_spot` returns is genuinely free. Some grid cell
/// `(col, row)` is the content's top-left cell: the padded block of
/// `gw` x `gh` cells there lies on the grid and holds no ink, the returned
/// pixel is that cell's corner plus the margin, and the content rect itself
/// ends inside the true page.
pub proof fn law_spot_is_clear(g: InkGrid, want_w: int, want_h: int, seed: (int, int), margin: int)
    requires
        g.wf(),
        g.spot(want_w, want_h, seed, margin) is Some,
    ensures
        ({
            let p = spot_params(want_w, want_h, margin);
            let (px, py) = g.spot(want_w, want_h, seed, margin).unwrap();
            exists|col: int, row: int|
                #[trigger] g.candidate_ok(p, col, row) && px == 25 * col + p.margin && py == 25 * row + p.margin
                    && 0 <= px && px + p.want_w <= g.screen_w && 0 <= py && py + p.want_h <= g.screen_h
        }),
{
    let p = spot_params(want_w, want_h, margin);
    let (cx, cy) = g.seed_cell(seed);
    let maxr = max_int(g.cols, g.rows);
    lemma_search_some(g, p, cx, cy, 0, 0, maxr);
    let (rr, kk) = choose|rr: int, kk: int| #![trigger ring_at(cx, cy, rr, kk)]
        0 <= rr <= maxr && 0 <= kk < ring_len(rr) && (rr > 0 || kk >= 0) && g.candidate_ok(p, ring_at(cx, cy, rr, kk).0, ring_at(cx, cy, rr, kk).1)
            && g.search_from(p, cx, cy, 0, 0, maxr) == Some((25 * ring_at(cx, cy, rr, kk).0 + p.margin, 25 * ring_at(cx, cy, rr, kk).1 + p.margin))
            && forall|r2: int, k2: int| 0 <= r2 <= rr && 0 <= k2 < ring_len(r2) && (r2 > 0 || k2 >= 0) && (r2 < rr || k2 < kk)
                ==> !g.candidate_ok(p, #[trigger] ring_at(cx, cy, r2, k2).0, ring_at(cx, cy, r2, k2).1);
    let (col, row) = ring_at(cx, cy, rr, kk);
    assert(g.candidate_ok(p, col, row));
}

/// Law: `find_spot` answers `None` only when no placement exists anywhere
/// on the page: no grid cell can take the padded block.
pub proof fn law_spot_none_means_page_full(g: InkGrid, want_w: int, want_h: int, seed: (int, int), margin: int)
    requires
        g.wf(),
        g.spot(want_w, want_h, seed, margin) is None,
    ensures
        forall|col: int, row: int| !#[trigger] g.candidate_ok(spot_params(want_w, want_h, margin), col, row),
{
    let p = spot_params(want_w, want_h, margin);
    if g.cols == 0 || g.rows == 0 || p.gw > g.cols || p.gh > g.rows {
    } else {
        let (cx, cy) = g.seed_cell(seed);
        let maxr = max_int(g.cols, g.rows);
        lemma_search_none(g, p, cx, cy, 0, 0, maxr);
        assert forall|col: int, row: int| !#[trigger] g.candidate_ok(p, col, row) by {
            if g.candidate_ok(p, col, row) {
                let k = lemma_on_ring(cx, cy, col, row);
                let d = cheb(col, row, cx, cy);
                assert(d <= maxr);
                assert(!g.candidate_ok(p, ring_at(cx, cy, d, k).0, ring_at(cx, cy, d, k).1));
            }
        }
    }
}

/// Law: the spot is the nearest free one. No acceptable cell lies at a
/// smaller Chebyshev distance from the seed cell than the returned one.
pub proof fn law_spot_is_nearest(g: InkGrid, want_w: int, want_h: int, seed: (int, int), margin: int, col: int, row: int)
    requires
        g.wf(),
        g.spot(want_w, want_h, seed, margin) is Some,
        g.candidate_ok(spot_params(want_w, want_h, margin), col, row),
    ensures
        ({
            let p = spot_params(want_w, want_h, margin);
            let (px, py) = g.spot(want_w, want_h, seed, margin).unwrap();
            let (cx, cy) = g.seed_cell(seed);
            cheb((px - p.margin) / 25, (py - p.margin) / 25, cx, cy) <= cheb(col, row, cx, cy)
        }),
{
    let p = spot_params(want_w, want_h, margin);
    let (cx, cy) = g.seed_cell(seed);
    let maxr = max_int(g.cols, g.rows);
    lemma_search_some(g, p, cx, cy, 0, 0, maxr);
    let (rr, kk) = choose|rr: int, kk: int| #![trigger ring_at(cx, cy, rr, kk)]
        0 <= rr <= maxr && 0 <= kk < ring_len(rr) && (rr > 0 || kk >= 0) && g.candidate_ok(p, ring_at(cx, cy, rr, kk).0, ring_at(cx, cy, rr, kk).1)
            && g.search_from(p, cx, cy, 0, 0, maxr) == Some((25 * ring_at(cx, cy, rr, kk).0 + p.margin, 25 * ring_at(cx, cy, rr, kk).1 + p.margin))
            && forall|r2: int, k2: int| 0 <= r2 <= rr && 0 <= k2 < ring_len(r2) && (r2 > 0 || k2 >= 0) && (r2 < rr || k2 < kk)
                ==> !g.candidate_ok(p, #[trigger] ring_at(cx, cy, r2, k2).0, ring_at(cx, cy, r2, k2).1);
    let (fc, fr) = ring_at(cx, cy, rr, kk);
    lemma_ring_dist(cx, cy, rr, kk);
    let (px, py) = g.spot(want_w, want_h, seed, margin).unwrap();
    assert((px - p.margin) / 25 == fc);
    assert((py - p.margin) / 25 == fr);
    let d = cheb(col, row, cx, cy);
    if d < rr {
        let k = lemma_on_ring(cx, cy, col, row);
        assert(!g.candidate_ok(p, ring_at(cx, cy, d, k).0, ring_at(cx, cy, d, k).1));
    }
}

/// Law: ink that was marked is never placed over. After marking the pixel
/// rect `x, y, w, h`, any spot found on the marked grid gives a content rect
/// that does not overlap the marked rect on the page.
pub proof fn law_marked_rect_is_avoided(g: InkGrid, x: int, y: int, w: int, h: int, want_w: int, want_h: int, seed: (int, int), margin: int)
    requires
        g.wf(),
        w > 0,
        h > 0,
        g.marked(x, y, w, h).spot(want_w, want_h, seed, margin) is Some,
    ensures
        ({
            let p = spot_params(want_w, want_h, margin);
            let (px, py) = g.marked(x, y, w, h).spot(want_w, want_h, seed, margin).unwrap();
            forall|a: int, b: int|
                #[trigger] pixel_in(a, b, px, py, p.want_w, p.want_h) ==> !pixel_in(a, b, x, y, w, h)
        }),
{
    let gm = g.marked(x, y, w, h);
    let p = spot_params(want_w, want_h, margin);
    law_spot_is_clear(gm, want_w, want_h, seed, margin);
    let (px, py) = gm.spot(want_w, want_h, seed, margin).unwrap();
    let (col, row) = choose|col: int, row: int|
        #[trigger] gm.candidate_ok(p, col, row) && px == 25 * col + p.margin && py == 25 * row + p.margin
            && 0 <= px && px + p.want_w <= gm.screen_w && 0 <= py && py + p.want_h <= gm.screen_h;
    assert(25 * p.gw >= p.want_w + 2 * p.margin);
    assert(25 * p.gh >= p.want_h + 2 * p.margin);
    assert forall|a: int, b: int|
        #[trigger] pixel_in(a, b, px, py, p.want_w, p.want_h) implies !pixel_in(a, b, x, y, w, h) by {
        if x <= a < x + w && y <= b < y + h {
            let c = a / 25;
            let r = b / 25;
            assert(col <= c < col + p.gw);
            assert(row <= r < row + p.gh);
            assert(InkGrid::span_touches(x, w, c));
            assert(InkGrid::span_touches(y, h, r));
            lemma_index_bounds(r, c, g.cols, g.rows);
            lemma_index(r, c, g.cols);
            assert(gm.dirty[r * g.cols + c]);
            assert(gm.is_dirty(c, r));
        }
    }
}

proof fn lemma_margin_in_page(g: InkGrid, w: int, h: int, i: int)
    requires
        g.wf(),
    ensures
        margin_from(g, w, h, i) matches Some((x, y)) ==> 0 <= x <= g.screen_w && 0 <= y <= g.screen_h,
    decreases 4 - i,
{
    if 0 <= i < 4 {
        let ((mx, my, mw, mh), seed) = margin_band(g, i);
        let gm = g.marked(mx, my, mw, mh);
        assert(gm.wf());
        if gm.spot(w, h, seed, 0) is Some {
            law_spot_is_clear(gm, w, h, seed, 0);
        } else {
            lemma_margin_in_page(g, w, h, i + 1);
        }
    }
}

/// Law: a spot [`resolve`] picks is a pixel of the page.
pub proof fn law_resolve_in_page(g: InkGrid, place: Place, anchor: Anchor, w: int, h: int)
    requires
        g.wf(),
    ensures
        resolve_spec(g, place, anchor, w, h) matches Some((x, y)) ==> 0 <= x <= g.screen_w && 0 <= y <= g.screen_h,
{
    match place {
        Place::FullPage => {},
        Place::Margin => {
            lemma_margin_in_page(g, w, h, 0);
        },
        Place::BlankArea => {
            if g.spot(w, h, center_of(g), DEFAULT_MARGIN as int) is Some {
                law_spot_is_clear(g, w, h, center_of(g), DEFAULT_MARGIN as int);
            }
        },
        _ => {
            let seed = match anchor {
                Anchor::Point(x, y) => (x as int, y as int),
                Anchor::Nowhere => center_of(g),
            };
            if g.spot(w, h, seed, DEFAULT_MARGIN as int) is Some {
                law_spot_is_clear(g, w, h, seed, DEFAULT_MARGIN as int);
            }
        },
    }
}

/// Law: marking is idempotent — marking a rect a second time changes
/// nothing.
pub proof fn law_mark_idempotent(g: InkGrid, x: int, y: int, w: int, h: int)
    ensures
        g.marked(x, y, w, h).marked(x, y, w, h) == g.marked(x, y, w, h),
{
    assert(g.marked(x, y, w, h).marked(x, y, w, h).dirty =~= g.marked(x, y, w, h).dirty);
}

/// Law: the order in which rects are marked does not matter.
pub proof fn law_mark_commutes(g: InkGrid, a: (int, int, int, int), b: (int, int, int, int))
    ensures
        g.marked(a.0, a.1, a.2, a.3).marked(b.0, b.1, b.2, b.3) == g.marked(b.0, b.1, b.2, b.3).marked(a.0, a.1, a.2, a.3),
{
    assert(g.marked(a.0, a.1, a.2, a.3).marked(b.0, b.1, b.2, b.3).dirty
        =~= g.marked(b.0, b.1, b.2, b.3).marked(a.0, a.1, a.2, a.3).dirty);
}

/// The content rect `x, y, w, h` stands within [`EDGE_BAND`] px of some
/// edge of a `sw` x `sh` page: wholly in the top, bottom, left or right
/// band.
pub open spec fn in_edge_band(x: int, y: int, w: int, h: int, sw: int, sh: int) -> bool {
    ||| y + h <= EDGE_BAND
    ||| y >= sh - EDGE_BAND
    ||| x + w <= EDGE_BAND
    ||| x >= sw - EDGE_BAND
}

proof fn lemma_margin_bands(g: InkGrid, w: int, h: int, i: int)
    requires
        g.wf(),
        w > 0,
        h > 0,
    ensures
        margin_from(g, w, h, i) matches Some((x, y)) ==> {
            &&& 0 <= x && x + w <= g.screen_w
            &&& 0 <= y && y + h <= g.screen_h
            &&& in_edge_band(x, y, w, h, g.screen_w, g.screen_h)
        },
    decreases 4 - i,
{
    if 0 <= i < 4 {
        let ((mx, my, mw, mh), seed) = margin_band(g, i);
        let gm = g.marked(mx, my, mw, mh);
        assert(gm.wf());
        if gm.spot(w, h, seed, 0) is Some {
            law_spot_is_clear(gm, w, h, seed, 0);
            let p = spot_params(w, h, 0);
            let (x, y) = gm.spot(w, h, seed, 0).unwrap();
            assert(p.want_w == w && p.want_h == h);
            let (sw, sh) = (g.screen_w, g.screen_h);
            if mw > 0 && mh > 0 {
                law_marked_rect_is_avoided(g, mx, my, mw, mh, w, h, seed, 0);
                if !in_edge_band(x, y, w, h, sw, sh) {
                    if i == 0 {
                        let b = if y >= EDGE_BAND { y } else { EDGE_BAND as int };
                        assert(pixel_in(x, b, x, y, w, h));
                        assert(pixel_in(x, b, mx, my, mw, mh));
                    } else if i == 1 {
                        assert(pixel_in(x, y, x, y, w, h));
                        assert(pixel_in(x, y, mx, my, mw, mh));
                    } else if i == 2 {
                        let a = if x >= EDGE_BAND { x } else { EDGE_BAND as int };
                        assert(pixel_in(a, y, x, y, w, h));
                        assert(pixel_in(a, y, mx, my, mw, mh));
                    } else {
                        assert(pixel_in(x, y, x, y, w, h));
                        assert(pixel_in(x, y, mx, my, mw, mh));
                    }
                }
            }
        } else {
            lemma_margin_bands(g, w, h, i + 1);
        }
    }
}

/// Law: a card placed in the margin never reaches into the page interior:
/// its whole content rect lies on the page and within [`EDGE_BAND`] px of
/// the top, bottom, left or right edge.
pub proof fn law_margin_stays_in_the_bands(g: InkGrid, anchor: Anchor, w: int, h: int)
    requires
        g.wf(),
        w > 0,
        h > 0,
    ensures
        resolve_spec(g, Place::Margin, anchor, w, h) matches Some((x, y)) ==> {
            &&& 0 <= x && x + w <= g.screen_w
            &&& 0 <= y && y + h <= g.screen_h
            &&& in_edge_band(x, y, w, h, g.screen_w, g.screen_h)
        },
{
    lemma_margin_bands(g, w, h, 0);
}
} // verus!
