//! Tom Riddle's hand, after rasterization: thin a glyph mask to
//! single-pixel pen paths (Zhang-Suen), trace them into ordered strokes,
//! and split reply text into wrap tokens.
use crate::layout::count_true;
use vstd::prelude::*;
use vstd::string::StrSliceExecFns;

verus! {

/// A rasterized line of text.
pub struct Line {
    pub width: usize,
    pub height: usize,
    /// Bit mask of inked pixels, row-major.
    pub mask: Vec<bool>,
}

impl Line {
    pub open spec fn wf(&self) -> bool {
        self.mask@.len() == self.width * self.height
    }
}

/// The eight neighbours of `(x, y)`, clockwise from north:
/// N, NE, E, SE, S, SW, W, NW.
pub open spec fn nbrs(m: Seq<bool>, w: int, x: int, y: int) -> Seq<bool> {
    seq![
        at(m, w, x, y - 1),
        at(m, w, x + 1, y - 1),
        at(m, w, x + 1, y),
        at(m, w, x + 1, y + 1),
        at(m, w, x, y + 1),
        at(m, w, x - 1, y + 1),
        at(m, w, x - 1, y),
        at(m, w, x - 1, y - 1),
    ]
}

/// Pixel `(x, y)` of a row-major mask of width `w`.
pub open spec fn at(m: Seq<bool>, w: int, x: int, y: int) -> bool {
    m[y * w + x]
}

/// Number of set neighbours.
pub open spec fn nb_count(p: Seq<bool>) -> int {
    (if p[0] { 1int } else { 0 }) + (if p[1] { 1int } else { 0 }) + (if p[2] { 1int } else { 0 }) + (if p[3] { 1int } else { 0 })
        + (if p[4] { 1int } else { 0 }) + (if p[5] { 1int } else { 0 }) + (if p[6] { 1int } else { 0 }) + (if p[7] { 1int } else { 0 })
}

/// Number of clear-to-set transitions going once round the neighbours.
pub open spec fn nb_transitions(p: Seq<bool>) -> int {
    (if !p[0] && p[1] { 1int } else { 0 }) + (if !p[1] && p[2] { 1int } else { 0 }) + (if !p[2] && p[3] { 1int } else { 0 })
        + (if !p[3] && p[4] { 1int } else { 0 }) + (if !p[4] && p[5] { 1int } else { 0 }) + (if !p[5] && p[6] { 1int } else { 0 })
        + (if !p[6] && p[7] { 1int } else { 0 }) + (if !p[7] && p[0] { 1int } else { 0 })
}

/// The Zhang-Suen deletion test on the eight neighbours of a set pixel.
pub open spec fn zs_cond(p: Seq<bool>, phase: int) -> bool {
    &&& 2 <= nb_count(p) <= 6
    &&& nb_transitions(p) == 1
    &&& if phase == 0 {
        !(p[0] && p[2] && p[4]) && !(p[2] && p[4] && p[6])
    } else {
        !(p[0] && p[2] && p[6]) && !(p[0] && p[4] && p[6])
    }
}

/// Zhang-Suen: pixel `(x, y)` is deleted in sub-iteration `phase`.
pub open spec fn removable(m: Seq<bool>, w: int, h: int, x: int, y: int, phase: int) -> bool {
    &&& 1 <= x < w - 1
    &&& 1 <= y < h - 1
    &&& at(m, w, x, y)
    &&& zs_cond(nbrs(m, w, x, y), phase)
}

/// [`removable`] for the pixel at flat index `i`.
pub open spec fn removable_at(m: Seq<bool>, w: int, h: int, i: int, phase: int) -> bool {
    removable(m, w, h, i % w, i / w, phase)
}

/// One Zhang-Suen sub-iteration: every removable pixel (judged on the mask
/// as it stood before the sub-iteration) is cleared at once.
pub open spec fn zs_step(m: Seq<bool>, w: int, h: int, phase: int) -> Seq<bool> {
    Seq::new(m.len(), |i: int| m[i] && !removable_at(m, w, h, i, phase))
}

/// A subset of set pixels counts no more, and counts the same only when
/// it is the whole set.
pub proof fn lemma_subset_count(a: Seq<bool>, b: Seq<bool>)
    requires
        a.len() == b.len(),
        forall|i: int| 0 <= i < a.len() && b[i] ==> a[i],
    ensures
        count_true(b) <= count_true(a),
        count_true(b) == count_true(a) ==> a == b,
    decreases a.len(),
{
    if a.len() > 0 {
        lemma_subset_count(a.drop_last(), b.drop_last());
        if count_true(b) == count_true(a) {
            assert(a.drop_last() == b.drop_last());
            assert(a =~= b) by {
                assert forall|i: int| 0 <= i < a.len() implies a[i] == b[i] by {
                    if i < a.len() - 1 {
                        assert(a[i] == a.drop_last()[i]);
                        assert(b[i] == b.drop_last()[i]);
                    }
                }
            }
        }
    }
}

/// The thinned mask: repeat both sub-iterations until a full pass deletes
/// nothing.
pub open spec fn zs_thin(m: Seq<bool>, w: int, h: int) -> Seq<bool>
    decreases count_true(m),
{
    let m1 = zs_step(m, w, h, 0);
    let m2 = zs_step(m1, w, h, 1);
    if m2 == m {
        m
    } else {
        proof {
            lemma_subset_count(m, m1);
            lemma_subset_count(m1, m2);
            if count_true(m2) == count_true(m) {
                lemma_subset_count(m, m2);
            }
        }
        zs_thin(m2, w, h)
    }
}


proof fn lemma_rc(i: int, w: int)
    requires
        w > 0,
        i >= 0,
    ensures
        i == (i / w) * w + i % w,
        0 <= i % w < w,
        i / w >= 0,
{
    vstd::arithmetic::div_mod::lemma_fundamental_div_mod(i, w);
    assert(w * (i / w) == (i / w) * w) by (nonlinear_arith);
    assert(i / w >= 0) by (nonlinear_arith)
        requires i >= 0, w > 0;
}

proof fn lemma_xy(x: int, y: int, w: int)
    requires
        0 <= x < w,
    ensures
        (y * w + x) / w == y,
        (y * w + x) % w == x,
{
    vstd::arithmetic::div_mod::lemma_fundamental_div_mod_converse(y * w + x, w, y, x);
}

fn pixel(mask: &Vec<bool>, w: usize, h: usize, x: usize, y: usize) -> (b: bool)
    requires
        mask@.len() == w * h,
        x < w,
        y < h,
    ensures
        b == at(mask@, w as int, x as int, y as int),
{
    let n = mask.len();
    proof {
        assert(y * w + x < w * h) by (nonlinear_arith)
            requires x < w, y < h;
    }
    mask[y * w + x]
}

#[verifier::spinoff_prover]
#[verifier::rlimit(30)]
fn zs_decide(p0: bool, p1: bool, p2: bool, p3: bool, p4: bool, p5: bool, p6: bool, p7: bool, phase: usize) -> (r: bool)
    ensures
        r == zs_cond(seq![p0, p1, p2, p3, p4, p5, p6, p7], phase as int),
{
    let b: u32 = (if p0 { 1u32 } else { 0 }) + (if p1 { 1u32 } else { 0 }) + (if p2 { 1u32 } else { 0 })
        + (if p3 { 1u32 } else { 0 }) + (if p4 { 1u32 } else { 0 }) + (if p5 { 1u32 } else { 0 })
        + (if p6 { 1u32 } else { 0 }) + (if p7 { 1u32 } else { 0 });
    let a: u32 = (if !p0 && p1 { 1u32 } else { 0 }) + (if !p1 && p2 { 1u32 } else { 0 })
        + (if !p2 && p3 { 1u32 } else { 0 }) + (if !p3 && p4 { 1u32 } else { 0 })
        + (if !p4 && p5 { 1u32 } else { 0 }) + (if !p5 && p6 { 1u32 } else { 0 })
        + (if !p6 && p7 { 1u32 } else { 0 }) + (if !p7 && p0 { 1u32 } else { 0 });
    let (c1, c2) = if phase == 0 {
        (!(p0 && p2 && p4), !(p2 && p4 && p6))
    } else {
        (!(p0 && p2 && p6), !(p0 && p4 && p6))
    };
    let ghost p = seq![p0, p1, p2, p3, p4, p5, p6, p7];
    assert(p[0] == p0 && p[1] == p1 && p[2] == p2 && p[3] == p3);
    assert(p[4] == p4 && p[5] == p5 && p[6] == p6 && p[7] == p7);
    2 <= b && b <= 6 && a == 1 && c1 && c2
}

fn is_removable(mask: &Vec<bool>, w: usize, h: usize, x: usize, y: usize, phase: usize) -> (rem: bool)
    requires
        mask@.len() == w * h,
        1 <= x < w - 1,
        1 <= y < h - 1,
    ensures
        rem == removable(mask@, w as int, h as int, x as int, y as int, phase as int),
{
    if !pixel(mask, w, h, x, y) {
        return false;
    }
    let p0 = pixel(mask, w, h, x, y - 1);
    let p1 = pixel(mask, w, h, x + 1, y - 1);
    let p2 = pixel(mask, w, h, x + 1, y);
    let p3 = pixel(mask, w, h, x + 1, y + 1);
    let p4 = pixel(mask, w, h, x, y + 1);
    let p5 = pixel(mask, w, h, x - 1, y + 1);
    let p6 = pixel(mask, w, h, x - 1, y);
    let p7 = pixel(mask, w, h, x - 1, y - 1);
    let r = zs_decide(p0, p1, p2, p3, p4, p5, p6, p7, phase);
    assert(nbrs(mask@, w as int, x as int, y as int) =~= seq![p0, p1, p2, p3, p4, p5, p6, p7]);
    r
}

/// Indices of the pixels Zhang-Suen sub-iteration `phase` deletes, in
/// row-major order.
fn zs_phase(mask: &Vec<bool>, w: usize, h: usize, phase: usize) -> (to_clear: Vec<usize>)
    requires
        mask@.len() == w * h,
    ensures
        forall|j: int| 0 <= j < to_clear@.len() ==> {
            &&& #[trigger] to_clear@[j] < mask@.len()
            &&& removable_at(mask@, w as int, h as int, to_clear@[j] as int, phase as int)
        },
        forall|i: int| 0 <= i < mask@.len() && #[trigger] removable_at(mask@, w as int, h as int, i, phase as int)
            ==> listed(to_clear@, to_clear@.len() as int, i),
{
    let n = mask.len();
    let mut to_clear: Vec<usize> = Vec::new();
    let hm = if h >= 1 { h - 1 } else { 0 };
    let wm = if w >= 1 { w - 1 } else { 0 };
    let mut y: usize = 1;
    while y < hm
        invariant
            mask@.len() == w * h,
            n == w * h,
            hm == if h >= 1 { h - 1 } else { 0 },
            wm == if w >= 1 { w - 1 } else { 0 },
            1 <= y,
            y <= hm || y == 1,
            forall|j: int| 0 <= j < to_clear@.len() ==> {
                &&& #[trigger] to_clear@[j] < mask@.len()
                &&& removable_at(mask@, w as int, h as int, to_clear@[j] as int, phase as int)
            },
            forall|i: int| 0 <= i < mask@.len() && #[trigger] removable_at(mask@, w as int, h as int, i, phase as int)
                && i / (w as int) < y ==> listed(to_clear@, to_clear@.len() as int, i),
        decreases hm - y,
    {
        let mut x: usize = 1;
        while x < wm
            invariant
                mask@.len() == w * h,
                n == w * h,
                hm == if h >= 1 { h - 1 } else { 0 },
                wm == if w >= 1 { w - 1 } else { 0 },
                1 <= y < hm,
                1 <= x,
                x <= wm || x == 1,
                forall|j: int| 0 <= j < to_clear@.len() ==> {
                    &&& #[trigger] to_clear@[j] < mask@.len()
                    &&& removable_at(mask@, w as int, h as int, to_clear@[j] as int, phase as int)
                },
                forall|i: int| 0 <= i < mask@.len() && #[trigger] removable_at(mask@, w as int, h as int, i, phase as int)
                    && (i / (w as int) < y || (i / (w as int) == y && i % (w as int) < x)) ==> listed(to_clear@, to_clear@.len() as int, i),
            decreases wm - x,
        {
            let rem = is_removable(mask, w, h, x, y, phase);
            let ghost i = y * w + x;
            proof {
                lemma_xy(x as int, y as int, w as int);
                assert(y * w + x < w * h) by (nonlinear_arith)
                    requires x < w, y < h;
            }
            assert(rem == removable(mask@, w as int, h as int, x as int, y as int, phase as int));
            let ghost old_tc = to_clear@;
            if rem {
                to_clear.push(y * w + x);
            }
            proof {
                assert forall|i2: int| 0 <= i2 < mask@.len() && #[trigger] removable_at(mask@, w as int, h as int, i2, phase as int)
                    && (i2 / (w as int) < y || (i2 / (w as int) == y && i2 % (w as int) < x + 1)) implies listed(to_clear@, to_clear@.len() as int, i2) by {
                    lemma_rc(i2, w as int);
                    if i2 / (w as int) == y && i2 % (w as int) == x {
                        assert(i2 == i);
                        assert(to_clear@[to_clear@.len() - 1] as int == i2);
                    } else {
                        assert(listed(old_tc, old_tc.len() as int, i2));
                        let k = choose|k: int| 0 <= k < old_tc.len() && old_tc[k] as int == i2;
                        assert(to_clear@[k] as int == i2);
                    }
                }
            }
            x = x + 1;
        }
        y = y + 1;
    }
    proof {
        assert forall|i: int| 0 <= i < mask@.len() && #[trigger] removable_at(mask@, w as int, h as int, i, phase as int)
            implies listed(to_clear@, to_clear@.len() as int, i) by {
            if w > 0 {
                lemma_rc(i, w as int);
            }
        }
    }
    to_clear
}

/// Some entry before `k` of `tc` is `i`.
pub open spec fn listed(tc: Seq<usize>, k: int, i: int) -> bool {
    exists|j: int| 0 <= j < k && tc[j] as int == i
}

/// One Zhang-Suen sub-iteration in place; reports whether any pixel went.
fn zs_pass(mask: &mut Vec<bool>, w: usize, h: usize, phase: usize) -> (changed: bool)
    requires
        old(mask)@.len() == w * h,
    ensures
        final(mask)@ == zs_step(old(mask)@, w as int, h as int, phase as int),
        changed == (final(mask)@ != old(mask)@),
{
    let to_clear = zs_phase(mask, w, h, phase);
    let ghost m = mask@;
    let mut k: usize = 0;
    while k < to_clear.len()
        invariant
            m == old(mask)@,
            mask@.len() == m.len(),
            k <= to_clear@.len(),
            forall|j: int| 0 <= j < to_clear@.len() ==> {
                &&& #[trigger] to_clear@[j] < m.len()
                &&& removable_at(m, w as int, h as int, to_clear@[j] as int, phase as int)
            },
            forall|i: int| 0 <= i < m.len() ==>
                #[trigger] mask@[i] == (m[i] && !listed(to_clear@, k as int, i)),
        decreases to_clear@.len() - k,
    {
        let i = to_clear[k];
        mask.set(i, false);
        proof {
            assert forall|i2: int| 0 <= i2 < m.len() implies
                #[trigger] mask@[i2] == (m[i2] && !listed(to_clear@, k + 1, i2)) by {
                if i2 == i as int {
                    assert(to_clear@[k as int] as int == i2);
                } else if listed(to_clear@, k + 1, i2) {
                    let j = choose|j: int| 0 <= j < k + 1 && to_clear@[j] as int == i2;
                    assert(j < k);
                }
            }
        }
        k = k + 1;
    }
    proof {
        let z = zs_step(m, w as int, h as int, phase as int);
        assert forall|i: int| 0 <= i < m.len() implies #[trigger] mask@[i] == z[i] by {
            if listed(to_clear@, k as int, i) {
                let j = choose|j: int| 0 <= j < k && to_clear@[j] as int == i;
                assert(removable_at(m, w as int, h as int, to_clear@[j] as int, phase as int));
            } else if removable_at(m, w as int, h as int, i, phase as int) {
                assert(listed(to_clear@, to_clear@.len() as int, i));
            }
        }
        assert(mask@ =~= z);
    }
    let changed = to_clear.len() > 0;
    proof {
        if changed {
            let i = to_clear@[0] as int;
            assert(removable_at(m, w as int, h as int, i, phase as int));
            lemma_rc(i, w as int);
            assert(m[i]);
            assert(listed(to_clear@, k as int, i));
            assert(!mask@[i]);
        } else {
            assert(mask@ =~= m) by {
                assert forall|i: int| 0 <= i < m.len() implies mask@[i] == m[i] by {
                    if m[i] && !mask@[i] {
                        let j = choose|j: int| 0 <= j < k && to_clear@[j] as int == i;
                    }
                }
            }
        }
    }
    changed
}

/// Zhang-Suen thinning: reduce the mask to 1px-wide skeleton lines.
pub fn thin(line: &mut Line)
    requires
        old(line).wf(),
    ensures
        final(line).width == old(line).width,
        final(line).height == old(line).height,
        final(line).mask@ == zs_thin(old(line).mask@, old(line).width as int, old(line).height as int),
{
    let w = line.width;
    let h = line.height;
    let ghost orig = line.mask@;
    loop
        invariant
            line.width == w,
            line.height == h,
            w == old(line).width,
            h == old(line).height,
            orig == old(line).mask@,
            line.mask@.len() == w * h,
            zs_thin(line.mask@, w as int, h as int) == zs_thin(orig, w as int, h as int),
        ensures
            line.width == w,
            line.height == h,
            line.mask@ == zs_thin(orig, w as int, h as int),
        decreases count_true(line.mask@),
    {
        let ghost m0 = line.mask@;
        let c0 = zs_pass(&mut line.mask, w, h, 0);
        let ghost m1 = line.mask@;
        let c1 = zs_pass(&mut line.mask, w, h, 1);
        let ghost m2 = line.mask@;
        proof {
            lemma_subset_count(m0, m1);
            lemma_subset_count(m1, m2);
            if m2 == m0 {
                assert(m1 == m0) by {
                    assert forall|i: int| 0 <= i < m0.len() implies m1[i] == m0[i] by {
                        assert(m2[i] ==> m1[i]);
                    }
                    assert(m1 =~= m0);
                }
            }
            if count_true(m2) == count_true(m0) {
                lemma_subset_count(m0, m2);
            }
        }
        if !c0 && !c1 {
            assert(m2 == m0);
            assert(zs_thin(m0, w as int, h as int) == m0);
            break;
        }
        proof {
            if m2 == m0 {
                assert(m1 == m0);
            }
            assert(m2 != m0);
            assert(zs_thin(m0, w as int, h as int) == zs_thin(m2, w as int, h as int));
        }
    }
}

/// Horizontal step to neighbour slot `k` of the 3x3 block (slot 4 is the
/// pixel itself); slots run row by row from the top-left.
pub open spec fn off_x(k: int) -> int {
    if k == 0 || k == 3 || k == 6 { -1 } else if k == 1 || k == 4 || k == 7 { 0 } else { 1 }
}

/// Vertical step to neighbour slot `k`.
pub open spec fn off_y(k: int) -> int {
    if k < 3 { -1 } else if k < 6 { 0 } else { 1 }
}

/// Pixel `(x, y)` lies on the line and is inked.
pub open spec fn ink(m: Seq<bool>, w: int, h: int, x: int, y: int) -> bool {
    0 <= x < w && 0 <= y < h && at(m, w, x, y)
}

/// Neighbour slot `k` of `(x, y)` is a real neighbour and inked.
pub open spec fn ink_nb(m: Seq<bool>, w: int, h: int, x: int, y: int, k: int) -> bool {
    k != 4 && ink(m, w, h, x + off_x(k), y + off_y(k))
}

/// Inked neighbours among slots `k..9`.
pub open spec fn degree_from(m: Seq<bool>, w: int, h: int, x: int, y: int, k: int) -> int
    decreases 9 - k,
{
    if k >= 9 {
        0
    } else {
        (if ink_nb(m, w, h, x, y, k) { 1int } else { 0 }) + degree_from(m, w, h, x, y, k + 1)
    }
}

/// Number of inked 8-neighbours of `(x, y)`.
pub open spec fn degree(m: Seq<bool>, w: int, h: int, x: int, y: int) -> int {
    degree_from(m, w, h, x, y, 0)
}

/// First slot at or after `k` holding an inked neighbour not yet visited;
/// 9 when there is none.
pub open spec fn next_free(m: Seq<bool>, vis: Seq<bool>, w: int, h: int, x: int, y: int, k: int) -> int
    decreases 9 - k,
{
    if k >= 9 {
        9
    } else if ink_nb(m, w, h, x, y, k) && !vis[(y + off_y(k)) * w + x + off_x(k)] {
        k
    } else {
        next_free(m, vis, w, h, x, y, k + 1)
    }
}

/// Walk from `(x, y)`, always stepping to the first unvisited inked
/// neighbour, until none is left. Returns the path and the visited marks.
pub open spec fn walk(m: Seq<bool>, vis: Seq<bool>, w: int, h: int, x: int, y: int, path: Seq<(i32, i32)>)
    -> (Seq<(i32, i32)>, Seq<bool>)
    decreases vis.len() - count_true(vis),
    when vis.len() == w * h && w >= 0 && h >= 0
{
    let k = next_free(m, vis, w, h, x, y, 0);
    if k >= 9 || k < 0 {
        (path, vis)
    } else {
        let nx = x + off_x(k);
        let ny = y + off_y(k);
        proof {
            lemma_next_free(m, vis, w, h, x, y, 0);
            lemma_cell_index(nx, ny, w, h);
            lemma_count_set(vis, ny * w + nx);
        }
        walk(m, vis.update(ny * w + nx, true), w, h, nx, ny, path.push((nx as i32, ny as i32)))
    }
}

/// The trace scan: first every endpoint (exactly one inked neighbour), then
/// every inked pixel, each in row-major order; an unvisited start begins a
/// walk, and walks of three or more pixels become strokes.
pub open spec fn scan(m: Seq<bool>, vis: Seq<bool>, w: int, h: int, pass: int, i: int, strokes: Seq<Seq<(i32, i32)>>)
    -> Seq<Seq<(i32, i32)>>
    decreases 2 - pass, w * h - i,
    when vis.len() == w * h && w > 0 && h >= 0 && 0 <= i <= w * h && pass >= 0
{
    if pass >= 2 {
        strokes
    } else if i >= w * h {
        scan(m, vis, w, h, pass + 1, 0, strokes)
    } else {
        let x = i % w;
        let y = i / w;
        if m[i] && !vis[i] && (pass == 1 || degree(m, w, h, x, y) == 1) {
            let (p, v2) = walk(m, vis.update(i, true), w, h, x, y, seq![(x as i32, y as i32)]);
            proof {
                lemma_walk_len(m, vis.update(i, true), w, h, x, y, seq![(x as i32, y as i32)]);
            }
            scan(m, v2, w, h, pass, i + 1, if p.len() >= 3 { strokes.push(p) } else { strokes })
        } else {
            scan(m, vis, w, h, pass, i + 1, strokes)
        }
    }
}

pub proof fn lemma_count_le(s: Seq<bool>)
    ensures
        count_true(s) <= s.len(),
    decreases s.len(),
{
    if s.len() > 0 {
        lemma_count_le(s.drop_last());
    }
}

/// Marking one more entry raises the count by one.
pub proof fn lemma_count_set(s: Seq<bool>, j: int)
    requires
        0 <= j < s.len(),
        !s[j],
    ensures
        count_true(s.update(j, true)) == count_true(s) + 1,
        count_true(s.update(j, true)) <= s.len(),
    decreases s.len(),
{
    let t = s.update(j, true);
    if j == s.len() - 1 {
        assert(t.drop_last() =~= s.drop_last());
    } else {
        lemma_count_set(s.drop_last(), j);
        assert(t.drop_last() =~= s.drop_last().update(j, true));
    }
    lemma_count_le(t);
}

pub proof fn lemma_cell_index(x: int, y: int, w: int, h: int)
    requires
        0 <= x < w,
        0 <= y < h,
    ensures
        0 <= y * w + x < w * h,
{
    assert(0 <= y * w + x < w * h) by (nonlinear_arith)
        requires 0 <= x < w, 0 <= y < h;
}

/// A slot that [`next_free`] reports holds an inked, unvisited neighbour.
pub proof fn lemma_next_free(m: Seq<bool>, vis: Seq<bool>, w: int, h: int, x: int, y: int, k: int)
    requires
        0 <= k <= 9,
    ensures
        k <= next_free(m, vis, w, h, x, y, k) <= 9,
        next_free(m, vis, w, h, x, y, k) < 9 ==> {
            let j = next_free(m, vis, w, h, x, y, k);
            &&& ink_nb(m, w, h, x, y, j)
            &&& !vis[(y + off_y(j)) * w + x + off_x(j)]
        },
    decreases 9 - k,
{
    if k < 9 {
        lemma_next_free(m, vis, w, h, x, y, k + 1);
    }
}

/// A walk keeps its path, so it is never shorter than where it began.
pub proof fn lemma_walk_len(m: Seq<bool>, vis: Seq<bool>, w: int, h: int, x: int, y: int, path: Seq<(i32, i32)>)
    requires
        vis.len() == w * h,
        w >= 0,
        h >= 0,
    ensures
        walk(m, vis, w, h, x, y, path).0.len() >= path.len(),
        walk(m, vis, w, h, x, y, path).1.len() == vis.len(),
    decreases vis.len() - count_true(vis),
{
    let k = next_free(m, vis, w, h, x, y, 0);
    lemma_next_free(m, vis, w, h, x, y, 0);
    if k < 9 {
        let nx = x + off_x(k);
        let ny = y + off_y(k);
        lemma_cell_index(nx, ny, w, h);
        lemma_count_set(vis, ny * w + nx);
        lemma_walk_len(m, vis.update(ny * w + nx, true), w, h, nx, ny, path.push((nx as i32, ny as i32)));
    }
}

/// Smallest x on a stroke (0 for an empty one): the key strokes are
/// ordered by.
pub open spec fn min_x(s: Seq<(i32, i32)>) -> int
    decreases s.len(),
{
    if s.len() == 0 {
        0
    } else if s.len() == 1 {
        s[0].0 as int
    } else {
        let r = min_x(s.drop_last());
        if (s.last().0 as int) < r { s.last().0 as int } else { r }
    }
}

/// Insert `e` after every stroke whose key is at most its own.
pub open spec fn ins_by_key(sorted: Seq<Seq<(i32, i32)>>, e: Seq<(i32, i32)>) -> Seq<Seq<(i32, i32)>>
    decreases sorted.len(),
{
    if sorted.len() == 0 {
        seq![e]
    } else if min_x(sorted.last()) <= min_x(e) {
        sorted.push(e)
    } else {
        ins_by_key(sorted.drop_last(), e).push(sorted.last())
    }
}

/// Stable sort of strokes by [`min_x`].
pub open spec fn sort_by_min_x(s: Seq<Seq<(i32, i32)>>) -> Seq<Seq<(i32, i32)>>
    decreases s.len(),
{
    if s.len() == 0 {
        s
    } else {
        ins_by_key(sort_by_min_x(s.drop_last()), s.last())
    }
}

/// What [`trace`] returns for a `w` x `h` mask `m`.
pub open spec fn traced(m: Seq<bool>, w: int, h: int) -> Seq<Seq<(i32, i32)>> {
    if w > 0 {
        sort_by_min_x(scan(m, Seq::new((w * h) as nat, |i: int| false), w, h, 0, 0, Seq::empty()))
    } else {
        Seq::empty()
    }
}

/// The point sequences of a vector of strokes.
pub open spec fn deep(v: Seq<Vec<(i32, i32)>>) -> Seq<Seq<(i32, i32)>> {
    v.map_values(|s: Vec<(i32, i32)>| s@)
}

/// Inserting at position `j` (past every key at most `e`'s, before every
/// larger one) is [`ins_by_key`].
proof fn lemma_ins_at(sorted: Seq<Seq<(i32, i32)>>, e: Seq<(i32, i32)>, j: int)
    requires
        0 <= j <= sorted.len(),
        forall|t: int| j <= t < sorted.len() ==> min_x(#[trigger] sorted[t]) > min_x(e),
        j > 0 ==> min_x(sorted[j - 1]) <= min_x(e),
    ensures
        ins_by_key(sorted, e) == sorted.insert(j, e),
    decreases sorted.len(),
{
    if sorted.len() == 0 {
        assert(sorted.insert(j, e) =~= seq![e]);
    } else if min_x(sorted.last()) <= min_x(e) {
        assert(j == sorted.len());
        assert(sorted.insert(j, e) =~= sorted.push(e));
    } else {
        assert(j < sorted.len());
        let d = sorted.drop_last();
        assert forall|t: int| j <= t < d.len() implies min_x(#[trigger] d[t]) > min_x(e) by {
            assert(d[t] == sorted[t]);
        }
        lemma_ins_at(d, e, j);
        assert(sorted.insert(j, e) =~= d.insert(j, e).push(sorted.last()));
    }
}

fn min_x_of(p: &Vec<(i32, i32)>) -> (r: i32)
    ensures
        r as int == min_x(p@),
{
    if p.len() == 0 {
        return 0;
    }
    let mut r: i32 = p[0].0;
    let mut i: usize = 1;
    while i < p.len()
        invariant
            1 <= i <= p@.len(),
            r as int == min_x(p@.subrange(0, i as int)),
        decreases p@.len() - i,
    {
        assert(p@.subrange(0, i as int + 1).drop_last() =~= p@.subrange(0, i as int));
        if p[i].0 < r {
            r = p[i].0;
        }
        i = i + 1;
    }
    assert(p@.subrange(0, i as int) =~= p@);
    r
}

/// Insert a stroke into the key-ordered list, after every stroke whose key
/// is at most its own.
fn insert_stroke(sorted: &mut Vec<Vec<(i32, i32)>>, keys: &mut Vec<i32>, p: Vec<(i32, i32)>)
    requires
        old(keys)@.len() == old(sorted)@.len(),
        forall|t: int| 0 <= t < old(keys)@.len() ==> #[trigger] old(keys)@[t] as int == min_x(old(sorted)@[t]@),
    ensures
        deep(final(sorted)@) == ins_by_key(deep(old(sorted)@), p@),
        final(keys)@.len() == final(sorted)@.len(),
        forall|t: int| 0 <= t < final(keys)@.len() ==> #[trigger] final(keys)@[t] as int == min_x(final(sorted)@[t]@),
{
    let key = min_x_of(&p);
    let mut j: usize = sorted.len();
    while j > 0 && keys[j - 1] > key
        invariant
            keys@.len() == sorted@.len(),
            keys@ == old(keys)@,
            sorted@ == old(sorted)@,
            j <= sorted@.len(),
            forall|t: int| j <= t < sorted@.len() ==> #[trigger] keys@[t] > key,
        decreases j,
    {
        j = j - 1;
    }
    let ghost before = deep(sorted@);
    let ghost pv = p@;
    proof {
        assert forall|t: int| j <= t < before.len() implies min_x(#[trigger] before[t]) > min_x(pv) by {
            assert(keys@[t] as int == min_x(sorted@[t]@));
        }
        if j > 0 {
            assert(keys@[j - 1] as int == min_x(sorted@[j - 1]@));
        }
        lemma_ins_at(before, pv, j as int);
    }
    sorted.insert(j, p);
    keys.insert(j, key);
    proof {
        assert(deep(sorted@) =~= before.insert(j as int, pv));
    }
}

/// Neighbour slot `k` of `(x, y)` when it is a real neighbour on the line.
fn nb_cell(w: usize, h: usize, x: usize, y: usize, k: usize) -> (r: Option<(usize, usize)>)
    requires
        x < w,
        y < h,
        k < 9,
    ensures
        r is Some <==> (k != 4 && 0 <= x + off_x(k as int) < w && 0 <= y + off_y(k as int) < h),
        r matches Some((nx, ny)) ==> nx == x + off_x(k as int) && ny == y + off_y(k as int),
{
    if k == 4 {
        return None;
    }
    let nx = if k == 0 || k == 3 || k == 6 {
        if x == 0 { return None; }
        x - 1
    } else if k == 1 || k == 7 {
        x
    } else {
        if x + 1 >= w { return None; }
        x + 1
    };
    let ny = if k < 3 {
        if y == 0 { return None; }
        y - 1
    } else if k < 6 {
        y
    } else {
        if y + 1 >= h { return None; }
        y + 1
    };
    Some((nx, ny))
}

fn degree_of(mask: &Vec<bool>, w: usize, h: usize, x: usize, y: usize) -> (d: usize)
    requires
        mask@.len() == w * h,
        x < w,
        y < h,
    ensures
        d == degree(mask@, w as int, h as int, x as int, y as int),
{
    let mut d: usize = 0;
    let mut k: usize = 0;
    while k < 9
        invariant
            mask@.len() == w * h,
            x < w,
            y < h,
            k <= 9,
            d <= k,
            d + degree_from(mask@, w as int, h as int, x as int, y as int, k as int)
                == degree(mask@, w as int, h as int, x as int, y as int),
        decreases 9 - k,
    {
        if let Some((nx, ny)) = nb_cell(w, h, x, y, k) {
            if pixel(mask, w, h, nx, ny) {
                d = d + 1;
            }
        }
        k = k + 1;
    }
    d
}

fn next_free_of(mask: &Vec<bool>, vis: &Vec<bool>, w: usize, h: usize, x: usize, y: usize) -> (k: usize)
    requires
        mask@.len() == w * h,
        vis@.len() == w * h,
        x < w,
        y < h,
    ensures
        k == next_free(mask@, vis@, w as int, h as int, x as int, y as int, 0),
{
    let mut k: usize = 0;
    while k < 9
        invariant
            mask@.len() == w * h,
            vis@.len() == w * h,
            x < w,
            y < h,
            k <= 9,
            next_free(mask@, vis@, w as int, h as int, x as int, y as int, k as int)
                == next_free(mask@, vis@, w as int, h as int, x as int, y as int, 0),
        decreases 9 - k,
    {
        if let Some((nx, ny)) = nb_cell(w, h, x, y, k) {
            let n = mask.len();
            proof {
                lemma_cell_index(nx as int, ny as int, w as int, h as int);
            }
            if pixel(mask, w, h, nx, ny) && !vis[ny * w + nx] {
                return k;
            }
        }
        k = k + 1;
    }
    9
}

/// Walk from `(x, y)` (already marked visited) along unvisited inked
/// neighbours, first free slot first.
fn walk_from(mask: &Vec<bool>, vis: &mut Vec<bool>, w: usize, h: usize, x: usize, y: usize) -> (path: Vec<(i32, i32)>)
    requires
        mask@.len() == w * h,
        old(vis)@.len() == w * h,
        x < w,
        y < h,
        w <= i32::MAX,
        h <= i32::MAX,
    ensures
        (path@, final(vis)@) == walk(mask@, old(vis)@, w as int, h as int, x as int, y as int, seq![(x as i32, y as i32)]),
{
    let mut path: Vec<(i32, i32)> = Vec::new();
    path.push((x as i32, y as i32));
    let mut cx = x;
    let mut cy = y;
    loop
        invariant
            mask@.len() == w * h,
            vis@.len() == w * h,
            cx < w,
            cy < h,
            w <= i32::MAX,
            h <= i32::MAX,
            walk(mask@, vis@, w as int, h as int, cx as int, cy as int, path@)
                == walk(mask@, old(vis)@, w as int, h as int, x as int, y as int, seq![(x as i32, y as i32)]),
        ensures
            (path@, vis@) == walk(mask@, old(vis)@, w as int, h as int, x as int, y as int, seq![(x as i32, y as i32)]),
        decreases vis@.len() - count_true(vis@),
    {
        let k = next_free_of(mask, vis, w, h, cx, cy);
        proof {
            lemma_next_free(mask@, vis@, w as int, h as int, cx as int, cy as int, 0);
        }
        if k >= 9 {
            break;
        }
        let (nx, ny) = match nb_cell(w, h, cx, cy, k) {
            Some(c) => c,
            None => { break; }
        };
        let ghost v0 = vis@;
        let ghost p0 = path@;
        let n = mask.len();
        proof {
            lemma_cell_index(nx as int, ny as int, w as int, h as int);
            lemma_count_set(v0, ny * w + nx);
        }
        vis.set(ny * w + nx, true);
        path.push((nx as i32, ny as i32));
        proof {
            assert(walk(mask@, v0, w as int, h as int, cx as int, cy as int, p0)
                == walk(mask@, vis@, w as int, h as int, nx as int, ny as int, path@));
        }
        cx = nx;
        cy = ny;
    }
    path
}

/// Trace the skeleton into polyline strokes, ordered left-to-right so the
/// animation writes like a hand.
pub fn trace(line: &Line) -> (strokes: Vec<Vec<(i32, i32)>>)
    requires
        line.wf(),
        line.width <= i32::MAX,
        line.height <= i32::MAX,
    ensures
        deep(strokes@) == traced(line.mask@, line.width as int, line.height as int),
{
    let w = line.width;
    let h = line.height;
    let mut sorted: Vec<Vec<(i32, i32)>> = Vec::new();
    if w == 0 {
        proof {
            assert(deep(sorted@) =~= Seq::<Seq<(i32, i32)>>::empty());
        }
        return sorted;
    }
    let n = line.mask.len();
    let mask = &line.mask;
    let mut vis: Vec<bool> = Vec::new();
    while vis.len() < n
        invariant
            vis@.len() <= n,
            forall|t: int| 0 <= t < vis@.len() ==> !#[trigger] vis@[t],
        decreases n - vis@.len(),
    {
        vis.push(false);
    }
    let ghost m = mask@;
    let ghost wi = w as int;
    let ghost hi = h as int;
    let ghost target = scan(m, vis@, wi, hi, 0, 0, Seq::empty());
    proof {
        assert(vis@ =~= Seq::new((wi * hi) as nat, |i: int| false));
    }
    let ghost mut acc: Seq<Seq<(i32, i32)>> = Seq::empty();
    let mut keys: Vec<i32> = Vec::new();
    let mut pass: usize = 0;
    while pass < 2
        invariant
            m == mask@,
            m.len() == wi * hi,
            n == m.len(),
            wi == w,
            hi == h,
            w > 0,
            w <= i32::MAX,
            h <= i32::MAX,
            vis@.len() == n,
            pass <= 2,
            scan(m, vis@, wi, hi, pass as int, 0, acc) == target,
            deep(sorted@) == sort_by_min_x(acc),
            keys@.len() == sorted@.len(),
            forall|t: int| 0 <= t < keys@.len() ==> #[trigger] keys@[t] as int == min_x(sorted@[t]@),
        decreases 2 - pass,
    {
        let mut i: usize = 0;
        let mut x: usize = 0;
        let mut y: usize = 0;
        while i < n
            invariant
                m == mask@,
                m.len() == wi * hi,
                n == m.len(),
                wi == w,
                hi == h,
                w > 0,
                w <= i32::MAX,
                h <= i32::MAX,
                vis@.len() == n,
                pass < 2,
                i <= n,
                x < w,
                i == y * w + x,
                scan(m, vis@, wi, hi, pass as int, i as int, acc) == target,
                deep(sorted@) == sort_by_min_x(acc),
                keys@.len() == sorted@.len(),
                forall|t: int| 0 <= t < keys@.len() ==> #[trigger] keys@[t] as int == min_x(sorted@[t]@),
            decreases n - i,
        {
            proof {
                lemma_xy(x as int, y as int, wi);
                assert(y < h) by (nonlinear_arith)
                    requires i == y * w + x, i < n, n == w * h, x < w;
            }
            let start = mask[i] && !vis[i] && (pass == 1 || degree_of(mask, w, h, x, y) == 1);
            if start {
                let ghost v0 = vis@;
                vis.set(i, true);
                let p = walk_from(mask, &mut vis, w, h, x, y);
                proof {
                    lemma_walk_len(m, v0.update(i as int, true), wi, hi, x as int, y as int, seq![(x as i32, y as i32)]);
                }
                if p.len() >= 3 {
                    proof {
                        assert(sort_by_min_x(acc.push(p@)) == ins_by_key(sort_by_min_x(acc), p@)) by {
                            assert(acc.push(p@).drop_last() =~= acc);
                        }
                        acc = acc.push(p@);
                    }
                    insert_stroke(&mut sorted, &mut keys, p);
                }
            }
            i = i + 1;
            x = x + 1;
            if x == w {
                proof {
                    assert((y + 1) * w == y * w + w) by (nonlinear_arith);
                }
                x = 0;
                y = y + 1;
            }
        }
        pass = pass + 1;
    }
    proof {
        assert(scan(m, vis@, wi, hi, 2, 0, acc) == acc);
    }
    sorted
}

/// Every point of the stroke is an inked pixel of the `w` x `h` mask `m`.
pub open spec fn stroke_on_ink(s: Seq<(i32, i32)>, m: Seq<bool>, w: int, h: int) -> bool {
    forall|j: int| 0 <= j < s.len() ==> {
        let p = #[trigger] s[j];
        &&& 0 <= p.0 < w
        &&& 0 <= p.1 < h
        &&& at(m, w, p.0 as int, p.1 as int)
    }
}

/// Every stroke lies on ink.
pub open spec fn strokes_on_ink(ss: Seq<Seq<(i32, i32)>>, m: Seq<bool>, w: int, h: int) -> bool {
    forall|i: int| 0 <= i < ss.len() ==> stroke_on_ink(#[trigger] ss[i], m, w, h)
}

proof fn lemma_walk_on_ink(m: Seq<bool>, vis: Seq<bool>, w: int, h: int, x: int, y: int, path: Seq<(i32, i32)>)
    requires
        vis.len() == w * h,
        0 <= w <= i32::MAX,
        0 <= h <= i32::MAX,
        stroke_on_ink(path, m, w, h),
    ensures
        stroke_on_ink(walk(m, vis, w, h, x, y, path).0, m, w, h),
    decreases vis.len() - count_true(vis),
{
    let k = next_free(m, vis, w, h, x, y, 0);
    lemma_next_free(m, vis, w, h, x, y, 0);
    if k < 9 {
        let nx = x + off_x(k);
        let ny = y + off_y(k);
        lemma_cell_index(nx, ny, w, h);
        lemma_count_set(vis, ny * w + nx);
        let p2 = path.push((nx as i32, ny as i32));
        assert(stroke_on_ink(p2, m, w, h)) by {
            assert forall|j: int| 0 <= j < p2.len() implies {
                let p = #[trigger] p2[j];
                &&& 0 <= p.0 < w
                &&& 0 <= p.1 < h
                &&& at(m, w, p.0 as int, p.1 as int)
            } by {
                if j < path.len() {
                    assert(p2[j] == path[j]);
                }
            }
        }
        lemma_walk_on_ink(m, vis.update(ny * w + nx, true), w, h, nx, ny, p2);
    }
}

proof fn lemma_scan_on_ink(m: Seq<bool>, vis: Seq<bool>, w: int, h: int, pass: int, i: int, strokes: Seq<Seq<(i32, i32)>>)
    requires
        vis.len() == w * h,
        m.len() == w * h,
        0 < w <= i32::MAX,
        0 <= h <= i32::MAX,
        0 <= i <= w * h,
        pass >= 0,
        strokes_on_ink(strokes, m, w, h),
    ensures
        strokes_on_ink(scan(m, vis, w, h, pass, i, strokes), m, w, h),
    decreases 2 - pass, w * h - i,
{
    if pass >= 2 {
    } else if i >= w * h {
        lemma_scan_on_ink(m, vis, w, h, pass + 1, 0, strokes);
    } else {
        let x = i % w;
        let y = i / w;
        lemma_rc(i, w);
        if m[i] && !vis[i] && (pass == 1 || degree(m, w, h, x, y) == 1) {
            let v1 = vis.update(i, true);
            let start = seq![(x as i32, y as i32)];
            assert(y < h) by (nonlinear_arith)
                requires i == y * w + x, i < w * h, 0 <= x < w, y >= 0;
            assert(stroke_on_ink(start, m, w, h)) by {
                assert(start[0] == (x as i32, y as i32));
            }
            lemma_walk_on_ink(m, v1, w, h, x, y, start);
            lemma_walk_len(m, v1, w, h, x, y, start);
            let (p, v2) = walk(m, v1, w, h, x, y, start);
            let next = if p.len() >= 3 { strokes.push(p) } else { strokes };
            assert(strokes_on_ink(next, m, w, h)) by {
                assert forall|k: int| 0 <= k < next.len() implies stroke_on_ink(#[trigger] next[k], m, w, h) by {
                    if k < strokes.len() {
                        assert(next[k] == strokes[k]);
                    }
                }
            }
            lemma_scan_on_ink(m, v2, w, h, pass, i + 1, next);
        } else {
            lemma_scan_on_ink(m, vis, w, h, pass, i + 1, strokes);
        }
    }
}

proof fn lemma_ins_on_ink(sorted: Seq<Seq<(i32, i32)>>, e: Seq<(i32, i32)>, m: Seq<bool>, w: int, h: int)
    requires
        strokes_on_ink(sorted, m, w, h),
        stroke_on_ink(e, m, w, h),
    ensures
        strokes_on_ink(ins_by_key(sorted, e), m, w, h),
    decreases sorted.len(),
{
    if sorted.len() > 0 {
        let d = sorted.drop_last();
        assert(strokes_on_ink(d, m, w, h)) by {
            assert forall|k: int| 0 <= k < d.len() implies stroke_on_ink(#[trigger] d[k], m, w, h) by {
                assert(d[k] == sorted[k]);
            }
        }
        lemma_ins_on_ink(d, e, m, w, h);
        let r = ins_by_key(sorted, e);
        if min_x(sorted.last()) <= min_x(e) {
            assert forall|k: int| 0 <= k < r.len() implies stroke_on_ink(#[trigger] r[k], m, w, h) by {
                if k < sorted.len() {
                    assert(r[k] == sorted[k]);
                }
            }
        } else {
            let r0 = ins_by_key(d, e);
            assert forall|k: int| 0 <= k < r.len() implies stroke_on_ink(#[trigger] r[k], m, w, h) by {
                if k < r0.len() {
                    assert(r[k] == r0[k]);
                } else {
                    assert(r[k] == sorted.last());
                }
            }
        }
    }
}

proof fn lemma_sort_on_ink(s: Seq<Seq<(i32, i32)>>, m: Seq<bool>, w: int, h: int)
    requires
        strokes_on_ink(s, m, w, h),
    ensures
        strokes_on_ink(sort_by_min_x(s), m, w, h),
    decreases s.len(),
{
    if s.len() > 0 {
        let d = s.drop_last();
        assert(strokes_on_ink(d, m, w, h)) by {
            assert forall|k: int| 0 <= k < d.len() implies stroke_on_ink(#[trigger] d[k], m, w, h) by {
                assert(d[k] == s[k]);
            }
        }
        lemma_sort_on_ink(d, m, w, h);
        assert(stroke_on_ink(s.last(), m, w, h)) by {
            assert(s.last() == s[s.len() - 1]);
        }
        lemma_ins_on_ink(sort_by_min_x(d), s.last(), m, w, h);
    }
}

/// Every point [`trace`] returns is an inked pixel of the line.
pub proof fn law_traced_points_inked(m: Seq<bool>, w: int, h: int)
    requires
        m.len() == w * h,
        0 <= w <= i32::MAX,
        0 <= h <= i32::MAX,
    ensures
        strokes_on_ink(traced(m, w, h), m, w, h),
{
    if w > 0 {
        let v = Seq::new((w * h) as nat, |i: int| false);
        assert(w * h >= 0) by (nonlinear_arith)
            requires w > 0, h >= 0;
        lemma_scan_on_ink(m, v, w, h, 0, 0, Seq::empty());
        lemma_sort_on_ink(scan(m, v, w, h, 0, 0, Seq::empty()), m, w, h);
    }
}

/// Thinning keeps the mask's size.
pub proof fn lemma_zs_thin_len(m: Seq<bool>, w: int, h: int)
    ensures
        zs_thin(m, w, h).len() == m.len(),
    decreases count_true(m),
{
    let m1 = zs_step(m, w, h, 0);
    let m2 = zs_step(m1, w, h, 1);
    if m2 != m {
        lemma_subset_count(m, m1);
        lemma_subset_count(m1, m2);
        if count_true(m2) == count_true(m) {
            lemma_subset_count(m, m2);
        }
        lemma_zs_thin_len(m2, w, h);
    }
}

/// Thinning only erases: every pixel of the skeleton was inked before.
pub proof fn law_thin_only_erases(m: Seq<bool>, w: int, h: int)
    ensures
        zs_thin(m, w, h).len() == m.len(),
        forall|i: int| 0 <= i < m.len() && #[trigger] zs_thin(m, w, h)[i] ==> m[i],
    decreases count_true(m),
{
    lemma_zs_thin_len(m, w, h);
    let m1 = zs_step(m, w, h, 0);
    let m2 = zs_step(m1, w, h, 1);
    if m2 != m {
        lemma_subset_count(m, m1);
        lemma_subset_count(m1, m2);
        if count_true(m2) == count_true(m) {
            lemma_subset_count(m, m2);
        }
        law_thin_only_erases(m2, w, h);
        assert forall|i: int| 0 <= i < m.len() && #[trigger] zs_thin(m, w, h)[i] implies m[i] by {
            assert(zs_thin(m, w, h) == zs_thin(m2, w, h));
            assert(m2[i] ==> m1[i]);
        }
    }
}

/// Thinning a skeleton again changes nothing.
pub proof fn law_thin_idempotent(m: Seq<bool>, w: int, h: int)
    ensures
        zs_thin(zs_thin(m, w, h), w, h) == zs_thin(m, w, h),
    decreases count_true(m),
{
    let m1 = zs_step(m, w, h, 0);
    let m2 = zs_step(m1, w, h, 1);
    if m2 != m {
        lemma_subset_count(m, m1);
        lemma_subset_count(m1, m2);
        if count_true(m2) == count_true(m) {
            lemma_subset_count(m, m2);
        }
        law_thin_idempotent(m2, w, h);
    }
}

/// Han, Kana, Hangul and CJK punctuation: scripts that put no spaces
/// between words, so a line may break after any of their characters.
pub open spec fn cjk(c: char) -> bool {
    let v = c as u32;
    ||| 0x2E80 <= v <= 0x2FFF
    ||| 0x3000 <= v <= 0x303F
    ||| 0x3040 <= v <= 0x30FF
    ||| 0x3100 <= v <= 0x312F
    ||| 0x31A0 <= v <= 0x31BF
    ||| 0x31F0 <= v <= 0x31FF
    ||| 0x3400 <= v <= 0x4DBF
    ||| 0x4E00 <= v <= 0x9FFF
    ||| 0xAC00 <= v <= 0xD7AF
    ||| 0xF900 <= v <= 0xFAFF
    ||| 0xFE30 <= v <= 0xFE4F
    ||| 0xFF00 <= v <= 0xFFEF
    ||| 0x20000 <= v <= 0x323AF
}

/// True for Han, Kana, Hangul and CJK punctuation. These scripts normally
/// do not put spaces between words and therefore provide a break after
/// each character.
pub fn is_cjk(c: char) -> (r: bool)
    ensures
        r == cjk(c),
{
    let v = c as u32;
    (0x2E80 <= v && v <= 0x2FFF) || (0x3000 <= v && v <= 0x303F) || (0x3040 <= v && v <= 0x30FF)
        || (0x3100 <= v && v <= 0x312F) || (0x31A0 <= v && v <= 0x31BF) || (0x31F0 <= v && v <= 0x31FF)
        || (0x3400 <= v && v <= 0x4DBF) || (0x4E00 <= v && v <= 0x9FFF) || (0xAC00 <= v && v <= 0xD7AF)
        || (0xF900 <= v && v <= 0xFAFF) || (0xFE30 <= v && v <= 0xFE4F) || (0xFF00 <= v && v <= 0xFFEF)
        || (0x20000 <= v && v <= 0x323AF)
}

/// Unicode's White_Space property.
pub open spec fn white_space(c: char) -> bool {
    let v = c as u32;
    ||| 0x09 <= v <= 0x0D
    ||| v == 0x20
    ||| v == 0x85
    ||| v == 0xA0
    ||| v == 0x1680
    ||| 0x2000 <= v <= 0x200A
    ||| v == 0x2028
    ||| v == 0x2029
    ||| v == 0x202F
    ||| v == 0x205F
    ||| v == 0x3000
}

/// `c` has Unicode's White_Space property.
pub fn is_white_space(c: char) -> (r: bool)
    ensures
        r == white_space(c),
{
    let v = c as u32;
    (0x09 <= v && v <= 0x0D) || v == 0x20 || v == 0x85 || v == 0xA0 || v == 0x1680 || (0x2000 <= v && v <= 0x200A)
        || v == 0x2028 || v == 0x2029 || v == 0x202F || v == 0x205F || v == 0x3000
}

/// A unit the wrapper will not split: a word, or one CJK character, and
/// whether whitespace preceded it.
pub struct WrapToken {
    pub text: String,
    pub space_before: bool,
}

/// Tokenizer state: tokens so far, the word being gathered, whether
/// whitespace preceded that word, and whether whitespace is pending.
pub ghost struct TokState {
    pub out: Seq<(Seq<char>, bool)>,
    pub word: Seq<char>,
    pub word_space: bool,
    pub pending: bool,
}

/// The state with the gathered word (if any) emitted.
pub open spec fn flush(st: TokState) -> TokState {
    if st.word.len() > 0 {
        TokState { out: st.out.push((st.word, st.word_space)), word: Seq::empty(), ..st }
    } else {
        st
    }
}

/// One character through the tokenizer.
pub open spec fn tok_step(st: TokState, c: char) -> TokState {
    if white_space(c) {
        TokState { pending: true, ..flush(st) }
    } else if cjk(c) {
        let f = flush(st);
        TokState { out: f.out.push((seq![c], f.pending)), pending: false, ..f }
    } else if st.word.len() == 0 {
        TokState { word: seq![c], word_space: st.pending, pending: false, ..st }
    } else {
        TokState { word: st.word.push(c), ..st }
    }
}

/// The tokenizer after the characters of `s`.
pub open spec fn tok_run(s: Seq<char>) -> TokState
    decreases s.len(),
{
    if s.len() == 0 {
        TokState { out: Seq::empty(), word: Seq::empty(), word_space: false, pending: false }
    } else {
        tok_step(tok_run(s.drop_last()), s.last())
    }
}

/// The wrap tokens of a paragraph: words and single CJK characters, each
/// with whether whitespace came before it.
pub open spec fn tokens_of(s: Seq<char>) -> Seq<(Seq<char>, bool)> {
    flush(tok_run(s)).out
}

/// The views of wrap tokens.
pub open spec fn tokens_view(v: Seq<WrapToken>) -> Seq<(Seq<char>, bool)> {
    v.map_values(|t: WrapToken| (t.text@, t.space_before))
}

/// Split a paragraph into wrap tokens: runs of non-space non-CJK
/// characters are words, every CJK character stands alone.
pub fn tokens(para: &str) -> (r: Vec<WrapToken>)
    ensures
        tokens_view(r@) == tokens_of(para@),
{
    let n = para.unicode_len();
    let mut out: Vec<WrapToken> = Vec::new();
    let mut start: usize = 0;
    let mut in_word = false;
    let mut word_space = false;
    let mut pending = false;
    let mut i: usize = 0;
    while i < n
        invariant
            n == para@.len(),
            i <= n,
            start <= i,
            in_word ==> start < i,
            ({
                let st = tok_run(para@.take(i as int));
                &&& tokens_view(out@) == st.out
                &&& st.word == (if in_word { para@.subrange(start as int, i as int) } else { Seq::empty() })
                &&& in_word ==> st.word_space == word_space
                &&& st.pending == pending
            }),
        decreases n - i,
    {
        let c = para.get_char(i);
        let ghost st0 = tok_run(para@.take(i as int));
        assert(para@.take(i + 1).drop_last() =~= para@.take(i as int));
        assert(para@.take(i + 1).last() == c);
        if is_white_space(c) {
            if in_word {
                let t = para.substring_char(start, i).to_owned();
                let ghost o = out@;
                out.push(WrapToken { text: t, space_before: word_space });
                assert(tokens_view(out@) =~= o.map_values(|t: WrapToken| (t.text@, t.space_before)).push((t@, word_space)));
            }
            in_word = false;
            pending = true;
        } else if is_cjk(c) {
            if in_word {
                let t = para.substring_char(start, i).to_owned();
                let ghost o = out@;
                out.push(WrapToken { text: t, space_before: word_space });
                assert(tokens_view(out@) =~= o.map_values(|t: WrapToken| (t.text@, t.space_before)).push((t@, word_space)));
            }
            in_word = false;
            let one = para.substring_char(i, i + 1).to_owned();
            assert(one@ =~= seq![c]);
            let ghost o = out@;
            out.push(WrapToken { text: one, space_before: pending });
            assert(tokens_view(out@) =~= o.map_values(|t: WrapToken| (t.text@, t.space_before)).push((one@, pending)));
            pending = false;
        } else {
            if !in_word {
                start = i;
                in_word = true;
                word_space = pending;
                pending = false;
                assert(para@.subrange(start as int, i + 1) =~= seq![c]);
            } else {
                assert(para@.subrange(start as int, i + 1) =~= para@.subrange(start as int, i as int).push(c));
            }
        }
        i = i + 1;
    }
    assert(para@.take(n as int) =~= para@);
    if in_word {
        let t = para.substring_char(start, n).to_owned();
        let ghost o = out@;
        out.push(WrapToken { text: t, space_before: word_space });
        assert(tokens_view(out@) =~= o.map_values(|t: WrapToken| (t.text@, t.space_before)).push((t@, word_space)));
    }
    out
}

/// Full-width closing marks (and the ellipsis and dash) that belong at the
/// end of the line before them.
pub open spec fn closing_mark(c: char) -> bool {
    let v = c as u32;
    ||| v == 0xFF0C || v == 0x3002 || v == 0xFF01 || v == 0xFF1F || v == 0xFF1B || v == 0xFF1A
    ||| v == 0x3001 || v == 0xFF09 || v == 0x3011 || v == 0x300B || v == 0x3009 || v == 0x300D
    ||| v == 0x300F || v == 0x3015 || v == 0xFF3D || v == 0xFF5D || v == 0x2026 || v == 0x2014
}

/// Full-width opening brackets and quotes, never stranded at a line end.
pub open spec fn opening_mark(c: char) -> bool {
    let v = c as u32;
    ||| v == 0xFF08 || v == 0x3010 || v == 0x300A || v == 0x3008 || v == 0x300C
    ||| v == 0x300E || v == 0x3014 || v == 0xFF3B || v == 0xFF5B
}

/// A token that is a single closing mark.
pub fn is_closing_punctuation(text: &str) -> (r: bool)
    ensures
        r == (text@.len() == 1 && closing_mark(text@[0])),
{
    if text.unicode_len() != 1 {
        return false;
    }
    let v = text.get_char(0) as u32;
    v == 0xFF0C || v == 0x3002 || v == 0xFF01 || v == 0xFF1F || v == 0xFF1B || v == 0xFF1A || v == 0x3001
        || v == 0xFF09 || v == 0x3011 || v == 0x300B || v == 0x3009 || v == 0x300D || v == 0x300F || v == 0x3015
        || v == 0xFF3D || v == 0xFF5D || v == 0x2026 || v == 0x2014
}

/// `c` opens a bracket or quote.
pub fn is_opening_punctuation(c: char) -> (r: bool)
    ensures
        r == opening_mark(c),
{
    let v = c as u32;
    v == 0xFF08 || v == 0x3010 || v == 0x300A || v == 0x3008 || v == 0x300C || v == 0x300E || v == 0x3014
        || v == 0xFF3B || v == 0xFF5B
}

/// Strokes ordered by their smallest x, left to right.
pub open spec fn left_to_right(s: Seq<Seq<(i32, i32)>>) -> bool {
    forall|i: int, j: int| 0 <= i <= j < s.len() ==> min_x(#[trigger] s[i]) <= min_x(#[trigger] s[j])
}

proof fn lemma_ins_members(s: Seq<Seq<(i32, i32)>>, e: Seq<(i32, i32)>)
    ensures
        ins_by_key(s, e).len() == s.len() + 1,
        forall|k: int| 0 <= k < ins_by_key(s, e).len() ==> #[trigger] ins_by_key(s, e)[k] == e || s.contains(ins_by_key(s, e)[k]),
    decreases s.len(),
{
    let r = ins_by_key(s, e);
    if s.len() == 0 {
    } else if min_x(s.last()) <= min_x(e) {
        assert forall|k: int| 0 <= k < r.len() implies #[trigger] r[k] == e || s.contains(r[k]) by {
            if k < s.len() {
                assert(r[k] == s[k]);
            }
        }
    } else {
        let d = s.drop_last();
        lemma_ins_members(d, e);
        let r0 = ins_by_key(d, e);
        assert forall|k: int| 0 <= k < r.len() implies #[trigger] r[k] == e || s.contains(r[k]) by {
            if k < r0.len() {
                assert(r[k] == r0[k]);
                if r0[k] != e {
                    let t = choose|t: int| 0 <= t < d.len() && d[t] == r0[k];
                    assert(s[t] == d[t]);
                }
            } else {
                assert(r[k] == s[s.len() - 1]);
            }
        }
    }
}

proof fn lemma_ins_sorted(s: Seq<Seq<(i32, i32)>>, e: Seq<(i32, i32)>)
    requires
        left_to_right(s),
    ensures
        left_to_right(ins_by_key(s, e)),
    decreases s.len(),
{
    let r = ins_by_key(s, e);
    if s.len() == 0 {
    } else if min_x(s.last()) <= min_x(e) {
        assert forall|i: int, j: int| 0 <= i <= j < r.len() implies min_x(#[trigger] r[i]) <= min_x(#[trigger] r[j]) by {
            if j < s.len() {
                assert(r[i] == s[i] && r[j] == s[j]);
            } else if i < s.len() {
                assert(r[i] == s[i]);
                assert(min_x(s[i]) <= min_x(s[s.len() - 1]));
            }
        }
    } else {
        let d = s.drop_last();
        assert(left_to_right(d)) by {
            assert forall|i: int, j: int| 0 <= i <= j < d.len() implies min_x(#[trigger] d[i]) <= min_x(#[trigger] d[j]) by {
                assert(d[i] == s[i] && d[j] == s[j]);
            }
        }
        lemma_ins_sorted(d, e);
        lemma_ins_members(d, e);
        let r0 = ins_by_key(d, e);
        let last = s[s.len() - 1];
        assert forall|i: int, j: int| 0 <= i <= j < r.len() implies min_x(#[trigger] r[i]) <= min_x(#[trigger] r[j]) by {
            if j < r0.len() {
                assert(r[i] == r0[i] && r[j] == r0[j]);
            } else if i < r0.len() {
                assert(r[j] == last);
                assert(r[i] == r0[i]);
                if r0[i] != e {
                    let t = choose|t: int| 0 <= t < d.len() && d[t] == r0[i];
                    assert(d[t] == s[t]);
                    assert(min_x(s[t]) <= min_x(s[s.len() - 1]));
                }
            }
        }
    }
}

proof fn lemma_sort_props(s: Seq<Seq<(i32, i32)>>)
    ensures
        left_to_right(sort_by_min_x(s)),
        sort_by_min_x(s).len() == s.len(),
        forall|k: int| 0 <= k < sort_by_min_x(s).len() ==> s.contains(#[trigger] sort_by_min_x(s)[k]),
    decreases s.len(),
{
    if s.len() > 0 {
        let d = s.drop_last();
        lemma_sort_props(d);
        lemma_ins_sorted(sort_by_min_x(d), s.last());
        lemma_ins_members(sort_by_min_x(d), s.last());
        let r = sort_by_min_x(s);
        assert forall|k: int| 0 <= k < r.len() implies s.contains(#[trigger] r[k]) by {
            if r[k] == s.last() {
                assert(s[s.len() - 1] == r[k]);
            } else {
                let t = choose|t: int| 0 <= t < sort_by_min_x(d).len() && sort_by_min_x(d)[t] == r[k];
                let u = choose|u: int| 0 <= u < d.len() && d[u] == sort_by_min_x(d)[t];
                assert(s[u] == d[u]);
            }
        }
    }
}

/// Every stroke has at least three points.
pub open spec fn all_long(ss: Seq<Seq<(i32, i32)>>) -> bool {
    forall|i: int| 0 <= i < ss.len() ==> (#[trigger] ss[i]).len() >= 3
}

proof fn lemma_scan_long(m: Seq<bool>, vis: Seq<bool>, w: int, h: int, pass: int, i: int, strokes: Seq<Seq<(i32, i32)>>)
    requires
        vis.len() == w * h,
        0 < w,
        0 <= h,
        0 <= i <= w * h,
        pass >= 0,
        all_long(strokes),
    ensures
        all_long(scan(m, vis, w, h, pass, i, strokes)),
    decreases 2 - pass, w * h - i,
{
    if pass >= 2 {
    } else if i >= w * h {
        lemma_scan_long(m, vis, w, h, pass + 1, 0, strokes);
    } else {
        let x = i % w;
        let y = i / w;
        if m[i] && !vis[i] && (pass == 1 || degree(m, w, h, x, y) == 1) {
            let v1 = vis.update(i, true);
            let start = seq![(x as i32, y as i32)];
            lemma_walk_len(m, v1, w, h, x, y, start);
            let (p, v2) = walk(m, v1, w, h, x, y, start);
            let next = if p.len() >= 3 { strokes.push(p) } else { strokes };
            assert(all_long(next)) by {
                assert forall|k: int| 0 <= k < next.len() implies (#[trigger] next[k]).len() >= 3 by {
                    if k < strokes.len() {
                        assert(next[k] == strokes[k]);
                    }
                }
            }
            lemma_scan_long(m, v2, w, h, pass, i + 1, next);
        } else {
            lemma_scan_long(m, vis, w, h, pass, i + 1, strokes);
        }
    }
}

/// Law: [`trace`] writes like a hand — strokes come left to right (by each
/// stroke's leftmost point), and specks shorter than three pixels are
/// never strokes.
pub proof fn law_traced_left_to_right(m: Seq<bool>, w: int, h: int)
    requires
        m.len() == w * h,
        0 <= w,
        0 <= h,
    ensures
        left_to_right(traced(m, w, h)),
        all_long(traced(m, w, h)),
{
    if w > 0 {
        let v = Seq::new((w * h) as nat, |i: int| false);
        assert(w * h >= 0) by (nonlinear_arith)
            requires w > 0, h >= 0;
        let sc = scan(m, v, w, h, 0, 0, Seq::empty());
        lemma_scan_long(m, v, w, h, 0, 0, Seq::empty());
        lemma_sort_props(sc);
        let r = sort_by_min_x(sc);
        assert forall|k: int| 0 <= k < r.len() implies (#[trigger] r[k]).len() >= 3 by {
            let t = choose|t: int| 0 <= t < sc.len() && sc[t] == r[k];
        }
    }
}

/// Two points are 8-neighbours: distinct, at most one step apart in x and
/// in y.
pub open spec fn neighbours(a: (i32, i32), b: (i32, i32)) -> bool {
    &&& a != b
    &&& -1 <= a.0 - b.0 <= 1
    &&& -1 <= a.1 - b.1 <= 1
}

/// Each point of the stroke is an 8-neighbour of the one before it.
pub open spec fn connected(s: Seq<(i32, i32)>) -> bool {
    forall|j: int| 0 < j < s.len() ==> neighbours(#[trigger] s[j], s[j - 1])
}

/// No point occurs twice in the stroke.
pub open spec fn distinct_pts(s: Seq<(i32, i32)>) -> bool {
    forall|i: int, j: int| 0 <= i < j < s.len() ==> #[trigger] s[i] != #[trigger] s[j]
}

/// The two strokes share no point.
pub open spec fn disjoint(a: Seq<(i32, i32)>, b: Seq<(i32, i32)>) -> bool {
    forall|i: int, j: int| 0 <= i < a.len() && 0 <= j < b.len() ==> #[trigger] a[i] != #[trigger] b[j]
}

/// No pixel is used twice: not within a stroke, nor by two strokes.
pub open spec fn no_repeats(ss: Seq<Seq<(i32, i32)>>) -> bool {
    &&& forall|k: int| 0 <= k < ss.len() ==> distinct_pts(#[trigger] ss[k])
    &&& forall|k1: int, k2: int| 0 <= k1 < ss.len() && 0 <= k2 < ss.len() && k1 != k2 ==> disjoint(#[trigger] ss[k1], #[trigger] ss[k2])
}

/// Every stroke is connected.
pub open spec fn all_connected(ss: Seq<Seq<(i32, i32)>>) -> bool {
    forall|k: int| 0 <= k < ss.len() ==> connected(#[trigger] ss[k])
}

/// Every point lies on the grid and is marked in `vis`.
spec fn marked_in(s: Seq<(i32, i32)>, vis: Seq<bool>, w: int, h: int) -> bool {
    forall|j: int| 0 <= j < s.len() ==> {
        let p = #[trigger] s[j];
        &&& 0 <= p.0 < w
        &&& 0 <= p.1 < h
        &&& vis[p.1 * w + p.0]
    }
}

/// No point is marked in `vis`.
spec fn unmarked_in(s: Seq<(i32, i32)>, vis: Seq<bool>, w: int) -> bool {
    forall|j: int| 0 <= j < s.len() ==> !vis[(#[trigger] s[j]).1 * w + s[j].0]
}

/// Whatever `a` marks, `b` marks too.
spec fn grows(a: Seq<bool>, b: Seq<bool>) -> bool {
    &&& a.len() == b.len()
    &&& forall|i: int| 0 <= i < a.len() && #[trigger] a[i] ==> b[i]
}

proof fn lemma_walk_shape(m: Seq<bool>, vis0: Seq<bool>, vis: Seq<bool>, w: int, h: int, x: int, y: int, path: Seq<(i32, i32)>)
    requires
        vis.len() == w * h,
        0 < w <= i32::MAX,
        0 <= h <= i32::MAX,
        0 <= x < w,
        0 <= y < h,
        path.len() > 0,
        path.last() == (x as i32, y as i32),
        connected(path),
        distinct_pts(path),
        marked_in(path, vis, w, h),
        unmarked_in(path, vis0, w),
        grows(vis0, vis),
    ensures
        ({
            let (p, v2) = walk(m, vis, w, h, x, y, path);
            &&& connected(p)
            &&& distinct_pts(p)
            &&& marked_in(p, v2, w, h)
            &&& unmarked_in(p, vis0, w)
            &&& grows(vis, v2)
        }),
    decreases vis.len() - count_true(vis),
{
    let k = next_free(m, vis, w, h, x, y, 0);
    lemma_next_free(m, vis, w, h, x, y, 0);
    if k < 9 {
        let nx = x + off_x(k);
        let ny = y + off_y(k);
        lemma_cell_index(nx, ny, w, h);
        lemma_count_set(vis, ny * w + nx);
        let idx = ny * w + nx;
        let np = (nx as i32, ny as i32);
        let v1 = vis.update(idx, true);
        let p2 = path.push(np);
        assert(neighbours(np, (x as i32, y as i32)));
        assert(connected(p2)) by {
            assert forall|j: int| 0 < j < p2.len() implies neighbours(#[trigger] p2[j], p2[j - 1]) by {
                if j < path.len() {
                    assert(p2[j] == path[j] && p2[j - 1] == path[j - 1]);
                } else {
                    assert(p2[j - 1] == path.last());
                }
            }
        }
        assert(distinct_pts(p2)) by {
            assert forall|i: int, j: int| 0 <= i < j < p2.len() implies #[trigger] p2[i] != #[trigger] p2[j] by {
                assert(p2[i] == path[i]);
                if j < path.len() {
                    assert(p2[j] == path[j]);
                } else {
                    let q = path[i];
                    assert(vis[q.1 * w + q.0]);
                }
            }
        }
        assert(marked_in(p2, v1, w, h)) by {
            assert forall|j: int| 0 <= j < p2.len() implies {
                let p = #[trigger] p2[j];
                &&& 0 <= p.0 < w
                &&& 0 <= p.1 < h
                &&& v1[p.1 * w + p.0]
            } by {
                if j < path.len() {
                    assert(p2[j] == path[j]);
                    let q = path[j];
                    lemma_cell_index(q.0 as int, q.1 as int, w, h);
                }
            }
        }
        assert(unmarked_in(p2, vis0, w)) by {
            assert forall|j: int| 0 <= j < p2.len() implies !vis0[(#[trigger] p2[j]).1 * w + p2[j].0] by {
                if j < path.len() {
                    assert(p2[j] == path[j]);
                } else {
                    if vis0[idx] {
                        assert(vis[idx]);
                    }
                }
            }
        }
        lemma_walk_shape(m, vis0, v1, w, h, nx, ny, p2);
        let v2 = walk(m, v1, w, h, nx, ny, p2).1;
        assert(walk(m, vis, w, h, x, y, path) == walk(m, v1, w, h, nx, ny, p2));
        assert forall|j: int| 0 <= j < vis.len() && #[trigger] vis[j] implies v2[j] by {
            assert(v1[j]);
        }
    }
}

proof fn lemma_scan_shape(m: Seq<bool>, vis: Seq<bool>, w: int, h: int, pass: int, i: int, strokes: Seq<Seq<(i32, i32)>>)
    requires
        vis.len() == w * h,
        0 < w <= i32::MAX,
        0 <= h <= i32::MAX,
        0 <= i <= w * h,
        pass >= 0,
        all_connected(strokes),
        no_repeats(strokes),
        forall|k: int| 0 <= k < strokes.len() ==> marked_in(#[trigger] strokes[k], vis, w, h),
    ensures
        all_connected(scan(m, vis, w, h, pass, i, strokes)),
        no_repeats(scan(m, vis, w, h, pass, i, strokes)),
    decreases 2 - pass, w * h - i,
{
    if pass >= 2 {
    } else if i >= w * h {
        lemma_scan_shape(m, vis, w, h, pass + 1, 0, strokes);
    } else {
        let x = i % w;
        let y = i / w;
        lemma_rc(i, w);
        if m[i] && !vis[i] && (pass == 1 || degree(m, w, h, x, y) == 1) {
            let v1 = vis.update(i, true);
            let start = seq![(x as i32, y as i32)];
            assert(y < h) by (nonlinear_arith)
                requires i == y * w + x, i < w * h, 0 <= x < w, y >= 0;
            assert(start[0] == (x as i32, y as i32));
            assert(marked_in(start, v1, w, h));
            assert(unmarked_in(start, vis, w));
            lemma_walk_len(m, v1, w, h, x, y, start);
            lemma_walk_shape(m, vis, v1, w, h, x, y, start);
            let (p, v2) = walk(m, v1, w, h, x, y, start);
            let next = if p.len() >= 3 { strokes.push(p) } else { strokes };
            assert forall|k: int| 0 <= k < strokes.len() implies marked_in(#[trigger] strokes[k], v2, w, h) by {
                assert forall|j: int| 0 <= j < strokes[k].len() implies {
                    let q = #[trigger] strokes[k][j];
                    &&& 0 <= q.0 < w
                    &&& 0 <= q.1 < h
                    &&& v2[q.1 * w + q.0]
                } by {
                    let q = strokes[k][j];
                    assert(vis[q.1 * w + q.0]);
                    lemma_cell_index(q.0 as int, q.1 as int, w, h);
                    assert(v1[q.1 * w + q.0]);
                }
            }
            if p.len() >= 3 {
                assert forall|k: int| 0 <= k < strokes.len() implies disjoint(#[trigger] strokes[k], p) && disjoint(p, strokes[k]) by {
                    assert forall|a: int, b: int| 0 <= a < strokes[k].len() && 0 <= b < p.len() implies #[trigger] strokes[k][a] != #[trigger] p[b] by {
                        let q = strokes[k][a];
                        assert(vis[q.1 * w + q.0]);
                    }
                }
                assert(all_connected(next)) by {
                    assert forall|k: int| 0 <= k < next.len() implies connected(#[trigger] next[k]) by {
                        if k < strokes.len() {
                            assert(next[k] == strokes[k]);
                        }
                    }
                }
                assert(no_repeats(next)) by {
                    assert forall|k: int| 0 <= k < next.len() implies distinct_pts(#[trigger] next[k]) by {
                        if k < strokes.len() {
                            assert(next[k] == strokes[k]);
                        }
                    }
                    assert forall|k1: int, k2: int| 0 <= k1 < next.len() && 0 <= k2 < next.len() && k1 != k2 implies disjoint(#[trigger] next[k1], #[trigger] next[k2]) by {
                        if k1 < strokes.len() && k2 < strokes.len() {
                            assert(next[k1] == strokes[k1] && next[k2] == strokes[k2]);
                        } else if k1 < strokes.len() {
                            assert(next[k1] == strokes[k1] && next[k2] == p);
                        } else {
                            assert(next[k2] == strokes[k2] && next[k1] == p);
                        }
                    }
                }
                assert forall|k: int| 0 <= k < next.len() implies marked_in(#[trigger] next[k], v2, w, h) by {
                    if k < strokes.len() {
                        assert(next[k] == strokes[k]);
                    }
                }
            }
            lemma_scan_shape(m, v2, w, h, pass, i + 1, next);
        } else {
            lemma_scan_shape(m, vis, w, h, pass, i + 1, strokes);
        }
    }
}

proof fn lemma_ins_shape(sorted: Seq<Seq<(i32, i32)>>, e: Seq<(i32, i32)>)
    requires
        all_connected(sorted),
        no_repeats(sorted),
        connected(e),
        distinct_pts(e),
        forall|k: int| 0 <= k < sorted.len() ==> disjoint(#[trigger] sorted[k], e) && disjoint(e, sorted[k]),
    ensures
        all_connected(ins_by_key(sorted, e)),
        no_repeats(ins_by_key(sorted, e)),
    decreases sorted.len(),
{
    let r = ins_by_key(sorted, e);
    lemma_ins_members(sorted, e);
    if sorted.len() == 0 {
    } else if min_x(sorted.last()) <= min_x(e) {
        assert forall|k1: int, k2: int| 0 <= k1 < r.len() && 0 <= k2 < r.len() && k1 != k2 implies disjoint(#[trigger] r[k1], #[trigger] r[k2]) by {
            if k1 < sorted.len() {
                assert(r[k1] == sorted[k1]);
            }
            if k2 < sorted.len() {
                assert(r[k2] == sorted[k2]);
            }
        }
        assert forall|k: int| 0 <= k < r.len() implies distinct_pts(#[trigger] r[k]) && connected(r[k]) by {
            if k < sorted.len() {
                assert(r[k] == sorted[k]);
            }
        }
    } else {
        let d = sorted.drop_last();
        let last = sorted[sorted.len() - 1];
        assert forall|k: int| 0 <= k < d.len() implies disjoint(#[trigger] d[k], e) && disjoint(e, d[k]) by {
            assert(d[k] == sorted[k]);
        }
        assert(all_connected(d)) by {
            assert forall|k: int| 0 <= k < d.len() implies connected(#[trigger] d[k]) by {
                assert(d[k] == sorted[k]);
            }
        }
        assert(no_repeats(d)) by {
            assert forall|k: int| 0 <= k < d.len() implies distinct_pts(#[trigger] d[k]) by {
                assert(d[k] == sorted[k]);
            }
            assert forall|k1: int, k2: int| 0 <= k1 < d.len() && 0 <= k2 < d.len() && k1 != k2 implies disjoint(#[trigger] d[k1], #[trigger] d[k2]) by {
                assert(d[k1] == sorted[k1] && d[k2] == sorted[k2]);
            }
        }
        lemma_ins_shape(d, e);
        lemma_ins_members(d, e);
        let r0 = ins_by_key(d, e);
        assert forall|k: int| 0 <= k < r0.len() implies disjoint(#[trigger] r0[k], last) && disjoint(last, r0[k]) by {
            if r0[k] == e {
                assert(disjoint(sorted[sorted.len() - 1], e));
            } else {
                let t = choose|t: int| 0 <= t < d.len() && d[t] == r0[k];
                assert(d[t] == sorted[t]);
                assert(disjoint(sorted[t], sorted[sorted.len() - 1]));
                assert(disjoint(sorted[sorted.len() - 1], sorted[t]));
            }
        }
        assert(r == r0.push(last));
        assert forall|k: int| 0 <= k < r.len() implies distinct_pts(#[trigger] r[k]) && connected(r[k]) by {
            if k < r0.len() {
                assert(r[k] == r0[k]);
            }
        }
        assert forall|k1: int, k2: int| 0 <= k1 < r.len() && 0 <= k2 < r.len() && k1 != k2 implies disjoint(#[trigger] r[k1], #[trigger] r[k2]) by {
            if k1 < r0.len() {
                assert(r[k1] == r0[k1]);
            }
            if k2 < r0.len() {
                assert(r[k2] == r0[k2]);
            }
        }
    }
}

proof fn lemma_sort_shape(s: Seq<Seq<(i32, i32)>>)
    requires
        all_connected(s),
        no_repeats(s),
    ensures
        all_connected(sort_by_min_x(s)),
        no_repeats(sort_by_min_x(s)),
    decreases s.len(),
{
    if s.len() > 0 {
        let d = s.drop_last();
        let last = s[s.len() - 1];
        assert(all_connected(d)) by {
            assert forall|k: int| 0 <= k < d.len() implies connected(#[trigger] d[k]) by {
                assert(d[k] == s[k]);
            }
        }
        assert(no_repeats(d)) by {
            assert forall|k: int| 0 <= k < d.len() implies distinct_pts(#[trigger] d[k]) by {
                assert(d[k] == s[k]);
            }
            assert forall|k1: int, k2: int| 0 <= k1 < d.len() && 0 <= k2 < d.len() && k1 != k2 implies disjoint(#[trigger] d[k1], #[trigger] d[k2]) by {
                assert(d[k1] == s[k1] && d[k2] == s[k2]);
            }
        }
        lemma_sort_shape(d);
        lemma_sort_props(d);
        let sd = sort_by_min_x(d);
        assert forall|k: int| 0 <= k < sd.len() implies disjoint(#[trigger] sd[k], last) && disjoint(last, sd[k]) by {
            let t = choose|t: int| 0 <= t < d.len() && d[t] == sd[k];
            assert(d[t] == s[t]);
            assert(disjoint(s[t], s[s.len() - 1]));
            assert(disjoint(s[s.len() - 1], s[t]));
        }
        lemma_ins_shape(sd, last);
    }
}

/// Law: [`trace`] follows the ink like a pen: each point of a stroke is an
/// 8-neighbour of the one before it, and no pixel is used twice, neither
/// within a stroke nor by two strokes.
pub proof fn law_traced_strokes_follow_the_ink(m: Seq<bool>, w: int, h: int)
    requires
        m.len() == w * h,
        0 <= w <= i32::MAX,
        0 <= h <= i32::MAX,
    ensures
        all_connected(traced(m, w, h)),
        no_repeats(traced(m, w, h)),
{
    if w > 0 {
        let v = Seq::new((w * h) as nat, |i: int| false);
        assert(w * h >= 0) by (nonlinear_arith)
            requires w > 0, h >= 0;
        lemma_scan_shape(m, v, w, h, 0, 0, Seq::empty());
        lemma_sort_shape(scan(m, v, w, h, 0, 0, Seq::empty()));
    }
}

/// A stroke begins at an end of the skeleton (a pixel with exactly one
/// inked neighbour), or passes through no end at all (a closed loop).
pub open spec fn starts_at_an_end(s: Seq<(i32, i32)>, m: Seq<bool>, w: int, h: int) -> bool {
    &&& s.len() > 0
    &&& degree(m, w, h, s[0].0 as int, s[0].1 as int) == 1
        || forall|j: int| 0 <= j < s.len() ==> degree(m, w, h, (#[trigger] s[j]).0 as int, s[j].1 as int) != 1
}

/// Every inked end pixel the scan has passed is visited.
spec fn ends_seen(m: Seq<bool>, vis: Seq<bool>, w: int, h: int, pass: int, i: int) -> bool {
    forall|idx: int|
        0 <= idx < w * h && m[idx] && degree(m, w, h, idx % w, idx / w) == 1 && (pass >= 1 || idx < i) ==> #[trigger] vis[idx]
}

proof fn lemma_walk_prefix(m: Seq<bool>, vis: Seq<bool>, w: int, h: int, x: int, y: int, path: Seq<(i32, i32)>)
    requires
        vis.len() == w * h,
        w >= 0,
        h >= 0,
    ensures
        walk(m, vis, w, h, x, y, path).0.len() >= path.len(),
        forall|k: int| 0 <= k < path.len() ==> #[trigger] walk(m, vis, w, h, x, y, path).0[k] == path[k],
    decreases vis.len() - count_true(vis),
{
    let k = next_free(m, vis, w, h, x, y, 0);
    lemma_next_free(m, vis, w, h, x, y, 0);
    if k < 9 {
        let nx = x + off_x(k);
        let ny = y + off_y(k);
        lemma_cell_index(nx, ny, w, h);
        lemma_count_set(vis, ny * w + nx);
        let p2 = path.push((nx as i32, ny as i32));
        lemma_walk_prefix(m, vis.update(ny * w + nx, true), w, h, nx, ny, p2);
        assert forall|j: int| 0 <= j < path.len() implies #[trigger] walk(m, vis, w, h, x, y, path).0[j] == path[j] by {
            assert(p2[j] == path[j]);
        }
    }
}

proof fn lemma_scan_ends(m: Seq<bool>, vis: Seq<bool>, w: int, h: int, pass: int, i: int, strokes: Seq<Seq<(i32, i32)>>)
    requires
        vis.len() == w * h,
        m.len() == w * h,
        0 < w <= i32::MAX,
        0 <= h <= i32::MAX,
        0 <= i <= w * h,
        0 <= pass,
        forall|k: int| 0 <= k < strokes.len() ==> starts_at_an_end(#[trigger] strokes[k], m, w, h),
        ends_seen(m, vis, w, h, pass, i),
    ensures
        forall|k: int| 0 <= k < scan(m, vis, w, h, pass, i, strokes).len() ==> starts_at_an_end(#[trigger] scan(m, vis, w, h, pass, i, strokes)[k], m, w, h),
    decreases 2 - pass, w * h - i,
{
    if pass >= 2 {
    } else if i >= w * h {
        assert(ends_seen(m, vis, w, h, pass + 1, 0));
        lemma_scan_ends(m, vis, w, h, pass + 1, 0, strokes);
        assert(scan(m, vis, w, h, pass, i, strokes) == scan(m, vis, w, h, pass + 1, 0, strokes));
    } else {
        let x = i % w;
        let y = i / w;
        lemma_rc(i, w);
        if m[i] && !vis[i] && (pass == 1 || degree(m, w, h, x, y) == 1) {
            let v1 = vis.update(i, true);
            let start = seq![(x as i32, y as i32)];
            assert(y < h) by (nonlinear_arith)
                requires i == y * w + x, i < w * h, 0 <= x < w, y >= 0;
            assert(start[0] == (x as i32, y as i32));
            assert(marked_in(start, v1, w, h));
            assert(unmarked_in(start, vis, w));
            assert(stroke_on_ink(start, m, w, h));
            lemma_walk_len(m, v1, w, h, x, y, start);
            lemma_walk_shape(m, vis, v1, w, h, x, y, start);
            lemma_walk_on_ink(m, v1, w, h, x, y, start);
            lemma_walk_prefix(m, v1, w, h, x, y, start);
            let (p, v2) = walk(m, v1, w, h, x, y, start);
            let next = if p.len() >= 3 { strokes.push(p) } else { strokes };
            assert(starts_at_an_end(p, m, w, h)) by {
                assert(p[0] == start[0]);
                if pass == 1 && degree(m, w, h, x, y) != 1 {
                    assert forall|j: int| 0 <= j < p.len() implies degree(m, w, h, (#[trigger] p[j]).0 as int, p[j].1 as int) != 1 by {
                        let q = p[j];
                        let qi = q.1 * w + q.0;
                        assert(0 <= q.0 < w && 0 <= q.1 < h && at(m, w, q.0 as int, q.1 as int));
                        assert(!vis[qi]);
                        lemma_xy(q.0 as int, q.1 as int, w);
                        lemma_cell_index(q.0 as int, q.1 as int, w, h);
                        if degree(m, w, h, q.0 as int, q.1 as int) == 1 {
                            assert(m[qi]);
                            assert(vis[qi]);
                        }
                    }
                }
            }
            assert forall|k: int| 0 <= k < next.len() implies starts_at_an_end(#[trigger] next[k], m, w, h) by {
                if k < strokes.len() {
                    assert(next[k] == strokes[k]);
                }
            }
            assert(ends_seen(m, v2, w, h, pass, i + 1)) by {
                assert forall|idx: int|
                    0 <= idx < w * h && m[idx] && degree(m, w, h, idx % w, idx / w) == 1 && (pass >= 1 || idx < i + 1) implies #[trigger] v2[idx] by {
                    assert(v1[idx]);
                }
            }
            lemma_scan_ends(m, v2, w, h, pass, i + 1, next);
            assert(scan(m, vis, w, h, pass, i, strokes) == scan(m, v2, w, h, pass, i + 1, next));
        } else {
            assert(ends_seen(m, vis, w, h, pass, i + 1));
            lemma_scan_ends(m, vis, w, h, pass, i + 1, strokes);
            assert(scan(m, vis, w, h, pass, i, strokes) == scan(m, vis, w, h, pass, i + 1, strokes));
        }
    }
}

/// Law: [`trace`] starts each stroke at an end of the skeleton whenever
/// the stroke reaches one: a stroke either begins at a pixel with exactly
/// one inked neighbour or touches no such pixel at all (a closed loop).
/// So an open path is never entered from its middle and split into a
/// stroke and a dropped speck.
pub proof fn law_traced_strokes_start_at_ends(m: Seq<bool>, w: int, h: int)
    requires
        m.len() == w * h,
        0 <= w <= i32::MAX,
        0 <= h <= i32::MAX,
    ensures
        forall|k: int| 0 <= k < traced(m, w, h).len() ==> starts_at_an_end(#[trigger] traced(m, w, h)[k], m, w, h),
{
    if w > 0 {
        let v = Seq::new((w * h) as nat, |i: int| false);
        assert(w * h >= 0) by (nonlinear_arith)
            requires w > 0, h >= 0;
        lemma_scan_ends(m, v, w, h, 0, 0, Seq::empty());
        let sc = scan(m, v, w, h, 0, 0, Seq::empty());
        lemma_sort_props(sc);
        let r = sort_by_min_x(sc);
        assert forall|k: int| 0 <= k < r.len() implies starts_at_an_end(#[trigger] r[k], m, w, h) by {
            let t = choose|t: int| 0 <= t < sc.len() && sc[t] == r[k];
        }
    }
}
} // verus!
