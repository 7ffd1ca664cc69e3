use riddle::cards::Place;
use riddle::layout::{resolve, Anchor, InkMap, CELL};
use riddle::surface::{Surface, BLACK};

/// Mark the given pixel rects dirty on a fresh page-sized map.
fn map_with(dirty: &[(i32, i32, i32, i32)]) -> InkMap {
    let mut m = InkMap::new(1620, 2160);
    for &(x, y, w, h) in dirty {
        m.mark_rect(x, y, w, h);
    }
    m
}

/// Fraction of dirty cells.
fn coverage(m: &InkMap) -> f32 {
    let (dirty, total) = m.coverage_ratio();
    if total == 0 {
        0.0
    } else {
        dirty as f32 / total as f32
    }
}

#[test]
fn empty_page_places_at_seed() {
    let m = InkMap::new(1620, 2160);
    let got = m.find_spot(300, 300, (800, 1000), 40).unwrap();
    assert!(
        (got.0 - 800).abs() <= CELL as i32 * 2 && (got.1 - 1000).abs() <= CELL as i32 * 2,
        "seed itself is clear, should place there, got {got:?}"
    );
}

#[test]
fn spot_avoids_ink_and_respects_margin() {
    let m = map_with(&[(600, 800, 400, 400)]);
    let (x, y) = m.find_spot(200, 200, (800, 1000), 40).unwrap();
    let clear_of_ink = x + 200 + 15 <= 600 || x >= 600 + 400 + 15 || y + 200 + 15 <= 800 || y >= 800 + 400 + 15;
    assert!(clear_of_ink, "({x},{y}) overlaps the inked block");
}

#[test]
fn full_page_of_ink_yields_none() {
    let m = map_with(&[(0, 0, 1620, 2160)]);
    assert!(m.find_spot(100, 100, (100, 100), 40).is_none());
}

#[test]
fn coverage_counts_dirty_cells() {
    let m = map_with(&[(0, 0, 810, 2160)]);
    let c = coverage(&m);
    assert!((0.45..=0.55).contains(&c), "half page ≈ 0.5, got {c}");
}

#[test]
fn margin_place_sticks_to_page_edges() {
    let m = map_with(&[(200, 200, 1200, 1700)]);
    let got = resolve(&m, &Place::Margin, Anchor::Nowhere, 200, 100);
    let (x, y) = got.expect("margins are free");
    assert!(
        y <= 120 || y >= 2160 - 220 || x <= 120 || x >= 1620 - 320,
        "({x},{y}) is not in an edge band"
    );
}

#[test]
fn margin_resolves_to_bottom_band_when_top_is_also_blocked() {
    let mut m = map_with(&[(200, 200, 1200, 1700)]);
    m.mark_rect(0, 0, 1620, 120);
    let got = resolve(&m, &Place::Margin, Anchor::Nowhere, 200, 100);
    let (x, y) = got.expect("bottom/left/right margins are still free");
    assert!(
        y <= 120 || y >= 2160 - 220 || x <= 120 || x >= 1620 - 320,
        "({x},{y}) is not in an edge band"
    );
    if y >= 2160 - 120 {
        assert!(y >= 2160 - 120 - 100, "({x},{y}) doesn't hug the bottom edge");
    }
}

#[test]
fn from_surface_handles_the_overhanging_last_cell() {
    let mut surf = Surface::blank(1620, 2160);
    surf.fill_rect(1616, 2156, 4, 4, BLACK);
    let m = InkMap::from_surface(&surf);
    assert!(coverage(&m) > 0.0, "the true corner pixel should register as dirty");
    if let Some((x, y)) = m.find_spot(50, 50, (1618, 2158), 0) {
        assert!(
            x + 50 <= 1616 || x >= 1620 || y + 50 <= 2156 || y >= 2160,
            "({x},{y}) overlaps the inked corner"
        );
    }
}

#[test]
fn find_spot_never_overhangs_the_true_screen_edge() {
    let mut m = InkMap::new(1620, 2160);
    m.mark_rect(0, 0, 1620, 2110);
    let got = m.find_spot(100, 45, (800, 2140), 0);
    if let Some((x, y)) = got {
        assert!(x + 100 <= 1620 && y + 45 <= 2160, "({x},{y}) places content past the true screen edge");
    }
}

#[test]
fn maps_take_pages_wider_than_a_screen() {
    let m = InkMap::new(600_000, 30);
    assert_eq!(m.screen_w(), 600_000);
    assert_eq!(m.coverage_ratio(), (0, 24_000 * 2));
    let mut surf = Surface::blank(600_000, 2);
    surf.fill_rect(599_990, 0, 5, 2, BLACK);
    let m = InkMap::from_surface(&surf);
    assert_eq!(m.coverage_ratio(), (1, 24_000));
}
