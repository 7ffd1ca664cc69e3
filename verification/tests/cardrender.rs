use riddle::cardrender::{count_numbers_text, pixel_rect, plan_card, CardArt, RenderPlan};
use riddle::cards::{Card, CardCommon, CountStyle, Pace, Place, Size, TraceGuide, TraceKind};
use riddle::layout::InkMap;
use riddle::script::Line;
use riddle::surface::{BLACK, FADED};

fn common(place: Place, size: Size) -> CardCommon {
    CardCommon { place, anchor_norm: None, size, pace: Pace::Normal }
}

/// A raster with the given rects inked.
fn ink_line(w: usize, h: usize, rects: &[(usize, usize, usize, usize)]) -> Line {
    let mut mask = vec![false; w * h];
    for &(x, y, rw, rh) in rects {
        for yy in y..y + rh {
            for xx in x..x + rw {
                mask[yy * w + xx] = true;
            }
        }
    }
    Line { width: w, height: h, mask }
}

/// A glyph-like raster: a thick cross.
fn glyph(w: usize, h: usize) -> Line {
    ink_line(w, h, &[(w / 2 - 2, 4, 5, h - 8), (4, h / 2 - 2, w - 8, 5)])
}

/// A square outline stamp, already scaled to the 243 px stamp box.
fn square_stamp() -> Vec<Vec<(i32, i32)>> {
    vec![vec![(10, 10), (233, 10), (233, 233), (10, 233), (10, 10)]]
}

fn circle() -> Vec<(i32, i32)> {
    (0..=28)
        .map(|i| {
            let a = i as f32 / 28.0 * std::f32::consts::TAU;
            ((30.0 * a.cos()).round() as i32, (30.0 * a.sin()).round() as i32)
        })
        .collect()
}

fn bounds(plans: &[RenderPlan]) -> (i32, i32, i32, i32) {
    let (mut x0, mut y0, mut x1, mut y1) = (i32::MAX, i32::MAX, i32::MIN, i32::MIN);
    for p in plans {
        for s in &p.strokes {
            for &(x, y) in s {
                x0 = x0.min(x);
                y0 = y0.min(y);
                x1 = x1.max(x);
                y1 = y1.max(y);
            }
        }
    }
    (x0, y0, x1, y1)
}

#[test]
fn stamp_card_yields_count_plans_inside_page() {
    let mut map = InkMap::new(1620, 2160);
    let card = Card::Stamp { common: common(Place::BlankArea, Size::S), name: "star".into(), count: 3 };
    let mut art = CardArt::none();
    art.stamp = Some(square_stamp());
    let plans = plan_card(&card, &mut map, art, (200, 200));
    assert_eq!(plans.len(), 3);
    for p in &plans {
        assert!(!p.strokes.is_empty());
        let (x, y, w, h) = p.region.rect();
        assert!(x >= 0 && y >= 0 && x + w <= 1620 && y + h <= 2160);
    }
}

#[test]
fn sketch_scales_normalized_strokes_into_its_box() {
    let mut map = InkMap::new(1620, 2160);
    let card = Card::Sketch { common: common(Place::BlankArea, Size::M), strokes: vec![vec![(0, 0), (1_000_000, 1_000_000)]] };
    let plans = plan_card(&card, &mut map, CardArt::none(), (100, 100));
    let p = &plans[0];
    let (_, _, w, h) = p.region.rect();
    assert!((w - 486).abs() <= 30 && (h - 486).abs() <= 30, "M box ≈486px, got {w}x{h}");
    assert_eq!(p.color, BLACK);
}

#[test]
fn trace_template_renders_faded_with_tian_grid() {
    let mut map = InkMap::new(1620, 2160);
    let card = Card::Trace {
        common: common(Place::BlankArea, Size::L),
        kind: TraceKind::Hanzi,
        content: "山".into(),
        guide: TraceGuide::TianGrid,
    };
    let mut art = CardArt::none();
    art.glyphs = vec![Some(glyph(600, 600)), Some(glyph(380, 380)), Some(glyph(190, 190))];
    let plans = plan_card(&card, &mut map, art, (100, 100));
    assert!(!plans.is_empty());
    assert!(plans.iter().all(|p| p.color == FADED));
    assert!(plans[0].strokes.len() >= 6, "expected grid strokes first");
}

#[test]
fn slow_pace_reduces_points_per_frame() {
    let mut map = InkMap::new(1620, 2160);
    let card = Card::Sketch {
        common: CardCommon { place: Place::BlankArea, anchor_norm: None, size: Size::S, pace: Pace::Slow },
        strokes: vec![vec![(0, 500_000), (1_000_000, 500_000)]],
    };
    let p = &plan_card(&card, &mut map, CardArt::none(), (0, 0))[0];
    assert_eq!(p.points_per_frame, 8);
}

#[test]
fn crowded_page_shrinks_then_gives_up_quietly() {
    let mut map = InkMap::new(1620, 2160);
    map.mark_rect(0, 0, 1620, 2160);
    let card = Card::Stamp { common: common(Place::NearNewInk, Size::L), name: "sun".into(), count: 1 };
    let mut art = CardArt::none();
    art.stamp = Some(square_stamp());
    let plans = plan_card(&card, &mut map, art, (800, 1000));
    assert!(plans.is_empty(), "nowhere to draw → no plans, no panic");
}

#[test]
fn count_dots_render_n_circles_with_number_labels() {
    let mut map = InkMap::new(1620, 2160);
    let card = Card::Count { common: common(Place::BlankArea, Size::S), n: 3, style: CountStyle::Dots };
    let mut art = CardArt::none();
    art.numerals = vec![glyph(20, 30), glyph(20, 30), glyph(20, 30)];
    art.dot_circle = circle();
    let plans = plan_card(&card, &mut map, art, (0, 0));
    assert!(plans.len() >= 3, "at least one plan per dot, got {}", plans.len());
}

#[test]
fn trace_hanzi_multichar_content_stays_in_its_box() {
    let mut map = InkMap::new(1620, 2160);
    let card = Card::Trace {
        common: common(Place::BlankArea, Size::S),
        kind: TraceKind::Hanzi,
        content: "山水火".into(),
        guide: TraceGuide::Plain,
    };
    let mut art = CardArt::none();
    art.glyphs = vec![Some(glyph(200, 200))];
    let plans = plan_card(&card, &mut map, art, (0, 0));
    assert!(!plans.is_empty());
    let (min_x, min_y, max_x, max_y) = bounds(&plans);
    assert!(max_x - min_x <= 243, "width {} exceeds the S box", max_x - min_x);
    assert!(max_y - min_y <= 243, "height {} exceeds the S box", max_y - min_y);
}

#[test]
fn page_text_respects_rect_height() {
    let mut map = InkMap::new(1620, 2160);
    let rect_norm = (100_000, 100_000, 150_000, 60_000);
    let card = Card::Page {
        layout: vec![(Card::Text { common: common(Place::BlankArea, Size::L), content: "一二三四五六".into() }, rect_norm)],
    };
    let mut child = CardArt::none();
    child.text_lines = vec![
        vec![glyph(230, 100), glyph(230, 100), glyph(230, 100)],
        vec![glyph(230, 100), glyph(230, 100), glyph(230, 100)],
        vec![glyph(230, 100), glyph(230, 100), glyph(230, 100)],
    ];
    let mut art = CardArt::none();
    art.children = vec![child];
    let plans = plan_card(&card, &mut map, art, (0, 0));
    assert!(!plans.is_empty());
    let rect_y = (0.1_f32 * 2160.0).round() as i32;
    let rect_h = (0.06_f32 * 2160.0).round() as i32;
    assert_eq!(pixel_rect(rect_norm), (162, rect_y, 243, rect_h));
    for p in &plans {
        for s in &p.strokes {
            for &(_, y) in s {
                assert!(y >= rect_y && y <= rect_y + rect_h, "y={y} escapes the rect's [{rect_y}, {}]", rect_y + rect_h);
            }
        }
    }
}

#[test]
fn tally_of_seven_draws_a_full_group_and_two_marks() {
    let mut map = InkMap::new(1620, 2160);
    let card = Card::Count { common: common(Place::BlankArea, Size::S), n: 7, style: CountStyle::Tally };
    let plans = plan_card(&card, &mut map, CardArt::none(), (0, 0));
    assert_eq!(plans.len(), 2);
    assert_eq!(plans[0].strokes.len(), 5, "four verticals and the slash");
    assert_eq!(plans[1].strokes.len(), 2);
}

#[test]
fn plans_are_marked_on_the_map() {
    let mut map = InkMap::new(1620, 2160);
    let card = Card::Stamp { common: common(Place::FullPage, Size::S), name: "star".into(), count: 1 };
    let mut art = CardArt::none();
    art.stamp = Some(square_stamp());
    let plans = plan_card(&card, &mut map, art, (0, 0));
    assert_eq!(plans.len(), 1);
    assert!(map.find_spot(100, 100, (100, 100), 0).map_or(true, |(x, y)| x >= 240 || y >= 240));
}

#[test]
fn unknown_shape_trace_keeps_only_its_grid() {
    let mut map = InkMap::new(1620, 2160);
    let card = Card::Trace {
        common: common(Place::BlankArea, Size::S),
        kind: TraceKind::Shape,
        content: "dragon".into(),
        guide: TraceGuide::TianGrid,
    };
    let mut art = CardArt::none();
    art.shapes = vec![None];
    let plans = plan_card(&card, &mut map, art, (0, 0));
    assert_eq!(plans.len(), 1);
    assert_eq!(plans[0].strokes.len(), 6);
}

#[test]
fn count_numbers_text_joins_with_spaces() {
    assert_eq!(count_numbers_text(3).iter().collect::<String>(), "1 2 3");
    assert_eq!(count_numbers_text(0).iter().collect::<String>(), "1");
    assert_eq!(count_numbers_text(12).iter().collect::<String>(), "1 2 3 4 5 6 7 8 9 10 11 12");
}
