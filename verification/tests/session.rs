use riddle::cardrender::CardArt;
use riddle::cards::{Card, CardCommon, Pace, PageAction, Place, Size, TurnResponse};
use riddle::geom::{SCREEN_H, SCREEN_W};
use riddle::script::Line;
use riddle::session::{Diary, Effect, OracleMsg, PenSample, Phase, Tool, TurnMsg, WindowPen};
use riddle::surface::{Surface, BLACK};

fn pen(x: i32, y: i32, pressure: i32) -> PenSample {
    PenSample { x, y, pressure, touching: true, tool: Tool::Pen }
}

fn lift() -> PenSample {
    PenSample { x: 0, y: 0, pressure: 0, touching: false, tool: Tool::Pen }
}

/// A page with a dark square where the child drew, and that stroke's points.
fn inked_page() -> (Surface, Vec<Vec<(i32, i32, i32, u32)>>) {
    let mut surf = Surface::blank(SCREEN_W, SCREEN_H);
    surf.fill_rect(400, 400, 40, 40, BLACK);
    (surf, vec![vec![(400, 400, 3, 0), (439, 439, 3, 10)]])
}

/// A short line of "text": one horizontal bar.
fn text_line() -> Line {
    let (w, h) = (60usize, 20usize);
    let mut mask = vec![false; w * h];
    for y in 8..12 {
        for x in 4..56 {
            mask[y * w + x] = true;
        }
    }
    Line { width: w, height: h, mask }
}

fn listening_after_stroke(now: u64) -> Diary {
    let mut d = Diary::new();
    assert_eq!(d.pen_sample(pen(400, 400, 2048), now), Some(Effect::Pen { x: 400, y: 400, r: 3 }));
    assert_eq!(d.pen_sample(lift(), now + 5), Some(Effect::PenUp));
    d.end_pass();
    d
}

fn count(e: &[Effect], what: Effect) -> usize {
    e.iter().filter(|x| **x == what).count()
}

#[test]
fn pen_inks_with_a_pressure_radius_and_restarts_the_idle_timer() {
    let mut d = Diary::new();
    assert_eq!(d.pen_sample(pen(10, 20, 40), 0), None, "a touch at pressure 40 is not writing");
    assert!(!d.stylus.on);
    assert_eq!(d.pen_sample(pen(10, 20, 4095), 3), Some(Effect::Pen { x: 10, y: 20, r: 4 }));
    assert!(d.stylus.pen_down && d.stylus.on && d.stylus.tapped);
    let eraser = PenSample { tool: Tool::Eraser, ..pen(11, 21, 500) };
    assert_eq!(d.pen_sample(eraser, 4), Some(Effect::Erase { x: 11, y: 21, r: 22 }));
    assert_eq!(d.pen_sample(lift(), 9), Some(Effect::PenUp));
    assert!(matches!(d.phase, Phase::Listening { last_pen: Some(9) }));
    assert_eq!(d.pen_sample(lift(), 10), None, "no second pen-up");
}

#[test]
fn window_pen_clamps_its_pressure() {
    let mut d = Diary::new();
    assert_eq!(d.window_pen(WindowPen::Press { x: 5, y: 6, d: 250 }, 1), Some(Effect::Pen { x: 5, y: 6, r: 4 }));
    assert_eq!(d.window_pen(WindowPen::Update { x: 7, y: 8, d: -3 }, 2), Some(Effect::Pen { x: 7, y: 8, r: 2 }));
    assert_eq!(d.window_pen(WindowPen::Release, 3), Some(Effect::PenUp));
    assert!(!d.stylus.on && !d.stylus.pen_down);
}

#[test]
fn commit_waits_for_the_idle_window_and_new_ink() {
    let d = listening_after_stroke(0);
    assert!(!d.commit_due(5_000, 6_000, 1));
    assert!(d.commit_due(6_005, 6_000, 1));
    assert!(!d.commit_due(6_005, 6_000, 0), "no new stroke, no answer");
}

#[test]
fn erased_ink_is_marked_seen_without_asking() {
    let mut d = listening_after_stroke(0);
    let surf = Surface::blank(SCREEN_W, SCREEN_H);
    let strokes = vec![vec![(400, 400, 3, 0)]];
    let e = d.commit(7_000, 1, &strokes, &surf, false, true, true, false);
    assert!(e.is_empty());
    assert_eq!(d.turn.committed, 1);
    assert!(matches!(d.phase, Phase::Listening { last_pen: None }));
}

#[test]
fn a_question_mark_opens_the_guide_and_its_closing_touch_is_swallowed() {
    let mut d = listening_after_stroke(0);
    let (surf, strokes) = inked_page();
    let e = d.commit(7_000, 1, &strokes, &surf, true, false, true, false);
    assert_eq!(e, vec![Effect::ShowGuide]);
    assert_eq!(d.turn.committed, 0);
    assert!(d.guide(8_000).is_empty());
    assert_eq!(d.pen_sample(pen(1, 1, 900), 8_001), None, "the guide takes no ink");
    assert_eq!(d.guide(8_002), vec![Effect::DismissGuide]);
    d.end_pass();
    assert!(matches!(d.phase, Phase::Help { open: false, .. }));
    assert!(d.guide(8_003).is_empty());
    assert!(matches!(d.phase, Phase::Help { open: false, .. }), "still waiting for pen-up");
    d.pen_sample(lift(), 8_004);
    d.guide(8_005);
    assert!(matches!(d.phase, Phase::Listening { last_pen: None }));
}

#[test]
fn no_server_means_a_quiet_page() {
    let mut d = listening_after_stroke(0);
    let (surf, strokes) = inked_page();
    let e = d.commit(7_000, 1, &strokes, &surf, false, false, false, false);
    assert!(e.is_empty());
    assert_eq!(d.turn.committed, 1);
}

#[test]
fn turn_mode_asks_the_server_and_shows_the_dot() {
    let mut d = listening_after_stroke(0);
    let (surf, strokes) = inked_page();
    let e = d.commit(7_000, 1, &strokes, &surf, false, true, false, true);
    assert_eq!(e, vec![Effect::AskTurn { fresh_from: 0 }, Effect::Dot(true)]);
    match d.phase {
        Phase::CardTurn { page_full, anchor, since } => {
            assert!(page_full);
            // The new ink's box (radius + 2 around each point) ends at x 444.
            assert_eq!(anchor, (504, 395));
            assert_eq!(since, 7_000);
        }
        _ => panic!("expected a card turn"),
    }
    assert_eq!(d.card_turn(20_000, TurnMsg::Nothing, &surf), vec![]);
    assert_eq!(d.card_turn(37_000, TurnMsg::Nothing, &surf), vec![Effect::Dot(false)]);
    assert!(matches!(d.phase, Phase::Listening { last_pen: None }));
}

fn oracle_turn() -> (Diary, Surface) {
    let mut d = listening_after_stroke(0);
    let (surf, strokes) = inked_page();
    let e = d.commit(7_000, 1, &strokes, &surf, false, false, true, true);
    assert_eq!(e, vec![Effect::AskOracle { fresh_from: 0 }]);
    (d, surf)
}

#[test]
fn thinking_aims_the_reply_beside_the_new_ink_and_blinks() {
    let (mut d, _) = oracle_turn();
    match d.phase {
        Phase::Thinking { origin, .. } => {
            let (x, y) = origin.expect("room beside the ink");
            assert!((0..1620).contains(&x) && (0..2160).contains(&y), "reply stands on the page: {x},{y}");
        }
        _ => panic!("expected thinking"),
    }
    assert!(d.think(7_300, OracleMsg::Nothing).is_empty());
    assert_eq!(d.think(7_600, OracleMsg::Nothing), vec![Effect::Dot(true)]);
    assert_eq!(d.think(8_200, OracleMsg::Nothing), vec![Effect::Dot(false)]);
    assert_eq!(d.think(127_000, OracleMsg::Nothing), vec![Effect::Dot(false)]);
    assert!(matches!(d.phase, Phase::Listening { last_pen: None }));
}

#[test]
fn a_failed_oracle_goes_quiet() {
    let (mut d, _) = oracle_turn();
    assert_eq!(d.think(7_100, OracleMsg::Failed), vec![Effect::Dot(false)]);
    assert!(matches!(d.phase, Phase::Listening { last_pen: None }));
}

/// Run the reply to its end; returns every effect after the first frame.
fn finish_reply(d: &mut Diary, mut now: u64, total: usize) -> Vec<Effect> {
    let mut all = Vec::new();
    for _ in 0..1000 {
        if matches!(d.phase, Phase::Listening { .. }) {
            return all;
        }
        all.extend(d.write(now, OracleMsg::Nothing, total));
        now += 14;
    }
    panic!("the reply never finished");
}

#[test]
fn a_finished_reply_on_a_full_page_is_remembered_and_turns_the_page() {
    let (mut d, _) = oracle_turn();
    let e = d.think(7_100, OracleMsg::Ink { lines: vec![text_line()], said: true });
    assert_eq!(e, vec![Effect::Dot(false)]);
    assert!(matches!(d.phase, Phase::Replying { streaming: true, .. }));
    let first = d.write(7_100, OracleMsg::Gone, 1);
    let brushes = first.iter().filter(|x| matches!(x, Effect::Brush { .. })).count();
    assert!(brushes > 0 && brushes <= 26, "one frame draws at most 26 points");
    assert!(matches!(first.last(), Some(Effect::Refresh(_))));
    let rest = finish_reply(&mut d, 7_114, 1);
    assert_eq!(count(&rest, Effect::Remember), 1);
    assert_eq!(count(&rest, Effect::TurnPage), 1);
    assert_eq!(d.turn.committed, 0, "the new sheet counts from zero");
}

#[test]
fn a_page_turn_waits_while_the_child_is_still_drawing() {
    let (mut d, _) = oracle_turn();
    d.think(7_100, OracleMsg::Ink { lines: vec![text_line()], said: true });
    d.write(7_100, OracleMsg::Gone, 2);
    let rest = finish_reply(&mut d, 7_114, 2);
    assert_eq!(count(&rest, Effect::Remember), 1);
    assert_eq!(count(&rest, Effect::TurnPage), 0, "a second stroke was drawn meanwhile");
    assert_eq!(d.turn.committed, 1);
}

#[test]
fn a_reply_that_fails_midway_is_not_remembered() {
    let (mut d, _) = oracle_turn();
    d.think(7_100, OracleMsg::Ink { lines: vec![text_line()], said: true });
    d.write(7_100, OracleMsg::Failed, 1);
    assert!(d.turn.failed);
    let rest = finish_reply(&mut d, 7_114, 1);
    assert_eq!(count(&rest, Effect::Remember), 0);
    assert_eq!(count(&rest, Effect::TurnPage), 0);
}

#[test]
fn streamed_text_is_appended_below_until_the_floor() {
    let (mut d, _) = oracle_turn();
    d.think(7_100, OracleMsg::Ink { lines: vec![text_line()], said: true });
    let (before, y0) = match &d.phase {
        Phase::Replying { plan, .. } => (plan.strokes.len(), plan.next_y),
        _ => panic!(),
    };
    d.write(7_000, OracleMsg::Ink { lines: vec![text_line()], said: true }, 1);
    match &mut d.phase {
        Phase::Replying { plan, streaming, .. } => {
            assert!(*streaming);
            assert!(plan.strokes.len() > before);
            assert_eq!(plan.next_y, y0 + 75, "one more line at the reply pitch");
            plan.next_y = 1961;
        }
        _ => panic!(),
    }
    d.write(7_000, OracleMsg::Ink { lines: vec![text_line()], said: true }, 1);
    match &d.phase {
        Phase::Replying { plan, streaming, .. } => {
            assert!(!*streaming, "past the floor the rest is dropped");
            assert_eq!(plan.next_y, 1961);
        }
        _ => panic!(),
    }
}

#[test]
fn cards_are_planned_then_drawn_one_after_another() {
    let mut d = listening_after_stroke(0);
    let (surf, strokes) = inked_page();
    d.commit(7_000, 1, &strokes, &surf, false, true, false, false);
    let common = CardCommon { place: Place::BlankArea, anchor_norm: None, size: Size::S, pace: Pace::Normal };
    let resp = TurnResponse {
        turn_id: "t".into(),
        spoken_text: "two stars".into(),
        paper_cards: vec![Card::Stamp { common, name: "star".into(), count: 2 }],
        page_action: PageAction::NewPage,
        memory_tags: vec![],
    };
    let mut art = CardArt::none();
    art.stamp = Some(vec![vec![(10, 10), (233, 10), (233, 233), (10, 233), (10, 10)]]);
    let e = d.card_turn(8_000, TurnMsg::Answer { resp, arts: vec![art] }, &surf);
    assert_eq!(e, vec![Effect::Dot(false), Effect::RememberSpoken]);
    match &d.phase {
        Phase::DrawingCards { plans, plan_i: 0, point_i: 0, page_full: true, .. } => assert_eq!(plans.len(), 2),
        _ => panic!("expected the cards to be drawn"),
    }
    let mut now = 8_000;
    let mut all = Vec::new();
    for _ in 0..1000 {
        if matches!(d.phase, Phase::Listening { .. }) {
            break;
        }
        all.extend(d.draw_cards(now, 1));
        now += 14;
    }
    assert!(matches!(d.phase, Phase::Listening { .. }));
    // Two squares of five points each.
    assert_eq!(all.iter().filter(|x| matches!(x, Effect::Brush { .. })).count(), 10);
    assert_eq!(count(&all, Effect::TurnPage), 1, "the answer asked for a new page");
}

#[test]
fn an_answer_with_no_card_that_fits_goes_back_to_listening() {
    let mut d = listening_after_stroke(0);
    let (surf, strokes) = inked_page();
    d.commit(7_000, 1, &strokes, &surf, false, true, false, false);
    let resp = TurnResponse {
        turn_id: "t".into(),
        spoken_text: String::new(),
        paper_cards: vec![],
        page_action: PageAction::Keep,
        memory_tags: vec![],
    };
    let e = d.card_turn(8_000, TurnMsg::Answer { resp, arts: vec![] }, &surf);
    assert_eq!(e, vec![Effect::Dot(false)]);
    assert!(matches!(d.phase, Phase::Listening { last_pen: None }));
}

#[test]
fn a_summoned_memory_is_rewritten_then_dismissed_by_a_touch() {
    let (mut d, _) = oracle_turn();
    let memory = riddle::diary::ConjurePlan {
        strokes: vec![vec![(100, 100, 3), (110, 100, 6), (120, 100, 2)]],
        stroke_i: 0,
        point_i: 0,
        region: riddle::geom::BBox::empty(),
    };
    assert_eq!(d.think(7_100, OracleMsg::Show(Some(memory))), vec![Effect::Dot(false)]);
    let e = d.conjure(7_100);
    assert_eq!(e[0], Effect::Brush { from: None, to: (100, 100), r: 3, color: riddle::surface::FADED });
    assert_eq!(e[1], Effect::Brush { from: Some((100, 100)), to: (110, 100), r: 4, color: riddle::surface::FADED });
    assert_eq!(e[2], Effect::Brush { from: Some((110, 100)), to: (120, 100), r: 2, color: riddle::surface::FADED });
    assert!(matches!(d.phase, Phase::MemoryShown { shown: true, until: 127_100, .. }));
    assert!(d.rest(8_000).is_empty());
    d.pen_sample(pen(5, 5, 900), 8_001);
    assert_eq!(d.rest(8_002), vec![Effect::RestorePage]);
    d.end_pass();
    d.rest(8_003);
    assert!(matches!(d.phase, Phase::MemoryShown { shown: false, .. }), "waits for pen-up");
    d.pen_sample(lift(), 8_004);
    d.rest(8_005);
    assert!(matches!(d.phase, Phase::Listening { last_pen: None }));
}

#[test]
fn a_missing_memory_ends_the_turn_quietly() {
    let (mut d, _) = oracle_turn();
    assert_eq!(d.think(7_100, OracleMsg::Show(None)), vec![Effect::Dot(false)]);
    assert!(matches!(d.phase, Phase::Listening { last_pen: None }));
}

#[test]
fn frames_draw_every_point_of_the_reply_once_in_order() {
    let (mut d, _) = oracle_turn();
    d.think(7_100, OracleMsg::Ink { lines: vec![text_line(), text_line()], said: true });
    let points: Vec<(i32, i32)> = match &d.phase {
        Phase::Replying { plan, .. } => plan.strokes.iter().flatten().copied().collect(),
        _ => panic!("expected a reply"),
    };
    assert!(points.len() > 26, "the reply takes more than one frame");
    let mut all = d.write(7_100, OracleMsg::Gone, 1);
    all.extend(finish_reply(&mut d, 7_114, 1));
    let drawn: Vec<(i32, i32)> = all
        .iter()
        .filter_map(|e| match e {
            Effect::Brush { to, .. } => Some(*to),
            _ => None,
        })
        .collect();
    assert_eq!(drawn, points);
}

#[test]
fn a_listening_page_answers_only_once_the_pause_is_long_enough() {
    let mut d = listening_after_stroke(0);
    let (surf, strokes) = inked_page();
    let e = d.listen(3_000, 6_000, 1, &strokes, &surf, false, false, true, false);
    assert!(e.is_empty());
    assert!(matches!(d.phase, Phase::Listening { last_pen: Some(5) }));
    assert_eq!(d.turn.committed, 0);
    let e = d.listen(6_005, 6_000, 1, &strokes, &surf, false, false, true, false);
    assert_eq!(e, vec![Effect::AskOracle { fresh_from: 0 }]);
    assert!(matches!(d.phase, Phase::Thinking { .. }));
    assert_eq!(d.turn.committed, 1, "every stroke on the page now counts as answered");
}
