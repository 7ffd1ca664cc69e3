use riddle::cards::{
    convert_card, parse_place, turn_response_from_raw, Card, CardsError, CountStyle, PageAction, Pace, Place, RawCard,
    RawLayoutItem, RawResponse, Size, TraceGuide, TraceKind, DEFAULT_MAX_TEXT_CHARS, NORM_ONE,
};
use serde_json::Value;

/// A JSON number as a page fraction in millionths.
fn norm(v: &Value) -> Option<i64> {
    v.as_f64().map(|f| (f * NORM_ONE as f64).round() as i64)
}

fn string(v: &Value, key: &str) -> Result<Option<String>, ()> {
    match v.get(key) {
        None | Some(Value::Null) => Ok(None),
        Some(Value::String(s)) => Ok(Some(s.clone())),
        Some(_) => Err(()),
    }
}

fn number(v: &Value, key: &str) -> Result<Option<u32>, ()> {
    match v.get(key) {
        None | Some(Value::Null) => Ok(None),
        Some(n) => n.as_u64().map(|n| Some(n as u32)).ok_or(()),
    }
}

fn pair(v: &Value) -> Result<(i64, i64), ()> {
    let a = v.as_array().ok_or(())?;
    if a.len() != 2 {
        return Err(());
    }
    Ok((norm(&a[0]).ok_or(())?, norm(&a[1]).ok_or(())?))
}

/// The card shape the JSON layer accepts; `None` when it has another shape.
fn raw_card(v: &Value) -> Option<RawCard> {
    if !v.is_object() {
        return None;
    }
    let anchor_norm = match v.get("anchor_norm") {
        None | Some(Value::Null) => None,
        Some(a) => Some(pair(a).ok()?),
    };
    let strokes = match v.get("strokes") {
        None | Some(Value::Null) => None,
        Some(s) => {
            let mut out = Vec::new();
            for stroke in s.as_array()? {
                let mut pts = Vec::new();
                for p in stroke.as_array()? {
                    pts.push(pair(p).ok()?);
                }
                out.push(pts);
            }
            Some(out)
        }
    };
    let layout = match v.get("layout") {
        None | Some(Value::Null) => None,
        Some(l) => Some(l.as_array()?.iter().map(raw_item).collect()),
    };
    Some(RawCard {
        card_type: string(v, "type").ok()?,
        place: string(v, "place").ok()?,
        anchor_norm,
        size: string(v, "size").ok()?,
        pace: string(v, "pace").ok()?,
        content: string(v, "content").ok()?,
        strokes,
        name: string(v, "name").ok()?,
        count: number(v, "count").ok()?,
        n: number(v, "n").ok()?,
        style: string(v, "style").ok()?,
        kind: string(v, "kind").ok()?,
        guide: string(v, "guide").ok()?,
        layout,
    })
}

fn raw_item(v: &Value) -> Option<RawLayoutItem> {
    let card = v.get("card")?;
    let rect_norm = match v.get("rect_norm") {
        None | Some(Value::Null) => None,
        Some(r) => {
            let a = r.as_array()?;
            if a.len() != 4 {
                return None;
            }
            Some((norm(&a[0])?, norm(&a[1])?, norm(&a[2])?, norm(&a[3])?))
        }
    };
    Some(RawLayoutItem { card: raw_card(card), rect_norm })
}

/// Parse a `/turn` body the way the device does: JSON, then the library.
fn parse_turn_response(json: &str) -> Result<riddle::cards::TurnResponse, String> {
    let v: Value = serde_json::from_str(json).map_err(|e| e.to_string())?;
    if !v.is_object() {
        return Err("not an object".to_string());
    }
    let paper_cards = match v.get("paper_cards") {
        None | Some(Value::Null) => None,
        Some(a) => Some(a.as_array().ok_or("paper_cards")?.iter().map(raw_card).collect()),
    };
    let memory_tags = match v.get("memory_tags") {
        None | Some(Value::Null) => None,
        Some(a) => Some(
            a.as_array()
                .ok_or("memory_tags")?
                .iter()
                .map(|t| t.as_str().map(String::from).ok_or("tag"))
                .collect::<Result<Vec<_>, _>>()?,
        ),
    };
    let raw = RawResponse {
        turn_id: string(&v, "turn_id").map_err(|_| "turn_id")?,
        spoken_text: string(&v, "spoken_text").map_err(|_| "spoken_text")?,
        paper_cards,
        page_action: string(&v, "page_action").map_err(|_| "page_action")?,
        memory_tags,
    };
    turn_response_from_raw(raw, DEFAULT_MAX_TEXT_CHARS).map_err(|e| format!("{e:?}"))
}

const FULL: &str = r#"{
  "v": 1, "turn_id": "t-1", "spoken_text": "哇！",
  "paper_cards": [
    {"type":"stamp","name":"star","count":3,"place":"near_new_ink","size":"S"},
    {"type":"sketch","strokes":[[[0.1,0.2],[0.9,0.8]]],"place":"blank_area","size":"M","pace":"slow"},
    {"type":"text","content":"太阳","place":"near_anchor","anchor_norm":[0.42,0.31],"size":"L"},
    {"type":"count","n":3,"style":"dots","place":"margin","size":"S"}
  ],
  "page_action":"none","memory_tags":["sun"]
}"#;

#[test]
fn parses_full_response_and_truncates_to_three_cards() {
    let r = parse_turn_response(FULL).unwrap();
    assert_eq!(r.turn_id, "t-1");
    assert_eq!(r.paper_cards.len(), 3, "4th card dropped by the ≤3 rule");
    match &r.paper_cards[0] {
        Card::Stamp { name, count, common } => {
            assert_eq!(name, "star");
            assert_eq!(*count, 3);
            assert!(matches!(common.place, Place::NearNewInk));
            assert!(matches!(common.pace, Pace::Normal));
        }
        _ => panic!("expected stamp"),
    }
}

#[test]
fn defaults_missing_fields_and_rejects_unknown_stamp() {
    let json = r#"{"turn_id":"t","spoken_text":"","paper_cards":[
        {"type":"stamp","name":"dragon","count":1},
        {"type":"text","content":"你好呀小朋友们真棒"}
    ],"page_action":"suggest_new_page","memory_tags":[]}"#;
    let r = parse_turn_response(json).unwrap();
    assert_eq!(r.paper_cards.len(), 1, "unknown stamp dropped");
    match &r.paper_cards[0] {
        Card::Text { content, common } => {
            assert_eq!(content, "你好呀小朋友");
            assert!(matches!(common.place, Place::BlankArea));
            assert!(matches!(common.size, Size::M));
        }
        _ => panic!("expected text"),
    }
    assert!(matches!(r.page_action, PageAction::SuggestNewPage));
}

#[test]
fn oversize_sketch_is_dropped() {
    let pts: String = (0..2100).map(|i| format!("[{}.0,0.5]", i % 2)).collect::<Vec<_>>().join(",");
    let json = format!(
        r#"{{"turn_id":"t","spoken_text":"","paper_cards":[{{"type":"sketch","strokes":[[{pts}]]}}],"page_action":"none","memory_tags":[]}}"#
    );
    let r = parse_turn_response(&json).unwrap();
    assert!(r.paper_cards.is_empty());
}

#[test]
fn page_card_parses_nested_layout_and_stands_alone() {
    let json = r#"{"turn_id":"t","spoken_text":"","paper_cards":[
        {"type":"page","layout":[{"card":{"type":"trace","kind":"hanzi","content":"山","guide":"tian_grid"},"rect_norm":[0.1,0.1,0.8,0.3]}]},
        {"type":"stamp","name":"star","count":1}
    ],"page_action":"new_page","memory_tags":[]}"#;
    let r = parse_turn_response(json).unwrap();
    assert_eq!(r.paper_cards.len(), 1, "page card must stand alone");
    match &r.paper_cards[0] {
        Card::Page { layout } => {
            assert_eq!(layout.len(), 1);
            let (card, rect) = &layout[0];
            assert!(matches!(card, Card::Trace { .. }));
            assert_eq!(rect.2, 800_000);
        }
        _ => panic!("expected page"),
    }
}

#[test]
fn page_rect_and_anchor_are_clamped() {
    let json = r#"{"turn_id":"t","spoken_text":"","paper_cards":[
        {"type":"page","layout":[
            {"card":{"type":"stamp","name":"star","count":1},"rect_norm":[2000000.0,-5.0,9.0,9.0]},
            {"card":{"type":"text","content":"x","anchor_norm":[50.0,-1.0]},"rect_norm":[0.1,0.1,0.2,0.2]}
        ]}
    ],"page_action":"none","memory_tags":[]}"#;
    let r = parse_turn_response(json).unwrap();
    match &r.paper_cards[0] {
        Card::Page { layout } => {
            assert_eq!(layout.len(), 2);
            let (_, rect) = &layout[0];
            assert!((0..=NORM_ONE).contains(&rect.0), "x not clamped: {rect:?}");
            assert!((0..=NORM_ONE).contains(&rect.1), "y not clamped: {rect:?}");
            assert!((0..=NORM_ONE).contains(&rect.2), "w not clamped: {rect:?}");
            assert!((0..=NORM_ONE).contains(&rect.3), "h not clamped: {rect:?}");
            match &layout[1].0 {
                Card::Text { common, .. } => {
                    let (ax, ay) = common.anchor_norm.expect("anchor present");
                    assert!((0..=NORM_ONE).contains(&ax), "anchor x not clamped: {ax}");
                    assert!((0..=NORM_ONE).contains(&ay), "anchor y not clamped: {ay}");
                }
                _ => panic!("expected text card"),
            }
        }
        _ => panic!("expected page"),
    }
}

#[test]
fn stamp_count_is_clamped_to_five() {
    let json = r#"{"turn_id":"t","spoken_text":"","paper_cards":[
        {"type":"stamp","name":"star","count":99}],"page_action":"none","memory_tags":[]}"#;
    let r = parse_turn_response(json).unwrap();
    match &r.paper_cards[0] {
        Card::Stamp { count, .. } => assert_eq!(*count, 5),
        _ => panic!("expected stamp"),
    }
    let json_zero = r#"{"turn_id":"t","spoken_text":"","paper_cards":[
        {"type":"stamp","name":"star","count":0}],"page_action":"none","memory_tags":[]}"#;
    let r0 = parse_turn_response(json_zero).unwrap();
    match &r0.paper_cards[0] {
        Card::Stamp { count, .. } => assert_eq!(*count, 1),
        _ => panic!("expected stamp"),
    }
}

#[test]
fn nested_page_cards_are_dropped_not_recursed() {
    let json = r#"{"turn_id":"t","spoken_text":"","paper_cards":[
        {"type":"page","layout":[
            {"card":{"type":"page","layout":[]},"rect_norm":[0.1,0.1,0.5,0.2]},
            {"card":{"type":"stamp","name":"star","count":1},"rect_norm":[0.1,0.4,0.3,0.2]}
        ]}],"page_action":"none","memory_tags":[]}"#;
    let r = parse_turn_response(json).unwrap();
    match &r.paper_cards[0] {
        Card::Page { layout } => {
            assert_eq!(layout.len(), 1, "nested page dropped, stamp kept");
            assert!(matches!(layout[0].0, Card::Stamp { .. }));
        }
        _ => panic!("expected page"),
    }
}

#[test]
fn garbage_json_is_an_error_not_a_panic() {
    assert!(parse_turn_response("not json").is_err());
    assert!(parse_turn_response(r#"{"turn_id":1}"#).is_err());
}

fn empty_raw() -> RawCard {
    RawCard {
        card_type: None,
        place: None,
        anchor_norm: None,
        size: None,
        pace: None,
        content: None,
        strokes: None,
        name: None,
        count: None,
        n: None,
        style: None,
        kind: None,
        guide: None,
        layout: None,
    }
}

#[test]
fn missing_turn_id_and_missing_cards_are_refused() {
    let raw = RawResponse { turn_id: None, spoken_text: None, paper_cards: Some(vec![]), page_action: None, memory_tags: None };
    assert!(matches!(turn_response_from_raw(raw, 6), Err(CardsError::MissingTurnId)));
    let raw = RawResponse {
        turn_id: Some("t".into()),
        spoken_text: None,
        paper_cards: None,
        page_action: None,
        memory_tags: None,
    };
    assert!(matches!(turn_response_from_raw(raw, 6), Err(CardsError::MissingPaperCards)));
}

#[test]
fn wire_words_are_case_insensitive() {
    assert!(matches!(parse_place(&Some("NEAR_NEW_INK".to_string())), Place::NearNewInk));
    assert!(matches!(parse_place(&Some("Margin".to_string())), Place::Margin));
    assert!(matches!(parse_place(&Some("nowhere".to_string())), Place::BlankArea));
    assert!(matches!(parse_place(&None), Place::BlankArea));
    let mut raw = empty_raw();
    raw.card_type = Some("TRACE".into());
    raw.content = Some("山".into());
    raw.kind = Some("Hanzi".into());
    raw.guide = Some("TIAN_GRID".into());
    match convert_card(raw, 6, false) {
        Some(Card::Trace { kind, guide, content, .. }) => {
            assert!(matches!(kind, TraceKind::Hanzi));
            assert!(matches!(guide, TraceGuide::TianGrid));
            assert_eq!(content, "山");
        }
        _ => panic!("expected trace"),
    }
}

#[test]
fn count_is_clamped_and_styles_default_to_dots() {
    let mut raw = empty_raw();
    raw.card_type = Some("count".into());
    raw.n = Some(99);
    match convert_card(raw, 6, false) {
        Some(Card::Count { n, style, .. }) => {
            assert_eq!(n, 20);
            assert!(matches!(style, CountStyle::Dots));
        }
        _ => panic!("expected count"),
    }
    let mut raw = empty_raw();
    raw.card_type = Some("count".into());
    assert!(convert_card(raw, 6, false).is_none(), "a count without n is dropped");
    let mut raw = empty_raw();
    raw.card_type = Some("balloon".into());
    assert!(convert_card(raw, 6, false).is_none(), "unknown type dropped");
}

#[test]
fn wire_words_are_read_without_regard_to_ascii_case() {
    assert_eq!(parse_place(&Some("NEAR_NEW_INK".to_string())), Place::NearNewInk);
    assert_eq!(parse_place(&Some("Full_Page".to_string())), Place::FullPage);
    assert_eq!(parse_place(&Some("nowhere".to_string())), Place::BlankArea);
}
