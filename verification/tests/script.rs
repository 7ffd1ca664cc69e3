use riddle::script::{is_cjk, is_closing_punctuation, is_opening_punctuation, thin, tokens, trace, Line};

fn ink_line(w: usize, h: usize, rects: &[(usize, usize, usize, usize)]) -> Line {
    let mut mask = vec![false; w * h];
    for &(x, y, rw, rh) in rects {
        for yy in y..y + rh {
            for xx in x..x + rw {
                mask[yy * w + xx] = true;
            }
        }
    }
    Line { width: w, height: h, mask }
}

fn inked(l: &Line) -> usize {
    l.mask.iter().filter(|&&v| v).count()
}

#[test]
fn thinning_slims_a_thick_bar_to_a_line() {
    let mut line = ink_line(60, 20, &[(5, 5, 50, 7)]);
    let before = inked(&line);
    thin(&mut line);
    let after = inked(&line);
    assert!(after * 3 < before, "thinning should slim the bar: {before} -> {after}");
    assert!(after > 0);
    let mut again = Line { width: line.width, height: line.height, mask: line.mask.clone() };
    thin(&mut again);
    assert_eq!(again.mask, line.mask, "a skeleton thins to itself");
}

#[test]
fn trace_walks_a_bar_from_one_end() {
    let line = ink_line(20, 5, &[(2, 2, 10, 1)]);
    let strokes = trace(&line);
    assert_eq!(strokes.len(), 1);
    let s = &strokes[0];
    assert_eq!(s.len(), 10);
    assert_eq!(s[0], (2, 2));
    assert_eq!(s[9], (11, 2));
}

#[test]
fn trace_drops_specks_and_orders_left_to_right() {
    let line = ink_line(40, 10, &[(25, 2, 6, 1), (3, 5, 5, 1), (15, 8, 2, 1)]);
    let strokes = trace(&line);
    assert_eq!(strokes.len(), 2, "the 2-pixel speck is dropped");
    assert_eq!(strokes[0][0], (3, 5));
    assert_eq!(strokes[1][0], (25, 2));
}

#[test]
fn trace_picks_up_loops_without_endpoints() {
    let line = ink_line(10, 10, &[(2, 2, 5, 1), (2, 6, 5, 1), (2, 3, 1, 3), (6, 3, 1, 3)]);
    let strokes = trace(&line);
    assert_eq!(strokes.len(), 1);
    assert_eq!(strokes[0].len(), 14, "the greedy walk cuts two corners");
}

#[test]
fn cjk_ranges() {
    assert!(is_cjk('山'));
    assert!(is_cjk('。'));
    assert!(is_cjk('か'));
    assert!(is_cjk('한'));
    assert!(!is_cjk('a'));
    assert!(!is_cjk('!'));
}

#[test]
fn tokens_split_words_and_cjk() {
    let t = tokens("Hello 世界 big  cat，好");
    let got: Vec<(String, bool)> = t.into_iter().map(|t| (t.text, t.space_before)).collect();
    let want: Vec<(String, bool)> = vec![
        ("Hello".into(), false),
        ("世".into(), true),
        ("界".into(), false),
        ("big".into(), true),
        ("cat".into(), true),
        ("，".into(), false),
        ("好".into(), false),
    ];
    assert_eq!(got, want);
    assert!(tokens("").is_empty());
    assert!(tokens("   ").is_empty());
}

#[test]
fn punctuation_classes() {
    assert!(is_closing_punctuation("，"));
    assert!(is_closing_punctuation("…"));
    assert!(!is_closing_punctuation("，，"));
    assert!(!is_closing_punctuation("a"));
    assert!(is_opening_punctuation('（'));
    assert!(is_opening_punctuation('「'));
    assert!(!is_opening_punctuation('）'));
}

#[test]
fn traced_strokes_step_between_neighbours_and_never_reuse_a_pixel() {
    let mut line = ink_line(40, 30, &[(3, 3, 30, 3), (10, 12, 3, 14), (20, 18, 15, 2)]);
    thin(&mut line);
    let strokes = trace(&line);
    assert!(!strokes.is_empty());
    let mut seen = std::collections::HashSet::new();
    for s in &strokes {
        for pair in s.windows(2) {
            let (dx, dy) = (pair[1].0 - pair[0].0, pair[1].1 - pair[0].1);
            assert!(dx.abs() <= 1 && dy.abs() <= 1 && (dx, dy) != (0, 0));
        }
        for p in s {
            assert!(seen.insert(*p), "pixel {p:?} used twice");
        }
    }
}
