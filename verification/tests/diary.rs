use riddle::diary::{
    append_reply, bbox_of, conjure_layout, page_gray, page_png_bytes, region_all_white, reply_layout, reply_wrap_width, PagePngError,
    WritePlan,
};
use riddle::geom::BBox;
use riddle::script::Line;
use riddle::surface::{Surface, BLACK};

fn ink_line(w: usize, h: usize, rects: &[(usize, usize, usize, usize)]) -> Line {
    let mut mask = vec![false; w * h];
    for &(x, y, rw, rh) in rects {
        for yy in y..y + rh {
            for xx in x..x + rw {
                mask[yy * w + xx] = true;
            }
        }
    }
    Line { width: w, height: h, mask }
}

#[test]
fn page_gray_averages_two_by_two_blocks() {
    let mut surf = Surface::blank(4, 4);
    surf.fill_rect(0, 0, 1, 1, BLACK);
    surf.fill_rect(2, 2, 2, 2, BLACK);
    let (gray, w, h) = page_gray(&surf);
    assert_eq!((w, h), (2, 2));
    assert_eq!(gray, vec![191, 255, 255, 0]);
}

#[test]
fn page_png_bytes_decodes_back_to_the_half_size_page() {
    let mut surf = Surface::blank(6, 4);
    surf.fill_rect(0, 0, 1, 1, BLACK);
    surf.fill_rect(2, 2, 2, 2, BLACK);
    let bytes = page_png_bytes(&surf).expect("a 6x4 page encodes");
    assert_eq!(&bytes[..8], &[137, 80, 78, 71, 13, 10, 26, 10]);
    let decoder = png::Decoder::new(&bytes[..]);
    let mut reader = decoder.read_info().expect("header reads back");
    let mut pixels = vec![0u8; reader.output_buffer_size()];
    let info = reader.next_frame(&mut pixels).expect("pixels read back");
    assert_eq!((info.width, info.height), (3, 2));
    assert_eq!(info.color_type, png::ColorType::Grayscale);
    assert_eq!(&pixels[..info.buffer_size()], &[191, 255, 255, 255, 0, 255]);
}

#[test]
fn page_png_bytes_refuses_a_page_thinner_than_two_pixels() {
    assert_eq!(page_png_bytes(&Surface::blank(1, 8)), Err(PagePngError::Encode));
    assert_eq!(page_png_bytes(&Surface::blank(8, 1)), Err(PagePngError::Encode));
    assert!(page_png_bytes(&Surface::blank(2, 2)).is_ok());
}

#[test]
fn region_all_white_sees_a_single_dark_pixel() {
    let mut surf = Surface::blank(100, 100);
    let mut region = BBox::empty();
    region.add(50, 50, 10);
    assert!(region_all_white(&surf, region));
    surf.fill_rect(45, 55, 1, 1, BLACK);
    assert!(!region_all_white(&surf, region));
    assert!(region_all_white(&surf, BBox::empty()));
}

#[test]
fn bbox_of_grows_each_point_by_its_radius_plus_two() {
    let strokes = vec![vec![(100, 200, 3, 0), (150, 260, 1, 5)]];
    let b = bbox_of(&strokes);
    assert_eq!((b.x0, b.y0, b.x1, b.y1), (95, 195, 153, 263));
    assert_eq!(b.rect(), (95, 195, 59, 69));
    assert!(bbox_of(&Vec::new()).is_empty());
}

#[test]
fn bbox_is_clipped_to_the_page() {
    let mut b = BBox::empty();
    b.add(-50, 3, 4);
    b.add(5000, 2158, 4);
    assert_eq!((b.x0, b.y0, b.x1, b.y1), (0, 0, 1619, 2159));
}

#[test]
fn reply_wraps_inside_the_margins() {
    assert_eq!(reply_wrap_width(None), 1380);
    assert_eq!(reply_wrap_width(Some((1000, 0))), 560);
    assert_eq!(reply_wrap_width(Some((1600, 0))), 1);
    assert_eq!(reply_wrap_width(Some((0, 0))), 1380);
}

#[test]
fn reply_lines_stack_down_the_page_with_a_wobble() {
    let bar = || ink_line(100, 20, &[(10, 10, 80, 1)]);
    let plan = reply_layout(vec![bar(), bar()], None, Some((200, 300)));
    assert_eq!(plan.strokes.len(), 2);
    assert_eq!(plan.origin_x, Some(200));
    assert_eq!(plan.next_y, 300 + 2 * 75);
    let y0 = plan.strokes[0][0].1;
    let y1 = plan.strokes[1][0].1;
    assert!((y0 - (300 + 10)).abs() <= 3, "first line near its anchor, got {y0}");
    assert!((y1 - (300 + 75 + 10)).abs() <= 3, "second line one pitch down, got {y1}");
    assert_eq!(plan.strokes[0][0].0, 210);
    assert!(!plan.region.is_empty());
}

#[test]
fn centered_reply_sits_a_third_of_the_way_down() {
    let bar = ink_line(100, 20, &[(10, 10, 80, 1)]);
    let plan = reply_layout(vec![bar], None, None);
    assert_eq!(plan.next_y, (2160 - 75) / 3 + 75);
    assert_eq!(plan.strokes[0][0].0, (1620 - 100) / 2 + 10);
}

#[test]
fn continuation_joins_the_running_reply() {
    let bar = || ink_line(100, 20, &[(10, 10, 80, 1)]);
    let mut plan = reply_layout(vec![bar()], None, Some((200, 300)));
    let before = plan.strokes.len();
    let more = reply_layout(vec![bar()], Some(plan.next_y), Some((200, plan.next_y)));
    let next = more.next_y;
    append_reply(&mut plan, more);
    assert_eq!(plan.strokes.len(), before + 1);
    assert_eq!(plan.next_y, next);
    let empty = WritePlan { strokes: vec![], stroke_i: 0, point_i: 0, region: BBox::empty(), next_y: 9999, origin_x: None };
    append_reply(&mut plan, empty);
    assert_eq!(plan.next_y, next, "an empty continuation changes nothing");
}

#[test]
fn conjured_memory_writes_date_ink_then_reply_below() {
    let date = ink_line(300, 40, &[(10, 20, 280, 1)]);
    let memory = vec![vec![(400, 500, 2, 0), (420, 900, 2, 10), (440, 910, 2, 20)]];
    let reply = ink_line(100, 20, &[(10, 10, 80, 1)]);
    let plan = conjure_layout(date, &memory, Some(vec![reply]));
    assert_eq!(plan.strokes.len(), 3);
    assert_eq!(plan.strokes[0][0], ((1620 - 300) / 2 + 10, 64 + 20, 1));
    assert_eq!(plan.strokes[1], vec![(400, 500, 2), (420, 900, 2), (440, 910, 2)]);
    let reply_y = plan.strokes[2][0].1;
    assert!((reply_y - (910 + 130 + 10)).abs() <= 3, "reply 130 px below the lowest ink, got {reply_y}");
    assert_eq!(plan.strokes[2][0].2, 2);
    assert!(plan.region.y1 >= 910);
}

#[test]
fn from_luma_wraps_only_exactly_sized_buffers() {
    let s = Surface::from_luma(2, 2, vec![0, 255, 255, 10]).expect("4 bytes for 2x2");
    assert_eq!((s.width(), s.height()), (2, 2));
    assert_eq!(s.luma(0, 0), 0);
    assert_eq!(s.luma(1, 1), 10);
    assert_eq!(s.luma(5, 0), 255, "off the page reads as paper");
    assert!(Surface::from_luma(2, 2, vec![0; 3]).is_none());
    assert!(Surface::from_luma(0, 5, vec![]).is_some());
    assert!(Surface::from_luma(0, 5, vec![1]).is_none());
}
