use turing_smart_screen::framebuf::{rgb565_to_888, rgb_to_565, Framebuf, Rect, RgbCanvas};

#[test]
fn color_conversions() {
    assert_eq!(rgb_to_565([255, 0, 0]), 0xF800);
    assert_eq!(rgb_to_565([0, 255, 0]), 0x07E0);
    assert_eq!(rgb565_to_888(0xF800), [255, 0, 0]);
    for v in [0u16, 1, 0x1234, 0xFFFF, 0x8410] {
        assert_eq!(rgb_to_565(rgb565_to_888(v)), v);
    }
}

#[test]
fn rect_union() {
    let u = Rect::new(0, 5, 10, 6).union(&Rect::new(-3, 0, 4, 20));
    assert_eq!((u.x0, u.y0, u.x1, u.y1), (-3, 0, 10, 20));
    assert!(Rect::new(0, 0, 1, 1).valid());
    assert!(!Rect::new(0, 0, 0, 1).valid());
}

#[test]
fn fill_and_read_back() {
    let mut fb = Framebuf::new(8, 4, [0, 0, 0]);
    let d = fb.fill_rect(Rect::new(-2, 1, 3, 9), [255, 255, 255]).unwrap();
    assert_eq!((d.x0, d.y0, d.x1, d.y1), (0, 1, 3, 4));
    assert_eq!(fb.get(2, 3), Some(0xFFFF));
    assert_eq!(fb.get(3, 3), Some(0));
    assert_eq!(fb.get(8, 0), None);
    let mut out = Vec::new();
    fb.region_rgb565le(&Rect::new(1, 1, 4, 2), &mut out);
    assert_eq!(out, vec![0xFF, 0xFF, 0xFF, 0xFF, 0, 0]);
}

#[test]
fn tiles_track_changes() {
    let mut fb = Framebuf::new(100, 40, [0, 0, 0]);
    let before = fb.pixels().to_vec();
    assert!(fb.changed_tiles(&before, 64, 32).is_empty());
    fb.set(70, 35, 0x1234);
    let t = fb.changed_tiles(&before, 64, 32);
    assert_eq!(t.len(), 1);
    assert_eq!((t[0].x0, t[0].y0, t[0].x1, t[0].y1), (64, 32, 100, 40));
    let whole = fb.changed_tiles(&[], 64, 32);
    assert_eq!((whole[0].x1, whole[0].y1), (100, 40));
}

#[test]
fn canvas_blit_and_crop() {
    let mut cv = RgbCanvas::new(4, 3, [1, 2, 3]);
    cv.fill_rect(1, 1, 3, 2, [9, 9, 9]);
    cv.line(0, 0, 3, 0, [5, 5, 5]);
    let c = cv.cropped(Rect::new(1, 0, 3, 2));
    assert_eq!((c.w, c.h), (2, 2));
    assert_eq!(&c.buf[0..3], &[5, 5, 5]);
    assert_eq!(&c.buf[6..9], &[9, 9, 9]);
    let mut fb = Framebuf::new(10, 10, [0, 0, 0]);
    let d = cv.blit_into(&mut fb, 8, 9).unwrap();
    assert_eq!((d.x0, d.y0, d.x1, d.y1), (8, 9, 10, 10));
    assert_eq!(fb.get(8, 9), Some(rgb_to_565([5, 5, 5])));
}

#[test]
fn circle_and_line() {
    let mut fb = Framebuf::new(11, 11, [0, 0, 0]);
    fb.fill_circle(5, 5, 3, [255, 255, 255]);
    assert_eq!(fb.get(5, 2), Some(0xFFFF));
    assert_eq!(fb.get(8, 5), Some(0xFFFF));
    assert_eq!(fb.get(8, 8), Some(0));
    fb.line(0, 10, 10, 0, [255, 0, 0]);
    assert_eq!(fb.get(0, 10), Some(0xF800));
    assert_eq!(fb.get(10, 0), Some(0xF800));
    assert_eq!(fb.get(5, 5), Some(0xF800));
}

#[test]
fn line_pixels_form_a_path() {
    let mut fb = Framebuf::new(10, 6, [0, 0, 0]);
    fb.line(1, 1, 8, 4, [255, 255, 255]);
    let mut lit = Vec::new();
    for y in 0..6 {
        for x in 0..10 {
            if fb.get(x, y) == Some(0xFFFF) {
                lit.push((x, y));
            }
        }
    }
    // max(|dx|, |dy|) + 1 pixels, one per column, end points included.
    assert_eq!(lit.len(), 8);
    assert!(lit.contains(&(1, 1)) && lit.contains(&(8, 4)));
    for x in 1..=8 {
        assert_eq!(lit.iter().filter(|p| p.0 == x).count(), 1);
    }
}

#[test]
fn whole_frame_export_is_little_endian_pixels() {
    let mut fb = Framebuf::new(3, 2, [0, 0, 0]);
    fb.fill_rect(Rect::new(1, 0, 2, 2), [255, 0, 0]);
    let mut out = Vec::new();
    fb.region_rgb565le(&Rect::new(0, 0, 3, 2), &mut out);
    assert_eq!(out.len(), 12);
    for (k, v) in fb.pixels().iter().enumerate() {
        assert_eq!(out[2 * k], (v & 0xFF) as u8);
        assert_eq!(out[2 * k + 1], (v >> 8) as u8);
    }
}

#[test]
fn changed_tiles_in_row_major_order() {
    let mut fb = Framebuf::new(8, 8, [0, 0, 0]);
    let prev = fb.pixels().to_vec();
    assert!(fb.changed_tiles(&prev, 4, 4).is_empty());
    fb.fill_rect(Rect::new(5, 6, 6, 7), [255, 255, 255]);
    fb.fill_rect(Rect::new(1, 1, 2, 2), [255, 255, 255]);
    fb.fill_rect(Rect::new(6, 1, 7, 2), [255, 255, 255]);
    let t = fb.changed_tiles(&prev, 4, 4);
    let corners: Vec<(i32, i32)> = t.iter().map(|r| (r.x0, r.y0)).collect();
    assert_eq!(corners, vec![(0, 0), (4, 0), (4, 4)]);
}
