use turing_smart_screen::framebuf::Rect;
use turing_smart_screen::widgets::{collect_bg_images, fitted_text_layout, text_layout, get_rgb, mark_rect, paint_canvas, Bg, DecodedImage, History, ImageCache, TextW};
use turing_smart_screen::yaml::{Yaml, YamlNumber};

fn s(t: &str) -> Yaml {
    Yaml::String(t.to_string())
}

#[test]
fn background_sampling() {
    let img: Vec<u8> = (0..12).collect();
    let bg = Bg::Crop { rgb: &img, w: 2, h: 2 };
    assert_eq!(bg.at(1, 1), [9, 10, 11]);
    assert_eq!(bg.at(2, 0), [0, 0, 0]);
    assert_eq!(bg.at(-1, 0), [0, 0, 0]);
    assert_eq!(Bg::Solid([7, 8, 9]).at(100, -100), [7, 8, 9]);
}

#[test]
fn canvas_painting() {
    let mut buf = vec![0u8; 8];
    paint_canvas(&mut buf, 1, 1, 0, 0, &Bg::Solid([1, 2, 3]));
    assert_eq!(buf, vec![1, 2, 3, 1, 2, 3, 0, 0]);
    let img: Vec<u8> = (0..12).collect();
    let bg = Bg::Crop { rgb: &img, w: 2, h: 2 };
    let mut c = vec![0u8; 2 * 1 * 3];
    paint_canvas(&mut c, 2, 1, 1, 1, &bg);
    assert_eq!(c, vec![9, 10, 11, 0, 0, 0]);
}

#[test]
fn text_widget_settings() {
    let w = Yaml::Mapping(vec![
        (s("SHOW"), s("yes")),
        (s("X"), Yaml::Number(YamlNumber::PosInt(12))),
        (s("FONT_SIZE"), Yaml::Number(YamlNumber::NegInt(-3))),
        (s("FONT_COLOR"), s("#ff0000")),
        (s("BACKGROUND_COLOR"), s("nope")),
        (s("ALIGN"), s("RIGHT")),
        (s("BACKGROUND_IMAGE"), s("bg.png")),
    ]);
    let t = TextW::parse(&w).unwrap();
    assert_eq!(t.x, 12);
    assert_eq!(t.font_size, 1);
    assert_eq!(t.fg, [255, 0, 0]);
    assert_eq!(t.bg, [255, 255, 255]);
    assert_eq!(t.align, "right");
    assert_eq!(t.anchor, "lt");
    assert_eq!(t.bg_image.as_deref(), Some("bg.png"));
    assert!(t.show_unit);
    assert_eq!(t.format, "medium");
    assert_eq!(t.font, "roboto-mono/RobotoMono-Regular.ttf");
    assert!(TextW::parse(&Yaml::Mapping(vec![(s("SHOW"), s("false"))])).is_none());
    assert!(TextW::parse(&Yaml::Null).is_none());
    assert_eq!(get_rgb(&w, "FONT_COLOR", [0, 0, 0]), [255, 0, 0]);
}

#[test]
fn dirty_rectangles() {
    let mut d = Vec::new();
    mark_rect(&mut d, Some(Rect::new(0, 0, 2, 2)));
    mark_rect(&mut d, Some(Rect::new(0, 0, 0, 2)));
    mark_rect(&mut d, None);
    assert_eq!(d.len(), 1);
}

#[test]
fn image_cache_lookup() {
    let mut c = ImageCache::new();
    assert!(c.get("a.png").is_none());
    c.insert("a.png".to_string(), DecodedImage { w: 1, h: 1, rgb: vec![1, 2, 3] });
    c.insert("b.png".to_string(), DecodedImage { w: 2, h: 1, rgb: vec![0; 6] });
    c.insert("a.png".to_string(), DecodedImage { w: 1, h: 1, rgb: vec![4, 5, 6] });
    assert_eq!(c.get("a.png").unwrap().rgb, vec![4, 5, 6]);
    assert_eq!(c.get("b.png").unwrap().w, 2);
    assert_eq!(c.len(), 2);
}

#[test]
fn history_window() {
    let mut h: History<u32> = History::new();
    h.push(5, 3, 0);
    assert_eq!(h.ordered(), vec![0, 0, 5]);
    h.push(6, 3, 0);
    h.push(7, 3, 0);
    h.push(8, 3, 0);
    assert_eq!(h.ordered(), vec![6, 7, 8]);
    // A new window size restarts from the fill value.
    h.push(9, 2, 1);
    assert_eq!(h.ordered(), vec![1, 9]);
}

#[test]
fn background_images_are_collected() {
    let map = |e: Vec<(&str, Yaml)>| Yaml::Mapping(e.into_iter().map(|(k, v)| (s(k), v)).collect());
    let theme = map(vec![
        ("BACKGROUND_IMAGE", s("top.png")),
        (
            "STATS",
            map(vec![
                ("CPU", map(vec![("BACKGROUND_IMAGE", s("cpu.png")), ("TEXT", map(vec![("BACKGROUND_IMAGE", s(""))]))])),
                ("LIST", Yaml::Sequence(vec![map(vec![("BACKGROUND_IMAGE", s("item.png"))])])),
                ("TAGGED", Yaml::Tagged("t".to_string(), Box::new(map(vec![("BACKGROUND_IMAGE", s("hidden.png"))])))),
            ]),
        ),
        ("X", Yaml::Number(YamlNumber::PosInt(3))),
    ]);
    let mut out = vec!["pre.png".to_string()];
    collect_bg_images(&theme, &mut out);
    assert_eq!(out, vec!["pre.png", "top.png", "cpu.png", "item.png"]);
    // A tagged key still counts.
    let tagged_key = Yaml::Mapping(vec![(Yaml::Tagged("k".to_string(), Box::new(s("BACKGROUND_IMAGE"))), s("k.png"))]);
    let mut out2 = Vec::new();
    collect_bg_images(&tagged_key, &mut out2);
    assert_eq!(out2, vec!["k.png"]);
}

#[test]
fn text_boxes() {
    let r = |x0, y0, x1, y1| Rect::new(x0, y0, x1, y1);
    let l1 = text_layout(20, 20, 0, 0, 23, 50, 17, "lt", None).unwrap();
    assert_eq!(l1.paint, r(20, 20, 70, 37));
    assert_eq!(l1.cache, Some(r(20, 20, 70, 37)));
    assert_eq!((l1.ox, l1.oy), (20, 20));
    // A shorter text repaints over the previous box.
    let l2 = text_layout(20, 20, 0, 0, 23, 25, 17, "lt", l1.cache).unwrap();
    assert_eq!(l2.paint, r(20, 20, 70, 37));
    assert_eq!(l2.cache, Some(r(20, 20, 45, 37)));
    // A fixed box paints itself only and is not remembered.
    let f = text_layout(20, 20, 120, 30, 23, 50, 17, "lt", Some(r(0, 0, 200, 60))).unwrap();
    assert_eq!(f.paint, r(20, 20, 140, 50));
    assert_eq!(f.cache, None);
    let m = text_layout(20, 20, 120, 30, 23, 50, 17, "mm", None).unwrap();
    assert_eq!((m.ox, m.oy), (55, 26));
    let neg = text_layout(0, 0, 10, 10, 23, 15, 4, "mt", None).unwrap();
    assert_eq!(neg.ox, -2);
    // Width without height: one font size tall.
    let wh = text_layout(5, 5, 40, 0, 12, 30, 9, "lt", None).unwrap();
    assert_eq!(wh.paint, r(5, 5, 45, 17));
    let rb = text_layout(100, 50, 0, 0, 23, 40, 20, "rb", None).unwrap();
    assert_eq!(rb.paint, r(60, 30, 100, 50));
    assert!(text_layout(0, 0, 0, 0, 23, 0, 17, "lt", None).is_none());
}

#[test]
fn shrinking_text_leaves_no_ghosts() {
    // "100%" then "2%" at (20, 20), anchor "lt", box sized to the text
    // (measured 56x17 and 28x17 at size 23).
    let l1 = text_layout(20, 20, 0, 0, 23, 56, 17, "lt", None).unwrap();
    let (d1, c1) = (l1.paint, l1.cache.unwrap());
    let l2 = text_layout(20, 20, 0, 0, 23, 28, 17, "lt", Some(c1)).unwrap();
    let d2 = l2.paint;
    // The repaint covers the old box and the old repaint.
    assert!(d2.x0 <= c1.x0 && d2.y0 <= c1.y0 && d2.x1 >= c1.x1 && d2.y1 >= c1.y1);
    assert!(d2.x0 <= d1.x0 && d2.y0 <= d1.y0 && d2.x1 >= d1.x1 && d2.y1 >= d1.y1);
    // The new text is drawn with its tight box at (20, 20).
    assert_eq!((l2.ox, l2.oy), (20, 20));
    assert_eq!(l2.cache, Some(Rect::new(20, 20, 48, 37)));
}

#[test]
fn fixed_box_ignores_prev_cache() {
    let l1 = text_layout(20, 20, 120, 30, 23, 56, 17, "lt", None).unwrap();
    assert!(l1.cache.is_none(), "fixed boxes must not produce a cache entry");
    let stale = Rect::new(0, 0, 200, 60);
    let l2 = text_layout(20, 20, 120, 30, 23, 28, 17, "lt", Some(stale)).unwrap();
    assert!(l2.cache.is_none());
    let d2 = l2.paint;
    assert_eq!((d2.x0, d2.y0, d2.x1, d2.y1), (20, 20, 140, 50));
}

#[test]
fn fitted_layout_refuses_only_overflowing_coordinates() {
    // Far from the origin but inside `i32`: the same layout as text_layout.
    let far = fitted_text_layout(1 << 29, 1 << 29, 0, 0, 23, 50, 17, "lt", None).unwrap();
    assert_eq!(far.paint, Rect::new(1 << 29, 1 << 29, (1 << 29) + 50, (1 << 29) + 17));
    let near = fitted_text_layout(20, 20, 0, 0, 23, 50, 17, "lt", None).unwrap();
    let direct = text_layout(20, 20, 0, 0, 23, 50, 17, "lt", None).unwrap();
    assert_eq!((near.paint, near.cache, near.ox, near.oy), (direct.paint, direct.cache, direct.ox, direct.oy));
    // A right-anchored text left of i32::MIN does not fit.
    assert!(fitted_text_layout(i32::MIN, 0, 0, 0, 23, 50, 17, "rt", None).is_none());
    // A box ending past i32::MAX does not fit either.
    assert!(fitted_text_layout(i32::MAX - 10, 0, 0, 0, 23, 50, 17, "lt", None).is_none());
}
