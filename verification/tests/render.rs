use turing_smart_screen::config::StaticImage;
use turing_smart_screen::framebuf::{rgb_to_565, Framebuf};
use turing_smart_screen::render::{blit_cropped, place_static_image};
use turing_smart_screen::widgets::DecodedImage;

fn entry(x: i32, y: i32, width: i32, height: i32) -> StaticImage {
    StaticImage { path: "a.png".to_string(), x, y, width, height }
}

#[test]
fn static_image_is_cut_to_the_display() {
    // A 3x2 image on a 2x2 display: the third column never lands.
    let rgb = vec![
        255, 0, 0, 0, 255, 0, 0, 0, 255, //
        255, 255, 255, 0, 0, 0, 10, 20, 30,
    ];
    let mut fb = Framebuf::new(2, 2, [9, 9, 9]);
    let d = blit_cropped(&mut fb, 0, 0, 3, 2, &rgb).unwrap();
    assert_eq!((d.x0, d.y0, d.x1, d.y1), (0, 0, 2, 2));
    assert_eq!(fb.get(0, 0), Some(rgb_to_565([255, 0, 0])));
    assert_eq!(fb.get(1, 0), Some(rgb_to_565([0, 255, 0])));
    assert_eq!(fb.get(0, 1), Some(rgb_to_565([255, 255, 255])));
    assert_eq!(fb.get(1, 1), Some(rgb_to_565([0, 0, 0])));
}

#[test]
fn static_image_offset_and_clipped() {
    let rgb = vec![1, 2, 3, 40, 50, 60];
    let mut fb = Framebuf::new(4, 3, [0, 0, 0]);
    let d = blit_cropped(&mut fb, 3, 1, 2, 1, &rgb).unwrap();
    assert_eq!((d.x0, d.y0, d.x1, d.y1), (3, 1, 4, 2));
    assert_eq!(fb.get(3, 1), Some(rgb_to_565([1, 2, 3])));
    assert_eq!(fb.get(2, 1), Some(0));
    assert!(blit_cropped(&mut fb, 4, 0, 2, 1, &rgb).is_none());
}

#[test]
fn static_image_at_its_own_size_is_copied() {
    let dec = DecodedImage { w: 2, h: 1, rgb: vec![255, 0, 0, 0, 0, 255] };
    let mut fb = Framebuf::new(4, 2, [255, 255, 255]);
    // No size given, and the given size equal to the image's: no resampling.
    for e in [entry(1, 1, 0, 0), entry(1, 1, 2, 1)] {
        let d = place_static_image(&mut fb, &e, &dec).unwrap();
        assert_eq!((d.x0, d.y0, d.x1, d.y1), (1, 1, 3, 2));
        assert_eq!(fb.get(1, 1), Some(0xF800));
        assert_eq!(fb.get(2, 1), Some(0x001F));
        assert_eq!(fb.get(3, 1), Some(0xFFFF));
    }
}

#[test]
fn static_image_is_resampled_to_its_entry_size() {
    // Red|blue stretched to four columns with a linear filter.
    let dec = DecodedImage { w: 2, h: 1, rgb: vec![255, 0, 0, 0, 0, 255] };
    let mut fb = Framebuf::new(5, 1, [0, 255, 0]);
    let d = place_static_image(&mut fb, &entry(0, 0, 4, 1), &dec).unwrap();
    assert_eq!((d.x0, d.y0, d.x1, d.y1), (0, 0, 4, 1));
    assert_eq!(fb.get(0, 0), Some(0xF800));
    assert_eq!(fb.get(3, 0), Some(0x001F));
    assert_eq!(fb.get(1, 0), Some(rgb_to_565([191, 0, 64])));
    assert_eq!(fb.get(2, 0), Some(rgb_to_565([64, 0, 191])));
    assert_eq!(fb.get(4, 0), Some(rgb_to_565([0, 255, 0])));
}
