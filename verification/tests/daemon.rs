use turing_smart_screen::preview::{preview_route, PreviewRoute};
use turing_smart_screen::config;
use turing_smart_screen::daemon::{display_orientation, region_op, DaemonArgs, PowerEvent, RenderLoop};
use turing_smart_screen::display::{DisplayOp, Orientation};
use turing_smart_screen::framebuf::{Framebuf, Rect};

#[test]
fn com_override_wins() {
    let a = DaemonArgs { com_override: Some("COM7".to_string()), tick_ms: 1000, test_once: false, no_tray: true };
    assert_eq!(a.com_port("AUTO"), "COM7");
    let b = DaemonArgs { com_override: None, tick_ms: 1000, test_once: false, no_tray: true };
    assert_eq!(b.com_port("AUTO"), "AUTO");
}

#[test]
fn orientation_mapping() {
    assert_eq!(display_orientation(config::Orientation::Landscape), Orientation::Landscape);
    assert_eq!(display_orientation(config::Orientation::ReversePortrait), Orientation::ReversePortrait);
}

#[test]
fn power_events_drive_the_loop() {
    let mut l = RenderLoop::new();
    assert!(matches!(l.on_power(PowerEvent::Suspend), Some(DisplayOp::ScreenOff)));
    assert!(!l.force_full);
    assert!(matches!(l.on_power(PowerEvent::Resume), Some(DisplayOp::ScreenOn)));
    assert!(l.force_full);
    let fb = Framebuf::new(100, 40, [0, 0, 0]);
    let same = fb.pixels().to_vec();
    let t = l.frame_tiles(&fb, &same);
    assert_eq!(t.len(), 1);
    assert_eq!((t[0].x0, t[0].y0, t[0].x1, t[0].y1), (0, 0, 100, 40));
    assert!(!l.force_full);
    assert!(l.frame_tiles(&fb, &same).is_empty());
    assert!(l.on_power(PowerEvent::Shutdown).is_none());
    assert!(l.stopping);
}

#[test]
fn region_operation_payload() {
    let mut fb = Framebuf::new(4, 4, [0, 0, 0]);
    fb.set(1, 1, 0xABCD);
    match region_op(&Rect::new(1, 1, 2, 2), &fb) {
        DisplayOp::Region { x0, y0, x1, y1, data } => {
            assert_eq!((x0, y0, x1, y1), (1, 1, 2, 2));
            assert_eq!(data, vec![0xCD, 0xAB]);
        },
        _ => panic!("region expected"),
    }
}

#[test]
fn preview_routes() {
    assert_eq!(preview_route("GET / HTTP/1.0\r\n\r\n"), PreviewRoute::Index);
    assert_eq!(preview_route("GET /screencap.png?rand=0.5 HTTP/1.1\r\nHost: x\r\n"), PreviewRoute::Screencap);
    assert_eq!(preview_route("GET /favicon.ico HTTP/1.1"), PreviewRoute::NotFound);
    assert_eq!(preview_route(""), PreviewRoute::Index);
    assert_eq!(preview_route("  GET"), PreviewRoute::Index);
}
