use turing_smart_screen::port::{pick_screen_port, OpenAction, OpenEvent, OpenRetry, PortEntry};

fn port(name: &str, usb: Option<(Option<&str>, u16, u16)>) -> PortEntry {
    PortEntry { name: name.to_string(), usb: usb.map(|(s, v, p)| (s.map(|s| s.to_string()), v, p)) }
}

#[test]
fn screen_port_is_found_by_serial_or_usb_id() {
    let ports = vec![
        port("COM1", None),
        port("COM3", Some((Some("A12345"), 0x0403, 0x6001))),
        port("COM4", Some((None, 0x1a86, 0x5722))),
        port("COM5", Some((Some("USB35INCHIPSV2"), 0x1234, 0x0001))),
    ];
    assert_eq!(pick_screen_port(&ports).as_deref(), Some("COM4"));
    let serial_only = vec![port("COM1", None), port("COM5", Some((Some("USB35INCHIPSV2"), 0x1234, 0x0001)))];
    assert_eq!(pick_screen_port(&serial_only).as_deref(), Some("COM5"));
    let none = vec![port("COM1", None), port("COM3", Some((Some("A12345"), 0x0403, 0x6001)))];
    assert_eq!(pick_screen_port(&none), None);
    // A product id alone is not enough.
    assert_eq!(pick_screen_port(&vec![port("COM6", Some((None, 0x1a86, 0x7523)))]), None);
}

fn is_wait(a: &OpenAction) -> bool {
    matches!(a, OpenAction::Wait)
}

#[test]
fn named_port_gets_ten_attempts() {
    let mut r = OpenRetry::new("COM7".to_string());
    let mut opens = 0;
    let mut a = r.step(OpenEvent::Start);
    loop {
        match a {
            OpenAction::Open(ref p) => {
                assert_eq!(p, "COM7");
                opens += 1;
                a = r.step(OpenEvent::Opened(false));
                assert!(is_wait(&a));
                a = r.step(OpenEvent::Waited);
            }
            OpenAction::Fail(ref m) => {
                assert_eq!(
                    m,
                    "cannot open COM port COM7 after 10 attempts; run configure and select the port manually"
                );
                break;
            }
            _ => panic!("unexpected action"),
        }
    }
    assert_eq!(opens, 10);
}

#[test]
fn auto_port_is_detected_each_attempt() {
    let mut r = OpenRetry::new("AUTO".to_string());
    assert!(matches!(r.step(OpenEvent::Start), OpenAction::Detect));
    assert!(is_wait(&r.step(OpenEvent::Detected(None))));
    assert!(matches!(r.step(OpenEvent::Waited), OpenAction::Detect));
    assert_eq!(r.attempt, 2);
    match r.step(OpenEvent::Detected(Some("/dev/ttyACM0".to_string()))) {
        OpenAction::Open(p) => assert_eq!(p, "/dev/ttyACM0"),
        _ => panic!("expected an open"),
    }
    assert!(matches!(r.step(OpenEvent::Opened(true)), OpenAction::Done));
}
