use turing_smart_screen::config::Revision;
use turing_smart_screen::display::{create, Command, DriverChoice, Orientation, RevA, Simu};

#[test]
fn driver_selection() {
    match create(Revision::A, "COM4", 320, 480) {
        Ok(DriverChoice::RevA { com_port }) => assert_eq!(com_port, "COM4"),
        _ => panic!("Rev A driver expected"),
    }
    match create(Revision::Simu, "AUTO", 480, 800) {
        Ok(DriverChoice::Simu { width, height }) => assert_eq!((width, height), (480, 800)),
        _ => panic!("simulator expected"),
    }
    match create(Revision::C, "AUTO", 480, 800) {
        Err(e) => assert_eq!(e, "display revision C has no driver yet (only Rev A and SIMU are supported)"),
        _ => panic!("error expected"),
    }
}

#[test]
fn command_packets() {
    assert_eq!(RevA::command(Command::DisplayBitmap, 0, 0, 319, 479), vec![0, 0, 4, 253, 223, 197]);
    assert_eq!(RevA::command(Command::Reset, 0, 0, 0, 0), vec![0, 0, 0, 0, 0, 101]);
    assert_eq!(RevA::hello_probe(), vec![69; 6]);
    // Four 10-bit fields, big-endian.
    let p = RevA::command(Command::Clear, 1023, 512, 3, 700);
    let v = p[..5].iter().fold(0u64, |a, b| a * 256 + *b as u64);
    assert_eq!(v, (1023u64 << 30) | (512 << 20) | (3 << 10) | 700);
}

#[test]
fn brightness_levels() {
    assert_eq!(RevA::brightness_command(100), vec![0, 0, 0, 0, 0, 110]);
    assert_eq!(RevA::brightness_command(0), vec![63, 192, 0, 0, 0, 110]);
    assert_eq!(RevA::brightness_command(20), vec![51, 0, 0, 0, 0, 110]);
    for level in 0..=100u8 {
        let absolute = (255.0 - (level as f32 / 100.0) * 255.0) as u32;
        assert_eq!(RevA::brightness_command(level), RevA::command(Command::SetBrightness, absolute, 0, 0, 0));
    }
}

#[test]
fn hello_sizes() {
    let mut r = RevA::new();
    r.apply_hello(Some([2; 6]));
    assert_eq!((r.width, r.height), (480, 800));
    r.apply_hello(Some([3; 6]));
    assert_eq!((r.width, r.height), (600, 1024));
    r.apply_hello(Some([1, 1, 1, 1, 1, 2]));
    assert_eq!((r.width, r.height), (320, 480));
    r.apply_hello(None);
    assert_eq!((r.width, r.height), (320, 480));
}

#[test]
fn orientation_packet() {
    let mut r = RevA::new();
    let p = r.set_orientation(Orientation::Landscape);
    assert_eq!(p, vec![0, 0, 0, 0, 0, 121, 102, 1, 224, 1, 64, 0, 0, 0, 0, 0]);
    assert_eq!(r.dims(), (480, 320));
    let c = r.clear_packets();
    assert_eq!(c.len(), 3);
    assert_eq!(c[0][6], 100);
    assert_eq!(c[1], vec![0, 0, 0, 0, 0, 102]);
    assert_eq!(c[2], p);
    assert_eq!(r.orientation, Orientation::Landscape);
}

#[test]
fn region_cropping_and_chunks() {
    let r = RevA::new();
    let data: Vec<u8> = (1..=8).collect();
    let w = r.region_writes(-2, 0, 2, 1, &data);
    assert_eq!(w.len(), 2);
    assert_eq!(w[0], vec![0, 0, 0, 4, 0, 197]);
    assert_eq!(w[1], vec![5, 6, 7, 8]);
    assert!(r.region_writes(320, 0, 400, 10, &[]).is_empty());
    // A full-width band of 9 rows splits into pieces of 8 * 320 bytes.
    let band = vec![7u8; 320 * 9 * 2];
    let w = r.region_writes(0, 0, 320, 9, &band);
    assert_eq!(w.len(), 1 + 3);
    assert_eq!(w[1].len(), 2560);
    assert_eq!(w[3].len(), 320 * 9 * 2 - 2 * 2560);
}

#[test]
fn simulated_panel() {
    let mut s = Simu::new(4, 4);
    assert_eq!(s.send_region(0, 0, 2, 1, &[0x00, 0xF8, 0xE0, 0x07]), Ok(()));
    assert_eq!(&s.img.buf[0..6], &[248, 0, 0, 0, 252, 0]);
    assert_eq!(&s.img.buf[6..9], &[255, 255, 255]);
    assert_eq!(
        s.send_region(0, 0, 2, 1, &[1, 2, 3]),
        Err("region payload size mismatch: 3 bytes for 2x1".to_string())
    );
    assert_eq!(s.send_region(10, 10, 12, 12, &[]), Ok(()));
    s.set_orientation(Orientation::ReverseLandscape);
    assert_eq!((s.img.w, s.img.h), (4, 4));
    let mut t = Simu::new(2, 3);
    t.set_orientation(Orientation::Landscape);
    assert_eq!((t.img.w, t.img.h), (3, 2));
    assert_eq!(Orientation::ReverseLandscape.wire(), 3);
}
