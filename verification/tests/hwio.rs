use turing_smart_screen::hwio::{
    execute_request, msr_from_output, read_port_request, smn_from_output, write_port_request, PawnIo, WinRing0,
};

#[test]
fn port_requests() {
    assert_eq!(read_port_request(0x2E), [0x2E, 0x00, 0, 0]);
    assert_eq!(read_port_request(0x0A35), [0x35, 0x0A, 0, 0]);
    assert_eq!(write_port_request(0x4E, 0x87), [0x4E, 0x00, 0, 0, 0x87, 0, 0, 0]);
}

#[test]
fn pawnio_call_layout() {
    let req = execute_request("ioctl_read_msr", &[0x19C, -1]);
    assert_eq!(req.len(), 32 + 16);
    assert_eq!(&req[..14], b"ioctl_read_msr");
    assert!(req[14..32].iter().all(|b| *b == 0));
    assert_eq!(&req[32..40], &[0x9C, 0x01, 0, 0, 0, 0, 0, 0]);
    assert_eq!(&req[40..48], &[0xFF; 8]);
    // Long names keep 31 bytes and a terminating zero.
    let long = "x".repeat(40);
    let req = execute_request(&long, &[]);
    assert_eq!(req.len(), 32);
    assert!(req[..31].iter().all(|b| *b == b'x'));
    assert_eq!(req[31], 0);
}

#[test]
fn pawnio_outputs() {
    assert_eq!(msr_from_output(&[0x1234_5678_9ABC]), Some(0x1234_5678_9ABC));
    assert_eq!(msr_from_output(&[-1]), Some(u64::MAX));
    assert_eq!(msr_from_output(&[]), None);
    assert_eq!(smn_from_output(&[0x1_2345_6789]), Some(0x2345_6789));
    assert_eq!(smn_from_output(&[]), None);
}

#[test]
fn drivers_absent_off_windows() {
    assert_eq!(WinRing0::open().err().as_deref(), Some("WinRing0 is Windows-only"));
    assert_eq!(PawnIo::load_module(&[1, 2, 3]).err().as_deref(), Some("PawnIO is Windows-only"));
}
