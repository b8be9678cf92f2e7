use std::cell::RefCell;
use std::collections::HashMap;

use turing_smart_screen::hwio::PortIo;
use turing_smart_screen::superio::SuperIo;

/// A Nuvoton NCT6798D at PNP port 0x2E with its hardware monitor at 0x290.
struct FakeNct {
    cfg: HashMap<u8, u8>,
    hwm: HashMap<u16, u8>,
    state: RefCell<(u8, u8, u8)>, // (PNP index, HWM index, HWM bank)
}

impl FakeNct {
    fn new(counts: &[u16]) -> Self {
        let cfg = HashMap::from([(0x20, 0xD4), (0x21, 0x2B), (0x60, 0x02), (0x61, 0x90), (0x28, 0x00)]);
        let regs = [0x4B0u16, 0x4B2, 0x4B4, 0x4B6, 0x4B8, 0x4BA, 0x4CC];
        let mut hwm = HashMap::new();
        for (i, c) in counts.iter().enumerate() {
            hwm.insert(regs[i], (c >> 5) as u8);
            hwm.insert(regs[i] + 1, (c & 0x1F) as u8);
        }
        FakeNct { cfg, hwm, state: RefCell::new((0, 0, 0)) }
    }
}

impl PortIo for FakeNct {
    fn read_after(&self, writes: &[(u16, u8)], port: u16) -> Option<u8> {
        for &(p, v) in writes {
            self.write_io_byte(p, v);
        }
        let (pnp, idx, bank) = *self.state.borrow();
        match port {
            0x2F => Some(*self.cfg.get(&pnp).unwrap_or(&0xFF)),
            0x296 => Some(*self.hwm.get(&(((bank as u16) << 8) | idx as u16)).unwrap_or(&0)),
            _ => Some(0xFF),
        }
    }

    fn write_io_byte(&self, port: u16, val: u8) {
        let mut s = self.state.borrow_mut();
        match port {
            0x2E => s.0 = val,
            0x295 => s.1 = val,
            0x296 if s.1 == 0x4E => s.2 = val,
            _ => {}
        }
    }

    fn settle(&self) {}
}

#[test]
fn nuvoton_chip_is_detected_and_read() {
    // Fan 1 turns at 1000 RPM, fan 2 is stalled, the others read nothing.
    let io = FakeNct::new(&[1350, 0x1FFF]);
    let sio = SuperIo::detect_with(io).expect("chip detected");
    assert_eq!(sio.chip_name(), "NCT6798D");
    assert_eq!(sio.fan_rpms(), vec![Some(1000), Some(0), None, None, None, None, None]);
    assert_eq!(sio.cpu_fan_rpm("AUTO"), Some(1000));
    assert_eq!(sio.cpu_fan_rpm("fan1"), Some(1000));
}

/// Nothing answers on the PNP ports.
struct Floating;

impl PortIo for Floating {
    fn read_after(&self, _writes: &[(u16, u8)], _port: u16) -> Option<u8> {
        None
    }
    fn write_io_byte(&self, _port: u16, _val: u8) {}
    fn settle(&self) {}
}

#[test]
fn no_chip_on_a_floating_bus() {
    assert!(SuperIo::detect_with(Floating).is_none());
}

/// An ITE IT8688E at PNP port 0x2E with its environment controller at 0x290.
struct FakeIte {
    cfg: HashMap<u8, u8>,
    hwm: HashMap<u8, u8>,
    state: RefCell<(u8, u8)>, // (PNP index, EC index)
}

impl PortIo for FakeIte {
    fn read_after(&self, writes: &[(u16, u8)], port: u16) -> Option<u8> {
        for &(p, v) in writes {
            self.write_io_byte(p, v);
        }
        let (pnp, idx) = *self.state.borrow();
        match port {
            0x2F => Some(*self.cfg.get(&pnp).unwrap_or(&0xFF)),
            0x296 => Some(*self.hwm.get(&idx).unwrap_or(&0)),
            _ => Some(0xFF),
        }
    }

    fn write_io_byte(&self, port: u16, val: u8) {
        let mut s = self.state.borrow_mut();
        match port {
            0x2E => s.0 = val,
            0x295 => s.1 = val,
            _ => {}
        }
    }

    fn settle(&self) {}
}

#[test]
fn ite_chip_reads_each_fan_from_its_own_registers() {
    let cfg = HashMap::from([(0x20, 0x86), (0x21, 0x88), (0x60, 0x02), (0x61, 0x90)]);
    // Fan 1: 0x02A3 = 675 → 1000 RPM; fan 6: saturated → stopped; fans
    // 3 to 5 are not in 16-bit mode (enable byte 0); fan 2 reads 0.
    let hwm = HashMap::from([(0x0C, 0x00), (0x0D, 0xA3), (0x18, 0x02), (0x4C, 0xFF), (0x4D, 0xFF)]);
    let io = FakeIte { cfg, hwm, state: RefCell::new((0, 0)) };
    let sio = SuperIo::detect_with(io).expect("chip detected");
    assert_eq!(sio.chip_name(), "IT8688E");
    assert_eq!(sio.fan_rpms(), vec![Some(1000), None, None, None, None, Some(0)]);
    assert_eq!(sio.cpu_fan_rpm("fan6"), None);
    assert_eq!(sio.cpu_fan_rpm("it8688/fan1"), Some(1000));
}
