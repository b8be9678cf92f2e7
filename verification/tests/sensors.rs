use turing_smart_screen::sensors::weather_error_text;
use turing_smart_screen::sensors::{pick_cpu_temp, TempSensor};
use turing_smart_screen::sensors::is_drm_card;
use turing_smart_screen::sensors::{intel_from_read, weather_without_key, zen_from_read};
use turing_smart_screen::sensors::fan_input_stem;
use turing_smart_screen::sensors::{
    amd_offset, capitalize_first, cpuid_family_model, cpuid_vendor, degree_suffix, fan_full_scale, intel_reading,
    is_cpu_fan, pick_fan, pick_hwmon_fan, HwmonFan, ping_ms_text, temp_module_for, zen_reading, CpuTemp, CpuVendor, ExampleText, Provider,
    Weather, XorShift64, active_sclk_digits, pick_gpu_fan, root_disk, weather_api_key, DiskInfo, GpuFanEntry,
};
use turing_smart_screen::superio::{ite_ident, ite_rpm, nct_ident, nct_rpm, SuperIo};
use turing_smart_screen::config::HwSensors;
use turing_smart_screen::hwio::{PawnIo, RegisterIo};

/// Formula check against known vectors (raw register → °C).
#[test]
fn zen_temp_formula() {
    // Tctl 55.0°C: raw = (55*1000/125) << 21 = 440 << 21.
    let raw: u32 = 440 << 21;
    let t = ((raw >> 21) * 125) as f32 * 0.001;
    assert!((t - 55.0).abs() < 1e-3);
    // -49°C adjustment flag (RANGE_SEL).
    let raw2: u32 = (440 << 21) | 0x80000;
    let mut t2 = ((raw2 >> 21) * 125) as f32 * 0.001;
    if (raw2 & 0x80000) != 0 {
        t2 -= 49.0;
    }
    assert!((t2 - 6.0).abs() < 1e-3);
    // The library's millidegree reading agrees.
    assert_eq!(zen_reading(raw, 0), Some(55_000));
    assert_eq!(zen_reading(raw2, 0), Some(6_000));
}

#[test]
fn intel_temp_formula() {
    // TjMax 100, digital readout 40 → 60°C.
    let tjmax = 100.0f32;
    let digital = 40.0f32;
    assert!((tjmax - digital - 60.0).abs() < 1e-3);
    let status: u32 = 0x8000_0000 | (40 << 16);
    assert_eq!(intel_reading(status, Some(100 << 16)), Some(60));
    assert_eq!(intel_reading(status, None), Some(60));
}

#[test]
fn nct_formula_boundaries() {
    assert_eq!(nct_rpm(0x1FFF), Some(0));
    assert_eq!(nct_rpm(0x2000), Some(0));
    assert_eq!(nct_rpm(1350), Some(1000)); // 1350000/1350
    assert_eq!(nct_rpm(0x15), Some(1_350_000 / 0x15));
    assert_eq!(nct_rpm(0x14), None);
    assert_eq!(nct_rpm(0), None);
}

#[test]
fn ite_formula_boundaries() {
    assert_eq!(ite_rpm(0x3F), None);
    assert_eq!(ite_rpm(0x40), Some(1_350_000 / (0x40 * 2)));
    assert_eq!(ite_rpm(0xFFFF), Some(0));
}

#[test]
fn chip_tables() {
    assert_eq!(nct_ident(0xD4, 0x2B), Some(("NCT6798D", 7)));
    assert_eq!(nct_ident(0xC8, 0x03), Some(("NCT6791D", 6)));
    assert_eq!(nct_ident(0x00, 0x00), None);
    assert_eq!(ite_ident(0x8688), Some(("IT8688E", 6)));
    assert_eq!(ite_ident(0x8733), Some(("IT8792E", 3)));
    assert_eq!(ite_ident(0xFFFF), None);
}

fn rpm_to_percent(rpm: u32) -> f32 {
    (rpm as f32 / fan_full_scale(rpm) as f32 * 100.0).clamp(0.0, 100.0)
}

#[test]
fn percent_heuristic() {
    assert!((rpm_to_percent(1000) - 1000.0 / 1500.0 * 100.0).abs() < 1e-3);
    assert!((rpm_to_percent(2000) - 2000.0 / 2200.0 * 100.0).abs() < 1e-3);
    assert!((rpm_to_percent(2800) - 2800.0 / 3000.0 * 100.0).abs() < 1e-3);
}

fn parse_ms(text: &str) -> Option<f32> {
    ping_ms_text(text).and_then(|s| s.parse::<f32>().ok())
}

#[test]
fn parses_common_formats() {
    assert!((parse_ms("Reply from 8.8.8.8: bytes=32 time=12ms TTL=115").unwrap() - 12.0).abs() < 1e-3);
    assert!((parse_ms("64 bytes from 8.8.8.8: icmp_seq=1 ttl=115 time=12.3 ms").unwrap() - 12.3).abs() < 1e-3);
    assert!(parse_ms("Request timed out.").is_none());
}

#[test]
fn ping_text_edge_cases() {
    assert_eq!(ping_ms_text("TIME<1ms").as_deref(), Some("1"));
    assert_eq!(ping_ms_text("Zeit=5ms time= 4,5 ms").as_deref(), Some("4.5"));
    assert_eq!(ping_ms_text("no reply"), None);
    assert_eq!(ping_ms_text(""), None);
}

#[test]
fn zen_reading_rejects_implausible_values() {
    // 0 °C exactly and 125 °C are out of range.
    assert_eq!(zen_reading(392 << 21 | 0x80000, 0), None);
    assert_eq!(zen_reading(1000 << 21, 0), None);
    // Both bits 16 and 17 also select the -49 °C range.
    assert_eq!(zen_reading((440 << 21) | 0x30000, 0), Some(6_000));
    // Tdie offset applied in whole degrees.
    assert_eq!(zen_reading(440 << 21, -20), Some(35_000));
}

#[test]
fn intel_reading_edge_cases() {
    // Invalid readout bit.
    assert_eq!(intel_reading(40 << 16, Some(100 << 16)), None);
    // TjMax 0 falls back to 100.
    assert_eq!(intel_reading(0x8000_0000 | (10 << 16), Some(0)), Some(90));
    // Result must be positive.
    assert_eq!(intel_reading(0x8000_0000 | (100 << 16), Some(100 << 16)), None);
}

#[test]
fn amd_offsets_from_brand() {
    assert_eq!(amd_offset("AMD Ryzen 7 1700X Eight-Core Processor"), -20);
    assert_eq!(amd_offset("AMD Ryzen Threadripper 1950X 16-Core Processor"), -27);
    assert_eq!(amd_offset("AMD Ryzen 7 2700X Eight-Core Processor"), -10);
    assert_eq!(amd_offset("AMD Ryzen 9 5950X 16-Core Processor"), 0);
}

#[test]
fn cpuid_decoding() {
    assert_eq!(cpuid_family_model(0x00A2_0F12), (0x19, 0x21));
    assert_eq!(cpuid_vendor(0x756e6547, 0x49656e69, 0x6c65746e), CpuVendor::Intel);
    assert_eq!(cpuid_vendor(0x68747541, 0x69746e65, 0x444d4163), CpuVendor::Amd);
    assert_eq!(cpuid_vendor(0, 0, 0), CpuVendor::Other);
    assert_eq!(temp_module_for(CpuVendor::Amd, 0x19), Some("res/drivers/AMDFamily17.bin"));
    assert_eq!(temp_module_for(CpuVendor::Amd, 0x10), None);
    assert_eq!(temp_module_for(CpuVendor::Intel, 6), Some("res/drivers/IntelMSR.bin"));
}

#[test]
fn temperature_reader_off_platform() {
    assert_eq!(CpuTemp::<PawnIo>::off().read_millicelsius(), None);
    let t = CpuTemp::from_module(CpuVendor::Amd, PawnIo, "AMD Ryzen 7 1700X");
    assert_eq!(t.read_millicelsius(), None);
}

#[test]
fn fan_selection() {
    let rpms = vec![Some(0), Some(900), None, Some(1200)];
    assert_eq!(pick_fan(&rpms, "AUTO"), Some(900));
    assert_eq!(pick_fan(&rpms, "fan2"), Some(900));
    assert_eq!(pick_fan(&rpms, "nct6798/fan4"), Some(1200));
    assert_eq!(pick_fan(&rpms, "fan3"), None);
    assert_eq!(pick_fan(&rpms, "fan9"), None);
    assert_eq!(pick_fan(&rpms, "fan1"), None);
    assert_eq!(pick_fan(&rpms, "fan0"), None);
    assert_eq!(pick_fan(&rpms, "garbage"), Some(900));
    assert_eq!(pick_fan(&vec![Some(700), Some(900)], "AUTO"), Some(700));
    assert_eq!(pick_fan(&vec![], "AUTO"), None);
    assert_eq!(fan_full_scale(1500), 1500);
    assert_eq!(fan_full_scale(1501), 2200);
    assert_eq!(fan_full_scale(2201), 3000);
}

#[test]
fn superio_absent_off_windows() {
    assert!(SuperIo::detect().is_none());
}

#[test]
fn cpu_fan_labels() {
    assert!(is_cpu_fan("CPU Fan"));
    assert!(is_cpu_fan("Processor"));
    assert!(!is_cpu_fan("Chassis 1"));
}

#[test]
fn xorshift_sequence() {
    let mut r = XorShift64::new(0);
    assert_eq!(r.0, 0x9E37_79B9_7F4A_7C15);
    let v = r.next_u64();
    assert_eq!(r.0, 0x03f7_21df_fe39_b342);
    assert_eq!(v, 0x0d83_b3e2_9a21_487a);
    let mut s = XorShift64::new(10);
    for _ in 0..100 {
        let u = s.uniform_u64(20, 120);
        assert!((20..120).contains(&u));
        assert_ne!(s.0, 0);
    }
    assert_eq!(s.uniform_u64(5, 5), 5);
}

#[test]
fn providers_from_config() {
    assert!(matches!(Provider::from_hw(HwSensors::Static, "AUTO"), Provider::StubStatic));
    match Provider::from_hw(HwSensors::Stub, "AUTO") {
        Provider::StubRandom(r) => assert_eq!(r.0, 10),
        _ => panic!("stub provider expected"),
    }
    match Provider::from_hw(HwSensors::Lhm, "fan2") {
        Provider::Sysinfo { cpu_fan } => assert_eq!(cpu_fan, "fan2"),
        _ => panic!("live provider expected"),
    }
    assert!(Provider::StubStatic.gpu_available(false));
    assert!(!Provider::from_hw(HwSensors::Auto, "AUTO").gpu_available(false));
}

#[test]
fn weather_texts() {
    assert_eq!(degree_suffix("metric"), "°C");
    assert_eq!(degree_suffix("imperial"), "°F");
    assert_eq!(degree_suffix("standard"), "°K");
    assert_eq!(degree_suffix("kelvin"), "°?");
    assert_eq!(capitalize_first("light rain"), "Light rain");
    assert_eq!(capitalize_first("ébène"), "ébène");
    assert_eq!(capitalize_first(""), "");
    let w = Weather::message("No OpenWeatherMap API key");
    assert_eq!(w.description.as_deref(), Some("No OpenWeatherMap API key"));
    assert!(w.temp.is_none());
    assert_eq!(ExampleText::text("linux", "x86_64"), "linux x86_64");
}

#[test]
fn hwmon_fan_choice() {
    let fan = |chip: &str, label: &str, current: u64, max: Option<u64>, min: Option<u64>| HwmonFan {
        chip: chip.to_string(),
        label: label.to_string(),
        current,
        max,
        min,
    };
    let fans = vec![
        fan("nct6798", "Chassis", 800, None, None),
        fan("nct6798", "CPU Fan", 1200, Some(2400), Some(400)),
        fan("nct6798", "fan3", 3000, Some(2000), None),
        fan("nct6798", "Broken", 500, Some(100), Some(100)),
    ];
    assert_eq!(pick_hwmon_fan(&fans, "AUTO"), Some((1, 800, 2000)));
    assert_eq!(pick_hwmon_fan(&fans, "nct6798/Chassis"), Some((0, 800, 1500)));
    assert_eq!(pick_hwmon_fan(&fans, "nct6798/fan3"), Some((2, 2000, 2000)));
    assert_eq!(pick_hwmon_fan(&fans, "nct6798/Broken"), None);
    let only_chassis = vec![fan("nct6798", "Chassis", 800, None, None)];
    assert_eq!(pick_hwmon_fan(&only_chassis, "AUTO"), None);
}

#[test]
fn gpu_fan_choice() {
    let fan = |chip: &str, label: &str, current: Option<u64>, max: Option<u64>| GpuFanEntry {
        chip: chip.to_string(),
        label: label.to_string(),
        current,
        max,
    };
    let fans = vec![
        fan("nct6798\n", "CPU", Some(900), None),
        fan("AMDGPU\n", "", None, None),
        fan("amdgpu\n", "fan1", Some(4000), None),
    ];
    assert_eq!(pick_gpu_fan(&fans), Some((3000, 3000)));
    let fans2 = vec![fan("acpi", " GPU Fan ", Some(1200), Some(2400)), fan("amdgpu", "", Some(5), Some(10))];
    assert_eq!(pick_gpu_fan(&fans2), Some((1200, 2400)));
    assert_eq!(pick_gpu_fan(&vec![fan("amdgpu", "", Some(5), Some(0))]), None);
}

#[test]
fn sclk_listing() {
    assert_eq!(active_sclk_digits("0: 500Mhz\n1: 1500Mhz *\n2: 2000Mhz *\n").as_deref(), Some("11500"));
    assert_eq!(active_sclk_digits("0: 500Mhz\n1: 800Mhz\n"), None);
    assert_eq!(active_sclk_digits("*").as_deref(), Some(""));
}

#[test]
fn system_disk_choice() {
    let d = |m: &str, total: u64, available: u64| DiskInfo { mount: m.to_string(), total, available };
    let disks = vec![d("/boot", 100, 50), d("/", 200, 20), d("/home", 900, 10)];
    assert_eq!(root_disk(&disks, false), (200, 20));
    let win = vec![d("D:\\", 900, 1), d("C:\\", 500, 2), d("E:\\", 900, 3)];
    assert_eq!(root_disk(&win, true), (500, 2));
    assert_eq!(root_disk(&win, false), (900, 3));
    assert_eq!(root_disk(&vec![], true), (0, 0));
}

#[test]
fn weather_key_choice() {
    assert_eq!(weather_api_key(Some("  abc "), "cfg"), "  abc ");
    assert_eq!(weather_api_key(Some("   "), "cfg"), "cfg");
    assert_eq!(weather_api_key(None, "cfg"), "cfg");
}

#[test]
fn cpu_temperature_sensor_priority() {
    let t = |label: &str, reading: bool| TempSensor { label: label.to_string(), reading };
    // A package driver wins over an earlier generic CPU sensor.
    let s = vec![t("acpitz", true), t("CPU Package", true), t("k10temp Tctl", true)];
    assert_eq!(pick_cpu_temp(&s), Some(2));
    // Without a driver the first generic CPU sensor with a reading is used.
    let s = vec![t("cpu0", false), t("nvme", true), t("Package id 0", true), t("cpu1", true)];
    assert_eq!(pick_cpu_temp(&s), Some(2));
    // A driver sensor without a reading is skipped.
    let s = vec![t("coretemp", false), t("ZENPOWER", true)];
    assert_eq!(pick_cpu_temp(&s), Some(1));
    let s = vec![t("gpu", true), t("coretemp", false)];
    assert_eq!(pick_cpu_temp(&s), None);
    assert_eq!(pick_cpu_temp(&Vec::new()), None);
}

#[test]
fn drm_card_entries() {
    assert!(is_drm_card("card0"));
    assert!(is_drm_card("card12"));
    assert!(!is_drm_card("card0-HDMI-A-1"));
    assert!(!is_drm_card("renderD128"));
    assert!(!is_drm_card("car"));
}

#[test]
fn fan_reading_file_names() {
    assert_eq!(fan_input_stem("fan2_input").as_deref(), Some("fan2"));
    assert_eq!(fan_input_stem("fan1_input_input").as_deref(), Some("fan1"));
    assert_eq!(fan_input_stem("fan_input").as_deref(), Some("fan"));
    assert_eq!(fan_input_stem("fan2_label"), None);
    assert_eq!(fan_input_stem("temp1_input"), None);
    assert_eq!(fan_input_stem("fan"), None);
}

#[test]
fn weather_error_texts() {
    assert_eq!(weather_error_text(br#"{"cod":401,"message":"Invalid API key."}"#), "Invalid API key.");
    assert_eq!(weather_error_text(br#"{"cod":429}"#), "unknown error");
    assert_eq!(weather_error_text(br#"{"message":7}"#), "unknown error");
    assert_eq!(weather_error_text(b"<html>Bad Gateway</html>"), "unknown error");
}

#[test]
fn failed_register_reads_give_no_temperature() {
    assert_eq!(zen_from_read(None, 0), None);
    assert_eq!(zen_from_read(None, -20), None);
    assert_eq!(intel_from_read(None, Some(100 << 16)), None);
    assert_eq!(intel_from_read(None, None), None);
}

#[test]
fn register_reads_decode_to_millidegrees() {
    // Zen: 55.0 °C Tctl, with and without the k10temp offset.
    assert_eq!(zen_from_read(Some(440 << 21), 0), Some(55_000));
    assert_eq!(zen_from_read(Some(440 << 21), -20), Some(35_000));
    // Range-select bit: 55 - 49 = 6 °C.
    assert_eq!(zen_from_read(Some((440 << 21) | 0x80000), 0), Some(6_000));
    // Offset pushing the reading to zero or below is implausible.
    assert_eq!(zen_from_read(Some(160 << 21), -20), None);
    // Intel: valid bit set, readout 40 below TjMax.
    let status: u64 = (1u64 << 31) | (40u64 << 16);
    assert_eq!(intel_from_read(Some(status), Some(100 << 16)), Some(60_000));
    assert_eq!(intel_from_read(Some(status), Some(90 << 16)), Some(50_000));
    // Unreadable or zero TjMax falls back to 100 °C.
    assert_eq!(intel_from_read(Some(status), None), Some(60_000));
    assert_eq!(intel_from_read(Some(status), Some(0)), Some(60_000));
    // Valid bit clear: no reading.
    assert_eq!(intel_from_read(Some(40u64 << 16), Some(100 << 16)), None);
    // The high half of the status register is ignored.
    assert_eq!(intel_from_read(Some(status | (7u64 << 40)), None), Some(60_000));
}

#[test]
fn weather_without_key_only_when_key_is_empty() {
    let w = weather_without_key("").expect("message weather");
    assert_eq!(w.description.as_deref(), Some("No OpenWeatherMap API key"));
    assert!(w.temp.is_none() && w.felt.is_none() && w.humidity.is_none() && w.update.is_none());
    assert!(weather_without_key("abc123").is_none());
}

/// A register driver answering fixed values.
struct FixedRegs {
    msr_status: Option<u64>,
    msr_target: Option<u64>,
    smn: Option<u32>,
}

impl RegisterIo for FixedRegs {
    fn read_msr(&self, index: u32) -> Option<u64> {
        match index {
            0x19C => self.msr_status,
            0x1A2 => self.msr_target,
            _ => None,
        }
    }

    fn read_smn(&self, offset: u32) -> Option<u32> {
        if offset == 0x0005_9800 { self.smn } else { None }
    }
}

#[test]
fn temperature_reader_through_a_supplied_driver() {
    // AMD Ryzen 7 1700X: Tctl 55 °C, Tdie offset -20 °C.
    let amd = FixedRegs { msr_status: None, msr_target: None, smn: Some(440 << 21) };
    let t = CpuTemp::from_module(CpuVendor::Amd, amd, "AMD Ryzen 7 1700X");
    assert_eq!(t.read_millicelsius(), Some(35_000));
    // Intel: valid reading 40 below a TjMax of 100 °C.
    let intel = FixedRegs { msr_status: Some((1 << 31) | (40 << 16)), msr_target: Some(100 << 16), smn: None };
    let t = CpuTemp::from_module(CpuVendor::Intel, intel, "Intel(R) Core(TM) i7");
    assert_eq!(t.read_millicelsius(), Some(60_000));
    // A driver whose first read fails gives a reader that is off.
    let dead = FixedRegs { msr_status: None, msr_target: None, smn: None };
    let t = CpuTemp::from_module(CpuVendor::Intel, dead, "Intel");
    assert_eq!(t.read_millicelsius(), None);
}
