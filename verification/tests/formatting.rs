use turing_smart_screen::fmt::{date_pattern, time_pattern};
use turing_smart_screen::fmt::{bytes2human, dec_string, fmt_giga, fmt_mega, fmt_uptime, fmt_value};
use turing_smart_screen::text::{ascii_lowercase, lower_eq, parse_int, parse_uint, starts_with, str_eq, trim};

#[test]
fn value_right_aligned_with_unit() {
    assert_eq!(fmt_value(42, 3, "%", true), " 42%");
    assert_eq!(fmt_value(42, 3, "%", false), " 42");
    assert_eq!(fmt_value(-5, 4, "°C", true), "  -5°C");
    assert_eq!(fmt_value(12345, 3, "", true), "12345");
    assert_eq!(fmt_value(i64::MIN, 0, "", false), "-9223372036854775808");
    assert_eq!(fmt_value(7, 3, "%", true), format!("{:>3}%", 7));
}

#[test]
fn mega_and_giga() {
    assert_eq!(fmt_mega(32_000_000_000, true), "30517 M");
    assert_eq!(fmt_giga(1_000_000_000_000, true), " 1000 G");
    assert_eq!(fmt_giga(999_999_999, false), "    0");
    // Values above i64::MAX wrap like `as i64` and divide toward zero.
    assert_eq!(fmt_mega(u64::MAX, false), format!("{:>5}", (u64::MAX as i64) / 1024 / 1024));
    assert_eq!(fmt_giga(u64::MAX - 5_000_000_000, false), format!("{:>5}", ((u64::MAX - 5_000_000_000) as i64) / 1_000_000_000));
}

fn reference_bytes2human(n: u64) -> String {
    let sym = ["B", "K", "M", "G", "T", "P"];
    let mut v = n as f64;
    let mut unit = "B";
    for s in sym {
        unit = s;
        if v < 1024.0 || s == "P" {
            break;
        }
        v /= 1024.0;
    }
    if unit == "B" {
        format!("{n}{unit}")
    } else {
        format!("{v:.1}{unit}")
    }
}

#[test]
fn bytes_human_readable() {
    assert_eq!(bytes2human(0), "0B");
    assert_eq!(bytes2human(1023), "1023B");
    assert_eq!(bytes2human(1024), "1.0K");
    assert_eq!(bytes2human(1_061_000_000), "1011.8M");
    assert_eq!(bytes2human(1024 * 1024 - 1), "1024.0K");
    for n in [
        1280u64,
        1331,
        1_536,
        10_240_000,
        999_999_999_999,
        1 << 50,
        (1 << 53) + 1,
        (1 << 60) + 12345,
        u64::MAX,
        u64::MAX - 1023,
        0x0020_0000_0000_0003,
    ] {
        assert_eq!(bytes2human(n), reference_bytes2human(n), "n = {n}");
    }
    let mut x: u64 = 0x1234_5678_9abc_def1;
    for _ in 0..2000 {
        x ^= x << 13;
        x ^= x >> 7;
        x ^= x << 17;
        let n = x >> (x % 64);
        assert_eq!(bytes2human(n), reference_bytes2human(n), "n = {n}");
    }
}

#[test]
fn uptime_like_timedelta() {
    assert_eq!(fmt_uptime(0), "0:00:00");
    assert_eq!(fmt_uptime(59), "0:00:59");
    assert_eq!(fmt_uptime(3661), "1:01:01");
    assert_eq!(fmt_uptime(90061), "1 day, 1:01:01");
    assert_eq!(fmt_uptime(86_400), "1 day, 0:00:00");
    assert_eq!(fmt_uptime(172_800), "2 days, 0:00:00");
    assert_eq!(fmt_uptime(4_294_036), "49 days, 16:47:16");
}

#[test]
fn decimal_text() {
    assert_eq!(dec_string(0), "0");
    assert_eq!(dec_string(u64::MAX), u64::MAX.to_string());
}

#[test]
fn string_helpers() {
    assert!(str_eq("abc", "abc"));
    assert!(!str_eq("abc", "abd"));
    assert!(lower_eq("TrUe", "true"));
    assert_eq!(ascii_lowercase("LandScape É"), "landscape É");
    assert_eq!(trim("\t hello \u{3000}"), "hello");
    assert_eq!(trim("   "), "");
    assert!(starts_with("fan2", "fan"));
    assert!(!starts_with("fa", "fan"));
}

#[test]
fn integer_parsing_like_std() {
    assert_eq!(parse_uint("255", 10, 255), Some(255));
    assert_eq!(parse_uint("256", 10, 255), None);
    assert_eq!(parse_uint("+7", 10, 255), Some(7));
    assert_eq!(parse_uint("+", 10, 255), None);
    assert_eq!(parse_uint("", 10, 255), None);
    assert_eq!(parse_uint("-1", 10, 255), None);
    assert_eq!(parse_uint("fF", 16, 255), Some(255));
    assert_eq!(parse_uint("18446744073709551615", 10, u64::MAX), Some(u64::MAX));
    assert_eq!(parse_uint("18446744073709551616", 10, u64::MAX), None);
    assert_eq!(parse_int("-2147483648", 10, 0x8000_0000, 0x7FFF_FFFF), Some(-2147483648));
    assert_eq!(parse_int("2147483648", 10, 0x8000_0000, 0x7FFF_FFFF), None);
    assert_eq!(parse_int("-", 10, 0x8000_0000, 0x7FFF_FFFF), None);
    for s in ["0", "12", "+12", "-12", "1a", "", " 1", "99999999999"] {
        assert_eq!(parse_int(s, 10, 0x8000_0000, 0x7FFF_FFFF).map(|v| v as i32), s.parse::<i32>().ok(), "{s}");
    }
}

#[test]
fn date_and_time_patterns() {
    assert_eq!(date_pattern("short"), "%-m/%-d/%y");
    assert_eq!(date_pattern("long"), "%B %-d, %Y");
    assert_eq!(date_pattern("full"), "%A, %B %-d, %Y");
    assert_eq!(date_pattern("medium"), "%b %-d, %Y");
    assert_eq!(date_pattern("Short"), "%b %-d, %Y");
    assert_eq!(time_pattern("short"), "%-I:%M %p");
    assert_eq!(time_pattern("long"), "%-I:%M:%S %p %Z");
    assert_eq!(time_pattern("full"), "%-I:%M:%S %p %Z");
    assert_eq!(time_pattern(""), "%-I:%M:%S %p");
    // The patterns on a fixed UTC instant (2024-03-05 14:07:09).
    let t = chrono::DateTime::from_timestamp(1709647629, 0).unwrap();
    assert_eq!(t.format(date_pattern("short")).to_string(), "3/5/24");
    assert_eq!(t.format(date_pattern("full")).to_string(), "Tuesday, March 5, 2024");
    assert_eq!(t.format(date_pattern("medium")).to_string(), "Mar 5, 2024");
    assert_eq!(t.format(time_pattern("short")).to_string(), "2:07 PM");
    assert_eq!(t.format(time_pattern("medium")).to_string(), "2:07:09 PM");
}
