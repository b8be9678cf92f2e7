use turing_smart_screen::config::{
    default_bg, default_brightness, default_com_port, default_font, default_hw_sensors, parse_rgb_string, theme_size_to_dims,
    value_to_bool, value_to_rgb, value_to_string, DisplayConfig, HwSensors, Orientation, Revision, Theme,
};
use turing_smart_screen::yaml::{
    as_bool, as_i32, as_string, child, get_bbox4, get_bool, get_i32, get_offset2, get_string, history_size, merge_yaml,
    path, yaml_eq, Yaml, YamlNumber,
};

fn s(t: &str) -> Yaml {
    Yaml::String(t.to_string())
}

fn n(v: u64) -> Yaml {
    Yaml::Number(YamlNumber::PosInt(v))
}

fn map(entries: Vec<(&str, Yaml)>) -> Yaml {
    Yaml::Mapping(entries.into_iter().map(|(k, v)| (s(k), v)).collect())
}

#[test]
fn hw_sensor_names() {
    assert_eq!(HwSensors::Auto.as_str(), "AUTO");
    assert_eq!(HwSensors::Static.as_str(), "STATIC");
    assert_eq!(HwSensors::Lhm.label(), "LibreHardwareMonitor (admin.)");
    assert_eq!(HwSensors::Stub.label(), "Fake random data");
    assert_eq!(Revision::WeActB.name(), "WeActB");
}

#[test]
fn panel_sizes() {
    assert_eq!(theme_size_to_dims(Some("0.96\"")), (80, 160));
    assert_eq!(theme_size_to_dims(Some("3.5\"")), (320, 480));
    assert_eq!(theme_size_to_dims(Some("5\"")), (480, 800));
    assert_eq!(theme_size_to_dims(Some("12.3\"")), (720, 1920));
    assert_eq!(theme_size_to_dims(Some("7\"")), (320, 480));
    assert_eq!(theme_size_to_dims(None), (320, 480));
}

#[test]
fn color_strings() {
    assert_eq!(parse_rgb_string("#fff"), Ok([255, 255, 255]));
    assert_eq!(parse_rgb_string("  #1A2b3C "), Ok([0x1a, 0x2b, 0x3c]));
    assert_eq!(parse_rgb_string(" 10, 20 ,30 "), Ok([10, 20, 30]));
    assert_eq!(parse_rgb_string("#+fffff"), Ok([15, 255, 255]));
    assert_eq!(parse_rgb_string("#12345"), Err("invalid hex color: #12345".to_string()));
    assert_eq!(parse_rgb_string("#ggg"), Err("invalid hex color: #ggg".to_string()));
    assert_eq!(parse_rgb_string("#ééé"), Err("invalid hex color: #ééé".to_string()));
    assert_eq!(parse_rgb_string("1,2,300"), Err("invalid RGB triplet: 1,2,300".to_string()));
    assert_eq!(
        parse_rgb_string("red"),
        Err("unsupported color 'red' (use \"r, g, b\", \"#rrggbb\" or [r,g,b])".to_string())
    );
    assert_eq!(
        parse_rgb_string("1,2"),
        Err("unsupported color '1,2' (use \"r, g, b\", \"#rrggbb\" or [r,g,b])".to_string())
    );
}

#[test]
fn color_values() {
    assert_eq!(value_to_rgb(&Yaml::Sequence(vec![n(1), n(2), n(3)])), Ok([1, 2, 3]));
    assert_eq!(value_to_rgb(&Yaml::Sequence(vec![n(1), Yaml::Number(YamlNumber::NegInt(-4)), n(3)])), Ok([1, 0, 3]));
    assert_eq!(value_to_rgb(&Yaml::Sequence(vec![n(1), n(256), n(3)])), Err("RGB value out of range: 256".to_string()));
    assert_eq!(value_to_rgb(&Yaml::Sequence(vec![n(1), s("x"), n(3)])), Err("RGB sequence item 1 not a number".to_string()));
    assert_eq!(value_to_rgb(&s("0, 0, 255")), Ok([0, 0, 255]));
    assert_eq!(value_to_rgb(&Yaml::Bool(true)), Err("unsupported color value".to_string()));
    assert_eq!(value_to_rgb(&Yaml::Sequence(vec![n(1)])), Err("unsupported color value".to_string()));
}

#[test]
fn lenient_scalars() {
    assert_eq!(value_to_bool(&s("Yes")), Some(true));
    assert_eq!(value_to_bool(&s("OFF")), Some(false));
    assert_eq!(value_to_bool(&s("maybe")), None);
    assert_eq!(value_to_bool(&n(2)), Some(true));
    assert_eq!(as_bool(&Yaml::Number(YamlNumber::NegInt(-1))), None);
    assert_eq!(value_to_string(&n(42)), Some("42".to_string()));
    assert_eq!(value_to_string(&Yaml::Bool(false)), Some("false".to_string()));
    assert_eq!(value_to_string(&Yaml::Null), None);
    assert_eq!(
        value_to_string(&Yaml::Sequence(vec![n(1), s("x"), Yaml::Number(YamlNumber::NegInt(-1))])),
        Some("1, 18446744073709551615".to_string())
    );
    assert_eq!(as_i32(&s(" -12 ")), Some(-12));
    assert_eq!(as_i32(&s("1.5")), None);
    assert_eq!(as_i32(&Yaml::Bool(true)), Some(1));
    assert_eq!(as_i32(&n(0x1_0000_0005)), Some(5));
    assert_eq!(as_i32(&Yaml::Number(YamlNumber::Float { text: "2.7".to_string(), truncated: 2 })), Some(2));
    assert_eq!(as_string(&Yaml::Number(YamlNumber::NegInt(-7))), Some("-7".to_string()));
    assert_eq!(as_string(&Yaml::Null), None);
}

#[test]
fn accessors_on_widget() {
    let w = map(vec![
        ("SHOW", s("True")),
        ("X", n(10)),
        ("CUSTOM_BBOX", Yaml::Sequence(vec![n(1), n(2), s("3"), Yaml::Null])),
        ("TEXT_OFFSET", Yaml::Sequence(vec![n(4), n(5)])),
        ("LINE_GRAPH", map(vec![("HISTORY_SIZE", n(1))])),
        ("FONT", s("a.ttf")),
    ]);
    assert!(get_bool(&w, "SHOW", false));
    assert!(get_bool(&w, "MISSING", true));
    assert_eq!(get_i32(&w, "X", 0), 10);
    assert_eq!(get_i32(&w, "Y", 7), 7);
    assert_eq!(get_string(&w, "FONT", "b.ttf"), "a.ttf");
    assert_eq!(get_string(&w, "ALIGN", "left"), "left");
    assert_eq!(get_bbox4(&w, "CUSTOM_BBOX"), [1, 2, 3, 0]);
    assert_eq!(get_offset2(&w, "TEXT_OFFSET"), [4, 5]);
    assert_eq!(get_offset2(&w, "CUSTOM_BBOX"), [0, 0]);
    assert_eq!(history_size(&w), 2);
    assert_eq!(history_size(&Yaml::Null), 10);
    assert!(child(&s("x"), "SHOW").is_none());
    let doc = map(vec![("STATS", map(vec![("CPU", map(vec![("INTERVAL", n(3))]))]))]);
    assert!(yaml_eq(path(&doc, &["STATS", "CPU", "INTERVAL"]).unwrap(), &n(3)));
    assert!(path(&doc, &["STATS", "GPU"]).is_none());
    assert!(yaml_eq(path(&doc, &[]).unwrap(), &doc));
}

#[test]
fn overlay_merge() {
    let base = map(vec![("a", n(1)), ("b", map(vec![("x", n(1)), ("y", n(2))]))]);
    let overlay = map(vec![("b", map(vec![("y", n(3)), ("z", n(4))])), ("c", n(5))]);
    let merged = merge_yaml(base, overlay);
    assert!(yaml_eq(child(&merged, "a").unwrap(), &n(1)));
    assert!(yaml_eq(child(&merged, "c").unwrap(), &n(5)));
    let b = child(&merged, "b").unwrap();
    assert!(yaml_eq(child(b, "x").unwrap(), &n(1)));
    assert!(yaml_eq(child(b, "y").unwrap(), &n(3)));
    assert!(yaml_eq(child(b, "z").unwrap(), &n(4)));
    // Entry order follows the map's swap-remove-then-append rule.
    let expected = map(vec![
        ("a", n(1)),
        ("b", map(vec![("x", n(1)), ("y", n(3)), ("z", n(4))])),
        ("c", n(5)),
    ]);
    assert!(yaml_eq(&merged, &expected));
    // Non-mappings: the overlay replaces the base.
    assert!(yaml_eq(&merge_yaml(map(vec![("a", n(1))]), n(7)), &n(7)));
    assert!(yaml_eq(&merge_yaml(n(7), map(vec![("a", n(1))])), &map(vec![("a", n(1))])));
}

#[test]
fn float_zero_keys_compare_equal() {
    let z = Yaml::Number(YamlNumber::Float { text: "0.0".to_string(), truncated: 0 });
    let nz = Yaml::Number(YamlNumber::Float { text: "-0.0".to_string(), truncated: 0 });
    assert!(yaml_eq(&z, &nz));
    assert!(!yaml_eq(&z, &n(0)));
}

#[test]
fn theme_header() {
    let merged = map(vec![(
        "display",
        map(vec![
            ("DISPLAY_SIZE", s("5\"")),
            ("DISPLAY_ORIENTATION", s("Landscape")),
            ("DISPLAY_RGB_LED", Yaml::Sequence(vec![n(1), n(2), n(3)])),
        ]),
    )]);
    let mut t = Theme::from_merged("t".to_string(), "res/themes/t".to_string(), merged).unwrap();
    assert_eq!((t.width, t.height), (480, 800));
    assert_eq!(t.display_rgb_led, [1, 2, 3]);
    assert_eq!(t.display_size.as_deref(), Some("5\""));
    assert_eq!(t.orientation, Orientation::Portrait);
    t.resolve_orientation(false);
    assert_eq!(t.orientation, Orientation::Landscape);
    assert_eq!(t.oriented_dims(), (800, 480));
    t.resolve_orientation(true);
    assert_eq!(t.orientation, Orientation::ReverseLandscape);

    let plain = Theme::from_merged("p".to_string(), "d".to_string(), Yaml::Null).unwrap();
    assert_eq!(plain.display_orientation, "portrait");
    assert_eq!((plain.width, plain.height), (320, 480));
    assert_eq!(plain.display_rgb_led, [255, 255, 255]);

    let bad = map(vec![("display", map(vec![("DISPLAY_RGB_LED", s("blue"))]))]);
    assert!(Theme::from_merged("b".to_string(), "d".to_string(), bad).is_err());

    // Tags on the sections and on the orientation value are looked through.
    let tag = |v: Yaml| Yaml::Tagged("t".to_string(), Box::new(v));
    let tagged = tag(map(vec![(
        "display",
        tag(map(vec![("DISPLAY_ORIENTATION", tag(s("landscape"))), ("DISPLAY_SIZE", s("3.5\""))])),
    )]));
    let t = Theme::from_merged("x".to_string(), "d".to_string(), tagged).unwrap();
    assert_eq!(t.display_orientation, "landscape");
    assert_eq!(t.display_size.as_deref(), Some("3.5\""));
}

#[test]
fn display_config_validation() {
    let ok = DisplayConfig { revision: Revision::A, brightness: 100, display_reverse: false, reset_on_startup: true };
    assert_eq!(ok.validate(), Ok(()));
    let bad = DisplayConfig { brightness: 101, ..ok };
    assert_eq!(bad.validate(), Err("BRIGHTNESS must be 0-100, got 101".to_string()));
}

#[test]
fn defaults() {
    assert_eq!(default_com_port(), "AUTO");
    assert_eq!(default_brightness(), 20);
    assert_eq!(default_bg(), [255, 255, 255]);
    assert_eq!(default_font(), "roboto-mono/RobotoMono-Regular.ttf");
}

fn three_keys() -> Yaml {
    Yaml::Mapping(vec![
        (s("a"), Yaml::Number(YamlNumber::PosInt(1))),
        (s("b"), Yaml::Mapping(vec![(s("x"), s("1")), (s("y"), s("2")), (s("z"), s("3"))])),
        (s("c"), Yaml::Number(YamlNumber::Float { text: "2.7".to_string(), truncated: 2 })),
    ])
}

#[test]
fn merging_a_document_with_itself_keeps_it() {
    let m = merge_yaml(three_keys(), three_keys());
    let orig = three_keys();
    for k in ["a", "b", "c"] {
        let got = child(&m, k).unwrap();
        let want = child(&orig, k).unwrap();
        if k == "b" {
            for j in ["x", "y", "z"] {
                assert!(yaml_eq(child(got, j).unwrap(), child(want, j).unwrap()));
            }
        } else {
            assert!(yaml_eq(got, want));
        }
    }
    // An empty overlay leaves the base as it is; a non-mapping overlay wins whole.
    assert!(yaml_eq(&merge_yaml(three_keys(), Yaml::Mapping(vec![])), &three_keys()));
    let f = Yaml::Number(YamlNumber::Float { text: "2.7".to_string(), truncated: 2 });
    assert_eq!(as_i32(&merge_yaml(three_keys(), f)), Some(2));
}

#[test]
fn sensor_keywords_are_distinct_and_default_is_auto() {
    let all = [HwSensors::Auto, HwSensors::Python, HwSensors::Lhm, HwSensors::Stub, HwSensors::Static];
    for (i, a) in all.iter().enumerate() {
        for (j, b) in all.iter().enumerate() {
            assert_eq!(i == j, a.as_str() == b.as_str());
        }
    }
    assert_eq!(default_hw_sensors().as_str(), "AUTO");
}

#[test]
fn non_ascii_hex_colours_are_errors() {
    assert!(value_to_rgb(&s("#\u{e9}1")).is_err());
    assert!(value_to_rgb(&s("#a\u{e9}1bc")).is_err());
    assert_eq!(value_to_rgb(&s("#0a1")), Ok([0, 170, 17]));
}

#[test]
fn merging_a_mapping_with_itself_keeps_its_entries_in_a_new_order() {
    let x = map(vec![("a", n(1)), ("b", n(2)), ("c", n(3))]);
    let merged = merge_yaml(map(vec![("a", n(1)), ("b", n(2)), ("c", n(3))]), x);
    assert_eq!(as_i32(child(&merged, "a").unwrap()), Some(1));
    assert_eq!(as_i32(child(&merged, "c").unwrap()), Some(3));
    match merged {
        Yaml::Mapping(m) => {
            let keys: Vec<String> = m.iter().map(|(k, _)| as_string(k).unwrap()).collect();
            assert_eq!(keys, vec!["b", "a", "c"]);
        }
        _ => panic!("mapping expected"),
    }
}
