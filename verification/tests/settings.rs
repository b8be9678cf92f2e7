use turing_smart_screen::config::Revision;
use turing_smart_screen::settings::{save_settings, settings_can_be_saved};
use turing_smart_screen::yaml::{get_entry, yaml_eq, Yaml, YamlNumber};

fn s(t: &str) -> Yaml {
    Yaml::String(t.to_string())
}

fn map(e: Vec<(&str, Yaml)>) -> Yaml {
    Yaml::Mapping(e.into_iter().map(|(k, v)| (s(k), v)).collect())
}

#[test]
fn settings_are_written_in_place() {
    let doc = map(vec![
        ("config", map(vec![("THEME", s("Old")), ("PING", s("1.1.1.1"))])),
        ("display", Yaml::Null),
        ("extra", Yaml::Number(YamlNumber::PosInt(5))),
    ]);
    assert!(settings_can_be_saved(&doc));
    let out = save_settings(doc, "New", "COM4", Revision::TurUsb, 40, true);
    let expected = map(vec![
        ("config", map(vec![("THEME", s("New")), ("PING", s("1.1.1.1")), ("COM_PORT", s("COM4"))])),
        (
            "display",
            map(vec![
                ("REVISION", s("TUR_USB")),
                ("BRIGHTNESS", Yaml::Number(YamlNumber::PosInt(40))),
                ("DISPLAY_REVERSE", Yaml::Bool(true)),
            ]),
        ),
        ("extra", Yaml::Number(YamlNumber::PosInt(5))),
    ]);
    assert!(yaml_eq(&out, &expected));
}

#[test]
fn missing_sections_stay_missing() {
    let doc = map(vec![("other", s("x"))]);
    let out = save_settings(doc, "T", "AUTO", Revision::A, 20, false);
    assert!(yaml_eq(&out, &map(vec![("other", s("x"))])));
    // A tagged section is written through its tag.
    let tagged = map(vec![("config", Yaml::Tagged("t".to_string(), Box::new(map(vec![]))))]);
    let out = save_settings(tagged, "T", "AUTO", Revision::A, 20, false);
    let expected = map(vec![(
        "config",
        Yaml::Tagged("t".to_string(), Box::new(map(vec![("THEME", s("T")), ("COM_PORT", s("AUTO"))]))),
    )]);
    assert!(yaml_eq(&out, &expected));
}

#[test]
fn unwritable_sections_are_detected() {
    assert!(!settings_can_be_saved(&map(vec![("config", s("oops"))])));
    assert!(!settings_can_be_saved(&map(vec![("display", Yaml::Sequence(vec![]))])));
    assert!(!settings_can_be_saved(&map(vec![("display", Yaml::Tagged("t".to_string(), Box::new(Yaml::Null)))])));
    assert!(settings_can_be_saved(&Yaml::Null));
}

#[test]
fn saved_settings_read_back() {
    let doc = map(vec![
        ("display", map(vec![("BRIGHTNESS", Yaml::Number(YamlNumber::PosInt(90))), ("REVISION", s("A"))])),
        ("config", Yaml::Null),
    ]);
    let out = save_settings(doc, "Terminal", "/dev/ttyACM0", Revision::Simu, 15, false);
    let config = get_entry(&out, "config").unwrap();
    assert!(yaml_eq(get_entry(config, "THEME").unwrap(), &s("Terminal")));
    assert!(yaml_eq(get_entry(config, "COM_PORT").unwrap(), &s("/dev/ttyACM0")));
    let display = get_entry(&out, "display").unwrap();
    assert!(yaml_eq(get_entry(display, "REVISION").unwrap(), &s("SIMU")));
    assert!(yaml_eq(get_entry(display, "BRIGHTNESS").unwrap(), &Yaml::Number(YamlNumber::PosInt(15))));
    assert!(yaml_eq(get_entry(display, "DISPLAY_REVERSE").unwrap(), &Yaml::Bool(false)));
}
