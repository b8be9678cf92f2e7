use turing_smart_screen::cli::{parse_args, Parsed};

fn argv(a: &[&str]) -> Vec<String> {
    a.iter().map(|s| s.to_string()).collect()
}

#[test]
fn defaults_without_arguments() {
    match parse_args(&argv(&[])) {
        Ok(Parsed::Run(a)) => {
            assert_eq!(a.config_path, "config.yaml");
            assert_eq!(a.themes_root, "res/themes");
            assert_eq!(a.default_theme_file, "res/themes/default.yaml");
            assert_eq!(a.tick_ms, 1000);
            assert!(a.theme_override.is_none() && a.com_override.is_none());
            assert!(!a.dump_config && !a.sensors_once && !a.render_once && !a.daemon && !a.send_test);
        }
        _ => panic!("expected a run"),
    }
}

#[test]
fn flags_and_options() {
    let r = parse_args(&argv(&["--daemon", "--com", "COM3", "--tick-ms", "+250", "--theme", "Cyberpunk", "--config", "c.yaml"]));
    match r {
        Ok(Parsed::Run(a)) => {
            assert!(a.daemon && !a.send_test);
            assert_eq!(a.com_override.as_deref(), Some("COM3"));
            assert_eq!(a.tick_ms, 250);
            assert_eq!(a.theme_override.as_deref(), Some("Cyberpunk"));
            assert_eq!(a.config_path, "c.yaml");
        }
        _ => panic!("expected a run"),
    }
}

#[test]
fn argument_errors() {
    let err = |a: &[&str]| match parse_args(&argv(a)) {
        Err(e) => e,
        _ => panic!("expected an error"),
    };
    assert_eq!(err(&["--com"]), "missing value for --com");
    assert_eq!(err(&["--daemon", "--theme"]), "missing value for --theme");
    assert_eq!(err(&["--tick-ms", "abc"]), "invalid --tick-ms (milliseconds)");
    assert_eq!(err(&["--tick-ms", "-5"]), "invalid --tick-ms (milliseconds)");
    assert_eq!(err(&["--tick-ms", "18446744073709551616"]), "invalid --tick-ms (milliseconds)");
    assert_eq!(err(&["--tick-ms", "0"]), "invalid --tick-ms (must be > 0)");
    assert_eq!(err(&["--bogus"]), "unknown argument: --bogus\nRun with --help.");
}

#[test]
fn help_stops_parsing() {
    assert!(matches!(parse_args(&argv(&["--daemon", "-h", "--bogus"])), Ok(Parsed::Help)));
    assert!(matches!(parse_args(&argv(&["--help"])), Ok(Parsed::Help)));
}
