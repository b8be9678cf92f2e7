//! Command-line arguments of the monitor: a small hand-rolled parser with
//! an exact statement of which argument lists are accepted and what each
//! one sets.

use vstd::prelude::*;
use crate::text::{parse_uint, parse_unsigned, str_eq};

verus! {

/// Parsed command line.
pub struct Args {
    pub config_path: String,
    pub themes_root: String,
    pub default_theme_file: String,
    pub theme_override: Option<String>,
    pub com_override: Option<String>,
    pub tick_ms: u64,
    pub dump_config: bool,
    pub sensors_once: bool,
    pub render_once: bool,
    pub daemon: bool,
    pub send_test: bool,
}

/// Abstract value of [`Args`]: every text as its characters.
pub struct ArgsV {
    pub config_path: Seq<char>,
    pub themes_root: Seq<char>,
    pub default_theme_file: Seq<char>,
    pub theme_override: Option<Seq<char>>,
    pub com_override: Option<Seq<char>>,
    pub tick_ms: u64,
    pub dump_config: bool,
    pub sensors_once: bool,
    pub render_once: bool,
    pub daemon: bool,
    pub send_test: bool,
}

pub open spec fn opt_text(o: Option<String>) -> Option<Seq<char>> {
    match o {
        Some(s) => Some(s@),
        None => None,
    }
}

impl View for Args {
    type V = ArgsV;

    open spec fn view(&self) -> ArgsV {
        ArgsV {
            config_path: self.config_path@,
            themes_root: self.themes_root@,
            default_theme_file: self.default_theme_file@,
            theme_override: opt_text(self.theme_override),
            com_override: opt_text(self.com_override),
            tick_ms: self.tick_ms,
            dump_config: self.dump_config,
            sensors_once: self.sensors_once,
            render_once: self.render_once,
            daemon: self.daemon,
            send_test: self.send_test,
        }
    }
}

/// What a command line asks for: a run with these settings, or the help text.
pub enum Parsed {
    Run(Args),
    Help,
}

/// Abstract outcome of parsing: a run, the help text, or an error message.
pub enum ParsedV {
    Run(ArgsV),
    Help,
    Failed(Seq<char>),
}

pub open spec fn parsed_v(r: Result<Parsed, String>) -> ParsedV {
    match r {
        Ok(Parsed::Run(a)) => ParsedV::Run(a@),
        Ok(Parsed::Help) => ParsedV::Help,
        Err(e) => ParsedV::Failed(e@),
    }
}

/// Settings before any argument is read.
pub open spec fn default_args() -> ArgsV {
    ArgsV {
        config_path: "config.yaml"@,
        themes_root: "res/themes"@,
        default_theme_file: "res/themes/default.yaml"@,
        theme_override: None,
        com_override: None,
        tick_ms: 1000,
        dump_config: false,
        sensors_once: false,
        render_once: false,
        daemon: false,
        send_test: false,
    }
}

pub open spec fn texts(argv: Seq<String>) -> Seq<Seq<char>> {
    argv.map_values(|s: String| s@)
}

pub open spec fn missing(flag: Seq<char>) -> Seq<char> {
    "missing value for "@ + flag
}

pub open spec fn unknown(arg: Seq<char>) -> Seq<char> {
    "unknown argument: "@ + arg + "\nRun with --help."@
}

/// Reading `argv` from index `i` on, with `acc` set so far: each flag sets
/// its switch, each option takes the next argument as its value, `-h` /
/// `--help` stops with the help text, and the first bad argument stops
/// with its message.
pub open spec fn parse_from(argv: Seq<Seq<char>>, i: int, acc: ArgsV) -> ParsedV
    decreases argv.len() - i,
{
    if i < 0 || i >= argv.len() {
        ParsedV::Run(acc)
    } else {
        let a = argv[i];
        let has_value = i + 1 < argv.len();
        let v = argv[i + 1];
        if a == "--dump-config"@ {
            parse_from(argv, i + 1, ArgsV { dump_config: true, ..acc })
        } else if a == "--sensors-once"@ {
            parse_from(argv, i + 1, ArgsV { sensors_once: true, ..acc })
        } else if a == "--render-once"@ {
            parse_from(argv, i + 1, ArgsV { render_once: true, ..acc })
        } else if a == "--daemon"@ {
            parse_from(argv, i + 1, ArgsV { daemon: true, ..acc })
        } else if a == "--send-test"@ {
            parse_from(argv, i + 1, ArgsV { send_test: true, ..acc })
        } else if a == "--com"@ {
            if !has_value {
                ParsedV::Failed(missing(a))
            } else {
                parse_from(argv, i + 2, ArgsV { com_override: Some(v), ..acc })
            }
        } else if a == "--tick-ms"@ {
            if !has_value {
                ParsedV::Failed(missing(a))
            } else {
                match parse_unsigned(v, 10) {
                    Some(t) => if t > u64::MAX {
                        ParsedV::Failed("invalid --tick-ms (milliseconds)"@)
                    } else if t == 0 {
                        ParsedV::Failed("invalid --tick-ms (must be > 0)"@)
                    } else {
                        parse_from(argv, i + 2, ArgsV { tick_ms: t as u64, ..acc })
                    },
                    None => ParsedV::Failed("invalid --tick-ms (milliseconds)"@),
                }
            }
        } else if a == "--config"@ {
            if !has_value {
                ParsedV::Failed(missing(a))
            } else {
                parse_from(argv, i + 2, ArgsV { config_path: v, ..acc })
            }
        } else if a == "--themes-root"@ {
            if !has_value {
                ParsedV::Failed(missing(a))
            } else {
                parse_from(argv, i + 2, ArgsV { themes_root: v, ..acc })
            }
        } else if a == "--default-theme"@ {
            if !has_value {
                ParsedV::Failed(missing(a))
            } else {
                parse_from(argv, i + 2, ArgsV { default_theme_file: v, ..acc })
            }
        } else if a == "--theme"@ {
            if !has_value {
                ParsedV::Failed(missing(a))
            } else {
                parse_from(argv, i + 2, ArgsV { theme_override: Some(v), ..acc })
            }
        } else if a == "-h"@ || a == "--help"@ {
            ParsedV::Help
        } else {
            ParsedV::Failed(unknown(a))
        }
    }
}

fn text_of(s: &str) -> (r: String)
    ensures
        r@ == s@,
{
    String::from_str(s)
}

fn missing_message(flag: &str) -> (r: String)
    ensures
        r@ == missing(flag@),
{
    let mut m = String::from_str("missing value for ");
    m.append(flag);
    m
}

/// Parses the arguments that follow the program name.
pub fn parse_args(argv: &Vec<String>) -> (r: Result<Parsed, String>)
    ensures
        parsed_v(r) == parse_from(texts(argv@), 0, default_args()),
{
    let ghost all = texts(argv@);
    let mut acc = Args {
        config_path: text_of("config.yaml"),
        themes_root: text_of("res/themes"),
        default_theme_file: text_of("res/themes/default.yaml"),
        theme_override: None,
        com_override: None,
        tick_ms: 1000,
        dump_config: false,
        sensors_once: false,
        render_once: false,
        daemon: false,
        send_test: false,
    };
    let n = argv.len();
    let mut i: usize = 0;
    assert(acc@ == default_args());
    while i < n
        invariant
            i <= n,
            n == argv@.len(),
            all == texts(argv@),
            parse_from(all, i as int, acc@) == parse_from(all, 0, default_args()),
        decreases n - i,
    {
        let a = argv[i].as_str();
        assert(a@ == all[i as int]);
        let has_value = i + 1 < n;
        if str_eq(a, "--dump-config") {
            acc.dump_config = true;
            i = i + 1;
        } else if str_eq(a, "--sensors-once") {
            acc.sensors_once = true;
            i = i + 1;
        } else if str_eq(a, "--render-once") {
            acc.render_once = true;
            i = i + 1;
        } else if str_eq(a, "--daemon") {
            acc.daemon = true;
            i = i + 1;
        } else if str_eq(a, "--send-test") {
            acc.send_test = true;
            i = i + 1;
        } else if str_eq(a, "--com") {
            if !has_value {
                return Err(missing_message(a));
            }
            assert(argv[i + 1]@ == all[i + 1]);
            acc.com_override = Some(argv[i + 1].clone());
            i = i + 2;
        } else if str_eq(a, "--tick-ms") {
            if !has_value {
                return Err(missing_message(a));
            }
            assert(argv[i + 1]@ == all[i + 1]);
            match parse_uint(argv[i + 1].as_str(), 10, u64::MAX) {
                None => {
                    return Err(text_of("invalid --tick-ms (milliseconds)"));
                },
                Some(t) => {
                    if t == 0 {
                        return Err(text_of("invalid --tick-ms (must be > 0)"));
                    }
                    acc.tick_ms = t;
                },
            }
            i = i + 2;
        } else if str_eq(a, "--config") {
            if !has_value {
                return Err(missing_message(a));
            }
            assert(argv[i + 1]@ == all[i + 1]);
            acc.config_path = argv[i + 1].clone();
            i = i + 2;
        } else if str_eq(a, "--themes-root") {
            if !has_value {
                return Err(missing_message(a));
            }
            assert(argv[i + 1]@ == all[i + 1]);
            acc.themes_root = argv[i + 1].clone();
            i = i + 2;
        } else if str_eq(a, "--default-theme") {
            if !has_value {
                return Err(missing_message(a));
            }
            assert(argv[i + 1]@ == all[i + 1]);
            acc.default_theme_file = argv[i + 1].clone();
            i = i + 2;
        } else if str_eq(a, "--theme") {
            if !has_value {
                return Err(missing_message(a));
            }
            assert(argv[i + 1]@ == all[i + 1]);
            acc.theme_override = Some(argv[i + 1].clone());
            i = i + 2;
        } else if str_eq(a, "-h") || str_eq(a, "--help") {
            return Ok(Parsed::Help);
        } else {
            let mut m = String::from_str("unknown argument: ");
            m.append(a);
            m.append("\nRun with --help.");
            return Err(m);
        }
    }
    Ok(Parsed::Run(acc))
}

} // verus!
