//! Configuration model: `config.yaml` sections, the theme header
//! (orientation, panel size, LED color), color parsing and the panel-size
//! table.

use vstd::prelude::*;
use vstd::string::StringExecFns;
use vstd::string::StrSliceExecFns;
use vstd::utf8::is_ascii_chars;
use crate::fmt::{dec, push_dec};
use crate::framebuf::Rgb;
use crate::text::{lower_eq, lower_seq, parse_uint, parse_unsigned, push_char, str_eq, trim, trim_spec};
use crate::yaml::{as_string, child, child_spec, get_entry, number_string, number_text, untag_ref, untagged, Yaml, YamlNumber};

verus! {

/// Sensor back-end selection (`HW_SENSORS`).
#[derive(Debug, Clone, Copy, PartialEq, Eq, Structural)]
pub enum HwSensors {
    Auto,
    Python,
    Lhm,
    Stub,
    Static,
}

impl HwSensors {
    /// Configuration keyword of the variant.
    pub open spec fn keyword(self) -> Seq<char> {
        match self {
            HwSensors::Auto => "AUTO"@,
            HwSensors::Python => "PYTHON"@,
            HwSensors::Lhm => "LHM"@,
            HwSensors::Stub => "STUB"@,
            HwSensors::Static => "STATIC"@,
        }
    }

    /// Human-readable description of the variant.
    pub open spec fn description(self) -> Seq<char> {
        match self {
            HwSensors::Auto => "Automatic"@,
            HwSensors::Python => "Python libraries"@,
            HwSensors::Lhm => "LibreHardwareMonitor (admin.)"@,
            HwSensors::Stub => "Fake random data"@,
            HwSensors::Static => "Fake static data"@,
        }
    }

    /// The keyword as written in `config.yaml`.
    pub fn as_str(&self) -> (s: &'static str)
        ensures
            s@ == self.keyword(),
    {
        match self {
            HwSensors::Auto => "AUTO",
            HwSensors::Python => "PYTHON",
            HwSensors::Lhm => "LHM",
            HwSensors::Stub => "STUB",
            HwSensors::Static => "STATIC",
        }
    }

    /// Label shown in the configuration window.
    pub fn label(&self) -> (s: &'static str)
        ensures
            s@ == self.description(),
    {
        match self {
            HwSensors::Auto => "Automatic",
            HwSensors::Python => "Python libraries",
            HwSensors::Lhm => "LibreHardwareMonitor (admin.)",
            HwSensors::Stub => "Fake random data",
            HwSensors::Static => "Fake static data",
        }
    }
}

/// Display hardware revision (`REVISION`).
#[derive(Debug, Clone, Copy, PartialEq, Eq, Structural)]
pub enum Revision {
    A,
    B,
    C,
    D,
    TurUsb,
    WeActA,
    WeActB,
    Simu,
}

impl Revision {
    /// Variant name as `Debug` prints it.
    pub open spec fn debug_name(self) -> Seq<char> {
        match self {
            Revision::A => "A"@,
            Revision::B => "B"@,
            Revision::C => "C"@,
            Revision::D => "D"@,
            Revision::TurUsb => "TurUsb"@,
            Revision::WeActA => "WeActA"@,
            Revision::WeActB => "WeActB"@,
            Revision::Simu => "Simu"@,
        }
    }

    /// The variant name.
    pub fn name(&self) -> (s: &'static str)
        ensures
            s@ == self.debug_name(),
    {
        match self {
            Revision::A => "A",
            Revision::B => "B",
            Revision::C => "C",
            Revision::D => "D",
            Revision::TurUsb => "TurUsb",
            Revision::WeActA => "WeActA",
            Revision::WeActB => "WeActB",
            Revision::Simu => "Simu",
        }
    }
}

/// Theme orientation.
#[derive(Debug, Clone, Copy, PartialEq, Eq, Structural)]
pub enum Orientation {
    Portrait,
    Landscape,
    ReversePortrait,
    ReverseLandscape,
}

/// The `display` section of `config.yaml`.
#[derive(Debug, Clone, Copy, PartialEq, Eq, Structural)]
pub struct DisplayConfig {
    pub revision: Revision,
    pub brightness: u8,
    pub display_reverse: bool,
    pub reset_on_startup: bool,
}

/// A `static_images` entry of a theme.
pub struct StaticImage {
    pub path: String,
    pub x: i32,
    pub y: i32,
    pub width: i32,
    pub height: i32,
}

/// A `static_text` entry of a theme.
pub struct StaticText {
    pub text: String,
    pub x: i32,
    pub y: i32,
    pub width: i32,
    pub height: i32,
    pub font: String,
    pub font_size: u32,
    pub font_color: Rgb,
    pub background_color: Rgb,
    pub background_image: Option<String>,
    pub align: String,
    pub anchor: String,
}

/// Default `COM_PORT`.
pub fn default_com_port() -> (s: String)
    ensures
        s@ == "AUTO"@,
{
    String::from_str("AUTO")
}

/// Default `THEME`.
pub fn default_theme() -> (s: String)
    ensures
        s@ == "3.5inchTheme2"@,
{
    String::from_str("3.5inchTheme2")
}

/// Each back-end has its own keyword: two different selections are never
/// written the same way in `config.yaml`.
pub proof fn lemma_keywords_distinct(a: HwSensors, b: HwSensors)
    ensures
        a != b ==> a.keyword() != b.keyword(),
{
    reveal_strlit("AUTO");
    reveal_strlit("PYTHON");
    reveal_strlit("LHM");
    reveal_strlit("STUB");
    reveal_strlit("STATIC");
    if a != b && a.keyword() == b.keyword() {
        assert(a.keyword()[0] == b.keyword()[0]);
        assert(a.keyword().len() == b.keyword().len());
    }
}

/// Default `HW_SENSORS`.
pub fn default_hw_sensors() -> (h: HwSensors)
    ensures
        h == HwSensors::Auto,
{
    HwSensors::Auto
}

/// Default `CPU_FAN`.
pub fn default_cpu_fan() -> (s: String)
    ensures
        s@ == "AUTO"@,
{
    String::from_str("AUTO")
}

/// Default `PING` target.
pub fn default_ping() -> (s: String)
    ensures
        s@ == "8.8.8.8"@,
{
    String::from_str("8.8.8.8")
}

/// Default `WEATHER_UNITS`.
pub fn default_weather_units() -> (s: String)
    ensures
        s@ == "metric"@,
{
    String::from_str("metric")
}

/// Default `WEATHER_LANGUAGE`.
pub fn default_weather_lang() -> (s: String)
    ensures
        s@ == "en"@,
{
    String::from_str("en")
}

/// Default `BRIGHTNESS` (percent).
pub fn default_brightness() -> (b: u8)
    ensures
        b == 20,
{
    20
}

/// Default for flags that are on unless configured off.
pub fn default_true() -> (b: bool)
    ensures
        b,
{
    true
}

/// Default static-text font.
pub fn default_font() -> (s: String)
    ensures
        s@ == "roboto-mono/RobotoMono-Regular.ttf"@,
{
    String::from_str("roboto-mono/RobotoMono-Regular.ttf")
}

/// Default static-text font size.
pub fn default_font_size() -> (n: u32)
    ensures
        n == 10,
{
    10
}

/// Default text color (black).
pub fn default_fg() -> (c: Rgb)
    ensures
        c == [0u8, 0u8, 0u8],
{
    [0, 0, 0]
}

/// Default background color (white).
pub fn default_bg() -> (c: Rgb)
    ensures
        c == [255u8, 255u8, 255u8],
{
    [255, 255, 255]
}

/// Default text alignment.
pub fn default_align() -> (s: String)
    ensures
        s@ == "left"@,
{
    String::from_str("left")
}

/// Default text anchor.
pub fn default_anchor() -> (s: String)
    ensures
        s@ == "lt"@,
{
    String::from_str("lt")
}

/// Native portrait pixel size of a panel given its `DISPLAY_SIZE`;
/// 320×480 for unknown or missing sizes.
pub open spec fn size_dims(size: Option<Seq<char>>) -> (u32, u32) {
    match size {
        Some(s) => if s == "0.96\""@ { (80, 160) }
        else if s == "2.1\""@ { (480, 480) }
        else if s == "2.8\""@ { (480, 480) }
        else if s == "3.5\""@ { (320, 480) }
        else if s == "4.6\""@ { (320, 960) }
        else if s == "5\""@ { (480, 800) }
        else if s == "5.2\""@ { (720, 1280) }
        else if s == "8\""@ { (800, 1280) }
        else if s == "8.8\""@ { (480, 1920) }
        else if s == "9.2\""@ { (480, 1920) }
        else if s == "12.3\""@ { (720, 1920) }
        else { (320, 480) },
        None => (320, 480),
    }
}

/// The panel sizes a theme can name, with their native portrait pixels.
pub open spec fn panel_sizes() -> Seq<(Seq<char>, (u32, u32))> {
    seq![
        ("0.96\""@, (80u32, 160u32)),
        ("2.1\""@, (480u32, 480u32)),
        ("2.8\""@, (480u32, 480u32)),
        ("3.5\""@, (320u32, 480u32)),
        ("4.6\""@, (320u32, 960u32)),
        ("5\""@, (480u32, 800u32)),
        ("5.2\""@, (720u32, 1280u32)),
        ("8\""@, (800u32, 1280u32)),
        ("8.8\""@, (480u32, 1920u32)),
        ("9.2\""@, (480u32, 1920u32)),
        ("12.3\""@, (720u32, 1920u32)),
    ]
}

/// A theme naming a size of [`panel_sizes`] gets that size's pixels; a
/// theme naming no size gets the 3.5" panel's 320×480.
pub proof fn lemma_size_table(i: int)
    ensures
        0 <= i < panel_sizes().len() ==> size_dims(Some(panel_sizes()[i].0)) == panel_sizes()[i].1,
        size_dims(None) == (320u32, 480u32),
{
    reveal_strlit("0.96\"");
    reveal_strlit("2.1\"");
    reveal_strlit("2.8\"");
    reveal_strlit("3.5\"");
    reveal_strlit("4.6\"");
    reveal_strlit("5\"");
    reveal_strlit("5.2\"");
    reveal_strlit("8\"");
    reveal_strlit("8.8\"");
    reveal_strlit("9.2\"");
    reveal_strlit("12.3\"");
    assert("0.96\""@.len() == 5 && "0.96\""@[0] == '0' && "0.96\""@[1] == '.' && "0.96\""@[2] == '9');
    assert("2.1\""@.len() == 4 && "2.1\""@[0] == '2' && "2.1\""@[1] == '.' && "2.1\""@[2] == '1');
    assert("2.8\""@.len() == 4 && "2.8\""@[0] == '2' && "2.8\""@[1] == '.' && "2.8\""@[2] == '8');
    assert("3.5\""@.len() == 4 && "3.5\""@[0] == '3' && "3.5\""@[1] == '.' && "3.5\""@[2] == '5');
    assert("4.6\""@.len() == 4 && "4.6\""@[0] == '4' && "4.6\""@[1] == '.' && "4.6\""@[2] == '6');
    assert("5\""@.len() == 2 && "5\""@[0] == '5' && "5\""@[1] == '\"');
    assert("5.2\""@.len() == 4 && "5.2\""@[0] == '5' && "5.2\""@[1] == '.' && "5.2\""@[2] == '2');
    assert("8\""@.len() == 2 && "8\""@[0] == '8' && "8\""@[1] == '\"');
    assert("8.8\""@.len() == 4 && "8.8\""@[0] == '8' && "8.8\""@[1] == '.' && "8.8\""@[2] == '8');
    assert("9.2\""@.len() == 4 && "9.2\""@[0] == '9' && "9.2\""@[1] == '.' && "9.2\""@[2] == '2');
    assert("12.3\""@.len() == 5 && "12.3\""@[0] == '1' && "12.3\""@[1] == '2' && "12.3\""@[2] == '.');
}

/// Panel size in pixels for a theme's `DISPLAY_SIZE`.
pub fn theme_size_to_dims(size: Option<&str>) -> (d: (u32, u32))
    ensures
        d == size_dims(match size {
            Some(s) => Some(s@),
            None => None,
        }),
{
    match size {
        Some(s) => if str_eq(s, "0.96\"") { (80, 160) }
        else if str_eq(s, "2.1\"") { (480, 480) }
        else if str_eq(s, "2.8\"") { (480, 480) }
        else if str_eq(s, "3.5\"") { (320, 480) }
        else if str_eq(s, "4.6\"") { (320, 960) }
        else if str_eq(s, "5\"") { (480, 800) }
        else if str_eq(s, "5.2\"") { (720, 1280) }
        else if str_eq(s, "8\"") { (800, 1280) }
        else if str_eq(s, "8.8\"") { (480, 1920) }
        else if str_eq(s, "9.2\"") { (480, 1920) }
        else if str_eq(s, "12.3\"") { (720, 1920) }
        else { (320, 480) },
        None => (320, 480),
    }
}

/// Orientation chosen by a theme's `DISPLAY_ORIENTATION` (any ASCII
/// case) and the `DISPLAY_REVERSE` flag; unknown names are portrait.
pub open spec fn orientation_for(name: Seq<char>, reverse: bool) -> Orientation {
    let o = lower_seq(name);
    if o == "landscape"@ {
        if reverse { Orientation::ReverseLandscape } else { Orientation::Landscape }
    } else if o == "portrait"@ && reverse {
        Orientation::ReversePortrait
    } else {
        Orientation::Portrait
    }
}

/// The same orientation turned upside down.
pub open spec fn flipped(o: Orientation) -> Orientation {
    match o {
        Orientation::Portrait => Orientation::ReversePortrait,
        Orientation::ReversePortrait => Orientation::Portrait,
        Orientation::Landscape => Orientation::ReverseLandscape,
        Orientation::ReverseLandscape => Orientation::Landscape,
    }
}

/// `DISPLAY_REVERSE` turns the picture upside down: for a theme whose
/// orientation is `portrait` or `landscape` (any ASCII case), the reversed
/// orientation is the plain one flipped, the plain one is not a reverse
/// variant, and a landscape name gives a landscape orientation either way.
/// Any other name gives portrait, reversed or not.
pub proof fn lemma_reverse_flips(name: Seq<char>)
    ensures
        lower_seq(name) == "portrait"@ || lower_seq(name) == "landscape"@ ==> {
            &&& orientation_for(name, true) == flipped(orientation_for(name, false))
            &&& orientation_for(name, true) != orientation_for(name, false)
            &&& (orientation_for(name, false) == Orientation::Portrait || orientation_for(name, false)
                == Orientation::Landscape)
            &&& (lower_seq(name) == "landscape"@ <==> (orientation_for(name, false) == Orientation::Landscape))
        },
        !(lower_seq(name) == "portrait"@ || lower_seq(name) == "landscape"@) ==> orientation_for(name, true)
            == Orientation::Portrait && orientation_for(name, false) == Orientation::Portrait,
{
    reveal_strlit("portrait");
    reveal_strlit("landscape");
    if lower_seq(name) == "portrait"@ {
        assert(lower_seq(name) != "landscape"@) by {
            assert(lower_seq(name)[0] != "landscape"@[0]);
        }
    }
}

/// Width and height after applying an orientation to a portrait size.
pub open spec fn oriented(o: Orientation, w: u32, h: u32) -> (u32, u32) {
    match o {
        Orientation::Portrait | Orientation::ReversePortrait => (w, h),
        Orientation::Landscape | Orientation::ReverseLandscape => (h, w),
    }
}

/// Pieces of `s` between occurrences of `sep` (empty pieces kept), as
/// `str::split` yields them.
pub open spec fn split_on(s: Seq<char>, sep: char) -> Seq<Seq<char>>
    decreases s.len(),
{
    if s.len() == 0 {
        seq![Seq::empty()]
    } else {
        let p = split_on(s.drop_last(), sep);
        if s.last() == sep {
            p.push(Seq::empty())
        } else {
            p.update(p.len() - 1, p.last().push(s.last()))
        }
    }
}

pub proof fn lemma_split_nonempty(s: Seq<char>, sep: char)
    ensures
        split_on(s, sep).len() >= 1,
    decreases s.len(),
{
    if s.len() > 0 {
        lemma_split_nonempty(s.drop_last(), sep);
    }
}

/// Views of a vector of strings.
pub open spec fn strings_v(v: Seq<String>) -> Seq<Seq<char>> {
    Seq::new(v.len(), |i: int| v[i]@)
}

/// `s` split on `sep`.
pub fn split_string(s: &str, sep: char) -> (parts: Vec<String>)
    ensures
        strings_v(parts@) == split_on(s@, sep),
{
    let n = s.unicode_len();
    let mut parts: Vec<String> = Vec::new();
    parts.push(String::new());
    assert(strings_v(parts@) =~= split_on(s@.subrange(0, 0), sep));
    let mut i: usize = 0;
    while i < n
        invariant
            i <= n,
            n == s@.len(),
            strings_v(parts@) == split_on(s@.subrange(0, i as int), sep),
        decreases n - i,
    {
        let c = s.get_char(i);
        let ghost pre = s@.subrange(0, i as int);
        let ghost prev = strings_v(parts@);
        proof {
            lemma_split_nonempty(pre, sep);
            assert(s@.subrange(0, i + 1).drop_last() =~= pre);
        }
        if c == sep {
            parts.push(String::new());
            assert(strings_v(parts@) =~= prev.push(Seq::empty()));
        } else {
            let mut last = parts.pop().unwrap();
            push_char(&mut last, c);
            parts.push(last);
            assert(strings_v(parts@) =~= prev.update(prev.len() - 1, prev.last().push(c)));
        }
        i = i + 1;
    }
    assert(s@.subrange(0, n as int) =~= s@);
    parts
}

/// A byte written by the digits `d` in base `radix`, if it fits.
pub open spec fn byte_of(d: Seq<char>, radix: nat) -> Option<u8> {
    match parse_unsigned(d, radix) {
        Some(v) => if v <= 255 { Some(v as u8) } else { None },
        None => None,
    }
}

/// Message for a malformed `#` color.
pub open spec fn hex_error(t: Seq<char>) -> Seq<char> {
    "invalid hex color: "@ + t
}

/// Message for a malformed `r, g, b` color.
pub open spec fn triplet_error(t: Seq<char>) -> Seq<char> {
    "invalid RGB triplet: "@ + t
}

/// Message for any other color text.
pub open spec fn unsupported_error(t: Seq<char>) -> Seq<char> {
    "unsupported color '"@ + t + "' (use \"r, g, b\", \"#rrggbb\" or [r,g,b])"@
}

/// Color written as `#rgb`, `#rrggbb` or `r, g, b` (surrounding
/// whitespace ignored, each triplet part trimmed, hex digits in any case).
/// Hex colors are read in ASCII only.
pub open spec fn rgb_from_str(s: Seq<char>) -> Result<Rgb, Seq<char>> {
    let t = trim_spec(s);
    if t.len() > 0 && t[0] == '#' {
        let h = t.drop_first();
        if !is_ascii_chars(t) {
            Err(hex_error(t))
        } else if h.len() == 3 {
            match (byte_of(seq![h[0], h[0]], 16), byte_of(seq![h[1], h[1]], 16), byte_of(seq![h[2], h[2]], 16)) {
                (Some(r), Some(g), Some(b)) => Ok([r, g, b]),
                _ => Err(hex_error(t)),
            }
        } else if h.len() == 6 {
            match (byte_of(h.subrange(0, 2), 16), byte_of(h.subrange(2, 4), 16), byte_of(h.subrange(4, 6), 16)) {
                (Some(r), Some(g), Some(b)) => Ok([r, g, b]),
                _ => Err(hex_error(t)),
            }
        } else {
            Err(hex_error(t))
        }
    } else {
        let p = split_on(t, ',');
        if p.len() == 3 {
            match (byte_of(trim_spec(p[0]), 10), byte_of(trim_spec(p[1]), 10), byte_of(trim_spec(p[2]), 10)) {
                (Some(r), Some(g), Some(b)) => Ok([r, g, b]),
                _ => Err(triplet_error(t)),
            }
        } else {
            Err(unsupported_error(t))
        }
    }
}

/// Exec view of a `Result` carrying a message.
pub open spec fn res_v(r: Result<Rgb, String>) -> Result<Rgb, Seq<char>> {
    match r {
        Ok(c) => Ok(c),
        Err(e) => Err(e@),
    }
}

fn parse_byte(d: &str, radix: u32) -> (r: Option<u8>)
    requires
        2 <= radix <= 36,
    ensures
        r == byte_of(d@, radix as nat),
{
    match parse_uint(d, radix, 255) {
        Some(v) => Some(v as u8),
        None => None,
    }
}

fn message(prefix: &str, t: &str, suffix: &str) -> (m: String)
    ensures
        m@ == prefix@ + t@ + suffix@,
{
    let mut m = String::from_str(prefix);
    m.append(t);
    m.append(suffix);
    m
}

/// Parses a color written as text.
pub fn parse_rgb_string(s: &str) -> (r: Result<Rgb, String>)
    ensures
        res_v(r) == rgb_from_str(s@),
{
    let t = trim(s);
    let n = t.unicode_len();
    proof {
        reveal_strlit("");
        assert(t@ + ""@ =~= t@);
    }
    if n > 0 && t.get_char(0) == '#' {
        let h = t.substring_char(1, n);
        assert(h@ =~= t@.drop_first());
        if !t.is_ascii() {
            return Err(message("invalid hex color: ", t, ""));
        }
        let m = n - 1;
        if m == 3 {
            let mut pr = String::new();
            push_char(&mut pr, h.get_char(0));
            push_char(&mut pr, h.get_char(0));
            let mut pg = String::new();
            push_char(&mut pg, h.get_char(1));
            push_char(&mut pg, h.get_char(1));
            let mut pb = String::new();
            push_char(&mut pb, h.get_char(2));
            push_char(&mut pb, h.get_char(2));
            assert(pr@ =~= seq![h@[0], h@[0]]);
            assert(pg@ =~= seq![h@[1], h@[1]]);
            assert(pb@ =~= seq![h@[2], h@[2]]);
            match (parse_byte(pr.as_str(), 16), parse_byte(pg.as_str(), 16), parse_byte(pb.as_str(), 16)) {
                (Some(r), Some(g), Some(b)) => Ok([r, g, b]),
                _ => Err(message("invalid hex color: ", t, "")),
            }
        } else if m == 6 {
            let r = parse_byte(h.substring_char(0, 2), 16);
            let g = parse_byte(h.substring_char(2, 4), 16);
            let b = parse_byte(h.substring_char(4, 6), 16);
            match (r, g, b) {
                (Some(r), Some(g), Some(b)) => Ok([r, g, b]),
                _ => Err(message("invalid hex color: ", t, "")),
            }
        } else {
            Err(message("invalid hex color: ", t, ""))
        }
    } else {
        let parts = split_string(t, ',');
        if parts.len() == 3 {
            assert(parts@[0]@ == split_on(t@, ',')[0]);
            assert(parts@[1]@ == split_on(t@, ',')[1]);
            assert(parts@[2]@ == split_on(t@, ',')[2]);
            let r = parse_byte(trim(parts[0].as_str()), 10);
            let g = parse_byte(trim(parts[1].as_str()), 10);
            let b = parse_byte(trim(parts[2].as_str()), 10);
            match (r, g, b) {
                (Some(r), Some(g), Some(b)) => Ok([r, g, b]),
                _ => Err(message("invalid RGB triplet: ", t, "")),
            }
        } else {
            Err(message("unsupported color '", t, "' (use \"r, g, b\", \"#rrggbb\" or [r,g,b])"))
        }
    }
}

/// Integer color component of a sequence item: non-negative integers as
/// they are, negative integers as 0.
pub open spec fn rgb_item(x: Yaml) -> Option<u64> {
    match x {
        Yaml::Number(YamlNumber::PosInt(u)) => Some(u),
        Yaml::Number(YamlNumber::NegInt(_)) => Some(0),
        _ => None,
    }
}

/// Message for a non-numeric item of a color sequence.
pub open spec fn item_error(i: nat) -> Seq<char> {
    "RGB sequence item "@ + dec(i) + " not a number"@
}

/// Message for a color component above 255.
pub open spec fn range_error(n: nat) -> Seq<char> {
    "RGB value out of range: "@ + dec(n)
}

/// Color of a YAML value: a three-item integer sequence, or text as
/// [`rgb_from_str`] reads it (numbers by their text).
pub open spec fn rgb_from_value(v: Yaml) -> Result<Rgb, Seq<char>> {
    match v {
        Yaml::Sequence(s) => if s@.len() == 3 {
            let a = rgb_item(s@[0]);
            let b = rgb_item(s@[1]);
            let c = rgb_item(s@[2]);
            if a is None {
                Err(item_error(0))
            } else if a.unwrap() > 255 {
                Err(range_error(a.unwrap() as nat))
            } else if b is None {
                Err(item_error(1))
            } else if b.unwrap() > 255 {
                Err(range_error(b.unwrap() as nat))
            } else if c is None {
                Err(item_error(2))
            } else if c.unwrap() > 255 {
                Err(range_error(c.unwrap() as nat))
            } else {
                Ok([a.unwrap() as u8, b.unwrap() as u8, c.unwrap() as u8])
            }
        } else {
            Err("unsupported color value"@)
        },
        Yaml::String(s) => rgb_from_str(s@),
        Yaml::Number(n) => rgb_from_str(number_text(n)),
        _ => Err("unsupported color value"@),
    }
}

fn color_item(x: &Yaml) -> (r: Option<u64>)
    ensures
        r == rgb_item(*x),
{
    match x {
        Yaml::Number(YamlNumber::PosInt(u)) => Some(*u),
        Yaml::Number(YamlNumber::NegInt(_)) => Some(0),
        _ => None,
    }
}

fn item_message(i: u64) -> (m: String)
    ensures
        m@ == item_error(i as nat),
{
    let mut m = String::from_str("RGB sequence item ");
    push_dec(&mut m, i);
    m.append(" not a number");
    m
}

fn range_message(n: u64) -> (m: String)
    ensures
        m@ == range_error(n as nat),
{
    let mut m = String::from_str("RGB value out of range: ");
    push_dec(&mut m, n);
    m
}

/// Color of a YAML value (`[r, g, b]`, `"r, g, b"`, `"#rrggbb"`, `"#rgb"`).
pub fn value_to_rgb(v: &Yaml) -> (r: Result<Rgb, String>)
    ensures
        res_v(r) == rgb_from_value(*v),
{
    match v {
        Yaml::Sequence(s) => {
            if s.len() != 3 {
                return Err(String::from_str("unsupported color value"));
            }
            let mut out: [u8; 3] = [0, 0, 0];
            let a = color_item(&s[0]);
            match a {
                None => { return Err(item_message(0)); },
                Some(n) => { if n > 255 { return Err(range_message(n)); } },
            }
            let b = color_item(&s[1]);
            match b {
                None => { return Err(item_message(1)); },
                Some(n) => { if n > 255 { return Err(range_message(n)); } },
            }
            let c = color_item(&s[2]);
            match c {
                None => { return Err(item_message(2)); },
                Some(n) => { if n > 255 { return Err(range_message(n)); } },
            }
            Ok([a.unwrap() as u8, b.unwrap() as u8, c.unwrap() as u8])
        },
        Yaml::String(s) => parse_rgb_string(s.as_str()),
        Yaml::Number(n) => {
            let t = number_string(n);
            parse_rgb_string(t.as_str())
        },
        _ => Err(String::from_str("unsupported color value")),
    }
}

/// Integer of a sequence item as `value_to_string` prints it: non-negative
/// integers as they are, negative ones reinterpreted as `u64`.
pub open spec fn text_item(x: Yaml) -> Option<u64> {
    match x {
        Yaml::Number(YamlNumber::PosInt(u)) => Some(u),
        Yaml::Number(YamlNumber::NegInt(i)) => Some(i as u64),
        _ => None,
    }
}

/// The integer items of `items` in decimal, joined by `, `.
pub open spec fn joined_numbers(items: Seq<Yaml>) -> Seq<char>
    decreases items.len(),
{
    if items.len() == 0 {
        Seq::empty()
    } else {
        let rest = joined_numbers(items.drop_last());
        match text_item(items.last()) {
            Some(u) => if rest.len() == 0 { dec(u as nat) } else { rest + ", "@ + dec(u as nat) },
            None => rest,
        }
    }
}

/// Text of a scalar value, or of a three-item sequence as its integer
/// items joined by `, `.
pub open spec fn text_of_value(v: Yaml) -> Option<Seq<char>> {
    match v {
        Yaml::Bool(b) => Some(if b { "true"@ } else { "false"@ }),
        Yaml::Number(n) => Some(number_text(n)),
        Yaml::String(s) => Some(s@),
        Yaml::Sequence(s) => if s@.len() == 3 { Some(joined_numbers(s@)) } else { None },
        _ => None,
    }
}

/// Text of a value, as configuration fields that accept either strings or
/// numbers read it.
pub fn value_to_string(v: &Yaml) -> (r: Option<String>)
    ensures
        r matches Some(s) ==> text_of_value(*v) == Some(s@),
        r is None ==> text_of_value(*v) is None,
{
    match v {
        Yaml::Sequence(items) => {
            if items.len() != 3 {
                return None;
            }
            let mut out = String::new();
            let mut i: usize = 0;
            while i < 3
                invariant
                    i <= 3,
                    items@.len() == 3,
                    out@ == joined_numbers(items@.subrange(0, i as int)),
                decreases 3 - i,
            {
                let ghost pre = items@.subrange(0, i as int);
                assert(items@.subrange(0, i + 1).drop_last() =~= pre);
                let item: Option<u64> = match &items[i] {
                    Yaml::Number(YamlNumber::PosInt(u)) => Some(*u),
                    Yaml::Number(YamlNumber::NegInt(k)) => Some(*k as u64),
                    _ => None,
                };
                match item {
                    Some(u) => {
                        if out.unicode_len() > 0 {
                            out.append(", ");
                        }
                        push_dec(&mut out, u);
                    },
                    None => {},
                }
                i = i + 1;
            }
            assert(items@.subrange(0, 3) =~= items@);
            Some(out)
        },
        Yaml::Null => None,
        _ => as_string(v),
    }
}

/// Lenient boolean of a configuration value (see `yaml::as_bool`).
pub fn value_to_bool(v: &Yaml) -> (r: Option<bool>)
    ensures
        r == crate::yaml::as_bool_spec(*v),
{
    crate::yaml::as_bool(v)
}

/// A theme: its header fields resolved from the merged YAML, its static
/// elements, and the merged document for the widgets.
pub struct Theme {
    pub name: String,
    pub dir: String,
    pub display_orientation: String,
    pub display_size: Option<String>,
    pub display_rgb_led: Rgb,
    pub width: u32,
    pub height: u32,
    pub orientation: Orientation,
    pub static_images: Vec<(String, StaticImage)>,
    pub static_texts: Vec<(String, StaticText)>,
    pub raw: Yaml,
}

/// `display.<key>` of a merged theme document.
pub open spec fn display_field(merged: Yaml, key: Seq<char>) -> Option<Yaml> {
    match child_spec(untagged(merged), "display"@) {
        Some(d) => child_spec(untagged(d), key),
        None => None,
    }
}

/// `DISPLAY_ORIENTATION` when it is a string, else `portrait`.
pub open spec fn orientation_name(merged: Yaml) -> Seq<char> {
    match display_field(merged, "DISPLAY_ORIENTATION"@) {
        Some(v) => match untagged(v) {
            Yaml::String(s) => s@,
            _ => "portrait"@,
        },
        None => "portrait"@,
    }
}

/// `DISPLAY_SIZE` as text, when present and not empty.
pub open spec fn size_name(merged: Yaml) -> Option<Seq<char>> {
    match display_field(merged, "DISPLAY_SIZE"@) {
        Some(v) => match text_of_value(v) {
            Some(t) => if t.len() > 0 { Some(t) } else { None },
            None => None,
        },
        None => None,
    }
}

/// `DISPLAY_RGB_LED` as a color (white when absent).
pub open spec fn led_color(merged: Yaml) -> Result<Rgb, Seq<char>> {
    match display_field(merged, "DISPLAY_RGB_LED"@) {
        Some(v) => rgb_from_value(v),
        None => Ok([255u8, 255u8, 255u8]),
    }
}

/// Optional string view.
pub open spec fn opt_str_v(o: Option<String>) -> Option<Seq<char>> {
    match o {
        Some(s) => Some(s@),
        None => None,
    }
}

impl Theme {
    /// Resolves the header of the merged document `merged` (theme laid over
    /// the defaults): orientation name, panel size and LED color. Fails
    /// only on an invalid LED color. Static elements start empty.
    pub fn from_merged(name: String, dir: String, merged: Yaml) -> (r: Result<Theme, String>)
        ensures
            match r {
                Ok(t) => {
                    &&& led_color(merged) == Ok::<Rgb, Seq<char>>(t.display_rgb_led)
                    &&& t.name@ == name@
                    &&& t.dir@ == dir@
                    &&& t.display_orientation@ == orientation_name(merged)
                    &&& opt_str_v(t.display_size) == size_name(merged)
                    &&& (t.width, t.height) == size_dims(size_name(merged))
                    &&& t.orientation == Orientation::Portrait
                    &&& t.static_images@.len() == 0
                    &&& t.static_texts@.len() == 0
                    &&& t.raw == merged
                },
                Err(e) => led_color(merged) == Err::<Rgb, Seq<char>>(e@),
            },
    {
        let (orientation_s, size, led) = {
            let display = get_entry(&merged, "display");
            let o: String = match display {
                Some(d) => match get_entry(d, "DISPLAY_ORIENTATION") {
                    Some(v) => match untag_ref(v) {
                        Yaml::String(s) => s.clone(),
                        _ => String::from_str("portrait"),
                    },
                    None => String::from_str("portrait"),
                },
                None => String::from_str("portrait"),
            };
            let sz: Option<String> = match display {
                Some(d) => match get_entry(d, "DISPLAY_SIZE") {
                    Some(v) => match value_to_string(v) {
                        Some(t) => if t.as_str().unicode_len() > 0 { Some(t) } else { None },
                        None => None,
                    },
                    None => None,
                },
                None => None,
            };
            let led: Result<Rgb, String> = match display {
                Some(d) => match get_entry(d, "DISPLAY_RGB_LED") {
                    Some(v) => value_to_rgb(v),
                    None => Ok([255, 255, 255]),
                },
                None => Ok([255, 255, 255]),
            };
            (o, sz, led)
        };
        let rgb = match led {
            Ok(c) => c,
            Err(e) => {
                return Err(e);
            },
        };
        let (w, h) = match &size {
            Some(s) => theme_size_to_dims(Some(s.as_str())),
            None => theme_size_to_dims(None),
        };
        Ok(Theme {
            name,
            dir,
            display_orientation: orientation_s,
            display_size: size,
            display_rgb_led: rgb,
            width: w,
            height: h,
            orientation: Orientation::Portrait,
            static_images: Vec::new(),
            static_texts: Vec::new(),
            raw: merged,
        })
    }

    /// Sets the orientation from the theme's orientation name and the
    /// `DISPLAY_REVERSE` flag.
    pub fn resolve_orientation(&mut self, reverse: bool)
        ensures
            final(self).orientation == orientation_for(old(self).display_orientation@, reverse),
            final(self).display_orientation == old(self).display_orientation,
            final(self).width == old(self).width,
            final(self).height == old(self).height,
            final(self).display_size == old(self).display_size,
            final(self).display_rgb_led == old(self).display_rgb_led,
            final(self).name == old(self).name,
            final(self).dir == old(self).dir,
            final(self).static_images == old(self).static_images,
            final(self).static_texts == old(self).static_texts,
            final(self).raw == old(self).raw,
    {
        let o = self.display_orientation.as_str();
        let landscape = lower_eq(o, "landscape");
        let portrait = lower_eq(o, "portrait");
        self.orientation = if landscape {
            if reverse { Orientation::ReverseLandscape } else { Orientation::Landscape }
        } else if portrait && reverse {
            Orientation::ReversePortrait
        } else {
            Orientation::Portrait
        };
    }

    /// Width and height with the orientation applied.
    pub fn oriented_dims(&self) -> (d: (u32, u32))
        ensures
            d == oriented(self.orientation, self.width, self.height),
    {
        match self.orientation {
            Orientation::Portrait | Orientation::ReversePortrait => (self.width, self.height),
            Orientation::Landscape | Orientation::ReverseLandscape => (self.height, self.width),
        }
    }
}

/// Message for an out-of-range brightness.
pub open spec fn brightness_error(b: u8) -> Seq<char> {
    "BRIGHTNESS must be 0-100, got "@ + dec(b as nat)
}

impl DisplayConfig {
    /// Checks the loaded values: brightness is a percentage.
    pub fn validate(&self) -> (r: Result<(), String>)
        ensures
            r is Ok <==> self.brightness <= 100,
            r matches Err(e) ==> e@ == brightness_error(self.brightness),
    {
        if self.brightness > 100 {
            let mut m = String::from_str("BRIGHTNESS must be 0-100, got ");
            push_dec(&mut m, self.brightness as u64);
            return Err(m);
        }
        Ok(())
    }
}

} // verus!
