//! Screen model and size catalog of the configuration window: which sizes
//! each model comes in, which hardware revision a model and size select,
//! and the model and size shown for a configured revision.

use vstd::prelude::*;
use vstd::string::StringExecFns;
use crate::config::Revision;
use crate::text::str_eq;

verus! {

pub const MODEL_TURING: &'static str = "Turing Smart Screen";
pub const MODEL_USBPC: &'static str = "UsbPCMonitor";
pub const MODEL_XUANFANG: &'static str = "XuanFang rev. B & flagship";
pub const MODEL_KIPYE: &'static str = "Kipye Qiye Smart Display";
pub const MODEL_WEACT: &'static str = "WeAct Studio Display FS V1";
pub const MODEL_SIMU: &'static str = "Simulated screen";

pub const SIZE_096: &'static str = "0.96\"";
pub const SIZE_21_28: &'static str = "2.1\" / 2.8\"";
pub const SIZE_28_ROUND: &'static str = "2.8\" round (V1.X new HW rev.)";
pub const SIZE_35: &'static str = "3.5\"";
pub const SIZE_46: &'static str = "4.6\"";
pub const SIZE_5: &'static str = "5\"";
pub const SIZE_52: &'static str = "5.2\"";
pub const SIZE_8: &'static str = "8\"";
pub const SIZE_88: &'static str = "8.8\"";
pub const SIZE_88_92_NEW: &'static str = "8.8\" / 9.2\" (V1.X new HW rev.)";
pub const SIZE_123: &'static str = "12.3\"";

/// Size options offered for a model (two defaults for unknown models).
pub open spec fn sizes_spec(model: Seq<char>) -> Seq<Seq<char>> {
    if model == MODEL_TURING@ {
        seq![SIZE_21_28@, SIZE_35@, SIZE_46@, SIZE_5@, SIZE_52@, SIZE_8@, SIZE_88@, SIZE_88_92_NEW@, SIZE_123@, SIZE_28_ROUND@]
    } else if model == MODEL_USBPC@ {
        seq![SIZE_35@, SIZE_5@]
    } else if model == MODEL_XUANFANG@ || model == MODEL_KIPYE@ {
        seq![SIZE_35@]
    } else if model == MODEL_WEACT@ {
        seq![SIZE_096@, SIZE_35@]
    } else {
        seq![SIZE_35@, SIZE_5@]
    }
}

/// Views of a list of texts.
pub open spec fn strs_v(v: Seq<&str>) -> Seq<Seq<char>> {
    Seq::new(v.len(), |i: int| v[i]@)
}

/// Size options of a model.
pub fn sizes_for_model(model: &str) -> (r: Vec<&'static str>)
    ensures
        strs_v(r@) == sizes_spec(model@),
{
    let mut r: Vec<&'static str> = Vec::new();
    if str_eq(model, MODEL_TURING) {
        r.push(SIZE_21_28);
        r.push(SIZE_35);
        r.push(SIZE_46);
        r.push(SIZE_5);
        r.push(SIZE_52);
        r.push(SIZE_8);
        r.push(SIZE_88);
        r.push(SIZE_88_92_NEW);
        r.push(SIZE_123);
        r.push(SIZE_28_ROUND);
    } else if str_eq(model, MODEL_USBPC) {
        r.push(SIZE_35);
        r.push(SIZE_5);
    } else if str_eq(model, MODEL_XUANFANG) || str_eq(model, MODEL_KIPYE) {
        r.push(SIZE_35);
    } else if str_eq(model, MODEL_WEACT) {
        r.push(SIZE_096);
        r.push(SIZE_35);
    } else {
        r.push(SIZE_35);
        r.push(SIZE_5);
    }
    assert(strs_v(r@) =~= sizes_spec(model@));
    r
}

/// Revision selected by a model and size; `None` for combinations that do
/// not exist.
pub open spec fn revision_spec(model: Seq<char>, size: Seq<char>) -> Option<Revision> {
    if model == MODEL_KIPYE@ && size == SIZE_35@ {
        Some(Revision::D)
    } else if model == MODEL_TURING@ && (size == SIZE_21_28@ || size == SIZE_5@ || size == SIZE_88@) {
        Some(Revision::C)
    } else if model == MODEL_TURING@ && size == SIZE_35@ {
        Some(Revision::A)
    } else if model == MODEL_TURING@ && (size == SIZE_46@ || size == SIZE_52@ || size == SIZE_8@ || size
        == SIZE_88_92_NEW@ || size == SIZE_123@ || size == SIZE_28_ROUND@) {
        Some(Revision::TurUsb)
    } else if model == MODEL_USBPC@ && (size == SIZE_35@ || size == SIZE_5@) {
        Some(Revision::A)
    } else if model == MODEL_XUANFANG@ && size == SIZE_35@ {
        Some(Revision::B)
    } else if model == MODEL_WEACT@ && size == SIZE_096@ {
        Some(Revision::WeActB)
    } else if model == MODEL_WEACT@ && size == SIZE_35@ {
        Some(Revision::WeActA)
    } else if model == MODEL_SIMU@ {
        Some(Revision::Simu)
    } else {
        None
    }
}

/// Revision for a model and size.
pub fn revision_for(model: &str, size: &str) -> (r: Option<Revision>)
    ensures
        r == revision_spec(model@, size@),
{
    let turing = str_eq(model, MODEL_TURING);
    let usbpc = str_eq(model, MODEL_USBPC);
    let weact = str_eq(model, MODEL_WEACT);
    if str_eq(model, MODEL_KIPYE) && str_eq(size, SIZE_35) {
        Some(Revision::D)
    } else if turing && (str_eq(size, SIZE_21_28) || str_eq(size, SIZE_5) || str_eq(size, SIZE_88)) {
        Some(Revision::C)
    } else if turing && str_eq(size, SIZE_35) {
        Some(Revision::A)
    } else if turing && (str_eq(size, SIZE_46) || str_eq(size, SIZE_52) || str_eq(size, SIZE_8) || str_eq(
        size,
        SIZE_88_92_NEW,
    ) || str_eq(size, SIZE_123) || str_eq(size, SIZE_28_ROUND)) {
        Some(Revision::TurUsb)
    } else if usbpc && (str_eq(size, SIZE_35) || str_eq(size, SIZE_5)) {
        Some(Revision::A)
    } else if str_eq(model, MODEL_XUANFANG) && str_eq(size, SIZE_35) {
        Some(Revision::B)
    } else if weact && str_eq(size, SIZE_096) {
        Some(Revision::WeActB)
    } else if weact && str_eq(size, SIZE_35) {
        Some(Revision::WeActA)
    } else if str_eq(model, MODEL_SIMU) {
        Some(Revision::Simu)
    } else {
        None
    }
}

/// Model and size option shown for a configured revision, given the
/// theme's `DISPLAY_SIZE` (empty when missing).
pub open spec fn model_size_spec(rev: Revision, ds: Seq<char>) -> (Seq<char>, Seq<char>) {
    match rev {
        Revision::D => (MODEL_KIPYE@, SIZE_35@),
        Revision::B => (MODEL_XUANFANG@, SIZE_35@),
        Revision::WeActA => (MODEL_WEACT@, SIZE_35@),
        Revision::WeActB => (MODEL_WEACT@, SIZE_096@),
        Revision::Simu => (MODEL_SIMU@, SIZE_35@),
        Revision::C => (
            MODEL_TURING@,
            if ds == "2.1\""@ || ds == "2.8\""@ {
                SIZE_21_28@
            } else if ds == "5\""@ {
                SIZE_5@
            } else if ds == "8.8\""@ {
                SIZE_88@
            } else {
                SIZE_35@
            },
        ),
        Revision::A => if ds == "5\""@ { (MODEL_USBPC@, SIZE_5@) } else { (MODEL_TURING@, SIZE_35@) },
        Revision::TurUsb => (
            MODEL_TURING@,
            if ds == "2.1\""@ || ds == "2.8\""@ {
                SIZE_28_ROUND@
            } else if ds == "4.6\""@ {
                SIZE_46@
            } else if ds == "5.2\""@ {
                SIZE_52@
            } else if ds == "8\""@ {
                SIZE_8@
            } else if ds == "9.2\""@ || ds == "8.8\""@ {
                SIZE_88_92_NEW@
            } else if ds == "12.3\""@ {
                SIZE_123@
            } else {
                SIZE_5@
            },
        ),
    }
}

/// Model and size option for a configured revision.
pub fn model_size_for(rev: Revision, display_size: Option<&str>) -> (r: (&'static str, &'static str))
    ensures
        (r.0@, r.1@) == model_size_spec(rev, match display_size {
            Some(s) => s@,
            None => ""@,
        }),
{
    let ds: &str = match display_size {
        Some(s) => s,
        None => "",
    };
    match rev {
        Revision::D => (MODEL_KIPYE, SIZE_35),
        Revision::B => (MODEL_XUANFANG, SIZE_35),
        Revision::WeActA => (MODEL_WEACT, SIZE_35),
        Revision::WeActB => (MODEL_WEACT, SIZE_096),
        Revision::Simu => (MODEL_SIMU, SIZE_35),
        Revision::C => (
            MODEL_TURING,
            if str_eq(ds, "2.1\"") || str_eq(ds, "2.8\"") {
                SIZE_21_28
            } else if str_eq(ds, "5\"") {
                SIZE_5
            } else if str_eq(ds, "8.8\"") {
                SIZE_88
            } else {
                SIZE_35
            },
        ),
        Revision::A => if str_eq(ds, "5\"") { (MODEL_USBPC, SIZE_5) } else { (MODEL_TURING, SIZE_35) },
        Revision::TurUsb => (
            MODEL_TURING,
            if str_eq(ds, "2.1\"") || str_eq(ds, "2.8\"") {
                SIZE_28_ROUND
            } else if str_eq(ds, "4.6\"") {
                SIZE_46
            } else if str_eq(ds, "5.2\"") {
                SIZE_52
            } else if str_eq(ds, "8\"") {
                SIZE_8
            } else if str_eq(ds, "9.2\"") || str_eq(ds, "8.8\"") {
                SIZE_88_92_NEW
            } else if str_eq(ds, "12.3\"") {
                SIZE_123
            } else {
                SIZE_5
            },
        ),
    }
}

/// A theme `DISPLAY_SIZE` belongs to a size option: the 2.x options take
/// 2.1" and 2.8", the 8.8" options take 8.8" and 9.2", others only their
/// own size.
pub open spec fn size_matches_spec(option: Seq<char>, ds: Seq<char>) -> bool {
    if option == SIZE_21_28@ || option == SIZE_28_ROUND@ {
        ds == "2.1\""@ || ds == "2.8\""@
    } else if option == SIZE_88@ || option == SIZE_88_92_NEW@ {
        ds == "8.8\""@ || ds == "9.2\""@
    } else {
        ds == option
    }
}

/// Whether a theme's `DISPLAY_SIZE` belongs to a size option.
pub fn size_matches(option: &str, display_size: &str) -> (b: bool)
    ensures
        b == size_matches_spec(option@, display_size@),
{
    if str_eq(option, SIZE_21_28) || str_eq(option, SIZE_28_ROUND) {
        str_eq(display_size, "2.1\"") || str_eq(display_size, "2.8\"")
    } else if str_eq(option, SIZE_88) || str_eq(option, SIZE_88_92_NEW) {
        str_eq(display_size, "8.8\"") || str_eq(display_size, "9.2\"")
    } else {
        str_eq(display_size, option)
    }
}

/// `REVISION` keyword of `config.yaml`.
pub open spec fn revision_keyword(rev: Revision) -> Seq<char> {
    match rev {
        Revision::A => "A"@,
        Revision::B => "B"@,
        Revision::C => "C"@,
        Revision::D => "D"@,
        Revision::TurUsb => "TUR_USB"@,
        Revision::WeActA => "WEACT_A"@,
        Revision::WeActB => "WEACT_B"@,
        Revision::Simu => "SIMU"@,
    }
}

/// The `REVISION` keyword of a revision.
pub fn revision_str(rev: Revision) -> (s: &'static str)
    ensures
        s@ == revision_keyword(rev),
{
    match rev {
        Revision::A => "A",
        Revision::B => "B",
        Revision::C => "C",
        Revision::D => "D",
        Revision::TurUsb => "TUR_USB",
        Revision::WeActA => "WEACT_A",
        Revision::WeActB => "WEACT_B",
        Revision::Simu => "SIMU",
    }
}

/// Views of `(name, size)` pairs.
pub open spec fn pairs_v(v: Seq<(String, String)>) -> Seq<(Seq<char>, Seq<char>)> {
    Seq::new(v.len(), |i: int| (v[i].0@, v[i].1@))
}

/// Size of the first theme called `name`, `?` when there is none.
pub open spec fn theme_size_spec(themes: Seq<(Seq<char>, Seq<char>)>, name: Seq<char>) -> Seq<char>
    decreases themes.len(),
{
    if themes.len() == 0 {
        "?"@
    } else if themes[0].0 == name {
        themes[0].1
    } else {
        theme_size_spec(themes.drop_first(), name)
    }
}

/// `DISPLAY_SIZE` recorded for theme `name`.
pub fn theme_size_of(themes: &Vec<(String, String)>, name: &str) -> (s: String)
    ensures
        s@ == theme_size_spec(pairs_v(themes@), name@),
{
    let mut i: usize = 0;
    assert(pairs_v(themes@).subrange(0, themes@.len() as int) =~= pairs_v(themes@));
    while i < themes.len()
        invariant
            i <= themes@.len(),
            theme_size_spec(pairs_v(themes@), name@) == theme_size_spec(
                pairs_v(themes@).subrange(i as int, themes@.len() as int),
                name@,
            ),
        decreases themes@.len() - i,
    {
        let ghost rest = pairs_v(themes@).subrange(i as int, themes@.len() as int);
        assert(rest.drop_first() =~= pairs_v(themes@).subrange(i + 1, themes@.len() as int));
        assert(rest[0] == (themes@[i as int].0@, themes@[i as int].1@));
        if str_eq(themes[i].0.as_str(), name) {
            return themes[i].1.clone();
        }
        i = i + 1;
    }
    assert(pairs_v(themes@).subrange(i as int, themes@.len() as int) =~= Seq::<(Seq<char>, Seq<char>)>::empty());
    String::from_str("?")
}

/// Names of the themes whose size belongs to the size option, in order.
pub open spec fn compatible_spec(themes: Seq<(Seq<char>, Seq<char>)>, size: Seq<char>) -> Seq<Seq<char>>
    decreases themes.len(),
{
    if themes.len() == 0 {
        Seq::empty()
    } else {
        let rest = compatible_spec(themes.drop_last(), size);
        if size_matches_spec(size, themes.last().1) { rest.push(themes.last().0) } else { rest }
    }
}

/// Themes offered for a size option.
pub fn compatible_themes(themes: &Vec<(String, String)>, size: &str) -> (r: Vec<String>)
    ensures
        crate::config::strings_v(r@) == compatible_spec(pairs_v(themes@), size@),
{
    let mut r: Vec<String> = Vec::new();
    let mut i: usize = 0;
    while i < themes.len()
        invariant
            i <= themes@.len(),
            crate::config::strings_v(r@) == compatible_spec(pairs_v(themes@).subrange(0, i as int), size@),
        decreases themes@.len() - i,
    {
        let ghost pre = pairs_v(themes@).subrange(0, i as int);
        assert(pairs_v(themes@).subrange(0, i + 1).drop_last() =~= pre);
        assert(pairs_v(themes@).subrange(0, i + 1).last() == (themes@[i as int].0@, themes@[i as int].1@));
        if size_matches(size, themes[i].1.as_str()) {
            let ghost prev = crate::config::strings_v(r@);
            r.push(themes[i].0.clone());
            assert(crate::config::strings_v(r@) =~= prev.push(themes@[i as int].0@));
        }
        i = i + 1;
    }
    assert(pairs_v(themes@).subrange(0, themes@.len() as int) =~= pairs_v(themes@));
    r
}

/// Size option kept when the model changes: the current one when the new
/// model offers it, else the model's first size.
pub fn size_for_model(model: &str, current: &str) -> (s: &'static str)
    ensures
        sizes_spec(model@).contains(current@) ==> s@ == current@,
        !sizes_spec(model@).contains(current@) ==> s@ == sizes_spec(model@)[0],
{
    let sizes = sizes_for_model(model);
    assert(sizes_spec(model@).len() >= 1);
    assert(strs_v(sizes@).len() == sizes@.len());
    let mut i: usize = 0;
    while i < sizes.len()
        invariant
            i <= sizes@.len(),
            sizes@.len() >= 1,
            strs_v(sizes@) == sizes_spec(model@),
            forall|j: int| 0 <= j < i ==> sizes_spec(model@)[j] != current@,
        decreases sizes@.len() - i,
    {
        if str_eq(sizes[i], current) {
            assert(sizes_spec(model@)[i as int] == current@);
            return sizes[i];
        }
        i = i + 1;
    }
    assert(!sizes_spec(model@).contains(current@));
    sizes[0]
}


/// What the configuration window does after the model or size changed.
pub enum ThemeSync {
    /// The model and size select no revision.
    InvalidCombination,
    /// The revision changes and the current theme fits the size.
    Keep(Revision),
    /// The revision changes and the theme is reset to this one, the first
    /// that fits the size.
    Reset(Revision, String),
    /// The revision changes but no theme fits the size.
    NoThemes(Revision),
}

/// Outcome of a model or size change, from the catalog and the theme list.
pub open spec fn sync_spec(
    model: Seq<char>,
    size: Seq<char>,
    themes: Seq<(Seq<char>, Seq<char>)>,
    current: Seq<char>,
) -> (Option<Revision>, Option<Seq<char>>, bool) {
    match revision_spec(model, size) {
        None => (None, None, false),
        Some(rev) => {
            let c = compatible_spec(themes, size);
            if c.contains(current) {
                (Some(rev), None, true)
            } else if c.len() > 0 {
                (Some(rev), Some(c[0]), true)
            } else {
                (Some(rev), None, false)
            }
        },
    }
}

/// Abstract form of a [`ThemeSync`]: revision, theme reset to, and
/// whether a fitting theme is selected afterwards.
pub open spec fn sync_v(t: ThemeSync) -> (Option<Revision>, Option<Seq<char>>, bool) {
    match t {
        ThemeSync::InvalidCombination => (None, None, false),
        ThemeSync::Keep(r) => (Some(r), None, true),
        ThemeSync::Reset(r, n) => (Some(r), Some(n@), true),
        ThemeSync::NoThemes(r) => (Some(r), None, false),
    }
}

/// Revision and theme after the model or size changed: the revision the
/// pair selects, and the current theme kept when it fits the size, else
/// the first theme that does.
pub fn sync_revision_theme(model: &str, size: &str, themes: &Vec<(String, String)>, current: &str) -> (r:
    ThemeSync)
    ensures
        sync_v(r) == sync_spec(model@, size@, pairs_v(themes@), current@),
{
    match revision_for(model, size) {
        None => ThemeSync::InvalidCombination,
        Some(rev) => {
            let c = compatible_themes(themes, size);
            let ghost cv = crate::config::strings_v(c@);
            let mut i: usize = 0;
            while i < c.len()
                invariant
                    i <= c@.len(),
                    cv == crate::config::strings_v(c@),
                    cv == compatible_spec(pairs_v(themes@), size@),
                    revision_spec(model@, size@) == Some(rev),
                    forall|j: int| 0 <= j < i ==> cv[j] != current@,
                decreases c@.len() - i,
            {
                if str_eq(c[i].as_str(), current) {
                    assert(cv[i as int] == current@);
                    assert(cv.contains(current@));
                    return ThemeSync::Keep(rev);
                }
                i = i + 1;
            }
            assert(!cv.contains(current@));
            if c.len() > 0 {
                assert(cv[0] == c@[0]@);
                ThemeSync::Reset(rev, c[0].clone())
            } else {
                ThemeSync::NoThemes(rev)
            }
        },
    }
}

/// The configuration window warns that a Turing 3.5" (revision A) panel
/// gets hot above 50 % brightness.
pub fn hot_panel_warning(brightness: u8, model: &str, size: &str) -> (b: bool)
    ensures
        b == (brightness > 50 && model@ == MODEL_TURING@ && size@ == SIZE_35@),
{
    brightness > 50 && str_eq(model, MODEL_TURING) && str_eq(size, SIZE_35)
}

/// Label of a serial-port choice: `AUTO` reads as automatic detection.
pub fn com_port_label(port: &str) -> (s: String)
    ensures
        s@ == (if port@ == "AUTO"@ { "Automatic detection"@ } else { port@ }),
{
    if str_eq(port, "AUTO") {
        String::from_str("Automatic detection")
    } else {
        String::from_str(port)
    }
}

proof fn lemma_catalog_texts()
    ensures
        MODEL_TURING@ == "Turing Smart Screen"@,
        MODEL_TURING@.len() == 19 && MODEL_TURING@[0] == 'T' && MODEL_TURING@[2] == 'r',
        MODEL_USBPC@ == "UsbPCMonitor"@,
        MODEL_USBPC@.len() == 12 && MODEL_USBPC@[0] == 'U' && MODEL_USBPC@[2] == 'b',
        MODEL_XUANFANG@ == "XuanFang rev. B & flagship"@,
        MODEL_XUANFANG@.len() == 26 && MODEL_XUANFANG@[0] == 'X' && MODEL_XUANFANG@[2] == 'a',
        MODEL_KIPYE@ == "Kipye Qiye Smart Display"@,
        MODEL_KIPYE@.len() == 24 && MODEL_KIPYE@[0] == 'K' && MODEL_KIPYE@[2] == 'p',
        MODEL_WEACT@ == "WeAct Studio Display FS V1"@,
        MODEL_WEACT@.len() == 26 && MODEL_WEACT@[0] == 'W' && MODEL_WEACT@[2] == 'A',
        MODEL_SIMU@ == "Simulated screen"@,
        MODEL_SIMU@.len() == 16 && MODEL_SIMU@[0] == 'S' && MODEL_SIMU@[2] == 'm',
        SIZE_096@ == "0.96\""@,
        SIZE_096@.len() == 5 && SIZE_096@[0] == '0' && SIZE_096@[2] == '9',
        SIZE_21_28@ == "2.1\" / 2.8\""@,
        SIZE_21_28@.len() == 11 && SIZE_21_28@[0] == '2' && SIZE_21_28@[2] == '1',
        SIZE_28_ROUND@ == "2.8\" round (V1.X new HW rev.)"@,
        SIZE_28_ROUND@.len() == 29 && SIZE_28_ROUND@[0] == '2' && SIZE_28_ROUND@[2] == '8',
        SIZE_35@ == "3.5\""@,
        SIZE_35@.len() == 4 && SIZE_35@[0] == '3' && SIZE_35@[2] == '5',
        SIZE_46@ == "4.6\""@,
        SIZE_46@.len() == 4 && SIZE_46@[0] == '4' && SIZE_46@[2] == '6',
        SIZE_5@ == "5\""@,
        SIZE_5@.len() == 2 && SIZE_5@[0] == '5',
        SIZE_52@ == "5.2\""@,
        SIZE_52@.len() == 4 && SIZE_52@[0] == '5' && SIZE_52@[2] == '2',
        SIZE_8@ == "8\""@,
        SIZE_8@.len() == 2 && SIZE_8@[0] == '8',
        SIZE_88@ == "8.8\""@,
        SIZE_88@.len() == 4 && SIZE_88@[0] == '8' && SIZE_88@[2] == '8',
        SIZE_88_92_NEW@ == "8.8\" / 9.2\" (V1.X new HW rev.)"@,
        SIZE_88_92_NEW@.len() == 30 && SIZE_88_92_NEW@[0] == '8' && SIZE_88_92_NEW@[2] == '8',
        SIZE_123@ == "12.3\""@,
        SIZE_123@.len() == 5 && SIZE_123@[0] == '1' && SIZE_123@[2] == '.',
        "2.1\""@.len() == 4 && "2.1\""@[0] == '2' && "2.1\""@[2] == '1',
        "2.8\""@.len() == 4 && "2.8\""@[0] == '2' && "2.8\""@[2] == '8',
        "9.2\""@.len() == 4 && "9.2\""@[0] == '9' && "9.2\""@[2] == '2',
{
    reveal_strlit("Turing Smart Screen");
    reveal_strlit("UsbPCMonitor");
    reveal_strlit("XuanFang rev. B & flagship");
    reveal_strlit("Kipye Qiye Smart Display");
    reveal_strlit("WeAct Studio Display FS V1");
    reveal_strlit("Simulated screen");
    reveal_strlit("0.96\"");
    reveal_strlit("2.1\" / 2.8\"");
    reveal_strlit("2.8\" round (V1.X new HW rev.)");
    reveal_strlit("3.5\"");
    reveal_strlit("4.6\"");
    reveal_strlit("5\"");
    reveal_strlit("5.2\"");
    reveal_strlit("8\"");
    reveal_strlit("8.8\"");
    reveal_strlit("8.8\" / 9.2\" (V1.X new HW rev.)");
    reveal_strlit("12.3\"");
    reveal_strlit("2.1\"");
    reveal_strlit("2.8\"");
    reveal_strlit("9.2\"");
}

/// The model and size shown for any configured revision are a model of
/// the catalog and one of the sizes it is offered in.
pub proof fn lemma_shown_size_is_offered(rev: Revision, ds: Seq<char>)
    ensures
        sizes_spec(model_size_spec(rev, ds).0).contains(model_size_spec(rev, ds).1),
{
    lemma_catalog_texts();
    let p = model_size_spec(rev, ds);
    let m = p.0;
    let s = p.1;
    let sizes = sizes_spec(m);
    if m == MODEL_TURING@ {
        assert(sizes == seq![SIZE_21_28@, SIZE_35@, SIZE_46@, SIZE_5@, SIZE_52@, SIZE_8@, SIZE_88@, SIZE_88_92_NEW@,
            SIZE_123@, SIZE_28_ROUND@]);
        if s == SIZE_21_28@ { assert(sizes[0] == s); }
        else if s == SIZE_35@ { assert(sizes[1] == s); }
        else if s == SIZE_46@ { assert(sizes[2] == s); }
        else if s == SIZE_5@ { assert(sizes[3] == s); }
        else if s == SIZE_52@ { assert(sizes[4] == s); }
        else if s == SIZE_8@ { assert(sizes[5] == s); }
        else if s == SIZE_88@ { assert(sizes[6] == s); }
        else if s == SIZE_88_92_NEW@ { assert(sizes[7] == s); }
        else if s == SIZE_123@ { assert(sizes[8] == s); }
        else { assert(sizes[9] == s); }
    } else if m == MODEL_USBPC@ {
        assert(sizes[1] == s);
    } else if m == MODEL_WEACT@ {
        if s == SIZE_096@ { assert(sizes[0] == s); } else { assert(sizes[1] == s); }
    } else {
        assert(sizes[0] == s);
    }
}

/// Every size a catalog model is offered in selects a revision.
pub proof fn lemma_offered_sizes_select_a_revision(model: Seq<char>, size: Seq<char>)
    requires
        model == MODEL_TURING@ || model == MODEL_USBPC@ || model == MODEL_XUANFANG@ || model == MODEL_KIPYE@ || model
            == MODEL_WEACT@ || model == MODEL_SIMU@,
        sizes_spec(model).contains(size),
    ensures
        revision_spec(model, size) is Some,
{
    lemma_catalog_texts();
    let sizes = sizes_spec(model);
    let i = choose|i: int| 0 <= i < sizes.len() && sizes[i] == size;
    if model == MODEL_TURING@ {
        assert(sizes == seq![SIZE_21_28@, SIZE_35@, SIZE_46@, SIZE_5@, SIZE_52@, SIZE_8@, SIZE_88@, SIZE_88_92_NEW@,
            SIZE_123@, SIZE_28_ROUND@]);
        assert(0 <= i < 10);
    }
}

/// The model and size shown for a configured revision select that revision
/// again, except Rev C and Turing USB with a theme size of another
/// revision (they fall back to a default size of a different revision).
pub proof fn lemma_shown_model_selects_revision(rev: Revision, ds: Seq<char>)
    requires
        rev == Revision::C ==> (ds == "2.1\""@ || ds == "2.8\""@ || ds == "5\""@ || ds == "8.8\""@),
        rev == Revision::TurUsb ==> (ds == "2.1\""@ || ds == "2.8\""@ || ds == "4.6\""@ || ds == "5.2\""@ || ds
            == "8\""@ || ds == "9.2\""@ || ds == "8.8\""@ || ds == "12.3\""@),
    ensures
        revision_spec(model_size_spec(rev, ds).0, model_size_spec(rev, ds).1) == Some(rev),
{
    lemma_catalog_texts();
    match rev {
        Revision::A => {
            if ds == "5\""@ {
                assert(model_size_spec(rev, ds) == (MODEL_USBPC@, SIZE_5@));
            } else {
                assert(model_size_spec(rev, ds) == (MODEL_TURING@, SIZE_35@));
            }
        },
        Revision::C => {
            if ds == "2.1\""@ || ds == "2.8\""@ {
                assert(model_size_spec(rev, ds) == (MODEL_TURING@, SIZE_21_28@));
            } else if ds == "5\""@ {
                assert(model_size_spec(rev, ds) == (MODEL_TURING@, SIZE_5@));
            } else {
                assert(model_size_spec(rev, ds) == (MODEL_TURING@, SIZE_88@));
            }
        },
        Revision::TurUsb => {
            let p = model_size_spec(rev, ds);
            assert(p.0 == MODEL_TURING@);
            assert(p.1 == SIZE_28_ROUND@ || p.1 == SIZE_46@ || p.1 == SIZE_52@ || p.1 == SIZE_8@ || p.1
                == SIZE_88_92_NEW@ || p.1 == SIZE_123@);
        },
        _ => {},
    }

}

} // verus!
