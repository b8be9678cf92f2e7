//! Theme widget support: widget backgrounds (solid color or a crop of the
//! theme's background image), text-widget settings, the decoded-image
//! cache and dirty-rectangle bookkeeping.

use vstd::prelude::*;
use vstd::string::StringExecFns;
use vstd::string::StrSliceExecFns;
use crate::config::{res_v, rgb_from_value, value_to_rgb};
use crate::framebuf::{clip, in_box, lemma_index_bounds, max_int, min_int, rgb_at, Rect, Rgb};
use crate::text::{ascii_lowercase, lower_seq};
use crate::config::strings_v;
use crate::text::str_eq;
use crate::yaml::{
    as_string, as_string_spec, child, child_spec, entries_v, get_bool, get_bool_spec, get_i32, get_i32_spec,
    get_string, get_string_spec, items_v, yv, Yaml, YamlV,
};

verus! {

/// Background source of a widget canvas, in display coordinates.
pub enum Bg<'a> {
    Solid(Rgb),
    /// Crop from a full-screen RGB8 image of `w`×`h` pixels.
    Crop { rgb: &'a [u8], w: u32, h: u32 },
}

impl<'a> Bg<'a> {
    /// A cropped image holds at least `w * h` pixels.
    pub open spec fn wf(&self) -> bool {
        match *self {
            Bg::Solid(_) => true,
            Bg::Crop { rgb, w, h } => rgb@.len() >= w as int * h as int * 3,
        }
    }

    /// Background color at display pixel `(x, y)`: the solid color, or the
    /// image pixel (black outside the image).
    pub open spec fn color_at(&self, x: int, y: int) -> Rgb {
        match *self {
            Bg::Solid(c) => c,
            Bg::Crop { rgb, w, h } => if 0 <= x < w && 0 <= y < h {
                rgb_at(rgb@, (y * w + x) * 3)
            } else {
                [0u8, 0u8, 0u8]
            },
        }
    }

    /// Background color at display pixel `(x, y)`.
    pub fn at(&self, x: i32, y: i32) -> (c: Rgb)
        requires
            self.wf(),
        ensures
            c == self.color_at(x as int, y as int),
    {
        match self {
            Bg::Solid(c) => *c,
            Bg::Crop { rgb, w, h } => {
                if x >= 0 && y >= 0 && (x as u32) < *w && (y as u32) < *h {
                    proof {
                        lemma_index_bounds(*w as int, *h as int, x as int, y as int);
                    }
                    let n = rgb.len();
                    assert((y as int * *w as int + x as int) * 3 + 2 < n);
                    let i = (y as usize * *w as usize + x as usize) * 3;
                    [rgb[i], rgb[i + 1], rgb[i + 2]]
                } else {
                    [0, 0, 0]
                }
            },
        }
    }
}

/// Fills a `w`×`h` RGB8 canvas placed at display `(ox, oy)` from `bg`. A
/// solid background fills every whole pixel of `buf`.
pub fn paint_canvas(buf: &mut [u8], w: u32, h: u32, ox: i32, oy: i32, bg: &Bg)
    requires
        bg.wf(),
        bg is Crop ==> {
            &&& w as int * h as int * 3 <= old(buf)@.len()
            &&& w <= 0x8000_0000 && h <= 0x8000_0000
            &&& ox + w <= 0x8000_0000
            &&& oy + h <= 0x8000_0000
        },
    ensures
        final(buf)@.len() == old(buf)@.len(),
        bg matches Bg::Solid(c) ==> forall|i: int|
            0 <= i < old(buf)@.len() ==> #[trigger] final(buf)@[i] == if i < old(buf)@.len() / 3 * 3 {
                c[i % 3]
            } else {
                old(buf)@[i]
            },
        bg is Crop ==> {
            &&& forall|x: int, y: int|
                0 <= x < w && 0 <= y < h ==> #[trigger] rgb_at(final(buf)@, (y * w + x) * 3) == bg.color_at(
                    ox + x,
                    oy + y,
                )
            &&& forall|i: int| w * h * 3 <= i < old(buf)@.len() ==> #[trigger] final(buf)@[i] == old(buf)@[i]
        },
{
    match bg {
        Bg::Solid(c) => {
            let n = buf.len();
            let k_end = n / 3;
            let mut k: usize = 0;
            while k < k_end
                invariant
                    k <= k_end,
                    k_end == n / 3,
                    n == buf@.len(),
                    n == old(buf)@.len(),
                    forall|i: int| 0 <= i < n ==> #[trigger] buf@[i] == if i < k * 3 { c[i % 3] } else { old(buf)@[i] },
                decreases k_end - k,
            {
                let i = k * 3;
                buf[i] = c[0];
                buf[i + 1] = c[1];
                buf[i + 2] = c[2];
                k = k + 1;
            }
        },
        Bg::Crop { .. } => {
            let ghost wi = w as int;
            let mut y: u32 = 0;
            while y < h
                invariant
                    y <= h,
                    bg.wf(),
                    bg is Crop,
                    w as int * h as int * 3 <= buf@.len(),
                    buf@.len() == old(buf)@.len(),
                    w <= 0x8000_0000 && h <= 0x8000_0000,
                    ox + w <= 0x8000_0000,
                    oy + h <= 0x8000_0000,
                    forall|a: int, b: int|
                        0 <= a < w && 0 <= b < y ==> #[trigger] rgb_at(buf@, (b * w + a) * 3) == bg.color_at(ox + a, oy + b),
                    forall|i: int| y * w * 3 <= i < buf@.len() ==> #[trigger] buf@[i] == old(buf)@[i],
                decreases h - y,
            {
                let mut x: u32 = 0;
                while x < w
                    invariant
                        x <= w,
                        y < h,
                        bg.wf(),
                        bg is Crop,
                        w as int * h as int * 3 <= buf@.len(),
                        buf@.len() == old(buf)@.len(),
                        w <= 0x8000_0000 && h <= 0x8000_0000,
                        ox + w <= 0x8000_0000,
                        oy + h <= 0x8000_0000,
                        forall|a: int, b: int|
                            0 <= a < w && 0 <= b < y ==> #[trigger] rgb_at(buf@, (b * w + a) * 3) == bg.color_at(ox + a, oy + b),
                        forall|a: int| 0 <= a < x ==> #[trigger] rgb_at(buf@, (y * w + a) * 3) == bg.color_at(ox + a, oy + y),
                        forall|i: int| (y * w + x) * 3 <= i < buf@.len() ==> #[trigger] buf@[i] == old(buf)@[i],
                    decreases w - x,
                {
                    let c = bg.at(ox + x as i32, oy + y as i32);
                    proof {
                        lemma_index_bounds(w as int, h as int, x as int, y as int);
                    }
                    let n = buf.len();
                    assert((y as int * w as int + x as int) * 3 + 2 < n);
                    let i = (y as usize * w as usize + x as usize) * 3;
                    let ghost before = buf@;
                    buf[i] = c[0];
                    buf[i + 1] = c[1];
                    buf[i + 2] = c[2];
                    proof {
                        assert forall|a: int, b: int| 0 <= a < w && 0 <= b < y implies #[trigger] rgb_at(buf@, (b * w + a) * 3)
                            == bg.color_at(ox + a, oy + b) by {
                            lemma_index_bounds(w as int, h as int, a, b);
                            assert(b * w + a < y * w + x) by (nonlinear_arith)
                                requires 0 <= a < w, 0 <= b < y, 0 <= x;
                            assert(rgb_at(buf@, (b * w + a) * 3) == rgb_at(before, (b * w + a) * 3));
                        }
                        assert forall|a: int| 0 <= a < x + 1 implies #[trigger] rgb_at(buf@, (y * w + a) * 3)
                            == bg.color_at(ox + a, oy + y) by {
                            if a < x {
                                assert(rgb_at(buf@, (y * w + a) * 3) == rgb_at(before, (y * w + a) * 3));
                            }
                        }
                    }
                    x = x + 1;
                }
                proof {
                    assert((y + 1) * w == y * w + w) by (nonlinear_arith);
                    assert forall|a: int, b: int| 0 <= a < w && 0 <= b < y + 1 implies #[trigger] rgb_at(buf@, (b * w + a) * 3)
                        == bg.color_at(ox + a, oy + b) by {
                        if b == y {
                            assert(rgb_at(buf@, (y * w + a) * 3) == bg.color_at(ox + a, oy + y));
                        }
                    }
                }
                y = y + 1;
            }
            assert(h * w == w * h) by (nonlinear_arith);
        },
    }
}

/// Color under `key`: the configured color when it parses, else
/// `default`.
pub open spec fn get_rgb_spec(v: Yaml, key: Seq<char>, default: Rgb) -> Rgb {
    match child_spec(v, key) {
        Some(c) => match rgb_from_value(c) {
            Ok(rgb) => rgb,
            Err(_) => default,
        },
        None => default,
    }
}

/// Color under `key`, or `default` when absent or invalid.
pub fn get_rgb(v: &Yaml, key: &str, default: Rgb) -> (c: Rgb)
    ensures
        c == get_rgb_spec(*v, key@, default),
{
    match child(v, key) {
        Some(c) => match value_to_rgb(c) {
            Ok(rgb) => rgb,
            Err(_) => default,
        },
        None => default,
    }
}

/// Settings of a text widget.
pub struct TextW {
    pub x: i32,
    pub y: i32,
    pub w: i32,
    pub h: i32,
    pub font: String,
    pub font_size: u32,
    pub fg: Rgb,
    pub bg: Rgb,
    pub bg_image: Option<String>,
    pub align: String,
    pub anchor: String,
    pub show_unit: bool,
    pub format: String,
}

/// Optional text view.
pub open spec fn opt_text(o: Option<String>) -> Option<Seq<char>> {
    match o {
        Some(s) => Some(s@),
        None => None,
    }
}

/// `BACKGROUND_IMAGE` of a widget as text.
pub open spec fn bg_image_spec(v: Yaml) -> Option<Seq<char>> {
    match child_spec(v, "BACKGROUND_IMAGE"@) {
        Some(c) => as_string_spec(c),
        None => None,
    }
}

impl TextW {
    /// `SHOW`n text widget with its settings read leniently (defaults as
    /// the drawing functions use them); `None` when the widget is hidden.
    pub fn parse(v: &Yaml) -> (r: Option<TextW>)
        ensures
            r is Some <==> get_bool_spec(*v, "SHOW"@, false),
            r matches Some(t) ==> {
                &&& t.x == get_i32_spec(*v, "X"@, 0)
                &&& t.y == get_i32_spec(*v, "Y"@, 0)
                &&& t.w == get_i32_spec(*v, "WIDTH"@, 0)
                &&& t.h == get_i32_spec(*v, "HEIGHT"@, 0)
                &&& t.font@ == get_string_spec(*v, "FONT"@, "roboto-mono/RobotoMono-Regular.ttf"@)
                &&& t.font_size == (if get_i32_spec(*v, "FONT_SIZE"@, 10) < 1 { 1 } else { get_i32_spec(
                    *v,
                    "FONT_SIZE"@,
                    10,
                ) }) as u32
                &&& t.fg == get_rgb_spec(*v, "FONT_COLOR"@, [0u8, 0u8, 0u8])
                &&& t.bg == get_rgb_spec(*v, "BACKGROUND_COLOR"@, [255u8, 255u8, 255u8])
                &&& opt_text(t.bg_image) == bg_image_spec(*v)
                &&& t.align@ == lower_seq(get_string_spec(*v, "ALIGN"@, "left"@))
                &&& t.anchor@ == lower_seq(get_string_spec(*v, "ANCHOR"@, "lt"@))
                &&& t.show_unit == get_bool_spec(*v, "SHOW_UNIT"@, true)
                &&& t.format@ == get_string_spec(*v, "FORMAT"@, "medium"@)
            },
    {
        if !get_bool(v, "SHOW", false) {
            return None;
        }
        let fs = get_i32(v, "FONT_SIZE", 10);
        let bg_image = match child(v, "BACKGROUND_IMAGE") {
            Some(c) => as_string(c),
            None => None,
        };
        let align = get_string(v, "ALIGN", "left");
        let anchor = get_string(v, "ANCHOR", "lt");
        Some(TextW {
            x: get_i32(v, "X", 0),
            y: get_i32(v, "Y", 0),
            w: get_i32(v, "WIDTH", 0),
            h: get_i32(v, "HEIGHT", 0),
            font: get_string(v, "FONT", "roboto-mono/RobotoMono-Regular.ttf"),
            font_size: (if fs < 1 { 1 } else { fs }) as u32,
            fg: get_rgb(v, "FONT_COLOR", [0, 0, 0]),
            bg: get_rgb(v, "BACKGROUND_COLOR", [255, 255, 255]),
            bg_image,
            align: ascii_lowercase(align.as_str()),
            anchor: ascii_lowercase(anchor.as_str()),
            show_unit: get_bool(v, "SHOW_UNIT", true),
            format: get_string(v, "FORMAT", "medium"),
        })
    }
}

/// Records a dirty rectangle; absent and empty rectangles are dropped.
pub fn mark_rect(dirty: &mut Vec<Rect>, r: Option<Rect>)
    ensures
        r matches Some(x) && x.x0 < x.x1 && x.y0 < x.y1 ==> final(dirty)@ == old(dirty)@.push(r->0),
        !(r matches Some(x) && x.x0 < x.x1 && x.y0 < x.y1) ==> final(dirty)@ == old(dirty)@,
{
    match r {
        Some(x) => {
            if x.valid() {
                dirty.push(x);
            }
        },
        None => {},
    }
}

/// A decoded RGB8 image.
pub struct DecodedImage {
    pub w: u32,
    pub h: u32,
    pub rgb: Vec<u8>,
}

/// Images decoded once per theme, keyed by path.
pub struct ImageCache {
    entries: Vec<(String, DecodedImage)>,
}

/// Index of the entry stored under `key`.
pub open spec fn cache_index(e: Seq<(String, DecodedImage)>, key: Seq<char>, i: int) -> bool {
    0 <= i < e.len() && e[i].0@ == key
}

impl ImageCache {
    /// Keys are unique.
    pub closed spec fn wf(&self) -> bool {
        forall|i: int, j: int|
            0 <= i < j < self.entries@.len() ==> (#[trigger] self.entries@[i]).0@ != (#[trigger] self.entries@[j]).0@
    }

    /// Number of images stored.
    pub closed spec fn size(&self) -> nat {
        self.entries@.len()
    }

    /// Image stored under `key`.
    pub closed spec fn lookup(&self, key: Seq<char>) -> Option<DecodedImage> {
        if exists|i: int| cache_index(self.entries@, key, i) {
            Some(self.entries@[choose|i: int| cache_index(self.entries@, key, i)].1)
        } else {
            None
        }
    }

    /// Empty cache.
    pub fn new() -> (c: ImageCache)
        ensures
            c.wf(),
            c.size() == 0,
            forall|k: Seq<char>| #[trigger] c.lookup(k) is None,
    {
        ImageCache { entries: Vec::new() }
    }

    fn find(&self, key: &str) -> (r: Option<usize>)
        ensures
            r matches Some(i) ==> cache_index(self.entries@, key@, i as int),
            r is None ==> !exists|i: int| cache_index(self.entries@, key@, i),
    {
        let mut i: usize = 0;
        while i < self.entries.len()
            invariant
                i <= self.entries@.len(),
                forall|j: int| 0 <= j < i ==> !cache_index(self.entries@, key@, j),
            decreases self.entries@.len() - i,
        {
            if crate::text::str_eq(self.entries[i].0.as_str(), key) {
                return Some(i);
            }
            i = i + 1;
        }
        None
    }

    /// The image stored under `key`.
    pub fn get(&self, key: &str) -> (r: Option<&DecodedImage>)
        requires
            self.wf(),
        ensures
            match (r, self.lookup(key@)) {
                (Some(a), Some(b)) => *a == b,
                (None, None) => true,
                _ => false,
            },
    {
        match self.find(key) {
            Some(i) => {
                proof {
                    let c = choose|j: int| cache_index(self.entries@, key@, j);
                    if c != i {
                        if c < i {
                            assert(self.entries@[c].0@ != self.entries@[i as int].0@);
                        } else {
                            assert(self.entries@[i as int].0@ != self.entries@[c].0@);
                        }
                    }
                }
                Some(&self.entries[i].1)
            },
            None => None,
        }
    }

    /// Number of images stored.
    pub fn len(&self) -> (n: usize)
        ensures
            n == self.size(),
    {
        self.entries.len()
    }

    /// Stores `img` under `key`, replacing an image stored there before.
    pub fn insert(&mut self, key: String, img: DecodedImage)
        requires
            old(self).wf(),
        ensures
            final(self).wf(),
            final(self).size() == old(self).size() + (if old(self).lookup(key@) is Some { 0int } else { 1int }),
            final(self).lookup(key@) == Some(img),
            forall|k: Seq<char>| k != key@ ==> #[trigger] final(self).lookup(k) == old(self).lookup(k),
    {
        let ghost old_e = self.entries@;
        let ghost kv = key@;
        match self.find(key.as_str()) {
            Some(i) => {
                self.entries.set(i, (key, img));
                proof {
                    let e = self.entries@;
                    assert forall|a: int, b: int| 0 <= a < b < e.len() implies (#[trigger] e[a]).0@ != (#[trigger] e[b]).0@ by {
                        if a == i {
                            assert(old_e[b].0@ != old_e[i as int].0@ || b == i);
                        } else if b == i {
                            assert(old_e[a].0@ != old_e[i as int].0@);
                        } else {
                            assert(old_e[a].0@ != old_e[b].0@);
                        }
                    }
                    assert(cache_index(e, kv, i as int));
                    let c = choose|j: int| cache_index(e, kv, j);
                    if c != i {
                        if c < i { assert(e[c].0@ != e[i as int].0@); } else { assert(e[i as int].0@ != e[c].0@); }
                    }
                    assert forall|k: Seq<char>| k != kv implies #[trigger] self.lookup(k) == old(self).lookup(k) by {
                        assert forall|j: int| cache_index(e, k, j) <==> cache_index(old_e, k, j) by {
                            if j == i {
                                assert(old_e[i as int].0@ == kv);
                            }
                        }
                        if exists|j: int| cache_index(e, k, j) {
                            let c1 = choose|j: int| cache_index(e, k, j);
                            let c2 = choose|j: int| cache_index(old_e, k, j);
                            if c1 != c2 {
                                if c1 < c2 { assert(e[c1].0@ != e[c2].0@); } else { assert(e[c2].0@ != e[c1].0@); }
                            }
                        }
                    }
                }
            },
            None => {
                self.entries.push((key, img));
                proof {
                    let e = self.entries@;
                    let n = old_e.len();
                    assert forall|a: int, b: int| 0 <= a < b < e.len() implies (#[trigger] e[a]).0@ != (#[trigger] e[b]).0@ by {
                        if b == n {
                            assert(!cache_index(old_e, kv, a));
                        } else {
                            assert(old_e[a].0@ != old_e[b].0@);
                        }
                    }
                    assert(cache_index(e, kv, n as int));
                    let c = choose|j: int| cache_index(e, kv, j);
                    if c != n {
                        assert(e[c].0@ != e[n as int].0@);
                    }
                    assert forall|k: Seq<char>| k != kv implies #[trigger] self.lookup(k) == old(self).lookup(k) by {
                        assert forall|j: int| cache_index(e, k, j) <==> cache_index(old_e, k, j) by {}
                        if exists|j: int| cache_index(e, k, j) {
                            let c1 = choose|j: int| cache_index(e, k, j);
                            let c2 = choose|j: int| cache_index(old_e, k, j);
                            if c1 != c2 {
                                if c1 < c2 { assert(e[c1].0@ != e[c2].0@); } else { assert(e[c2].0@ != e[c1].0@); }
                            }
                        }
                    }
                }
            },
        }
    }
}

/// A value with its tags taken off.
pub open spec fn untag(v: YamlV) -> YamlV
    decreases v,
{
    match v {
        YamlV::Tagged(_, b) => untag(*b),
        _ => v,
    }
}

/// `k`, untagged, is the string `BACKGROUND_IMAGE`.
pub open spec fn bg_key(k: YamlV) -> bool {
    untag(k) == YamlV::String("BACKGROUND_IMAGE"@)
}

/// Background image names referenced in `v`, in document order: the
/// non-empty string values of `BACKGROUND_IMAGE` keys, searched through
/// mappings and sequences (not through tagged values).
pub open spec fn bg_names(v: YamlV) -> Seq<Seq<char>>
    decreases v, 0int,
{
    match v {
        YamlV::Mapping(m) => {
            proof {
                assert(decreases_to!(v => m));
            }
            bg_entries(m, m.len() as int)
        },
        YamlV::Sequence(s) => {
            proof {
                assert(decreases_to!(v => s));
            }
            bg_items(s, s.len() as int)
        },
        _ => Seq::empty(),
    }
}

/// Names referenced by the first `k` entries of a mapping.
pub open spec fn bg_entries(m: Seq<(YamlV, YamlV)>, k: int) -> Seq<Seq<char>>
    decreases m, k,
{
    if k <= 0 || k > m.len() {
        Seq::empty()
    } else {
        let e = m[k - 1];
        let here = if bg_key(e.0) {
            match e.1 {
                YamlV::String(s) => if s.len() > 0 { seq![s] } else { Seq::empty() },
                _ => Seq::empty(),
            }
        } else {
            proof {
                assert(decreases_to!(m => m[k - 1]));
                assert(decreases_to!(m[k - 1] => m[k - 1].1));
            }
            bg_names(e.1)
        };
        bg_entries(m, k - 1) + here
    }
}

/// Names referenced by the first `k` items of a sequence.
pub open spec fn bg_items(s: Seq<YamlV>, k: int) -> Seq<Seq<char>>
    decreases s, k,
{
    if k <= 0 || k > s.len() {
        Seq::empty()
    } else {
        proof {
            assert(decreases_to!(s => s[k - 1]));
        }
        bg_items(s, k - 1) + bg_names(s[k - 1])
    }
}

fn is_bg_key(k: &Yaml) -> (b: bool)
    ensures
        b == bg_key(yv(*k)),
    decreases k,
{
    match k {
        Yaml::String(s) => str_eq(s.as_str(), "BACKGROUND_IMAGE"),
        Yaml::Tagged(_, b) => is_bg_key(b),
        _ => false,
    }
}

/// Appends to `out` the background image names that `v` references.
pub fn collect_bg_images(v: &Yaml, out: &mut Vec<String>)
    ensures
        strings_v(final(out)@) == strings_v(old(out)@) + bg_names(yv(*v)),
    decreases v,
{
    let ghost out0 = strings_v(out@);
    match v {
        Yaml::Mapping(m) => {
            let ghost ev = entries_v(m@);
            assert(yv(*v) == YamlV::Mapping(ev));
            let mut i: usize = 0;
            assert(strings_v(out@) =~= out0 + bg_entries(ev, 0));
            while i < m.len()
                invariant
                    i <= m@.len(),
                    *v == Yaml::Mapping(*m),
                    ev == entries_v(m@),
                    ev.len() == m@.len(),
                    strings_v(out@) == out0 + bg_entries(ev, i as int),
                decreases m@.len() - i,
            {
                let k = &m[i].0;
                let val = &m[i].1;
                assert(ev[i as int] == (yv(m@[i as int].0), yv(m@[i as int].1)));
                let ghost before = strings_v(out@);
                if is_bg_key(k) {
                    match val {
                        Yaml::String(s) => {
                            if !s.as_str().is_empty() {
                                out.push(s.clone());
                                assert(strings_v(out@) =~= before + seq![s@]);
                            } else {
                                assert(strings_v(out@) =~= before + Seq::<Seq<char>>::empty());
                            }
                        },
                        _ => {
                            assert(strings_v(out@) =~= before + Seq::<Seq<char>>::empty());
                        },
                    }
                } else {
                    proof {
                        assert(decreases_to!(*v => v->Mapping_0));
                        assert(decreases_to!(*m => m@));
                        assert(decreases_to!(m@ => m@[i as int]));
                        assert(decreases_to!(m@[i as int] => m@[i as int].1));
                    }
                    collect_bg_images(val, out);
                }
                assert(strings_v(out@) =~= out0 + bg_entries(ev, i + 1));
                i = i + 1;
            }
        },
        Yaml::Sequence(items) => {
            let ghost iv = items_v(items@);
            assert(yv(*v) == YamlV::Sequence(iv));
            let mut i: usize = 0;
            assert(strings_v(out@) =~= out0 + bg_items(iv, 0));
            while i < items.len()
                invariant
                    i <= items@.len(),
                    *v == Yaml::Sequence(*items),
                    iv == items_v(items@),
                    iv.len() == items@.len(),
                    strings_v(out@) == out0 + bg_items(iv, i as int),
                decreases items@.len() - i,
            {
                assert(iv[i as int] == yv(items@[i as int]));
                proof {
                    assert(decreases_to!(*v => v->Sequence_0));
                    assert(decreases_to!(*items => items@));
                    assert(decreases_to!(items@ => items@[i as int]));
                }
                collect_bg_images(&items[i], out);
                assert(strings_v(out@) =~= out0 + bg_items(iv, i + 1));
                i = i + 1;
            }
        },
        _ => {
            assert(strings_v(out@) =~= out0 + bg_names(yv(*v)));
        },
    }
}

/// Anchor of a text in halves of its box: the first letter `m` centers
/// it horizontally (1) and `r` right-aligns it (2); the second letter `m`
/// centers it vertically (1) and `b`, `d` or `s` bottom-aligns it (2).
pub open spec fn anchor_halves(a: Seq<char>) -> (int, int) {
    let h: int = if a.len() >= 1 && a[0] == 'm' { 1 } else if a.len() >= 1 && a[0] == 'r' { 2 } else { 0 };
    let v: int = if a.len() >= 2 && a[1] == 'm' {
        1
    } else if a.len() >= 2 && (a[1] == 'b' || a[1] == 'd' || a[1] == 's') {
        2
    } else {
        0
    };
    (h, v)
}

/// `halves / 2` of `n`, truncated toward zero.
pub open spec fn part(n: int, halves: int) -> int {
    if halves == 0 {
        0
    } else if halves == 2 {
        n
    } else if n >= 0 {
        n / 2
    } else {
        -((-n) / 2)
    }
}

/// Box height: a box with a width and no height is one font size tall.
pub open spec fn eff_height(w: i32, h: i32, font_size: u32) -> int {
    if w > 0 && h == 0 { (font_size as i32) as int } else { h as int }
}

/// The text box is fixed by the theme (width and height set).
pub open spec fn fixed_box(w: i32, h: i32, font_size: u32) -> bool {
    w > 0 && eff_height(w, h, font_size) > 0
}

/// Box `(x, y, width, height)` the text occupies: the theme's box when
/// fixed, else the measured text box `tw`×`th` placed by the anchor.
pub open spec fn text_box(x: i32, y: i32, w: i32, h: i32, font_size: u32, tw: i32, th: i32, anchor: Seq<char>) -> (
    int,
    int,
    int,
    int,
) {
    let (ha, va) = anchor_halves(anchor);
    if fixed_box(w, h, font_size) {
        (x as int, y as int, w as int, eff_height(w, h, font_size))
    } else {
        (x - part(tw as int, ha), y - part(th as int, va), tw as int, th as int)
    }
}

/// Where the text's measured box is drawn.
pub open spec fn text_origin(x: i32, y: i32, w: i32, h: i32, font_size: u32, tw: i32, th: i32, anchor: Seq<char>) -> (
    int,
    int,
) {
    let (ha, va) = anchor_halves(anchor);
    let b = text_box(x, y, w, h, font_size, tw, th, anchor);
    if fixed_box(w, h, font_size) {
        (x + part(w - tw, ha), y + part(eff_height(w, h, font_size) - th, va))
    } else {
        (b.0, b.1)
    }
}

/// Rectangle repainted: the box, grown over the previous box of a text
/// sized to its content.
pub open spec fn repaint_area(
    x: i32,
    y: i32,
    w: i32,
    h: i32,
    font_size: u32,
    tw: i32,
    th: i32,
    anchor: Seq<char>,
    prev: Option<Rect>,
) -> (int, int, int, int) {
    let b = text_box(x, y, w, h, font_size, tw, th, anchor);
    match prev {
        Some(p) => if !fixed_box(w, h, font_size) {
            (min_i(b.0, p.x0 as int), min_i(b.1, p.y0 as int), max_i(b.0 + b.2, p.x1 as int), max_i(
                b.1 + b.3,
                p.y1 as int,
            ))
        } else {
            (b.0, b.1, b.0 + b.2, b.1 + b.3)
        },
        None => (b.0, b.1, b.0 + b.2, b.1 + b.3),
    }
}

pub open spec fn min_i(a: int, b: int) -> int {
    if a < b { a } else { b }
}

pub open spec fn max_i(a: int, b: int) -> int {
    if a > b { a } else { b }
}

pub open spec fn in_i32(v: int) -> bool {
    i32::MIN <= v <= i32::MAX
}

/// Every intermediate of the layout fits an `i32`.
pub open spec fn layout_fits(
    x: i32,
    y: i32,
    w: i32,
    h: i32,
    font_size: u32,
    tw: i32,
    th: i32,
    anchor: Seq<char>,
    prev: Option<Rect>,
) -> bool {
    let b = text_box(x, y, w, h, font_size, tw, th, anchor);
    let o = text_origin(x, y, w, h, font_size, tw, th, anchor);
    let u = repaint_area(x, y, w, h, font_size, tw, th, anchor, prev);
    &&& in_i32(w - tw) && in_i32(eff_height(w, h, font_size) - th)
    &&& in_i32(b.0) && in_i32(b.1) && in_i32(o.0) && in_i32(o.1)
    &&& in_i32(b.0 + b.2) && in_i32(b.1 + b.3)
    &&& in_i32(u.2 - u.0) && in_i32(u.3 - u.1)
}

/// Placement of a text on the panel.
pub struct TextLayout {
    /// Rectangle repainted (background then text).
    pub paint: Rect,
    /// Box remembered for the next draw (texts sized to their content).
    pub cache: Option<Rect>,
    /// Where the measured text box is drawn.
    pub ox: i32,
    pub oy: i32,
}

fn half(n: i64, halves: i64) -> (r: i64)
    requires
        0 <= halves <= 2,
        -0x1_0000_0000 <= n <= 0x1_0000_0000,
    ensures
        r == part(n as int, halves as int),
{
    if halves == 0 {
        0
    } else if halves == 2 {
        n
    } else {
        n / 2
    }
}

/// What [`text_layout`] returns: nothing when the box is empty, else the
/// repainted area, the text origin and (for texts sized to their content)
/// the box to remember.
pub open spec fn layout_result(
    x: i32,
    y: i32,
    w: i32,
    h: i32,
    font_size: u32,
    tw: i32,
    th: i32,
    anchor: Seq<char>,
    prev: Option<Rect>,
    r: Option<TextLayout>,
) -> bool {
    let b = text_box(x, y, w, h, font_size, tw, th, anchor);
    let o = text_origin(x, y, w, h, font_size, tw, th, anchor);
    let u = repaint_area(x, y, w, h, font_size, tw, th, anchor, prev);
    match r {
        None => b.2 <= 0 || b.3 <= 0,
        Some(l) => {
            &&& b.2 > 0 && b.3 > 0
            &&& (l.paint.x0 as int, l.paint.y0 as int, l.paint.x1 as int, l.paint.y1 as int) == u
            &&& (l.ox as int, l.oy as int) == o
            &&& l.cache == if fixed_box(w, h, font_size) {
                None
            } else {
                Some(Rect { x0: b.0 as i32, y0: b.1 as i32, x1: (b.0 + b.2) as i32, y1: (b.1 + b.3) as i32 })
            }
        },
    }
}

/// Box, origin, repainted area and effective height of a layout, computed
/// wide enough not to overflow.
fn layout_parts(
    x: i32,
    y: i32,
    w: i32,
    h: i32,
    font_size: u32,
    tw: i32,
    th: i32,
    anchor: &str,
    prev: Option<Rect>,
) -> (r: (i64, i64, i64, i64, i64, i64, i64, i64, i64, i64, i64))
    ensures
        ({
            let b = text_box(x, y, w, h, font_size, tw, th, anchor@);
            let o = text_origin(x, y, w, h, font_size, tw, th, anchor@);
            let u = repaint_area(x, y, w, h, font_size, tw, th, anchor@, prev);
            &&& (r.0 as int, r.1 as int, r.2 as int, r.3 as int) == b
            &&& (r.4 as int, r.5 as int) == o
            &&& (r.6 as int, r.7 as int, r.8 as int, r.9 as int) == u
            &&& r.10 as int == eff_height(w, h, font_size)
        }),
{
    let n = anchor.unicode_len();
    let c0 = if n >= 1 { anchor.get_char(0) } else { ' ' };
    let c1 = if n >= 2 { anchor.get_char(1) } else { ' ' };
    let ha: i64 = if c0 == 'm' { 1 } else if c0 == 'r' { 2 } else { 0 };
    let va: i64 = if c1 == 'm' { 1 } else if c1 == 'b' || c1 == 'd' || c1 == 's' { 2 } else { 0 };
    assert((ha as int, va as int) == anchor_halves(anchor@));
    let eh: i64 = if w > 0 && h == 0 { font_size as i32 as i64 } else { h as i64 };
    let fixed = w > 0 && eh > 0;
    let (bx, by, bw, bh, ox, oy): (i64, i64, i64, i64, i64, i64) = if fixed {
        let ox = x as i64 + half(w as i64 - tw as i64, ha);
        let oy = y as i64 + half(eh - th as i64, va);
        (x as i64, y as i64, w as i64, eh, ox, oy)
    } else {
        let bx = x as i64 - half(tw as i64, ha);
        let by = y as i64 - half(th as i64, va);
        (bx, by, tw as i64, th as i64, bx, by)
    };
    let (ux0, uy0, ux1, uy1): (i64, i64, i64, i64) = match prev {
        Some(p) => if !fixed {
            (
                if bx < p.x0 as i64 { bx } else { p.x0 as i64 },
                if by < p.y0 as i64 { by } else { p.y0 as i64 },
                if bx + bw > p.x1 as i64 { bx + bw } else { p.x1 as i64 },
                if by + bh > p.y1 as i64 { by + bh } else { p.y1 as i64 },
            )
        } else {
            (bx, by, bx + bw, by + bh)
        },
        None => (bx, by, bx + bw, by + bh),
    };
    (bx, by, bw, bh, ox, oy, ux0, uy0, ux1, uy1, eh)
}

/// Lays out a text of measured size `tw`×`th` for a widget at `(x, y)`
/// with box `w`×`h`. `None` when the box is empty. `prev` is the box the
/// widget's previous text occupied.
pub fn text_layout(
    x: i32,
    y: i32,
    w: i32,
    h: i32,
    font_size: u32,
    tw: i32,
    th: i32,
    anchor: &str,
    prev: Option<Rect>,
) -> (r: Option<TextLayout>)
    requires
        layout_fits(x, y, w, h, font_size, tw, th, anchor@, prev),
    ensures
        layout_result(x, y, w, h, font_size, tw, th, anchor@, prev, r),
{
    let (bx, by, bw, bh, ox, oy, ux0, uy0, ux1, uy1, eh) = layout_parts(x, y, w, h, font_size, tw, th, anchor, prev);
    let fixed = w > 0 && eh > 0;
    if bw <= 0 || bh <= 0 {
        return None;
    }
    let cache = if fixed {
        None
    } else {
        Some(Rect { x0: bx as i32, y0: by as i32, x1: (bx + bw) as i32, y1: (by + bh) as i32 })
    };
    Some(
        TextLayout {
            paint: Rect { x0: ux0 as i32, y0: uy0 as i32, x1: ux1 as i32, y1: uy1 as i32 },
            cache,
            ox: ox as i32,
            oy: oy as i32,
        },
    )
}

fn fits_i32(v: i64) -> (b: bool)
    ensures
        b == in_i32(v as int),
{
    i32::MIN as i64 <= v && v <= i32::MAX as i64
}

/// [`text_layout`] for any input: `None` when some coordinate of the
/// layout does not fit an `i32` (the layout is computed in `i32`), else
/// the layout itself.
pub fn fitted_text_layout(
    x: i32,
    y: i32,
    w: i32,
    h: i32,
    font_size: u32,
    tw: i32,
    th: i32,
    anchor: &str,
    prev: Option<Rect>,
) -> (r: Option<TextLayout>)
    ensures
        !layout_fits(x, y, w, h, font_size, tw, th, anchor@, prev) ==> r is None,
        layout_fits(x, y, w, h, font_size, tw, th, anchor@, prev) ==> layout_result(
            x,
            y,
            w,
            h,
            font_size,
            tw,
            th,
            anchor@,
            prev,
            r,
        ),
{
    let (bx, by, bw, bh, ox, oy, ux0, uy0, ux1, uy1, eh) = layout_parts(x, y, w, h, font_size, tw, th, anchor, prev);
    let fits = fits_i32(w as i64 - tw as i64) && fits_i32(eh - th as i64) && fits_i32(bx) && fits_i32(by) && fits_i32(
        ox,
    ) && fits_i32(oy) && fits_i32(bx + bw) && fits_i32(by + bh) && fits_i32(ux1 - ux0) && fits_i32(uy1 - uy0);
    if fits {
        text_layout(x, y, w, h, font_size, tw, th, anchor, prev)
    } else {
        None
    }
}

/// A text in a box fixed by the theme is drawn inside that box. The
/// repainted rectangle is the box itself: `w` wide and `h` tall, or one
/// font size tall when only a width is set; nothing is remembered. A text
/// no larger than the box lies inside it, placed as the anchor says:
/// first letter `l` (or anything else) flush left, `m` centred (the extra
/// pixel of an odd gap goes right), `r` flush right; second letter `t` (or
/// anything else) at the top, `m` centred, `b`, `d` or `s` at the bottom.
pub proof fn lemma_fixed_box_places_text_inside(
    x: i32,
    y: i32,
    w: i32,
    h: i32,
    font_size: u32,
    tw: i32,
    th: i32,
    anchor: Seq<char>,
    prev: Option<Rect>,
    l: TextLayout,
)
    requires
        layout_result(x, y, w, h, font_size, tw, th, anchor, prev, Some(l)),
        w > 0,
        h > 0 || (h == 0 && font_size as i32 > 0),
        0 <= tw <= w,
        0 <= th <= (if h == 0 { font_size as i32 as int } else { h as int }),
    ensures
        ({
            let bh: int = if h == 0 { font_size as i32 as int } else { h as int };
            let c0 = if anchor.len() >= 1 { anchor[0] } else { ' ' };
            let c1 = if anchor.len() >= 2 { anchor[1] } else { ' ' };
            &&& l.paint.x0 == x && l.paint.y0 == y && l.paint.x1 == x + w && l.paint.y1 == y + bh
            &&& l.cache is None
            &&& x <= l.ox && l.ox + tw <= x + w
            &&& y <= l.oy && l.oy + th <= y + bh
            &&& c0 == 'm' ==> 2 * (l.ox - x) <= w - tw <= 2 * (l.ox - x) + 1
            &&& c0 == 'r' ==> l.ox + tw == x + w
            &&& c0 != 'm' && c0 != 'r' ==> l.ox == x
            &&& c1 == 'm' ==> 2 * (l.oy - y) <= bh - th <= 2 * (l.oy - y) + 1
            &&& (c1 == 'b' || c1 == 'd' || c1 == 's') ==> l.oy + th == y + bh
            &&& (c1 != 'm' && c1 != 'b' && c1 != 'd' && c1 != 's') ==> l.oy == y
        }),
{
}

/// A text sized to its content is drawn in its own box `tw`×`th`, placed
/// so that the widget's point `(x, y)` is at the spot of the text the
/// anchor names: first letter `l` (or anything else) its left edge, `m`
/// its middle (rounded toward the left), `r` its right edge; second letter
/// `t` (or anything else) its top, `m` its middle, `b`, `d` or `s` its
/// bottom. Drawn for the first time, it repaints exactly that box, which
/// is remembered for the next draw.
pub proof fn lemma_sized_text_sits_on_its_anchor(
    x: i32,
    y: i32,
    w: i32,
    h: i32,
    font_size: u32,
    tw: i32,
    th: i32,
    anchor: Seq<char>,
    l: TextLayout,
)
    requires
        layout_result(x, y, w, h, font_size, tw, th, anchor, None, Some(l)),
        !fixed_box(w, h, font_size),
    ensures
        ({
            let c0 = if anchor.len() >= 1 { anchor[0] } else { ' ' };
            let c1 = if anchor.len() >= 2 { anchor[1] } else { ' ' };
            &&& tw > 0 && th > 0
            &&& l.paint.x0 == l.ox && l.paint.y0 == l.oy && l.paint.x1 == l.ox + tw && l.paint.y1 == l.oy + th
            &&& l.cache == Some(l.paint)
            &&& c0 == 'm' ==> 2 * (x - l.ox) <= tw <= 2 * (x - l.ox) + 1
            &&& c0 == 'r' ==> l.ox + tw == x
            &&& c0 != 'm' && c0 != 'r' ==> l.ox == x
            &&& c1 == 'm' ==> 2 * (y - l.oy) <= th <= 2 * (y - l.oy) + 1
            &&& (c1 == 'b' || c1 == 'd' || c1 == 's') ==> l.oy + th == y
            &&& (c1 != 'm' && c1 != 'b' && c1 != 'd' && c1 != 's') ==> l.oy == y
        }),
{
}

/// A text sized to its content that is redrawn over its previous box
/// leaves no trace of it: the repainted rectangle covers both the new text
/// box and the previous box.
pub proof fn lemma_repaint_covers_previous(
    x: i32,
    y: i32,
    w: i32,
    h: i32,
    font_size: u32,
    tw: i32,
    th: i32,
    anchor: Seq<char>,
    p: Rect,
)
    requires
        !fixed_box(w, h, font_size),
    ensures
        ({
            let b = text_box(x, y, w, h, font_size, tw, th, anchor);
            let u = repaint_area(x, y, w, h, font_size, tw, th, anchor, Some(p));
            &&& u.0 <= p.x0 && u.1 <= p.y0 && u.2 >= p.x1 && u.3 >= p.y1
            &&& u.0 <= b.0 && u.1 <= b.1 && u.2 >= b.0 + b.2 && u.3 >= b.1 + b.3
        }),
{
}

/// Redrawing a shorter text leaves no ghost on the panel: when the
/// repainted rectangle `d` of a text sized to its content is drawn clipped
/// to a `fw`×`fh` frame, the clipped rectangle is the union of the new box
/// and the previous box cut to the frame, so every pixel of the frame
/// inside either box is repainted.
pub proof fn lemma_clipped_repaint_covers_previous(
    x: i32,
    y: i32,
    w: i32,
    h: i32,
    font_size: u32,
    tw: i32,
    th: i32,
    anchor: Seq<char>,
    p: Rect,
    d: Rect,
    fw: u32,
    fh: u32,
)
    requires
        !fixed_box(w, h, font_size),
        (d.x0 as int, d.y0 as int, d.x1 as int, d.y1 as int) == repaint_area(x, y, w, h, font_size, tw, th, anchor, Some(p)),
        fw <= i32::MAX,
        fh <= i32::MAX,
    ensures
        ({
            let b = text_box(x, y, w, h, font_size, tw, th, anchor);
            let (cx0, cy0, cx1, cy1) = clip(d, fw, fh);
            &&& cx0 == max_int(min_int(b.0, p.x0 as int), 0) && cy0 == max_int(min_int(b.1, p.y0 as int), 0)
            &&& cx1 == min_int(max_int(b.0 + b.2, p.x1 as int), fw as int)
            &&& cy1 == min_int(max_int(b.1 + b.3, p.y1 as int), fh as int)
            &&& forall|a: int, c: int|
                0 <= a < fw && 0 <= c < fh && (in_box(a, c, p.x0 as int, p.y0 as int, p.x1 as int, p.y1 as int)
                    || in_box(a, c, b.0, b.1, b.0 + b.2, b.1 + b.3)) ==> #[trigger] in_box(a, c, cx0, cy0, cx1, cy1)
        }),
{
    lemma_repaint_covers_previous(x, y, w, h, font_size, tw, th, anchor, p);
}

/// A box fixed by the theme repaints exactly itself whatever box came
/// before, and nothing is remembered for it.
pub proof fn lemma_fixed_box_ignores_previous(
    x: i32,
    y: i32,
    w: i32,
    h: i32,
    font_size: u32,
    tw: i32,
    th: i32,
    anchor: Seq<char>,
    prev: Option<Rect>,
)
    requires
        fixed_box(w, h, font_size),
    ensures
        repaint_area(x, y, w, h, font_size, tw, th, anchor, prev) == (
            x as int,
            y as int,
            x + w,
            y + eff_height(w, h, font_size),
        ),
{
}

/// Ring buffer of the latest samples of a line graph.
pub struct History<T> {
    pub buf: Vec<T>,
    pub pos: usize,
    /// The samples oldest first.
    pub recent: Ghost<Seq<T>>,
}

/// `n` copies of `v`.
pub open spec fn filled<T>(v: T, n: nat) -> Seq<T> {
    Seq::new(n, |i: int| v)
}

proof fn lemma_mod_step(pos: int, i: int, n: int)
    requires
        0 <= pos < n,
        0 <= i < n,
    ensures
        i < n - 1 ==> ((pos + 1) % n + i) % n == (pos + (i + 1)) % n,
        i < n - 1 ==> (pos + (i + 1)) % n != pos,
        i == n - 1 ==> ((pos + 1) % n + i) % n == pos,
        0 <= (pos + i) % n < n,
{
    if pos + 1 < n {
        assert((pos + 1) % n == pos + 1) by {
            vstd::arithmetic::div_mod::lemma_small_mod((pos + 1) as nat, n as nat);
        }
    } else {
        assert((pos + 1) % n == 0) by {
            vstd::arithmetic::div_mod::lemma_mod_self_0(n);
        }
    }
    if pos + i + 1 < n {
        vstd::arithmetic::div_mod::lemma_small_mod((pos + i + 1) as nat, n as nat);
    } else {
        vstd::arithmetic::div_mod::lemma_fundamental_div_mod_converse(pos + i + 1, n, 1, pos + i + 1 - n);
    }
    if pos + i < n {
        vstd::arithmetic::div_mod::lemma_small_mod((pos + i) as nat, n as nat);
    } else {
        vstd::arithmetic::div_mod::lemma_fundamental_div_mod_converse(pos + i, n, 1, pos + i - n);
    }
    if (pos + 1) % n + i < n {
        vstd::arithmetic::div_mod::lemma_small_mod(((pos + 1) % n + i) as nat, n as nat);
    } else {
        vstd::arithmetic::div_mod::lemma_fundamental_div_mod_converse((pos + 1) % n + i, n, 1, (pos + 1) % n + i - n);
    }
}

impl<T: Copy> History<T> {
    /// `buf` read from `pos` on, wrapping, is `recent`.
    pub open spec fn wf(&self) -> bool {
        &&& self.buf@.len() == 0 ==> self.pos == 0 && self.recent@.len() == 0
        &&& self.buf@.len() > 0 ==> {
            &&& self.pos < self.buf@.len()
            &&& self.recent@.len() == self.buf@.len()
            &&& forall|i: int|
                0 <= i < self.buf@.len() ==> #[trigger] self.recent@[i] == self.buf@[(self.pos + i) % (
                self.buf@.len() as int)]
        }
    }

    /// Empty history.
    pub fn new() -> (h: History<T>)
        ensures
            h.wf(),
            h.recent@ == Seq::<T>::empty(),
    {
        History { buf: Vec::new(), pos: 0, recent: Ghost(Seq::empty()) }
    }

    /// Records `v` in a window of `size` samples; a window of another size
    /// restarts filled with `fill`.
    pub fn push(&mut self, v: T, size: usize, fill: T)
        requires
            old(self).wf(),
            size > 0,
        ensures
            final(self).wf(),
            final(self).recent@ == (if old(self).buf@.len() == size { old(self).recent@ } else { filled(
                fill,
                size as nat,
            ) }).drop_first().push(v),
    {
        if self.buf.len() != size {
            let mut b: Vec<T> = Vec::new();
            let mut k: usize = 0;
            while k < size
                invariant
                    k <= size,
                    b@ == filled(fill, k as nat),
                decreases size - k,
            {
                b.push(fill);
                assert(b@ =~= filled(fill, (k + 1) as nat));
                k = k + 1;
            }
            self.buf = b;
            self.pos = 0;
            self.recent = Ghost(filled(fill, size as nat));
            assert forall|i: int| 0 <= i < size implies #[trigger] self.recent@[i] == self.buf@[(0 + i) % (
            size as int)] by {
                vstd::arithmetic::div_mod::lemma_small_mod(i as nat, size as nat);
            }
        }
        let n = self.buf.len();
        let ghost prev = self.recent@;
        let ghost old_buf = self.buf@;
        let p = self.pos;
        self.buf.set(p, v);
        self.pos = (p + 1) % n;
        self.recent = Ghost(prev.drop_first().push(v));
        assert forall|i: int| 0 <= i < n implies #[trigger] self.recent@[i] == self.buf@[(self.pos + i) % (
        n as int)] by {
            lemma_mod_step(p as int, i, n as int);
            if i < n - 1 {
                assert(prev[i + 1] == old_buf[(p + (i + 1)) % (n as int)]);
            }
        }
    }

    /// The samples, oldest first.
    pub fn ordered(&self) -> (out: Vec<T>)
        requires
            self.wf(),
        ensures
            out@ == self.recent@,
    {
        let n = self.buf.len();
        let mut out: Vec<T> = Vec::new();
        let mut i: usize = 0;
        while i < n
            invariant
                i <= n,
                n == self.buf@.len(),
                self.wf(),
                out@ == self.recent@.subrange(0, i as int),
            decreases n - i,
        {
            proof {
                lemma_mod_step(self.pos as int, i as int, n as int);
            }
            let k = if i < n - self.pos { self.pos + i } else { i - (n - self.pos) };
            assert(k == (self.pos + i) % (n as int)) by {
                if (self.pos + i) < n {
                    vstd::arithmetic::div_mod::lemma_small_mod((self.pos + i) as nat, n as nat);
                } else {
                    vstd::arithmetic::div_mod::lemma_fundamental_div_mod_converse(
                        self.pos + i,
                        n as int,
                        1,
                        self.pos + i - n,
                    );
                }
            }
            out.push(self.buf[k]);
            assert(out@ =~= self.recent@.subrange(0, i + 1));
            i = i + 1;
        }
        assert(self.recent@.subrange(0, n as int) =~= self.recent@);
        out
    }
}

/// The last `size` of the values `pushed`, padded on the left with
/// `fill` while fewer were pushed.
pub open spec fn latest<T>(fill: T, size: nat, pushed: Seq<T>) -> Seq<T> {
    filled(fill, size).add(pushed).subrange(pushed.len() as int, (pushed.len() + size) as int)
}

/// A history window keeps exactly the latest samples: when the window is
/// the last `size` values pushed (padded with the fill value), pushing `v`
/// keeps it the last `size` values pushed.
pub proof fn lemma_window_keeps_latest<T>(fill: T, size: nat, pushed: Seq<T>, v: T)
    requires
        size > 0,
    ensures
        latest(fill, size, pushed).drop_first().push(v) == latest(fill, size, pushed.push(v)),
        latest(fill, size, Seq::empty()) == filled(fill, size),
{
    let a = filled(fill, size).add(pushed);
    let b = filled(fill, size).add(pushed.push(v));
    assert(b =~= a.push(v));
    assert(latest(fill, size, pushed).drop_first().push(v) =~= latest(fill, size, pushed.push(v)));
    assert(latest(fill, size, Seq::empty()) =~= filled(fill, size));
}

} // verus!
