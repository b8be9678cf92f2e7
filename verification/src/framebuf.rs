//! RGB565 framebuffer and RGB8 canvas raster primitives.
//!
//! The panel consumes RGB565 little-endian; the framebuffer keeps native
//! `u16` pixels so regions can be shipped without a full-frame conversion.
//! Every primitive clips to the buffer bounds.

use vstd::prelude::*;

verus! {

/// An RGB8 color.
pub type Rgb = [u8; 3];

/// The RGB565 word for 8-bit channels `r`, `g`, `b` (top 5/6/5 bits kept).
pub open spec fn pack565(r: u8, g: u8, b: u8) -> u16 {
    ((r as int / 8) * 2048 + (g as int / 4) * 32 + b as int / 8) as u16
}

/// Expansion of a 5-bit channel to 8 bits with low-bit replication.
pub open spec fn expand5(c: int) -> u8 {
    (c * 8 + c / 4) as u8
}

/// Expansion of a 6-bit channel to 8 bits with low-bit replication.
pub open spec fn expand6(c: int) -> u8 {
    (c * 4 + c / 16) as u8
}

/// The RGB8 color an RGB565 word stands for.
pub open spec fn unpack565(v: u16) -> Rgb {
    [expand5(v as int / 2048), expand6((v as int / 32) % 64), expand5(v as int % 32)]
}

/// Converts an RGB8 color to RGB565.
pub fn rgb_to_565(c: Rgb) -> (v: u16)
    ensures
        v == pack565(c[0], c[1], c[2]),
{
    let r = c[0];
    let g = c[1];
    let b = c[2];
    let v = ((r as u16 >> 3u16) << 11u16) | ((g as u16 >> 2u16) << 5u16) | (b as u16 >> 3u16);
    assert(((r as u16 >> 3u16) << 11u16) | ((g as u16 >> 2u16) << 5u16) | (b as u16 >> 3u16)
        == ((r / 8) as u16) * 2048 + ((g / 4) as u16) * 32 + (b / 8) as u16) by (bit_vector);
    v
}

/// Converts an RGB565 word to RGB8, replicating the high bits into the
/// low ones so that converting back gives the same word.
pub fn rgb565_to_888(v: u16) -> (c: Rgb)
    ensures
        c == unpack565(v),
{
    let r = ((v >> 11u16) & 0x1Fu16) as u8;
    let g = ((v >> 5u16) & 0x3Fu16) as u8;
    let b = (v & 0x1Fu16) as u8;
    assert((v >> 11u16) & 0x1Fu16 == v / 2048) by (bit_vector);
    assert((v >> 5u16) & 0x3Fu16 == (v / 32) % 64) by (bit_vector);
    assert(v & 0x1Fu16 == v % 32) by (bit_vector);
    assert((r << 3u8) | (r >> 2u8) == r * 8 + r / 4) by (bit_vector)
        requires r < 32;
    assert((g << 2u8) | (g >> 4u8) == g * 4 + g / 16) by (bit_vector)
        requires g < 64;
    assert((b << 3u8) | (b >> 2u8) == b * 8 + b / 4) by (bit_vector)
        requires b < 32;
    [(r << 3u8) | (r >> 2u8), (g << 2u8) | (g >> 4u8), (b << 3u8) | (b >> 2u8)]
}

/// Converting an RGB565 word to RGB8 and back gives the same word.
pub proof fn lemma_565_roundtrip(v: u16)
    ensures
        pack565(unpack565(v)[0], unpack565(v)[1], unpack565(v)[2]) == v,
{
}


/// `u as i32` is negative exactly when `u` exceeds `i32::MAX`, and equal
/// to `u` otherwise.
pub proof fn lemma_u32_as_i32(u: u32)
    ensures
        u <= 0x7fff_ffff ==> (u as i32) as int == u as int,
        u > 0x7fff_ffff ==> (u as i32) < 0,
{
    assert(u > 0x7fff_ffff ==> (u as i32) < 0) by (bit_vector);
}

/// Row-major pixel index bounds.
pub proof fn lemma_index_bounds(w: int, h: int, x: int, y: int)
    requires
        0 <= x < w,
        0 <= y < h,
    ensures
        0 <= y * w + x < w * h,
        y * w + x + 1 <= w * h,
{
    assert(0 <= y * w + x < w * h) by (nonlinear_arith)
        requires
            0 <= x < w,
            0 <= y < h,
    ;
}

/// Distinct in-row coordinates map to distinct row-major indices.
pub proof fn lemma_index_injective(w: int, x1: int, y1: int, x2: int, y2: int)
    requires
        0 <= x1 < w,
        0 <= x2 < w,
        y1 * w + x1 == y2 * w + x2,
    ensures
        x1 == x2,
        y1 == y2,
{
    if y1 < y2 {
        assert(y1 * w + w <= y2 * w) by (nonlinear_arith)
            requires
                y1 < y2,
                0 < w,
        ;
    } else if y2 < y1 {
        assert(y2 * w + w <= y1 * w) by (nonlinear_arith)
            requires
                y2 < y1,
                0 < w,
        ;
    }
}

/// Half-open dirty rectangle `x0 <= x < x1`, `y0 <= y < y1` in display coordinates.
#[derive(Debug, Clone, Copy, Default, PartialEq, Eq, Structural)]
pub struct Rect {
    pub x0: i32,
    pub y0: i32,
    pub x1: i32,
    pub y1: i32,
}

/// The smaller of two integers.
pub open spec fn min_int(a: int, b: int) -> int {
    if a <= b { a } else { b }
}

/// The larger of two integers.
pub open spec fn max_int(a: int, b: int) -> int {
    if a >= b { a } else { b }
}

/// Whether `(x, y)` lies in the half-open box `x0 <= x < x1`, `y0 <= y < y1`.
pub open spec fn in_box(x: int, y: int, x0: int, y0: int, x1: int, y1: int) -> bool {
    x0 <= x < x1 && y0 <= y < y1
}

impl Rect {
    /// Whether `(x, y)` lies in this rectangle.
    pub open spec fn covers(self, x: int, y: int) -> bool {
        in_box(x, y, self.x0 as int, self.y0 as int, self.x1 as int, self.y1 as int)
    }

    pub fn new(x0: i32, y0: i32, x1: i32, y1: i32) -> (r: Self)
        ensures
            r.x0 == x0 && r.y0 == y0 && r.x1 == x1 && r.y1 == y1,
    {
        Rect { x0, y0, x1, y1 }
    }

    /// Non-empty rectangle.
    pub fn valid(&self) -> (b: bool)
        ensures
            b == (self.x1 > self.x0 && self.y1 > self.y0),
    {
        self.x1 > self.x0 && self.y1 > self.y0
    }

    /// Bounding box of two rectangles.
    pub fn union(&self, o: &Rect) -> (r: Rect)
        ensures
            r.x0 == min_int(self.x0 as int, o.x0 as int),
            r.y0 == min_int(self.y0 as int, o.y0 as int),
            r.x1 == max_int(self.x1 as int, o.x1 as int),
            r.y1 == max_int(self.y1 as int, o.y1 as int),
    {
        Rect {
            x0: if self.x0 <= o.x0 { self.x0 } else { o.x0 },
            y0: if self.y0 <= o.y0 { self.y0 } else { o.y0 },
            x1: if self.x1 >= o.x1 { self.x1 } else { o.x1 },
            y1: if self.y1 >= o.y1 { self.y1 } else { o.y1 },
        }
    }
}

/// The union of two rectangles covers every point of both, and does not
/// depend on the order of its arguments.
pub proof fn lemma_union_covers(a: Rect, b: Rect, x: int, y: int)
    ensures
        ({
            let u = Rect {
                x0: min_int(a.x0 as int, b.x0 as int) as i32,
                y0: min_int(a.y0 as int, b.y0 as int) as i32,
                x1: max_int(a.x1 as int, b.x1 as int) as i32,
                y1: max_int(a.y1 as int, b.y1 as int) as i32,
            };
            (a.covers(x, y) || b.covers(x, y)) ==> u.covers(x, y)
        }),
        min_int(a.x0 as int, b.x0 as int) == min_int(b.x0 as int, a.x0 as int),
        max_int(a.x1 as int, b.x1 as int) == max_int(b.x1 as int, a.x1 as int),
{
}

/// Pixel `(x, y)` of a row-major buffer of width `w`.
pub open spec fn px_at(s: Seq<u16>, w: int, x: int, y: int) -> u16 {
    s[y * w + x]
}

/// RGB565 framebuffer, row-major, `w * h` pixels.
pub struct Framebuf {
    pub w: u32,
    pub h: u32,
    pub px: Vec<u16>,
}

impl View for Framebuf {
    type V = Seq<u16>;

    open spec fn view(&self) -> Seq<u16> {
        self.px@
    }
}

impl Framebuf {
    /// The pixel store holds exactly `w * h` pixels.
    pub open spec fn wf(&self) -> bool {
        self@.len() == self.w as int * self.h as int
    }

    /// `(x, y)` is inside the framebuffer.
    pub open spec fn contains(&self, x: int, y: int) -> bool {
        0 <= x < self.w && 0 <= y < self.h
    }

    /// Pixel `(x, y)`.
    pub open spec fn at(&self, x: int, y: int) -> u16 {
        px_at(self@, self.w as int, x, y)
    }

    /// A `w`×`h` framebuffer filled with `fill`.
    pub fn new(w: u32, h: u32, fill: Rgb) -> (fb: Self)
        requires
            w as int * h as int <= u32::MAX,
        ensures
            fb.wf(),
            fb.w == w && fb.h == h,
            forall|x: int, y: int| fb.contains(x, y) ==> #[trigger] fb.at(x, y) == pack565(fill[0], fill[1], fill[2]),
    {
        let v = rgb_to_565(fill);
        let n = (w * h) as usize;
        let mut px: Vec<u16> = Vec::with_capacity(n);
        let mut i: usize = 0;
        while i < n
            invariant
                i <= n,
                px@.len() == i,
                forall|k: int| 0 <= k < i ==> px@[k] == v,
            decreases n - i,
        {
            px.push(v);
            i = i + 1;
        }
        let fb = Framebuf { w, h, px };
        assert forall|x: int, y: int| fb.contains(x, y) implies #[trigger] fb.at(x, y) == v by {
            lemma_index_bounds(w as int, h as int, x, y);
        }
        fb
    }

    /// Writes an in-bounds pixel.
    fn put(&mut self, x: i32, y: i32, c: u16)
        requires
            old(self).wf(),
            old(self).contains(x as int, y as int),
        ensures
            final(self).wf(),
            final(self).w == old(self).w && final(self).h == old(self).h,
            forall|a: int, b: int| final(self).contains(a, b) ==> #[trigger] final(self).at(a, b) == (
                if a == x && b == y { c } else { old(self).at(a, b) }),
    {
        proof {
            lemma_index_bounds(self.w as int, self.h as int, x as int, y as int);
        }
        let n = self.px.len();
        assert(y as int * self.w as int + (x as int) < n);
        let i = y as usize * self.w as usize + x as usize;
        self.px.set(i, c);
        proof {
            assert forall|a: int, b: int| self.contains(a, b) implies #[trigger] self.at(a, b) == (
                if a == x && b == y { c } else { old(self).at(a, b) }) by {
                lemma_index_bounds(self.w as int, self.h as int, a, b);
                if b * self.w + a == y * self.w + x {
                    lemma_index_injective(self.w as int, a, b, x as int, y as int);
                }
            }
        }
    }

    /// Writes pixel `(x, y)` when it is inside the buffer; otherwise a no-op.
    pub fn set(&mut self, x: i32, y: i32, c: u16)
        requires
            old(self).wf(),
        ensures
            final(self).wf(),
            final(self).w == old(self).w && final(self).h == old(self).h,
            forall|a: int, b: int| final(self).contains(a, b) ==> #[trigger] final(self).at(a, b) == (
                if a == x && b == y { c } else { old(self).at(a, b) }),
    {
        if x >= 0 && y >= 0 && (x as u32) < self.w && (y as u32) < self.h {
            self.put(x, y, c);
        }
    }

    /// Pixel `(x, y)`, or `None` outside the buffer.
    pub fn get(&self, x: i32, y: i32) -> (r: Option<u16>)
        requires
            self.wf(),
        ensures
            r == (if self.contains(x as int, y as int) { Some(self.at(x as int, y as int)) } else { None::<u16> }),
    {
        if x >= 0 && y >= 0 && (x as u32) < self.w && (y as u32) < self.h {
            proof {
                lemma_index_bounds(self.w as int, self.h as int, x as int, y as int);
            }
            let n = self.px.len();
            assert(y as int * self.w as int + (x as int) < n);
            Some(self.px[y as usize * self.w as usize + x as usize])
        } else {
            None
        }
    }
}

/// Clip of `r` to a `w`×`h` buffer: `(x0, y0, x1, y1)` with the origin
/// clamped at 0 and the far edges at `w as i32` / `h as i32`.
pub open spec fn clip(r: Rect, w: u32, h: u32) -> (int, int, int, int) {
    (
        max_int(r.x0 as int, 0),
        max_int(r.y0 as int, 0),
        min_int(r.x1 as int, (w as i32) as int),
        min_int(r.y1 as int, (h as i32) as int),
    )
}

/// Whether `(x, y)` lies on the one-pixel outline of `x0 <= x < x1`, `y0 <= y < y1`.
pub open spec fn on_outline(x: int, y: int, x0: int, y0: int, x1: int, y1: int) -> bool {
    (x0 <= x < x1 && (y == y0 || y == y1 - 1)) || (y0 <= y < y1 && (x == x0 || x == x1 - 1))
}

/// RGB565 word of the three bytes of `s` starting at `i`.
pub open spec fn rgb_word(s: Seq<u8>, i: int) -> u16 {
    pack565(s[i], s[i + 1], s[i + 2])
}

/// Little-endian bytes of the pixels `x0 <= x < x1` of row `y`.
pub open spec fn row_bytes(fb: Framebuf, y: int, x0: int, x1: int) -> Seq<u8>
    decreases x1 - x0,
{
    if x1 <= x0 {
        Seq::empty()
    } else {
        let v = fb.at(x1 - 1, y);
        row_bytes(fb, y, x0, x1 - 1).push((v % 256) as u8).push((v / 256) as u8)
    }
}

/// Little-endian bytes of the region `x0 <= x < x1`, `y0 <= y < y1`, row by row.
pub open spec fn region_bytes(fb: Framebuf, x0: int, y0: int, x1: int, y1: int) -> Seq<u8>
    decreases y1 - y0,
{
    if y1 <= y0 {
        Seq::empty()
    } else {
        region_bytes(fb, x0, y0, x1, y1 - 1) + row_bytes(fb, y1 - 1, x0, x1)
    }
}

proof fn lemma_row_bytes(fb: Framebuf, y: int, x0: int, x1: int)
    requires
        x0 <= x1,
    ensures
        row_bytes(fb, y, x0, x1).len() == 2 * (x1 - x0),
        forall|c: int|
            0 <= c < x1 - x0 ==> #[trigger] row_bytes(fb, y, x0, x1)[2 * c] == (fb.at(x0 + c, y) % 256) as u8
                && row_bytes(fb, y, x0, x1)[2 * c + 1] == (fb.at(x0 + c, y) / 256) as u8,
    decreases x1 - x0,
{
    if x1 > x0 {
        lemma_row_bytes(fb, y, x0, x1 - 1);
        let pre = row_bytes(fb, y, x0, x1 - 1);
        assert forall|c: int| 0 <= c < x1 - x0 implies #[trigger] row_bytes(fb, y, x0, x1)[2 * c] == (fb.at(x0 + c, y)
            % 256) as u8 && row_bytes(fb, y, x0, x1)[2 * c + 1] == (fb.at(x0 + c, y) / 256) as u8 by {
            if c < x1 - 1 - x0 {
                assert(pre[2 * c] == (fb.at(x0 + c, y) % 256) as u8);
            }
        }
    }
}

proof fn lemma_region_bytes(fb: Framebuf, x0: int, y0: int, x1: int, y1: int)
    requires
        x0 <= x1,
        y0 <= y1,
    ensures
        region_bytes(fb, x0, y0, x1, y1).len() == 2 * (x1 - x0) * (y1 - y0),
        forall|r: int, c: int|
            0 <= r < y1 - y0 && 0 <= c < x1 - x0 ==> #[trigger] region_bytes(fb, x0, y0, x1, y1)[2 * (r * (x1 - x0)
                + c)] == (fb.at(x0 + c, y0 + r) % 256) as u8 && region_bytes(fb, x0, y0, x1, y1)[2 * (r * (x1 - x0) + c)
                + 1] == (fb.at(x0 + c, y0 + r) / 256) as u8,
    decreases y1 - y0,
{
    let cw = x1 - x0;
    if y1 > y0 {
        lemma_region_bytes(fb, x0, y0, x1, y1 - 1);
        lemma_row_bytes(fb, y1 - 1, x0, x1);
        let pre = region_bytes(fb, x0, y0, x1, y1 - 1);
        let row = row_bytes(fb, y1 - 1, x0, x1);
        assert(pre.len() == 2 * cw * (y1 - 1 - y0));
        assert(2 * cw * (y1 - 1 - y0) + 2 * cw == 2 * cw * (y1 - y0)) by (nonlinear_arith);
        assert forall|r: int, c: int| 0 <= r < y1 - y0 && 0 <= c < cw implies #[trigger] region_bytes(
            fb,
            x0,
            y0,
            x1,
            y1,
        )[2 * (r * cw + c)] == (fb.at(x0 + c, y0 + r) % 256) as u8 && region_bytes(fb, x0, y0, x1, y1)[2 * (r * cw + c)
            + 1] == (fb.at(x0 + c, y0 + r) / 256) as u8 by {
            if r < y1 - 1 - y0 {
                assert(2 * (r * cw + c) + 1 < 2 * cw * (y1 - 1 - y0)) by (nonlinear_arith)
                    requires
                        0 <= r < y1 - 1 - y0,
                        0 <= c < cw,
                ;
                assert(pre[2 * (r * cw + c)] == (fb.at(x0 + c, y0 + r) % 256) as u8);
            } else {
                assert(2 * (r * cw + c) == 2 * cw * (y1 - 1 - y0) + 2 * c) by (nonlinear_arith)
                    requires
                        r == y1 - 1 - y0,
                ;
                assert(row[2 * c] == (fb.at(x0 + c, y1 - 1) % 256) as u8);
            }
        }
    } else {
        assert(2 * cw * (y1 - y0) == 0) by (nonlinear_arith)
            requires
                y1 == y0,
        ;
    }
}

/// The region export holds the region's pixels row by row, each as its low
/// byte then its high byte: pixel `(x0 + c, y0 + r)` is at bytes
/// `2 (r cw + c)` and `2 (r cw + c) + 1` of the `2 cw ch` bytes, with
/// `cw`×`ch` the region's size. For the whole frame, byte `2k` and `2k + 1`
/// are the low and high byte of pixel `k` of the buffer.
pub proof fn lemma_region_bytes_little_endian(fb: Framebuf, x0: int, y0: int, x1: int, y1: int)
    requires
        x0 <= x1,
        y0 <= y1,
    ensures
        region_bytes(fb, x0, y0, x1, y1).len() == 2 * (x1 - x0) * (y1 - y0),
        forall|r: int, c: int|
            0 <= r < y1 - y0 && 0 <= c < x1 - x0 ==> #[trigger] region_bytes(fb, x0, y0, x1, y1)[2 * (r * (x1 - x0)
                + c)] == (fb.at(x0 + c, y0 + r) % 256) as u8 && region_bytes(fb, x0, y0, x1, y1)[2 * (r * (x1 - x0) + c)
                + 1] == (fb.at(x0 + c, y0 + r) / 256) as u8,
        fb.wf() && x0 == 0 && y0 == 0 && x1 == fb.w && y1 == fb.h ==> forall|k: int|
            0 <= k < fb@.len() ==> #[trigger] region_bytes(fb, x0, y0, x1, y1)[2 * k] == (fb@[k] % 256) as u8
                && region_bytes(fb, x0, y0, x1, y1)[2 * k + 1] == (fb@[k] / 256) as u8,
{
    lemma_region_bytes(fb, x0, y0, x1, y1);
    assert forall|r: int, c: int|
        0 <= r < y1 - y0 && 0 <= c < x1 - x0 implies #[trigger] region_bytes(fb, x0, y0, x1, y1)[2 * (r * (x1 - x0)
        + c)] == (fb.at(x0 + c, y0 + r) % 256) as u8 && region_bytes(fb, x0, y0, x1, y1)[2 * (r * (x1 - x0) + c) + 1]
        == (fb.at(x0 + c, y0 + r) / 256) as u8 by {
        lemma_region_bytes(fb, x0, y0, x1, y1);
    }
    if fb.wf() && x0 == 0 && y0 == 0 && x1 == fb.w && y1 == fb.h {
        lemma_frame_bytes(fb);
    }
}

proof fn lemma_frame_bytes(fb: Framebuf)
    requires
        fb.wf(),
    ensures
        forall|k: int|
            0 <= k < fb@.len() ==> #[trigger] region_bytes(fb, 0, 0, fb.w as int, fb.h as int)[2 * k] == (fb@[k] % 256) as u8
                && region_bytes(fb, 0, 0, fb.w as int, fb.h as int)[2 * k + 1] == (fb@[k] / 256) as u8,
{
    let x0 = 0int;
    let y0 = 0int;
    let x1 = fb.w as int;
    let y1 = fb.h as int;
    lemma_region_bytes(fb, x0, y0, x1, y1);
    {
        let w = fb.w as int;
        assert forall|k: int| 0 <= k < fb@.len() implies #[trigger] region_bytes(fb, x0, y0, x1, y1)[2 * k] == (fb@[k]
            % 256) as u8 && region_bytes(fb, x0, y0, x1, y1)[2 * k + 1] == (fb@[k] / 256) as u8 by {
            let r = k / w;
            let c = k % w;
            assert(w > 0) by (nonlinear_arith)
                requires
                    0 <= k < w * fb.h,
            ;
            assert(k == r * w + c && 0 <= c < w) by (nonlinear_arith)
                requires
                    w > 0,
                    r == k / w,
                    c == k % w,
            ;
            assert(0 <= r < fb.h) by (nonlinear_arith)
                requires
                    w > 0,
                    r == k / w,
                    0 <= k < w * fb.h,
            ;
            assert(fb.at(c, r) == fb@[r * w + c]);
            assert(region_bytes(fb, x0, y0, x1, y1)[2 * (r * (x1 - x0) + c)] == (fb.at(x0 + c, y0 + r) % 256) as u8);
        }
    }
}

proof fn lemma_clip_inside(r: Rect, w: u32, h: u32)
    ensures
        ({
            let (x0, y0, x1, y1) = clip(r, w, h);
            forall|a: int, b: int| in_box(a, b, x0, y0, x1, y1) ==> 0 <= a < w && 0 <= b < h
        }),
{
    lemma_u32_as_i32(w);
    lemma_u32_as_i32(h);
}

proof fn lemma_row_bytes_len(fb: Framebuf, y: int, x0: int, x1: int)
    requires
        x0 <= x1,
    ensures
        row_bytes(fb, y, x0, x1).len() == 2 * (x1 - x0),
    decreases x1 - x0,
{
    if x1 > x0 {
        lemma_row_bytes_len(fb, y, x0, x1 - 1);
    }
}

impl Framebuf {
    /// Fills the part of `r` inside the buffer with `c`. Returns the
    /// clipped rectangle, or `None` when nothing of `r` is inside.
    pub fn fill_rect(&mut self, r: Rect, c: Rgb) -> (d: Option<Rect>)
        requires
            old(self).wf(),
        ensures
            final(self).wf(),
            final(self).w == old(self).w && final(self).h == old(self).h,
            ({
                let (x0, y0, x1, y1) = clip(r, old(self).w, old(self).h);
                &&& d is None <==> (x1 <= x0 || y1 <= y0)
                &&& d matches Some(d) ==> d.x0 == x0 && d.y0 == y0 && d.x1 == x1 && d.y1 == y1
                &&& forall|a: int, b: int| final(self).contains(a, b) ==> #[trigger] final(self).at(a, b) == (
                    if in_box(a, b, x0, y0, x1, y1) { pack565(c[0], c[1], c[2]) } else { old(self).at(a, b) })
            }),
    {
        let v = rgb_to_565(c);
        let x0 = if r.x0 >= 0 { r.x0 } else { 0 };
        let y0 = if r.y0 >= 0 { r.y0 } else { 0 };
        let wi = self.w as i32;
        let hi = self.h as i32;
        let x1 = if r.x1 <= wi { r.x1 } else { wi };
        let y1 = if r.y1 <= hi { r.y1 } else { hi };
        if x1 <= x0 || y1 <= y0 {
            return None;
        }
        proof {
            lemma_clip_inside(r, self.w, self.h);
        }
        let ghost before = *self;
        let mut y = y0;
        while y < y1
            invariant
                self.wf(),
                self.w == before.w && self.h == before.h,
                y0 <= y <= y1,
                x0 < x1,
                forall|a: int, b: int| in_box(a, b, x0 as int, y0 as int, x1 as int, y1 as int)
                    ==> 0 <= a < self.w && 0 <= b < self.h,
                forall|a: int, b: int| self.contains(a, b) ==> #[trigger] self.at(a, b) == (
                    if in_box(a, b, x0 as int, y0 as int, x1 as int, y as int) { v } else { before.at(a, b) }),
            decreases y1 - y,
        {
            let mut x = x0;
            while x < x1
                invariant
                    self.wf(),
                    self.w == before.w && self.h == before.h,
                    y0 <= y < y1,
                    x0 <= x <= x1,
                    forall|a: int, b: int| in_box(a, b, x0 as int, y0 as int, x1 as int, y1 as int)
                        ==> 0 <= a < self.w && 0 <= b < self.h,
                    forall|a: int, b: int| self.contains(a, b) ==> #[trigger] self.at(a, b) == (
                        if in_box(a, b, x0 as int, y0 as int, x1 as int, y as int)
                            || (b == y && x0 <= a < x) { v } else { before.at(a, b) }),
                decreases x1 - x,
            {
                assert(in_box(x as int, y as int, x0 as int, y0 as int, x1 as int, y1 as int));
                self.put(x, y, v);
                x = x + 1;
            }
            y = y + 1;
        }
        Some(Rect::new(x0, y0, x1, y1))
    }

    /// Draws the one-pixel outline of `r` (clipped) with `c`.
    pub fn rect_outline(&mut self, r: Rect, c: Rgb)
        requires
            old(self).wf(),
            !(r.x0 < r.x1 && r.y1 == i32::MIN),
            !(r.y0 < r.y1 && r.x1 == i32::MIN),
        ensures
            final(self).wf(),
            final(self).w == old(self).w && final(self).h == old(self).h,
            forall|a: int, b: int| final(self).contains(a, b) ==> #[trigger] final(self).at(a, b) == (
                if on_outline(a, b, r.x0 as int, r.y0 as int, r.x1 as int, r.y1 as int) {
                    pack565(c[0], c[1], c[2])
                } else {
                    old(self).at(a, b)
                }),
    {
        let v = rgb_to_565(c);
        let ghost before = *self;
        let mut x = r.x0;
        while x < r.x1
            invariant
                self.wf(),
                self.w == before.w && self.h == before.h,
                x == r.x0 || r.x0 < x <= r.x1,
                r.x0 < r.x1 ==> r.y1 > i32::MIN,
                forall|a: int, b: int| self.contains(a, b) ==> #[trigger] self.at(a, b) == (
                    if r.x0 <= a < x && (b == r.y0 || b == r.y1 - 1) { v } else { before.at(a, b) }),
            decreases r.x1 - x,
        {
            self.set(x, r.y0, v);
            self.set(x, r.y1 - 1, v);
            x = x + 1;
        }
        let ghost mid = *self;
        assert forall|a: int, b: int| mid.contains(a, b) implies #[trigger] mid.at(a, b) == (
            if r.x0 <= a < r.x1 && (b == r.y0 || b == r.y1 - 1) { v } else { before.at(a, b) }) by {
            assert(self.contains(a, b));
            assert(mid.at(a, b) == self.at(a, b));
            if r.x0 < r.x1 {
                assert(x == r.x1);
            }
        }
        let mut y = r.y0;
        while y < r.y1
            invariant
                self.wf(),
                self.w == before.w && self.h == before.h,
                y == r.y0 || r.y0 < y <= r.y1,
                r.y0 < r.y1 ==> r.x1 > i32::MIN,
                forall|a: int, b: int| self.contains(a, b) ==> #[trigger] self.at(a, b) == (
                    if r.y0 <= b < y && (a == r.x0 || a == r.x1 - 1) { v } else { mid.at(a, b) }),
                forall|a: int, b: int| mid.contains(a, b) ==> #[trigger] mid.at(a, b) == (
                    if r.x0 <= a < r.x1 && (b == r.y0 || b == r.y1 - 1) { v } else { before.at(a, b) }),
            decreases r.y1 - y,
        {
            self.set(r.x0, y, v);
            self.set(r.x1 - 1, y, v);
            y = y + 1;
        }
    }

    /// Copies a `w`×`h` row-major RGB8 image to `(x, y)`, clipped to the
    /// buffer. Returns the clipped rectangle, or `None` when nothing of the
    /// image lands inside.
    pub fn blit_rgb8(&mut self, x: i32, y: i32, w: u32, h: u32, rgb: &[u8]) -> (d: Option<Rect>)
        requires
            old(self).wf(),
            i32::MIN <= x + (w as i32) <= i32::MAX,
            i32::MIN <= y + (h as i32) <= i32::MAX,
            ({
                let (x0, y0, x1, y1) = clip(Rect { x0: x, y0: y, x1: (x + (w as i32)) as i32, y1: (y + (h as i32)) as i32 }, old(self).w, old(self).h);
                (x0 < x1 && y0 < y1) ==> ((y1 - 1 - y) * w + (x1 - 1 - x)) * 3 + 2 < rgb@.len()
            }),
        ensures
            final(self).wf(),
            final(self).w == old(self).w && final(self).h == old(self).h,
            ({
                let (x0, y0, x1, y1) = clip(Rect { x0: x, y0: y, x1: (x + (w as i32)) as i32, y1: (y + (h as i32)) as i32 }, old(self).w, old(self).h);
                &&& d is None <==> (x1 <= x0 || y1 <= y0)
                &&& d matches Some(d) ==> d.x0 == x0 && d.y0 == y0 && d.x1 == x1 && d.y1 == y1
                &&& forall|a: int, b: int| final(self).contains(a, b) ==> #[trigger] final(self).at(a, b) == (
                    if in_box(a, b, x0, y0, x1, y1) {
                        rgb_word(rgb@, ((b - y) * w + (a - x)) * 3)
                    } else {
                        old(self).at(a, b)
                    })
            }),
    {
        let x0 = if x >= 0 { x } else { 0 };
        let y0 = if y >= 0 { y } else { 0 };
        let xe = x + w as i32;
        let ye = y + h as i32;
        let wi = self.w as i32;
        let hi = self.h as i32;
        let x1 = if xe <= wi { xe } else { wi };
        let y1 = if ye <= hi { ye } else { hi };
        if x1 <= x0 || y1 <= y0 {
            return None;
        }
        proof {
            lemma_clip_inside(Rect { x0: x, y0: y, x1: xe, y1: ye }, self.w, self.h);
        }
        let ghost before = *self;
        let ghost last = ((y1 - 1 - y) * w + (x1 - 1 - x)) * 3;
        let n = rgb.len();
        let mut dy = y0;
        while dy < y1
            invariant
                n == rgb@.len(),
                x1 <= xe,
                y1 <= ye,
                xe == x + (w as i32),
                ye == y + (h as i32),
                self.wf(),
                self.w == before.w && self.h == before.h,
                y0 <= dy <= y1,
                x <= x0 < x1,
                y <= y0 < y1,
                last == ((y1 - 1 - y) * w + (x1 - 1 - x)) * 3,
                last + 2 < rgb@.len(),
                forall|a: int, b: int| in_box(a, b, x0 as int, y0 as int, x1 as int, y1 as int)
                    ==> 0 <= a < self.w && 0 <= b < self.h,
                forall|a: int, b: int| self.contains(a, b) ==> #[trigger] self.at(a, b) == (
                    if in_box(a, b, x0 as int, y0 as int, x1 as int, dy as int) {
                        rgb_word(rgb@, ((b - y) * w + (a - x)) * 3)
                    } else {
                        before.at(a, b)
                    }),
            decreases y1 - dy,
        {
            let sy = (dy - y) as usize;
            let mut dx = x0;
            while dx < x1
                invariant
                    n == rgb@.len(),
                    x1 <= xe,
                    y1 <= ye,
                    xe == x + (w as i32),
                    ye == y + (h as i32),
                    self.wf(),
                    self.w == before.w && self.h == before.h,
                    y0 <= dy < y1,
                    x0 <= dx <= x1,
                    x <= x0 < x1,
                    y <= y0 < y1,
                    sy == dy - y,
                    last == ((y1 - 1 - y) * w + (x1 - 1 - x)) * 3,
                    last + 2 < rgb@.len(),
                    forall|a: int, b: int| in_box(a, b, x0 as int, y0 as int, x1 as int, y1 as int)
                        ==> 0 <= a < self.w && 0 <= b < self.h,
                    forall|a: int, b: int| self.contains(a, b) ==> #[trigger] self.at(a, b) == (
                        if in_box(a, b, x0 as int, y0 as int, x1 as int, dy as int)
                            || (b == dy && x0 <= a < dx) {
                            rgb_word(rgb@, ((b - y) * w + (a - x)) * 3)
                        } else {
                            before.at(a, b)
                        }),
                decreases x1 - dx,
            {
                let sx = (dx - x) as usize;
                proof {
                    assert((sy * w + sx) * 3 <= last) by (nonlinear_arith)
                        requires
                            sy <= y1 - 1 - y,
                            sx <= x1 - 1 - x,
                            0 <= sy,
                            0 <= sx,
                            0 <= w,
                            last == ((y1 - 1 - y) * w + (x1 - 1 - x)) * 3,
                    ;
                }
                let si = (sy * w as usize + sx) * 3;
                let v = rgb_to_565([rgb[si], rgb[si + 1], rgb[si + 2]]);
                assert(in_box(dx as int, dy as int, x0 as int, y0 as int, x1 as int, y1 as int));
                self.put(dx, dy, v);
                dx = dx + 1;
            }
            dy = dy + 1;
        }
        Some(Rect::new(x0, y0, x1, y1))
    }

    /// Little-endian RGB565 bytes of the part of `r` inside the buffer,
    /// row by row, written to `out` (previous contents discarded).
    pub fn region_rgb565le(&self, r: &Rect, out: &mut Vec<u8>)
        requires
            self.wf(),
            ({
                let (x0, y0, x1, y1) = clip(*r, self.w, self.h);
                &&& x1 - x0 >= i32::MIN
                &&& y1 - y0 >= i32::MIN
                &&& max_int(x1 - x0, 0) * max_int(y1 - y0, 0) * 2 <= i32::MAX
            }),
        ensures
            ({
                let (x0, y0, x1, y1) = clip(*r, self.w, self.h);
                final(out)@ == region_bytes(*self, x0, y0, x1, y1)
            }),
            ({
                let (x0, y0, x1, y1) = clip(*r, self.w, self.h);
                x0 <= x1 && y0 <= y1 ==> final(out)@.len() == 2 * (x1 - x0) * (y1 - y0)
            }),
            ({
                let (x0, y0, x1, y1) = clip(*r, self.w, self.h);
                x0 <= x1 && y0 <= y1 ==> forall|i: int, j: int|
                    0 <= i < y1 - y0 && 0 <= j < x1 - x0 ==> #[trigger] final(out)@[2 * (i * (x1 - x0) + j)] == (
                    self.at(x0 + j, y0 + i) % 256) as u8 && final(out)@[2 * (i * (x1 - x0) + j) + 1] == (self.at(
                        x0 + j,
                        y0 + i,
                    ) / 256) as u8
            }),
            ({
                let (x0, y0, x1, y1) = clip(*r, self.w, self.h);
                x0 == 0 && y0 == 0 && x1 == self.w && y1 == self.h ==> forall|k: int|
                    0 <= k < self@.len() ==> #[trigger] final(out)@[2 * k] == (self@[k] % 256) as u8 && final(out)@[2
                        * k + 1] == (self@[k] / 256) as u8
            }),
    {
        out.clear();
        let x0 = if r.x0 >= 0 { r.x0 } else { 0 };
        let y0 = if r.y0 >= 0 { r.y0 } else { 0 };
        let wi = self.w as i32;
        let hi = self.h as i32;
        let x1 = if r.x1 <= wi { r.x1 } else { wi };
        let y1 = if r.y1 <= hi { r.y1 } else { hi };
        let cw = if x1 - x0 >= 0 { x1 - x0 } else { 0 };
        let ch = if y1 - y0 >= 0 { y1 - y0 } else { 0 };
        proof {
            assert(0 <= cw * ch <= cw * ch * 2) by (nonlinear_arith)
                requires 0 <= cw, 0 <= ch;
        }
        out.reserve((cw * ch * 2) as usize);
        assert(out@ == Seq::<u8>::empty());
        proof {
            lemma_clip_inside(*r, self.w, self.h);
        }
        let mut y = y0;
        while y < y1
            invariant
                self.wf(),
                y == y0 || y0 < y <= y1,
                forall|a: int, b: int| in_box(a, b, x0 as int, y0 as int, x1 as int, y1 as int)
                    ==> 0 <= a < self.w && 0 <= b < self.h,
                out@ == region_bytes(*self, x0 as int, y0 as int, x1 as int, y as int),
            decreases y1 - y,
        {
            let mut x = x0;
            while x < x1
                invariant
                    self.wf(),
                    y0 <= y < y1,
                    x == x0 || x0 < x <= x1,
                    forall|a: int, b: int| in_box(a, b, x0 as int, y0 as int, x1 as int, y1 as int)
                        ==> 0 <= a < self.w && 0 <= b < self.h,
                    out@ == region_bytes(*self, x0 as int, y0 as int, x1 as int, y as int)
                        + row_bytes(*self, y as int, x0 as int, x as int),
                decreases x1 - x,
            {
                assert(in_box(x as int, y as int, x0 as int, y0 as int, x1 as int, y1 as int));
                proof {
                    lemma_index_bounds(self.w as int, self.h as int, x as int, y as int);
                }
                let n = self.px.len();
                assert(y as int * self.w as int + (x as int) < n);
                let v = self.px[y as usize * self.w as usize + x as usize];
                out.push((v & 0xFFu16) as u8);
                out.push((v >> 8u16) as u8);
                assert(v & 0xFFu16 == v % 256) by (bit_vector);
                assert(v >> 8u16 == v / 256) by (bit_vector);
                x = x + 1;
            }
            assert(row_bytes(*self, y as int, x0 as int, x as int) == row_bytes(*self, y as int, x0 as int, x1 as int));
            assert(region_bytes(*self, x0 as int, y0 as int, x1 as int, y + 1) == region_bytes(*self, x0 as int, y0 as int, x1 as int, y as int) + row_bytes(*self, y as int, x0 as int, x1 as int));
            y = y + 1;
        }
        assert(out@ == region_bytes(*self, x0 as int, y0 as int, x1 as int, y1 as int));
        proof {
            let (cx0, cy0, cx1, cy1) = clip(*r, self.w, self.h);
            assert(cx0 == x0 && cy0 == y0 && cx1 == x1 && cy1 == y1);
            assert(out@ == region_bytes(*self, cx0, cy0, cx1, cy1));
            if cx0 <= cx1 && cy0 <= cy1 {
                lemma_region_bytes_little_endian(*self, cx0, cy0, cx1, cy1);
            }
        }
    }

    /// Read-only view of the pixels.
    pub fn pixels(&self) -> (p: &[u16])
        ensures
            p@ == self@,
    {
        self.px.as_slice()
    }
}

/// Absolute value.
pub open spec fn abs_int(a: int) -> int {
    if a < 0 { -a } else { a }
}

/// One step of Bresenham's line walk from `(x, y)` with error term `err`,
/// for spans `dx >= 0`, `dy <= 0` and directions `sx`, `sy`.
pub open spec fn bres_step(x: int, y: int, err: int, dx: int, dy: int, sx: int, sy: int) -> (int, int, int) {
    let e2 = 2 * err;
    let x2 = if e2 >= dy { x + sx } else { x };
    let err2 = if e2 >= dy { err + dy } else { err };
    let y2 = if e2 <= dx { y + sy } else { y };
    let err3 = if e2 <= dx { err2 + dx } else { err2 };
    (x2, y2, err3)
}

/// Points Bresenham's walk visits from state `(x, y, err)` up to and
/// including `(x1, y1)`, bounded by `fuel` points.
pub open spec fn bres_points(
    x: int,
    y: int,
    err: int,
    x1: int,
    y1: int,
    dx: int,
    dy: int,
    sx: int,
    sy: int,
    fuel: nat,
) -> Set<(int, int)>
    decreases fuel,
{
    if fuel == 0 {
        Set::empty()
    } else if x == x1 && y == y1 {
        Set::empty().insert((x, y))
    } else {
        let (nx, ny, ne) = bres_step(x, y, err, dx, dy, sx, sy);
        bres_points(nx, ny, ne, x1, y1, dx, dy, sx, sy, (fuel - 1) as nat).insert((x, y))
    }
}

/// The pixels of the Bresenham line from `(x0, y0)` to `(x1, y1)`.
pub open spec fn line_points(x0: int, y0: int, x1: int, y1: int) -> Set<(int, int)> {
    let dx = abs_int(x1 - x0);
    let dy = -abs_int(y1 - y0);
    let sx: int = if x0 < x1 { 1 } else { -1 };
    let sy: int = if y0 < y1 { 1 } else { -1 };
    bres_points(x0, y0, dx + dy, x1, y1, dx, dy, sx, sy, (dx - dy + 1) as nat)
}

proof fn lemma_bres_end(x: int, y: int, err: int, dx: int, dy: int, sx: int, sy: int, fuel: nat)
    requires
        fuel > 0,
    ensures
        bres_points(x, y, err, x, y, dx, dy, sx, sy, fuel) == Set::<(int, int)>::empty().insert((x, y)),
{
}

/// One step of the walk keeps the error term in `[2dy, 2dx]`, never moves
/// past the end point along either axis, and moves along at least one.
proof fn lemma_bres_step(
    x0: int, y0: int, x1: int, y1: int, dx: int, dy: int, sx: int, sy: int,
    i: int, j: int, x: int, y: int, err: int,
)
    requires
        dx == abs_int(x1 - x0),
        dy == -abs_int(y1 - y0),
        sx == (if x0 < x1 { 1int } else { -1int }),
        sy == (if y0 < y1 { 1int } else { -1int }),
        0 <= i <= dx,
        0 <= j <= -dy,
        x == x0 + sx * i,
        y == y0 + sy * j,
        err == dx + dy + i * dy + j * dx,
        2 * dy <= err <= 2 * dx,
        !(x == x1 && y == y1),
    ensures
        ({
            let (nx, ny, ne) = bres_step(x, y, err, dx, dy, sx, sy);
            let ni = if 2 * err >= dy { i + 1 } else { i };
            let nj = if 2 * err <= dx { j + 1 } else { j };
            &&& 0 <= ni <= dx
            &&& 0 <= nj <= -dy
            &&& ni + nj > i + j
            &&& nx == x0 + sx * ni
            &&& ny == y0 + sy * nj
            &&& ne == dx + dy + ni * dy + nj * dx
            &&& 2 * dy <= ne <= 2 * dx
        }),
{
    let e2 = 2 * err;
    assert(x == x1 <==> i == dx) by (nonlinear_arith)
        requires
            dx == abs_int(x1 - x0),
            sx == (if x0 < x1 { 1int } else { -1int }),
            x == x0 + sx * i,
            0 <= i,
    ;
    assert(y == y1 <==> j == -dy) by (nonlinear_arith)
        requires
            dy == -abs_int(y1 - y0),
            sy == (if y0 < y1 { 1int } else { -1int }),
            y == y0 + sy * j,
            0 <= j,
    ;
    if e2 >= dy && i == dx {
        assert(j < -dy);
        assert(dx * (1 + dy + j) <= 0) by (nonlinear_arith)
            requires
                0 <= dx,
                1 + dy + j <= 0,
        ;
        assert(err == dx * (1 + dy + j) + dy) by (nonlinear_arith)
            requires
                err == dx + dy + i * dy + j * dx,
                i == dx,
        ;
    }
    if e2 <= dx && j == -dy {
        assert(i < dx);
        assert(dy * (1 + i - dx) >= 0) by (nonlinear_arith)
            requires
                dy <= 0,
                1 + i - dx <= 0,
        ;
        assert(err == dx + dy * (1 + i - dx)) by (nonlinear_arith)
            requires
                err == dx + dy + i * dy + j * dx,
                j == -dy,
        ;
    }
    assert((i + 1) * dy == i * dy + dy) by (nonlinear_arith);
    assert((j + 1) * dx == j * dx + dx) by (nonlinear_arith);
    assert(sx * (i + 1) == sx * i + sx) by (nonlinear_arith);
    assert(sy * (j + 1) == sy * j + sy) by (nonlinear_arith);
}

/// Points Bresenham's walk visits from state `(x, y, err)` up to and
/// including `(x1, y1)`, in the order visited, bounded by `fuel` points.
pub open spec fn bres_seq(
    x: int,
    y: int,
    err: int,
    x1: int,
    y1: int,
    dx: int,
    dy: int,
    sx: int,
    sy: int,
    fuel: nat,
) -> Seq<(int, int)>
    decreases fuel,
{
    if fuel == 0 {
        Seq::empty()
    } else if x == x1 && y == y1 {
        seq![(x, y)]
    } else {
        let (nx, ny, ne) = bres_step(x, y, err, dx, dy, sx, sy);
        seq![(x, y)] + bres_seq(nx, ny, ne, x1, y1, dx, dy, sx, sy, (fuel - 1) as nat)
    }
}

/// The pixels of the Bresenham line from `(x0, y0)` to `(x1, y1)`, in the
/// order they are drawn.
pub open spec fn line_path(x0: int, y0: int, x1: int, y1: int) -> Seq<(int, int)> {
    let dx = abs_int(x1 - x0);
    let dy = -abs_int(y1 - y0);
    let sx: int = if x0 < x1 { 1 } else { -1 };
    let sy: int = if y0 < y1 { 1 } else { -1 };
    bres_seq(x0, y0, dx + dy, x1, y1, dx, dy, sx, sy, (dx - dy + 1) as nat)
}

/// Two distinct pixels that touch, sideways or diagonally.
pub open spec fn adjacent8(p: (int, int), q: (int, int)) -> bool {
    p != q && abs_int(p.0 - q.0) <= 1 && abs_int(p.1 - q.1) <= 1
}

/// The error term keeps the walk stepping along its major axis: along `x`
/// when `dx >= -dy`, along `y` otherwise.
pub open spec fn major_ok(dx: int, dy: int, err: int) -> bool {
    if dx >= -dy { 2 * err > dy } else { 2 * err < dx }
}

proof fn lemma_bres_at_end(x0: int, y0: int, x1: int, y1: int, dx: int, dy: int, sx: int, sy: int, i: int, j: int)
    requires
        dx == abs_int(x1 - x0),
        dy == -abs_int(y1 - y0),
        sx == (if x0 < x1 { 1int } else { -1int }),
        sy == (if y0 < y1 { 1int } else { -1int }),
        0 <= i,
        0 <= j,
    ensures
        x0 + sx * i == x1 <==> i == dx,
        y0 + sy * j == y1 <==> j == -dy,
{
    if sx == 1 {
        assert(sx * i == i);
    } else {
        assert(sx * i == -i);
    }
    if sy == 1 {
        assert(sy * j == j);
    } else {
        assert(sy * j == -j);
    }
}

proof fn lemma_cons_to_set(a: (int, int), rest: Seq<(int, int)>)
    ensures
        (seq![a] + rest).to_set() == rest.to_set().insert(a),
{
    let p = seq![a] + rest;
    assert forall|q: (int, int)| p.to_set().contains(q) <==> rest.to_set().insert(a).contains(q) by {
        if p.to_set().contains(q) {
            let k = choose|k: int| 0 <= k < p.len() && p[k] == q;
            if k > 0 {
                assert(rest[k - 1] == q);
            }
        }
        if rest.to_set().contains(q) {
            let k = choose|k: int| 0 <= k < rest.len() && rest[k] == q;
            assert(p[k + 1] == q);
        }
        if q == a {
            assert(p[0] == q);
        }
    }
    assert(p.to_set() =~= rest.to_set().insert(a));
}

/// One step keeps the walk on its major axis.
proof fn lemma_major_step(dx: int, dy: int, err: int)
    requires
        dx >= 0,
        dy <= 0,
        major_ok(dx, dy, err),
    ensures
        ({
            let e2 = 2 * err;
            let err2 = if e2 >= dy { err + dy } else { err };
            let ne = if e2 <= dx { err2 + dx } else { err2 };
            major_ok(dx, dy, ne)
        }),
{
}

#[verifier::rlimit(40)]
#[verifier::spinoff_prover]
proof fn lemma_bres_path(
    x0: int, y0: int, x1: int, y1: int, dx: int, dy: int, sx: int, sy: int,
    i: int, j: int, x: int, y: int, err: int, fuel: nat,
)
    requires
        dx == abs_int(x1 - x0),
        dy == -abs_int(y1 - y0),
        sx == (if x0 < x1 { 1int } else { -1int }),
        sy == (if y0 < y1 { 1int } else { -1int }),
        0 <= i <= dx,
        0 <= j <= -dy,
        x == x0 + sx * i,
        y == y0 + sy * j,
        err == dx + dy + i * dy + j * dx,
        2 * dy <= err <= 2 * dx,
        fuel >= (dx - i) + (-dy - j) + 1,
        (x == x1 && y == y1) || major_ok(dx, dy, err),
    ensures
        ({
            let p = bres_seq(x, y, err, x1, y1, dx, dy, sx, sy, fuel);
            &&& p.len() == (if dx >= -dy { dx - i } else { -dy - j }) + 1
            &&& p[0] == (x, y)
            &&& p.last() == (x1, y1)
            &&& forall|k: int| 0 <= k < p.len() - 1 ==> adjacent8(#[trigger] p[k], p[k + 1])
            &&& forall|k: int|
                0 <= k < p.len() ==> if dx >= -dy {
                    (#[trigger] p[k]).0 == x0 + sx * (i + k)
                } else {
                    p[k].1 == y0 + sy * (j + k)
                }
            &&& p.to_set() == bres_points(x, y, err, x1, y1, dx, dy, sx, sy, fuel)
        }),
    decreases fuel,
{
    lemma_bres_at_end(x0, y0, x1, y1, dx, dy, sx, sy, i, j);
    let p = bres_seq(x, y, err, x1, y1, dx, dy, sx, sy, fuel);
    if x == x1 && y == y1 {
        assert(p == seq![(x, y)]);
        lemma_cons_to_set((x, y), Seq::empty());
        assert(seq![(x, y)] =~= seq![(x, y)] + Seq::<(int, int)>::empty());
        assert(Seq::<(int, int)>::empty().to_set() =~= Set::empty());
    } else {
        lemma_bres_step(x0, y0, x1, y1, dx, dy, sx, sy, i, j, x, y, err);
        let (nx, ny, ne) = bres_step(x, y, err, dx, dy, sx, sy);
        let ni = if 2 * err >= dy { i + 1 } else { i };
        let nj = if 2 * err <= dx { j + 1 } else { j };
        if dx >= -dy {
            assert(ni == i + 1);
        } else {
            assert(nj == j + 1);
        }
        lemma_major_step(dx, dy, err);
        lemma_bres_path(x0, y0, x1, y1, dx, dy, sx, sy, ni, nj, nx, ny, ne, (fuel - 1) as nat);
        let rest = bres_seq(nx, ny, ne, x1, y1, dx, dy, sx, sy, (fuel - 1) as nat);
        assert(p == seq![(x, y)] + rest);
        assert(adjacent8(p[0], p[1])) by {
            assert(p[1] == rest[0]);
            if sx == 1 {
                assert(nx - x == ni - i);
            } else {
                assert(nx - x == i - ni);
            }
            if sy == 1 {
                assert(ny - y == nj - j);
            } else {
                assert(ny - y == j - nj);
            }
        }
        assert forall|k: int| 0 <= k < p.len() - 1 implies adjacent8(#[trigger] p[k], p[k + 1]) by {
            if k > 0 {
                assert(p[k] == rest[k - 1] && p[k + 1] == rest[k]);
            }
        }
        assert forall|k: int|
            0 <= k < p.len() implies if dx >= -dy {
                (#[trigger] p[k]).0 == x0 + sx * (i + k)
            } else {
                p[k].1 == y0 + sy * (j + k)
            } by {
            if k > 0 {
                assert(p[k] == rest[k - 1]);
                if dx >= -dy {
                    assert(ni + (k - 1) == i + k);
                } else {
                    assert(nj + (k - 1) == j + k);
                }
            }
        }
        lemma_cons_to_set((x, y), rest);
    }
}

/// A line is an 8-connected path of pixels from its start to its end: it
/// has `max(|x1 - x0|, |y1 - y0|) + 1` pixels, each drawn once, each
/// touching the next sideways or diagonally, and they are exactly the
/// pixels [`Framebuf::line`] sets.
pub proof fn lemma_line_is_8_connected_path(x0: int, y0: int, x1: int, y1: int)
    ensures
        ({
            let p = line_path(x0, y0, x1, y1);
            &&& p.len() == max_int(abs_int(x1 - x0), abs_int(y1 - y0)) + 1
            &&& p[0] == (x0, y0)
            &&& p.last() == (x1, y1)
            &&& forall|k: int| 0 <= k < p.len() - 1 ==> adjacent8(#[trigger] p[k], p[k + 1])
            &&& p.no_duplicates()
            &&& p.to_set() == line_points(x0, y0, x1, y1)
            &&& line_points(x0, y0, x1, y1).len() == p.len()
        }),
{
    let dx = abs_int(x1 - x0);
    let dy = -abs_int(y1 - y0);
    let sx: int = if x0 < x1 { 1 } else { -1 };
    let sy: int = if y0 < y1 { 1 } else { -1 };
    assert(sx * 0 == 0 && sy * 0 == 0);
    lemma_bres_at_end(x0, y0, x1, y1, dx, dy, sx, sy, 0, 0);
    lemma_bres_path(x0, y0, x1, y1, dx, dy, sx, sy, 0, 0, x0, y0, dx + dy, (dx - dy + 1) as nat);
    let p = line_path(x0, y0, x1, y1);
    assert forall|a: int, b: int| 0 <= a < p.len() && 0 <= b < p.len() && a != b implies p[a] != p[b] by {
        if dx >= -dy {
            assert(p[a].0 == x0 + sx * a && p[b].0 == x0 + sx * b);
            if sx == 1 {
                assert(sx * a == a && sx * b == b);
            } else {
                assert(sx * a == -a && sx * b == -b);
            }
        } else {
            assert(p[a].1 == y0 + sy * a && p[b].1 == y0 + sy * b);
            if sy == 1 {
                assert(sy * a == a && sy * b == b);
            } else {
                assert(sy * a == -a && sy * b == -b);
            }
        }
    }
    p.unique_seq_to_set();
}

impl Framebuf {
    /// Bresenham line from `(x0, y0)` to `(x1, y1)` inclusive, clipped.
    pub fn line(&mut self, x0: i32, y0: i32, x1: i32, y1: i32, c: Rgb)
        requires
            old(self).wf(),
        ensures
            final(self).wf(),
            final(self).w == old(self).w && final(self).h == old(self).h,
            line_points(x0 as int, y0 as int, x1 as int, y1 as int).contains((x0 as int, y0 as int)),
            line_points(x0 as int, y0 as int, x1 as int, y1 as int).contains((x1 as int, y1 as int)),
            ({
                let p = line_path(x0 as int, y0 as int, x1 as int, y1 as int);
                &&& p.to_set() == line_points(x0 as int, y0 as int, x1 as int, y1 as int)
                &&& p.len() == max_int(abs_int(x1 - x0), abs_int(y1 - y0)) + 1
                &&& p[0] == (x0 as int, y0 as int) && p.last() == (x1 as int, y1 as int)
                &&& forall|k: int| 0 <= k < p.len() - 1 ==> adjacent8(#[trigger] p[k], p[k + 1])
                &&& p.no_duplicates()
            }),
            forall|a: int, b: int| final(self).contains(a, b) ==> #[trigger] final(self).at(a, b) == (
                if line_points(x0 as int, y0 as int, x1 as int, y1 as int).contains((a, b)) {
                    pack565(c[0], c[1], c[2])
                } else {
                    old(self).at(a, b)
                }),
    {
        let v = rgb_to_565(c);
        let ax0 = x0 as i64;
        let ay0 = y0 as i64;
        let ax1 = x1 as i64;
        let ay1 = y1 as i64;
        let dx: i64 = if ax1 >= ax0 { ax1 - ax0 } else { ax0 - ax1 };
        let dy: i64 = if ay1 >= ay0 { ay0 - ay1 } else { ay1 - ay0 };
        let sx: i64 = if ax0 < ax1 { 1 } else { -1 };
        let sy: i64 = if ay0 < ay1 { 1 } else { -1 };
        let mut x = ax0;
        let mut y = ay0;
        let mut err = dx + dy;
        let ghost before = *self;
        let ghost all = line_points(x0 as int, y0 as int, x1 as int, y1 as int);
        let ghost mut i: int = 0;
        let ghost mut j: int = 0;
        let ghost mut fuel: nat = (dx - dy + 1) as nat;
        let ghost mut drawn: Set<(int, int)> = Set::empty();
        proof {
            assert(all == drawn + bres_points(x as int, y as int, err as int, x1 as int, y1 as int, dx as int, dy as int, sx as int, sy as int, fuel));
        }
        loop
            invariant
                ax1 == x1 && ay1 == y1,
                self.wf(),
                self.w == before.w && self.h == before.h,
                dx == abs_int(x1 - x0),
                dy == -abs_int(y1 - y0),
                sx == (if x0 < x1 { 1int } else { -1int }),
                sy == (if y0 < y1 { 1int } else { -1int }),
                0 <= i <= dx,
                0 <= j <= -dy,
                x == x0 + sx * i,
                y == y0 + sy * j,
                err == dx + dy + i * dy + j * dx,
                2 * dy <= err <= 2 * dx,
                fuel >= (dx - i) + (-dy - j) + 1,
                all == line_points(x0 as int, y0 as int, x1 as int, y1 as int),
                all == drawn + bres_points(x as int, y as int, err as int, x1 as int, y1 as int, dx as int, dy as int, sx as int, sy as int, fuel),
                drawn.contains((x0 as int, y0 as int)) || (x == x0 && y == y0),
                forall|a: int, b: int| self.contains(a, b) ==> #[trigger] self.at(a, b) == (
                    if drawn.contains((a, b)) { v } else { before.at(a, b) }),
            ensures
                all == drawn,
                drawn.contains((x0 as int, y0 as int)),
                drawn.contains((x1 as int, y1 as int)),
                forall|a: int, b: int| self.contains(a, b) ==> #[trigger] self.at(a, b) == (
                    if drawn.contains((a, b)) { v } else { before.at(a, b) }),
            decreases (if x1 >= x { x1 - x } else { x - x1 }) + (if y1 >= y { y1 - y } else { y - y1 }),
        {
            proof {
                assert(sx * i <= dx && -dx <= sx * i) by (nonlinear_arith)
                    requires 0 <= i <= dx, sx == 1 || sx == -1;
                assert(sy * j <= -dy && dy <= sy * j) by (nonlinear_arith)
                    requires 0 <= j <= -dy, sy == 1 || sy == -1;
            }
            assert(x == x0 || (sx == 1 && x0 < x <= x1) || (sx == -1 && x1 <= x < x0)) by (nonlinear_arith)
                requires x == x0 + sx * i, 0 <= i <= dx, dx == abs_int(x1 - x0), sx == (if x0 < x1 { 1int } else { -1int });
            assert(y == y0 || (sy == 1 && y0 < y <= y1) || (sy == -1 && y1 <= y < y0)) by (nonlinear_arith)
                requires y == y0 + sy * j, 0 <= j <= -dy, dy == -abs_int(y1 - y0), sy == (if y0 < y1 { 1int } else { -1int });
            self.set(x as i32, y as i32, v);
            let ghost prev_drawn = drawn;
            proof {
                drawn = drawn.insert((x as int, y as int));
            }
            if x == ax1 && y == ay1 {
                proof { lemma_bres_end(x as int, y as int, err as int, dx as int, dy as int, sx as int, sy as int, fuel); }
                assert(bres_points(x as int, y as int, err as int, x1 as int, y1 as int, dx as int, dy as int, sx as int, sy as int, fuel)
                    =~= Set::<(int, int)>::empty().insert((x as int, y as int)));
                assert(all =~= drawn);
                break;
            }
            let ghost (px, py, perr) = (x as int, y as int, err as int);
            proof {
                lemma_bres_step(x0 as int, y0 as int, x1 as int, y1 as int, dx as int, dy as int, sx as int, sy as int, i, j, x as int, y as int, err as int);
            }
            let e2 = 2 * err;
            if e2 >= dy {
                err = err + dy;
                x = x + sx;
                proof { i = i + 1; }
            }
            if e2 <= dx {
                err = err + dx;
                y = y + sy;
                proof { j = j + 1; }
            }
            proof {
                assert(bres_points(px, py, perr, x1 as int, y1 as int, dx as int, dy as int, sx as int, sy as int, fuel)
                    == bres_points(x as int, y as int, err as int, x1 as int, y1 as int, dx as int, dy as int, sx as int, sy as int, (fuel - 1) as nat).insert((px, py)));
                fuel = (fuel - 1) as nat;
                assert(all =~= drawn + bres_points(x as int, y as int, err as int, x1 as int, y1 as int, dx as int, dy as int, sx as int, sy as int, fuel));
            }
        }
        proof {
            lemma_line_is_8_connected_path(x0 as int, y0 as int, x1 as int, y1 as int);
        }
    }
}

/// Integer square root: the largest `k` with `k * k <= n`.
pub fn isqrt(n: u32) -> (k: u32)
    requires
        n <= 0x100_0000,
    ensures
        k * k <= n < (k + 1) * (k + 1),
{
    let mut k: u32 = 0;
    loop
        invariant
            n <= 0x100_0000,
            k * k <= n,
            k <= 4096,
        ensures
            k * k <= n < (k + 1) * (k + 1),
        decreases n - k,
    {
        assert((k + 1) * (k + 1) <= 4097 * 4097) by (nonlinear_arith)
            requires k <= 4096;
        if (k + 1) * (k + 1) > n {
            break;
        }
        assert(k + 1 <= 4096) by (nonlinear_arith)
            requires (k + 1) * (k + 1) <= n, n <= 0x100_0000, k >= 0;
        assert(k + 1 <= n) by (nonlinear_arith)
            requires (k + 1) * (k + 1) <= n, k >= 0;
        k = k + 1;
    }
    k
}

/// Whether `(x, y)` lies in the closed disk of radius `r` around `(cx, cy)`.
pub open spec fn in_disk(x: int, y: int, cx: int, cy: int, r: int) -> bool {
    r >= 0 && (x - cx) * (x - cx) + (y - cy) * (y - cy) <= r * r
}

/// Points of the disk lie within `r` rows of its center.
proof fn lemma_disk_rows(x: int, y: int, cx: int, cy: int, r: int)
    requires
        in_disk(x, y, cx, cy, r),
    ensures
        cy - r <= y <= cy + r,
{
    assert(cy - r <= y <= cy + r) by (nonlinear_arith)
        requires
            r >= 0,
            (x - cx) * (x - cx) + (y - cy) * (y - cy) <= r * r,
    ;
}

/// For `k` the integer square root of `m`: `|t| <= k` iff `t * t <= m`.
proof fn lemma_isqrt_abs(t: int, k: int, m: int)
    requires
        k >= 0,
        k * k <= m < (k + 1) * (k + 1),
    ensures
        (-k <= t <= k) <==> t * t <= m,
{
    if -k <= t <= k {
        assert(t * t <= k * k) by (nonlinear_arith)
            requires -k <= t <= k, k >= 0;
    } else {
        assert(t * t >= (k + 1) * (k + 1)) by (nonlinear_arith)
            requires !(-k <= t <= k), k >= 0;
    }
}

impl Framebuf {
    /// Filled disk of radius `r` around `(cx, cy)`, clipped. Rows span
    /// `cy - r ..= cy + r`; row `y` spans `cx ± isqrt(r² - (y - cy)²)`.
    /// Radii above 4096 are excluded: past that the single-precision
    /// square root no longer rounds to the integer square root.
    pub fn fill_circle(&mut self, cx: i32, cy: i32, r: i32, c: Rgb)
        requires
            old(self).wf(),
            i32::MIN <= cy - r && cy + r <= i32::MAX,
            r >= 0 ==> r <= 4096 && i32::MIN <= cx - r && cx + r <= i32::MAX,
        ensures
            final(self).wf(),
            final(self).w == old(self).w && final(self).h == old(self).h,
            forall|a: int, b: int| final(self).contains(a, b) ==> #[trigger] final(self).at(a, b) == (
                if in_disk(a, b, cx as int, cy as int, r as int) {
                    pack565(c[0], c[1], c[2])
                } else {
                    old(self).at(a, b)
                }),
    {
        let v = rgb_to_565(c);
        let ghost before = *self;
        if r < 0 {
            return;
        }
        let r64 = r as i64;
        let cx64 = cx as i64;
        let cy64 = cy as i64;
        let mut y: i64 = cy64 - r64;
        assert forall|a: int, b: int| self.contains(a, b) implies #[trigger] self.at(a, b) == (
            if in_disk(a, b, cx as int, cy as int, r as int) && b < y { v } else { before.at(a, b) }) by {
            if in_disk(a, b, cx as int, cy as int, r as int) {
                lemma_disk_rows(a, b, cx as int, cy as int, r as int);
            }
        }
        while y <= cy64 + r64
            invariant
                0 <= r64 <= 4096,
                r64 == r && cx64 == cx && cy64 == cy,
                i32::MIN <= cy - r && cy + r <= i32::MAX,
                i32::MIN <= cx - r && cx + r <= i32::MAX,
                cy - r <= y <= cy + r + 1,
                self.wf(),
                self.w == before.w && self.h == before.h,
                forall|a: int, b: int| self.contains(a, b) ==> #[trigger] self.at(a, b) == (
                    if in_disk(a, b, cx as int, cy as int, r as int) && b < y { v } else { before.at(a, b) }),
            decreases cy64 + r64 + 1 - y,
        {
            let dy = y - cy64;
            proof {
                assert(0 <= dy * dy <= r64 * r64 <= 0x100_0000) by (nonlinear_arith)
                    requires -r64 <= dy <= r64, 0 <= r64 <= 4096;
            }
            let m = (r64 * r64 - dy * dy) as u32;
            let k = isqrt(m) as i64;
            proof {
                assert(k <= r64) by (nonlinear_arith)
                    requires k * k <= m, m <= r64 * r64, k >= 0, r64 >= 0;
                assert forall|a: int| #![trigger in_disk(a, y as int, cx as int, cy as int, r as int)]
                    in_disk(a, y as int, cx as int, cy as int, r as int) <==> (cx - k <= a <= cx + k) by {
                    lemma_isqrt_abs(a - cx, k as int, m as int);
                }
            }
            let mut x: i64 = cx64 - k;
            while x <= cx64 + k
                invariant
                    0 <= k <= r64 <= 4096,
                    r64 == r && cx64 == cx && cy64 == cy,
                    i32::MIN <= cy - r && cy + r <= i32::MAX,
                    i32::MIN <= cx - r && cx + r <= i32::MAX,
                    cy - r <= y <= cy + r,
                    cx - k <= x <= cx + k + 1,
                    forall|a: int| #![trigger in_disk(a, y as int, cx as int, cy as int, r as int)]
                        in_disk(a, y as int, cx as int, cy as int, r as int) <==> (cx - k <= a <= cx + k),
                    self.wf(),
                    self.w == before.w && self.h == before.h,
                    forall|a: int, b: int| self.contains(a, b) ==> #[trigger] self.at(a, b) == (
                        if in_disk(a, b, cx as int, cy as int, r as int) && (b < y || (b == y && a < x)) {
                            v
                        } else {
                            before.at(a, b)
                        }),
                decreases cx64 + k + 1 - x,
            {
                self.set(x as i32, y as i32, v);
                x = x + 1;
            }
            y = y + 1;
        }
        assert forall|a: int, b: int| self.contains(a, b) implies #[trigger] self.at(a, b) == (
            if in_disk(a, b, cx as int, cy as int, r as int) { v } else { before.at(a, b) }) by {
            if in_disk(a, b, cx as int, cy as int, r as int) {
                lemma_disk_rows(a, b, cx as int, cy as int, r as int);
            }
        }
    }
}

/// `ceil(a / b)` for `b > 0`.
pub open spec fn ceil_div(a: int, b: int) -> int {
    (a + b - 1) / b
}

/// Pixel `(x, y)` of `fb` differs from the same pixel of `prev`.
pub open spec fn differs_at(fb: Framebuf, prev: Seq<u16>, x: int, y: int) -> bool {
    fb.at(x, y) != px_at(prev, fb.w as int, x, y)
}

/// Bounds `(x0, y0, x1, y1)` of tile `(tx, ty)` of size `tw`×`th`,
/// clipped to the buffer.
pub open spec fn tile_bounds(fb: Framebuf, tw: int, th: int, tx: int, ty: int) -> (int, int, int, int) {
    let x0 = tx * tw;
    let y0 = ty * th;
    (x0, y0, min_int(x0 + tw, fb.w as int), min_int(y0 + th, fb.h as int))
}

/// Tile `(tx, ty)` holds a pixel that differs from `prev`.
pub open spec fn tile_dirty(fb: Framebuf, prev: Seq<u16>, tw: int, th: int, tx: int, ty: int) -> bool {
    let (x0, y0, x1, y1) = tile_bounds(fb, tw, th, tx, ty);
    exists|a: int, b: int| in_box(a, b, x0, y0, x1, y1) && #[trigger] differs_at(fb, prev, a, b)
}

/// The rectangle reported for tile `(tx, ty)`.
pub open spec fn tile_rect(fb: Framebuf, tw: int, th: int, tx: int, ty: int) -> Rect {
    let (x0, y0, x1, y1) = tile_bounds(fb, tw, th, tx, ty);
    Rect { x0: (x0 as u32) as i32, y0: (y0 as u32) as i32, x1: (x1 as u32) as i32, y1: (y1 as u32) as i32 }
}

/// Dirty tiles of row `ty` among columns `0..n`, left to right.
pub open spec fn dirty_row(fb: Framebuf, prev: Seq<u16>, tw: int, th: int, ty: int, n: int) -> Seq<Rect>
    decreases n,
{
    if n <= 0 {
        Seq::empty()
    } else {
        let s = dirty_row(fb, prev, tw, th, ty, n - 1);
        if tile_dirty(fb, prev, tw, th, n - 1, ty) { s.push(tile_rect(fb, tw, th, n - 1, ty)) } else { s }
    }
}

/// Dirty tiles of rows `0..m` (each `nx` tiles wide), row-major order.
pub open spec fn dirty_tiles(fb: Framebuf, prev: Seq<u16>, tw: int, th: int, nx: int, m: int) -> Seq<Rect>
    decreases m,
{
    if m <= 0 {
        Seq::empty()
    } else {
        dirty_tiles(fb, prev, tw, th, nx, m - 1) + dirty_row(fb, prev, tw, th, m - 1, nx)
    }
}

impl Framebuf {
    /// Whether some pixel of `x0 <= x < x1`, `y0 <= y < y1` differs from `prev`.
    fn tile_differs(&self, prev: &[u16], x0: u32, y0: u32, x1: u32, y1: u32) -> (d: bool)
        requires
            self.wf(),
            prev@.len() == self@.len(),
            x1 <= self.w,
            y1 <= self.h,
        ensures
            d == exists|a: int, b: int| in_box(a, b, x0 as int, y0 as int, x1 as int, y1 as int)
                && #[trigger] differs_at(*self, prev@, a, b),
    {
        let mut y = y0;
        while y < y1
            invariant
                self.wf(),
                prev@.len() == self@.len(),
                x1 <= self.w,
                y1 <= self.h,
                y == y0 || y0 < y <= y1,
                forall|a: int, b: int| in_box(a, b, x0 as int, y0 as int, x1 as int, y as int)
                    ==> !#[trigger] differs_at(*self, prev@, a, b),
            decreases y1 - y,
        {
            let mut x = x0;
            while x < x1
                invariant
                    self.wf(),
                    prev@.len() == self@.len(),
                    x1 <= self.w,
                    y1 <= self.h,
                    y0 <= y < y1,
                    x == x0 || x0 < x <= x1,
                    forall|a: int, b: int| (in_box(a, b, x0 as int, y0 as int, x1 as int, y as int)
                        || (b == y && x0 <= a < x)) ==> !#[trigger] differs_at(*self, prev@, a, b),
                decreases x1 - x,
            {
                proof {
                    lemma_index_bounds(self.w as int, self.h as int, x as int, y as int);
                }
                let n = self.px.len();
                assert(y as int * self.w as int + (x as int) < n);
                let i = y as usize * self.w as usize + x as usize;
                if self.px[i] != prev[i] {
                    assert(in_box(x as int, y as int, x0 as int, y0 as int, x1 as int, y1 as int));
                    assert(differs_at(*self, prev@, x as int, y as int));
                    return true;
                }
                x = x + 1;
            }
            y = y + 1;
        }
        false
    }

    /// Tiles of `tw`×`th` pixels (row-major, clipped at the right and
    /// bottom edges) holding at least one pixel that differs from `prev`.
    /// When `prev` does not have one entry per pixel, the whole buffer is
    /// reported as a single rectangle.
    pub fn changed_tiles(&self, prev: &[u16], tw: u32, th: u32) -> (out: Vec<Rect>)
        requires
            self.wf(),
            tw > 0,
            th > 0,
            ceil_div(self.w as int, tw as int) * tw <= u32::MAX,
            ceil_div(self.h as int, th as int) * th <= u32::MAX,
        ensures
            prev@.len() != self@.len() ==> out@ == seq![Rect { x0: 0, y0: 0, x1: self.w as i32, y1: self.h as i32 }],
            prev@.len() == self@.len() ==> out@ == dirty_tiles(*self, prev@, tw as int, th as int,
                ceil_div(self.w as int, tw as int), ceil_div(self.h as int, th as int)),
    {
        let mut out: Vec<Rect> = Vec::new();
        if prev.len() != self.px.len() {
            out.push(Rect::new(0, 0, self.w as i32, self.h as i32));
            return out;
        }
        assert(self.w / tw < u32::MAX || self.w % tw == 0) by (nonlinear_arith)
            requires tw > 0, self.w <= u32::MAX;
        assert(self.h / th < u32::MAX || self.h % th == 0) by (nonlinear_arith)
            requires th > 0, self.h <= u32::MAX;
        let nx = self.w / tw + if self.w % tw != 0 { 1 } else { 0 };
        let ny = self.h / th + if self.h % th != 0 { 1 } else { 0 };
        assert(nx == ceil_div(self.w as int, tw as int)) by (nonlinear_arith)
            requires nx == self.w / tw + if self.w % tw != 0 { 1int } else { 0int }, tw > 0;
        assert(ny == ceil_div(self.h as int, th as int)) by (nonlinear_arith)
            requires ny == self.h / th + if self.h % th != 0 { 1int } else { 0int }, th > 0;
        let mut ty: u32 = 0;
        while ty < ny
            invariant
                self.wf(),
                prev@.len() == self@.len(),
                tw > 0,
                th > 0,
                nx == ceil_div(self.w as int, tw as int),
                ny == ceil_div(self.h as int, th as int),
                nx * tw <= u32::MAX,
                ny * th <= u32::MAX,
                ty <= ny,
                out@ == dirty_tiles(*self, prev@, tw as int, th as int, nx as int, ty as int),
            decreases ny - ty,
        {
            let mut tx: u32 = 0;
            while tx < nx
                invariant
                    self.wf(),
                    prev@.len() == self@.len(),
                    tw > 0,
                    th > 0,
                    nx * tw <= u32::MAX,
                    ny * th <= u32::MAX,
                    ty < ny,
                    tx <= nx,
                    out@ == dirty_tiles(*self, prev@, tw as int, th as int, nx as int, ty as int)
                        + dirty_row(*self, prev@, tw as int, th as int, ty as int, tx as int),
                decreases nx - tx,
            {
                proof {
                    assert(tx * tw + tw <= nx * tw) by (nonlinear_arith)
                        requires tx < nx, tw > 0;
                    assert(ty * th + th <= ny * th) by (nonlinear_arith)
                        requires ty < ny, th > 0;
                }
                let x0 = tx * tw;
                let y0 = ty * th;
                let x1 = if x0 + tw <= self.w { x0 + tw } else { self.w };
                let y1 = if y0 + th <= self.h { y0 + th } else { self.h };
                let dirty = self.tile_differs(prev, x0, y0, x1, y1);
                if dirty {
                    out.push(Rect::new(x0 as i32, y0 as i32, x1 as i32, y1 as i32));
                }
                tx = tx + 1;
            }
            ty = ty + 1;
        }
        out
    }
}

/// RGB8 row-major canvas (3 bytes per pixel) used to composite a widget
/// before blitting it to the framebuffer once.
pub struct RgbCanvas {
    pub w: u32,
    pub h: u32,
    pub buf: Vec<u8>,
}

/// The color stored at byte offset `i` of an RGB8 buffer.
pub open spec fn rgb_at(s: Seq<u8>, i: int) -> Rgb {
    [s[i], s[i + 1], s[i + 2]]
}

impl RgbCanvas {
    /// The buffer holds exactly `w * h` RGB triples, and its size fits `u32`.
    pub open spec fn wf(&self) -> bool {
        &&& self.buf@.len() == self.w as int * self.h as int * 3
        &&& self.w as int * self.h as int * 3 <= u32::MAX
    }

    /// `(x, y)` is inside the canvas.
    pub open spec fn contains(&self, x: int, y: int) -> bool {
        0 <= x < self.w && 0 <= y < self.h
    }

    /// Pixel `(x, y)`.
    pub open spec fn at(&self, x: int, y: int) -> Rgb {
        rgb_at(self.buf@, (y * self.w + x) * 3)
    }

    /// A `w`×`h` canvas filled with `fill`.
    pub fn new(w: u32, h: u32, fill: Rgb) -> (cv: Self)
        requires
            w as int * h as int * 3 <= u32::MAX,
        ensures
            cv.wf(),
            cv.w == w && cv.h == h,
            forall|x: int, y: int| cv.contains(x, y) ==> #[trigger] cv.at(x, y) == fill,
    {
        let n = (w * h) as usize;
        let mut buf: Vec<u8> = Vec::with_capacity(n * 3);
        let mut i: usize = 0;
        while i < n
            invariant
                i <= n,
                n == w * h,
                n * 3 <= u32::MAX,
                buf@.len() == i * 3,
                forall|k: int| 0 <= k < i ==> #[trigger] rgb_at(buf@, k * 3) == fill,
            decreases n - i,
        {
            let ghost prev = buf@;
            buf.push(fill[0]);
            buf.push(fill[1]);
            buf.push(fill[2]);
            proof {
                assert forall|k: int| 0 <= k < i + 1 implies #[trigger] rgb_at(buf@, k * 3) == fill by {
                    if k < i {
                        assert(rgb_at(buf@, k * 3) == rgb_at(prev, k * 3));
                    }
                }
            }
            i = i + 1;
        }
        let cv = RgbCanvas { w, h, buf };
        assert forall|x: int, y: int| cv.contains(x, y) implies #[trigger] cv.at(x, y) == fill by {
            lemma_index_bounds(w as int, h as int, x, y);
            assert(rgb_at(cv.buf@, (y * w + x) * 3) == fill);
        }
        cv
    }

    /// Writes an in-bounds pixel.
    fn put(&mut self, x: i32, y: i32, c: Rgb)
        requires
            old(self).wf(),
            old(self).contains(x as int, y as int),
        ensures
            final(self).wf(),
            final(self).w == old(self).w && final(self).h == old(self).h,
            forall|a: int, b: int| final(self).contains(a, b) ==> #[trigger] final(self).at(a, b) == (
                if a == x && b == y { c } else { old(self).at(a, b) }),
    {
        proof {
            lemma_index_bounds(self.w as int, self.h as int, x as int, y as int);
        }
        let n = self.buf.len();
        assert((y as int * self.w as int + (x as int)) * 3 + 2 < n);
        let i = (y as usize * self.w as usize + x as usize) * 3;
        self.buf.set(i, c[0]);
        self.buf.set(i + 1, c[1]);
        self.buf.set(i + 2, c[2]);
        proof {
            assert forall|a: int, b: int| self.contains(a, b) implies #[trigger] self.at(a, b) == (
                if a == x && b == y { c } else { old(self).at(a, b) }) by {
                lemma_index_bounds(self.w as int, self.h as int, a, b);
                if b * self.w + a == y * self.w + x {
                    lemma_index_injective(self.w as int, a, b, x as int, y as int);
                }
            }
        }
    }

    /// Writes pixel `(x, y)` when it is inside the canvas; otherwise a no-op.
    pub fn set(&mut self, x: i32, y: i32, c: Rgb)
        requires
            old(self).wf(),
        ensures
            final(self).wf(),
            final(self).w == old(self).w && final(self).h == old(self).h,
            forall|a: int, b: int| final(self).contains(a, b) ==> #[trigger] final(self).at(a, b) == (
                if a == x && b == y { c } else { old(self).at(a, b) }),
    {
        if x >= 0 && y >= 0 && (x as u32) < self.w && (y as u32) < self.h {
            self.put(x, y, c);
        }
    }

    /// Fills `x0 <= x < x1`, `y0 <= y < y1` (clipped) with `c`.
    pub fn fill_rect(&mut self, x0: i32, y0: i32, x1: i32, y1: i32, c: Rgb)
        requires
            old(self).wf(),
        ensures
            final(self).wf(),
            final(self).w == old(self).w && final(self).h == old(self).h,
            forall|a: int, b: int| final(self).contains(a, b) ==> #[trigger] final(self).at(a, b) == (
                if in_box(a, b, x0 as int, y0 as int, x1 as int, y1 as int) { c } else { old(self).at(a, b) }),
    {
        let cx0 = if x0 >= 0 { x0 } else { 0 };
        let cy0 = if y0 >= 0 { y0 } else { 0 };
        let wi = self.w as i32;
        let hi = self.h as i32;
        let cx1 = if x1 <= wi { x1 } else { wi };
        let cy1 = if y1 <= hi { y1 } else { hi };
        proof {
            lemma_u32_as_i32(self.w);
            lemma_u32_as_i32(self.h);
        }
        let ghost before = *self;
        let mut y = cy0;
        while y < cy1
            invariant
                self.wf(),
                self.w == before.w && self.h == before.h,
                y == cy0 || cy0 < y <= cy1,
                cx0 == max_int(x0 as int, 0) && cy0 == max_int(y0 as int, 0),
                cx1 <= x1 && cy1 <= y1,
                cx1 <= self.w && cy1 <= self.h,
                forall|a: int, b: int| self.contains(a, b) ==> #[trigger] self.at(a, b) == (
                    if in_box(a, b, cx0 as int, cy0 as int, cx1 as int, y as int) { c } else { before.at(a, b) }),
            decreases cy1 - y,
        {
            let mut x = cx0;
            while x < cx1
                invariant
                    self.wf(),
                    self.w == before.w && self.h == before.h,
                    cy0 <= y < cy1,
                    x == cx0 || cx0 < x <= cx1,
                    cx0 >= 0 && cy0 >= 0,
                    cx1 <= self.w && cy1 <= self.h,
                    forall|a: int, b: int| self.contains(a, b) ==> #[trigger] self.at(a, b) == (
                        if in_box(a, b, cx0 as int, cy0 as int, cx1 as int, y as int)
                            || (b == y && cx0 <= a < x) { c } else { before.at(a, b) }),
                decreases cx1 - x,
            {
                self.put(x, y, c);
                x = x + 1;
            }
            y = y + 1;
        }
        assert forall|a: int, b: int| self.contains(a, b) implies #[trigger] self.at(a, b) == (
            if in_box(a, b, x0 as int, y0 as int, x1 as int, y1 as int) { c } else { before.at(a, b) }) by {
            assert(self.w <= 0x7fff_ffff && self.h <= 0x7fff_ffff) by (nonlinear_arith)
                requires self.w as int * self.h as int * 3 <= u32::MAX, 0 <= a < self.w, 0 <= b < self.h;
            assert(in_box(a, b, x0 as int, y0 as int, x1 as int, y1 as int) == in_box(a, b, cx0 as int, cy0 as int, cx1 as int, cy1 as int));
        }
    }
}

impl RgbCanvas {

    /// Draws the one-pixel outline of `r` (clipped) with `c`.
    pub fn rect_outline(&mut self, x0: i32, y0: i32, x1: i32, y1: i32, c: Rgb)
        requires
            old(self).wf(),
            !(x0 < x1 && y1 == i32::MIN),
            !(y0 < y1 && x1 == i32::MIN),
        ensures
            final(self).wf(),
            final(self).w == old(self).w && final(self).h == old(self).h,
            forall|a: int, b: int| final(self).contains(a, b) ==> #[trigger] final(self).at(a, b) == (
                if on_outline(a, b, x0 as int, y0 as int, x1 as int, y1 as int) {
                    c
                } else {
                    old(self).at(a, b)
                }),
    {
        let r = Rect { x0, y0, x1, y1 };
        let v = c;
        let ghost before = *self;
        let mut x = r.x0;
        while x < r.x1
            invariant
                self.wf(),
                self.w == before.w && self.h == before.h,
                x == r.x0 || r.x0 < x <= r.x1,
                r.x0 < r.x1 ==> r.y1 > i32::MIN,
                forall|a: int, b: int| self.contains(a, b) ==> #[trigger] self.at(a, b) == (
                    if r.x0 <= a < x && (b == r.y0 || b == r.y1 - 1) { v } else { before.at(a, b) }),
            decreases r.x1 - x,
        {
            self.set(x, r.y0, v);
            self.set(x, r.y1 - 1, v);
            x = x + 1;
        }
        let ghost mid = *self;
        assert forall|a: int, b: int| mid.contains(a, b) implies #[trigger] mid.at(a, b) == (
            if r.x0 <= a < r.x1 && (b == r.y0 || b == r.y1 - 1) { v } else { before.at(a, b) }) by {
            assert(self.contains(a, b));
            assert(mid.at(a, b) == self.at(a, b));
            if r.x0 < r.x1 {
                assert(x == r.x1);
            }
        }
        let mut y = r.y0;
        while y < r.y1
            invariant
                self.wf(),
                self.w == before.w && self.h == before.h,
                y == r.y0 || r.y0 < y <= r.y1,
                r.y0 < r.y1 ==> r.x1 > i32::MIN,
                forall|a: int, b: int| self.contains(a, b) ==> #[trigger] self.at(a, b) == (
                    if r.y0 <= b < y && (a == r.x0 || a == r.x1 - 1) { v } else { mid.at(a, b) }),
                forall|a: int, b: int| mid.contains(a, b) ==> #[trigger] mid.at(a, b) == (
                    if r.x0 <= a < r.x1 && (b == r.y0 || b == r.y1 - 1) { v } else { before.at(a, b) }),
            decreases r.y1 - y,
        {
            self.set(r.x0, y, v);
            self.set(r.x1 - 1, y, v);
            y = y + 1;
        }
    }


    /// Bresenham line from `(x0, y0)` to `(x1, y1)` inclusive, clipped.
    pub fn line(&mut self, x0: i32, y0: i32, x1: i32, y1: i32, c: Rgb)
        requires
            old(self).wf(),
        ensures
            final(self).wf(),
            final(self).w == old(self).w && final(self).h == old(self).h,
            line_points(x0 as int, y0 as int, x1 as int, y1 as int).contains((x0 as int, y0 as int)),
            line_points(x0 as int, y0 as int, x1 as int, y1 as int).contains((x1 as int, y1 as int)),
            ({
                let p = line_path(x0 as int, y0 as int, x1 as int, y1 as int);
                &&& p.to_set() == line_points(x0 as int, y0 as int, x1 as int, y1 as int)
                &&& p.len() == max_int(abs_int(x1 - x0), abs_int(y1 - y0)) + 1
                &&& p[0] == (x0 as int, y0 as int) && p.last() == (x1 as int, y1 as int)
                &&& forall|k: int| 0 <= k < p.len() - 1 ==> adjacent8(#[trigger] p[k], p[k + 1])
                &&& p.no_duplicates()
            }),
            forall|a: int, b: int| final(self).contains(a, b) ==> #[trigger] final(self).at(a, b) == (
                if line_points(x0 as int, y0 as int, x1 as int, y1 as int).contains((a, b)) {
                    c
                } else {
                    old(self).at(a, b)
                }),
    {
        let v = c;
        let ax0 = x0 as i64;
        let ay0 = y0 as i64;
        let ax1 = x1 as i64;
        let ay1 = y1 as i64;
        let dx: i64 = if ax1 >= ax0 { ax1 - ax0 } else { ax0 - ax1 };
        let dy: i64 = if ay1 >= ay0 { ay0 - ay1 } else { ay1 - ay0 };
        let sx: i64 = if ax0 < ax1 { 1 } else { -1 };
        let sy: i64 = if ay0 < ay1 { 1 } else { -1 };
        let mut x = ax0;
        let mut y = ay0;
        let mut err = dx + dy;
        let ghost before = *self;
        let ghost all = line_points(x0 as int, y0 as int, x1 as int, y1 as int);
        let ghost mut i: int = 0;
        let ghost mut j: int = 0;
        let ghost mut fuel: nat = (dx - dy + 1) as nat;
        let ghost mut drawn: Set<(int, int)> = Set::empty();
        proof {
            assert(all == drawn + bres_points(x as int, y as int, err as int, x1 as int, y1 as int, dx as int, dy as int, sx as int, sy as int, fuel));
        }
        loop
            invariant
                ax1 == x1 && ay1 == y1,
                self.wf(),
                self.w == before.w && self.h == before.h,
                dx == abs_int(x1 - x0),
                dy == -abs_int(y1 - y0),
                sx == (if x0 < x1 { 1int } else { -1int }),
                sy == (if y0 < y1 { 1int } else { -1int }),
                0 <= i <= dx,
                0 <= j <= -dy,
                x == x0 + sx * i,
                y == y0 + sy * j,
                err == dx + dy + i * dy + j * dx,
                2 * dy <= err <= 2 * dx,
                fuel >= (dx - i) + (-dy - j) + 1,
                all == line_points(x0 as int, y0 as int, x1 as int, y1 as int),
                all == drawn + bres_points(x as int, y as int, err as int, x1 as int, y1 as int, dx as int, dy as int, sx as int, sy as int, fuel),
                drawn.contains((x0 as int, y0 as int)) || (x == x0 && y == y0),
                forall|a: int, b: int| self.contains(a, b) ==> #[trigger] self.at(a, b) == (
                    if drawn.contains((a, b)) { v } else { before.at(a, b) }),
            ensures
                all == drawn,
                drawn.contains((x0 as int, y0 as int)),
                drawn.contains((x1 as int, y1 as int)),
                forall|a: int, b: int| self.contains(a, b) ==> #[trigger] self.at(a, b) == (
                    if drawn.contains((a, b)) { v } else { before.at(a, b) }),
            decreases (if x1 >= x { x1 - x } else { x - x1 }) + (if y1 >= y { y1 - y } else { y - y1 }),
        {
            proof {
                assert(sx * i <= dx && -dx <= sx * i) by (nonlinear_arith)
                    requires 0 <= i <= dx, sx == 1 || sx == -1;
                assert(sy * j <= -dy && dy <= sy * j) by (nonlinear_arith)
                    requires 0 <= j <= -dy, sy == 1 || sy == -1;
            }
            assert(x == x0 || (sx == 1 && x0 < x <= x1) || (sx == -1 && x1 <= x < x0)) by (nonlinear_arith)
                requires x == x0 + sx * i, 0 <= i <= dx, dx == abs_int(x1 - x0), sx == (if x0 < x1 { 1int } else { -1int });
            assert(y == y0 || (sy == 1 && y0 < y <= y1) || (sy == -1 && y1 <= y < y0)) by (nonlinear_arith)
                requires y == y0 + sy * j, 0 <= j <= -dy, dy == -abs_int(y1 - y0), sy == (if y0 < y1 { 1int } else { -1int });
            self.set(x as i32, y as i32, v);
            let ghost prev_drawn = drawn;
            proof {
                drawn = drawn.insert((x as int, y as int));
            }
            if x == ax1 && y == ay1 {
                proof { lemma_bres_end(x as int, y as int, err as int, dx as int, dy as int, sx as int, sy as int, fuel); }
                assert(bres_points(x as int, y as int, err as int, x1 as int, y1 as int, dx as int, dy as int, sx as int, sy as int, fuel)
                    =~= Set::<(int, int)>::empty().insert((x as int, y as int)));
                assert(all =~= drawn);
                break;
            }
            let ghost (px, py, perr) = (x as int, y as int, err as int);
            proof {
                lemma_bres_step(x0 as int, y0 as int, x1 as int, y1 as int, dx as int, dy as int, sx as int, sy as int, i, j, x as int, y as int, err as int);
            }
            let e2 = 2 * err;
            if e2 >= dy {
                err = err + dy;
                x = x + sx;
                proof { i = i + 1; }
            }
            if e2 <= dx {
                err = err + dx;
                y = y + sy;
                proof { j = j + 1; }
            }
            proof {
                assert(bres_points(px, py, perr, x1 as int, y1 as int, dx as int, dy as int, sx as int, sy as int, fuel)
                    == bres_points(x as int, y as int, err as int, x1 as int, y1 as int, dx as int, dy as int, sx as int, sy as int, (fuel - 1) as nat).insert((px, py)));
                fuel = (fuel - 1) as nat;
                assert(all =~= drawn + bres_points(x as int, y as int, err as int, x1 as int, y1 as int, dx as int, dy as int, sx as int, sy as int, fuel));
            }
        }
        proof {
            lemma_line_is_8_connected_path(x0 as int, y0 as int, x1 as int, y1 as int);
        }
    }


    /// Filled disk of radius `r` around `(cx, cy)`, clipped. Rows span
    /// `cy - r ..= cy + r`; row `y` spans `cx ± isqrt(r² - (y - cy)²)`.
    /// Radii above 4096 are excluded: past that the single-precision
    /// square root no longer rounds to the integer square root.
    pub fn fill_circle(&mut self, cx: i32, cy: i32, r: i32, c: Rgb)
        requires
            old(self).wf(),
            i32::MIN <= cy - r && cy + r <= i32::MAX,
            r >= 0 ==> r <= 4096 && i32::MIN <= cx - r && cx + r <= i32::MAX,
        ensures
            final(self).wf(),
            final(self).w == old(self).w && final(self).h == old(self).h,
            forall|a: int, b: int| final(self).contains(a, b) ==> #[trigger] final(self).at(a, b) == (
                if in_disk(a, b, cx as int, cy as int, r as int) {
                    c
                } else {
                    old(self).at(a, b)
                }),
    {
        let v = c;
        let ghost before = *self;
        if r < 0 {
            return;
        }
        let r64 = r as i64;
        let cx64 = cx as i64;
        let cy64 = cy as i64;
        let mut y: i64 = cy64 - r64;
        assert forall|a: int, b: int| self.contains(a, b) implies #[trigger] self.at(a, b) == (
            if in_disk(a, b, cx as int, cy as int, r as int) && b < y { v } else { before.at(a, b) }) by {
            if in_disk(a, b, cx as int, cy as int, r as int) {
                lemma_disk_rows(a, b, cx as int, cy as int, r as int);
            }
        }
        while y <= cy64 + r64
            invariant
                0 <= r64 <= 4096,
                r64 == r && cx64 == cx && cy64 == cy,
                i32::MIN <= cy - r && cy + r <= i32::MAX,
                i32::MIN <= cx - r && cx + r <= i32::MAX,
                cy - r <= y <= cy + r + 1,
                self.wf(),
                self.w == before.w && self.h == before.h,
                forall|a: int, b: int| self.contains(a, b) ==> #[trigger] self.at(a, b) == (
                    if in_disk(a, b, cx as int, cy as int, r as int) && b < y { v } else { before.at(a, b) }),
            decreases cy64 + r64 + 1 - y,
        {
            let dy = y - cy64;
            proof {
                assert(0 <= dy * dy <= r64 * r64 <= 0x100_0000) by (nonlinear_arith)
                    requires -r64 <= dy <= r64, 0 <= r64 <= 4096;
            }
            let m = (r64 * r64 - dy * dy) as u32;
            let k = isqrt(m) as i64;
            proof {
                assert(k <= r64) by (nonlinear_arith)
                    requires k * k <= m, m <= r64 * r64, k >= 0, r64 >= 0;
                assert forall|a: int| #![trigger in_disk(a, y as int, cx as int, cy as int, r as int)]
                    in_disk(a, y as int, cx as int, cy as int, r as int) <==> (cx - k <= a <= cx + k) by {
                    lemma_isqrt_abs(a - cx, k as int, m as int);
                }
            }
            let mut x: i64 = cx64 - k;
            while x <= cx64 + k
                invariant
                    0 <= k <= r64 <= 4096,
                    r64 == r && cx64 == cx && cy64 == cy,
                    i32::MIN <= cy - r && cy + r <= i32::MAX,
                    i32::MIN <= cx - r && cx + r <= i32::MAX,
                    cy - r <= y <= cy + r,
                    cx - k <= x <= cx + k + 1,
                    forall|a: int| #![trigger in_disk(a, y as int, cx as int, cy as int, r as int)]
                        in_disk(a, y as int, cx as int, cy as int, r as int) <==> (cx - k <= a <= cx + k),
                    self.wf(),
                    self.w == before.w && self.h == before.h,
                    forall|a: int, b: int| self.contains(a, b) ==> #[trigger] self.at(a, b) == (
                        if in_disk(a, b, cx as int, cy as int, r as int) && (b < y || (b == y && a < x)) {
                            v
                        } else {
                            before.at(a, b)
                        }),
                decreases cx64 + k + 1 - x,
            {
                self.set(x as i32, y as i32, v);
                x = x + 1;
            }
            y = y + 1;
        }
        assert forall|a: int, b: int| self.contains(a, b) implies #[trigger] self.at(a, b) == (
            if in_disk(a, b, cx as int, cy as int, r as int) { v } else { before.at(a, b) }) by {
            if in_disk(a, b, cx as int, cy as int, r as int) {
                lemma_disk_rows(a, b, cx as int, cy as int, r as int);
            }
        }
    }
}

impl RgbCanvas {
    /// Copies the whole canvas to `fb` at `(x, y)`, clipped. Returns the
    /// clipped rectangle, or `None` when nothing lands inside `fb`.
    pub fn blit_into(&self, fb: &mut Framebuf, x: i32, y: i32) -> (d: Option<Rect>)
        requires
            self.wf(),
            old(fb).wf(),
            i32::MIN <= x + (self.w as i32) <= i32::MAX,
            i32::MIN <= y + (self.h as i32) <= i32::MAX,
        ensures
            final(fb).wf(),
            final(fb).w == old(fb).w && final(fb).h == old(fb).h,
            ({
                let (x0, y0, x1, y1) = clip(Rect { x0: x, y0: y, x1: (x + (self.w as i32)) as i32, y1: (y + (self.h as i32)) as i32 }, old(fb).w, old(fb).h);
                &&& d is None <==> (x1 <= x0 || y1 <= y0)
                &&& d matches Some(d) ==> d.x0 == x0 && d.y0 == y0 && d.x1 == x1 && d.y1 == y1
                &&& forall|a: int, b: int| final(fb).contains(a, b) ==> #[trigger] final(fb).at(a, b) == (
                    if in_box(a, b, x0, y0, x1, y1) {
                        pack565(self.at(a - x, b - y)[0], self.at(a - x, b - y)[1], self.at(a - x, b - y)[2])
                    } else {
                        old(fb).at(a, b)
                    })
            }),
    {
        proof {
            let (x0, y0, x1, y1) = clip(Rect { x0: x, y0: y, x1: (x + (self.w as i32)) as i32, y1: (y + (self.h as i32)) as i32 }, fb.w, fb.h);
            lemma_u32_as_i32(self.w);
            lemma_u32_as_i32(self.h);
            if x0 < x1 && y0 < y1 {
                assert(self.w >= 1 && self.h >= 1);
                assert(self.w <= 0x7fff_ffff && self.h <= 0x7fff_ffff) by (nonlinear_arith)
                    requires self.w as int * self.h as int * 3 <= u32::MAX, self.w >= 1, self.h >= 1;
                assert(((y1 - 1 - y) * self.w + (x1 - 1 - x)) * 3 + 2 < self.buf@.len()) by (nonlinear_arith)
                    requires
                        y1 - 1 - y <= self.h - 1,
                        x1 - 1 - x <= self.w - 1,
                        0 <= y1 - 1 - y,
                        0 <= x1 - 1 - x,
                        self.buf@.len() == self.w as int * self.h as int * 3,
                ;
            }
        }
        fb.blit_rgb8(x, y, self.w, self.h, self.buf.as_slice())
    }

    /// The sub-canvas `r` (clipped), with its own origin at `r`'s clipped
    /// top-left corner. An empty clip gives a 1×1 black canvas.
    pub fn cropped(&self, r: Rect) -> (out: RgbCanvas)
        requires
            self.wf(),
        ensures
            out.wf(),
            ({
                let (x0, y0, x1, y1) = clip(r, self.w, self.h);
                if x1 <= x0 || y1 <= y0 {
                    &&& out.w == 1 && out.h == 1
                    &&& out.at(0, 0) == [0u8, 0u8, 0u8]
                } else {
                    &&& out.w == x1 - x0 && out.h == y1 - y0
                    &&& forall|a: int, b: int| out.contains(a, b) ==> #[trigger] out.at(a, b) == self.at(a + x0, b + y0)
                }
            }),
    {
        let x0 = if r.x0 >= 0 { r.x0 } else { 0 };
        let y0 = if r.y0 >= 0 { r.y0 } else { 0 };
        let wi = self.w as i32;
        let hi = self.h as i32;
        let x1 = if r.x1 <= wi { r.x1 } else { wi };
        let y1 = if r.y1 <= hi { r.y1 } else { hi };
        if x1 <= x0 || y1 <= y0 {
            return RgbCanvas::new(1, 1, [0, 0, 0]);
        }
        proof {
            lemma_clip_inside(r, self.w, self.h);
            assert(in_box(x0 as int, y0 as int, x0 as int, y0 as int, x1 as int, y1 as int));
        }
        let w = (x1 - x0) as u32;
        let h = (y1 - y0) as u32;
        proof {
            assert(w as int * h as int * 3 <= self.w as int * self.h as int * 3) by (nonlinear_arith)
                requires 0 < w <= self.w, 0 < h <= self.h;
        }
        let mut out = RgbCanvas::new(w, h, [0, 0, 0]);
        let mut y = y0;
        while y < y1
            invariant
                self.wf(),
                out.wf(),
                out.w == w && out.h == h,
                w == x1 - x0 && h == y1 - y0,
                x0 >= 0 && y0 >= 0,
                x0 < x1 && y0 <= y <= y1,
                forall|a: int, b: int| in_box(a, b, x0 as int, y0 as int, x1 as int, y1 as int)
                    ==> 0 <= a < self.w && 0 <= b < self.h,
                forall|a: int, b: int| out.contains(a, b) && b + y0 < y ==> #[trigger] out.at(a, b) == self.at(a + x0, b + y0),
            decreases y1 - y,
        {
            let mut x = x0;
            while x < x1
                invariant
                    self.wf(),
                    out.wf(),
                    out.w == w && out.h == h,
                    w == x1 - x0 && h == y1 - y0,
                    x0 >= 0 && y0 >= 0,
                    x0 <= x <= x1,
                    y0 <= y < y1,
                    forall|a: int, b: int| in_box(a, b, x0 as int, y0 as int, x1 as int, y1 as int)
                        ==> 0 <= a < self.w && 0 <= b < self.h,
                    forall|a: int, b: int| out.contains(a, b) && (b + y0 < y || (b + y0 == y && a + x0 < x))
                        ==> #[trigger] out.at(a, b) == self.at(a + x0, b + y0),
                decreases x1 - x,
            {
                assert(in_box(x as int, y as int, x0 as int, y0 as int, x1 as int, y1 as int));
                proof {
                    lemma_index_bounds(self.w as int, self.h as int, x as int, y as int);
                }
                let n = self.buf.len();
                assert((y as int * self.w as int + (x as int)) * 3 + 2 < n);
                let si = (y as usize * self.w as usize + x as usize) * 3;
                let c = [self.buf[si], self.buf[si + 1], self.buf[si + 2]];
                out.put(x - x0, y - y0, c);
                x = x + 1;
            }
            y = y + 1;
        }
        out
    }
}

proof fn lemma_clean_row(fb: Framebuf, prev: Seq<u16>, tw: int, th: int, ty: int, n: int)
    requires
        prev == fb@,
    ensures
        dirty_row(fb, prev, tw, th, ty, n) == Seq::<Rect>::empty(),
    decreases n,
{
    if n > 0 {
        lemma_clean_row(fb, prev, tw, th, ty, n - 1);
        assert(!tile_dirty(fb, prev, tw, th, n - 1, ty));
    }
}

/// Coordinates `(tx, ty)` of the dirty tiles of row `ty` among columns
/// `0..n`, left to right.
pub open spec fn dirty_row_coords(fb: Framebuf, prev: Seq<u16>, tw: int, th: int, ty: int, n: int) -> Seq<(int, int)>
    decreases n,
{
    if n <= 0 {
        Seq::empty()
    } else {
        let s = dirty_row_coords(fb, prev, tw, th, ty, n - 1);
        if tile_dirty(fb, prev, tw, th, n - 1, ty) { s.push((n - 1, ty)) } else { s }
    }
}

/// Coordinates of the dirty tiles of rows `0..m` (columns `0..nx`), row by row.
pub open spec fn dirty_coords(fb: Framebuf, prev: Seq<u16>, tw: int, th: int, nx: int, m: int) -> Seq<(int, int)>
    decreases m,
{
    if m <= 0 {
        Seq::empty()
    } else {
        dirty_coords(fb, prev, tw, th, nx, m - 1) + dirty_row_coords(fb, prev, tw, th, m - 1, nx)
    }
}

/// Tile `p` comes before tile `q` in row-major order.
pub open spec fn row_major_before(p: (int, int), q: (int, int)) -> bool {
    p.1 < q.1 || (p.1 == q.1 && p.0 < q.0)
}

proof fn lemma_dirty_row_coords(fb: Framebuf, prev: Seq<u16>, tw: int, th: int, ty: int, n: int)
    ensures
        ({
            let c = dirty_row_coords(fb, prev, tw, th, ty, n);
            &&& dirty_row(fb, prev, tw, th, ty, n) == c.map_values(|p: (int, int)| tile_rect(fb, tw, th, p.0, p.1))
            &&& forall|k: int| 0 <= k < c.len() ==> (#[trigger] c[k]).1 == ty && 0 <= c[k].0 < n
            &&& forall|k: int, l: int| 0 <= k < l < c.len() ==> (#[trigger] c[k]).0 < (#[trigger] c[l]).0
            &&& forall|tx: int| c.contains((tx, ty)) <==> 0 <= tx < n && tile_dirty(fb, prev, tw, th, tx, ty)
        }),
    decreases n,
{
    let c = dirty_row_coords(fb, prev, tw, th, ty, n);
    if n > 0 {
        lemma_dirty_row_coords(fb, prev, tw, th, ty, n - 1);
        let s = dirty_row_coords(fb, prev, tw, th, ty, n - 1);
        let f = |p: (int, int)| tile_rect(fb, tw, th, p.0, p.1);
        if tile_dirty(fb, prev, tw, th, n - 1, ty) {
            assert(c.map_values(f) =~= s.map_values(f).push(tile_rect(fb, tw, th, n - 1, ty)));
            assert forall|tx: int| c.contains((tx, ty)) <==> 0 <= tx < n && tile_dirty(fb, prev, tw, th, tx, ty) by {
                if c.contains((tx, ty)) && tx != n - 1 {
                    let k = choose|k: int| 0 <= k < c.len() && c[k] == (tx, ty);
                    assert(s[k] == (tx, ty));
                }
                if 0 <= tx < n - 1 && tile_dirty(fb, prev, tw, th, tx, ty) {
                    let k = choose|k: int| 0 <= k < s.len() && s[k] == (tx, ty);
                    assert(c[k] == (tx, ty));
                }
                if tx == n - 1 {
                    assert(c[c.len() - 1] == (tx, ty));
                }
            }
        } else {
            assert forall|tx: int| c.contains((tx, ty)) <==> 0 <= tx < n && tile_dirty(fb, prev, tw, th, tx, ty) by {
                if c.contains((tx, ty)) {
                    assert(s.contains((tx, ty)));
                }
            }
        }
    } else {
        assert(c.map_values(|p: (int, int)| tile_rect(fb, tw, th, p.0, p.1)) =~= Seq::<Rect>::empty());
    }
}

proof fn lemma_dirty_coords(fb: Framebuf, prev: Seq<u16>, tw: int, th: int, nx: int, m: int)
    ensures
        ({
            let c = dirty_coords(fb, prev, tw, th, nx, m);
            &&& dirty_tiles(fb, prev, tw, th, nx, m) == c.map_values(|p: (int, int)| tile_rect(fb, tw, th, p.0, p.1))
            &&& forall|k: int| 0 <= k < c.len() ==> 0 <= (#[trigger] c[k]).1 < m && 0 <= c[k].0 < nx
            &&& forall|k: int, l: int| 0 <= k < l < c.len() ==> row_major_before(#[trigger] c[k], #[trigger] c[l])
            &&& forall|tx: int, ty: int|
                c.contains((tx, ty)) <==> 0 <= tx < nx && 0 <= ty < m && tile_dirty(fb, prev, tw, th, tx, ty)
        }),
    decreases m,
{
    let c = dirty_coords(fb, prev, tw, th, nx, m);
    let f = |p: (int, int)| tile_rect(fb, tw, th, p.0, p.1);
    if m > 0 {
        lemma_dirty_coords(fb, prev, tw, th, nx, m - 1);
        lemma_dirty_row_coords(fb, prev, tw, th, m - 1, nx);
        let a = dirty_coords(fb, prev, tw, th, nx, m - 1);
        let b = dirty_row_coords(fb, prev, tw, th, m - 1, nx);
        assert(c == a + b);
        assert(c.map_values(f) =~= a.map_values(f) + b.map_values(f));
        assert forall|k: int| 0 <= k < c.len() implies 0 <= (#[trigger] c[k]).1 < m && 0 <= c[k].0 < nx by {
            if k >= a.len() {
                assert(c[k] == b[k - a.len()]);
            }
        }
        assert forall|k: int, l: int| 0 <= k < l < c.len() implies row_major_before(#[trigger] c[k], #[trigger] c[l]) by {
            if l < a.len() {
            } else if k < a.len() {
                assert(c[l] == b[l - a.len()]);
                assert(c[k] == a[k]);
            } else {
                assert(c[l] == b[l - a.len()] && c[k] == b[k - a.len()]);
            }
        }
        assert forall|tx: int, ty: int|
            c.contains((tx, ty)) <==> 0 <= tx < nx && 0 <= ty < m && tile_dirty(fb, prev, tw, th, tx, ty) by {
            if c.contains((tx, ty)) {
                let k = choose|k: int| 0 <= k < c.len() && c[k] == (tx, ty);
                if k < a.len() {
                    assert(a[k] == (tx, ty));
                    assert(a.contains((tx, ty)));
                } else {
                    assert(b[k - a.len()] == (tx, ty));
                    assert(b.contains((tx, ty)));
                }
            }
            if 0 <= tx < nx && 0 <= ty < m && tile_dirty(fb, prev, tw, th, tx, ty) {
                if ty < m - 1 {
                    let k = choose|k: int| 0 <= k < a.len() && a[k] == (tx, ty);
                    assert(c[k] == (tx, ty));
                } else {
                    assert(b.contains((tx, ty)));
                    let k = choose|k: int| 0 <= k < b.len() && b[k] == (tx, ty);
                    assert(c[k + a.len()] == (tx, ty));
                }
            }
        }
    } else {
        assert(c.map_values(f) =~= Seq::<Rect>::empty());
    }
}

/// The changed tiles are reported in row-major order (top row first, left
/// to right), each once, and they are exactly the tiles that hold a pixel
/// differing from the previous frame: the report is the tile rectangles of
/// the dirty-tile coordinates `c`, which increase in row-major order and
/// hold `(tx, ty)` exactly when that tile is in range and dirty.
pub proof fn lemma_changed_tiles_row_major(fb: Framebuf, prev: Seq<u16>, tw: int, th: int, nx: int, ny: int)
    ensures
        ({
            let c = dirty_coords(fb, prev, tw, th, nx, ny);
            &&& dirty_tiles(fb, prev, tw, th, nx, ny) == c.map_values(|p: (int, int)| tile_rect(fb, tw, th, p.0, p.1))
            &&& forall|k: int, l: int| 0 <= k < l < c.len() ==> row_major_before(#[trigger] c[k], #[trigger] c[l])
            &&& c.no_duplicates()
            &&& forall|tx: int, ty: int|
                c.contains((tx, ty)) <==> 0 <= tx < nx && 0 <= ty < ny && tile_dirty(fb, prev, tw, th, tx, ty)
        }),
{
    lemma_dirty_coords(fb, prev, tw, th, nx, ny);
    let c = dirty_coords(fb, prev, tw, th, nx, ny);
    assert forall|k: int, l: int| 0 <= k < c.len() && 0 <= l < c.len() && k != l implies c[k] != c[l] by {
        if k < l {
            assert(row_major_before(c[k], c[l]));
        } else {
            assert(row_major_before(c[l], c[k]));
        }
    }
}

/// When nothing changed, no tile is reported.
pub proof fn lemma_unchanged_frame_has_no_dirty_tiles(fb: Framebuf, prev: Seq<u16>, tw: int, th: int, nx: int, m: int)
    requires
        prev == fb@,
    ensures
        dirty_tiles(fb, prev, tw, th, nx, m) == Seq::<Rect>::empty(),
    decreases m,
{
    if m > 0 {
        lemma_unchanged_frame_has_no_dirty_tiles(fb, prev, tw, th, nx, m - 1);
        lemma_clean_row(fb, prev, tw, th, m - 1, nx);
        assert(dirty_tiles(fb, prev, tw, th, nx, m) =~= Seq::<Rect>::empty());
    }
}

proof fn lemma_dirty_row_contains(fb: Framebuf, prev: Seq<u16>, tw: int, th: int, ty: int, tx: int, n: int)
    requires
        0 <= tx < n,
        tile_dirty(fb, prev, tw, th, tx, ty),
    ensures
        dirty_row(fb, prev, tw, th, ty, n).contains(tile_rect(fb, tw, th, tx, ty)),
    decreases n,
{
    let s = dirty_row(fb, prev, tw, th, ty, n - 1);
    if tx < n - 1 {
        lemma_dirty_row_contains(fb, prev, tw, th, ty, tx, n - 1);
        let k = choose|k: int| 0 <= k < s.len() && s[k] == tile_rect(fb, tw, th, tx, ty);
        if tile_dirty(fb, prev, tw, th, n - 1, ty) {
            assert(s.push(tile_rect(fb, tw, th, n - 1, ty))[k] == tile_rect(fb, tw, th, tx, ty));
        }
    } else {
        let t = s.push(tile_rect(fb, tw, th, tx, ty));
        assert(t[s.len() as int] == tile_rect(fb, tw, th, tx, ty));
    }
}

proof fn lemma_dirty_tiles_contains(fb: Framebuf, prev: Seq<u16>, tw: int, th: int, nx: int, tx: int, ty: int, m: int)
    requires
        0 <= tx < nx,
        0 <= ty < m,
        tile_dirty(fb, prev, tw, th, tx, ty),
    ensures
        dirty_tiles(fb, prev, tw, th, nx, m).contains(tile_rect(fb, tw, th, tx, ty)),
    decreases m,
{
    let s = dirty_tiles(fb, prev, tw, th, nx, m - 1);
    let row = dirty_row(fb, prev, tw, th, m - 1, nx);
    let t = tile_rect(fb, tw, th, tx, ty);
    if ty < m - 1 {
        lemma_dirty_tiles_contains(fb, prev, tw, th, nx, tx, ty, m - 1);
        let k = choose|k: int| 0 <= k < s.len() && s[k] == t;
        assert((s + row)[k] == t);
    } else {
        lemma_dirty_row_contains(fb, prev, tw, th, ty, tx, nx);
        let k = choose|k: int| 0 <= k < row.len() && row[k] == t;
        assert((s + row)[s.len() + k] == t);
    }
}

/// Every pixel that differs from the previous frame lies in a reported
/// tile: the tile `(x / tw, y / th)` is in the result and covers `(x, y)`.
/// (Stated for buffers whose sides fit `i32`, where tile corners are
/// reported without wrap-around.)
pub proof fn lemma_changed_pixel_is_covered(fb: Framebuf, prev: Seq<u16>, tw: int, th: int, x: int, y: int)
    requires
        fb.wf(),
        fb.w <= i32::MAX,
        fb.h <= i32::MAX,
        0 < tw,
        0 < th,
        fb.contains(x, y),
        differs_at(fb, prev, x, y),
    ensures
        dirty_tiles(fb, prev, tw, th, ceil_div(fb.w as int, tw), ceil_div(fb.h as int, th))
            .contains(tile_rect(fb, tw, th, x / tw, y / th)),
        tile_rect(fb, tw, th, x / tw, y / th).covers(x, y),
{
    let tx = x / tw;
    let ty = y / th;
    assert(tx * tw <= x < tx * tw + tw) by (nonlinear_arith)
        requires tx == x / tw, tw > 0, x >= 0;
    assert(ty * th <= y < ty * th + th) by (nonlinear_arith)
        requires ty == y / th, th > 0, y >= 0;
    assert(0 <= tx < ceil_div(fb.w as int, tw)) by (nonlinear_arith)
        requires tx == x / tw, tw > 0, 0 <= x < fb.w;
    assert(0 <= ty < ceil_div(fb.h as int, th)) by (nonlinear_arith)
        requires ty == y / th, th > 0, 0 <= y < fb.h;
    let (x0, y0, x1, y1) = tile_bounds(fb, tw, th, tx, ty);
    assert(in_box(x, y, x0, y0, x1, y1));
    assert(tile_dirty(fb, prev, tw, th, tx, ty));
    lemma_dirty_tiles_contains(fb, prev, tw, th, ceil_div(fb.w as int, tw), tx, ty, ceil_div(fb.h as int, th));
}

} // verus!
