//! Static image layer: a theme image is resampled to the size the theme
//! asks for, cut to the display's size and drawn at its place.

use vstd::prelude::*;
use crate::config::StaticImage;
use crate::framebuf::{clip, in_box, lemma_index_bounds, rgb_word, Framebuf, Rect};
use crate::widgets::DecodedImage;

verus! {

/// Bytes of the `w`×`h` RGB8 image `rgb` resampled to `nw`×`nh` with a
/// triangle (linear) filter.
pub uninterp spec fn triangle_resized(rgb: Seq<u8>, w: u32, h: u32, nw: u32, nh: u32) -> Seq<u8>;

/// Sides below this keep the resampler's `f32` arithmetic safe: every
/// output pixel's centre lies within half a pixel of a source pixel, and
/// with coordinates below `2^16` the rounding of the centre, the scale and
/// the pixel positions stays below `2^-7`, so that source pixel always gets
/// a positive filter weight. With larger sides the rounding can leave all
/// weights of an output pixel at zero, and the resampler then converts a
/// NaN back to a byte, which panics.
pub const MAX_SIDE: u32 = 65536;

/// Whether `resize_triangle` can take a `w`×`h` image to `nw`×`nh`: every
/// side is below `MAX_SIDE` and its two buffers (the RGB8 result and the
/// four-channel `f32` intermediate of `w`×`nh` pixels) fit an allocation.
pub open spec fn resize_fits(w: u32, h: u32, nw: u32, nh: u32) -> bool {
    &&& w < MAX_SIDE && h < MAX_SIDE && nw < MAX_SIDE && nh < MAX_SIDE
    &&& nw * nh * 3 <= isize::MAX
    &&& w * nh * 16 <= isize::MAX
}

/// `image::imageops::resize` with `FilterType::Triangle` on an RGB8 image.
/// Claims: the result holds `nw * nh` RGB8 pixels and is the named function
/// of the input bytes and both sizes. The resampling arithmetic is not
/// stated.
#[verifier::external_body]
fn resize_triangle(rgb: &Vec<u8>, w: u32, h: u32, nw: u32, nh: u32) -> (out: Vec<u8>)
    requires
        rgb@.len() == w * h * 3,
        resize_fits(w, h, nw, nh),
    ensures
        out@ == triangle_resized(rgb@, w, h, nw, nh),
        out@.len() == nw * nh * 3,
{
    match image::RgbImage::from_raw(w, h, rgb.clone()) {
        Some(im) => image::imageops::resize(&im, nw, nh, image::imageops::FilterType::Triangle).into_raw(),
        None => Vec::new(),
    }
}

/// `n` cut to at most `limit`.
pub open spec fn crop_side(n: u32, limit: u32) -> u32 {
    if n <= limit { n } else { limit }
}

/// The far corner of a `w`×`h` image at `(x, y)`, cut to at most `fw`
/// columns and `fh` rows, stays inside `i32`.
pub open spec fn crop_fits(x: i32, y: i32, w: u32, h: u32, fw: u32, fh: u32) -> bool {
    &&& i32::MIN <= x + (crop_side(w, fw) as i32) <= i32::MAX
    &&& i32::MIN <= y + (crop_side(h, fh) as i32) <= i32::MAX
}

/// `after` is `before` with the `w`×`h` RGB8 image `src` drawn at `(x, y)`
/// after cutting it to at most the frame's columns and rows, clipped to the
/// frame; `d` is the area drawn, `None` when nothing lands inside.
pub open spec fn cropped_blit(
    before: Framebuf,
    after: Framebuf,
    d: Option<Rect>,
    x: i32,
    y: i32,
    w: u32,
    h: u32,
    src: Seq<u8>,
) -> bool {
    let cw = crop_side(w, before.w);
    let ch = crop_side(h, before.h);
    let (x0, y0, x1, y1) = clip(
        Rect { x0: x, y0: y, x1: (x + (cw as i32)) as i32, y1: (y + (ch as i32)) as i32 },
        before.w,
        before.h,
    );
    &&& after.wf()
    &&& after.w == before.w && after.h == before.h
    &&& d is None <==> (x1 <= x0 || y1 <= y0)
    &&& d matches Some(r) ==> r.x0 == x0 && r.y0 == y0 && r.x1 == x1 && r.y1 == y1
    &&& forall|a: int, b: int| after.contains(a, b) ==> #[trigger] after.at(a, b) == (
        if in_box(a, b, x0, y0, x1, y1) {
            rgb_word(src, ((b - y) * w + (a - x)) * 3)
        } else {
            before.at(a, b)
        })
}

/// Row-major offsets of one byte in the cut image (rows of `cw` pixels) and
/// in the whole image (rows of `w` pixels).
proof fn lemma_crop_offsets(rr: int, col: int, k: int, cw: int, w: int)
    requires
        0 <= rr,
        0 <= col < cw,
        cw <= w,
        0 <= k < 3,
    ensures
        (rr * cw + col) * 3 + k == rr * (cw * 3) + (col * 3 + k),
        (rr * w + col) * 3 + k == rr * (w * 3) + (col * 3 + k),
        0 <= col * 3 + k < cw * 3,
{
    assert((rr * cw + col) * 3 + k == rr * (cw * 3) + (col * 3 + k)) by (nonlinear_arith);
    assert((rr * w + col) * 3 + k == rr * (w * 3) + (col * 3 + k)) by (nonlinear_arith);
}

/// The last byte of the last pixel of a `cw`×`ch` image.
proof fn lemma_last_byte(rr: int, col: int, cw: int, ch: int)
    requires
        0 <= rr < ch,
        0 <= col < cw,
    ensures
        (rr * cw + col) * 3 + 2 < ch * cw * 3,
{
    lemma_index_bounds(cw, ch, col, rr);
    assert((rr * cw + col) * 3 + 2 < ch * cw * 3) by (nonlinear_arith)
        requires
            rr * cw + col + 1 <= cw * ch,
    ;
}

/// Draws the `w`×`h` RGB8 image `rgb` at `(x, y)`: the image is first cut
/// to its top-left `min(w, fb.w)`×`min(h, fb.h)` part, which is then
/// clipped to the frame. Returns the area drawn.
pub fn blit_cropped(fb: &mut Framebuf, x: i32, y: i32, w: u32, h: u32, rgb: &Vec<u8>) -> (d: Option<Rect>)
    requires
        old(fb).wf(),
        rgb@.len() >= w * h * 3,
        crop_fits(x, y, w, h, old(fb).w, old(fb).h),
    ensures
        cropped_blit(*old(fb), *final(fb), d, x, y, w, h, rgb@),
{
    let cw: u32 = if w <= fb.w { w } else { fb.w };
    let ch: u32 = if h <= fb.h { h } else { fb.h };
    let n: usize = rgb.len();
    let mut cropped: Vec<u8> = Vec::new();
    let mut r: u32 = 0;
    while r < ch
        invariant
            n == rgb@.len(),
            n >= w * h * 3,
            cw <= w,
            ch <= h,
            r <= ch,
            cropped@.len() == r * (cw * 3),
            forall|rr: int, cc: int|
                0 <= rr < r && 0 <= cc < cw * 3 ==> cropped@[rr * (cw * 3) + cc] == #[trigger] rgb@[rr * (w * 3) + cc],
        decreases ch - r,
    {
        proof {
            assert(r * (w * 3) + w * 3 <= w * h * 3) by (nonlinear_arith)
                requires
                    r < h,
            ;
        }
        let stride: usize = w as usize * 3;
        let base: usize = r as usize * stride;
        let row: usize = cw as usize * 3;
        let mut c: usize = 0;
        while c < row
            invariant
                n == rgb@.len(),
                n >= w * h * 3,
                cw <= w,
                r < ch <= h,
                stride == w * 3,
                base == r * (w * 3),
                r * (w * 3) + w * 3 <= n,
                row == cw * 3,
                c <= row,
                cropped@.len() == r * (cw * 3) + c,
                forall|rr: int, cc: int|
                    0 <= rr < r && 0 <= cc < cw * 3 ==> cropped@[rr * (cw * 3) + cc] == #[trigger] rgb@[rr * (w * 3) + cc],
                forall|cc: int| 0 <= cc < c ==> cropped@[r * (cw * 3) + cc] == #[trigger] rgb@[r * (w * 3) + cc],
            decreases row - c,
        {
            let ghost prev = cropped@;
            cropped.push(rgb[base + c]);
            proof {
                assert forall|rr: int, cc: int|
                    0 <= rr < r && 0 <= cc < cw * 3 implies cropped@[rr * (cw * 3) + cc] == #[trigger] rgb@[rr * (w * 3) + cc] by {
                    lemma_index_bounds(cw as int * 3, r as int, cc, rr);
                    assert(cropped@[rr * (cw * 3) + cc] == prev[rr * (cw * 3) + cc]);
                }
            }
            c = c + 1;
        }
        proof {
            assert forall|rr: int, cc: int|
                0 <= rr < r + 1 && 0 <= cc < cw * 3 implies cropped@[rr * (cw * 3) + cc] == #[trigger] rgb@[rr * (w * 3) + cc] by {
                if rr == r as int {
                    assert(rgb@[r * (w * 3) + cc] == cropped@[r * (cw * 3) + cc]);
                }
            }
            assert(cropped@.len() == (r + 1) * (cw * 3)) by (nonlinear_arith)
                requires
                    cropped@.len() == r * (cw * 3) + cw * 3,
            ;
        }
        r = r + 1;
    }
    let ghost before = *fb;
    let ghost (x0, y0, x1, y1) = clip(
        Rect { x0: x, y0: y, x1: (x + (cw as i32)) as i32, y1: (y + (ch as i32)) as i32 },
        fb.w,
        fb.h,
    );
    proof {
        if x0 < x1 && y0 < y1 {
            lemma_last_byte(y1 - 1 - y, x1 - 1 - x, cw as int, ch as int);
            assert(ch * (cw * 3) == ch * cw * 3) by (nonlinear_arith);
        }
    }
    let d = fb.blit_rgb8(x, y, cw, ch, cropped.as_slice());
    proof {
        assert forall|a: int, b: int| in_box(a, b, x0, y0, x1, y1) implies
            rgb_word(cropped@, ((b - y) * cw + (a - x)) * 3) == rgb_word(rgb@, ((b - y) * w + (a - x)) * 3) by {
            lemma_crop_offsets(b - y, a - x, 0, cw as int, w as int);
            lemma_crop_offsets(b - y, a - x, 1, cw as int, w as int);
            lemma_crop_offsets(b - y, a - x, 2, cw as int, w as int);
            let rr = b - y;
            let col = a - x;
            assert(cropped@[rr * (cw * 3) + (col * 3)] == rgb@[rr * (w * 3) + (col * 3)]);
            assert(cropped@[rr * (cw * 3) + (col * 3 + 1)] == rgb@[rr * (w * 3) + (col * 3 + 1)]);
            assert(cropped@[rr * (cw * 3) + (col * 3 + 2)] == rgb@[rr * (w * 3) + (col * 3 + 2)]);
        }
        assert forall|a: int, b: int| fb.contains(a, b) implies #[trigger] fb.at(a, b) == (
            if in_box(a, b, x0, y0, x1, y1) {
                rgb_word(rgb@, ((b - y) * w + (a - x)) * 3)
            } else {
                before.at(a, b)
            }) by {
        }
    }
    d
}

/// Whether a theme image of `w`×`h` pixels is resampled to the
/// `width`×`height` its entry gives: both given and not already its size.
pub open spec fn resizes(width: i32, height: i32, w: u32, h: u32) -> bool {
    width > 0 && height > 0 && (width as u32 != w || height as u32 != h)
}

/// Size of the image drawn for an entry of `width`×`height` over a decoded
/// `w`×`h` image.
pub open spec fn static_size(width: i32, height: i32, w: u32, h: u32) -> (u32, u32) {
    if resizes(width, height, w, h) { (width as u32, height as u32) } else { (w, h) }
}

/// Bytes of the image drawn for an entry of `width`×`height` over `img`.
pub open spec fn static_bytes(width: i32, height: i32, img: DecodedImage) -> Seq<u8> {
    if resizes(width, height, img.w, img.h) {
        triangle_resized(img.rgb@, img.w, img.h, width as u32, height as u32)
    } else {
        img.rgb@
    }
}

/// Draws a `static_images` entry of a theme from its decoded image `img`:
/// resampled to the entry's size where it gives one that differs, then cut
/// to the display and drawn at the entry's place. Returns the area drawn.
pub fn place_static_image(fb: &mut Framebuf, entry: &StaticImage, img: &DecodedImage) -> (d: Option<Rect>)
    requires
        old(fb).wf(),
        img.rgb@.len() == img.w * img.h * 3,
        resizes(entry.width, entry.height, img.w, img.h) ==> resize_fits(
            img.w,
            img.h,
            entry.width as u32,
            entry.height as u32,
        ),
        ({
            let (w, h) = static_size(entry.width, entry.height, img.w, img.h);
            crop_fits(entry.x, entry.y, w, h, old(fb).w, old(fb).h)
        }),
    ensures
        ({
            let (w, h) = static_size(entry.width, entry.height, img.w, img.h);
            cropped_blit(*old(fb), *final(fb), d, entry.x, entry.y, w, h, static_bytes(entry.width, entry.height, *img))
        }),
{
    if entry.width > 0 && entry.height > 0 && (entry.width as u32 != img.w || entry.height as u32 != img.h) {
        let nw = entry.width as u32;
        let nh = entry.height as u32;
        let out = resize_triangle(&img.rgb, img.w, img.h, nw, nh);
        blit_cropped(fb, entry.x, entry.y, nw, nh, &out)
    } else {
        blit_cropped(fb, entry.x, entry.y, img.w, img.h, &img.rgb)
    }
}

} // verus!
