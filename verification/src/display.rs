//! Display side: screen orientation, the work items of the serial
//! dispatcher, driver selection, the Turing Rev A wire protocol (command
//! packets, orientation packet, region payloads) and the simulated panel.

use vstd::prelude::*;
use vstd::string::StringExecFns;
use crate::config::Revision;
use crate::framebuf::{pack565, Rgb, RgbCanvas};

verus! {

/// Screen orientation, in the order of the Rev A wire codes.
#[derive(Debug, Clone, Copy, PartialEq, Eq, Structural)]
pub enum Orientation {
    Portrait,
    ReversePortrait,
    Landscape,
    ReverseLandscape,
}

impl Orientation {
    /// Wire code (`orientation + 100` goes on the wire).
    pub open spec fn code(self) -> u8 {
        match self {
            Orientation::Portrait => 0,
            Orientation::ReversePortrait => 1,
            Orientation::Landscape => 2,
            Orientation::ReverseLandscape => 3,
        }
    }

    /// Wire code of the orientation.
    pub fn wire(&self) -> (v: u8)
        ensures
            v == self.code(),
    {
        match self {
            Orientation::Portrait => 0,
            Orientation::ReversePortrait => 1,
            Orientation::Landscape => 2,
            Orientation::ReverseLandscape => 3,
        }
    }
}

/// Width and height of a `w`×`h` portrait panel in orientation `o`.
pub open spec fn oriented_dims(o: Orientation, w: u32, h: u32) -> (u32, u32) {
    match o {
        Orientation::Portrait | Orientation::ReversePortrait => (w, h),
        Orientation::Landscape | Orientation::ReverseLandscape => (h, w),
    }
}

/// Work item of the serial dispatcher.
pub enum DisplayOp {
    /// One RGB565LE region `x0..x1` × `y0..y1` (uncropped).
    Region { x0: i32, y0: i32, x1: i32, y1: i32, data: Vec<u8> },
    /// Switch the panel off (system suspend).
    ScreenOff,
    /// Switch the panel on (system resume).
    ScreenOn,
    /// Drain marker: everything queued before it is sent, then the panel
    /// is switched off.
    Stop,
}

/// Uniform driver interface used by the serial dispatcher.
pub trait DisplayDriver {
    /// Driver name for logs.
    fn name(&self) -> &'static str;

    /// Native portrait dimensions reported by the device.
    fn native_dims(&self) -> (u32, u32);

    fn initialize(&mut self) -> Result<(), String>;

    fn reset(&mut self) -> Result<(), String>;

    /// Clears the panel to white.
    fn clear(&mut self) -> Result<(), String>;

    fn screen_on(&mut self) -> Result<(), String>;

    fn screen_off(&mut self) -> Result<(), String>;

    /// Brightness 0–100.
    fn set_brightness(&mut self, level: u8) -> Result<(), String>;

    fn set_orientation(&mut self, orientation: Orientation) -> Result<(), String>;

    /// Pushes one RGB565LE region (uncropped `x0..x1`, `y0..y1`).
    fn send_region(&mut self, x0: i32, y0: i32, x1: i32, y1: i32, rgb565le: &[u8]) -> Result<(), String>;
}

/// Capacity of the dispatcher queue.
pub const CHANNEL_CAP: usize = 64;

/// Which driver a configuration selects.
pub enum DriverChoice {
    /// Rev A panel on the given serial port (`AUTO` to detect it).
    RevA { com_port: String },
    /// Simulated panel of the theme's size.
    Simu { width: u32, height: u32 },
}

/// Message for a revision without a driver.
pub open spec fn no_driver_message(rev: Revision) -> Seq<char> {
    "display revision "@ + rev.debug_name() + " has no driver yet (only Rev A and SIMU are supported)"@
}

/// Driver for a revision: Rev A and the simulator exist, every other
/// revision is refused.
pub fn create(rev: Revision, com_port: &str, theme_w: u32, theme_h: u32) -> (r: Result<DriverChoice, String>)
    ensures
        rev == Revision::A ==> (r matches Ok(DriverChoice::RevA { com_port: p }) && p@ == com_port@),
        rev == Revision::Simu ==> (r matches Ok(DriverChoice::Simu { width, height }) && width == theme_w
            && height == theme_h),
        rev != Revision::A && rev != Revision::Simu ==> (r matches Err(e) && e@ == no_driver_message(rev)),
{
    match rev {
        Revision::A => Ok(DriverChoice::RevA { com_port: String::from_str(com_port) }),
        Revision::Simu => Ok(DriverChoice::Simu { width: theme_w, height: theme_h }),
        _ => {
            let mut m = String::from_str("display revision ");
            m.append(rev.name());
            m.append(" has no driver yet (only Rev A and SIMU are supported)");
            Err(m)
        },
    }
}

/// Rev A command codes.
#[derive(Debug, Clone, Copy, PartialEq, Eq, Structural)]
pub enum Command {
    Reset,
    Clear,
    ScreenOff,
    ScreenOn,
    SetBrightness,
    SetOrientation,
    DisplayBitmap,
    Hello,
}

impl Command {
    /// Byte that identifies the command on the wire.
    pub open spec fn code(self) -> u8 {
        match self {
            Command::Reset => 101,
            Command::Clear => 102,
            Command::ScreenOff => 108,
            Command::ScreenOn => 109,
            Command::SetBrightness => 110,
            Command::SetOrientation => 121,
            Command::DisplayBitmap => 197,
            Command::Hello => 69,
        }
    }

    /// The command byte.
    pub fn byte(&self) -> (b: u8)
        ensures
            b == self.code(),
    {
        match self {
            Command::Reset => 101,
            Command::Clear => 102,
            Command::ScreenOff => 108,
            Command::ScreenOn => 109,
            Command::SetBrightness => 110,
            Command::SetOrientation => 121,
            Command::DisplayBitmap => 197,
            Command::Hello => 69,
        }
    }
}

/// The Rev A commands with their wire bytes.
pub open spec fn command_table() -> Seq<(Command, u8)> {
    seq![
        (Command::Reset, 101u8),
        (Command::Clear, 102u8),
        (Command::ScreenOff, 108u8),
        (Command::ScreenOn, 109u8),
        (Command::SetBrightness, 110u8),
        (Command::SetOrientation, 121u8),
        (Command::DisplayBitmap, 197u8),
        (Command::Hello, 69u8),
    ]
}

/// Each command goes on the wire as its byte of [`command_table`], and no
/// two commands share a byte.
pub proof fn lemma_command_bytes(i: int, a: Command, b: Command)
    ensures
        0 <= i < command_table().len() ==> command_table()[i].0.code() == command_table()[i].1,
        a != b ==> a.code() != b.code(),
{
}

/// The five coordinate bytes of a command: `x`, `y`, `ex`, `ey` as
/// 10-bit fields, most significant first (wider values wrap per byte).
pub open spec fn coord_bytes(x: u32, y: u32, ex: u32, ey: u32) -> Seq<u8> {
    seq![
        ((x / 4) % 256) as u8,
        (((x % 4) * 64 + y / 16) % 256) as u8,
        (((y % 16) * 16 + ex / 64) % 256) as u8,
        (((ex % 64) * 4 + ey / 256) % 256) as u8,
        (ey % 256) as u8,
    ]
}

/// A six-byte command packet.
pub open spec fn command_bytes(cmd: u8, x: u32, y: u32, ex: u32, ey: u32) -> Seq<u8> {
    coord_bytes(x, y, ex, ey).push(cmd)
}

proof fn lemma_coord_bits(x: u32, y: u32, ex: u32, ey: u32)
    ensures
        (x >> 2) as u8 == ((x / 4) % 256) as u8,
        (((((x & 3) << 6) + (y >> 4)) as u32) & 0xFF) as u8 == (((x % 4) * 64 + y / 16) % 256) as u8,
        (((((y & 15) << 4) + (ex >> 6)) as u32) & 0xFF) as u8 == (((y % 16) * 16 + ex / 64) % 256) as u8,
        (((((ex & 63) << 2) + (ey >> 8)) as u32) & 0xFF) as u8 == (((ex % 64) * 4 + ey / 256) % 256) as u8,
        ((ey & 255) & 0xFF) as u8 == (ey % 256) as u8,
{
    assert({
        &&& (x >> 2) as u8 == ((x / 4) % 256) as u8
        &&& (((((x & 3) << 6) + (y >> 4)) as u32) & 0xFF) as u8 == (((x % 4) * 64 + y / 16) % 256) as u8
        &&& (((((y & 15) << 4) + (ex >> 6)) as u32) & 0xFF) as u8 == (((y % 16) * 16 + ex / 64) % 256) as u8
        &&& (((((ex & 63) << 2) + (ey >> 8)) as u32) & 0xFF) as u8 == (((ex % 64) * 4 + ey / 256) % 256) as u8
        &&& ((ey & 255) & 0xFF) as u8 == (ey % 256) as u8
    }) by (bit_vector);
}

/// The five coordinate bytes, built as the Rev A firmware expects them.
fn push_coords(out: &mut Vec<u8>, x: u32, y: u32, ex: u32, ey: u32)
    ensures
        final(out)@ == old(out)@ + coord_bytes(x, y, ex, ey),
{
    proof {
        lemma_coord_bits(x, y, ex, ey);
    }
    assert({
        &&& (y >> 4) <= 0x0FFF_FFFF
        &&& (ex >> 6) <= 0x03FF_FFFF
        &&& (ey >> 8) <= 0x00FF_FFFF
        &&& ((x & 3) << 6) <= 192
        &&& ((y & 15) << 4) <= 240
        &&& ((ex & 63) << 2) <= 252
    }) by (bit_vector);
    out.push((x >> 2) as u8);
    out.push(((((x & 3) << 6) + (y >> 4)) & 0xFF) as u8);
    out.push(((((y & 15) << 4) + (ex >> 6)) & 0xFF) as u8);
    out.push(((((ex & 63) << 2) + (ey >> 8)) & 0xFF) as u8);
    out.push(((ey & 255) & 0xFF) as u8);
    assert(out@ =~= old(out)@ + coord_bytes(x, y, ex, ey));
}

/// Big-endian value of a byte sequence.
pub open spec fn be_value(s: Seq<u8>) -> nat
    decreases s.len(),
{
    if s.len() == 0 { 0 } else { be_value(s.drop_last()) * 256 + s.last() as nat }
}

proof fn lemma_be_value_5(s: Seq<u8>)
    requires
        s.len() == 5,
    ensures
        be_value(s) == s[0] * 0x1_0000_0000 + s[1] * 0x100_0000 + s[2] * 0x1_0000 + s[3] * 0x100 + s[4],
{
    let s4 = s.drop_last();
    let s3 = s4.drop_last();
    let s2 = s3.drop_last();
    let s1 = s2.drop_last();
    let s0 = s1.drop_last();
    assert(s0.len() == 0);
    assert(be_value(s0) == 0);
    assert(s1.last() == s[0]);
    assert(be_value(s1) == s[0]);
    assert(be_value(s2) == be_value(s1) * 256 + s[1]);
    assert(be_value(s3) == be_value(s2) * 256 + s[2]);
    assert(be_value(s4) == be_value(s3) * 256 + s[3]);
    assert(be_value(s) == be_value(s4) * 256 + s[4]);
}

/// The coordinate bytes carry the four coordinates as consecutive 10-bit
/// fields when each is below 1024.
pub proof fn lemma_coords_pack_10_bit_fields(x: u32, y: u32, ex: u32, ey: u32)
    requires
        x < 1024,
        y < 1024,
        ex < 1024,
        ey < 1024,
    ensures
        be_value(coord_bytes(x, y, ex, ey)) == x * 0x4000_0000 + y * 0x10_0000 + ex * 0x400 + ey,
{
    let s = coord_bytes(x, y, ex, ey);
    lemma_be_value_5(s);
    assert(s[0] == x / 4);
    assert(s[1] == (x % 4) * 64 + y / 16);
    assert(s[2] == (y % 16) * 16 + ex / 64);
    assert(s[3] == (ex % 64) * 4 + ey / 256);
    assert(s[4] == ey % 256);
    assert(x == 4 * (x / 4) + x % 4);
    assert(y == 16 * (y / 16) + y % 16);
    assert(ex == 64 * (ex / 64) + ex % 64);
    assert(ey == 256 * (ey / 256) + ey % 256);
}

/// Brightness byte for a 0–100 level: the panel is inverted (0 brightest,
/// 255 darkest).
pub open spec fn brightness_value(level: u8) -> u32 {
    ((25500 - 255 * level) / 100) as u32
}

/// The brightness byte runs the 0–100 scale backwards onto 255–0: it is
/// `255 - 2.55 × level` rounded down (so level 0 gives 255 and level 100
/// gives 0), and a brighter level never gives a larger byte.
pub proof fn lemma_brightness_scale(l1: u8, l2: u8)
    requires
        l1 <= 100,
        l2 <= 100,
    ensures
        100 * brightness_value(l1) <= 25500 - 255 * l1 < 100 * brightness_value(l1) + 100,
        brightness_value(l1) <= 255,
        l1 <= l2 ==> brightness_value(l2) <= brightness_value(l1),
{
    assert(l1 <= l2 ==> (25500 - 255 * l2) / 100 <= (25500 - 255 * l1) / 100) by (nonlinear_arith)
        requires l1 <= 100, l2 <= 100;
}

/// The orientation packet carries the width and then the height, each as
/// a big-endian 16-bit number, when they fit 16 bits.
pub proof fn lemma_orientation_dims(o: Orientation, w: u32, h: u32)
    requires
        w < 0x1_0000,
        h < 0x1_0000,
    ensures
        orientation_bytes(o, w, h)[7] * 256 + orientation_bytes(o, w, h)[8] == w,
        orientation_bytes(o, w, h)[9] * 256 + orientation_bytes(o, w, h)[10] == h,
        orientation_bytes(o, w, h).subrange(11, 16) == seq![0u8, 0u8, 0u8, 0u8, 0u8],
{
    let p = orientation_bytes(o, w, h);
    assert(p[7] == w / 256 && p[8] == w % 256);
    assert(p[9] == h / 256 && p[10] == h % 256);
    assert(p.subrange(11, 16) =~= seq![0u8, 0u8, 0u8, 0u8, 0u8]);
}

/// Protocol state of a Rev A panel (the serial link is the caller's).
pub struct RevA {
    /// Native portrait width.
    pub width: u32,
    /// Native portrait height.
    pub height: u32,
    pub orientation: Orientation,
}

/// Panel size answered to HELLO: `[1; 6]` 320×480, `[2; 6]` 480×800,
/// `[3; 6]` 600×1024; no answer or anything else 320×480.
pub open spec fn hello_dims(resp: Option<[u8; 6]>) -> (u32, u32) {
    match resp {
        Some(r) => if r@ == seq![2u8, 2u8, 2u8, 2u8, 2u8, 2u8] {
            (480, 800)
        } else if r@ == seq![3u8, 3u8, 3u8, 3u8, 3u8, 3u8] {
            (600, 1024)
        } else {
            (320, 480)
        },
        None => (320, 480),
    }
}

/// The panel sizes a HELLO answer can name, in the order of the answer
/// byte: `[1; 6]` for the first, `[2; 6]` the second, `[3; 6]` the third.
pub open spec fn hello_sizes() -> Seq<(u32, u32)> {
    seq![(320u32, 480u32), (480u32, 800u32), (600u32, 1024u32)]
}

/// An answer of six equal bytes `k` (1 to 3) names size number `k` of
/// [`hello_sizes`]; no answer, or any other answer, means the 320×480
/// panel.
pub proof fn lemma_hello_sizes(k: u8, r: [u8; 6])
    ensures
        1 <= k <= 3 && r@ == seq![k, k, k, k, k, k] ==> hello_dims(Some(r)) == hello_sizes()[k - 1],
        !(r@ == seq![1u8, 1u8, 1u8, 1u8, 1u8, 1u8] || r@ == seq![2u8, 2u8, 2u8, 2u8, 2u8, 2u8] || r@ == seq![
            3u8,
            3u8,
            3u8,
            3u8,
            3u8,
            3u8,
        ]) ==> hello_dims(Some(r)) == (320u32, 480u32),
        hello_dims(None) == (320u32, 480u32),
{
    if r@ == seq![1u8, 1u8, 1u8, 1u8, 1u8, 1u8] {
        assert(r@ != seq![2u8, 2u8, 2u8, 2u8, 2u8, 2u8] && r@ != seq![3u8, 3u8, 3u8, 3u8, 3u8, 3u8]) by {
            assert(r@[0] == 1);
        }
    }
}

/// Orientation packet: the command header, then the orientation code
/// plus 100, width and height big-endian, and five zero bytes.
pub open spec fn orientation_bytes(o: Orientation, w: u32, h: u32) -> Seq<u8> {
    command_bytes(121, 0, 0, 0, 0) + seq![
        (o.code() + 100) as u8,
        ((w / 256) % 256) as u8,
        (w % 256) as u8,
        ((h / 256) % 256) as u8,
        (h % 256) as u8,
        0u8,
        0u8,
        0u8,
        0u8,
        0u8,
    ]
}

/// The orientations in the order the panel numbers them.
pub open spec fn wire_order() -> Seq<Orientation> {
    seq![Orientation::Portrait, Orientation::ReversePortrait, Orientation::Landscape, Orientation::ReverseLandscape]
}

/// The orientation packet announces orientation number `i` of
/// [`wire_order`] as the byte `100 + i`, right after the six header bytes,
/// whatever the width and height; different orientations are announced by
/// different bytes.
pub proof fn lemma_orientation_byte(i: int, o1: Orientation, o2: Orientation, w: u32, h: u32, w2: u32, h2: u32)
    ensures
        orientation_bytes(o1, w, h).len() == 16,
        0 <= i < 4 ==> orientation_bytes(wire_order()[i], w, h)[6] == 100 + i,
        o1 != o2 ==> orientation_bytes(o1, w, h)[6] != orientation_bytes(o2, w2, h2)[6],
{
}

/// Bytes of a region after cropping: `ch` rows of `cw` pixels starting at
/// pixel `(ox, oy)` of a payload `full_w` pixels wide.
pub open spec fn cropped_payload(data: Seq<u8>, full_w: int, ox: int, oy: int, cw: int, ch: int) -> Seq<u8> {
    Seq::new(
        (cw * ch * 2) as nat,
        |i: int| data[((oy + i / (cw * 2)) * full_w + ox) * 2 + i % (cw * 2)],
    )
}

/// `p` cut into consecutive pieces of `c` bytes (the last may be shorter).
pub open spec fn chunks_of(p: Seq<u8>, c: int) -> Seq<Seq<u8>> {
    Seq::new(
        ((p.len() + c - 1) / c) as nat,
        |j: int| p.subrange(j * c, if (j + 1) * c < p.len() { (j + 1) * c } else { p.len() as int }),
    )
}

/// Views of a list of byte vectors.
pub open spec fn packets_v(v: Seq<Vec<u8>>) -> Seq<Seq<u8>> {
    Seq::new(v.len(), |i: int| v[i]@)
}

/// Spec max / min on `int`.
pub open spec fn imax(a: int, b: int) -> int {
    if a >= b { a } else { b }
}

pub open spec fn imin(a: int, b: int) -> int {
    if a <= b { a } else { b }
}

/// Writes that send region `x0..x1` × `y0..y1` (payload `data`, the
/// uncropped region) to a panel showing `dw`×`dh`: nothing when the
/// region misses the screen, otherwise the bitmap command for the cropped
/// box and the cropped payload in pieces of `8 * dw` bytes.
pub open spec fn region_writes_spec(dw: int, dh: int, x0: int, y0: int, x1: int, y1: int, data: Seq<u8>) -> Seq<
    Seq<u8>,
> {
    let x0c = imax(x0, 0);
    let y0c = imax(y0, 0);
    let x1c = imin(x1, dw);
    let y1c = imin(y1, dh);
    if x1c <= x0c || y1c <= y0c {
        Seq::empty()
    } else {
        let payload = cropped_payload(data, x1 - x0, x0c - x0, y0c - y0, x1c - x0c, y1c - y0c);
        seq![command_bytes(197, x0c as u32, y0c as u32, (x1c - 1) as u32, (y1c - 1) as u32)] + chunks_of(
            payload,
            imax(dw * 8, 1),
        )
    }
}

proof fn lemma_chunk_at(p: Seq<u8>, c: int, k: int)
    requires
        c >= 1,
        0 <= k < p.len(),
    ensures
        0 <= k / c < chunks_of(p, c).len(),
        chunks_of(p, c)[k / c].len() > k % c,
        chunks_of(p, c)[k / c][k % c] == p[k],
{
    let q = k / c;
    let r = k % c;
    vstd::arithmetic::div_mod::lemma_fundamental_div_mod(k, c);
    assert(0 <= r < c);
    assert(q >= 0) by (nonlinear_arith)
        requires k >= 0, c >= 1, q == k / c;
    assert(q < (p.len() + c - 1) / c) by (nonlinear_arith)
        requires k == c * q + r, 0 <= r < c, k < p.len(), c >= 1;
    let end = if (q + 1) * c < p.len() { (q + 1) * c } else { p.len() as int };
    assert(q * c == c * q) by (nonlinear_arith);
    assert((q + 1) * c == q * c + c) by (nonlinear_arith);
    assert(chunks_of(p, c)[q] == p.subrange(q * c, end));
}

proof fn lemma_chunk_lengths(p: Seq<u8>, c: int, j: int)
    requires
        c >= 1,
        p.len() >= 1,
        0 <= j < chunks_of(p, c).len(),
    ensures
        j < chunks_of(p, c).len() - 1 ==> chunks_of(p, c)[j].len() == c,
        1 <= chunks_of(p, c)[j].len() <= c,
{
    let n = p.len() as int;
    let cnt = (n + c - 1) / c;
    vstd::arithmetic::div_mod::lemma_fundamental_div_mod(n + c - 1, c);
    let rr = (n + c - 1) % c;
    assert(j * c < n) by (nonlinear_arith)
        requires n + c - 1 == c * cnt + rr, 0 <= rr < c, 0 <= j < cnt, c >= 1;
    assert(j < cnt - 1 ==> (j + 1) * c < n) by (nonlinear_arith)
        requires n + c - 1 == c * cnt + rr, 0 <= rr < c, 0 <= j, c >= 1;
    assert((j + 1) * c == j * c + c) by (nonlinear_arith);
    assert(j * c >= 0) by (nonlinear_arith)
        requires j >= 0, c >= 1;
}

/// Sending a region to a `dw`×`dh` screen writes first the bitmap command
/// for the on-screen part of the region (its last column and row
/// included), then the on-screen pixels row by row, in pieces of `8 × dw`
/// bytes of which only the last may be shorter: byte `b` of on-screen pixel
/// `(cx, cy)` travels as byte `b` of that pixel in the caller's payload
/// for the whole region.
pub proof fn lemma_region_writes_carry_pixels(
    dw: int,
    dh: int,
    x0: int,
    y0: int,
    x1: int,
    y1: int,
    data: Seq<u8>,
    cx: int,
    cy: int,
    b: int,
    j: int,
)
    requires
        dw > 0,
        dh > 0,
        imax(x0, 0) < imin(x1, dw),
        imax(y0, 0) < imin(y1, dh),
        data.len() == (x1 - x0) * (y1 - y0) * 2,
    ensures
        ({
            let w = region_writes_spec(dw, dh, x0, y0, x1, y1, data);
            let (x0c, y0c, x1c, y1c) = (imax(x0, 0), imax(y0, 0), imin(x1, dw), imin(y1, dh));
            let cw = x1c - x0c;
            let c = dw * 8;
            &&& w[0] == command_bytes(
                Command::DisplayBitmap.code(),
                x0c as u32,
                y0c as u32,
                (x1c - 1) as u32,
                (y1c - 1) as u32,
            )
            &&& w.len() >= 2
            &&& 1 <= j < w.len() - 1 ==> w[j].len() == c
            &&& 1 <= j < w.len() ==> 1 <= w[j].len() <= c
            &&& (x0c <= cx < x1c && y0c <= cy < y1c && 0 <= b < 2) ==> {
                let k = ((cy - y0c) * cw + (cx - x0c)) * 2 + b;
                &&& 1 + k / c < w.len()
                &&& k % c < w[1 + k / c].len()
                &&& w[1 + k / c][k % c] == data[((cy - y0) * (x1 - x0) + (cx - x0)) * 2 + b]
            }
        }),
{
    let x0c = imax(x0, 0);
    let y0c = imax(y0, 0);
    let x1c = imin(x1, dw);
    let y1c = imin(y1, dh);
    let cw = x1c - x0c;
    let ch = y1c - y0c;
    let fw = x1 - x0;
    let c = dw * 8;
    let payload = cropped_payload(data, fw, x0c - x0, y0c - y0, cw, ch);
    let w = region_writes_spec(dw, dh, x0, y0, x1, y1, data);
    let chunks = chunks_of(payload, c);
    assert(w == seq![command_bytes(197, x0c as u32, y0c as u32, (x1c - 1) as u32, (y1c - 1) as u32)] + chunks);
    assert(cw * ch * 2 >= 2) by (nonlinear_arith)
        requires cw >= 1, ch >= 1;
    assert(payload.len() == cw * ch * 2);
    assert(chunks.len() >= 1) by (nonlinear_arith)
        requires chunks.len() == (payload.len() + c - 1) / c, payload.len() >= 2, c >= 8;
    if 1 <= j < w.len() {
        assert(w[j] == chunks[j - 1]);
        lemma_chunk_lengths(payload, c, j - 1);
    }
    if x0c <= cx < x1c && y0c <= cy < y1c && 0 <= b < 2 {
        let py = cy - y0c;
        let px = cx - x0c;
        let k = (py * cw + px) * 2 + b;
        assert(0 <= py * cw && py * cw + px < ch * cw) by (nonlinear_arith)
            requires 0 <= py < ch, 0 <= px < cw;
        assert(ch * cw * 2 == cw * ch * 2) by (nonlinear_arith);
        assert(0 <= k < payload.len());
        lemma_chunk_at(payload, c, k);
        assert(w[1 + k / c] == chunks[k / c]);
        assert(k == (cw * 2) * py + (px * 2 + b)) by (nonlinear_arith)
            requires k == (py * cw + px) * 2 + b;
        vstd::arithmetic::div_mod::lemma_fundamental_div_mod_converse(k, cw * 2, py, px * 2 + b);
        assert(payload[k] == data[((y0c - y0 + py) * fw + (x0c - x0)) * 2 + (px * 2 + b)]);
        assert(((y0c - y0 + py) * fw + (x0c - x0)) * 2 + (px * 2 + b) == ((cy - y0) * fw + (cx - x0)) * 2 + b)
            by (nonlinear_arith)
            requires py == cy - y0c, px == cx - x0c;
    }
}

impl RevA {
    /// Panel dimensions stay within what the firmware reports.
    pub open spec fn wf(&self) -> bool {
        1 <= self.width <= 1024 && 1 <= self.height <= 1024
    }

    /// Protocol state of a freshly opened 3.5" panel in portrait.
    pub fn new() -> (r: RevA)
        ensures
            r.wf(),
            r.width == 320 && r.height == 480,
            r.orientation == Orientation::Portrait,
    {
        RevA { width: 320, height: 480, orientation: Orientation::Portrait }
    }

    /// Width and height in the current orientation.
    pub fn dims(&self) -> (d: (u32, u32))
        ensures
            d == oriented_dims(self.orientation, self.width, self.height),
    {
        match self.orientation {
            Orientation::Portrait | Orientation::ReversePortrait => (self.width, self.height),
            Orientation::Landscape | Orientation::ReverseLandscape => (self.height, self.width),
        }
    }

    /// Six-byte packet of a command with its coordinates.
    pub fn command(cmd: Command, x: u32, y: u32, ex: u32, ey: u32) -> (p: Vec<u8>)
        ensures
            p@ == command_bytes(cmd.code(), x, y, ex, ey),
    {
        let mut p: Vec<u8> = Vec::new();
        push_coords(&mut p, x, y, ex, ey);
        p.push(cmd.byte());
        p
    }

    /// HELLO probe: the command byte six times.
    pub fn hello_probe() -> (p: Vec<u8>)
        ensures
            p@ == seq![69u8, 69u8, 69u8, 69u8, 69u8, 69u8],
    {
        let mut p: Vec<u8> = Vec::new();
        p.push(69);
        p.push(69);
        p.push(69);
        p.push(69);
        p.push(69);
        p.push(69);
        p
    }

    /// Records the panel size from the HELLO answer (`None` when the
    /// panel did not answer, as a stock 3.5" never does).
    pub fn apply_hello(&mut self, resp: Option<[u8; 6]>)
        ensures
            (final(self).width, final(self).height) == hello_dims(resp),
            final(self).orientation == old(self).orientation,
            final(self).wf(),
    {
        let (w, h): (u32, u32) = match resp {
            Some(r) => {
                if r[0] == 2 && r[1] == 2 && r[2] == 2 && r[3] == 2 && r[4] == 2 && r[5] == 2 {
                    assert(r@ =~= seq![2u8, 2u8, 2u8, 2u8, 2u8, 2u8]);
                    (480, 800)
                } else if r[0] == 3 && r[1] == 3 && r[2] == 3 && r[3] == 3 && r[4] == 3 && r[5] == 3 {
                    assert(r@ =~= seq![3u8, 3u8, 3u8, 3u8, 3u8, 3u8]);
                    (600, 1024)
                } else {
                    assert(r@ != seq![2u8, 2u8, 2u8, 2u8, 2u8, 2u8] ==> true);
                    proof {
                        if r@ == seq![2u8, 2u8, 2u8, 2u8, 2u8, 2u8] {
                            assert(r@[0] == 2 && r@[1] == 2 && r@[2] == 2 && r@[3] == 2 && r@[4] == 2 && r@[5] == 2);
                        }
                        if r@ == seq![3u8, 3u8, 3u8, 3u8, 3u8, 3u8] {
                            assert(r@[0] == 3 && r@[1] == 3 && r@[2] == 3 && r@[3] == 3 && r@[4] == 3 && r@[5] == 3);
                        }
                    }
                    (320, 480)
                }
            },
            None => (320, 480),
        };
        self.width = w;
        self.height = h;
    }

    /// Brightness command for a 0–100 level.
    pub fn brightness_command(level: u8) -> (p: Vec<u8>)
        requires
            level <= 100,
        ensures
            p@ == command_bytes(110, brightness_value(level), 0, 0, 0),
    {
        let absolute: u32 = (25500 - 255 * level as u32) / 100;
        Self::command(Command::SetBrightness, absolute, 0, 0, 0)
    }

    /// Switches to orientation `o` and returns the packet announcing it
    /// with the resulting width and height.
    pub fn set_orientation(&mut self, o: Orientation) -> (p: Vec<u8>)
        requires
            old(self).wf(),
        ensures
            final(self).orientation == o,
            final(self).width == old(self).width && final(self).height == old(self).height,
            final(self).wf(),
            p@ == orientation_bytes(
                o,
                oriented_dims(o, old(self).width, old(self).height).0,
                oriented_dims(o, old(self).width, old(self).height).1,
            ),
    {
        self.orientation = o;
        let (w, h) = self.dims();
        let mut p = Self::command(Command::SetOrientation, 0, 0, 0, 0);
        p.push(o.wire() + 100);
        p.push(((w >> 8) & 0xFF) as u8);
        p.push(((w & 255) & 0xFF) as u8);
        p.push(((h >> 8) & 0xFF) as u8);
        p.push(((h & 255) & 0xFF) as u8);
        p.push(0);
        p.push(0);
        p.push(0);
        p.push(0);
        p.push(0);
        assert({
            &&& ((w >> 8) & 0xFF) as u8 == ((w / 256) % 256) as u8
            &&& ((w & 255) & 0xFF) as u8 == (w % 256) as u8
            &&& ((h >> 8) & 0xFF) as u8 == ((h / 256) % 256) as u8
            &&& ((h & 255) & 0xFF) as u8 == (h % 256) as u8
        }) by (bit_vector);
        assert(p@ =~= orientation_bytes(o, w, h));
        p
    }

    /// Packets that clear the screen: the panel must be in portrait for
    /// the clear command, so the orientation is switched there and back.
    pub fn clear_packets(&mut self) -> (ps: Vec<Vec<u8>>)
        requires
            old(self).wf(),
        ensures
            *final(self) == *old(self),
            packets_v(ps@) == seq![
                orientation_bytes(Orientation::Portrait, old(self).width, old(self).height),
                command_bytes(102, 0, 0, 0, 0),
                orientation_bytes(
                    old(self).orientation,
                    oriented_dims(old(self).orientation, old(self).width, old(self).height).0,
                    oriented_dims(old(self).orientation, old(self).width, old(self).height).1,
                ),
            ],
    {
        let back = self.orientation;
        let a = self.set_orientation(Orientation::Portrait);
        let b = Self::command(Command::Clear, 0, 0, 0, 0);
        let c = self.set_orientation(back);
        let mut ps: Vec<Vec<u8>> = Vec::new();
        ps.push(a);
        ps.push(b);
        ps.push(c);
        assert(packets_v(ps@) =~= seq![a@, b@, c@]);
        ps
    }
}

/// Bytes `a..b` of `p`.
fn copy_range(p: &Vec<u8>, a: usize, b: usize) -> (r: Vec<u8>)
    requires
        a <= b <= p@.len(),
    ensures
        r@ == p@.subrange(a as int, b as int),
{
    let mut r: Vec<u8> = Vec::new();
    let mut i: usize = a;
    while i < b
        invariant
            a <= i <= b,
            b <= p@.len(),
            r@ == p@.subrange(a as int, i as int),
        decreases b - i,
    {
        r.push(p[i]);
        assert(r@ =~= p@.subrange(a as int, i + 1));
        i = i + 1;
    }
    r
}

proof fn lemma_row_index(row: int, k: int, w: int)
    requires
        0 <= row,
        0 <= k < w,
    ensures
        (row * w + k) / w == row,
        (row * w + k) % w == k,
{
    vstd::arithmetic::div_mod::lemma_fundamental_div_mod_converse(row * w + k, w, row, k);
}

proof fn lemma_in_payload(oy: int, r: int, fw: int, ox: int, k: int, cw2: int, fh: int)
    requires
        0 <= ox,
        0 <= oy,
        0 <= r,
        oy + r < fh,
        0 <= k < cw2,
        ox * 2 + cw2 <= fw * 2,
    ensures
        0 <= ((oy + r) * fw + ox) * 2 + k < fw * fh * 2,
{
    assert((oy + r) * fw + fw <= fh * fw) by (nonlinear_arith)
        requires oy + r < fh, 0 <= fw;
    assert(0 <= (oy + r) * fw) by (nonlinear_arith)
        requires 0 <= oy + r, 0 <= fw;
    assert(fh * fw == fw * fh) by (nonlinear_arith);
}

/// Rows `oy..oy+ch`, columns `ox..ox+cw` of an RGB565LE payload that is
/// `fw` pixels wide and `fh` rows high.
fn crop_payload(data: &[u8], fw: usize, fh: usize, ox: usize, oy: usize, cw: usize, ch: usize) -> (p: Vec<u8>)
    requires
        data@.len() == fw * fh * 2,
        ox + cw <= fw,
        oy + ch <= fh,
        cw >= 1,
    ensures
        p@ == cropped_payload(data@, fw as int, ox as int, oy as int, cw as int, ch as int),
{
    let n = data.len();
    if ch == 0 {
        let p: Vec<u8> = Vec::new();
        assert(cw * ch * 2 == 0) by (nonlinear_arith)
            requires ch == 0;
        assert(p@ =~= cropped_payload(data@, fw as int, ox as int, oy as int, cw as int, ch as int));
        return p;
    }
    assert(fw * 2 <= fw * fh * 2) by (nonlinear_arith)
        requires fh >= 1;
    let cw2 = cw * 2;
    let mut p: Vec<u8> = Vec::new();
    let mut row: usize = 0;
    while row < ch
        invariant
            row <= ch,
            data@.len() == fw * fh * 2,
            ox + cw <= fw,
            oy + ch <= fh,
            cw2 == cw * 2,
            cw2 >= 2,
            n == data@.len(),
            fw * 2 <= n,
            p@.len() == row * cw2,
            forall|i: int| 0 <= i < p@.len() ==> #[trigger] p@[i] == data@[((oy + i / (cw2 as int)) * fw + ox) * 2 + i % (cw2 as int)],
        decreases ch - row,
    {
        proof {
            lemma_in_payload(oy as int, row as int, fw as int, ox as int, 0, cw2 as int, fh as int);
            assert(0 <= (oy + row) * fw) by (nonlinear_arith)
                requires 0 <= oy + row, 0 <= fw;
            assert(fw * fh * 2 == n);
        }
        let s = ((oy + row) * fw + ox) * 2;
        let mut k: usize = 0;
        while k < cw2
            invariant
                row < ch,
                k <= cw2,
                data@.len() == fw * fh * 2,
                ox + cw <= fw,
                oy + ch <= fh,
                cw2 == cw * 2,
                cw2 >= 2,
                n == data@.len(),
                s == ((oy + row) * fw + ox) * 2,
                p@.len() == row * cw2 + k,
                forall|i: int| 0 <= i < p@.len() ==> #[trigger] p@[i] == data@[((oy + i / (cw2 as int)) * fw + ox) * 2 + i % (cw2 as int)],
            decreases cw2 - k,
        {
            proof {
                lemma_in_payload(oy as int, row as int, fw as int, ox as int, k as int, cw2 as int, fh as int);
                lemma_row_index(row as int, k as int, cw2 as int);
            }
            p.push(data[s + k]);
            k = k + 1;
        }
        assert(p@.len() == (row + 1) * cw2) by (nonlinear_arith)
            requires p@.len() == row * cw2 + cw2;
        row = row + 1;
    }
    assert(ch * cw2 == cw * ch * 2) by (nonlinear_arith)
        requires cw2 == cw * 2;
    assert(p@ =~= cropped_payload(data@, fw as int, ox as int, oy as int, cw as int, ch as int));
    p
}

proof fn lemma_chunk_count(len: int, c: int, j: int)
    requires
        c >= 1,
        0 <= j,
        j * c >= len,
        j == 0 || (j - 1) * c < len,
        len >= 0,
    ensures
        j == (len + c - 1) / c,
{
    if j == 0 {
        assert(len == 0);
        assert((c - 1) / c == 0) by {
            vstd::arithmetic::div_mod::lemma_basic_div(c - 1, c);
        }
    } else {
        assert((j - 1) * c == j * c - c) by (nonlinear_arith);
        vstd::arithmetic::div_mod::lemma_fundamental_div_mod_converse(len + c - 1, c, j, len + c - 1 - j * c);
    }
}

impl RevA {
    /// Writes for one region (see [`region_writes_spec`]).
    #[verifier::rlimit(50)]
    pub fn region_writes(&self, x0: i32, y0: i32, x1: i32, y1: i32, data: &[u8]) -> (ws: Vec<Vec<u8>>)
        requires
            self.wf(),
            ({
                let d = oriented_dims(self.orientation, self.width, self.height);
                (imin(x1 as int, d.0 as int) > imax(x0 as int, 0) && imin(y1 as int, d.1 as int) > imax(y0 as int, 0))
                    ==> data@.len() == (x1 - x0) * (y1 - y0) * 2
            }),
        ensures
            packets_v(ws@) == region_writes_spec(
                oriented_dims(self.orientation, self.width, self.height).0 as int,
                oriented_dims(self.orientation, self.width, self.height).1 as int,
                x0 as int,
                y0 as int,
                x1 as int,
                y1 as int,
                data@,
            ),
    {
        let (dwu, dhu) = self.dims();
        let dw = dwu as i32;
        let dh = dhu as i32;
        let x0c = if x0 > 0 { x0 } else { 0 };
        let y0c = if y0 > 0 { y0 } else { 0 };
        let x1c = if x1 < dw { x1 } else { dw };
        let y1c = if y1 < dh { y1 } else { dh };
        if x1c <= x0c || y1c <= y0c {
            let ws: Vec<Vec<u8>> = Vec::new();
            assert(packets_v(ws@) =~= Seq::<Seq<u8>>::empty());
            return ws;
        }
        let fw64: i64 = x1 as i64 - x0 as i64;
        let fh64: i64 = y1 as i64 - y0 as i64;
        proof {
            assert(fw64 >= 1 && fh64 >= 1);
            assert(fw64 <= fw64 * fh64 * 2) by (nonlinear_arith)
                requires fw64 >= 1, fh64 >= 1;
            assert(fh64 <= fw64 * fh64 * 2) by (nonlinear_arith)
                requires fw64 >= 1, fh64 >= 1;
        }
        let fw = fw64 as usize;
        let fh = fh64 as usize;
        let ox = (x0c as i64 - x0 as i64) as usize;
        let oy = (y0c as i64 - y0 as i64) as usize;
        let cw = (x1c - x0c) as usize;
        let ch = (y1c - y0c) as usize;
        let payload = crop_payload(data, fw, fh, ox, oy, cw, ch);
        let mut ws: Vec<Vec<u8>> = Vec::new();
        ws.push(Self::command(Command::DisplayBitmap, x0c as u32, y0c as u32, (x1c - 1) as u32, (y1c - 1) as u32));
        let c: usize = dwu as usize * 8;
        let len = payload.len();
        let ghost chunks = chunks_of(payload@, c as int);
        let mut j: usize = 0;
        let mut at: usize = 0;
        assert(cw * ch * 2 <= 1024 * 1024 * 2) by (nonlinear_arith)
            requires cw <= 1024, ch <= 1024;
        while at < len
            invariant
                8 <= c <= 8192,
                len == payload@.len(),
                len <= 1024 * 1024 * 2,
                at == j * c,
                j <= at,
                j == 0 || (j - 1) * c < len,
                chunks == chunks_of(payload@, c as int),
                ws@.len() == j + 1,
                ws@[0]@ == command_bytes(197, x0c as u32, y0c as u32, (x1c - 1) as u32, (y1c - 1) as u32),
                forall|t: int| 0 <= t < j ==> (#[trigger] ws@[t + 1])@ == payload@.subrange(
                    t * c,
                    if (t + 1) * c < len { (t + 1) * c } else { len as int },
                ),
            decreases len + c - at,
        {
            let end = if len - at > c { at + c } else { len };
            let piece = copy_range(&payload, at, end);
            ws.push(piece);
            assert((j + 1) * c == at + c) by (nonlinear_arith)
                requires at == j * c;
            j = j + 1;
            at = at + c;
        }
        proof {
            lemma_chunk_count(len as int, c as int, j as int);
        }
        assert(packets_v(ws@) =~= region_writes_spec(
            dwu as int,
            dhu as int,
            x0 as int,
            y0 as int,
            x1 as int,
            y1 as int,
            data@,
        ));
        ws
    }
}

/// Color the simulator shows for an RGB565 word (low bits zero-filled).
pub open spec fn simu_rgb(v: int) -> Rgb {
    [(((v / 2048) % 32) * 8) as u8, (((v / 32) % 64) * 4) as u8, ((v % 32) * 8) as u8]
}

/// The simulator shows each RGB565 word as the one color that packs back
/// to that word with its unused low bits clear: red and blue are the
/// 5-bit fields times 8, green the 6-bit field times 4.
pub proof fn lemma_simu_color_packs_back(v: u16)
    ensures
        pack565(simu_rgb(v as int)[0], simu_rgb(v as int)[1], simu_rgb(v as int)[2]) == v,
        simu_rgb(v as int)[0] % 8 == 0,
        simu_rgb(v as int)[1] % 4 == 0,
        simu_rgb(v as int)[2] % 8 == 0,
{
    let r = (v as int / 2048) % 32;
    let g = (v as int / 32) % 64;
    let b = v as int % 32;
    assert(v as int == (v as int / 2048) * 2048 + g * 32 + b) by (nonlinear_arith)
        requires g == (v as int / 32) % 64, b == v as int % 32, 0 <= v <= 0xFFFF;
    assert(v as int / 2048 < 32) by (nonlinear_arith)
        requires 0 <= v <= 0xFFFF;
    assert(r == v as int / 2048);
    assert(simu_rgb(v as int)[0] == r * 8);
    assert(simu_rgb(v as int)[1] == g * 4);
    assert(simu_rgb(v as int)[2] == b * 8);
}

/// Little-endian 16-bit word at byte `i`.
pub open spec fn le_word(s: Seq<u8>, i: int) -> int {
    s[i] + s[i + 1] * 256
}

/// Message for a payload whose length does not match its region.
pub open spec fn mismatch_message(len: nat, w: nat, h: nat) -> Seq<char> {
    "region payload size mismatch: "@ + crate::fmt::dec(len) + " bytes for "@ + crate::fmt::dec(w) + "x"@
        + crate::fmt::dec(h)
}

/// What painting region `x0..x1` × `y0..y1` with payload `data` does to a
/// simulated panel `s0`, giving `s1` and the answer `r`: nothing when the
/// region misses the screen; an error and nothing painted when the payload
/// does not hold one RGB565 word per pixel of the uncropped region;
/// otherwise each on-screen pixel shows the color of its word.
pub open spec fn simu_after_region(
    s0: Simu,
    s1: Simu,
    x0: i32,
    y0: i32,
    x1: i32,
    y1: i32,
    data: Seq<u8>,
    r: Result<(), String>,
) -> bool {
    let d = oriented_dims(s0.orientation, s0.width, s0.height);
    let x0c = imax(x0 as int, 0);
    let y0c = imax(y0 as int, 0);
    let x1c = imin(x1 as int, d.0 as int);
    let y1c = imin(y1 as int, d.1 as int);
    let fw = x1 - x0;
    let fh = y1 - y0;
    if x1c <= x0c || y1c <= y0c {
        r is Ok && s1.img == s0.img
    } else if data.len() != fw * fh * 2 {
        (r matches Err(e) && e@ == mismatch_message(data.len(), fw as nat, fh as nat)) && s1.img == s0.img
    } else {
        &&& r is Ok
        &&& forall|x: int, y: int| s1.img.contains(x, y) ==> #[trigger] s1.img.at(x, y) == if x0c <= x < x1c && y0c
            <= y < y1c {
            simu_rgb(le_word(data, ((y - y0) * fw + (x - x0)) * 2))
        } else {
            s0.img.at(x, y)
        }
    }
}

/// The simulated panel shows what a Rev A panel is sent: after painting a
/// region on the simulator, every on-screen pixel packs back to the RGB565
/// word that the Rev A writes for the same region carry for that pixel
/// (low byte then high byte, in the pieces after the bitmap command).
pub proof fn lemma_simu_shows_what_rev_a_sends(
    s0: Simu,
    s1: Simu,
    x0: i32,
    y0: i32,
    x1: i32,
    y1: i32,
    data: Seq<u8>,
    r: Result<(), String>,
    cx: int,
    cy: int,
)
    requires
        s0.wf(),
        s1.wf(),
        s1.orientation == s0.orientation && s1.width == s0.width && s1.height == s0.height,
        simu_after_region(s0, s1, x0, y0, x1, y1, data, r),
        data.len() == (x1 - x0) * (y1 - y0) * 2,
        ({
            let d = oriented_dims(s0.orientation, s0.width, s0.height);
            imax(x0 as int, 0) <= cx < imin(x1 as int, d.0 as int) && imax(y0 as int, 0) <= cy < imin(
                y1 as int,
                d.1 as int,
            )
        }),
    ensures
        ({
            let d = oriented_dims(s0.orientation, s0.width, s0.height);
            let w = region_writes_spec(d.0 as int, d.1 as int, x0 as int, y0 as int, x1 as int, y1 as int, data);
            let cw = imin(x1 as int, d.0 as int) - imax(x0 as int, 0);
            let k = ((cy - imax(y0 as int, 0)) * cw + (cx - imax(x0 as int, 0))) * 2;
            let c = d.0 * 8;
            &&& r is Ok
            &&& pack565(s1.img.at(cx, cy)[0], s1.img.at(cx, cy)[1], s1.img.at(cx, cy)[2]) as int == w[1 + k / c][k
                % c] + w[1 + (k + 1) / c][(k + 1) % c] * 256
        }),
{
    let d = oriented_dims(s0.orientation, s0.width, s0.height);
    let dw = d.0 as int;
    let dh = d.1 as int;
    let fw = x1 - x0;
    lemma_region_writes_carry_pixels(dw, dh, x0 as int, y0 as int, x1 as int, y1 as int, data, cx, cy, 0, 1);
    lemma_region_writes_carry_pixels(dw, dh, x0 as int, y0 as int, x1 as int, y1 as int, data, cx, cy, 1, 1);
    let idx = ((cy - y0) * fw + (cx - x0)) * 2;
    assert(s1.img.contains(cx, cy));
    let v = le_word(data, idx);
    assert(0 <= v <= 0xFFFF);
    assert(s1.img.at(cx, cy) == simu_rgb(v));
    lemma_simu_color_packs_back(v as u16);
}

/// Simulated panel: regions are painted into an RGB image.
pub struct Simu {
    /// Native portrait width.
    pub width: u32,
    /// Native portrait height.
    pub height: u32,
    pub orientation: Orientation,
    /// What the panel shows, in the current orientation.
    pub img: RgbCanvas,
}

fn simu_color(lo: u8, hi: u8) -> (c: Rgb)
    ensures
        c == simu_rgb(lo + hi * 256),
{
    let v: u16 = lo as u16 | ((hi as u16) << 8);
    assert(v == lo + hi * 256) by (bit_vector)
        requires v == lo as u16 | ((hi as u16) << 8);
    let r = (((v >> 11) & 0x1F) as u8) << 3;
    let g = (((v >> 5) & 0x3F) as u8) << 2;
    let b = ((v & 0x1F) as u8) << 3;
    assert(r == (((v / 2048) % 32) * 8) as u8 && g == (((v / 32) % 64) * 4) as u8 && b == ((v % 32) * 8) as u8)
        by (bit_vector)
        requires
            r == (((v >> 11) & 0x1F) as u8) << 3,
            g == (((v >> 5) & 0x3F) as u8) << 2,
            b == ((v & 0x1F) as u8) << 3,
    ;
    [r, g, b]
}

impl Simu {
    /// The image has the panel's size in the current orientation.
    pub open spec fn wf(&self) -> bool {
        &&& self.img.wf()
        &&& (self.img.w, self.img.h) == oriented_dims(self.orientation, self.width, self.height)
        &&& self.width as int * self.height as int * 3 <= u32::MAX
    }

    /// A white `width`×`height` simulated panel in portrait.
    pub fn new(width: u32, height: u32) -> (s: Simu)
        requires
            width as int * height as int * 3 <= u32::MAX,
        ensures
            s.wf(),
            s.width == width && s.height == height,
            s.orientation == Orientation::Portrait,
            forall|x: int, y: int| s.img.contains(x, y) ==> #[trigger] s.img.at(x, y) == [255u8, 255u8, 255u8],
    {
        Simu { width, height, orientation: Orientation::Portrait, img: RgbCanvas::new(width, height, [255, 255, 255]) }
    }

    /// Width and height in the current orientation.
    pub fn dims(&self) -> (d: (u32, u32))
        ensures
            d == oriented_dims(self.orientation, self.width, self.height),
    {
        match self.orientation {
            Orientation::Portrait | Orientation::ReversePortrait => (self.width, self.height),
            Orientation::Landscape | Orientation::ReverseLandscape => (self.height, self.width),
        }
    }

    /// Blanks the panel to white.
    pub fn clear(&mut self)
        requires
            old(self).wf(),
        ensures
            final(self).wf(),
            final(self).width == old(self).width && final(self).height == old(self).height,
            final(self).orientation == old(self).orientation,
            forall|x: int, y: int| final(self).img.contains(x, y) ==> #[trigger] final(self).img.at(x, y) == [
                255u8,
                255u8,
                255u8,
            ],
    {
        let (w, h) = self.dims();
        assert(w as int * h as int == self.width as int * self.height as int) by (nonlinear_arith)
            requires (w == self.width && h == self.height) || (w == self.height && h == self.width);
        self.img = RgbCanvas::new(w, h, [255, 255, 255]);
    }

    /// Turns the panel to orientation `o`; the image restarts white.
    pub fn set_orientation(&mut self, o: Orientation)
        requires
            old(self).wf(),
        ensures
            final(self).wf(),
            final(self).width == old(self).width && final(self).height == old(self).height,
            final(self).orientation == o,
            forall|x: int, y: int| final(self).img.contains(x, y) ==> #[trigger] final(self).img.at(x, y) == [
                255u8,
                255u8,
                255u8,
            ],
    {
        self.orientation = o;
        let (w, h) = self.dims();
        assert(w as int * h as int == self.width as int * self.height as int) by (nonlinear_arith)
            requires (w == self.width && h == self.height) || (w == self.height && h == self.width);
        self.img = RgbCanvas::new(w, h, [255, 255, 255]);
    }

    /// Paints an RGB565LE region `x0..x1` × `y0..y1` (cropped to the
    /// panel). The payload must match the uncropped region exactly.
    pub fn send_region(&mut self, x0: i32, y0: i32, x1: i32, y1: i32, data: &[u8]) -> (r: Result<(), String>)
        requires
            old(self).wf(),
        ensures
            final(self).wf(),
            final(self).width == old(self).width && final(self).height == old(self).height,
            final(self).orientation == old(self).orientation,
            simu_after_region(*old(self), *final(self), x0, y0, x1, y1, data@, r),
    {
        let (dwu, dhu) = self.dims();
        let dw = dwu as i64;
        let dh = dhu as i64;
        let x0c: i64 = if x0 > 0 { x0 as i64 } else { 0 };
        let y0c: i64 = if y0 > 0 { y0 as i64 } else { 0 };
        let x1c: i64 = if (x1 as i64) < dw { x1 as i64 } else { dw };
        let y1c: i64 = if (y1 as i64) < dh { y1 as i64 } else { dh };
        if x1c <= x0c || y1c <= y0c {
            return Ok(());
        }
        let fw: i64 = x1 as i64 - x0 as i64;
        let fh: i64 = y1 as i64 - y0 as i64;
        let n = data.len();
        assert(fw * fh <= 0x1_0000_0000 * 0x1_0000_0000) by (nonlinear_arith)
            requires 0 < fw <= 0x1_0000_0000, 0 < fh <= 0x1_0000_0000;
        if n as u128 != fw as u128 * fh as u128 * 2 {
            let mut m = String::from_str("region payload size mismatch: ");
            crate::fmt::push_dec(&mut m, n as u64);
            m.append(" bytes for ");
            crate::fmt::push_dec(&mut m, fw as u64);
            m.append("x");
            crate::fmt::push_dec(&mut m, fh as u64);
            return Err(m);
        }
        let ghost old_img = self.img;
        let mut y: i64 = y0c;
        while y < y1c
            invariant
                y0c <= y <= y1c,
                0 <= x0c < x1c <= dw,
                0 <= y0c < y1c <= dh,
                x0c == imax(x0 as int, 0) && y0c == imax(y0 as int, 0),
                fw == x1 - x0 && fh == y1 - y0,
                x1c <= x1 && y1c <= y1,
                n == data@.len(),
                n == fw * fh * 2,
                self.wf(),
                self.width == old(self).width && self.height == old(self).height,
                self.orientation == old(self).orientation,
                dw == self.img.w && dh == self.img.h,
                old_img == old(self).img,
                forall|a: int, b: int| self.img.contains(a, b) ==> #[trigger] self.img.at(a, b) == if x0c <= a < x1c
                    && y0c <= b < y {
                    simu_rgb(le_word(data@, ((b - y0) * fw + (a - x0)) * 2))
                } else {
                    old_img.at(a, b)
                },
            decreases y1c - y,
        {
            let mut x: i64 = x0c;
            while x < x1c
                invariant
                    y0c <= y < y1c,
                    x0c <= x <= x1c,
                    0 <= x0c < x1c <= dw,
                    0 <= y0c < y1c <= dh,
                    x0c == imax(x0 as int, 0) && y0c == imax(y0 as int, 0),
                    fw == x1 - x0 && fh == y1 - y0,
                    x1c <= x1 && y1c <= y1,
                    n == data@.len(),
                    n == fw * fh * 2,
                    self.wf(),
                    self.width == old(self).width && self.height == old(self).height,
                    self.orientation == old(self).orientation,
                    dw == self.img.w && dh == self.img.h,
                    old_img == old(self).img,
                    forall|a: int, b: int| self.img.contains(a, b) ==> #[trigger] self.img.at(a, b) == if x0c <= a
                        < x1c && (y0c <= b < y || (b == y && a < x)) {
                        simu_rgb(le_word(data@, ((b - y0) * fw + (a - x0)) * 2))
                    } else {
                        old_img.at(a, b)
                    },
                decreases x1c - x,
            {
                proof {
                    assert((y - y0) * fw + fw <= fh * fw) by (nonlinear_arith)
                        requires y - y0 < fh, 0 <= fw;
                    assert(0 <= (y - y0) * fw) by (nonlinear_arith)
                        requires 0 <= y - y0, 0 <= fw;
                    assert(fh * fw == fw * fh) by (nonlinear_arith);
                }
                let si = ((((y - y0 as i64) as u128) * (fw as u128) + ((x - x0 as i64) as u128)) * 2) as usize;
                let c = simu_color(data[si], data[si + 1]);
                self.img.set(x as i32, y as i32, c);
                x = x + 1;
            }
            y = y + 1;
        }
        Ok(())
    }
}

} // verus!
