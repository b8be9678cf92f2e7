//! Decisions of the display daemon: command-line overrides, orientation
//! mapping, power-event handling and what each frame sends.

use vstd::prelude::*;
use crate::config;
use crate::display::{DisplayOp, Orientation};
use crate::framebuf::{ceil_div, clip, dirty_tiles, max_int, region_bytes, Framebuf, Rect};

verus! {

/// Tile width of the frame diff (device pixels).
pub const TILE_W: u32 = 64;

/// Tile height of the frame diff (device pixels).
pub const TILE_H: u32 = 32;

/// Daemon options from the command line.
pub struct DaemonArgs {
    /// `--com`: serial port overriding the configured one.
    pub com_override: Option<String>,
    /// Render tick in milliseconds.
    pub tick_ms: u64,
    /// `--send-test`: paint the static layer and one frame, then leave it.
    pub test_once: bool,
    /// `--no-tray`: no tray icon.
    pub no_tray: bool,
}

impl DaemonArgs {
    /// Serial port to open: the override when given, else `configured`.
    pub fn com_port<'a>(&'a self, configured: &'a str) -> (p: &'a str)
        ensures
            p@ == (match self.com_override {
                Some(c) => c@,
                None => configured@,
            }),
    {
        match &self.com_override {
            Some(c) => c.as_str(),
            None => configured,
        }
    }
}

/// Panel orientation for a theme orientation.
pub fn display_orientation(o: config::Orientation) -> (d: Orientation)
    ensures
        o == config::Orientation::Portrait ==> d == Orientation::Portrait,
        o == config::Orientation::ReversePortrait ==> d == Orientation::ReversePortrait,
        o == config::Orientation::Landscape ==> d == Orientation::Landscape,
        o == config::Orientation::ReverseLandscape ==> d == Orientation::ReverseLandscape,
{
    match o {
        config::Orientation::Portrait => Orientation::Portrait,
        config::Orientation::ReversePortrait => Orientation::ReversePortrait,
        config::Orientation::Landscape => Orientation::Landscape,
        config::Orientation::ReverseLandscape => Orientation::ReverseLandscape,
    }
}

/// Operating-system power and session events.
#[derive(Debug, Clone, Copy, PartialEq, Eq, Structural)]
pub enum PowerEvent {
    Suspend,
    Resume,
    Shutdown,
}

/// State of the render loop between ticks.
pub struct RenderLoop {
    /// The next frame is sent whole (after a resume).
    pub force_full: bool,
    /// The loop ends before the next frame.
    pub stopping: bool,
}

/// The operation that carries region `r` of `fb`.
pub open spec fn region_op_spec(fb: Framebuf, r: Rect, data: Seq<u8>) -> bool {
    let (x0, y0, x1, y1) = clip(r, fb.w, fb.h);
    data == region_bytes(fb, x0, y0, x1, y1)
}

/// Region `r` of the framebuffer as a dispatcher work item (the payload
/// covers the part of `r` inside the buffer).
pub fn region_op(r: &Rect, fb: &Framebuf) -> (op: DisplayOp)
    requires
        fb.wf(),
        ({
            let (x0, y0, x1, y1) = clip(*r, fb.w, fb.h);
            &&& x1 - x0 >= i32::MIN
            &&& y1 - y0 >= i32::MIN
            &&& max_int(x1 - x0, 0) * max_int(y1 - y0, 0) * 2 <= i32::MAX
        }),
    ensures
        op matches DisplayOp::Region { x0, y0, x1, y1, data } && x0 == r.x0 && y0 == r.y0 && x1 == r.x1 && y1
            == r.y1 && region_op_spec(*fb, *r, data@),
{
    let mut data: Vec<u8> = Vec::new();
    fb.region_rgb565le(r, &mut data);
    DisplayOp::Region { x0: r.x0, y0: r.y0, x1: r.x1, y1: r.y1, data }
}

impl RenderLoop {
    /// Loop state at start: incremental frames, running.
    pub fn new() -> (s: RenderLoop)
        ensures
            !s.force_full && !s.stopping,
    {
        RenderLoop { force_full: false, stopping: false }
    }

    /// Reacts to a power event: a suspend switches the panel off, a resume
    /// switches it on and asks for a full repaint, a session end stops.
    pub fn on_power(&mut self, ev: PowerEvent) -> (op: Option<DisplayOp>)
        ensures
            ev == PowerEvent::Suspend ==> (op matches Some(DisplayOp::ScreenOff) && final(self).force_full
                == old(self).force_full && final(self).stopping == old(self).stopping),
            ev == PowerEvent::Resume ==> (op matches Some(DisplayOp::ScreenOn) && final(self).force_full
                && final(self).stopping == old(self).stopping),
            ev == PowerEvent::Shutdown ==> (op is None && final(self).stopping && final(self).force_full
                == old(self).force_full),
    {
        match ev {
            PowerEvent::Suspend => Some(DisplayOp::ScreenOff),
            PowerEvent::Resume => {
                self.force_full = true;
                Some(DisplayOp::ScreenOn)
            },
            PowerEvent::Shutdown => {
                self.stopping = true;
                None
            },
        }
    }

    /// Rectangles to send for the frame in `fb`: the whole buffer once
    /// after a resume, otherwise the tiles that changed since `last_sent`.
    pub fn frame_tiles(&mut self, fb: &Framebuf, last_sent: &[u16]) -> (out: Vec<Rect>)
        requires
            fb.wf(),
            ceil_div(fb.w as int, TILE_W as int) * TILE_W <= u32::MAX,
            ceil_div(fb.h as int, TILE_H as int) * TILE_H <= u32::MAX,
        ensures
            !final(self).force_full,
            final(self).stopping == old(self).stopping,
            old(self).force_full ==> out@ == seq![Rect { x0: 0, y0: 0, x1: fb.w as i32, y1: fb.h as i32 }],
            !old(self).force_full && last_sent@.len() == fb@.len() ==> out@ == dirty_tiles(
                *fb,
                last_sent@,
                TILE_W as int,
                TILE_H as int,
                ceil_div(fb.w as int, TILE_W as int),
                ceil_div(fb.h as int, TILE_H as int),
            ),
            !old(self).force_full && last_sent@.len() != fb@.len() ==> out@ == seq![
                Rect { x0: 0, y0: 0, x1: fb.w as i32, y1: fb.h as i32 },
            ],
    {
        if self.force_full {
            self.force_full = false;
            let mut out: Vec<Rect> = Vec::new();
            out.push(Rect::new(0, 0, fb.w as i32, fb.h as i32));
            assert(out@ =~= seq![Rect { x0: 0, y0: 0, x1: fb.w as i32, y1: fb.h as i32 }]);
            out
        } else {
            fb.changed_tiles(last_sent, TILE_W, TILE_H)
        }
    }
}

} // verus!
