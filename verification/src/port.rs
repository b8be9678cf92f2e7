//! The screen's serial port: which listed port is the screen, and the
//! policy for (re)opening it (ten attempts one second apart, the port
//! detected again at every attempt when it is configured as `AUTO`; the
//! screen resets on startup, so its port can vanish for seconds).

use vstd::prelude::*;
use vstd::string::StringExecFns;
use crate::text::str_eq;

verus! {

/// Serial number the screen reports on USB.
pub const SCREEN_SERIAL: &'static str = "USB35INCHIPSV2";

/// USB vendor and product id of the screen's serial bridge.
pub const SCREEN_VID: u16 = 0x1a86;
pub const SCREEN_PID: u16 = 0x5722;

/// Attempts made to open the port before giving up.
pub const OPEN_ATTEMPTS: u32 = 10;

/// A serial port as the system lists it; `usb` is `None` for a port that
/// is not on USB, else its serial number (when it has one), vendor id and
/// product id.
pub struct PortEntry {
    pub name: String,
    pub usb: Option<(Option<String>, u16, u16)>,
}

/// The port is the screen: a USB port with the screen's serial number, or
/// with its vendor and product id.
pub open spec fn is_screen(p: PortEntry) -> bool {
    match p.usb {
        Some((serial, vid, pid)) => (serial matches Some(s) && s@ == SCREEN_SERIAL@) || (vid == SCREEN_VID
            && pid == SCREEN_PID),
        None => false,
    }
}

/// Name of the first listed port that is the screen.
pub fn pick_screen_port(ports: &Vec<PortEntry>) -> (r: Option<String>)
    ensures
        match r {
            Some(name) => exists|i: int|
                0 <= i < ports@.len() && is_screen(#[trigger] ports@[i]) && name@ == ports@[i].name@ && forall|j: int|
                    0 <= j < i ==> !is_screen(#[trigger] ports@[j]),
            None => forall|j: int| 0 <= j < ports@.len() ==> !is_screen(#[trigger] ports@[j]),
        },
{
    let mut i: usize = 0;
    while i < ports.len()
        invariant
            i <= ports@.len(),
            forall|j: int| 0 <= j < i ==> !is_screen(#[trigger] ports@[j]),
        decreases ports@.len() - i,
    {
        let p = &ports[i];
        let hit = match &p.usb {
            Some((serial, vid, pid)) => {
                let by_serial = match serial {
                    Some(s) => str_eq(s.as_str(), SCREEN_SERIAL),
                    None => false,
                };
                by_serial || (*vid == SCREEN_VID && *pid == SCREEN_PID)
            },
            None => false,
        };
        if hit {
            assert(is_screen(ports@[i as int]));
            return Some(p.name.clone());
        }
        i = i + 1;
    }
    None
}

/// What (re)opening the port does next.
pub enum OpenAction {
    /// Look for the screen among the listed ports.
    Detect,
    /// Open the named port.
    Open(String),
    /// Wait one second before the next attempt.
    Wait,
    /// Give up with this message.
    Fail(String),
    /// The port is open.
    Done,
}

/// What happened since the last action.
pub enum OpenEvent {
    /// Opening starts.
    Start,
    /// Detection found this port, or none.
    Detected(Option<String>),
    /// Opening the port succeeded or failed.
    Opened(bool),
    /// The wait is over.
    Waited,
}

/// Progress of (re)opening the port configured as `com_port`: `attempt`
/// is the number of the attempt under way (from 1).
pub struct OpenRetry {
    pub com_port: String,
    pub attempt: u32,
}

/// Abstract form of an action.
pub enum OpenActionV {
    Detect,
    Open(Seq<char>),
    Wait,
    Fail(Seq<char>),
    Done,
}

pub open spec fn action_v(a: OpenAction) -> OpenActionV {
    match a {
        OpenAction::Detect => OpenActionV::Detect,
        OpenAction::Open(p) => OpenActionV::Open(p@),
        OpenAction::Wait => OpenActionV::Wait,
        OpenAction::Fail(m) => OpenActionV::Fail(m@),
        OpenAction::Done => OpenActionV::Done,
    }
}

/// The message when every attempt failed.
pub open spec fn give_up_message(com_port: Seq<char>) -> Seq<char> {
    "cannot open COM port "@ + com_port
        + " after 10 attempts; run configure and select the port manually"@
}

/// How an attempt begins: give up after the last one, else look for the
/// port (configured `AUTO`) or open the configured one.
pub open spec fn begin_attempt(com_port: Seq<char>, attempt: u32) -> OpenActionV {
    if attempt > OPEN_ATTEMPTS {
        OpenActionV::Fail(give_up_message(com_port))
    } else if com_port == "AUTO"@ {
        OpenActionV::Detect
    } else {
        OpenActionV::Open(com_port)
    }
}

/// Next attempt number and action after `ev` in attempt `attempt`: a
/// detected port is opened, a failed detection or opening waits, a wait
/// begins the next attempt (after the last one it stays there), a
/// successful opening ends.
pub open spec fn open_step(com_port: Seq<char>, attempt: u32, ev: OpenEvent) -> (int, OpenActionV) {
    match ev {
        OpenEvent::Start => (attempt as int, begin_attempt(com_port, attempt)),
        OpenEvent::Detected(Some(p)) => (attempt as int, OpenActionV::Open(p@)),
        OpenEvent::Detected(None) => (attempt as int, OpenActionV::Wait),
        OpenEvent::Opened(ok) => (attempt as int, if ok { OpenActionV::Done } else { OpenActionV::Wait }),
        OpenEvent::Waited => {
            let next = if attempt <= OPEN_ATTEMPTS { attempt + 1 } else { attempt as int };
            (next, begin_attempt(com_port, next as u32))
        },
    }
}

impl OpenRetry {
    /// State well-formed: the attempt under way is at most one past the last.
    pub open spec fn wf(&self) -> bool {
        1 <= self.attempt <= OPEN_ATTEMPTS + 1
    }

    /// Opening the port configured as `com_port` starts at attempt 1.
    pub fn new(com_port: String) -> (s: OpenRetry)
        ensures
            s.wf(),
            s.com_port@ == com_port@,
            s.attempt == 1,
    {
        OpenRetry { com_port, attempt: 1 }
    }

    fn begin(&self, attempt: u32) -> (a: OpenAction)
        ensures
            action_v(a) == begin_attempt(self.com_port@, attempt),
    {
        if attempt > OPEN_ATTEMPTS {
            let mut m = String::from_str("cannot open COM port ");
            m.append(self.com_port.as_str());
            m.append(" after 10 attempts; run configure and select the port manually");
            OpenAction::Fail(m)
        } else if str_eq(self.com_port.as_str(), "AUTO") {
            OpenAction::Detect
        } else {
            OpenAction::Open(self.com_port.clone())
        }
    }

    /// The action after `ev`. Waiting after the last attempt gives up.
    pub fn step(&mut self, ev: OpenEvent) -> (a: OpenAction)
        requires
            old(self).wf(),
        ensures
            final(self).wf(),
            final(self).com_port@ == old(self).com_port@,
            (final(self).attempt as int, action_v(a)) == open_step(old(self).com_port@, old(self).attempt, ev),
    {
        match ev {
            OpenEvent::Start => self.begin(self.attempt),
            OpenEvent::Detected(Some(p)) => OpenAction::Open(p),
            OpenEvent::Detected(None) => OpenAction::Wait,
            OpenEvent::Opened(ok) => if ok {
                OpenAction::Done
            } else {
                OpenAction::Wait
            },
            OpenEvent::Waited => {
                if self.attempt <= OPEN_ATTEMPTS {
                    self.attempt = self.attempt + 1;
                }
                self.begin(self.attempt)
            },
        }
    }
}

/// The port is tried ten times, never more: within the first ten attempts
/// a failed detection or opening is followed by a wait, and the wait that
/// follows gives up exactly when the failed attempt was the tenth; until
/// then it starts the next attempt.
pub proof fn lemma_ten_attempts(com_port: Seq<char>, attempt: u32)
    requires
        1 <= attempt <= OPEN_ATTEMPTS,
    ensures
        open_step(com_port, attempt, OpenEvent::Opened(false)) == (attempt as int, OpenActionV::Wait),
        open_step(com_port, attempt, OpenEvent::Detected(None)) == (attempt as int, OpenActionV::Wait),
        open_step(com_port, attempt, OpenEvent::Start).1 !is Fail,
        open_step(com_port, attempt, OpenEvent::Waited).0 == attempt + 1,
        open_step(com_port, attempt, OpenEvent::Waited).1 is Fail <==> attempt == OPEN_ATTEMPTS,
{
}

} // verus!
