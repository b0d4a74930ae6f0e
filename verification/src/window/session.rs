//! A run for a user.
use vstd::prelude::*;

use crate::window::model::{CloseCause, Event, EventView, Key};

verus! {

/// The key that takes the cursor or gives it back.
pub const KEY_C: Key = 8;

/// The key that sets the title.
pub const KEY_T: Key = 17;

/// The key that gives the cursor back.
pub const KEY_ESC: Key = 53;

/// How soon after a request to close another confirms it, in nanoseconds.
pub const CONFIRM_WITHIN: u64 = 2_000_000_000;

/// A run for a user: whether it has the cursor, and when it was last asked to close.
#[derive(Clone, Copy, Debug, PartialEq, Eq)]
pub struct Session {
    pub captured: bool,
    pub last_close: Option<u64>,
}

/// What an event makes the program do.
#[derive(Clone, Copy, Debug, PartialEq, Eq, Structural)]
pub enum Act {
    Nothing,
    CaptureCursor(bool),
    SetTitle,
    /// The request to close is declined: another soon after confirms it.
    Decline(CloseCause),
    Exit(CloseCause),
}

/// What an event at a time makes the program do, and what it is like after it.
pub open spec fn responds(s: Session, e: EventView, now: u64) -> (Session, Act) {
    match e {
        EventView::KeyDown(k) => if k == KEY_C {
            (Session { captured: !s.captured, ..s }, Act::CaptureCursor(!s.captured))
        } else if k == KEY_ESC && s.captured {
            (Session { captured: false, ..s }, Act::CaptureCursor(false))
        } else if k == KEY_T {
            (s, Act::SetTitle)
        } else {
            (s, Act::Nothing)
        },
        EventView::CloseRequested(cause) => match s.last_close {
            Some(t) => if now - t < CONFIRM_WITHIN {
                (s, Act::Exit(cause))
            } else {
                (Session { last_close: Some(now), ..s }, Act::Decline(cause))
            },
            None => (Session { last_close: Some(now), ..s }, Act::Decline(cause)),
        },
        _ => (s, Act::Nothing),
    }
}

impl Session {
    /// A run that has just begun.
    pub fn new() -> (s: Session)
        ensures
            s == (Session { captured: false, last_close: None }),
    {
        Session { captured: false, last_close: None }
    }

    /// What an event makes the program do.
    pub fn on(&mut self, e: &Event, now: u64) -> (act: Act)
        ensures
            (*final(self), act) == responds(*old(self), e@, now),
    {
        match e {
            Event::KeyDown(k) => if *k == KEY_C {
                self.captured = !self.captured;
                Act::CaptureCursor(self.captured)
            } else if *k == KEY_ESC && self.captured {
                self.captured = false;
                Act::CaptureCursor(false)
            } else if *k == KEY_T {
                Act::SetTitle
            } else {
                Act::Nothing
            },
            Event::CloseRequested(cause) => {
                match self.last_close {
                    Some(t) => {
                        if now < t || now - t < CONFIRM_WITHIN {
                            return Act::Exit(*cause);
                        }
                    },
                    None => {},
                }
                self.last_close = Some(now);
                Act::Decline(*cause)
            },
            _ => Act::Nothing,
        }
    }
}

/// One request to close never ends the run, and a second soon after it does.
pub proof fn closing_takes_two(s: Session, first: CloseCause, second: CloseCause, at: u64, again: u64)
    requires
        s.last_close is None,
        at <= again < at + CONFIRM_WITHIN,
    ensures
        responds(s, EventView::CloseRequested(first), at).1 == Act::Decline(first),
        responds(responds(s, EventView::CloseRequested(first), at).0, EventView::CloseRequested(second), again).1
            == Act::Exit(second),
{
}

} // verus!
