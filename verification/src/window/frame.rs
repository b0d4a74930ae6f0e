//! Frames, each handed to the program at a refresh of the display.
use vstd::prelude::*;

use crate::window::keys::{held_after, tells};
use crate::window::model::{events_of, in_order, keys_in_order, AppError, Event, Key, Pending};
use crate::window::story::held_keys_are_in_order;

verus! {

/// With no refresh for so many nanoseconds a frame comes anyway: a hidden window's display
/// does not refresh, and a program that does anything else must not stop with it.
pub const NO_TICK_FALLBACK: u64 = 100_000_000;

/// How far the program has come in the refreshes.
#[derive(Clone, Copy, Debug, PartialEq, Eq, Structural)]
pub struct FrameCursor {
    pub seen_seq: u64,
}

impl FrameCursor {
    /// No refresh has been seen.
    pub fn new() -> (c: FrameCursor)
        ensures
            c.seen_seq == 0,
    {
        FrameCursor { seen_seq: 0 }
    }
}

/// What a program gets at a refresh: how many there have been since the last one, which is 0
/// where none came, the size to draw, the keys held, smallest first, and what happened.
#[derive(Debug)]
pub struct Frame {
    pub ticks: u64,
    pub width: u32,
    pub height: u32,
    pub held: Vec<Key>,
    pub mouse_events_summed: u32,
    pub events: Vec<Event>,
    pub worker_was_waiting: bool,
}

impl Frame {
    /// The refreshes that came between the last frame and this one, and that no frame was
    /// made for.
    pub fn missed_ticks(&self) -> (n: u64)
        ensures
            n == (if self.ticks > 1 {
                self.ticks - 1
            } else {
                0
            }),
    {
        if self.ticks > 1 {
            self.ticks - 1
        } else {
            0
        }
    }

    /// Whether the frame is drawn, where frames are drawn at all: only after a refresh, since
    /// what a hidden window is drawn into can be long in coming.
    pub fn is_drawn(&self, render: bool) -> (yes: bool)
        ensures
            yes == (render && self.ticks > 0),
    {
        render && self.ticks > 0
    }
}

impl Pending {
    /// How long to wait for the next refresh, if at all: there is none to wait for once one
    /// has come, the window has closed, or enough time has passed.
    pub fn wait(&mut self, cursor: &FrameCursor, elapsed: u64) -> (left: Option<u64>)
        ensures
            left == (if old(self).tick_seq == cursor.seen_seq && old(self).window_open && elapsed < NO_TICK_FALLBACK {
                Some((NO_TICK_FALLBACK - elapsed) as u64)
            } else {
                None
            }),
            left is Some ==> left->0 + elapsed == 100_000_000,
            left is None <==> old(self).tick_seq != cursor.seen_seq || !old(self).window_open || elapsed >= 100_000_000,
            final(self).worker_waiting == (left is Some),
            final(self).tick_seq == old(self).tick_seq,
            final(self).held@ == old(self).held@,
            final(self).mouse_events == old(self).mouse_events,
            final(self).events == old(self).events,
            final(self).width == old(self).width,
            final(self).height == old(self).height,
            final(self).window_open == old(self).window_open,
    {
        if self.tick_seq == cursor.seen_seq && self.window_open && elapsed < NO_TICK_FALLBACK {
            self.worker_waiting = true;
            Some(NO_TICK_FALLBACK - elapsed)
        } else {
            self.worker_waiting = false;
            None
        }
    }

    /// Hands over everything since the last frame, unless the window has closed.
    /// `was_waiting` is whether no refresh had come when the frame was asked for.
    pub fn next_frame(&mut self, cursor: &mut FrameCursor, was_waiting: bool) -> (r: Result<Frame, AppError>)
        requires
            old(cursor).seen_seq <= old(self).tick_seq,
        ensures
            !final(self).worker_waiting,
            final(self).tick_seq == old(self).tick_seq,
            final(self).held@ == old(self).held@,
            final(self).width == old(self).width,
            final(self).height == old(self).height,
            final(self).window_open == old(self).window_open,
            match r {
                Ok(f) => {
                    &&& old(self).window_open
                    &&& f.ticks == old(self).tick_seq - old(cursor).seen_seq
                    &&& f.width == old(self).width
                    &&& f.height == old(self).height
                    &&& f.held@ == in_order(old(self).held@)
                    &&& f.mouse_events_summed == old(self).mouse_events
                    &&& f.events == old(self).events
                    &&& f.worker_was_waiting == was_waiting
                    &&& final(cursor).seen_seq == old(self).tick_seq
                    &&& final(cursor).seen_seq == old(cursor).seen_seq + f.ticks
                    &&& forall|s: Set<Key>, k: Key|
                        #![trigger held_after(s, events_of(f.events@)).contains(k)]
                        tells(s, old(self).held@, events_of(old(self).events@)) ==> (f.held@.contains(k) <==> held_after(
                            s,
                            events_of(f.events@),
                        ).contains(k))
                    &&& final(self).mouse_events == 0
                    &&& final(self).events@.len() == 0
                },
                Err(e) => {
                    &&& !old(self).window_open
                    &&& e == AppError::WindowGone
                    &&& *final(cursor) == *old(cursor)
                    &&& final(self).mouse_events == old(self).mouse_events
                    &&& final(self).events == old(self).events
                },
            },
    {
        self.worker_waiting = false;
        if !self.window_open {
            return Err(AppError::WindowGone);
        }
        let mut events: Vec<Event> = Vec::new();
        std::mem::swap(&mut self.events, &mut events);
        let frame = Frame {
            ticks: self.tick_seq - cursor.seen_seq,
            width: self.width,
            height: self.height,
            held: keys_in_order(&self.held),
            mouse_events_summed: self.mouse_events,
            events,
            worker_was_waiting: was_waiting,
        };
        self.mouse_events = 0;
        cursor.seen_seq = self.tick_seq;
        proof {
            assert forall|k: Key| #[trigger] in_order(old(self).held@).contains(k) <==> old(self).held@.contains(k) by {
                held_keys_are_in_order(old(self).held@, k);
            }
        }
        Ok(frame)
    }
}

/// The size of what is drawn into, which follows the frames.
#[derive(Clone, Copy, Debug, PartialEq, Eq, Structural)]
pub struct Drawables {
    pub width: u32,
    pub height: u32,
    pub resizes: u32,
}

impl Drawables {
    /// Takes on a frame's size, unless that is no size at all: whether it has changed.
    pub fn follow(&mut self, width: u32, height: u32) -> (changed: bool)
        requires
            old(self).resizes < u32::MAX,
        ensures
            changed == ((width != old(self).width || height != old(self).height) && width > 0 && height > 0),
            *final(self) == (if changed {
                Drawables { width, height, resizes: (old(self).resizes + 1) as u32 }
            } else {
                *old(self)
            }),
    {
        if (width != self.width || height != self.height) && width > 0 && height > 0 {
            self.width = width;
            self.height = height;
            self.resizes = self.resizes + 1;
            true
        } else {
            false
        }
    }
}

/// How long a frame waited for what it was drawn into, in nanoseconds, and how large that
/// was.
#[derive(Clone, Copy, Debug, PartialEq, Eq)]
pub struct Drawn {
    pub drawable_wait: u64,
    pub texture_size: (u32, u32),
}

} // verus!
