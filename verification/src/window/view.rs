//! The view of a window: what each of the system's events does to what the program sees.
use vstd::prelude::*;
use vstd::string::StrSliceExecFns;

use crate::text::{utf16_count, utf16_len};
use crate::window::keys::still_told;
use crate::window::model::{events_of, in_order, key_ups, without_resized, CloseCause, Event, EventView, Key, Pending};

verus! {

/// The bit that says whether a modifier key is down, for a key that has one: which side's it
/// is shows in the bit.
pub open spec fn device_bit(key: Key) -> Option<usize> {
    if key == 59 {
        Some(0x0001)
    } else if key == 56 {
        Some(0x0002)
    } else if key == 60 {
        Some(0x0004)
    } else if key == 55 {
        Some(0x0008)
    } else if key == 54 {
        Some(0x0010)
    } else if key == 58 {
        Some(0x0020)
    } else if key == 61 {
        Some(0x0040)
    } else if key == 62 {
        Some(0x2000)
    } else {
        None
    }
}

/// Which key each bit is for: bit 0 for the left control, 1 and 2 for the left and right shift, 3
/// and 4 for the left and right command, 5 and 6 for the left and right option, and 13 for the
/// right control. No other key has a bit, so no two keys share one.
pub proof fn each_modifier_has_its_bit(key: Key)
    ensures
        device_bit(key) == Some(1usize) <==> key == 59,
        device_bit(key) == Some(2usize) <==> key == 56,
        device_bit(key) == Some(4usize) <==> key == 60,
        device_bit(key) == Some(8usize) <==> key == 55,
        device_bit(key) == Some(16usize) <==> key == 54,
        device_bit(key) == Some(32usize) <==> key == 58,
        device_bit(key) == Some(64usize) <==> key == 61,
        device_bit(key) == Some(8192usize) <==> key == 62,
        device_bit(key) is None <==> key < 54 || key == 57 || key > 62,
{
}

/// The bit that says whether a modifier key is down: the left control, the two shifts, the
/// two commands, the two options and the right control have one.
pub fn modifier_device_bit(key: Key) -> (bit: Option<usize>)
    ensures
        bit == device_bit(key),
        bit == Some(1usize) <==> key == 59,
        bit == Some(2usize) <==> key == 56,
        bit == Some(4usize) <==> key == 60,
        bit == Some(8usize) <==> key == 55,
        bit == Some(16usize) <==> key == 54,
        bit == Some(32usize) <==> key == 58,
        bit == Some(64usize) <==> key == 61,
        bit == Some(8192usize) <==> key == 62,
        bit is None <==> key < 54 || key == 57 || key > 62,
{
    match key {
        59 => Some(0x0001),
        56 => Some(0x0002),
        60 => Some(0x0004),
        55 => Some(0x0008),
        54 => Some(0x0010),
        58 => Some(0x0020),
        61 => Some(0x0040),
        62 => Some(0x2000),
        _ => None,
    }
}

/// A key is held now if `down` says so, and the program is told if that is new.
pub open spec fn follows(before: &SpikeView, after: &SpikeView, key: Key, down: bool) -> bool {
    let was = before.pending.held@.contains(key);
    &&& after.pending.held@.contains(key) <==> down
    &&& events_of(after.pending.events@) == (if down && !was {
        events_of(before.pending.events@).push(EventView::KeyDown(key))
    } else if was && !down {
        events_of(before.pending.events@).push(EventView::KeyUp(key))
    } else {
        events_of(before.pending.events@)
    })
}

/// A window's view: what the program has not seen yet, the text that is being composed, and
/// whether the program asked for the cursor and has it.
pub struct SpikeView {
    pub pending: Pending,
    pub marked: String,
    pub capture_wanted: bool,
    pub capture_applied: bool,
}

/// What comes of a request for the cursor: whether the program has it, and whether the
/// system is to be told.
#[derive(Clone, Copy, Debug, PartialEq, Eq, Structural)]
pub struct Capture {
    pub applied: bool,
    pub tell: bool,
}

impl SpikeView {
    /// All but what the program has not seen yet is as before.
    pub open spec fn keeps_rest(&self, before: &SpikeView) -> bool {
        &&& self.marked@ == before.marked@
        &&& self.capture_wanted == before.capture_wanted
        &&& self.capture_applied == before.capture_applied
    }

    /// A window that has just opened.
    pub fn new(width: u32, height: u32) -> (v: SpikeView)
        ensures
            v.marked@.len() == 0,
            !v.capture_wanted,
            !v.capture_applied,
            v.pending.tick_seq == 0,
            v.pending.held@ == Set::<Key>::empty(),
            v.pending.events@.len() == 0,
            v.pending.width == width,
            v.pending.height == height,
            v.pending.window_open,
            v.pending.mouse_events == 0,
            !v.pending.worker_waiting,
    {
        SpikeView { pending: Pending::new(width, height), marked: String::new(), capture_wanted: false, capture_applied: false }
    }

    /// Adds an event.
    pub fn push(&mut self, event: Event)
        ensures
            final(self).keeps_rest(old(self)),
            final(self).pending.keeps_rest(&old(self).pending),
            final(self).pending.width == old(self).pending.width,
            final(self).pending.height == old(self).pending.height,
            final(self).pending.held@ == old(self).pending.held@,
            events_of(final(self).pending.events@) == events_of(old(self).pending.events@).push(event@),
            !(event is KeyDown) && !(event is KeyUp) ==> still_told(&old(self).pending, &final(self).pending),
    {
        self.pending.push(event);
    }

    /// A key goes down. A repeat is the system's own.
    pub fn key_down(&mut self, key: Key, is_repeat: bool)
        ensures
            still_told(&old(self).pending, &final(self).pending),
            final(self).keeps_rest(old(self)),
            is_repeat ==> final(self).pending == old(self).pending,
            !is_repeat ==> {
                &&& final(self).pending.keeps_rest(&old(self).pending)
                &&& final(self).pending.width == old(self).pending.width
                &&& final(self).pending.height == old(self).pending.height
                &&& final(self).pending.held@ == old(self).pending.held@.insert(key)
                &&& events_of(final(self).pending.events@) == (if old(self).pending.held@.contains(key) {
                    events_of(old(self).pending.events@)
                } else {
                    events_of(old(self).pending.events@).push(EventView::KeyDown(key))
                })
            },
    {
        if !is_repeat {
            self.pending.key_down(key);
        }
    }

    /// A key goes up.
    pub fn key_up(&mut self, key: Key)
        ensures
            still_told(&old(self).pending, &final(self).pending),
            is_lifted(old(self), final(self), key),
    {
        self.pending.key_up(key);
    }

    /// The mouse has moved: how far is summed apart, and how often here.
    pub fn add_motion(&mut self)
        requires
            old(self).pending.mouse_events < u32::MAX,
        ensures
            final(self).keeps_rest(old(self)),
            final(self).pending == (Pending {
                mouse_events: (old(self).pending.mouse_events + 1) as u32,
                ..old(self).pending
            }),
    {
        self.pending.mouse_events = self.pending.mouse_events + 1;
    }

    /// A modifier key has changed: such a key tells neither that it goes down nor that it
    /// goes up, only that it did one, and `bits` says which. One with no bit of its own is
    /// taken as a tap.
    pub fn flags_changed(&mut self, key: Key, bits: usize)
        ensures
            still_told(&old(self).pending, &final(self).pending),
            final(self).keeps_rest(old(self)),
            final(self).pending.keeps_rest(&old(self).pending),
            final(self).pending.width == old(self).pending.width,
            final(self).pending.height == old(self).pending.height,
            ({
                let held = old(self).pending.held@;
                let before = events_of(old(self).pending.events@);
                let after = events_of(final(self).pending.events@);
                match device_bit(key) {
                    Some(bit) => if bits & bit != 0 {
                        &&& final(self).pending.held@ == held.insert(key)
                        &&& after == (if held.contains(key) {
                            before
                        } else {
                            before.push(EventView::KeyDown(key))
                        })
                    } else {
                        &&& final(self).pending.held@ == held.remove(key)
                        &&& after == (if held.contains(key) {
                            before.push(EventView::KeyUp(key))
                        } else {
                            before
                        })
                    },
                    None => {
                        &&& final(self).pending.held@ == held.remove(key)
                        &&& after == (if held.contains(key) {
                            before.push(EventView::KeyUp(key))
                        } else {
                            before.push(EventView::KeyDown(key)).push(EventView::KeyUp(key))
                        })
                    },
                }
            }),
            key == 59 ==> follows(old(self), final(self), key, bits & 1 != 0),
            key == 56 ==> follows(old(self), final(self), key, bits & 2 != 0),
            key == 60 ==> follows(old(self), final(self), key, bits & 4 != 0),
            key == 55 ==> follows(old(self), final(self), key, bits & 8 != 0),
            key == 54 ==> follows(old(self), final(self), key, bits & 16 != 0),
            key == 58 ==> follows(old(self), final(self), key, bits & 32 != 0),
            key == 61 ==> follows(old(self), final(self), key, bits & 64 != 0),
            key == 62 ==> follows(old(self), final(self), key, bits & 8192 != 0),
            key < 54 || key == 57 || key > 62 ==> !final(self).pending.held@.contains(key),
    {
        match modifier_device_bit(key) {
            Some(bit) => {
                if bits & bit != 0 {
                    self.pending.key_down(key);
                } else {
                    self.pending.key_up(key);
                }
            },
            None => {
                self.pending.key_down(key);
                self.pending.key_up(key);
                assert(old(self).pending.held@.insert(key).remove(key) =~= old(self).pending.held@.remove(key));
            },
        }
    }

    /// The size in pixels may have changed: it is told only if it has, or the scale has.
    pub fn publish_size(&mut self, width: u32, height: u32, same_scale: bool)
        ensures
            still_told(&old(self).pending, &final(self).pending),
            final(self).keeps_rest(old(self)),
            final(self).pending.keeps_rest(&old(self).pending),
            final(self).pending.held@ == old(self).pending.held@,
            final(self).pending.width == width,
            final(self).pending.height == height,
            events_of(final(self).pending.events@) == (if old(self).pending.width == width && old(self).pending.height
                == height && same_scale {
                events_of(old(self).pending.events@)
            } else {
                without_resized(events_of(old(self).pending.events@)).push(EventView::Resized { width, height })
            }),
    {
        if self.pending.width != width || self.pending.height != height || !same_scale {
            self.pending.resized(width, height);
        }
    }

    /// The window is asked to close by its button. The program decides: it is not closed.
    pub fn should_close(&mut self) -> (close: bool)
        ensures
            still_told(&old(self).pending, &final(self).pending),
            !close,
            final(self).keeps_rest(old(self)),
            final(self).pending.keeps_rest(&old(self).pending),
            final(self).pending.width == old(self).pending.width,
            final(self).pending.height == old(self).pending.height,
            final(self).pending.held@ == old(self).pending.held@,
            events_of(final(self).pending.events@) == events_of(old(self).pending.events@).push(
                EventView::CloseRequested(CloseCause::CloseButton),
            ),
    {
        self.push(Event::CloseRequested(CloseCause::CloseButton));
        false
    }

    /// Takes or gives back the cursor: whether the system is to be told. Hiding the cursor
    /// is counted, so it is told once for each change.
    fn apply_capture(&mut self, on: bool) -> (tell: bool)
        ensures
            tell == (old(self).capture_applied != on),
            final(self).capture_applied == on,
            final(self).capture_wanted == old(self).capture_wanted,
            final(self).marked@ == old(self).marked@,
            final(self).pending == old(self).pending,
    {
        let tell = self.capture_applied != on;
        self.capture_applied = on;
        tell
    }

    /// The program asks for the cursor, or gives it back. A window without the focus gets it
    /// when it next has the focus.
    pub fn set_capture(&mut self, on: bool, focused: bool) -> (c: Capture)
        ensures
            final(self).capture_wanted == on,
            final(self).marked@ == old(self).marked@,
            final(self).pending == old(self).pending,
            on && !focused ==> final(self).capture_applied == old(self).capture_applied && c == (Capture {
                applied: false,
                tell: false,
            }),
            !(on && !focused) ==> final(self).capture_applied == on && c == (Capture {
                applied: on,
                tell: old(self).capture_applied != on,
            }),
    {
        self.capture_wanted = on;
        if on && !focused {
            return Capture { applied: false, tell: false };
        }
        let tell = self.apply_capture(on);
        Capture { applied: on, tell }
    }

    /// The window has the focus: the cursor is taken again, if the program asked for it.
    pub fn did_become_key(&mut self) -> (tell: bool)
        ensures
            still_told(&old(self).pending, &final(self).pending),
            events_of(final(self).pending.events@) == events_of(old(self).pending.events@).push(EventView::FocusGained),
            final(self).pending.held@ == old(self).pending.held@,
            final(self).pending.keeps_rest(&old(self).pending),
            final(self).pending.width == old(self).pending.width,
            final(self).pending.height == old(self).pending.height,
            final(self).marked@ == old(self).marked@,
            final(self).capture_wanted == old(self).capture_wanted,
            final(self).capture_applied == (old(self).capture_applied || old(self).capture_wanted),
            tell == (old(self).capture_wanted && !old(self).capture_applied),
    {
        self.push(Event::FocusGained);
        if self.capture_wanted {
            self.apply_capture(true)
        } else {
            false
        }
    }

    /// The window has lost the focus: every key that is held goes up, and the user has the
    /// cursor back.
    pub fn did_resign_key(&mut self) -> (tell: bool)
        ensures
            still_told(&old(self).pending, &final(self).pending),
            events_of(final(self).pending.events@) == (events_of(old(self).pending.events@) + key_ups(
                in_order(old(self).pending.held@),
            )).push(EventView::FocusLost),
            final(self).pending.held@ == Set::<Key>::empty(),
            final(self).pending.keeps_rest(&old(self).pending),
            final(self).pending.width == old(self).pending.width,
            final(self).pending.height == old(self).pending.height,
            final(self).marked@ == old(self).marked@,
            final(self).capture_wanted == old(self).capture_wanted,
            !final(self).capture_applied,
            tell == old(self).capture_applied,
    {
        self.pending.release_all();
        self.push(Event::FocusLost);
        if self.capture_applied {
            self.apply_capture(false)
        } else {
            false
        }
    }

    /// Text has been typed or composed, and there is any.
    pub fn insert_text(&mut self, text: String)
        ensures
            still_told(&old(self).pending, &final(self).pending),
            final(self).marked@.len() == 0,
            final(self).capture_wanted == old(self).capture_wanted,
            final(self).capture_applied == old(self).capture_applied,
            final(self).pending.held@ == old(self).pending.held@,
            final(self).pending.keeps_rest(&old(self).pending),
            final(self).pending.width == old(self).pending.width,
            final(self).pending.height == old(self).pending.height,
            events_of(final(self).pending.events@) == (if text@.len() == 0 {
                events_of(old(self).pending.events@)
            } else {
                events_of(old(self).pending.events@).push(EventView::Text(text@))
            }),
    {
        self.marked = String::new();
        if text.as_str().unicode_len() > 0 {
            self.pending.push(Event::Text(text));
        }
    }

    /// Text is being composed.
    pub fn set_marked_text(&mut self, text: String)
        ensures
            final(self).marked@ == text@,
            final(self).pending == old(self).pending,
            final(self).capture_wanted == old(self).capture_wanted,
            final(self).capture_applied == old(self).capture_applied,
    {
        self.marked = text;
    }

    /// Nothing is being composed any more.
    pub fn unmark_text(&mut self)
        ensures
            final(self).marked@.len() == 0,
            final(self).pending == old(self).pending,
            final(self).capture_wanted == old(self).capture_wanted,
            final(self).capture_applied == old(self).capture_applied,
    {
        self.marked = String::new();
    }

    /// Whether text is being composed.
    pub fn has_marked_text(&self) -> (yes: bool)
        ensures
            yes == (self.marked@.len() > 0),
    {
        self.marked.as_str().unicode_len() > 0
    }

    /// How long the text is that is being composed, in units of UTF-16, from its first; `None`
    /// where there is none.
    pub fn marked_range(&self) -> (r: Option<usize>)
        ensures
            r is None <==> self.marked@.len() == 0,
            match r {
                Some(n) => n == utf16_len(self.marked@),
                None => true,
            },
    {
        let n = utf16_count(self.marked.as_str());
        if n == 0 {
            None
        } else {
            Some(n)
        }
    }
}

/// A key goes up in a view: it is told only if it was held.
pub open spec fn is_lifted(before: &SpikeView, after: &SpikeView, key: Key) -> bool {
    &&& after.keeps_rest(before)
    &&& after.pending.keeps_rest(&before.pending)
    &&& after.pending.width == before.pending.width
    &&& after.pending.height == before.pending.height
    &&& after.pending.held@ == before.pending.held@.remove(key)
    &&& events_of(after.pending.events@) == (if before.pending.held@.contains(key) {
        events_of(before.pending.events@).push(EventView::KeyUp(key))
    } else {
        events_of(before.pending.events@)
    })
}

/// A view is told that the program is asked to quit.
pub open spec fn is_asked_to_quit(before: &SpikeView, after: &SpikeView) -> bool {
    &&& after.keeps_rest(before)
    &&& after.pending.keeps_rest(&before.pending)
    &&& after.pending.width == before.pending.width
    &&& after.pending.height == before.pending.height
    &&& after.pending.held@ == before.pending.held@
    &&& events_of(after.pending.events@) == events_of(before.pending.events@).push(
        EventView::CloseRequested(CloseCause::Quit),
    )
}

/// The program is asked to quit: every window tells it, and it is not ended. It decides.
pub fn should_terminate(views: &mut Vec<SpikeView>) -> (end: bool)
    ensures
        forall|i: int|
            0 <= i < old(views)@.len() ==> still_told(&old(views)@[i].pending, &(#[trigger] final(views)@[i]).pending),
        !end,
        final(views)@.len() == old(views)@.len(),
        forall|i: int| 0 <= i < old(views)@.len() ==> is_asked_to_quit(&old(views)@[i], &#[trigger] final(views)@[i]),
{
    let ghost before = views@;
    let mut i: usize = 0;
    while i < views.len()
        invariant
            i <= views@.len(),
            views@.len() == before.len(),
            forall|j: int| 0 <= j < i ==> is_asked_to_quit(&before[j], &#[trigger] views@[j]),
            forall|j: int| 0 <= j < i ==> still_told(&before[j].pending, &(#[trigger] views@[j]).pending),
            forall|j: int| i <= j < before.len() ==> #[trigger] views@[j] == before[j],
        decreases views@.len() - i,
    {
        views[i].push(Event::CloseRequested(CloseCause::Quit));
        i += 1;
    }
    false
}

/// A key has gone up anywhere in the program. While the command key is held the window with
/// the focus is not told, since the menus took the key first, so its view is told here: else
/// the key would be held for ever. `focused` is which windows have the focus.
pub fn recover_key_up(views: &mut Vec<SpikeView>, focused: &Vec<bool>, command: bool, key: Key)
    requires
        focused@.len() == old(views)@.len(),
    ensures
        forall|i: int|
            0 <= i < old(views)@.len() ==> still_told(&old(views)@[i].pending, &(#[trigger] final(views)@[i]).pending),
        final(views)@.len() == old(views)@.len(),
        forall|i: int|
            0 <= i < old(views)@.len() ==> if command && focused@[i] {
                is_lifted(&old(views)@[i], &#[trigger] final(views)@[i], key)
            } else {
                final(views)@[i] == old(views)@[i]
            },
{
    if !command {
        return;
    }
    let ghost before = views@;
    let mut i: usize = 0;
    while i < views.len()
        invariant
            i <= views@.len(),
            views@.len() == before.len(),
            focused@.len() == before.len(),
            forall|j: int|
                0 <= j < i ==> if focused@[j] {
                    is_lifted(&before[j], &#[trigger] views@[j], key)
                } else {
                    views@[j] == before[j]
                },
            forall|j: int| 0 <= j < i ==> still_told(&before[j].pending, &(#[trigger] views@[j]).pending),
            forall|j: int| i <= j < before.len() ==> #[trigger] views@[j] == before[j],
        decreases views@.len() - i,
    {
        if focused[i] {
            views[i].key_up(key);
        }
        i += 1;
    }
}

/// With the command key held, no key of the window with the focus stays held once it is up.
pub proof fn a_recovered_key_is_not_held(before: &SpikeView, after: &SpikeView, key: Key)
    requires
        is_lifted(before, after, key),
    ensures
        !after.pending.held@.contains(key),
        forall|k: Key| k != key ==> (after.pending.held@.contains(k) <==> before.pending.held@.contains(k)),
{
}

/// Of the cursor the system is told as often that it is given back as that it is taken, or
/// once less: what it is told depends on whether it is taken and on nothing else.
pub proof fn telling_follows_taking(was: bool, on: bool, taken: int, given: int)
    requires
        taken - given == (if was {
            1int
        } else {
            0
        }),
    ensures
        ({
            let tell = was != on;
            let t = taken + (if tell && on {
                1int
            } else {
                0
            });
            let g = given + (if tell && !on {
                1int
            } else {
                0
            });
            t - g == (if on {
                1int
            } else {
                0
            })
        }),
{
}

} // verus!
