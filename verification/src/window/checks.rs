//! What a run of frames showed, and what is checked of it.
use std::collections::BTreeSet;

use vstd::prelude::*;
use vstd::string::StringExecFns;

use crate::text::{decimal, push_decimal};
use crate::window::frame::Frame;
use crate::window::model::{events_of, Event, EventView, Key};

verus! {

broadcast use {vstd::std_specs::btree::group_btree_axioms, vstd::laws_cmp::group_laws_cmp};

/// How an event is handed to a window: through the program's queue, or to the window itself.
#[derive(Clone, Copy, Debug, PartialEq, Eq, Structural)]
pub enum Route {
    AppQueue,
    Window,
}

/// The queue is used where the program is active and its window has the focus.
pub fn app_route(active: bool, key: bool) -> (r: Route)
    ensures
        r == (if active && key {
            Route::AppQueue
        } else {
            Route::Window
        }),
{
    if active && key {
        Route::AppQueue
    } else {
        Route::Window
    }
}

/// What a run of frames showed, summed. Each event is with the frame that it came in.
#[derive(Debug)]
pub struct Acc {
    pub frames: usize,
    pub events: Vec<(usize, Event)>,
    pub held_union: BTreeSet<Key>,
    pub held_last: Vec<Key>,
    pub motion_frames: usize,
    pub motion_events: u64,
    pub zero_tick_frames: usize,
    pub ticks: u64,
    pub size_mismatch: usize,
    pub last_size: (u32, u32),
}

/// Events with the frames that they came in.
pub open spec fn seen(v: Seq<(usize, Event)>) -> Seq<(usize, EventView)> {
    v.map_values(|p: (usize, Event)| (p.0, p.1@))
}

/// The events of a frame with its number.
pub open spec fn in_frame(i: usize, events: Seq<EventView>) -> Seq<(usize, EventView)> {
    events.map_values(|e: EventView| (i, e))
}

/// The frame that an event first came in.
pub open spec fn first_frame(events: Seq<(usize, EventView)>, e: EventView) -> Option<usize>
    decreases events.len(),
{
    if events.len() == 0 {
        None
    } else if events[0].1 == e {
        Some(events[0].0)
    } else {
        first_frame(events.skip(1), e)
    }
}

/// How often an event came.
pub open spec fn count(events: Seq<(usize, EventView)>, e: EventView) -> nat {
    events.filter(|p: (usize, EventView)| p.1 == e).len()
}

/// How often the size changed.
pub open spec fn count_resized(events: Seq<(usize, EventView)>) -> nat {
    events.filter(|p: (usize, EventView)| p.1 is Resized).len()
}

/// All the text that was typed.
pub open spec fn typed(events: Seq<(usize, EventView)>) -> Seq<char>
    decreases events.len(),
{
    if events.len() == 0 {
        Seq::empty()
    } else {
        typed(events.drop_last()) + (match events.last().1 {
            EventView::Text(t) => t,
            _ => Seq::empty(),
        })
    }
}

/// What has been seen once frame `i` is added, and the size of what it was drawn into, if it
/// was drawn.
pub open spec fn is_added(before: Acc, after: Acc, i: usize, f: Frame, drawn: Option<(u32, u32)>) -> bool {
    &&& after.frames == before.frames + 1
    &&& after.ticks == before.ticks + f.ticks
    &&& after.zero_tick_frames == before.zero_tick_frames + (if f.ticks == 0 {
        1int
    } else {
        0
    })
    &&& seen(after.events@) == seen(before.events@) + in_frame(i, events_of(f.events@))
    &&& after.held_union@ == before.held_union@.union(f.held@.to_set())
    &&& after.held_last@ == f.held@
    &&& after.motion_frames == before.motion_frames + (if f.mouse_events_summed > 0 {
        1int
    } else {
        0
    })
    &&& after.motion_events == before.motion_events + f.mouse_events_summed
    &&& after.size_mismatch == before.size_mismatch + (match drawn {
        Some(t) => if t.0 == f.width && t.1 == f.height {
            0int
        } else {
            1
        },
        None => 0,
    })
    &&& after.last_size == (f.width, f.height)
}

/// Nothing has been seen.
pub open spec fn is_nothing(a: Acc) -> bool {
    &&& a.frames == 0
    &&& a.events@.len() == 0
    &&& a.held_union@ == Set::<Key>::empty()
    &&& a.held_last@.len() == 0
    &&& a.motion_frames == 0
    &&& a.motion_events == 0
    &&& a.zero_tick_frames == 0
    &&& a.ticks == 0
    &&& a.size_mismatch == 0
    &&& a.last_size == (0u32, 0u32)
}

/// How the counts of frames are told.
pub open spec fn counts_of(a: Acc) -> Seq<char> {
    decimal(a.frames as nat) + " next_frame returns, "@ + decimal(a.ticks as nat) + " display ticks, "@ + decimal(
        a.zero_tick_frames as nat,
    ) + " fallback (no-tick) frames"@
}

impl Acc {
    /// Nothing has been seen.
    pub fn new() -> (a: Acc)
        ensures
            is_nothing(a),
    {
        Acc {
            frames: 0,
            events: Vec::new(),
            held_union: BTreeSet::new(),
            held_last: Vec::new(),
            motion_frames: 0,
            motion_events: 0,
            zero_tick_frames: 0,
            ticks: 0,
            size_mismatch: 0,
            last_size: (0, 0),
        }
    }

    /// The counts are no more than the frames.
    pub open spec fn ok(&self) -> bool {
        &&& self.motion_frames <= self.frames
        &&& self.zero_tick_frames <= self.frames
        &&& self.size_mismatch <= self.frames
        &&& self.motion_events <= self.frames * u32::MAX
    }

    /// Adds frame `i`, and the size of what it was drawn into, if it was drawn.
    pub fn add(&mut self, i: usize, f: &Frame, drawn: Option<(u32, u32)>)
        requires
            old(self).ok(),
            old(self).frames < u32::MAX,
            old(self).ticks + f.ticks <= u64::MAX,
        ensures
            final(self).ok(),
            is_added(*old(self), *final(self), i, *f, drawn),
    {
        let ghost n = self.frames;
        assert((n + 1) * u32::MAX == n * u32::MAX + u32::MAX) by (nonlinear_arith);
        assert(n * u32::MAX <= 0xFFFF_FFFF * 0xFFFF_FFFF) by (nonlinear_arith)
            requires
                n < u32::MAX,
        ;
        self.frames = self.frames + 1;
        self.ticks = self.ticks + f.ticks;
        if f.ticks == 0 {
            self.zero_tick_frames = self.zero_tick_frames + 1;
        }
        let ghost before = seen(self.events@);
        let ghost views = events_of(f.events@);
        let mut k: usize = 0;
        assert(before + in_frame(i, views.take(0)) =~= before);
        while k < f.events.len()
            invariant
                k <= f.events@.len(),
                views == events_of(f.events@),
                seen(self.events@) == before + in_frame(i, views.take(k as int)),
                self.frames == old(self).frames + 1,
                self.ticks == old(self).ticks + f.ticks,
                self.zero_tick_frames == old(self).zero_tick_frames + (if f.ticks == 0 {
                    1int
                } else {
                    0
                }),
                self.held_union@ == old(self).held_union@,
                self.motion_frames == old(self).motion_frames,
                self.motion_events == old(self).motion_events,
                self.size_mismatch == old(self).size_mismatch,
            decreases f.events@.len() - k,
        {
            let ghost e0 = seen(self.events@);
            let e = f.events[k].copy();
            self.events.push((i, e));
            proof {
                assert(seen(self.events@) =~= e0.push((i, e@)));
                assert(in_frame(i, views.take(k + 1)) =~= in_frame(i, views.take(k as int)).push((i, e@)));
                assert(seen(self.events@) =~= before + in_frame(i, views.take(k + 1)));
            }
            k += 1;
        }
        assert(views.take(k as int) =~= views);
        let mut held: Vec<Key> = Vec::new();
        let mut j: usize = 0;
        assert(old(self).held_union@.union(f.held@.take(0).to_set()) =~= old(self).held_union@);
        while j < f.held.len()
            invariant
                j <= f.held@.len(),
                held@ == f.held@.take(j as int),
                self.held_union@ == old(self).held_union@.union(f.held@.take(j as int).to_set()),
                seen(self.events@) == before + in_frame(i, views),
                self.frames == old(self).frames + 1,
                self.ticks == old(self).ticks + f.ticks,
                self.zero_tick_frames == old(self).zero_tick_frames + (if f.ticks == 0 {
                    1int
                } else {
                    0
                }),
                self.motion_frames == old(self).motion_frames,
                self.motion_events == old(self).motion_events,
                self.size_mismatch == old(self).size_mismatch,
            decreases f.held@.len() - j,
        {
            let key = f.held[j];
            let ghost u0 = self.held_union@;
            self.held_union.insert(key);
            held.push(key);
            proof {
                let (a, b) = (f.held@.take(j as int), f.held@.take(j + 1));
                assert(b =~= a.push(key));
                assert forall|m: Key| b.to_set().contains(m) <==> a.to_set().contains(m) || m == key by {
                    if a.contains(m) {
                        let x = a.index_of(m);
                        assert(b[x] == m);
                    }
                    if b.contains(m) {
                        let x = b.index_of(m);
                        if x < j {
                            assert(a[x] == m);
                        }
                    }
                    assert(b[j as int] == key);
                }
                assert(self.held_union@ =~= old(self).held_union@.union(b.to_set()));
            }
            j += 1;
        }
        assert(f.held@.take(j as int) =~= f.held@);
        self.held_last = held;
        if f.mouse_events_summed > 0 {
            self.motion_frames = self.motion_frames + 1;
            self.motion_events = self.motion_events + f.mouse_events_summed as u64;
        }
        match drawn {
            Some(t) => {
                if t.0 != f.width || t.1 != f.height {
                    self.size_mismatch = self.size_mismatch + 1;
                }
            },
            None => {},
        }
        self.last_size = (f.width, f.height);
    }

    /// The frame that an event first came in.
    pub fn frame_of(&self, e: &Event) -> (r: Option<usize>)
        ensures
            r == first_frame(seen(self.events@), e@),
    {
        let ghost all = seen(self.events@);
        let mut i: usize = 0;
        assert(all.skip(0) =~= all);
        while i < self.events.len()
            invariant
                i <= self.events@.len(),
                all == seen(self.events@),
                first_frame(all, e@) == first_frame(all.skip(i as int), e@),
            decreases self.events@.len() - i,
        {
            proof {
                assert(all.skip(i as int)[0] == all[i as int]);
                assert(all.skip(i as int).skip(1) =~= all.skip(i + 1));
            }
            if self.events[i].1.is(e) {
                return Some(self.events[i].0);
            }
            i += 1;
        }
        None
    }

    /// Whether an event came.
    pub fn has(&self, e: &Event) -> (yes: bool)
        ensures
            yes == (first_frame(seen(self.events@), e@) is Some),
    {
        self.frame_of(e).is_some()
    }

    /// How often an event came.
    pub fn count_of(&self, e: &Event) -> (n: usize)
        ensures
            n == count(seen(self.events@), e@),
    {
        let ghost all = seen(self.events@);
        let ghost pred = |p: (usize, EventView)| p.1 == e@;
        let mut n: usize = 0;
        let mut i: usize = 0;
        proof {
            reveal(Seq::filter);
            assert(all.take(0).filter(pred).len() == 0);
        }
        while i < self.events.len()
            invariant
                i <= self.events@.len(),
                n <= i,
                all == seen(self.events@),
                pred == (|p: (usize, EventView)| p.1 == e@),
                n == all.take(i as int).filter(pred).len(),
            decreases self.events@.len() - i,
        {
            proof {
                let t = all.take(i + 1);
                assert(t.drop_last() =~= all.take(i as int));
                assert(t.last() == all[i as int]);
                reveal(Seq::filter);
            }
            if self.events[i].1.is(e) {
                n += 1;
            }
            i += 1;
        }
        assert(all.take(i as int) =~= all);
        n
    }

    /// How often the size changed.
    pub fn resizes(&self) -> (n: usize)
        ensures
            n == count_resized(seen(self.events@)),
    {
        let ghost all = seen(self.events@);
        let ghost pred = |p: (usize, EventView)| p.1 is Resized;
        let mut n: usize = 0;
        let mut i: usize = 0;
        proof {
            reveal(Seq::filter);
            assert(all.take(0).filter(pred).len() == 0);
        }
        while i < self.events.len()
            invariant
                i <= self.events@.len(),
                n <= i,
                all == seen(self.events@),
                pred == (|p: (usize, EventView)| p.1 is Resized),
                n == all.take(i as int).filter(pred).len(),
            decreases self.events@.len() - i,
        {
            proof {
                let t = all.take(i + 1);
                assert(t.drop_last() =~= all.take(i as int));
                assert(t.last() == all[i as int]);
                reveal(Seq::filter);
            }
            match &self.events[i].1 {
                Event::Resized { .. } => {
                    n += 1;
                },
                _ => {},
            }
            i += 1;
        }
        assert(all.take(i as int) =~= all);
        n
    }

    /// All the text that was typed.
    pub fn text(&self) -> (out: String)
        ensures
            out@ == typed(seen(self.events@)),
    {
        let ghost all = seen(self.events@);
        let mut out = String::new();
        let mut i: usize = 0;
        assert(out@ =~= typed(all.take(0)));
        while i < self.events.len()
            invariant
                i <= self.events@.len(),
                all == seen(self.events@),
                out@ == typed(all.take(i as int)),
            decreases self.events@.len() - i,
        {
            proof {
                let t = all.take(i + 1);
                assert(t.drop_last() =~= all.take(i as int));
                assert(t.last() == all[i as int]);
            }
            match &self.events[i].1 {
                Event::Text(t) => {
                    out.append(t.as_str());
                },
                _ => {},
            }
            assert(out@ =~= typed(all.take(i + 1)));
            i += 1;
        }
        assert(all.take(i as int) =~= all);
        out
    }

    /// How the counts of frames are told.
    pub fn counts(&self) -> (out: String)
        ensures
            out@ == counts_of(*self),
    {
        let mut out = String::new();
        push_decimal(&mut out, self.frames as u64);
        out.append(" next_frame returns, ");
        push_decimal(&mut out, self.ticks);
        out.append(" display ticks, ");
        push_decimal(&mut out, self.zero_tick_frames as u64);
        out.append(" fallback (no-tick) frames");
        assert(out@ =~= counts_of(*self));
        out
    }

    /// Counts the frames of another look too, and nothing else of it.
    pub fn count_in(&mut self, other: &Acc)
        requires
            old(self).frames + other.frames <= usize::MAX,
            old(self).zero_tick_frames + other.zero_tick_frames <= usize::MAX,
            old(self).ticks + other.ticks <= u64::MAX,
        ensures
            *final(self) == (Acc {
                frames: (old(self).frames + other.frames) as usize,
                ticks: (old(self).ticks + other.ticks) as u64,
                zero_tick_frames: (old(self).zero_tick_frames + other.zero_tick_frames) as usize,
                ..*old(self)
            }),
    {
        self.frames = self.frames + other.frames;
        self.ticks = self.ticks + other.ticks;
        self.zero_tick_frames = self.zero_tick_frames + other.zero_tick_frames;
    }

    /// A key that was tapped within one frame is not lost, and never shows as held.
    pub fn tap_is_kept(&self, key: Key) -> (yes: bool)
        ensures
            ({
                let down = first_frame(seen(self.events@), EventView::KeyDown(key));
                yes == (down is Some && down == first_frame(seen(self.events@), EventView::KeyUp(key))
                    && !self.held_union@.contains(key))
            }),
    {
        match (self.frame_of(&Event::KeyDown(key)), self.frame_of(&Event::KeyUp(key))) {
            (Some(a), Some(b)) => a == b && !self.held_union.contains(&key),
            _ => false,
        }
    }

    /// A key that was tapped arrives, and nothing is held after it.
    pub fn tap_arrives(&self, key: Key) -> (yes: bool)
        ensures
            yes == (first_frame(seen(self.events@), EventView::KeyDown(key)) is Some && first_frame(
                seen(self.events@),
                EventView::KeyUp(key),
            ) is Some && self.held_last@.len() == 0),
    {
        self.has(&Event::KeyDown(key)) && self.has(&Event::KeyUp(key)) && self.held_last.len() == 0
    }

    /// A key that is held shows as held after `frames` frames, with one press, and no longer
    /// once it is released.
    pub fn is_held(&self, key: Key, frames: usize, after: &Acc) -> (yes: bool)
        ensures
            yes == (self.frames == frames && self.held_last@ == seq![key] && count(
                seen(self.events@),
                EventView::KeyDown(key),
            ) == 1 && after.held_last@.len() == 0),
    {
        if self.held_last.len() == 1 && self.held_last[0] == key {
            assert(self.held_last@ =~= seq![key]);
            self.frames == frames && self.count_of(&Event::KeyDown(key)) == 1 && after.held_last.len() == 0
        } else {
            assert(self.held_last@ == seq![key] ==> self.held_last@[0] == key);
            false
        }
    }

    /// The window has another size, told once, and everything drawn after it has it too.
    pub fn resize_followed(&self, width: u32, height: u32, after: &Acc, resizes_before: u32, resizes: u32) -> (yes: bool)
        ensures
            yes == (first_frame(seen(self.events@), EventView::Resized { width, height }) is Some && count_resized(
                seen(self.events@),
            ) == 1 && after.size_mismatch == 0 && resizes == resizes_before + 1),
    {
        self.has(&Event::Resized { width, height }) && self.resizes() == 1 && after.size_mismatch == 0 && resizes
            > resizes_before && resizes - resizes_before == 1
    }

    /// The focus is lost, and a key that was held goes up with it.
    pub fn focus_released(&self, key: Key) -> (yes: bool)
        ensures
            yes == (first_frame(seen(self.events@), EventView::FocusLost) is Some && first_frame(
                seen(self.events@),
                EventView::KeyUp(key),
            ) is Some && self.held_last@.len() == 0),
    {
        self.has(&Event::FocusLost) && self.has(&Event::KeyUp(key)) && self.held_last.len() == 0
    }
}

} // verus!
