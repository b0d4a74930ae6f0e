//! What a window has seen since the program last took a frame.
use std::collections::BTreeSet;

use vstd::laws_cmp::obeys_cmp;
use vstd::prelude::*;
use vstd::std_specs::btree::{increasing_seq, spec_btree_keys_iter};
use vstd::std_specs::cmp::OrdSpec;
use vstd::std_specs::iter::IteratorSpec;

use crate::window::keys::{all_went_up, one_more_event, sizes_tell_nothing_of_keys, still_told, tells};

verus! {

broadcast use {vstd::std_specs::btree::group_btree_axioms, vstd::laws_cmp::group_laws_cmp};

/// A physical key, by its place on the keyboard and not by what it types.
pub type Key = u16;

/// Why a window is asked to close: by its button, or because the program is asked to quit.
#[derive(Clone, Copy, Debug, PartialEq, Eq, Structural)]
pub enum CloseCause {
    CloseButton,
    Quit,
}

/// Something that happened to a window.
#[derive(Clone, Debug, PartialEq)]
pub enum Event {
    KeyDown(Key),
    KeyUp(Key),
    Text(String),
    MouseDown(u8),
    MouseUp(u8),
    FocusLost,
    FocusGained,
    /// The size of what is drawn, in pixels.
    Resized { width: u32, height: u32 },
    CloseRequested(CloseCause),
}

/// The view of an [`Event`].
pub enum EventView {
    KeyDown(Key),
    KeyUp(Key),
    Text(Seq<char>),
    MouseDown(u8),
    MouseUp(u8),
    FocusLost,
    FocusGained,
    Resized { width: u32, height: u32 },
    CloseRequested(CloseCause),
}

impl View for Event {
    type V = EventView;

    open spec fn view(&self) -> EventView {
        match *self {
            Event::KeyDown(k) => EventView::KeyDown(k),
            Event::KeyUp(k) => EventView::KeyUp(k),
            Event::Text(t) => EventView::Text(t@),
            Event::MouseDown(b) => EventView::MouseDown(b),
            Event::MouseUp(b) => EventView::MouseUp(b),
            Event::FocusLost => EventView::FocusLost,
            Event::FocusGained => EventView::FocusGained,
            Event::Resized { width, height } => EventView::Resized { width, height },
            Event::CloseRequested(c) => EventView::CloseRequested(c),
        }
    }
}

/// The views of some events.
pub open spec fn events_of(v: Seq<Event>) -> Seq<EventView> {
    v.map_values(|e: Event| e@)
}

impl Event {
    /// A copy.
    pub fn copy(&self) -> (e: Event)
        ensures
            e@ == self@,
    {
        match self {
            Event::KeyDown(k) => Event::KeyDown(*k),
            Event::KeyUp(k) => Event::KeyUp(*k),
            Event::Text(t) => Event::Text(t.clone()),
            Event::MouseDown(b) => Event::MouseDown(*b),
            Event::MouseUp(b) => Event::MouseUp(*b),
            Event::FocusLost => Event::FocusLost,
            Event::FocusGained => Event::FocusGained,
            Event::Resized { width, height } => Event::Resized { width: *width, height: *height },
            Event::CloseRequested(c) => Event::CloseRequested(*c),
        }
    }

    /// Whether two events are the same.
    pub fn is(&self, other: &Event) -> (yes: bool)
        ensures
            yes == (self@ == other@),
    {
        match (self, other) {
            (Event::KeyDown(a), Event::KeyDown(b)) => *a == *b,
            (Event::KeyUp(a), Event::KeyUp(b)) => *a == *b,
            (Event::Text(a), Event::Text(b)) => crate::text::same(a.as_str(), b.as_str()),
            (Event::MouseDown(a), Event::MouseDown(b)) => *a == *b,
            (Event::MouseUp(a), Event::MouseUp(b)) => *a == *b,
            (Event::FocusLost, Event::FocusLost) => true,
            (Event::FocusGained, Event::FocusGained) => true,
            (Event::Resized { width: a, height: b }, Event::Resized { width: c, height: d }) => *a == *c && *b == *d,
            (Event::CloseRequested(a), Event::CloseRequested(b)) => *a == *b,
            _ => false,
        }
    }
}

/// Why a window could not be used.
#[derive(Debug)]
pub enum AppError {
    /// The runtime closed it.
    WindowGone,
    /// An exception was caught at the boundary.
    Exception(String),
    /// A panic was caught at the boundary.
    Panic,
    NoMetalDevice,
    Unsupported(String),
}

/// What was caught where the program's thread asked something of the main thread: an
/// exception, with what it says if it is an object, or a panic.
#[derive(Debug)]
pub enum Caught {
    Exception(Option<String>),
    Panic,
}

impl AppError {
    /// What was caught, as the program sees it.
    pub fn of(caught: Caught) -> (e: AppError)
        ensures
            match caught {
                Caught::Exception(Some(what)) => e == AppError::Exception(what),
                Caught::Exception(None) => e matches AppError::Exception(s) && s@ == "nil exception"@,
                Caught::Panic => e == AppError::Panic,
            },
    {
        match caught {
            Caught::Exception(Some(what)) => AppError::Exception(what),
            Caught::Exception(None) => AppError::Exception("nil exception".to_owned()),
            Caught::Panic => AppError::Panic,
        }
    }
}

/// The members of a set below `n`, smallest first.
pub open spec fn members_below(s: Set<Key>, n: nat) -> Seq<Key>
    decreases n,
{
    if n == 0 {
        Seq::empty()
    } else if n <= 0x1_0000 && s.contains((n - 1) as u16) {
        members_below(s, (n - 1) as nat).push((n - 1) as u16)
    } else {
        members_below(s, (n - 1) as nat)
    }
}

/// The members of a set, smallest first.
pub open spec fn in_order(s: Set<Key>) -> Seq<Key> {
    members_below(s, 0x1_0000)
}

/// Numbers that are not in the set add nothing.
proof fn none_between(s: Set<Key>, a: nat, b: nat)
    requires
        a <= b,
        forall|k: u16| a <= k < b ==> !(#[trigger] s.contains(k)),
    ensures
        members_below(s, b) == members_below(s, a),
    decreases b,
{
    if a < b {
        none_between(s, a, (b - 1) as nat);
    }
}

/// The members of a set, each after those that are less.
fn listed(s: &BTreeSet<Key>) -> (out: Vec<Key>)
    ensures
        forall|i: int, j: int| 0 <= i < j < out@.len() ==> out@[i] < out@[j],
        forall|m: u16| #[trigger] out@.contains(m) <==> s@.contains(m),
{
    let mut out: Vec<Key> = Vec::new();
    let ghost keys: Seq<&Key> = spec_btree_keys_iter(s).remaining();
    for n in iter: s.iter()
        invariant
            iter.seq() == keys,
            out@.len() == iter.index(),
            forall|k: int| 0 <= k < out@.len() ==> out@[k] == *keys[k],
    {
        out.push(*n);
    }
    proof {
        assert(out@.len() == keys.len());
        assert(obeys_cmp::<Key>());
        assert(obeys_cmp::<&Key>());
        assert(keys.unref().to_set() == s@);
        assert(increasing_seq(keys));
        assert forall|i: int, j: int| 0 <= i < j < out@.len() implies out@[i] < out@[j] by {
            assert(OrdSpec::cmp_spec(&keys[i], &keys[j]) is Less);
        }
        assert forall|m: u16| #[trigger] out@.contains(m) <==> s@.contains(m) by {
            if out@.contains(m) {
                let k = out@.index_of(m);
                assert(keys.unref()[k] == m);
                assert(keys.unref().contains(m));
            }
            if s@.contains(m) {
                assert(keys.unref().contains(m));
                let k = choose|k: int| 0 <= k < keys.unref().len() && keys.unref()[k] == m;
                assert(out@[k] == m);
            }
        }
    }
    out
}

/// The first of the members in order are those up to the last of them.
proof fn listed_up_to(q: Seq<Key>, s: Set<Key>, k: int)
    requires
        0 <= k <= q.len(),
        forall|i: int, j: int| 0 <= i < j < q.len() ==> q[i] < q[j],
        forall|m: u16| #[trigger] q.contains(m) <==> s.contains(m),
    ensures
        members_below(
            s,
            if k == 0 {
                0
            } else {
                (q[k - 1] + 1) as nat
            },
        ) == q.take(k),
    decreases k,
{
    if k == 0 {
        assert(q.take(0) =~= Seq::<Key>::empty());
    } else {
        listed_up_to(q, s, k - 1);
        let at = if k == 1 {
            0
        } else {
            (q[k - 2] + 1) as nat
        };
        let n = q[k - 1];
        assert(k > 1 ==> q[k - 2] < q[k - 1]);
        assert forall|m: u16| at <= m < n implies !(#[trigger] s.contains(m)) by {
            if s.contains(m) {
                assert(q.contains(m));
                let i = q.index_of(m);
                if i < k - 2 {
                    assert(q[i] < q[k - 2]);
                } else if i > k - 1 {
                    assert(q[k - 1] < q[i]);
                }
            }
        }
        none_between(s, at, n as nat);
        assert(q.contains(n));
        assert(q.take(k) =~= q.take(k - 1).push(n));
    }
}

/// The members of a set, smallest first.
pub fn keys_in_order(s: &BTreeSet<Key>) -> (out: Vec<Key>)
    ensures
        out@ == in_order(s@),
{
    let out = listed(s);
    proof {
        listed_up_to(out@, s@, out@.len() as int);
        let at = if out@.len() == 0 {
            0
        } else {
            (out@.last() + 1) as nat
        };
        assert forall|k: u16| at <= k < 0x1_0000 implies !(#[trigger] s@.contains(k)) by {
            if s@.contains(k) {
                assert(out@.contains(k));
                let i = out@.index_of(k);
                if i < out@.len() - 1 {
                    assert(out@[i] < out@.last());
                }
            }
        }
        none_between(s@, at, 0x1_0000);
        assert(out@.take(out@.len() as int) =~= out@);
    }
    out
}

/// What a window has seen since the program last took a frame.
pub struct Pending {
    /// How many refreshes of the display there have been.
    pub tick_seq: u64,
    pub held: BTreeSet<Key>,
    /// How many moves of the mouse have been summed.
    pub mouse_events: u32,
    pub events: Vec<Event>,
    pub width: u32,
    pub height: u32,
    pub window_open: bool,
    pub worker_waiting: bool,
}

/// A key goes up for each that was held.
pub open spec fn key_ups(keys: Seq<Key>) -> Seq<EventView> {
    keys.map_values(|k: Key| EventView::KeyUp(k))
}

/// The events that are not a change of size.
pub open spec fn without_resized(events: Seq<EventView>) -> Seq<EventView> {
    events.filter(|e: EventView| !(e is Resized))
}

impl Pending {
    /// All but the keys and the events is as before.
    pub open spec fn keeps_rest(&self, before: &Pending) -> bool {
        &&& self.tick_seq == before.tick_seq
        &&& self.mouse_events == before.mouse_events
        &&& self.window_open == before.window_open
        &&& self.worker_waiting == before.worker_waiting
    }

    /// A window that has just opened.
    pub fn new(width: u32, height: u32) -> (p: Pending)
        ensures
            p.tick_seq == 0,
            p.held@ == Set::<Key>::empty(),
            p.mouse_events == 0,
            p.events@.len() == 0,
            p.width == width,
            p.height == height,
            p.window_open,
            !p.worker_waiting,
    {
        Pending {
            tick_seq: 0,
            held: BTreeSet::new(),
            mouse_events: 0,
            events: Vec::new(),
            width,
            height,
            window_open: true,
            worker_waiting: false,
        }
    }

    /// Adds an event.
    pub fn push(&mut self, event: Event)
        ensures
            final(self).keeps_rest(old(self)),
            final(self).width == old(self).width,
            final(self).height == old(self).height,
            final(self).held@ == old(self).held@,
            events_of(final(self).events@) == events_of(old(self).events@).push(event@),
            !(event is KeyDown) && !(event is KeyUp) ==> still_told(old(self), final(self)),
    {
        self.events.push(event);
        assert(events_of(self.events@) =~= events_of(old(self).events@).push(event@));
        proof {
            let before = events_of(old(self).events@);
            assert forall|s: Set<Key>| #[trigger] tells(s, old(self).held@, before) && !(event is KeyDown) && !(event is KeyUp)
                implies tells(s, self.held@, events_of(self.events@)) by {
                one_more_event(s, before, event@);
            }
        }
    }

    /// A key goes down. One that is held is repeating by itself, and is no new press.
    pub fn key_down(&mut self, key: Key)
        ensures
            final(self).keeps_rest(old(self)),
            final(self).width == old(self).width,
            final(self).height == old(self).height,
            final(self).held@ == old(self).held@.insert(key),
            events_of(final(self).events@) == (if old(self).held@.contains(key) {
                events_of(old(self).events@)
            } else {
                events_of(old(self).events@).push(EventView::KeyDown(key))
            }),
            still_told(old(self), final(self)),
    {
        if self.held.insert(key) {
            self.push(Event::KeyDown(key));
        }
        proof {
            let before = events_of(old(self).events@);
            assert(old(self).held@.contains(key) ==> self.held@ =~= old(self).held@);
            assert forall|s: Set<Key>| #[trigger] tells(s, old(self).held@, before) implies tells(
                s,
                self.held@,
                events_of(self.events@),
            ) by {
                one_more_event(s, before, EventView::KeyDown(key));
            }
        }
    }

    /// A key goes up. One that is not held was not pressed here.
    pub fn key_up(&mut self, key: Key)
        ensures
            final(self).keeps_rest(old(self)),
            final(self).width == old(self).width,
            final(self).height == old(self).height,
            final(self).held@ == old(self).held@.remove(key),
            events_of(final(self).events@) == (if old(self).held@.contains(key) {
                events_of(old(self).events@).push(EventView::KeyUp(key))
            } else {
                events_of(old(self).events@)
            }),
            still_told(old(self), final(self)),
    {
        if self.held.remove(&key) {
            self.push(Event::KeyUp(key));
        }
        proof {
            let before = events_of(old(self).events@);
            assert(!old(self).held@.contains(key) ==> self.held@ =~= old(self).held@);
            assert forall|s: Set<Key>| #[trigger] tells(s, old(self).held@, before) implies tells(
                s,
                self.held@,
                events_of(self.events@),
            ) by {
                one_more_event(s, before, EventView::KeyUp(key));
            }
        }
    }

    /// Every key that is held goes up: the system does not tell a window that has lost the
    /// focus.
    pub fn release_all(&mut self)
        ensures
            final(self).keeps_rest(old(self)),
            final(self).width == old(self).width,
            final(self).height == old(self).height,
            final(self).held@ == Set::<Key>::empty(),
            events_of(final(self).events@) == events_of(old(self).events@) + key_ups(in_order(old(self).held@)),
            still_told(old(self), final(self)),
    {
        let list = keys_in_order(&self.held);
        let ghost before = events_of(self.events@);
        self.held = BTreeSet::new();
        let mut k: usize = 0;
        assert(events_of(self.events@) =~= before + key_ups(list@.take(0)));
        while k < list.len()
            invariant
                k <= list@.len(),
                self.keeps_rest(old(self)),
                self.width == old(self).width,
                self.height == old(self).height,
                self.held@ == Set::<Key>::empty(),
                events_of(self.events@) == before + key_ups(list@.take(k as int)),
            decreases list@.len() - k,
        {
            self.push(Event::KeyUp(list[k]));
            assert(events_of(self.events@) =~= before + key_ups(list@.take(k + 1)));
            k += 1;
        }
        assert(list@.take(k as int) =~= list@);
        proof {
            assert forall|s: Set<Key>| #[trigger] tells(s, old(self).held@, before) implies tells(
                s,
                self.held@,
                events_of(self.events@),
            ) by {
                all_went_up(s, old(self).held@, before);
            }
        }
    }

    /// The window has another size. Only the last matters, so one that the program has not
    /// seen yet is replaced.
    pub fn resized(&mut self, width: u32, height: u32)
        ensures
            final(self).keeps_rest(old(self)),
            final(self).held@ == old(self).held@,
            final(self).width == width,
            final(self).height == height,
            events_of(final(self).events@) == without_resized(events_of(old(self).events@)).push(
                EventView::Resized { width, height },
            ),
            still_told(old(self), final(self)),
    {
        self.width = width;
        self.height = height;
        let mut all: Vec<Event> = Vec::new();
        std::mem::swap(&mut self.events, &mut all);
        let ghost before = events_of(all@);
        let mut k: usize = 0;
        proof {
            assert(before.take(0) =~= Seq::<EventView>::empty());
            assert(without_resized(before.take(0)).len() == 0) by {
                reveal(Seq::filter);
            }
            assert(events_of(self.events@) =~= without_resized(before.take(0)));
        }
        while k < all.len()
            invariant
                k <= all@.len(),
                before == events_of(all@),
                self.keeps_rest(old(self)),
                self.held@ == old(self).held@,
                self.width == width,
                self.height == height,
                events_of(self.events@) == without_resized(before.take(k as int)),
            decreases all@.len() - k,
        {
            proof {
                let t = before.take(k + 1);
                assert(t.drop_last() =~= before.take(k as int));
                assert(t.last() == all@[k as int]@);
                reveal(Seq::filter);
            }
            match &all[k] {
                Event::Resized { .. } => {},
                e => {
                    let copy = e.copy();
                    self.push(copy);
                },
            }
            k += 1;
        }
        assert(before.take(k as int) =~= before);
        self.push(Event::Resized { width, height });
        proof {
            assert forall|s: Set<Key>| #[trigger] tells(s, old(self).held@, before) implies tells(
                s,
                self.held@,
                events_of(self.events@),
            ) by {
                sizes_tell_nothing_of_keys(s, before);
                one_more_event(s, without_resized(before), EventView::Resized { width, height });
            }
        }
    }

    /// The display has refreshed.
    pub fn tick(&mut self)
        requires
            old(self).tick_seq < u64::MAX,
        ensures
            final(self).tick_seq == old(self).tick_seq + 1,
            final(self).held@ == old(self).held@,
            final(self).mouse_events == old(self).mouse_events,
            final(self).events == old(self).events,
            final(self).width == old(self).width,
            final(self).height == old(self).height,
            final(self).window_open == old(self).window_open,
            final(self).worker_waiting == old(self).worker_waiting,
    {
        self.tick_seq = self.tick_seq + 1;
    }
}

/// A key that goes down and up between two frames is not lost: both are there, in order, and
/// it is held no longer.
pub proof fn a_tap_is_not_lost(p: Pending, down: Pending, up: Pending, key: Key)
    requires
        !p.held@.contains(key),
        down.held@ == p.held@.insert(key),
        events_of(down.events@) == events_of(p.events@).push(EventView::KeyDown(key)),
        up.held@ == down.held@.remove(key),
        down.held@.contains(key) ==> events_of(up.events@) == events_of(down.events@).push(EventView::KeyUp(key)),
    ensures
        up.held@ == p.held@,
        events_of(up.events@) == events_of(p.events@) + seq![EventView::KeyDown(key), EventView::KeyUp(key)],
{
    assert(p.held@.insert(key).remove(key) =~= p.held@);
    assert(events_of(up.events@) =~= events_of(p.events@) + seq![EventView::KeyDown(key), EventView::KeyUp(key)]);
}

/// However many changes of size come between two frames, one is left.
pub proof fn one_resized_is_left(events: Seq<EventView>, width: u32, height: u32, i: int)
    requires
        ({
            let after = without_resized(events).push(EventView::Resized { width, height });
            0 <= i < after.len() && after[i] is Resized
        }),
    ensures
        i == without_resized(events).len(),
{
    let f = without_resized(events);
    if i < f.len() {
        broadcast use vstd::seq_lib::group_filter_ensures;

        assert(f[i] is Resized);
    }
}

} // verus!
