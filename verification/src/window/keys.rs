//! What a program is told of keys: each goes down before it goes up, and the keys that are held are
//! those that went down last.
use vstd::prelude::*;

use crate::window::model::{events_of, in_order, key_ups, without_resized, EventView, Key, Pending};
use crate::window::story::held_keys_are_in_order;

verus! {

/// The keys that are held after some events, where those of `s` were before.
pub open spec fn held_after(s: Set<Key>, events: Seq<EventView>) -> Set<Key>
    decreases events.len(),
{
    if events.len() == 0 {
        s
    } else {
        let before = held_after(s, events.drop_last());
        match events.last() {
            EventView::KeyDown(k) => before.insert(k),
            EventView::KeyUp(k) => before.remove(k),
            _ => before,
        }
    }
}

/// No key goes down that is held already, and none up that is not.
pub open spec fn takes_turns(s: Set<Key>, events: Seq<EventView>) -> bool
    decreases events.len(),
{
    if events.len() == 0 {
        true
    } else {
        takes_turns(s, events.drop_last()) && match events.last() {
            EventView::KeyDown(k) => !held_after(s, events.drop_last()).contains(k),
            EventView::KeyUp(k) => held_after(s, events.drop_last()).contains(k),
            _ => true,
        }
    }
}

/// From where the keys of `s` were held, the events tell what is held now, and each key takes turns.
pub open spec fn tells(s: Set<Key>, held: Set<Key>, events: Seq<EventView>) -> bool {
    held_after(s, events) == held && takes_turns(s, events)
}

/// If the events told what is held, they still do.
pub open spec fn still_told(before: &Pending, after: &Pending) -> bool {
    forall|s: Set<Key>| #[trigger]
        tells(s, before.held@, events_of(before.events@)) ==> tells(s, after.held@, events_of(after.events@))
}

/// One event more.
pub proof fn one_more_event(s: Set<Key>, events: Seq<EventView>, e: EventView)
    ensures
        held_after(s, events.push(e)) == (match e {
            EventView::KeyDown(k) => held_after(s, events).insert(k),
            EventView::KeyUp(k) => held_after(s, events).remove(k),
            _ => held_after(s, events),
        }),
        takes_turns(s, events.push(e)) == (takes_turns(s, events) && match e {
            EventView::KeyDown(k) => !held_after(s, events).contains(k),
            EventView::KeyUp(k) => held_after(s, events).contains(k),
            _ => true,
        }),
{
    assert(events.push(e).drop_last() =~= events);
}

/// Once every key that is held has gone up none is.
pub proof fn all_went_up(s: Set<Key>, held: Set<Key>, events: Seq<EventView>)
    requires
        tells(s, held, events),
    ensures
        tells(s, Set::empty(), events + key_ups(in_order(held))),
{
    let q = in_order(held);
    assert forall|k: Key| q.contains(k) <==> held.contains(k) by {
        held_keys_are_in_order(held, k);
    }
    held_keys_are_in_order(held, 0);
    some_went_up(s, held, events, q, q.len() as int);
    let ups = key_ups(q);
    assert(ups.take(q.len() as int) =~= ups);
    assert(held_after(s, events + ups) =~= Set::<Key>::empty());
}

/// Once the first of some keys have gone up, those that are left are held.
proof fn some_went_up(s: Set<Key>, held: Set<Key>, events: Seq<EventView>, q: Seq<Key>, n: int)
    requires
        tells(s, held, events),
        0 <= n <= q.len(),
        forall|i: int, j: int| 0 <= i < j < q.len() ==> q[i] < q[j],
        forall|k: Key| q.contains(k) <==> held.contains(k),
    ensures
        takes_turns(s, events + key_ups(q).take(n)),
        forall|k: Key| #[trigger]
            held_after(s, events + key_ups(q).take(n)).contains(k) <==> exists|i: int| n <= i < q.len() && q[i] == k,
    decreases n,
{
    let ups = key_ups(q);
    if n == 0 {
        assert(events + ups.take(0) =~= events);
        assert forall|k: Key| #[trigger] held_after(s, events).contains(k) <==> exists|i: int|
            0 <= i < q.len() && q[i] == k by {
            assert(q.contains(k) <==> held.contains(k));
        }
    } else {
        some_went_up(s, held, events, q, n - 1);
        let front = events + ups.take(n - 1);
        let k = q[n - 1];
        assert(events + ups.take(n) =~= front.push(EventView::KeyUp(k)));
        one_more_event(s, front, EventView::KeyUp(k));
        assert(q[n - 1] == k);
        assert forall|m: Key| #[trigger] held_after(s, events + ups.take(n)).contains(m) <==> exists|i: int|
            n <= i < q.len() && q[i] == m by {
            if held_after(s, front).contains(m) && m != k {
                let i = choose|i: int| n - 1 <= i < q.len() && q[i] == m;
                assert(n <= i && q[i] == m);
            }
            if exists|i: int| n <= i < q.len() && q[i] == m {
                let i = choose|i: int| n <= i < q.len() && q[i] == m;
                assert(q[n - 1] < q[i]);
                assert(n - 1 <= i && q[i] == m);
            }
        }
    }
}

/// Changes of size tell nothing of keys.
pub proof fn sizes_tell_nothing_of_keys(s: Set<Key>, events: Seq<EventView>)
    ensures
        held_after(s, without_resized(events)) == held_after(s, events),
        takes_turns(s, without_resized(events)) == takes_turns(s, events),
    decreases events.len(),
{
    reveal(Seq::filter);
    if events.len() > 0 {
        let front = events.drop_last();
        sizes_tell_nothing_of_keys(s, front);
        one_more_event(s, without_resized(front), events.last());
    }
}

} // verus!
