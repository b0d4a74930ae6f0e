//! What holds of a window's events and of the run that checks it: what is told in what order, which
//! events end a look, and what each stage does and asks.
use vstd::prelude::*;

use crate::text::{decimal, decimal_reads_back, has_at, number_in, unsigned_part};
use crate::window::checks::{count, count_resized, first_frame, is_added, is_nothing, seen, typed, Acc, Route};
use crate::window::frame::Frame;
use crate::window::model::{in_order, key_ups, members_below, without_resized, CloseCause, EventView, Key};
use crate::window::options::{frames_given, frames_in};
use crate::window::report::{all_lines, line_text};
use crate::window::script::{
    check_line, checks_of, detail_of, ends, failed, frames_of, notes_of, stage_after, turn_of, Facts, Job, Stage, Until,
};
use crate::window::session::{responds, Act, Session};
use crate::window::table::without;

verus! {

/// The keys that are held come smallest first, each once, and all of them.
pub proof fn held_keys_are_in_order(s: Set<Key>, k: Key)
    ensures
        in_order(s).contains(k) <==> s.contains(k),
        forall|i: int, j: int| 0 <= i < j < in_order(s).len() ==> in_order(s)[i] < in_order(s)[j],
{
    members_are_in_order(s, 0x1_0000, k);
}

proof fn members_are_in_order(s: Set<Key>, n: nat, k: Key)
    requires
        n <= 0x1_0000,
    ensures
        members_below(s, n).contains(k) <==> s.contains(k) && k < n,
        forall|i: int, j: int| 0 <= i < j < members_below(s, n).len() ==> members_below(s, n)[i] < members_below(s, n)[j],
        forall|i: int| 0 <= i < members_below(s, n).len() ==> #[trigger] members_below(s, n)[i] < n,
    decreases n,
{
    if n > 0 {
        let m = (n - 1) as nat;
        members_are_in_order(s, m, k);
        let (x, y) = (members_below(s, m), members_below(s, n));
        if s.contains(m as u16) {
            if x.contains(k) {
                assert(y[x.index_of(k)] == k);
            }
            if k == m {
                assert(y[x.len() as int] == k);
            }
            if y.contains(k) && k != m {
                assert(x[y.index_of(k)] == k);
            }
        }
    }
}

/// Each key goes up once, in the order given.
pub proof fn each_key_goes_up(keys: Seq<Key>, i: int)
    requires
        0 <= i < keys.len(),
    ensures
        key_ups(keys).len() == keys.len(),
        key_ups(keys)[i] == EventView::KeyUp(keys[i]),
{
}

/// Only changes of size are taken out, and what stays keeps its order.
pub proof fn only_resizes_are_taken_out(a: Seq<EventView>, b: Seq<EventView>, e: EventView)
    ensures
        without_resized(a + b) == without_resized(a) + without_resized(b),
        !(e is Resized) ==> without_resized(a.push(e)) == without_resized(a).push(e),
        e is Resized ==> without_resized(a.push(e)) == without_resized(a),
    decreases b.len(),
{
    reveal(Seq::filter);
    assert(a.push(e).drop_last() =~= a);
    if b.len() == 0 {
        assert(a + b =~= a);
        assert(without_resized(a) + without_resized(b) =~= without_resized(a));
    } else {
        only_resizes_are_taken_out(a, b.drop_last(), e);
        assert((a + b).drop_last() =~= a + b.drop_last());
        assert((a + b).last() == b.last());
        assert(without_resized(a + b) =~= without_resized(a) + without_resized(b));
    }
}

/// An event came.
pub open spec fn came(events: Seq<(usize, EventView)>, e: EventView) -> bool {
    exists|i: int| 0 <= i < events.len() && (#[trigger] events[i]).1 == e
}

/// The first frame of an event is that of the first time it came.
pub proof fn the_first_time_counts(events: Seq<(usize, EventView)>, e: EventView)
    ensures
        first_frame(events, e) is Some <==> came(events, e),
        first_frame(events, e) is Some ==> exists|i: int|
            {
                &&& 0 <= i < events.len()
                &&& (#[trigger] events[i]).1 == e
                &&& first_frame(events, e) == Some(events[i].0)
                &&& forall|j: int| 0 <= j < i ==> (#[trigger] events[j]).1 != e
            },
    decreases events.len(),
{
    if events.len() > 0 {
        let rest = events.skip(1);
        the_first_time_counts(rest, e);
        if events[0].1 != e {
            if came(events, e) {
                let i = choose|i: int| 0 <= i < events.len() && (#[trigger] events[i]).1 == e;
                assert(rest[i - 1].1 == e);
            }
            if first_frame(rest, e) is Some {
                let i = choose|i: int|
                    {
                        &&& 0 <= i < rest.len()
                        &&& (#[trigger] rest[i]).1 == e
                        &&& first_frame(rest, e) == Some(rest[i].0)
                        &&& forall|j: int| 0 <= j < i ==> (#[trigger] rest[j]).1 != e
                    };
                assert(events[i + 1] == rest[i]);
                assert forall|j: int| 0 <= j < i + 1 implies (#[trigger] events[j]).1 != e by {
                    if j > 0 {
                        assert(rest[j - 1] == events[j]);
                    }
                }
            }
        }
    }
}

/// Every time that an event came is counted, and no other.
pub proof fn every_time_is_counted(a: Seq<(usize, EventView)>, i: usize, e: EventView, f: EventView)
    ensures
        count(Seq::<(usize, EventView)>::empty(), e) == 0,
        count(a.push((i, e)), e) == count(a, e) + 1,
        e != f ==> count(a.push((i, f)), e) == count(a, e),
        count_resized(Seq::<(usize, EventView)>::empty()) == 0,
        count_resized(a.push((i, e))) == count_resized(a) + (if e is Resized {
            1nat
        } else {
            0
        }),
{
    reveal(Seq::filter);
    assert(a.push((i, e)).drop_last() =~= a);
    assert(a.push((i, f)).drop_last() =~= a);
}

/// What was typed is the texts one after the other, and nothing else adds to it.
pub proof fn texts_are_typed_in_order(a: Seq<(usize, EventView)>, i: usize, e: EventView)
    ensures
        typed(Seq::<(usize, EventView)>::empty()).len() == 0,
        e is Text ==> typed(a.push((i, e))) == typed(a) + e->Text_0,
        !(e is Text) ==> typed(a.push((i, e))) == typed(a),
{
    assert(a.push((i, e)).drop_last() =~= a);
    if !(e is Text) {
        assert(typed(a.push((i, e))) =~= typed(a));
    }
}

/// What a user does by its number: key 8 takes the cursor or gives it back, key 53 only gives it
/// back, key 17 sets the title, and no other key does anything; a request to close is declined
/// unless the one before it was less than two seconds ago.
pub proof fn each_key_does_its_own(s: Session, k: Key, now: u64, cause: CloseCause)
    ensures
        ({
            let (t, act) = responds(s, EventView::KeyDown(k), now);
            &&& t.last_close == s.last_close
            &&& k == 8 ==> t.captured == !s.captured && act == Act::CaptureCursor(t.captured)
            &&& k == 53 && s.captured ==> !t.captured && act == Act::CaptureCursor(false)
            &&& k == 53 && !s.captured ==> t == s && act == Act::Nothing
            &&& k == 17 ==> t == s && act == Act::SetTitle
            &&& k != 8 && k != 53 && k != 17 ==> t == s && act == Act::Nothing
        }),
        responds(s, EventView::KeyUp(k), now) == (s, Act::Nothing),
        ({
            let (t, act) = responds(s, EventView::CloseRequested(cause), now);
            let soon = s.last_close is Some && now < s.last_close->0 + 2_000_000_000;
            &&& t.captured == s.captured
            &&& soon ==> act == Act::Exit(cause) && t == s
            &&& !soon ==> act == Act::Decline(cause) && t.last_close == Some(now)
        }),
{
}

/// The first argument that gives a number of frames counts.
pub proof fn the_first_number_counts(a: Seq<String>, arg: String)
    ensures
        frames_given(Seq::<String>::empty()) is None,
        frames_given(a) is Some ==> frames_given(a.push(arg)) == frames_given(a),
        frames_given(a) is None ==> frames_given(a.push(arg)) == frames_in(arg@),
{
    assert(a.push(arg).drop_last() =~= a);
}

/// `--frames=` and a number gives that number, and what does not start so gives none.
pub proof fn frames_are_read_back(n: usize, arg: Seq<char>)
    ensures
        frames_in("--frames="@ + decimal(n as nat)) == Some(n),
        !has_at(arg, "--frames="@, 0) ==> frames_in(arg) is None,
{
    reveal_strlit("--frames=");
    let d = decimal(n as nat);
    let t = "--frames="@ + d;
    decimal_reads_back(n as nat);
    assert(t.subrange(0, 9) =~= "--frames="@);
    assert(has_at(t, "--frames="@, 0));
    assert(t.skip(9) =~= d);
    assert(unsigned_part(d) == d);
    assert(number_in(d) == Some(n));
}

/// Lines come one after the other, each with its end; a line is a mark in brackets, a name, a colon
/// and what there is to say.
pub proof fn lines_follow_each_other(a: Seq<Seq<char>>, b: Seq<Seq<char>>, line: Seq<char>, name: Seq<char>)
    ensures
        all_lines(seq![line]) == line + "\n"@,
        all_lines(a + b) == all_lines(a) + all_lines(b),
        line_text("PASS"@, name, line) == "[PASS] "@ + name + ": "@ + line,
        line_text("FAIL"@, name, line) == "[FAIL] "@ + name + ": "@ + line,
    decreases b.len(),
{
    let none = Seq::<Seq<char>>::empty();
    assert(seq![line].drop_last() =~= none);
    assert(all_lines(none) =~= Seq::<char>::empty());
    assert(all_lines(seq![line]) =~= line + "\n"@);
    reveal_strlit("[PASS] ");
    reveal_strlit("[FAIL] ");
    reveal_strlit("PASS");
    reveal_strlit("FAIL");
    reveal_strlit("[");
    reveal_strlit("] ");
    assert("["@ + "PASS"@ + "] "@ =~= "[PASS] "@);
    assert("["@ + "FAIL"@ + "] "@ =~= "[FAIL] "@);
    if b.len() == 0 {
        assert(a + b =~= a);
        assert(all_lines(a) + all_lines(b) =~= all_lines(a));
    } else {
        lines_follow_each_other(a, b.drop_last(), line, name);
        assert((a + b).drop_last() =~= a + b.drop_last());
        assert((a + b).last() == b.last());
        assert(all_lines(a + b) =~= all_lines(a) + all_lines(b));
    }
}

/// Closing a window takes it off the table and leaves the others.
pub proof fn only_that_window_is_closed(ids: Seq<u64>, id: u64, other: u64)
    requires
        ids.no_duplicates(),
    ensures
        !without(ids, id).contains(id),
        other != id ==> (without(ids, id).contains(other) <==> ids.contains(other)),
        without(ids, id).len() == ids.len() - (if ids.contains(id) {
            1int
        } else {
            0
        }),
{
    if ids.contains(id) {
        let i = ids.index_of(id);
        let out = ids.remove(i);
        if out.contains(id) {
            let j = out.index_of(id);
            assert(out[j] == ids[if j < i {
                j
            } else {
                j + 1
            }]);
        }
        if other != id && ids.contains(other) {
            let j = ids.index_of(other);
            assert(out[if j < i {
                j
            } else {
                j - 1
            }] == other);
        }
        if out.contains(other) {
            let j = out.index_of(other);
            assert(ids[if j < i {
                j
            } else {
                j + 1
            }] == other);
        }
    }
}

/// The stages in the order in which they come.
pub open spec fn stages() -> Seq<Stage> {
    seq![
        Stage::Begin,
        Stage::TapWindow,
        Stage::TapApp,
        Stage::Hold,
        Stage::LetGo,
        Stage::TypeTwo,
        Stage::Rest,
        Stage::MovesWindow,
        Stage::MovesApp,
        Stage::Scroll,
        Stage::Click,
        Stage::CommandTap,
        Stage::Resize,
        Stage::Resized,
        Stage::ResizeBurst,
        Stage::ResizeRest,
        Stage::HoldAgain,
        Stage::LoseFocus,
        Stage::GainFocus,
        Stage::Capture,
        Stage::MoveCaptured,
        Stage::Release,
        Stage::Post,
        Stage::Hide,
        Stage::Show,
        Stage::Raise,
        Stage::Close,
        Stage::Quit,
        Stage::End,
    ]
}

/// Every stage is followed by the next. Where the window is gone before it can be resized the three
/// stages that look at its sizes are left out.
pub proof fn stages_follow_each_other(i: int)
    requires
        0 <= i < 28,
    ensures
        stage_after(stages()[i], true) == stages()[i + 1],
        stage_after(stages()[i], false) == (if i == 12 {
            stages()[16]
        } else {
            stages()[i + 1]
        }),
{
}

/// A stage waits for what it does: for a key to go up that it taps, for as many moves as it makes,
/// for the button that it clicks, the size that it changes, the focus that it takes or gives, and the
/// request to close that it makes.
pub proof fn a_stage_waits_for_what_it_does(s: Stage, route: Route)
    ensures
        ({
            let t = turn_of(s, route);
            &&& match t.job {
                Job::Tap { key, text, route } => key == 13 && text == 'w' && t.until == Until::KeyUp(key),
                Job::TapTwo { first, first_text, second, second_text } => {
                    &&& first == 4 && first_text == 'h'
                    &&& second == 34 && second_text == 'i'
                    &&& t.until == Until::KeyUp(second)
                },
                Job::Down { key, text } => key == 0 && text == 'a' && t.until is Never,
                Job::Up { key, text } => key == 0 && text == 'a' && t.until == Until::KeyUp(key),
                Job::Moves { count, dx, dy, route } => t.until == Until::Moved(count as u64),
                Job::Scroll { lines } => lines == -3 && t.until is Scrolled,
                Job::Click => t.until == Until::ButtonUp(0),
                Job::CommandTap { key, text } => key == 17 && text == 't' && t.until == Until::KeyUp(key),
                Job::Size { width, height } => width == 640 && height == 360 && t.until is Resized,
                Job::Sizes { width, by, count, height } => {
                    &&& width == 640 && by == 5 && count == 20 && height == 360
                    &&& t.until is Resized
                },
                Job::OtherWindow => t.until is FocusLost,
                Job::ThisWindow => if s == Stage::GainFocus {
                    t.until is FocusGained
                } else {
                    t.until is Never
                },
                Job::Post { key } => key == 105 && t.until == Until::KeyUp(key),
                Job::CloseButton => t.until == Until::Asked(CloseCause::CloseButton),
                Job::Command { key, text } => key == 12 && text == 'q' && t.until == Until::Asked(CloseCause::Quit),
                Job::Capture { on } => (on <==> s == Stage::Capture) && t.frames == 0,
                Job::Hide => t.frames == 0,
                Job::Raise => t.frames == 0,
                Job::Nothing => t.until is Never,
            }
            &&& t.frames <= 30
        }),
        frames_of(s, route, true) == turn_of(s, route).frames,
        frames_of(s, route, false) == (if s == Stage::Resize {
            0
        } else {
            turn_of(s, route).frames
        }),
{
}

/// Which stages do what, and which way: the two that name the window go to it, and the two after
/// them come by the way that is given.
pub proof fn each_stage_does_its_job(route: Route)
    ensures
        turn_of(Stage::TapWindow, route).job == (Job::Tap { key: 13, text: 'w', route: Route::Window }),
        turn_of(Stage::TapApp, route).job == (Job::Tap { key: 13, text: 'w', route }),
        turn_of(Stage::Hold, route).job is Down && turn_of(Stage::Hold, route).frames == 10,
        turn_of(Stage::LetGo, route).job is Up,
        turn_of(Stage::TypeTwo, route).job is TapTwo,
        turn_of(Stage::MovesWindow, route).job == (Job::Moves { count: 100, dx: 1, dy: -2i32, route: Route::Window }),
        turn_of(Stage::MovesApp, route).job == (Job::Moves { count: 100, dx: 1, dy: -2i32, route }),
        turn_of(Stage::MoveCaptured, route).job == (Job::Moves { count: 10, dx: 5, dy: 3, route: Route::Window }),
        turn_of(Stage::Scroll, route).job is Scroll,
        turn_of(Stage::Click, route).job is Click,
        turn_of(Stage::CommandTap, Route::AppQueue).job is CommandTap,
        turn_of(Stage::CommandTap, Route::Window).job is Nothing,
        turn_of(Stage::Resize, route).job is Size,
        turn_of(Stage::ResizeBurst, route).job is Sizes,
        turn_of(Stage::HoldAgain, route).job is Down,
        turn_of(Stage::LoseFocus, route).job is OtherWindow,
        turn_of(Stage::GainFocus, route).job is ThisWindow,
        turn_of(Stage::Capture, route).job is Capture,
        turn_of(Stage::Release, route).job is Capture,
        turn_of(Stage::Post, route).job is Post,
        turn_of(Stage::Hide, route).job is Hide,
        turn_of(Stage::Show, route).job is ThisWindow,
        turn_of(Stage::Raise, route).job is Raise,
        turn_of(Stage::Close, route).job is CloseButton,
        turn_of(Stage::Quit, route).job is Command,
{
}

/// A look ends when what it waits for has come, and not by any other event.
pub proof fn a_look_ends_by_what_it_waits_for(until: Until, acc: &Acc)
    ensures
        ({
            let events = seen(acc.events@);
            ends(until, acc) <==> match until {
                Until::Never => false,
                Until::Scrolled => false,
                Until::KeyUp(key) => came(events, EventView::KeyUp(key)),
                Until::Moved(n) => acc.motion_events >= n,
                Until::ButtonUp(b) => came(events, EventView::MouseUp(b)),
                Until::Resized => count_resized(events) != 0,
                Until::FocusLost => came(events, EventView::FocusLost),
                Until::FocusGained => came(events, EventView::FocusGained),
                Until::Asked(cause) => came(events, EventView::CloseRequested(cause)),
            }
        }),
{
    let events = seen(acc.events@);
    match until {
        Until::KeyUp(key) => the_first_time_counts(events, EventView::KeyUp(key)),
        Until::ButtonUp(b) => the_first_time_counts(events, EventView::MouseUp(b)),
        Until::FocusLost => the_first_time_counts(events, EventView::FocusLost),
        Until::FocusGained => the_first_time_counts(events, EventView::FocusGained),
        Until::Asked(cause) => the_first_time_counts(events, EventView::CloseRequested(cause)),
        _ => {},
    }
}

/// A stage's check holds only where what it is about has come: the keys, the text and the button
/// that the stage sent, the one change of size, the focus, the request to close, and what only the
/// system knows.
pub proof fn a_check_is_of_what_came(s: Stage, route: Route, acc: &Acc, before: &Acc, facts: Facts)
    ensures
        ({
            let (events, earlier) = (seen(acc.events@), seen(before.events@));
            let checks = checks_of(s, route, acc, before, facts);
            match s {
                Stage::TapWindow => {
                    &&& checks.len() == 2
                    &&& checks[0].1 ==> came(events, EventView::KeyDown(13)) && came(events, EventView::KeyUp(13))
                        && !acc.held_union@.contains(13)
                    &&& checks[0].1 <==> came(events, EventView::KeyDown(13)) && first_frame(events, EventView::KeyDown(13))
                        == first_frame(events, EventView::KeyUp(13)) && !acc.held_union@.contains(13)
                    &&& checks[1].1 <==> came(events, EventView::Text("w"@))
                },
                Stage::TapApp => checks.len() == 1 && (checks[0].1 <==> came(events, EventView::KeyDown(13)) && came(
                    events,
                    EventView::KeyUp(13),
                ) && acc.held_last@.len() == 0),
                Stage::LetGo => checks.len() == 1 && (checks[0].1 <==> before.held_last@ == seq![0u16] && count(
                    earlier,
                    EventView::KeyDown(0),
                ) == 1 && acc.held_last@.len() == 0 && before.frames == 10),
                Stage::TypeTwo => checks.len() == 1 && (checks[0].1 <==> typed(events) == "hi"@),
                Stage::MovesWindow => checks.len() == 1 && (checks[0].1 <==> facts.moves_add_up && acc.motion_frames == 1),
                Stage::MovesApp => checks.len() == 1 && (checks[0].1 <==> facts.moves_add_up),
                Stage::Scroll => checks.len() == 1 && (checks[0].1 <==> facts.scrolled),
                Stage::Click => checks.len() == 1 && (checks[0].1 <==> came(events, EventView::MouseDown(0)) && came(
                    events,
                    EventView::MouseUp(0),
                )),
                Stage::CommandTap => if route == Route::AppQueue {
                    checks.len() == 1 && (checks[0].1 <==> came(events, EventView::KeyUp(17)) && acc.held_last@.len() == 0)
                } else {
                    checks.len() == 0
                },
                Stage::Resize => if facts.there {
                    checks.len() == 0
                } else {
                    checks.len() == 1 && !checks[0].1
                },
                Stage::Resized => checks.len() == 1 && (checks[0].1 <==> came(
                    earlier,
                    EventView::Resized { width: facts.want.0, height: facts.want.1 },
                ) && count_resized(earlier) == 1 && acc.size_mismatch == 0 && facts.resizes == facts.resizes_before + 1),
                Stage::ResizeBurst => checks.len() == 1 && (checks[0].1 <==> count_resized(events) == 1),
                Stage::LoseFocus => checks.len() == 1 && (checks[0].1 <==> came(events, EventView::FocusLost) && came(
                    events,
                    EventView::KeyUp(0),
                ) && acc.held_last@.len() == 0),
                Stage::GainFocus => checks.len() == 1 && (checks[0].1 <==> came(events, EventView::FocusGained)),
                Stage::Capture => checks.len() == 1 && (checks[0].1 <==> facts.capture_taken),
                Stage::Release => checks.len() == 1 && (checks[0].1 <==> facts.capture_taken),
                Stage::Raise => checks.len() == 1 && (checks[0].1 <==> facts.raised_came_back && facts.serving),
                Stage::Close => checks.len() == 1 && (checks[0].1 <==> came(
                    events,
                    EventView::CloseRequested(CloseCause::CloseButton),
                ) && facts.visible),
                Stage::Quit => checks.len() == 1 && (checks[0].1 <==> came(
                    events,
                    EventView::CloseRequested(CloseCause::Quit),
                )),
                _ => checks.len() == 0,
            }
        }),
{
    let (events, earlier) = (seen(acc.events@), seen(before.events@));
    the_first_time_counts(events, EventView::KeyDown(13));
    the_first_time_counts(events, EventView::KeyUp(13));
    the_first_time_counts(events, EventView::Text("w"@));
    the_first_time_counts(events, EventView::MouseDown(0));
    the_first_time_counts(events, EventView::MouseUp(0));
    the_first_time_counts(events, EventView::KeyUp(17));
    the_first_time_counts(events, EventView::KeyUp(0));
    the_first_time_counts(earlier, EventView::Resized { width: facts.want.0, height: facts.want.1 });
    the_first_time_counts(events, EventView::FocusLost);
    the_first_time_counts(events, EventView::FocusGained);
    the_first_time_counts(events, EventView::CloseRequested(CloseCause::CloseButton));
    the_first_time_counts(events, EventView::CloseRequested(CloseCause::Quit));
}

/// What fails is counted, each once; a check that holds passes and one that does not fails.
pub proof fn failures_are_counted(checks: Seq<(Seq<char>, bool)>, c: (Seq<char>, bool), detail: Seq<char>)
    ensures
        failed(Seq::<(Seq<char>, bool)>::empty()) == 0,
        failed(checks.push(c)) == failed(checks) + (if c.1 {
            0nat
        } else {
            1
        }),
        c.1 ==> check_line(c, detail) == line_text("PASS"@, c.0, detail),
        !c.1 ==> check_line(c, detail) == line_text("FAIL"@, c.0, detail),
{
    assert(checks.push(c).drop_last() =~= checks);
}

/// Four stages note something, and only they: what is not run without the queue, the moves while the
/// cursor is captured, the key that is posted, and the frames while the window is hidden.
pub proof fn four_stages_note_something(s: Stage, route: Route, before: &Acc, detail: Seq<char>, k: int)
    ensures
        notes_of(s, route, before, detail).len() == (if (s == Stage::CommandTap && route == Route::Window) || s
            == Stage::MoveCaptured || s == Stage::Post || s == Stage::Show {
            1nat
        } else {
            0
        }),
        !(s == Stage::TapWindow && k == 1) && s != Stage::Resize ==> detail_of(s, k, detail) == detail,
        detail_of(Stage::Resize, k, detail) == "window gone"@,
{
}

/// A frame counts once: as a frame without a refresh exactly where none came, as one with motion
/// exactly where there was some, and as one of the wrong size exactly where it was drawn into
/// another. Its events are seen after all before, each with its number.
pub proof fn a_frame_counts_once(before: Acc, after: Acc, i: usize, f: Frame, drawn: Option<(u32, u32)>, k: int)
    requires
        is_added(before, after, i, f, drawn),
    ensures
        after.frames - before.frames == 1,
        after.ticks - before.ticks == f.ticks,
        after.motion_events - before.motion_events == f.mouse_events_summed,
        0 <= after.zero_tick_frames - before.zero_tick_frames <= 1,
        0 <= after.motion_frames - before.motion_frames <= 1,
        0 <= after.size_mismatch - before.size_mismatch <= 1,
        after.zero_tick_frames > before.zero_tick_frames <==> f.ticks == 0,
        after.motion_frames > before.motion_frames <==> f.mouse_events_summed > 0,
        after.size_mismatch > before.size_mismatch <==> drawn is Some && drawn != Some((f.width, f.height)),
        after.last_size == (f.width, f.height),
        after.held_last@ == f.held@,
        seen(after.events@).len() == seen(before.events@).len() + f.events@.len(),
        0 <= k < before.events@.len() ==> seen(after.events@)[k] == seen(before.events@)[k],
        0 <= k < f.events@.len() ==> seen(after.events@)[before.events@.len() + k] == (i, f.events@[k]@),
        forall|key: Key| #[trigger]
            after.held_union@.contains(key) <==> before.held_union@.contains(key) || f.held@.contains(key),
{
}

/// Each way is told by its own name: a tap and the moves say which they came by.
pub proof fn ways_are_told_by_name(acc: &Acc, before: &Acc, facts: Facts)
    ensures
        checks_of(Stage::TapApp, Route::AppQueue, acc, before, facts)[0].0 == "key tap via AppQueue arrives"@,
        checks_of(Stage::TapApp, Route::Window, acc, before, facts)[0].0 == "key tap via Window arrives"@,
        checks_of(Stage::MovesApp, Route::AppQueue, acc, before, facts)[0].0
            == "mouse deltas summed (100 moves via AppQueue)"@,
        checks_of(Stage::MovesApp, Route::Window, acc, before, facts)[0].0
            == "mouse deltas summed (100 moves via Window)"@,
{
    reveal_strlit("key tap via ");
    reveal_strlit(" arrives");
    reveal_strlit("AppQueue");
    reveal_strlit("Window");
    reveal_strlit("mouse deltas summed (100 moves via ");
    reveal_strlit(")");
    reveal_strlit("key tap via AppQueue arrives");
    reveal_strlit("key tap via Window arrives");
    reveal_strlit("mouse deltas summed (100 moves via AppQueue)");
    reveal_strlit("mouse deltas summed (100 moves via Window)");
    assert("key tap via "@ + "AppQueue"@ + " arrives"@ =~= "key tap via AppQueue arrives"@);
    assert("key tap via "@ + "Window"@ + " arrives"@ =~= "key tap via Window arrives"@);
    assert("mouse deltas summed (100 moves via "@ + "AppQueue"@ + ")"@ =~= "mouse deltas summed (100 moves via AppQueue)"@);
    assert("mouse deltas summed (100 moves via "@ + "Window"@ + ")"@ =~= "mouse deltas summed (100 moves via Window)"@);
}

/// A window that is gone gets no frames of its resize; in every other stage as many are taken as its
/// turn says, whether it is there or not.
pub proof fn a_window_that_is_gone_gets_no_frames(s: Stage, route: Route, there: bool)
    ensures
        frames_of(Stage::Resize, route, false) == 0,
        s != Stage::Resize || there ==> frames_of(s, route, there) == turn_of(s, route).frames,
{
}

/// At first nothing has been counted, and nothing is held.
pub proof fn at_first_nothing_is_counted(a: Acc, k: Key)
    requires
        is_nothing(a),
    ensures
        a.frames == 0,
        a.ticks == 0,
        a.zero_tick_frames == 0,
        a.motion_frames == 0,
        a.motion_events == 0,
        a.size_mismatch == 0,
        a.last_size == (0u32, 0u32),
        seen(a.events@).len() == 0,
        a.held_last@.len() == 0,
        !a.held_union@.contains(k),
{
}

/// What a stage notes says what it is of: the recovery that was not run, and why, or the moves, the
/// key or the hidden window, with what was seen. The frames are told by how many were taken, how many
/// refreshes there were, and how many came without one.
pub proof fn notes_say_what_they_are_of(route: Route, before: &Acc, detail: Seq<char>)
    ensures
        notes_of(Stage::CommandTap, Route::Window, before, detail)[0] == "[UNRUN] Cmd+key keyUp recovery: "@
            + "app is not active/key, so the app-queue route (where the swallowing happens) cannot be exercised"@,
        notes_of(Stage::MoveCaptured, route, before, detail)[0] == "[INFO] deltas while captured (synthetic): "@ + detail,
        notes_of(Stage::Post, route, before, detail)[0] == "[INFO] CGEventPostToPid(self) F13: "@ + detail,
        notes_of(Stage::Show, route, before, detail)[0] == "[INFO] window ordered out for 1 s: "@ + (decimal(
            before.frames as nat,
        ) + " next_frame returns, "@ + decimal(before.ticks as nat) + " display ticks, "@ + decimal(
            before.zero_tick_frames as nat,
        ) + " fallback (no-tick) frames"@),
{
    reveal_strlit("[");
    reveal_strlit("] ");
    reveal_strlit(": ");
    reveal_strlit("UNRUN");
    reveal_strlit("INFO");
    reveal_strlit("Cmd+key keyUp recovery");
    reveal_strlit("deltas while captured (synthetic)");
    reveal_strlit("CGEventPostToPid(self) F13");
    reveal_strlit("window ordered out for 1 s");
    reveal_strlit("[UNRUN] Cmd+key keyUp recovery: ");
    reveal_strlit("[INFO] deltas while captured (synthetic): ");
    reveal_strlit("[INFO] CGEventPostToPid(self) F13: ");
    reveal_strlit("[INFO] window ordered out for 1 s: ");
    assert("["@ + "UNRUN"@ + "] "@ + "Cmd+key keyUp recovery"@ + ": "@ =~= "[UNRUN] Cmd+key keyUp recovery: "@);
    assert("["@ + "INFO"@ + "] "@ + "deltas while captured (synthetic)"@ + ": "@
        =~= "[INFO] deltas while captured (synthetic): "@);
    assert("["@ + "INFO"@ + "] "@ + "CGEventPostToPid(self) F13"@ + ": "@ =~= "[INFO] CGEventPostToPid(self) F13: "@);
    assert("["@ + "INFO"@ + "] "@ + "window ordered out for 1 s"@ + ": "@ =~= "[INFO] window ordered out for 1 s: "@);
}

/// Each check is told by its own name.
pub proof fn checks_are_told_by_name(route: Route, acc: &Acc, before: &Acc, facts: Facts)
    ensures
        checks_of(Stage::TapWindow, route, acc, before, facts)[0].0 == "key tap within one frame is not lost"@,
        checks_of(Stage::TapWindow, route, acc, before, facts)[1].0 == "text via interpretKeyEvents -> insertText"@,
        checks_of(Stage::LetGo, route, acc, before, facts)[0].0 == "held snapshot"@,
        checks_of(Stage::TypeTwo, route, acc, before, facts)[0].0 == "text order"@,
        checks_of(Stage::MovesWindow, route, acc, before, facts)[0].0 == "mouse deltas summed (100 moves, one job)"@,
        checks_of(Stage::Scroll, route, acc, before, facts)[0].0 == "scroll"@,
        checks_of(Stage::CommandTap, Route::AppQueue, acc, before, facts)[0].0 == "Cmd+T keyUp recovered by local monitor"@,
        checks_of(Stage::Capture, route, acc, before, facts)[0].0 == "capture_cursor(true)"@,
        checks_of(Stage::Release, route, acc, before, facts)[0].0 == "capture_cursor(false)"@,
        checks_of(Stage::Raise, route, acc, before, facts)[0].0 == "ObjC exception on main-queue job becomes a value"@,
        checks_of(Stage::Click, route, acc, before, facts)[0].0 == "mouse button"@,
        !facts.there ==> checks_of(Stage::Resize, route, acc, before, facts)[0].0 == "resize"@,
        checks_of(Stage::Resized, route, acc, before, facts)[0].0
            == "resize -> one Resized, pixel size = points x scale, drawables follow"@,
        checks_of(Stage::ResizeBurst, route, acc, before, facts)[0].0 == "20 resizes in one job coalesce to one Resized"@,
        checks_of(Stage::LoseFocus, route, acc, before, facts)[0].0 == "FocusLost, and held keys released with it"@,
        checks_of(Stage::GainFocus, route, acc, before, facts)[0].0 == "FocusGained"@,
        checks_of(Stage::Close, route, acc, before, facts)[0].0
            == "close button -> CloseRequested, window stays until the program decides"@,
        checks_of(Stage::Quit, route, acc, before, facts)[0].0 == "Cmd-Q -> CloseRequested(Quit), process keeps running"@,
        detail_of(Stage::TapWindow, 1, Seq::empty()) == "Text(\"w\") from the synthetic W"@,
{
}

} // verus!
