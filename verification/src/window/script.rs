//! A run that checks a window: what is done to it, stage by stage, how long the frames are
//! looked at after it, and what has to come of it.
use vstd::prelude::*;
use vstd::string::StringExecFns;

use crate::text::same;
use crate::window::checks::{
    count, count_resized, counts_of, first_frame, is_added, is_nothing, seen, typed, Acc, Route,
};
use crate::window::frame::Frame;
use crate::window::model::{CloseCause, Event, EventView, Key};
use crate::window::report::{line_text, texts, Report};
use crate::window::session::KEY_T;

verus! {

/// The key that a tap is made with.
pub const KEY_W: Key = 13;

/// The key that is held.
pub const KEY_A: Key = 0;

/// The first key that is typed.
pub const KEY_H: Key = 4;

/// The second key that is typed.
pub const KEY_I: Key = 34;

/// The key that quits, with the command key.
pub const KEY_Q: Key = 12;

/// A key that no keyboard has here, posted by the program to itself.
pub const KEY_F13: Key = 105;

/// What is done to the window, all of it between two frames.
#[derive(Clone, Copy, Debug, PartialEq, Eq, Structural)]
pub enum Job {
    Nothing,
    /// A key goes down and up.
    Tap { key: Key, text: char, route: Route },
    Down { key: Key, text: char },
    Up { key: Key, text: char },
    /// Two keys go down and up, one after the other.
    TapTwo { first: Key, first_text: char, second: Key, second_text: char },
    /// The mouse moves, so many times.
    Moves { count: u32, dx: i32, dy: i32, route: Route },
    /// The wheel of the mouse turns by so many lines.
    Scroll { lines: i32 },
    /// The button of the mouse goes down and up.
    Click,
    /// A key goes down and up while the command key is held, through the program's queue.
    CommandTap { key: Key, text: char },
    /// The content is this large, in points.
    Size { width: u32, height: u32 },
    /// The content is so many sizes in turn, each wider than the one before.
    Sizes { width: u32, by: u32, count: u32, height: u32 },
    /// Another window takes the focus.
    OtherWindow,
    /// The window has the focus again.
    ThisWindow,
    /// The cursor is captured, or let go.
    Capture { on: bool },
    /// The program posts a key to itself, down and up.
    Post { key: Key },
    /// The window is taken off the screen, and frames are looked at one by one for a second.
    Hide,
    /// An exception is raised on the main thread.
    Raise,
    /// The button that closes the window.
    CloseButton,
    /// The command key with a key.
    Command { key: Key, text: char },
}

/// What ends a look at the frames before its time.
#[derive(Clone, Copy, Debug, PartialEq, Eq, Structural)]
pub enum Until {
    Never,
    KeyUp(Key),
    Moved(u64),
    /// The wheel has turned by something in all, which [`Pump::turned`] tells.
    Scrolled,
    ButtonUp(u8),
    Resized,
    FocusLost,
    FocusGained,
    Asked(CloseCause),
}

/// What has been seen ends the look.
pub open spec fn ends(until: Until, acc: &Acc) -> bool {
    let events = seen(acc.events@);
    match until {
        Until::Never => false,
        Until::Scrolled => false,
        Until::KeyUp(key) => first_frame(events, EventView::KeyUp(key)) is Some,
        Until::Moved(n) => acc.motion_events >= n,
        Until::ButtonUp(b) => first_frame(events, EventView::MouseUp(b)) is Some,
        Until::Resized => count_resized(events) > 0,
        Until::FocusLost => first_frame(events, EventView::FocusLost) is Some,
        Until::FocusGained => first_frame(events, EventView::FocusGained) is Some,
        Until::Asked(cause) => first_frame(events, EventView::CloseRequested(cause)) is Some,
    }
}

impl Until {
    /// Whether what has been seen ends the look.
    pub fn met(self, acc: &Acc) -> (yes: bool)
        ensures
            yes == ends(self, acc),
    {
        match self {
            Until::Never => false,
            Until::Scrolled => false,
            Until::KeyUp(key) => acc.has(&Event::KeyUp(key)),
            Until::Moved(n) => acc.motion_events >= n,
            Until::ButtonUp(b) => acc.has(&Event::MouseUp(b)),
            Until::Resized => acc.resizes() > 0,
            Until::FocusLost => acc.has(&Event::FocusLost),
            Until::FocusGained => acc.has(&Event::FocusGained),
            Until::Asked(cause) => acc.has(&Event::CloseRequested(cause)),
        }
    }
}

/// A look at the frames: what has been seen so far, and whether it is over.
#[derive(Debug)]
pub struct Pump {
    pub acc: Acc,
    pub max: usize,
    pub until: Until,
    pub over: bool,
}

impl Pump {
    /// There is room to count the frames that are left.
    pub open spec fn ok(&self) -> bool {
        &&& self.acc.ok()
        &&& self.acc.frames <= self.max <= u32::MAX
        &&& self.acc.frames == self.max ==> self.over
    }

    /// A look at `max` frames at most.
    pub fn new(max: usize, until: Until) -> (p: Pump)
        requires
            max <= u32::MAX,
        ensures
            p.ok(),
            p.max == max,
            p.until == until,
            p.over == (max == 0),
            is_nothing(p.acc),
    {
        Pump { acc: Acc::new(), max, until, over: max == 0 }
    }

    /// Takes the next frame, and the size of what it was drawn into, if it was drawn. There
    /// is none once the window has closed.
    pub fn take(&mut self, got: Option<(&Frame, Option<(u32, u32)>)>)
        requires
            old(self).ok(),
            !old(self).over,
            match got {
                Some((f, _)) => old(self).acc.ticks + f.ticks <= u64::MAX,
                None => true,
            },
        ensures
            final(self).ok(),
            final(self).max == old(self).max,
            final(self).until == old(self).until,
            match got {
                Some((f, drawn)) => {
                    &&& is_added(old(self).acc, final(self).acc, old(self).acc.frames, *f, drawn)
                    &&& final(self).over == (final(self).acc.frames == final(self).max || ends(
                        final(self).until,
                        &final(self).acc,
                    ))
                },
                None => final(self).over && final(self).acc == old(self).acc,
            },
    {
        match got {
            Some((f, drawn)) => {
                let i = self.acc.frames;
                self.acc.add(i, f, drawn);
                self.over = self.acc.frames == self.max || self.until.met(&self.acc);
            },
            None => {
                self.over = true;
            },
        }
    }

    /// The wheel has turned by something in all: a look that waits for that is over.
    pub fn turned(&mut self)
        requires
            old(self).ok(),
        ensures
            final(self).ok(),
            final(self).acc == old(self).acc,
            final(self).max == old(self).max,
            final(self).until == old(self).until,
            final(self).over == (old(self).over || old(self).until == Until::Scrolled),
    {
        if matches!(self.until, Until::Scrolled) {
            self.over = true;
        }
    }
}

/// A stage of the run.
#[derive(Clone, Copy, Debug, PartialEq, Eq, Structural)]
pub enum Stage {
    Begin,
    TapWindow,
    TapApp,
    Hold,
    LetGo,
    TypeTwo,
    Rest,
    MovesWindow,
    MovesApp,
    Scroll,
    Click,
    CommandTap,
    Resize,
    Resized,
    ResizeBurst,
    ResizeRest,
    HoldAgain,
    LoseFocus,
    GainFocus,
    Capture,
    MoveCaptured,
    Release,
    Post,
    Hide,
    Show,
    Raise,
    Close,
    Quit,
    End,
}

/// The stage after one. The window is `there`, or else it was gone when the stage's job was
/// to be done. Then nothing more is made of its sizes.
pub open spec fn stage_after(s: Stage, there: bool) -> Stage {
    match s {
        Stage::Begin => Stage::TapWindow,
        Stage::TapWindow => Stage::TapApp,
        Stage::TapApp => Stage::Hold,
        Stage::Hold => Stage::LetGo,
        Stage::LetGo => Stage::TypeTwo,
        Stage::TypeTwo => Stage::Rest,
        Stage::Rest => Stage::MovesWindow,
        Stage::MovesWindow => Stage::MovesApp,
        Stage::MovesApp => Stage::Scroll,
        Stage::Scroll => Stage::Click,
        Stage::Click => Stage::CommandTap,
        Stage::CommandTap => Stage::Resize,
        Stage::Resize => if there {
            Stage::Resized
        } else {
            Stage::HoldAgain
        },
        Stage::Resized => Stage::ResizeBurst,
        Stage::ResizeBurst => Stage::ResizeRest,
        Stage::ResizeRest => Stage::HoldAgain,
        Stage::HoldAgain => Stage::LoseFocus,
        Stage::LoseFocus => Stage::GainFocus,
        Stage::GainFocus => Stage::Capture,
        Stage::Capture => Stage::MoveCaptured,
        Stage::MoveCaptured => Stage::Release,
        Stage::Release => Stage::Post,
        Stage::Post => Stage::Hide,
        Stage::Hide => Stage::Show,
        Stage::Show => Stage::Raise,
        Stage::Raise => Stage::Close,
        Stage::Close => Stage::Quit,
        Stage::Quit => Stage::End,
        Stage::End => Stage::End,
    }
}

/// What a stage does, and how long it looks.
#[derive(Clone, Copy, Debug, PartialEq, Eq, Structural)]
pub struct Turn {
    pub job: Job,
    pub frames: usize,
    pub until: Until,
}

/// What a stage does, and how long it looks. `route` is the way that events come through the
/// program's queue.
pub open spec fn turn_of(s: Stage, route: Route) -> Turn {
    match s {
        Stage::Begin => Turn { job: Job::Nothing, frames: 30, until: Until::Never },
        Stage::TapWindow => Turn {
            job: Job::Tap { key: KEY_W, text: 'w', route: Route::Window },
            frames: 30,
            until: Until::KeyUp(KEY_W),
        },
        Stage::TapApp => Turn { job: Job::Tap { key: KEY_W, text: 'w', route }, frames: 30, until: Until::KeyUp(KEY_W) },
        Stage::Hold => Turn { job: Job::Down { key: KEY_A, text: 'a' }, frames: 10, until: Until::Never },
        Stage::LetGo => Turn { job: Job::Up { key: KEY_A, text: 'a' }, frames: 10, until: Until::KeyUp(KEY_A) },
        Stage::TypeTwo => Turn {
            job: Job::TapTwo { first: KEY_H, first_text: 'h', second: KEY_I, second_text: 'i' },
            frames: 30,
            until: Until::KeyUp(KEY_I),
        },
        Stage::Rest => Turn { job: Job::Nothing, frames: 3, until: Until::Never },
        Stage::MovesWindow => Turn {
            job: Job::Moves { count: 100, dx: 1, dy: -2i32, route: Route::Window },
            frames: 10,
            until: Until::Moved(100),
        },
        Stage::MovesApp => Turn {
            job: Job::Moves { count: 100, dx: 1, dy: -2i32, route },
            frames: 30,
            until: Until::Moved(100),
        },
        Stage::Scroll => Turn { job: Job::Scroll { lines: -3i32 }, frames: 10, until: Until::Scrolled },
        Stage::Click => Turn { job: Job::Click, frames: 10, until: Until::ButtonUp(0) },
        Stage::CommandTap => match route {
            Route::AppQueue => Turn {
                job: Job::CommandTap { key: KEY_T, text: 't' },
                frames: 30,
                until: Until::KeyUp(KEY_T),
            },
            Route::Window => Turn { job: Job::Nothing, frames: 0, until: Until::Never },
        },
        Stage::Resize => Turn { job: Job::Size { width: 640, height: 360 }, frames: 30, until: Until::Resized },
        Stage::Resized => Turn { job: Job::Nothing, frames: 10, until: Until::Never },
        Stage::ResizeBurst => Turn {
            job: Job::Sizes { width: 640, by: 5, count: 20, height: 360 },
            frames: 10,
            until: Until::Resized,
        },
        Stage::ResizeRest => Turn { job: Job::Nothing, frames: 3, until: Until::Never },
        Stage::HoldAgain => Turn { job: Job::Down { key: KEY_A, text: 'a' }, frames: 3, until: Until::Never },
        Stage::LoseFocus => Turn { job: Job::OtherWindow, frames: 30, until: Until::FocusLost },
        Stage::GainFocus => Turn { job: Job::ThisWindow, frames: 30, until: Until::FocusGained },
        Stage::Capture => Turn { job: Job::Capture { on: true }, frames: 0, until: Until::Never },
        Stage::MoveCaptured => Turn {
            job: Job::Moves { count: 10, dx: 5, dy: 3, route: Route::Window },
            frames: 10,
            until: Until::Moved(10),
        },
        Stage::Release => Turn { job: Job::Capture { on: false }, frames: 0, until: Until::Never },
        Stage::Post => Turn { job: Job::Post { key: KEY_F13 }, frames: 30, until: Until::KeyUp(KEY_F13) },
        Stage::Hide => Turn { job: Job::Hide, frames: 0, until: Until::Never },
        Stage::Show => Turn { job: Job::ThisWindow, frames: 10, until: Until::Never },
        Stage::Raise => Turn { job: Job::Raise, frames: 0, until: Until::Never },
        Stage::Close => Turn { job: Job::CloseButton, frames: 30, until: Until::Asked(CloseCause::CloseButton) },
        Stage::Quit => Turn {
            job: Job::Command { key: KEY_Q, text: 'q' },
            frames: 30,
            until: Until::Asked(CloseCause::Quit),
        },
        Stage::End => Turn { job: Job::Nothing, frames: 0, until: Until::Never },
    }
}

/// How many frames a stage looks at: none where there is no window to be resized.
pub open spec fn frames_of(s: Stage, route: Route, there: bool) -> usize {
    if s == Stage::Resize && !there {
        0
    } else {
        turn_of(s, route).frames
    }
}

/// What only the system knows at a stage.
#[derive(Clone, Copy, Debug, PartialEq, Eq)]
pub struct Facts {
    /// The moves of the mouse add up to what was asked for.
    pub moves_add_up: bool,
    /// The size in pixels that the content has to have.
    pub want: (u32, u32),
    /// How often what is drawn into was resized before, and by now.
    pub resizes_before: u32,
    pub resizes: u32,
    /// The wheel has turned by something in all.
    pub scrolled: bool,
    /// The system took the request about the cursor.
    pub capture_taken: bool,
    /// The exception came back as a value.
    pub raised_came_back: bool,
    /// The main thread does jobs.
    pub serving: bool,
    /// The window can be seen.
    pub visible: bool,
    /// The window was there for the stage's job.
    pub there: bool,
}

/// The name of a way.
pub open spec fn route_name(r: Route) -> Seq<char> {
    match r {
        Route::AppQueue => "AppQueue"@,
        Route::Window => "Window"@,
    }
}

/// What a stage checks: each check's name, and whether it holds. `acc` is what the stage saw,
/// and `before` what the one before it saw.
pub open spec fn checks_of(s: Stage, route: Route, acc: &Acc, before: &Acc, facts: Facts) -> Seq<(Seq<char>, bool)> {
    let events = seen(acc.events@);
    let earlier = seen(before.events@);
    match s {
        Stage::TapWindow => {
            let down = first_frame(events, EventView::KeyDown(KEY_W));
            seq![
                (
                    "key tap within one frame is not lost"@,
                    down is Some && down == first_frame(events, EventView::KeyUp(KEY_W)) && !acc.held_union@.contains(KEY_W),
                ),
                (
                    "text via interpretKeyEvents -> insertText"@,
                    first_frame(events, EventView::Text("w"@)) is Some,
                ),
            ]
        },
        Stage::TapApp => seq![
            (
                "key tap via "@ + route_name(route) + " arrives"@,
                first_frame(events, EventView::KeyDown(KEY_W)) is Some && first_frame(events, EventView::KeyUp(KEY_W)) is Some
                    && acc.held_last@.len() == 0,
            ),
        ],
        Stage::LetGo => seq![
            (
                "held snapshot"@,
                before.frames == 10 && before.held_last@ == seq![KEY_A] && count(
                    earlier,
                    EventView::KeyDown(KEY_A),
                ) == 1 && acc.held_last@.len() == 0,
            ),
        ],
        Stage::TypeTwo => seq![("text order"@, typed(events) == "hi"@)],
        Stage::MovesWindow => seq![
            ("mouse deltas summed (100 moves, one job)"@, facts.moves_add_up && acc.motion_frames == 1),
        ],
        Stage::MovesApp => seq![
            ("mouse deltas summed (100 moves via "@ + route_name(route) + ")"@, facts.moves_add_up),
        ],
        Stage::Scroll => seq![("scroll"@, facts.scrolled)],
        Stage::CommandTap => match route {
            Route::AppQueue => seq![
                (
                    "Cmd+T keyUp recovered by local monitor"@,
                    first_frame(events, EventView::KeyUp(KEY_T)) is Some && acc.held_last@.len() == 0,
                ),
            ],
            Route::Window => Seq::empty(),
        },
        Stage::Capture => seq![("capture_cursor(true)"@, facts.capture_taken)],
        Stage::Release => seq![("capture_cursor(false)"@, facts.capture_taken)],
        Stage::Raise => seq![
            ("ObjC exception on main-queue job becomes a value"@, facts.raised_came_back && facts.serving),
        ],
        Stage::Click => seq![
            (
                "mouse button"@,
                first_frame(events, EventView::MouseDown(0)) is Some && first_frame(events, EventView::MouseUp(0)) is Some,
            ),
        ],
        Stage::Resize => if facts.there {
            Seq::empty()
        } else {
            seq![("resize"@, false)]
        },
        Stage::Resized => seq![
            (
                "resize -> one Resized, pixel size = points x scale, drawables follow"@,
                first_frame(earlier, EventView::Resized { width: facts.want.0, height: facts.want.1 }) is Some
                    && count_resized(earlier) == 1 && acc.size_mismatch == 0 && facts.resizes == facts.resizes_before + 1,
            ),
        ],
        Stage::ResizeBurst => seq![("20 resizes in one job coalesce to one Resized"@, count_resized(events) == 1)],
        Stage::LoseFocus => seq![
            (
                "FocusLost, and held keys released with it"@,
                first_frame(events, EventView::FocusLost) is Some && first_frame(events, EventView::KeyUp(KEY_A)) is Some
                    && acc.held_last@.len() == 0,
            ),
        ],
        Stage::GainFocus => seq![("FocusGained"@, first_frame(events, EventView::FocusGained) is Some)],
        Stage::Close => seq![
            (
                "close button -> CloseRequested, window stays until the program decides"@,
                first_frame(events, EventView::CloseRequested(CloseCause::CloseButton)) is Some && facts.visible,
            ),
        ],
        Stage::Quit => seq![
            (
                "Cmd-Q -> CloseRequested(Quit), process keeps running"@,
                first_frame(events, EventView::CloseRequested(CloseCause::Quit)) is Some,
            ),
        ],
        _ => Seq::empty(),
    }
}

/// Why the command tap cannot be made.
pub open spec fn no_queue() -> Seq<char> {
    "app is not active/key, so the app-queue route (where the swallowing happens) cannot be exercised"@
}

/// What a stage notes beside its checks.
pub open spec fn notes_of(s: Stage, route: Route, before: &Acc, detail: Seq<char>) -> Seq<Seq<char>> {
    match s {
        Stage::CommandTap => match route {
            Route::AppQueue => Seq::empty(),
            Route::Window => seq![line_text("UNRUN"@, "Cmd+key keyUp recovery"@, no_queue())],
        },
        Stage::MoveCaptured => seq![line_text("INFO"@, "deltas while captured (synthetic)"@, detail)],
        Stage::Post => seq![line_text("INFO"@, "CGEventPostToPid(self) F13"@, detail)],
        Stage::Show => seq![line_text("INFO"@, "window ordered out for 1 s"@, counts_of(*before))],
        _ => Seq::empty(),
    }
}

/// The line of a check.
pub open spec fn check_line(check: (Seq<char>, bool), detail: Seq<char>) -> Seq<char> {
    line_text(
        if check.1 {
            "PASS"@
        } else {
            "FAIL"@
        },
        check.0,
        detail,
    )
}

/// What the line of a stage's check says of it: `detail` of what was seen, but for a text that was
/// typed, and for a window that is gone.
pub open spec fn detail_of(s: Stage, k: int, detail: Seq<char>) -> Seq<char> {
    if s == Stage::TapWindow && k == 1 {
        "Text(\"w\") from the synthetic W"@
    } else if s == Stage::Resize {
        "window gone"@
    } else {
        detail
    }
}

/// The lines of the checks of a stage.
pub open spec fn check_lines(s: Stage, checks: Seq<(Seq<char>, bool)>, detail: Seq<char>) -> Seq<Seq<char>> {
    Seq::new(checks.len(), |k: int| check_line(checks[k], detail_of(s, k, detail)))
}

/// How many checks do not hold.
pub open spec fn failed(checks: Seq<(Seq<char>, bool)>) -> nat
    decreases checks.len(),
{
    if checks.len() == 0 {
        0
    } else {
        failed(checks.drop_last()) + (if checks.last().1 {
            0nat
        } else {
            1
        })
    }
}

/// A name with the name of a way in it.
fn named(front: &str, route: Route, back: &str) -> (s: String)
    ensures
        s@ == front@ + route_name(route) + back@,
{
    let mut s = String::new();
    s.append(front);
    match route {
        Route::AppQueue => {
            s.append("AppQueue");
        },
        Route::Window => {
            s.append("Window");
        },
    }
    s.append(back);
    assert(s@ =~= front@ + route_name(route) + back@);
    s
}

impl Stage {
    /// The stage after this one, if the window is `there`, or if it was gone.
    pub fn next(self, there: bool) -> (s: Stage)
        ensures
            s == stage_after(self, there),
    {
        match self {
            Stage::Begin => Stage::TapWindow,
            Stage::TapWindow => Stage::TapApp,
            Stage::TapApp => Stage::Hold,
            Stage::Hold => Stage::LetGo,
            Stage::LetGo => Stage::TypeTwo,
            Stage::TypeTwo => Stage::Rest,
            Stage::Rest => Stage::MovesWindow,
            Stage::MovesWindow => Stage::MovesApp,
            Stage::MovesApp => Stage::Scroll,
            Stage::Scroll => Stage::Click,
            Stage::Click => Stage::CommandTap,
            Stage::CommandTap => Stage::Resize,
            Stage::Resize => if there {
                Stage::Resized
            } else {
                Stage::HoldAgain
            },
            Stage::Resized => Stage::ResizeBurst,
            Stage::ResizeBurst => Stage::ResizeRest,
            Stage::ResizeRest => Stage::HoldAgain,
            Stage::HoldAgain => Stage::LoseFocus,
            Stage::LoseFocus => Stage::GainFocus,
            Stage::GainFocus => Stage::Capture,
            Stage::Capture => Stage::MoveCaptured,
            Stage::MoveCaptured => Stage::Release,
            Stage::Release => Stage::Post,
            Stage::Post => Stage::Hide,
            Stage::Hide => Stage::Show,
            Stage::Show => Stage::Raise,
            Stage::Raise => Stage::Close,
            Stage::Close => Stage::Quit,
            Stage::Quit => Stage::End,
            Stage::End => Stage::End,
        }
    }

    /// What the stage does, and how long it looks.
    pub fn turn(self, route: Route) -> (t: Turn)
        ensures
            t == turn_of(self, route),
            t.frames <= 30,
    {
        let tap_w = Until::KeyUp(KEY_W);
        let (job, frames, until) = match self {
            Stage::Begin => (Job::Nothing, 30, Until::Never),
            Stage::TapWindow => (Job::Tap { key: KEY_W, text: 'w', route: Route::Window }, 30, tap_w),
            Stage::TapApp => (Job::Tap { key: KEY_W, text: 'w', route }, 30, tap_w),
            Stage::Hold => (Job::Down { key: KEY_A, text: 'a' }, 10, Until::Never),
            Stage::LetGo => (Job::Up { key: KEY_A, text: 'a' }, 10, Until::KeyUp(KEY_A)),
            Stage::TypeTwo => (
                Job::TapTwo { first: KEY_H, first_text: 'h', second: KEY_I, second_text: 'i' },
                30,
                Until::KeyUp(KEY_I),
            ),
            Stage::Rest => (Job::Nothing, 3, Until::Never),
            Stage::MovesWindow => (Job::Moves { count: 100, dx: 1, dy: -2, route: Route::Window }, 10, Until::Moved(100)),
            Stage::MovesApp => (Job::Moves { count: 100, dx: 1, dy: -2, route }, 30, Until::Moved(100)),
            Stage::Scroll => (Job::Scroll { lines: -3 }, 10, Until::Scrolled),
            Stage::Click => (Job::Click, 10, Until::ButtonUp(0)),
            Stage::CommandTap => match route {
                Route::AppQueue => (Job::CommandTap { key: KEY_T, text: 't' }, 30, Until::KeyUp(KEY_T)),
                Route::Window => (Job::Nothing, 0, Until::Never),
            },
            Stage::Resize => (Job::Size { width: 640, height: 360 }, 30, Until::Resized),
            Stage::Resized => (Job::Nothing, 10, Until::Never),
            Stage::ResizeBurst => (Job::Sizes { width: 640, by: 5, count: 20, height: 360 }, 10, Until::Resized),
            Stage::ResizeRest => (Job::Nothing, 3, Until::Never),
            Stage::HoldAgain => (Job::Down { key: KEY_A, text: 'a' }, 3, Until::Never),
            Stage::LoseFocus => (Job::OtherWindow, 30, Until::FocusLost),
            Stage::GainFocus => (Job::ThisWindow, 30, Until::FocusGained),
            Stage::Capture => (Job::Capture { on: true }, 0, Until::Never),
            Stage::MoveCaptured => (Job::Moves { count: 10, dx: 5, dy: 3, route: Route::Window }, 10, Until::Moved(10)),
            Stage::Release => (Job::Capture { on: false }, 0, Until::Never),
            Stage::Post => (Job::Post { key: KEY_F13 }, 30, Until::KeyUp(KEY_F13)),
            Stage::Hide => (Job::Hide, 0, Until::Never),
            Stage::Show => (Job::ThisWindow, 10, Until::Never),
            Stage::Raise => (Job::Raise, 0, Until::Never),
            Stage::Close => (Job::CloseButton, 30, Until::Asked(CloseCause::CloseButton)),
            Stage::Quit => (Job::Command { key: KEY_Q, text: 'q' }, 30, Until::Asked(CloseCause::Quit)),
            Stage::End => (Job::Nothing, 0, Until::Never),
        };
        Turn { job, frames, until }
    }

    /// How many frames the stage looks at.
    pub fn frames(self, route: Route, there: bool) -> (n: usize)
        ensures
            n == frames_of(self, route, there),
    {
        if matches!(self, Stage::Resize) && !there {
            0
        } else {
            self.turn(route).frames
        }
    }

    /// The check of the stage, if it makes one: its name, and whether it holds.
    fn verdict(self, route: Route, acc: &Acc, before: &Acc, facts: Facts) -> (r: Option<(String, bool)>)
        ensures
            match r {
                Some(c) => checks_of(self, route, acc, before, facts).len() > 0 && checks_of(self, route, acc, before, facts)[0] == (
                    c.0@,
                    c.1,
                ),
                None => checks_of(self, route, acc, before, facts).len() == 0,
            },
    {
        match self {
            Stage::TapWindow => Some(("key tap within one frame is not lost".to_owned(), acc.tap_is_kept(KEY_W))),
            Stage::TapApp => Some((named("key tap via ", route, " arrives"), acc.tap_arrives(KEY_W))),
            Stage::LetGo => Some(("held snapshot".to_owned(), before.is_held(KEY_A, 10, acc))),
            Stage::TypeTwo => {
                let text = acc.text();
                Some(("text order".to_owned(), same(text.as_str(), "hi")))
            },
            Stage::MovesWindow => Some(
                ("mouse deltas summed (100 moves, one job)".to_owned(), facts.moves_add_up && acc.motion_frames == 1),
            ),
            Stage::MovesApp => Some((named("mouse deltas summed (100 moves via ", route, ")"), facts.moves_add_up)),
            Stage::Scroll => Some(("scroll".to_owned(), facts.scrolled)),
            Stage::CommandTap => match route {
                Route::AppQueue => Some(
                    (
                        "Cmd+T keyUp recovered by local monitor".to_owned(),
                        acc.has(&Event::KeyUp(KEY_T)) && acc.held_last.len() == 0,
                    ),
                ),
                Route::Window => None,
            },
            Stage::Capture => Some(("capture_cursor(true)".to_owned(), facts.capture_taken)),
            Stage::Release => Some(("capture_cursor(false)".to_owned(), facts.capture_taken)),
            Stage::Raise => Some(
                (
                    "ObjC exception on main-queue job becomes a value".to_owned(),
                    facts.raised_came_back && facts.serving,
                ),
            ),
            Stage::Click => Some(
                ("mouse button".to_owned(), acc.has(&Event::MouseDown(0)) && acc.has(&Event::MouseUp(0))),
            ),
            Stage::Resize => if facts.there {
                None
            } else {
                Some(("resize".to_owned(), false))
            },
            Stage::Resized => Some(
                (
                    "resize -> one Resized, pixel size = points x scale, drawables follow".to_owned(),
                    before.resize_followed(facts.want.0, facts.want.1, acc, facts.resizes_before, facts.resizes),
                ),
            ),
            Stage::ResizeBurst => Some(("20 resizes in one job coalesce to one Resized".to_owned(), acc.resizes() == 1)),
            Stage::LoseFocus => Some(("FocusLost, and held keys released with it".to_owned(), acc.focus_released(KEY_A))),
            Stage::GainFocus => Some(("FocusGained".to_owned(), acc.has(&Event::FocusGained))),
            Stage::Close => Some(
                (
                    "close button -> CloseRequested, window stays until the program decides".to_owned(),
                    acc.has(&Event::CloseRequested(CloseCause::CloseButton)) && facts.visible,
                ),
            ),
            Stage::Quit => Some(
                (
                    "Cmd-Q -> CloseRequested(Quit), process keeps running".to_owned(),
                    acc.has(&Event::CloseRequested(CloseCause::Quit)),
                ),
            ),
            _ => None,
        }
    }

    /// Writes down what the stage notes beside its checks.
    fn note(self, route: Route, before: &Acc, detail: &str, report: &mut Report)
        ensures
            texts(final(report).lines@) == texts(old(report).lines@) + notes_of(self, route, before, detail@),
            final(report).failures == old(report).failures,
    {
        match self {
            Stage::CommandTap => match route {
                Route::AppQueue => {},
                Route::Window => {
                    report.unrun(
                        "Cmd+key keyUp recovery",
                        "app is not active/key, so the app-queue route (where the swallowing happens) cannot be exercised",
                    );
                },
            },
            Stage::MoveCaptured => {
                report.info("deltas while captured (synthetic)", detail);
            },
            Stage::Post => {
                report.info("CGEventPostToPid(self) F13", detail);
            },
            Stage::Show => {
                let counts = before.counts();
                report.info("window ordered out for 1 s", counts.as_str());
            },
            _ => {},
        }
        assert(texts(report.lines@) =~= texts(old(report).lines@) + notes_of(self, route, before, detail@));
    }

    /// Writes down what the stage checks, with `detail` of what was seen, and what it notes.
    pub fn judge(self, route: Route, acc: &Acc, before: &Acc, facts: Facts, detail: &str, report: &mut Report)
        requires
            old(report).failures + 2 <= u32::MAX,
        ensures
            texts(final(report).lines@) == texts(old(report).lines@) + check_lines(
                self,
                checks_of(self, route, acc, before, facts),
                detail@,
            ) + notes_of(self, route, before, detail@),
            final(report).failures == old(report).failures + failed(checks_of(self, route, acc, before, facts)),
    {
        let ghost checks = checks_of(self, route, acc, before, facts);
        let ghost lines = texts(report.lines@);
        proof {
            reveal_with_fuel(failed, 3);
        }
        match self.verdict(route, acc, before, facts) {
            Some((name, ok)) => {
                if matches!(self, Stage::Resize) {
                    report.check(name.as_str(), ok, "window gone");
                } else {
                    report.check(name.as_str(), ok, detail);
                }
                if matches!(self, Stage::TapWindow) {
                    let typed_w = acc.has(&Event::Text("w".to_owned()));
                    report.check("text via interpretKeyEvents -> insertText", typed_w, "Text(\"w\") from the synthetic W");
                    assert(checks.len() == 2);
                    assert(checks.drop_last().drop_last().len() == 0);
                    assert(texts(report.lines@) =~= lines + check_lines(self, checks, detail@));
                } else {
                    assert(checks.len() == 1);
                    assert(checks.drop_last().len() == 0);
                    assert(texts(report.lines@) =~= lines + check_lines(self, checks, detail@));
                }
            },
            None => {
                assert(texts(report.lines@) =~= lines + check_lines(self, checks, detail@));
            },
        }
        self.note(route, before, detail, report);
    }
}

/// How many stages there are to come.
pub open spec fn stages_left(s: Stage) -> nat {
    match s {
        Stage::Begin => 28,
        Stage::TapWindow => 27,
        Stage::TapApp => 26,
        Stage::Hold => 25,
        Stage::LetGo => 24,
        Stage::TypeTwo => 23,
        Stage::Rest => 22,
        Stage::MovesWindow => 21,
        Stage::MovesApp => 20,
        Stage::Scroll => 19,
        Stage::Click => 18,
        Stage::CommandTap => 17,
        Stage::Resize => 16,
        Stage::Resized => 15,
        Stage::ResizeBurst => 14,
        Stage::ResizeRest => 13,
        Stage::HoldAgain => 12,
        Stage::LoseFocus => 11,
        Stage::GainFocus => 10,
        Stage::Capture => 9,
        Stage::MoveCaptured => 8,
        Stage::Release => 7,
        Stage::Post => 6,
        Stage::Hide => 5,
        Stage::Show => 4,
        Stage::Raise => 3,
        Stage::Close => 2,
        Stage::Quit => 1,
        Stage::End => 0,
    }
}

/// Every run comes to its end: each stage leaves fewer to come, one fewer where the window is
/// there, and looks at no more than 30 frames.
pub proof fn every_run_ends(s: Stage, route: Route, there: bool)
    ensures
        s != Stage::End ==> stages_left(stage_after(s, there)) < stages_left(s),
        s != Stage::End && there ==> stages_left(stage_after(s, there)) == stages_left(s) - 1,
        stages_left(s) == 0 <==> s == Stage::End,
        frames_of(s, route, there) <= 30,
{
}

} // verus!
