use scarlet::window::checks::{app_route, Acc, Route};
use scarlet::window::frame::{Drawables, Frame, FrameCursor, NO_TICK_FALLBACK};
use scarlet::window::model::{AppError, Caught, CloseCause, Event, Pending};
use scarlet::window::options::{Options, DEFAULT_FRAMES};
use scarlet::window::report::Report;
use scarlet::window::script::{Facts, Job, Pump, Stage, Until, KEY_A, KEY_W};
use scarlet::window::session::{Act, Session, CONFIRM_WITHIN, KEY_C, KEY_ESC, KEY_T};
use scarlet::window::table::{close_all, close_window, LinkThread, Pacing, StopAppOnDrop, Windows};
use scarlet::window::view::{modifier_device_bit, recover_key_up, should_terminate, SpikeView};

fn args(list: &[&str]) -> Vec<String> {
    list.iter().map(|a| a.to_string()).collect()
}

#[test]
fn a_tap_between_two_frames_is_in_the_next() {
    let mut p = Pending::new(800, 600);
    p.key_down(12);
    p.key_down(12);
    p.key_up(12);
    p.key_up(12);
    p.tick();
    let mut cursor = FrameCursor::new();
    let f = p.next_frame(&mut cursor, false).expect("open");
    assert_eq!(f.events, vec![Event::KeyDown(12), Event::KeyUp(12)]);
    assert!(f.held.is_empty());
    assert_eq!((f.ticks, f.width, f.height), (1, 800, 600));
    let f = p.next_frame(&mut cursor, true).expect("open");
    assert!(f.events.is_empty() && f.ticks == 0 && f.worker_was_waiting);
}

#[test]
fn losing_the_focus_lifts_every_key() {
    let mut v = SpikeView::new(1, 1);
    for k in [40, 7, 19] {
        v.key_down(k, false);
    }
    v.key_down(7, true);
    v.did_resign_key();
    let ups: Vec<Event> = v.pending.events[3..].to_vec();
    assert_eq!(ups, vec![Event::KeyUp(7), Event::KeyUp(19), Event::KeyUp(40), Event::FocusLost]);
    assert!(v.pending.held.is_empty());
}

#[test]
fn only_the_last_size_is_told() {
    let mut p = Pending::new(1, 1);
    p.resized(10, 10);
    p.key_down(3);
    p.resized(20, 30);
    assert_eq!(p.events, vec![Event::KeyDown(3), Event::Resized { width: 20, height: 30 }]);
    assert_eq!((p.width, p.height), (20, 30));
    let mut v = SpikeView::new(20, 30);
    v.publish_size(20, 30, true);
    assert!(v.pending.events.is_empty());
    v.publish_size(20, 30, false);
    assert_eq!(v.pending.events.len(), 1);
}

#[test]
fn a_frame_is_waited_for_but_not_forever() {
    let mut p = Pending::new(1, 1);
    let c = FrameCursor::new();
    assert_eq!(p.wait(&c, 0), Some(NO_TICK_FALLBACK));
    assert!(p.worker_waiting);
    assert_eq!(p.wait(&c, NO_TICK_FALLBACK - 1), Some(1));
    assert_eq!(p.wait(&c, NO_TICK_FALLBACK), None);
    p.tick();
    assert_eq!(p.wait(&c, 0), None);
    p.window_open = false;
    let mut c = FrameCursor::new();
    assert!(matches!(p.next_frame(&mut c, false), Err(AppError::WindowGone)));
}

#[test]
fn what_is_caught_is_an_error() {
    assert!(matches!(AppError::of(Caught::Exception(Some("x".to_string()))), AppError::Exception(s) if s == "x"));
    assert!(matches!(AppError::of(Caught::Exception(None)), AppError::Exception(s) if s == "nil exception"));
    assert!(matches!(AppError::of(Caught::Panic), AppError::Panic));
}

#[test]
fn modifier_keys_have_a_bit_each() {
    assert_eq!(modifier_device_bit(56), Some(2));
    assert_eq!(modifier_device_bit(1), None);
    let mut v = SpikeView::new(1, 1);
    v.flags_changed(56, 2);
    v.flags_changed(56, 2);
    v.flags_changed(56, 0);
    v.flags_changed(57, 0x10000);
    assert_eq!(
        v.pending.events,
        vec![Event::KeyDown(56), Event::KeyUp(56), Event::KeyDown(57), Event::KeyUp(57)]
    );
}

#[test]
fn the_cursor_is_taken_once_and_given_back_once() {
    let mut v = SpikeView::new(1, 1);
    let c = v.set_capture(true, false);
    assert!(!c.applied && !c.tell);
    assert!(v.did_become_key());
    assert!(!v.did_become_key());
    let c = v.set_capture(true, true);
    assert!(c.applied && !c.tell);
    assert!(v.did_resign_key());
    assert!(!v.did_resign_key());
    let c = v.set_capture(false, true);
    assert!(!c.applied && !c.tell);
}

#[test]
fn text_is_typed_and_composed() {
    let mut v = SpikeView::new(1, 1);
    v.set_marked_text("e".to_string());
    assert!(v.has_marked_text());
    v.insert_text("é".to_string());
    assert!(!v.has_marked_text());
    v.insert_text(String::new());
    assert_eq!(v.pending.events, vec![Event::Text("é".to_string())]);
    assert!(!v.should_close());
    assert_eq!(v.pending.events[1], Event::CloseRequested(CloseCause::CloseButton));
}

#[test]
fn windows_have_numbers_of_their_own() {
    let mut w = Windows::new();
    let (a, b) = (w.opened(), w.opened());
    assert_ne!(a, b);
    assert!(close_window(&mut w, a));
    assert!(!close_window(&mut w, a));
    let c = w.opened();
    assert!(c != a && c != b);
    assert_eq!(close_all(&mut w), vec![b, c]);
    w.opened();
    assert_eq!(StopAppOnDrop.stop(&mut w).len(), 1);
    assert!(w.ids.is_empty());
}

#[test]
fn drawables_follow_the_frames() {
    let mut d = Drawables { width: 10, height: 10, resizes: 0 };
    assert!(!d.follow(10, 10));
    assert!(!d.follow(0, 10));
    assert!(d.follow(11, 10));
    assert_eq!((d.width, d.height, d.resizes), (11, 10, 1));
}

#[test]
fn the_arguments_say_how_it_runs() {
    let o = Options::parse(&args(&["--auto", "--frames=120", "--link-thread=dedicated", "--pacing=metal-link"]));
    assert!(o.auto && !o.mtc_selftest && !o.panic_worker);
    assert_eq!(o.pacing_frames, 120);
    assert_eq!((o.link_thread(), o.pacing()), (LinkThread::Dedicated, Pacing::MetalDisplayLink));
    let o = Options::parse(&args(&["--frames=many"]));
    assert_eq!(o.pacing_frames, DEFAULT_FRAMES);
    assert_eq!((o.link_thread(), o.pacing()), (LinkThread::Main, Pacing::DisplayLink));
}

#[test]
fn a_report_counts_its_failures() {
    let mut r = Report::new();
    r.check("one", true, "fine");
    assert_eq!(r.exit_code(), 0);
    r.check("two", false, "not so");
    r.info("three", "so it is");
    r.unrun("four", "no reason");
    assert_eq!(r.exit_code(), 1);
    assert_eq!(r.failures, 1);
    assert_eq!(r.lines[2], "[INFO] three: so it is");
    assert!(r.text().ends_with("failures: 1\n"));
    assert_eq!(r.text().lines().filter(|l| l.starts_with('[')).count(), 4);
}

fn frame(ticks: u64, held: &[u16], moved: u32, events: Vec<Event>) -> Frame {
    Frame { ticks, width: 4, height: 3, held: held.to_vec(), mouse_events_summed: moved, events, worker_was_waiting: false }
}

#[test]
fn what_the_frames_showed() {
    let mut a = Acc::new();
    a.add(0, &frame(1, &[5], 2, vec![Event::KeyDown(5), Event::Text("a".to_string())]), Some((4, 3)));
    a.add(1, &frame(0, &[], 0, vec![Event::KeyUp(5), Event::Text("b".to_string())]), Some((4, 2)));
    a.add(2, &frame(3, &[], 1, vec![Event::KeyDown(9), Event::KeyUp(9), Event::FocusLost]), None);
    assert_eq!((a.frames, a.ticks, a.zero_tick_frames, a.motion_frames, a.motion_events), (3, 4, 1, 2, 3));
    assert_eq!(a.size_mismatch, 1);
    assert_eq!(a.frame_of(&Event::KeyUp(5)), Some(1));
    assert!(a.has(&Event::FocusLost) && !a.has(&Event::FocusGained));
    assert_eq!(a.count_of(&Event::KeyDown(9)), 1);
    assert_eq!(a.text(), "ab");
    assert!(a.tap_is_kept(9) && !a.tap_is_kept(5));
    assert!(a.tap_arrives(5) && a.focus_released(9));
    assert_eq!(a.resizes(), 0);
    let mut held = Acc::new();
    held.add(0, &frame(1, &[5], 0, vec![Event::KeyDown(5)]), None);
    assert!(held.is_held(5, 1, &a));
    assert!(!held.is_held(6, 1, &a));
    let mut big = Acc::new();
    big.add(0, &frame(1, &[], 0, vec![Event::Resized { width: 4, height: 3 }]), None);
    assert!(big.resize_followed(4, 3, &held, 0, 1));
    assert!(!big.resize_followed(4, 3, &held, 0, 2));
    assert_eq!(app_route(true, true), Route::AppQueue);
    assert_eq!(app_route(true, false), Route::Window);
}

#[test]
fn closing_takes_two_requests() {
    let ask = Event::CloseRequested(CloseCause::Quit);
    let mut s = Session::new();
    assert_eq!(s.on(&ask, 10), Act::Decline(CloseCause::Quit));
    assert_eq!(s.on(&ask, 10 + CONFIRM_WITHIN), Act::Decline(CloseCause::Quit));
    assert_eq!(s.on(&ask, 11 + CONFIRM_WITHIN), Act::Exit(CloseCause::Quit));
    assert_eq!(s.on(&Event::KeyDown(KEY_C), 0), Act::CaptureCursor(true));
    assert_eq!(s.on(&Event::KeyDown(KEY_ESC), 0), Act::CaptureCursor(false));
    assert_eq!(s.on(&Event::KeyDown(KEY_ESC), 0), Act::Nothing);
    assert_eq!(s.on(&Event::KeyDown(KEY_T), 0), Act::SetTitle);
}

fn facts() -> Facts {
    Facts {
        moves_add_up: true,
        want: (1280, 720),
        resizes_before: 0,
        resizes: 1,
        scrolled: true,
        capture_taken: true,
        raised_came_back: true,
        serving: true,
        visible: true,
        there: true,
    }
}

/// Each stage of a run in which the window does all that it should.
fn seen_at(stage: Stage) -> Frame {
    let key = |k: u16, t: &str| vec![Event::KeyDown(k), Event::Text(t.to_string()), Event::KeyUp(k)];
    match stage {
        Stage::TapWindow | Stage::TapApp => frame(1, &[], 0, key(KEY_W, "w")),
        Stage::Hold => frame(1, &[KEY_A], 0, Vec::new()),
        Stage::LetGo => frame(1, &[], 0, vec![Event::KeyUp(KEY_A)]),
        Stage::TypeTwo => frame(1, &[], 0, [key(4, "h"), key(34, "i")].concat()),
        Stage::MovesWindow | Stage::MovesApp => frame(1, &[], 100, Vec::new()),
        Stage::Click => frame(1, &[], 0, vec![Event::MouseDown(0), Event::MouseUp(0)]),
        Stage::Resize | Stage::ResizeBurst => frame(1, &[], 0, vec![Event::Resized { width: 1280, height: 720 }]),
        Stage::LoseFocus => frame(1, &[], 0, vec![Event::KeyUp(KEY_A), Event::FocusLost]),
        Stage::GainFocus => frame(1, &[], 0, vec![Event::FocusGained]),
        Stage::Close => frame(1, &[], 0, vec![Event::CloseRequested(CloseCause::CloseButton)]),
        Stage::Quit => frame(1, &[], 0, vec![Event::CloseRequested(CloseCause::Quit)]),
        _ => frame(1, &[], 0, Vec::new()),
    }
}

fn run_script(works: bool) -> Report {
    let mut report = Report::new();
    let mut before = Acc::new();
    let mut stage = Stage::Begin;
    let mut stages = 0;
    while stage != Stage::End {
        let turn = stage.turn(Route::Window);
        let mut pump = Pump::new(turn.frames, turn.until);
        let mut first = true;
        while !pump.over {
            let mut f = if works { seen_at(stage) } else { frame(0, &[], 0, Vec::new()) };
            if stage == Stage::Hold && first && works {
                f.events.push(Event::KeyDown(KEY_A));
            }
            first = false;
            pump.take(Some((&f, Some((4, 3)))));
        }
        stage.judge(Route::Window, &pump.acc, &before, facts(), "seen", &mut report);
        before = pump.acc;
        stage = stage.next(true);
        stages += 1;
    }
    assert_eq!(stages, 28);
    report
}

#[test]
fn a_window_that_works_passes_every_check() {
    let report = run_script(true);
    assert_eq!(report.failures, 0, "{}", report.text());
    assert_eq!(report.lines.len(), 22);
    assert_eq!(report.lines[0], "[PASS] key tap within one frame is not lost: seen");
    assert_eq!(
        report.lines[1],
        "[PASS] text via interpretKeyEvents -> insertText: Text(\"w\") from the synthetic W"
    );
    assert_eq!(report.lines[2], "[PASS] key tap via Window arrives: seen");
}

#[test]
fn a_window_that_does_nothing_fails() {
    let report = run_script(false);
    assert_eq!(report.lines.len(), 22);
    assert_eq!(report.failures, 13, "{}", report.text());
    let passed: Vec<&String> = report.lines.iter().filter(|l| l.starts_with("[PASS]")).collect();
    assert_eq!(
        passed,
        vec![
            "[PASS] mouse deltas summed (100 moves via Window): seen",
            "[PASS] scroll: seen",
            "[PASS] capture_cursor(true): seen",
            "[PASS] capture_cursor(false): seen",
            "[PASS] ObjC exception on main-queue job becomes a value: seen",
        ]
    );
}

#[test]
fn a_stage_notes_what_it_cannot_check() {
    let mut report = Report::new();
    let mut hidden = Acc::new();
    for ticks in [0, 2] {
        let mut p = Pump::new(1, Until::Never);
        p.take(Some((&frame(ticks, &[], 0, Vec::new()), None)));
        hidden.count_in(&p.acc);
    }
    assert_eq!(hidden.counts(), "2 next_frame returns, 2 display ticks, 1 fallback (no-tick) frames");
    let none = Acc::new();
    Stage::Show.judge(Route::Window, &none, &hidden, facts(), "seen", &mut report);
    Stage::CommandTap.judge(Route::Window, &none, &none, facts(), "seen", &mut report);
    Stage::MoveCaptured.judge(Route::Window, &none, &none, facts(), "dx=50 dy=30", &mut report);
    assert_eq!(
        report.lines,
        vec![
            "[INFO] window ordered out for 1 s: 2 next_frame returns, 2 display ticks, 1 fallback (no-tick) frames",
            "[UNRUN] Cmd+key keyUp recovery: app is not active/key, so the app-queue route (where the swallowing happens) cannot be exercised",
            "[INFO] deltas while captured (synthetic): dx=50 dy=30",
        ]
    );
    Stage::CommandTap.judge(Route::AppQueue, &none, &none, facts(), "seen", &mut report);
    assert_eq!((report.failures, report.lines.len()), (1, 4));
    let mut p = Pump::new(10, Until::Scrolled);
    p.take(Some((&frame(1, &[], 0, Vec::new()), None)));
    assert!(!p.over);
    p.turned();
    assert!(p.over);
}

#[test]
fn a_frame_with_no_refresh_is_not_drawn() {
    let of = |ticks: u64| frame(ticks, &[], 0, Vec::new());
    assert_eq!([0, 1, 2, 5].map(|n| of(n).missed_ticks()), [0, 0, 1, 4]);
    assert_eq!([(0, true), (1, true), (1, false)].map(|(n, r)| of(n).is_drawn(r)), [false, true, false]);
}

#[test]
fn a_look_ends_when_it_has_seen_enough() {
    let mut p = Pump::new(5, Until::KeyUp(3));
    p.take(Some((&frame(1, &[], 0, Vec::new()), None)));
    assert!(!p.over);
    p.take(Some((&frame(1, &[], 0, vec![Event::KeyUp(3)]), None)));
    assert!(p.over);
    assert_eq!((p.acc.frames, p.acc.ticks), (2, 2));
    let mut p = Pump::new(1, Until::Never);
    p.take(Some((&frame(1, &[], 0, Vec::new()), None)));
    assert!(p.over);
    let mut p = Pump::new(9, Until::Never);
    p.take(None);
    assert!(p.over);
    assert!(Pump::new(0, Until::Never).over);
    assert_eq!(Stage::TapApp.turn(Route::AppQueue).job, Job::Tap { key: KEY_W, text: 'w', route: Route::AppQueue });
}

#[test]
fn every_window_tells_that_the_program_is_asked_to_quit() {
    let mut views = vec![SpikeView::new(8, 8), SpikeView::new(9, 9)];
    assert!(!should_terminate(&mut views));
    for v in &views {
        assert_eq!(v.pending.events, vec![Event::CloseRequested(CloseCause::Quit)]);
        assert!(v.pending.window_open);
    }
}

#[test]
fn a_key_that_goes_up_under_command_is_not_held_for_ever() {
    let mut views = vec![SpikeView::new(8, 8), SpikeView::new(9, 9)];
    for v in views.iter_mut() {
        v.key_down(17, false);
    }
    recover_key_up(&mut views, &vec![true, false], false, 17);
    assert_eq!(views[0].pending.held.len(), 1);
    recover_key_up(&mut views, &vec![true, false], true, 17);
    assert_eq!(views[0].pending.events, vec![Event::KeyDown(17), Event::KeyUp(17)]);
    assert!(views[0].pending.held.is_empty());
    assert_eq!(views[1].pending.events, vec![Event::KeyDown(17)]);
    // A key that is not held is not told again.
    views[0].key_up(17);
    assert_eq!(views[0].pending.events.len(), 2);
    views[0].add_motion();
    views[0].add_motion();
    assert_eq!(views[0].pending.mouse_events, 2);
    views[0].set_marked_text("ka".to_string());
    assert!(views[0].has_marked_text());
    views[0].unmark_text();
    assert!(!views[0].has_marked_text());
}

#[test]
fn a_window_that_is_gone_is_not_resized() {
    let mut report = Report::new();
    let none = Acc::new();
    let gone = Facts { there: false, ..facts() };
    assert_eq!(Stage::Resize.frames(Route::Window, false), 0);
    assert_eq!(Stage::Resize.frames(Route::Window, true), 30);
    Stage::Resize.judge(Route::Window, &none, &none, gone, "seen", &mut report);
    assert_eq!(report.lines, vec!["[FAIL] resize: window gone"]);
    assert_eq!(report.failures, 1);
    assert_eq!(Stage::Resize.next(false), Stage::HoldAgain);
    assert_eq!(Stage::Resize.next(true), Stage::Resized);
    assert_eq!(Stage::Hold.next(false), Stage::LetGo);
    Stage::Resize.judge(Route::Window, &none, &none, facts(), "seen", &mut report);
    assert_eq!(report.lines.len(), 1);
}

#[test]
fn composed_text_is_measured_in_utf16() {
    let mut v = SpikeView::new(4, 3);
    assert_eq!(v.marked_range(), None);
    v.set_marked_text("h\u{e9}\u{1F600}\u{FFFF}".to_string());
    assert_eq!(v.marked_range(), Some(5));
    v.unmark_text();
    assert_eq!(v.marked_range(), None);
}
