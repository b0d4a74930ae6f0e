//! What the window's program is told on its command line.
use vstd::prelude::*;

use crate::window::table::{LinkThread, Pacing};
use crate::text::{has_at, number_in, parse_number, same, strip_prefix};

verus! {

/// How the program runs: with its checks or for a user, where refreshes are told, what paces
/// a frame, how many frames are measured, and two faults to try.
#[derive(Clone, Copy, Debug, PartialEq, Eq, Structural)]
pub struct Options {
    pub auto: bool,
    pub link_thread_dedicated: bool,
    pub metal_display_link: bool,
    pub pacing_frames: usize,
    pub mtc_selftest: bool,
    pub panic_worker: bool,
}

/// The frames that are measured where no number is given.
pub const DEFAULT_FRAMES: usize = 600;

/// An argument is given.
pub open spec fn given(args: Seq<String>, name: Seq<char>) -> bool {
    exists|i: int| 0 <= i < args.len() && (#[trigger] args[i])@ == name
}

/// The number of frames that an argument gives.
pub open spec fn frames_in(arg: Seq<char>) -> Option<usize> {
    if has_at(arg, "--frames="@, 0) {
        number_in(arg.skip("--frames="@.len() as int))
    } else {
        None
    }
}

/// The first number of frames that the arguments give.
pub open spec fn frames_given(args: Seq<String>) -> Option<usize>
    decreases args.len(),
{
    if args.len() == 0 {
        None
    } else {
        match frames_given(args.drop_last()) {
            Some(n) => Some(n),
            None => frames_in(args.last()@),
        }
    }
}

/// Whether an argument is given.
pub fn is_given(args: &Vec<String>, name: &str) -> (yes: bool)
    ensures
        yes == given(args@, name@),
{
    let mut i: usize = 0;
    while i < args.len()
        invariant
            i <= args@.len(),
            forall|j: int| 0 <= j < i ==> (#[trigger] args@[j])@ != name@,
        decreases args@.len() - i,
    {
        if same(args[i].as_str(), name) {
            return true;
        }
        i += 1;
    }
    false
}

fn first_frames(args: &Vec<String>) -> (n: Option<usize>)
    ensures
        n == frames_given(args@),
{
    let mut i: usize = 0;
    let mut found: Option<usize> = None;
    assert(args@.take(0).len() == 0);
    while i < args.len()
        invariant
            i <= args@.len(),
            found == frames_given(args@.take(i as int)),
        decreases args@.len() - i,
    {
        proof {
            let t = args@.take(i + 1);
            assert(t.drop_last() =~= args@.take(i as int));
            assert(t.last() == args@[i as int]);
        }
        if found.is_none() {
            found = match strip_prefix(args[i].as_str(), "--frames=") {
                Some(rest) => parse_number(rest),
                None => None,
            };
        }
        i += 1;
    }
    assert(args@.take(i as int) =~= args@);
    found
}

impl Options {
    /// What the arguments say.
    pub fn parse(args: &Vec<String>) -> (o: Options)
        ensures
            o.auto == given(args@, "--auto"@),
            o.link_thread_dedicated == given(args@, "--link-thread=dedicated"@),
            o.metal_display_link == given(args@, "--pacing=metal-link"@),
            o.pacing_frames == (match frames_given(args@) {
                Some(n) => n,
                None => DEFAULT_FRAMES,
            }),
            o.mtc_selftest == given(args@, "--mtc-selftest"@),
            o.panic_worker == given(args@, "--panic-worker"@),
    {
        Options {
            auto: is_given(args, "--auto"),
            link_thread_dedicated: is_given(args, "--link-thread=dedicated"),
            metal_display_link: is_given(args, "--pacing=metal-link"),
            pacing_frames: match first_frames(args) {
                Some(n) => n,
                None => DEFAULT_FRAMES,
            },
            mtc_selftest: is_given(args, "--mtc-selftest"),
            panic_worker: is_given(args, "--panic-worker"),
        }
    }

    /// Where the display's refreshes are told.
    pub fn link_thread(&self) -> (t: LinkThread)
        ensures
            t == (if self.link_thread_dedicated {
                LinkThread::Dedicated
            } else {
                LinkThread::Main
            }),
    {
        if self.link_thread_dedicated {
            LinkThread::Dedicated
        } else {
            LinkThread::Main
        }
    }

    /// What paces a frame.
    pub fn pacing(&self) -> (p: Pacing)
        ensures
            p == (if self.metal_display_link {
                Pacing::MetalDisplayLink
            } else {
                Pacing::DisplayLink
            }),
    {
        if self.metal_display_link {
            Pacing::MetalDisplayLink
        } else {
            Pacing::DisplayLink
        }
    }
}

} // verus!
