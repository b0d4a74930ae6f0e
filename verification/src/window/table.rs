//! The windows that are open, by number. The program's thread holds a number and never a
//! window.
use vstd::prelude::*;

verus! {

/// Where the display's refreshes are told: on the main thread, or on one of their own.
#[derive(Clone, Copy, Debug, PartialEq, Eq, Structural)]
pub enum LinkThread {
    Main,
    Dedicated,
}

/// How a frame is paced: by a refresh, or by a refresh that brings what to draw into.
#[derive(Clone, Copy, Debug, PartialEq, Eq, Structural)]
pub enum Pacing {
    DisplayLink,
    MetalDisplayLink,
}

/// The windows that are open, in the order in which they opened.
#[derive(Debug)]
pub struct Windows {
    pub ids: Vec<u64>,
    pub next: u64,
}

impl Windows {
    /// No number is given twice.
    pub open spec fn ok(&self) -> bool {
        &&& self.ids@.no_duplicates()
        &&& forall|i: int| 0 <= i < self.ids@.len() ==> #[trigger] self.ids@[i] < self.next
    }

    /// No window is open.
    pub fn new() -> (w: Windows)
        ensures
            w.ok(),
            w.ids@.len() == 0,
            w.next == 1,
    {
        Windows { ids: Vec::new(), next: 1 }
    }

    /// The number of a window that opens.
    pub fn opened(&mut self) -> (id: u64)
        requires
            old(self).ok(),
            old(self).next < u64::MAX,
        ensures
            final(self).ok(),
            id == old(self).next,
            final(self).next == id + 1,
            final(self).ids@ == old(self).ids@.push(id),
            !old(self).ids@.contains(id),
    {
        let id = self.next;
        self.next = id + 1;
        self.ids.push(id);
        id
    }
}

/// Where a window is among those that are open.
fn position(ids: &Vec<u64>, id: u64) -> (at: Option<usize>)
    ensures
        match at {
            Some(i) => i < ids@.len() && ids@[i as int] == id,
            None => !ids@.contains(id),
        },
{
    let mut i: usize = 0;
    while i < ids.len()
        invariant
            i <= ids@.len(),
            forall|j: int| 0 <= j < i ==> ids@[j] != id,
        decreases ids@.len() - i,
    {
        if ids[i] == id {
            return Some(i);
        }
        i += 1;
    }
    None
}

/// The windows but one.
pub open spec fn without(ids: Seq<u64>, id: u64) -> Seq<u64> {
    if ids.contains(id) {
        ids.remove(ids.index_of(id))
    } else {
        ids
    }
}

/// Takes a window off the table: whether it was there.
pub fn close_window(windows: &mut Windows, id: u64) -> (was_open: bool)
    requires
        old(windows).ok(),
    ensures
        final(windows).ok(),
        final(windows).next == old(windows).next,
        was_open == old(windows).ids@.contains(id),
        final(windows).ids@ == without(old(windows).ids@, id),
{
    match position(&windows.ids, id) {
        Some(i) => {
            let ghost before = windows.ids@;
            let _ = windows.ids.remove(i);
            proof {
                assert(before.contains(id));
                assert(before.index_of(id) == i);
                assert(windows.ids@ =~= before.remove(i as int));
                assert forall|j: int| 0 <= j < windows.ids@.len() implies #[trigger] windows.ids@[j] < windows.next by {
                    if j < i {
                        assert(windows.ids@[j] == before[j]);
                    } else {
                        assert(windows.ids@[j] == before[j + 1]);
                    }
                }
            }
            true
        },
        None => false,
    }
}

/// Takes every window off the table: their numbers, in the order in which they opened.
pub fn close_all(windows: &mut Windows) -> (closed: Vec<u64>)
    requires
        old(windows).ok(),
    ensures
        final(windows).ok(),
        final(windows).next == old(windows).next,
        final(windows).ids@.len() == 0,
        closed@ == old(windows).ids@,
{
    let mut closed: Vec<u64> = Vec::new();
    std::mem::swap(&mut windows.ids, &mut closed);
    closed
}

/// What stops the program's windows when its thread ends, however that was.
#[derive(Clone, Copy, Debug, PartialEq, Eq, Structural)]
pub struct StopAppOnDrop;

impl StopAppOnDrop {
    /// The windows that are closed then.
    pub fn stop(self, windows: &mut Windows) -> (closed: Vec<u64>)
        requires
            old(windows).ok(),
        ensures
            final(windows).ok(),
            final(windows).next == old(windows).next,
            final(windows).ids@.len() == 0,
            closed@ == old(windows).ids@,
    {
        close_all(windows)
    }
}

} // verus!
