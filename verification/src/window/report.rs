//! The report of a run with checks.
use vstd::prelude::*;
use vstd::string::StringExecFns;

use crate::text::{decimal, push_decimal};

verus! {

/// What the checks found, a line for each, and how many failed.
#[derive(Debug)]
pub struct Report {
    pub lines: Vec<String>,
    pub failures: u32,
}

/// A line of a report.
pub open spec fn line_text(mark: Seq<char>, name: Seq<char>, detail: Seq<char>) -> Seq<char> {
    "["@ + mark + "] "@ + name + ": "@ + detail
}

/// The texts of some lines.
pub open spec fn texts(v: Seq<String>) -> Seq<Seq<char>> {
    v.map_values(|s: String| s@)
}

impl Report {
    /// A report with nothing in it.
    pub fn new() -> (r: Report)
        ensures
            r.lines@.len() == 0,
            r.failures == 0,
    {
        Report { lines: Vec::new(), failures: 0 }
    }

    fn line(&mut self, mark: &str, name: &str, detail: &str)
        ensures
            texts(final(self).lines@) == texts(old(self).lines@).push(line_text(mark@, name@, detail@)),
            final(self).failures == old(self).failures,
    {
        let mut s = String::new();
        s.append("[");
        s.append(mark);
        s.append("] ");
        s.append(name);
        s.append(": ");
        s.append(detail);
        assert(s@ =~= line_text(mark@, name@, detail@));
        self.lines.push(s);
        assert(texts(self.lines@) =~= texts(old(self).lines@).push(line_text(mark@, name@, detail@)));
    }

    /// What a check found: one that did not hold counts as a failure.
    pub fn check(&mut self, name: &str, ok: bool, detail: &str)
        requires
            old(self).failures < u32::MAX,
        ensures
            final(self).failures == old(self).failures + (if ok {
                0int
            } else {
                1
            }),
            texts(final(self).lines@) == texts(old(self).lines@).push(
                line_text(
                    if ok {
                        "PASS"@
                    } else {
                        "FAIL"@
                    },
                    name@,
                    detail@,
                ),
            ),
    {
        if ok {
            self.line("PASS", name, detail);
        } else {
            self.failures = self.failures + 1;
            self.line("FAIL", name, detail);
        }
    }

    /// Something to know.
    pub fn info(&mut self, name: &str, detail: &str)
        ensures
            final(self).failures == old(self).failures,
            texts(final(self).lines@) == texts(old(self).lines@).push(line_text("INFO"@, name@, detail@)),
    {
        self.line("INFO", name, detail);
    }

    /// A check that could not be made, and why.
    pub fn unrun(&mut self, name: &str, reason: &str)
        ensures
            final(self).failures == old(self).failures,
            texts(final(self).lines@) == texts(old(self).lines@).push(line_text("UNRUN"@, name@, reason@)),
    {
        self.line("UNRUN", name, reason);
    }

    /// What the program exits with: 0 if nothing failed.
    pub fn exit_code(&self) -> (code: i32)
        ensures
            code == (if self.failures == 0 {
                0int
            } else {
                1
            }),
    {
        if self.failures == 0 {
            0
        } else {
            1
        }
    }

    /// The report as it is printed.
    pub fn text(&self) -> (out: String)
        ensures
            out@ == "\n==== metal-window spike report ====\n"@ + all_lines(texts(self.lines@)) + "failures: "@ + decimal(
                self.failures as nat,
            ) + "\n"@,
    {
        let ghost all = texts(self.lines@);
        let ghost head = "\n==== metal-window spike report ====\n"@;
        let mut out = String::new();
        out.append("\n==== metal-window spike report ====\n");
        let mut k: usize = 0;
        assert(out@ =~= head + all_lines(all.take(0)));
        while k < self.lines.len()
            invariant
                k <= self.lines@.len(),
                all == texts(self.lines@),
                out@ == head + all_lines(all.take(k as int)),
            decreases self.lines@.len() - k,
        {
            proof {
                let t = all.take(k + 1);
                assert(t.drop_last() =~= all.take(k as int));
                assert(t.last() == self.lines@[k as int]@);
            }
            out.append(self.lines[k].as_str());
            out.append("\n");
            assert(out@ =~= head + all_lines(all.take(k + 1)));
            k += 1;
        }
        assert(all.take(k as int) =~= all);
        out.append("failures: ");
        push_decimal(&mut out, self.failures as u64);
        out.append("\n");
        assert(out@ =~= head + all_lines(all) + "failures: "@ + decimal(self.failures as nat) + "\n"@);
        out
    }
}

/// Lines, each with its end.
pub open spec fn all_lines(lines: Seq<Seq<char>>) -> Seq<char>
    decreases lines.len(),
{
    if lines.len() == 0 {
        Seq::empty()
    } else {
        all_lines(lines.drop_last()) + lines.last() + "\n"@
    }
}

} // verus!
