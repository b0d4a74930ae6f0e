//! The version that a build names itself by.
use vstd::prelude::*;
use vstd::string::{StrSliceExecFns, StringExecFns};

use crate::text::{contains, has, has_at, strip_prefix, trim, trimmed};

verus! {

/// A version that a published build was stamped with.
pub open spec fn is_stamped(base: Seq<char>) -> bool {
    has(base, "-"@) || has(base, "+"@)
}

/// The version of a build: a stamped one is used as it is, and a bare one names the commit it
/// was built from, where that is known.
pub open spec fn stamped(base: Seq<char>, git: Option<Seq<char>>) -> Seq<char> {
    if is_stamped(base) {
        base
    } else {
        match git {
            Some(git) => base + "+git."@ + git,
            None => base,
        }
    }
}

/// The text there is, if there is one.
pub open spec fn text_of(s: Option<&str>) -> Option<Seq<char>> {
    match s {
        Some(s) => Some(s@),
        None => None,
    }
}

/// The version of a build, from what its file of that name holds.
pub fn stamp(file: &str, git: Option<&str>) -> (out: String)
    ensures
        out@ == stamped(trimmed(file@), text_of(git)),
{
    let base = trim(file);
    let mut out = base.to_owned();
    if contains(base, "-") || contains(base, "+") {
        return out;
    }
    match git {
        Some(git) => {
            out.append("+git.");
            out.append(git);
            assert(out@ =~= stamped(base@, Some(git@)));
        },
        None => {},
    }
    out
}

/// How a commit is named: by its short hash, marked where there are changes on top of it.
pub open spec fn git_name(sha: Option<Seq<char>>, status: Option<Seq<char>>) -> Option<Seq<char>> {
    match sha {
        None => None,
        Some(sha) => if sha.len() == 0 {
            None
        } else {
            match status {
                Some(s) => if s.len() > 0 {
                    Some(sha + ".dirty"@)
                } else {
                    Some(sha)
                },
                None => Some(sha),
            }
        },
    }
}

/// How a commit is named, from what was asked of it: its short hash, and its changes, either
/// of which may not be known.
pub fn git_stamp(sha: Option<&str>, status: Option<&str>) -> (out: Option<String>)
    ensures
        match out {
            Some(s) => git_name(text_of(sha), text_of(status)) == Some(s@),
            None => git_name(text_of(sha), text_of(status)) is None,
        },
{
    let sha = match sha {
        Some(s) => s,
        None => {
            return None;
        },
    };
    if sha.unicode_len() == 0 {
        return None;
    }
    let mut out = sha.to_owned();
    match status {
        Some(s) => {
            if s.unicode_len() > 0 {
                out.append(".dirty");
            }
        },
        None => {},
    }
    Some(out)
}

/// What follows a key in a line, if the line has it.
pub open spec fn value_after(line: Seq<char>, key: Seq<char>) -> Option<Seq<char>> {
    if has_at(line, key, 0) {
        Some(trimmed(line.skip(key.len() as int)))
    } else {
        None
    }
}

/// The directory that a work tree's file names, as `gitdir: path`.
pub fn git_dir(contents: &str) -> (r: Option<&str>)
    ensures
        text_of(r) == value_after(contents@, "gitdir:"@),
{
    match strip_prefix(contents, "gitdir:") {
        Some(rest) => Some(trim(rest)),
        None => None,
    }
}

/// The file that a head names, as `ref: path`.
pub fn head_ref(contents: &str) -> (r: Option<&str>)
    ensures
        text_of(r) == value_after(contents@, "ref: "@),
{
    match strip_prefix(contents, "ref: ") {
        Some(rest) => Some(trim(rest)),
        None => None,
    }
}

} // verus!
