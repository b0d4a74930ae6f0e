//! Files that are read into constants when a program is compiled.
//!
//! A file is known by its resolved path, never the path as written, and is a dependency of
//! the module that names it whatever came of reading it.
use vstd::prelude::*;
use vstd::string::{StrSliceExecFns, StringExecFns};
use vstd::utf8::{encode_utf8, valid_utf8};

use crate::text::{chars_of, decimal, push_decimal, same};

verus! {

/// What a constant holds of its file.
#[derive(Clone, Copy, Debug, PartialEq, Eq, Structural)]
pub enum EmbedAs {
    /// The file's text, which must be UTF-8.
    String,
    /// The file's bytes, as they are.
    Binary,
}

/// The contents of an embedded file.
#[derive(Debug)]
pub enum Embedded {
    String(String),
    Binary(Vec<u8>),
}

/// When a file was changed, how long it is, and which it is on its disk.
#[derive(Clone, Copy, Debug, PartialEq, Eq, Structural)]
pub struct FileStat {
    pub mtime: u64,
    pub len: u64,
    pub ino: u64,
}

/// A file that a module embedded: its resolved path, the hash of the bytes that were read,
/// or `None` when the read failed, and what was last known of it on its disk.
#[derive(Debug)]
pub struct EmbeddedFile {
    pub path: String,
    pub hash: Option<u64>,
    pub stat: Option<FileStat>,
}

impl EmbeddedFile {
    /// The resolved path, which is what the file is known by.
    pub fn path(&self) -> (p: &str)
        ensures
            p@ == self.path@,
    {
        self.path.as_str()
    }
}

/// Why a path cannot be resolved to a file.
#[derive(Clone, Copy, Debug, PartialEq, Eq, Structural)]
pub enum EmbedPathError {
    /// The module has no directory.
    NoDirectory,
    Empty,
    Absolute,
    /// The directory joined with the path has no absolute form.
    Unresolvable,
}

/// The parts of a path between its slashes.
pub open spec fn split(s: Seq<char>) -> Seq<Seq<char>>
    decreases s.len(),
{
    if s.len() == 0 {
        seq![Seq::<char>::empty()]
    } else {
        let before = split(s.drop_last());
        if s.last() == '/' {
            before.push(Seq::empty())
        } else {
            before.drop_last().push(before.last().push(s.last()))
        }
    }
}

/// A part that says nothing: an empty one, or the directory itself.
pub open spec fn says_nothing(part: Seq<char>) -> bool {
    part == ""@ || part == "."@
}

/// The directories and the file that some parts lead to from the root, as text: a part that
/// says nothing is left out, and one that goes up takes back the one before it, if there is
/// one.
pub open spec fn normal(parts: Seq<Seq<char>>) -> Seq<Seq<char>>
    decreases parts.len(),
{
    if parts.len() == 0 {
        Seq::empty()
    } else {
        let before = normal(parts.drop_last());
        let last = parts.last();
        if says_nothing(last) {
            before
        } else if last == ".."@ {
            if before.len() == 0 {
                before
            } else {
                before.drop_last()
            }
        } else {
            before.push(last)
        }
    }
}

/// Names from the root on as a path.
pub open spec fn path_text(names: Seq<Seq<char>>) -> Seq<char>
    decreases names.len(),
{
    if names.len() == 0 {
        Seq::empty()
    } else {
        path_text(names.drop_last()) + "/"@ + names.last()
    }
}

/// A path is absolute.
pub open spec fn is_absolute(s: Seq<char>) -> bool {
    s.len() > 0 && s[0] == '/'
}

/// An absolute path in its shortest form, as text.
pub open spec fn lexical(s: Seq<char>) -> Seq<char> {
    let names = normal(split(s));
    if names.len() == 0 {
        "/"@
    } else {
        path_text(names)
    }
}

/// The file that a path names from a directory, which is itself taken from `here` where it
/// is not absolute.
pub open spec fn resolved(dir: Option<Seq<char>>, written: Seq<char>, here: Option<Seq<char>>) -> Result<
    Seq<char>,
    EmbedPathError,
> {
    if written.len() == 0 {
        Err(EmbedPathError::Empty)
    } else if is_absolute(written) {
        Err(EmbedPathError::Absolute)
    } else {
        match dir {
            None => Err(EmbedPathError::NoDirectory),
            Some(dir) => if is_absolute(dir) {
                Ok(lexical(dir + "/"@ + written))
            } else {
                match here {
                    None => Err(EmbedPathError::Unresolvable),
                    Some(here) => Ok(lexical(here + "/"@ + dir + "/"@ + written)),
                }
            },
        }
    }
}

/// The texts of some strings.
pub open spec fn texts(v: Seq<String>) -> Seq<Seq<char>> {
    v.map_values(|s: String| s@)
}

/// The parts of a path between its slashes.
fn split_path(s: &str) -> (out: Vec<String>)
    ensures
        texts(out@) == split(s@),
{
    let c = chars_of(s);
    let n = c.len();
    let mut out: Vec<String> = Vec::new();
    let mut start: usize = 0;
    let mut i: usize = 0;
    proof {
        assert(s@.take(0) =~= Seq::<char>::empty());
        assert(s@.subrange(0, 0) =~= Seq::<char>::empty());
        assert(texts(out@).push(s@.subrange(0, 0)) =~= split(s@.take(0)));
    }
    while i < n
        invariant
            start <= i <= n,
            n == c@.len(),
            c@ == s@,
            texts(out@).push(s@.subrange(start as int, i as int)) == split(s@.take(i as int)),
        decreases n - i,
    {
        let ghost before = split(s@.take(i as int));
        let ghost here = s@.subrange(start as int, i as int);
        proof {
            let t = s@.take(i + 1);
            assert(t.drop_last() =~= s@.take(i as int));
            assert(t.last() == c@[i as int]);
            assert(before.last() == here);
            assert(before.drop_last() =~= texts(out@));
        }
        if c[i] == '/' {
            let part = s.substring_char(start, i).to_owned();
            let ghost out0 = texts(out@);
            out.push(part);
            start = i + 1;
            proof {
                assert(texts(out@) =~= out0.push(here));
                assert(s@.subrange(i + 1, i + 1) =~= Seq::<char>::empty());
                assert(texts(out@).push(s@.subrange(start as int, i + 1)) =~= split(s@.take(i + 1)));
            }
        } else {
            proof {
                assert(s@.subrange(start as int, i + 1) =~= here.push(c@[i as int]));
                assert(texts(out@).push(s@.subrange(start as int, i + 1)) =~= split(s@.take(i + 1)));
            }
        }
        i += 1;
    }
    let ghost out0 = texts(out@);
    out.push(s.substring_char(start, n).to_owned());
    proof {
        assert(s@.take(n as int) =~= s@);
        assert(texts(out@) =~= out0.push(s@.subrange(start as int, n as int)));
    }
    out
}

/// An absolute path in its shortest form, as text.
fn lexical_absolute(s: &str) -> (out: String)
    ensures
        out@ == lexical(s@),
{
    let parts = split_path(s);
    let ghost all = texts(parts@);
    let mut names: Vec<String> = Vec::new();
    let mut k: usize = 0;
    assert(texts(names@) =~= normal(all.take(0)));
    while k < parts.len()
        invariant
            k <= parts@.len(),
            all == texts(parts@),
            texts(names@) == normal(all.take(k as int)),
        decreases parts@.len() - k,
    {
        let part = parts[k].as_str();
        let ghost names0 = texts(names@);
        proof {
            let t = all.take(k + 1);
            assert(t.drop_last() =~= all.take(k as int));
            assert(t.last() == part@);
        }
        if same(part, "") || same(part, ".") {
        } else if same(part, "..") {
            if names.len() > 0 {
                let _ = names.pop();
                assert(texts(names@) =~= names0.drop_last());
            }
        } else {
            names.push(part.to_owned());
            assert(texts(names@) =~= names0.push(part@));
        }
        k += 1;
    }
    assert(all.take(k as int) =~= all);
    if names.len() == 0 {
        return "/".to_owned();
    }
    let ghost want = texts(names@);
    let mut out = String::new();
    let mut i: usize = 0;
    assert(out@ =~= path_text(want.take(0)));
    while i < names.len()
        invariant
            i <= names@.len(),
            want == texts(names@),
            out@ == path_text(want.take(i as int)),
        decreases names@.len() - i,
    {
        proof {
            let t = want.take(i + 1);
            assert(t.drop_last() =~= want.take(i as int));
            assert(t.last() == names@[i as int]@);
        }
        out.append("/");
        out.append(names[i].as_str());
        assert(out@ =~= path_text(want.take(i + 1)));
        i += 1;
    }
    assert(want.take(i as int) =~= want);
    out
}

/// The text there is, if there is one.
pub open spec fn text_of(s: Option<&str>) -> Option<Seq<char>> {
    match s {
        Some(s) => Some(s@),
        None => None,
    }
}

fn absolute(s: &str) -> (yes: bool)
    ensures
        yes == is_absolute(s@),
{
    s.unicode_len() > 0 && s.get_char(0) == '/'
}

/// Resolves `written` against `dir`, the directory of the module's own file, and that against
/// `here`, the directory that the compiler runs in, where there is one.
///
/// A path is made shortest as text: it may go up, links are not followed, and an absolute
/// path is refused, so that the program means the same file wherever it is built from.
pub fn resolve_path(dir: Option<&str>, written: &str, here: Option<&str>) -> (r: Result<String, EmbedPathError>)
    ensures
        match r {
            Ok(p) => resolved(text_of(dir), written@, text_of(here)) == Ok::<Seq<char>, EmbedPathError>(p@),
            Err(e) => resolved(text_of(dir), written@, text_of(here)) == Err::<Seq<char>, EmbedPathError>(e),
        },
{
    if written.unicode_len() == 0 {
        return Err(EmbedPathError::Empty);
    }
    if absolute(written) {
        return Err(EmbedPathError::Absolute);
    }
    let dir = match dir {
        Some(d) => d,
        None => {
            return Err(EmbedPathError::NoDirectory);
        },
    };
    let mut all = String::new();
    if !absolute(dir) {
        match here {
            Some(h) => {
                all.append(h);
                all.append("/");
            },
            None => {
                return Err(EmbedPathError::Unresolvable);
            },
        }
    }
    all.append(dir);
    all.append("/");
    all.append(written);
    proof {
        if is_absolute(dir@) {
            assert(all@ =~= dir@ + "/"@ + written@);
        } else {
            assert(all@ =~= text_of(here)->0 + "/"@ + dir@ + "/"@ + written@);
        }
    }
    Ok(lexical_absolute(all.as_str()))
}

/// A name, and going up from it, leads nowhere: two spellings of one file are one path.
pub proof fn going_up_takes_back(parts: Seq<Seq<char>>, name: Seq<char>)
    requires
        !says_nothing(name),
        name != ".."@,
    ensures
        normal(parts.push(name).push(".."@)) == normal(parts),
        normal(parts.push("."@)) == normal(parts),
        normal(parts.push(""@)) == normal(parts),
{
    reveal_strlit(".");
    reveal_strlit("..");
    reveal_strlit("");
    let p1 = parts.push(name);
    let p2 = p1.push(".."@);
    assert(".."@.len() == 2 && "."@.len() == 1 && ""@.len() == 0);
    assert(p1.drop_last() =~= parts);
    assert(p2.drop_last() =~= p1);
    assert(normal(p1) == normal(parts).push(name));
    assert(normal(parts).push(name).drop_last() =~= normal(parts));
    assert(parts.push("."@).drop_last() =~= parts);
    assert(parts.push(""@).drop_last() =~= parts);
}

/// Going up at the root stays there.
pub proof fn going_up_stops_at_the_root(parts: Seq<Seq<char>>)
    requires
        normal(parts).len() == 0,
    ensures
        normal(parts.push(".."@)).len() == 0,
{
    assert(parts.push(".."@).drop_last() =~= parts);
}

/// A resolved path has no part that says nothing or goes up.
pub proof fn names_are_plain(parts: Seq<Seq<char>>, i: int)
    requires
        0 <= i < normal(parts).len(),
    ensures
        !says_nothing(normal(parts)[i]),
        normal(parts)[i] != ".."@,
    decreases parts.len(),
{
    let before = normal(parts.drop_last());
    if i < before.len() {
        names_are_plain(parts.drop_last(), i);
    }
}

/// Why an embedded file could not become a constant.
#[derive(Debug)]
pub enum ReadError {
    /// The file could not be read, and why.
    Io(String),
    /// It is more bytes than one value holds.
    TooLarge { len: u64, max: usize },
    /// It is not UTF-8 from byte `offset` on.
    NotUtf8 { offset: usize },
}

/// How an error is told.
pub open spec fn error_text(e: ReadError) -> Seq<char> {
    match e {
        ReadError::Io(why) => why@,
        ReadError::TooLarge { len, max } => "it is "@ + decimal(len as nat)
            + " bytes, and one `String` or `Binary` holds at most "@ + decimal(max as nat),
        ReadError::NotUtf8 { offset } => "it is not UTF-8 (the first invalid byte is at offset "@ + decimal(offset as nat)
            + "); embed it as a `Binary` instead"@,
    }
}

impl ReadError {
    /// How the error is told.
    pub fn message(&self) -> (out: String)
        ensures
            out@ == error_text(*self),
    {
        let mut out = String::new();
        match self {
            ReadError::Io(why) => {
                out.append(why.as_str());
            },
            ReadError::TooLarge { len, max } => {
                out.append("it is ");
                push_decimal(&mut out, *len);
                out.append(" bytes, and one `String` or `Binary` holds at most ");
                push_decimal(&mut out, *max as u64);
            },
            ReadError::NotUtf8 { offset } => {
                out.append("it is not UTF-8 (the first invalid byte is at offset ");
                push_decimal(&mut out, *offset as u64);
                out.append("); embed it as a `Binary` instead");
            },
        }
        assert(out@ =~= error_text(*self));
        out
    }
}

/// What the disk gave of a file.
#[derive(Debug)]
pub enum Found {
    /// Nothing, and why.
    Io(String),
    /// It is so long, and was not read for that.
    Long(u64),
    /// Its bytes, and their hash.
    Bytes { bytes: Vec<u8>, hash: u64 },
}

/// Whether a file is too long to be read: one longer than `max` is never held in memory.
pub fn is_too_long(len: u64, max: usize) -> (yes: bool)
    ensures
        yes == (len > max),
{
    len > max as u64
}

/// What one read of an embedded file found: the dependency to record, whatever happened, and
/// the value or why there is none.
#[derive(Debug)]
pub struct Read {
    pub file: EmbeddedFile,
    pub value: Result<Embedded, ReadError>,
}

/// `String::from_utf8`: bytes that are UTF-8 as a string, or else how many of the first bytes
/// are, which are as many as can be.
#[verifier::external_body]
fn from_utf8(bytes: Vec<u8>) -> (r: Result<String, usize>)
    ensures
        match r {
            Ok(s) => valid_utf8(bytes@) && encode_utf8(s@) == bytes@,
            Err(n) => {
                &&& !valid_utf8(bytes@)
                &&& n < bytes@.len()
                &&& valid_utf8(bytes@.take(n as int))
                &&& forall|k: int| n < k <= bytes@.len() ==> !valid_utf8(#[trigger] bytes@.take(k))
            },
        },
{
    String::from_utf8(bytes).map_err(|e| e.utf8_error().valid_up_to())
}

/// What a read comes to.
pub open spec fn value_is(found: Found, kind: EmbedAs, max: usize, value: Result<Embedded, ReadError>) -> bool {
    match found {
        Found::Io(why) => value == Err::<Embedded, ReadError>(ReadError::Io(why)),
        Found::Long(len) => value == Err::<Embedded, ReadError>(ReadError::TooLarge { len, max }),
        Found::Bytes { bytes, hash } => if bytes@.len() > max {
            value == Err::<Embedded, ReadError>(ReadError::TooLarge { len: bytes@.len() as u64, max })
        } else {
            match kind {
                EmbedAs::Binary => value == Ok::<Embedded, ReadError>(Embedded::Binary(bytes)),
                EmbedAs::String => match value {
                    Ok(Embedded::String(s)) => valid_utf8(bytes@) && encode_utf8(s@) == bytes@,
                    Err(ReadError::NotUtf8 { offset }) => {
                        &&& !valid_utf8(bytes@)
                        &&& offset < bytes@.len()
                        &&& valid_utf8(bytes@.take(offset as int))
                        &&& forall|k: int| offset < k <= bytes@.len() ==> !valid_utf8(#[trigger] bytes@.take(k))
                    },
                    _ => false,
                },
            }
        },
    }
}

/// A file is refused for its length exactly where it holds more than `max` bytes, and told both
/// numbers; one that holds no more is embedded whole as a `Binary`, whatever its bytes are, and as
/// a `String` exactly where they are UTF-8. A file that could not be read is not embedded.
pub proof fn what_is_no_longer_is_embedded(
    bytes: Vec<u8>,
    hash: u64,
    why: String,
    kind: EmbedAs,
    max: usize,
    value: Result<Embedded, ReadError>,
)
    ensures
        value_is(Found::Io(why), kind, max, value) ==> value is Err && value->Err_0 is Io,
        value_is(Found::Bytes { bytes, hash }, kind, max, value) ==> {
            &&& bytes@.len() > max <==> value is Err && value->Err_0 is TooLarge
            &&& bytes@.len() > max ==> value->Err_0->TooLarge_len == bytes@.len() as u64 && value->Err_0->TooLarge_max
                == max
            &&& bytes@.len() <= max && kind is Binary ==> value is Ok && value->Ok_0 is Binary && value->Ok_0->Binary_0@
                == bytes@
            &&& bytes@.len() <= max && kind is String ==> {
                &&& value is Ok <==> valid_utf8(bytes@)
                &&& value is Ok ==> value->Ok_0 is String && encode_utf8(value->Ok_0->String_0@) == bytes@
                &&& value is Err ==> value->Err_0 is NotUtf8 && valid_utf8(bytes@.take(value->Err_0->offset as int))
            }
        },
{
}

/// The file at `path`, already resolved, as `kind`. One longer than `max` bytes is refused,
/// also where it was found longer only after it was read. Nothing is changed: no line ending,
/// and a byte-order mark stays.
pub fn read(path: String, kind: EmbedAs, max: usize, found: Found) -> (r: Read)
    ensures
        r.file.path == path,
        r.file.stat is None,
        r.file.hash == (match found {
            Found::Bytes { bytes, hash } => if bytes@.len() > max {
                None
            } else {
                Some(hash)
            },
            _ => None,
        }),
        value_is(found, kind, max, r.value),
{
    let (hash, value) = match found {
        Found::Io(why) => (None, Err(ReadError::Io(why))),
        Found::Long(len) => (None, Err(ReadError::TooLarge { len, max })),
        Found::Bytes { bytes, hash } => if bytes.len() > max {
            (None, Err(ReadError::TooLarge { len: bytes.len() as u64, max }))
        } else {
            (
                Some(hash),
                match kind {
                    EmbedAs::Binary => Ok(Embedded::Binary(bytes)),
                    EmbedAs::String => match from_utf8(bytes) {
                        Ok(s) => Ok(Embedded::String(s)),
                        Err(offset) => Err(ReadError::NotUtf8 { offset }),
                    },
                },
            )
        },
    };
    Read { file: EmbeddedFile { path, hash, stat: None }, value }
}

} // verus!
