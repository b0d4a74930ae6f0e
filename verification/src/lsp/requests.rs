//! What the parameters of a message ask of the workspace.
use vstd::prelude::*;

use crate::lsp::json::{
    as_items, as_string, integer, integer_in, items_of, member, member_in, member_of, next_member, string_of, text_of, texts,
};
use crate::text::same;

verus! {

/// A document as the client has it: its URI and its text.
#[derive(Debug)]
pub struct Document {
    pub uri: String,
    pub text: String,
}

/// The URI and the text of a document, if there is one.
pub open spec fn document_view(d: Option<Document>) -> Option<(Seq<char>, Seq<char>)> {
    match d {
        Some(d) => Some((d.uri@, d.text@)),
        None => None,
    }
}

/// The URI of the document that a message is about.
pub open spec fn uri_in(params: Seq<char>) -> Option<Seq<char>> {
    string_of(member_of(member_in(params, "textDocument"@), "uri"@))
}

/// The URI of the document that a message is about.
pub fn doc_uri(params: &str) -> (r: Option<String>)
    ensures
        text_of(r) == uri_in(params@),
{
    as_string(next_member(member(params, "textDocument"), "uri"))
}

/// Both, if both are there.
pub open spec fn both(uri: Option<Seq<char>>, text: Option<Seq<char>>) -> Option<(Seq<char>, Seq<char>)> {
    match (uri, text) {
        (Some(u), Some(t)) => Some((u, t)),
        _ => None,
    }
}

fn document(uri: Option<String>, text: Option<String>) -> (r: Option<Document>)
    ensures
        document_view(r) == both(text_of(uri), text_of(text)),
{
    match (uri, text) {
        (Some(uri), Some(text)) => Some(Document { uri, text }),
        _ => None,
    }
}

/// The document that the client opens, with its text. One without either is passed over.
pub fn opened(params: &str) -> (r: Option<Document>)
    ensures
        document_view(r) == both(
            uri_in(params@),
            string_of(member_of(member_in(params@, "textDocument"@), "text"@)),
        ),
{
    let uri = doc_uri(params);
    document(uri, as_string(next_member(member(params, "textDocument"), "text")))
}

/// The text that the last of some changes leaves.
pub open spec fn last_text(changes: Option<Seq<Seq<char>>>) -> Option<Seq<char>> {
    match changes {
        Some(list) => if list.len() > 0 {
            string_of(member_in(list.last(), "text"@))
        } else {
            None
        },
        None => None,
    }
}

/// The document that the client has changed: each change holds the whole text, so the last
/// one says what it is now.
pub fn changed(params: &str) -> (r: Option<Document>)
    ensures
        document_view(r) == both(uri_in(params@), last_text(items_of(member_in(params@, "contentChanges"@)))),
{
    let uri = doc_uri(params);
    let changes = as_items(member(params, "contentChanges"));
    let text = match changes {
        Some(list) => if list.len() > 0 {
            let n = list.len();
            assert(texts(list@).last() == list@[n - 1]@);
            as_string(member(list[n - 1].as_str(), "text"))
        } else {
            None
        },
        None => None,
    };
    document(uri, text)
}

/// A file that has changed on disk: its URI, and the number of what happened to it.
#[derive(Debug)]
pub struct FileChange {
    pub uri: String,
    pub kind: i64,
}

/// The number of a change that says nothing else.
pub const CHANGED: i64 = 2;

/// The file that an item is about, if it gives a URI.
pub open spec fn change_in(item: Seq<char>) -> Option<(Seq<char>, i64)> {
    match string_of(member_in(item, "uri"@)) {
        Some(uri) => Some(
            (
                uri,
                match member_in(item, "type"@) {
                    Some(t) => match integer_in(t) {
                        Some(n) => n,
                        None => CHANGED,
                    },
                    None => CHANGED,
                },
            ),
        ),
        None => None,
    }
}

/// The files that some items are about, without the items that give no URI.
pub open spec fn changes_in(items: Seq<Seq<char>>) -> Seq<(Seq<char>, i64)>
    decreases items.len(),
{
    if items.len() == 0 {
        Seq::empty()
    } else {
        match change_in(items.last()) {
            Some(c) => changes_in(items.drop_last()).push(c),
            None => changes_in(items.drop_last()),
        }
    }
}

/// The views of some changes.
pub open spec fn change_views(v: Seq<FileChange>) -> Seq<(Seq<char>, i64)> {
    v.map_values(|c: FileChange| (c.uri@, c.kind))
}

fn file_change(item: &str) -> (r: Option<FileChange>)
    ensures
        match r {
            Some(c) => change_in(item@) == Some((c.uri@, c.kind)),
            None => change_in(item@) is None,
        },
{
    match as_string(member(item, "uri")) {
        Some(uri) => {
            let kind = match member(item, "type") {
                Some(t) => match integer(t.as_str()) {
                    Some(n) => n,
                    None => CHANGED,
                },
                None => CHANGED,
            };
            Some(FileChange { uri, kind })
        },
        None => None,
    }
}

/// The files that have changed on disk. `None` where there is nothing to look at again: the
/// message lists none, or no root has been opened.
pub fn watched(params: &str, has_roots: bool) -> (r: Option<Vec<FileChange>>)
    ensures
        match items_of(member_in(params@, "changes"@)) {
            Some(list) => if has_roots {
                r is Some && change_views(r->0@) == changes_in(list)
            } else {
                r is None
            },
            None => r is None,
        },
{
    let list = match as_items(member(params, "changes")) {
        Some(list) => list,
        None => {
            return None;
        },
    };
    if !has_roots {
        return None;
    }
    let mut out: Vec<FileChange> = Vec::new();
    let mut k: usize = 0;
    assert(change_views(out@) =~= changes_in(texts(list@).take(0)));
    while k < list.len()
        invariant
            k <= list@.len(),
            change_views(out@) == changes_in(texts(list@).take(k as int)),
        decreases list@.len() - k,
    {
        let ghost before = out@;
        assert(texts(list@).take(k + 1).drop_last() =~= texts(list@).take(k as int));
        assert(texts(list@).take(k + 1).last() == list@[k as int]@);
        if let Some(c) = file_change(list[k].as_str()) {
            out.push(c);
            assert(change_views(out@) =~= change_views(before).push((c.uri@, c.kind)));
        }
        k += 1;
    }
    assert(texts(list@).take(k as int) =~= texts(list@));
    Some(out)
}

/// The URIs of some folders, without the folders that give none.
pub open spec fn uris_in(items: Seq<Seq<char>>) -> Seq<Seq<char>>
    decreases items.len(),
{
    if items.len() == 0 {
        Seq::empty()
    } else {
        match string_of(member_in(items.last(), "uri"@)) {
            Some(u) => uris_in(items.drop_last()).push(u),
            None => uris_in(items.drop_last()),
        }
    }
}

/// The URIs of the folders that a value lists: none, where it is no list.
pub open spec fn folders_in(folders: Option<Seq<char>>) -> Seq<Seq<char>> {
    match items_of(folders) {
        Some(list) => uris_in(list),
        None => Seq::empty(),
    }
}

fn uris(list: &Vec<String>) -> (out: Vec<String>)
    ensures
        texts(out@) == uris_in(texts(list@)),
{
    let mut out: Vec<String> = Vec::new();
    let mut k: usize = 0;
    assert(texts(out@) =~= uris_in(texts(list@).take(0)));
    while k < list.len()
        invariant
            k <= list@.len(),
            texts(out@) == uris_in(texts(list@).take(k as int)),
        decreases list@.len() - k,
    {
        let ghost before = out@;
        assert(texts(list@).take(k + 1).drop_last() =~= texts(list@).take(k as int));
        assert(texts(list@).take(k + 1).last() == list@[k as int]@);
        if let Some(u) = as_string(member(list[k].as_str(), "uri")) {
            out.push(u);
            assert(texts(out@) =~= texts(before).push(u@));
        }
        k += 1;
    }
    assert(texts(list@).take(k as int) =~= texts(list@));
    out
}

/// The folders that a value lists.
fn folders(value: Option<String>) -> (out: Vec<String>)
    ensures
        texts(out@) == folders_in(text_of(value)),
{
    match as_items(value) {
        Some(list) => uris(&list),
        None => {
            let out: Vec<String> = Vec::new();
            assert(texts(out@) =~= Seq::empty());
            out
        },
    }
}

/// The folders that a client starts with: those of its workspace, where it lists them, or
/// else its root. One that opens a loose file has neither.
pub open spec fn first_folders(params: Seq<char>) -> Seq<Seq<char>> {
    match items_of(member_in(params, "workspaceFolders"@)) {
        Some(list) => uris_in(list),
        None => match string_of(member_in(params, "rootUri"@)) {
            Some(u) => seq![u],
            None => Seq::empty(),
        },
    }
}

/// The folders that a client starts with, as URIs.
pub fn initial_folders(params: &str) -> (out: Vec<String>)
    ensures
        texts(out@) == first_folders(params@),
{
    match as_items(member(params, "workspaceFolders")) {
        Some(list) => uris(&list),
        None => {
            let mut out: Vec<String> = Vec::new();
            if let Some(u) = as_string(member(params, "rootUri")) {
                out.push(u);
                assert(texts(out@) =~= seq![u@]);
            } else {
                assert(texts(out@) =~= Seq::empty());
            }
            out
        },
    }
}

/// The folders that a client takes out of its workspace, and those that it adds, as URIs.
pub fn changed_folders(params: &str) -> (out: (Vec<String>, Vec<String>))
    ensures
        texts(out.0@) == folders_in(member_of(member_in(params@, "event"@), "removed"@)),
        texts(out.1@) == folders_in(member_of(member_in(params@, "event"@), "added"@)),
{
    let removed = folders(next_member(member(params, "event"), "removed"));
    let added = folders(next_member(member(params, "event"), "added"));
    (removed, added)
}

/// The roots of a workspace, as paths, and whether its modules have been looked for.
#[derive(Debug)]
pub struct Roots {
    pub paths: Vec<String>,
    pub scanned: bool,
}

/// The paths that are not `path`.
pub open spec fn other_paths(paths: Seq<Seq<char>>, path: Seq<char>) -> Seq<Seq<char>> {
    paths.filter(|p: Seq<char>| p != path)
}

/// The paths that are none of the first `n` of some.
pub open spec fn paths_without(paths: Seq<Seq<char>>, removed: Seq<Seq<char>>, n: int) -> Seq<Seq<char>>
    decreases n,
{
    if n <= 0 {
        paths
    } else {
        other_paths(paths_without(paths, removed, n - 1), removed[n - 1])
    }
}

fn without_path(paths: Vec<String>, path: &str) -> (out: Vec<String>)
    ensures
        texts(out@) == other_paths(texts(paths@), path@),
{
    let ghost all = texts(paths@);
    let ghost keep = |p: Seq<char>| p != path@;
    let mut out: Vec<String> = Vec::new();
    let mut k: usize = 0;
    proof {
        reveal(Seq::filter);
        assert(texts(out@) =~= all.take(0).filter(keep));
    }
    while k < paths.len()
        invariant
            k <= paths@.len(),
            all == texts(paths@),
            keep == (|p: Seq<char>| p != path@),
            texts(out@) == all.take(k as int).filter(keep),
        decreases paths@.len() - k,
    {
        let ghost before = out@;
        proof {
            reveal(Seq::filter);
            assert(all.take(k + 1).drop_last() =~= all.take(k as int));
            assert(all.take(k + 1).last() == paths@[k as int]@);
        }
        if !same(paths[k].as_str(), path) {
            let p = paths[k].clone();
            out.push(p);
            assert(texts(out@) =~= texts(before).push(p@));
        }
        k += 1;
    }
    assert(all.take(k as int) =~= all);
    out
}

impl Roots {
    /// No root, and nothing looked for.
    pub fn new() -> (r: Roots)
        ensures
            r.paths@.len() == 0,
            !r.scanned,
    {
        Roots { paths: Vec::new(), scanned: false }
    }

    /// Adds the roots that a client starts with.
    pub fn start(&mut self, paths: Vec<String>)
        ensures
            texts(final(self).paths@) == texts(old(self).paths@) + texts(paths@),
            final(self).scanned == old(self).scanned,
    {
        let mut more = paths;
        let ghost before = self.paths@;
        self.paths.append(&mut more);
        assert(texts(self.paths@) =~= texts(before) + texts(paths@));
    }

    /// Takes out some roots and adds others: the ones to look for modules in, which are those
    /// that come after the others have been looked through.
    pub fn change(&mut self, removed: &Vec<String>, added: Vec<String>) -> (index: Vec<String>)
        ensures
            texts(final(self).paths@) == paths_without(
                texts(old(self).paths@),
                texts(removed@),
                removed@.len() as int,
            ) + texts(added@),
            final(self).scanned == old(self).scanned,
            texts(index@) == (if old(self).scanned {
                texts(added@)
            } else {
                Seq::empty()
            }),
    {
        let ghost first = texts(self.paths@);
        let mut paths: Vec<String> = Vec::new();
        std::mem::swap(&mut paths, &mut self.paths);
        let mut k: usize = 0;
        while k < removed.len()
            invariant
                k <= removed@.len(),
                texts(paths@) == paths_without(first, texts(removed@), k as int),
            decreases removed@.len() - k,
        {
            paths = without_path(paths, removed[k].as_str());
            assert(texts(removed@)[k as int] == removed@[k as int]@);
            k += 1;
        }
        let ghost kept = texts(paths@);
        let ghost kept_paths = paths@;
        let mut index: Vec<String> = Vec::new();
        let mut j: usize = 0;
        assert(paths@ =~= kept_paths);
        assert(texts(paths@) =~= kept + texts(added@).take(0));
        assert(texts(index@) =~= Seq::empty());
        while j < added.len()
            invariant
                j <= added@.len(),
                texts(paths@) == kept + texts(added@).take(j as int),
                texts(index@) == (if self.scanned {
                    texts(added@).take(j as int)
                } else {
                    Seq::empty()
                }),
            decreases added@.len() - j,
        {
            let ghost (p0, i0) = (paths@, index@);
            let p = added[j].clone();
            if self.scanned {
                let q = added[j].clone();
                index.push(q);
                assert(texts(index@) =~= texts(i0).push(q@));
            }
            paths.push(p);
            proof {
                assert(texts(paths@) =~= texts(p0).push(p@));
                assert(texts(added@).take(j + 1) =~= texts(added@).take(j as int).push(added@[j as int]@));
                assert(kept + texts(added@).take(j + 1) =~= (kept + texts(added@).take(j as int)).push(added@[j as int]@));
            }
            j += 1;
        }
        assert(texts(added@).take(j as int) =~= texts(added@));
        self.paths = paths;
        index
    }
}

/// A root that is taken out is gone, unless it is added again.
pub proof fn a_removed_root_is_gone(paths: Seq<Seq<char>>, removed: Seq<Seq<char>>, n: int, i: int)
    requires
        0 <= i < n <= removed.len(),
    ensures
        !paths_without(paths, removed, n).contains(removed[i]),
    decreases n,
{
    broadcast use vstd::seq_lib::group_filter_ensures;

    let rest = paths_without(paths, removed, n - 1);
    let out = other_paths(rest, removed[n - 1]);
    if i < n - 1 {
        a_removed_root_is_gone(paths, removed, n - 1, i);
    }
    assert forall|j: int| 0 <= j < out.len() implies out[j] != removed[i] by {
        let keep = |p: Seq<char>| p != removed[n - 1];
        assert(keep(out[j]));
        rest.lemma_filter_contains_rev(keep, out[j]);
    }
}

} // verus!
