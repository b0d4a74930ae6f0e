//! What holds of a whole conversation with a client: which messages get what done, what is read
//! of what they hold, and what changes the server.
use vstd::prelude::*;
use vstd::utf8::encode_utf8;

use crate::lsp::json::{flag_in, integer_in, items_in, member_in, string_in};
use crate::lsp::requests::{
    change_in, changes_in, first_folders, folders_in, last_text, other_paths, paths_without, uri_in, uris_in,
};
use crate::lsp::{
    a_frame_reads_back, after, arrived, each_method_has_its_handler, envelope_in, framed, header_of, line_read, method_in,
    parsed, patterns_in, route_of, steps, steps_for, watch_for, EnvelopeView, Header, Incoming, Line, ServerView,
    StepView,
};
use crate::text::{decimal, has_at, number_in, trimmed};

verus! {

/// A message is logged, then gets one thing done, and then the watch is brought up to date;
/// `exit` alone ends the server, at once.
pub proof fn a_message_gets_one_thing_done(e: EnvelopeView)
    ensures
        steps_for(e)[0] == StepView::Log("Received: "@ + method_in(e)),
        method_in(e) == "exit"@ ==> steps_for(e) == seq![StepView::Log("Received: "@ + method_in(e)), StepView::Stop],
        method_in(e) != "exit"@ ==> {
            &&& steps_for(e).len() == 3
            &&& !(steps_for(e)[1] is Stop)
            &&& !(steps_for(e)[1] is SyncWatch)
            &&& steps_for(e)[2] is SyncWatch
        },
{
    each_method_has_its_handler(method_in(e));
}

/// A handler gets the message's own id and its own parameters, where what is not there is null;
/// what no handler is for gets to none.
pub proof fn a_handler_gets_what_was_sent(e: EnvelopeView)
    ensures
        ({
            let m = method_in(e);
            match steps_for(e)[1] {
                StepView::Handle { route, id, params } => {
                    &&& route == route_of(m)
                    &&& !(route is Unknown)
                    &&& e.id is Some ==> id == e.id->0
                    &&& e.id is None ==> id == "null"@
                    &&& e.params is Some ==> params == e.params->0
                    &&& e.params is None ==> params == "null"@
                },
                StepView::Stop => m == "exit"@,
                StepView::Refuse { id, code, message } => {
                    &&& route_of(m) is Unknown
                    &&& e.id == Some(id)
                    &&& id != "null"@
                    &&& code == -32601
                    &&& message == "method not found: "@ + m
                },
                StepView::Log(line) => {
                    &&& route_of(m) is Unknown
                    &&& e.id is None || e.id == Some("null"@)
                    &&& line == "Unknown method: "@ + m
                },
                StepView::SyncWatch => false,
            }
        }),
{
    each_method_has_its_handler(method_in(e));
}

/// `initialize` says whether the client takes relative patterns, `initialized` starts the watch
/// with nothing in it, and no other message changes anything.
pub proof fn only_the_handshake_changes_the_server(s: ServerView, e: EnvelopeView)
    ensures
        ({
            let (m, t) = (method_in(e), after(s, e));
            &&& m == "initialize"@ ==> t.relative_patterns == (e.relative_patterns == Some(true))
            &&& m != "initialize"@ ==> t.relative_patterns == s.relative_patterns
            &&& m == "initialized"@ ==> t.embed_watch == Some(Seq::<Seq<char>>::empty())
            &&& m != "initialized"@ ==> t.embed_watch == s.embed_watch
        }),
{
    each_method_has_its_handler(method_in(e));
}

/// What cannot be read, or is no JSON, is logged and passed over: the server is as it was and goes
/// on. An empty message is passed over in silence, and the end of the input ends the server.
pub proof fn bad_input_is_passed_over(s: ServerView, i: Incoming)
    ensures
        ({
            let (t, done) = arrived(s, i);
            match i {
                Incoming::Eof => t == s && done == seq![StepView::Stop],
                Incoming::Failed(why) => t == s && done == seq![StepView::Log("Failed to read message: "@ + why@)],
                Incoming::Message(c) => {
                    &&& c@.len() == 0 ==> t == s && done.len() == 0
                    &&& c@.len() > 0 && parsed(c@) is Err ==> t == s && done == seq![
                        StepView::Log("Failed to parse JSON: "@ + parsed(c@)->Err_0),
                    ]
                    &&& c@.len() > 0 && parsed(c@) is Ok ==> done == steps_for(parsed(c@)->Ok_0) && t == after(
                        s,
                        parsed(c@)->Ok_0,
                    )
                },
            }
        }),
{
}

/// The server ends at most once, and does nothing after that.
pub proof fn nothing_follows_the_end(s: ServerView, list: Seq<Incoming>, k: int)
    requires
        0 <= k < steps(s, list).1.len() - 1,
    ensures
        !(steps(s, list).1[k] is Stop),
    decreases list.len(),
{
    let (t, done) = arrived(s, list[0]);
    assert forall|j: int| 0 <= j < done.len() - 1 implies !(#[trigger] done[j] is Stop) by {
        if let Incoming::Message(c) = list[0] {
            if let Ok(e) = parsed(c@) {
                a_message_gets_one_thing_done(e);
            }
        }
    }
    if !(done.len() > 0 && done.last() is Stop) {
        let (u, rest) = steps(t, list.skip(1));
        if k >= done.len() {
            nothing_follows_the_end(t, list.skip(1), k - done.len());
        }
    }
}

/// The members that a message is read from.
pub proof fn a_message_is_read_by_name(content: Seq<char>, params: Seq<char>)
    requires
        member_in(content, "params"@) == Some(params),
    ensures
        envelope_in(content).params == Some(params),
        envelope_in(content).id == member_in(content, "id"@),
        forall|j: Seq<char>| member_in(content, "method"@) == Some(j) ==> envelope_in(content).method == #[trigger] string_in(j),
        member_in(content, "method"@) is None ==> envelope_in(content).method is None,
        envelope_in(content).relative_patterns == patterns_in(Some(params)),
{
}

/// A client says that it takes relative patterns four members down.
pub proof fn relative_patterns_are_read_by_name(
    params: Seq<char>,
    capabilities: Seq<char>,
    workspace: Seq<char>,
    watched: Seq<char>,
    flag: Seq<char>,
)
    requires
        member_in(params, "capabilities"@) == Some(capabilities),
        member_in(capabilities, "workspace"@) == Some(workspace),
        member_in(workspace, "didChangeWatchedFiles"@) == Some(watched),
        member_in(watched, "relativePatternSupport"@) == Some(flag),
    ensures
        patterns_in(Some(params)) == flag_in(flag),
        patterns_in(None) is None,
{
}

/// A line with a length sets the length, whatever was before; a blank line ends what is in front
/// of a message of that length, and the next message starts anew.
pub proof fn the_last_length_counts(before: usize, n: usize)
    ensures
        ({
            let line = "Content-Length: "@ + decimal(n as nat) + "\r\n"@;
            let (length, first) = line_read(before, line);
            let (next, second) = line_read(length, "\r\n"@);
            first is More && second == Line::Body(n) && next == 0
        }),
{
    a_frame_reads_back(n);
}

/// A line that gives no length and is not blank is passed over; one whose length is no number
/// makes the message unreadable.
pub proof fn other_lines_are_passed_over(before: usize, line: Seq<char>)
    ensures
        trimmed(line).len() > 0 && !has_at(trimmed(line), "Content-Length:"@, 0) ==> line_read(before, line) == (
            before,
            Line::More,
        ),
        trimmed(line).len() == 0 ==> line_read(before, line) == (0usize, Line::Body(before)),
        trimmed(line).len() > 0 && has_at(trimmed(line), "Content-Length:"@, 0) ==> {
            let n = number_in(trimmed(trimmed(line).skip(15)));
            &&& n is Some ==> line_read(before, line) == (n->0, Line::More)
            &&& n is None ==> line_read(before, line) == (0usize, Line::Bad)
        },
{
    reveal_strlit("Content-Length:");
}

/// What is written is read back: first a line with the number of bytes of the message, then a
/// blank line, and then the message.
pub proof fn what_is_framed_is_read(content: Seq<char>)
    requires
        encode_utf8(content).len() <= usize::MAX,
    ensures
        exists|line: Seq<char>|
            {
                &&& framed(content) == #[trigger] (line + "\r\n"@) + content
                &&& header_of(line) == Header::Length(encode_utf8(content).len() as usize)
                &&& header_of("\r\n"@) == Header::End
            },
{
    let n = encode_utf8(content).len();
    a_frame_reads_back(n as usize);
    let line = "Content-Length: "@ + decimal(n) + "\r\n"@;
    reveal_strlit("\r\n");
    reveal_strlit("\r\n\r\n");
    assert("\r\n"@ + "\r\n"@ =~= "\r\n\r\n"@);
    assert(framed(content) =~= (line + "\r\n"@) + content);
}

/// The watch is given up where something was watched and it has changed, and taken up where there
/// is something to watch and it has changed.
pub proof fn the_watch_is_replaced_whole(was: Seq<Seq<char>>, now: Seq<Seq<char>>)
    ensures
        watch_for(Some(was), now).unregister <==> was != now && was.len() > 0,
        watch_for(Some(was), now).register <==> was != now && now.len() > 0,
        !watch_for(None, now).unregister && !watch_for(None, now).register,
{
}

/// The document that a message is about is named by its `textDocument`.
pub proof fn documents_are_read_by_name(params: Seq<char>, d: Seq<char>, u: Seq<char>)
    requires
        member_in(params, "textDocument"@) == Some(d),
        member_in(d, "uri"@) == Some(u),
    ensures
        uri_in(params) == string_in(u),
{
}

/// The last change says what the text is; where there is no change nothing does.
pub proof fn the_last_change_counts(list: Seq<Seq<char>>, item: Seq<char>, t: Seq<char>)
    requires
        member_in(item, "text"@) == Some(t),
    ensures
        last_text(Some(list.push(item))) == string_in(t),
        last_text(Some(Seq::<Seq<char>>::empty())) is None,
        last_text(None) is None,
{
}

/// A change that gives no number is taken as one that says that the file has changed, which is
/// number 2; one that gives a URI is told, and no other.
pub proof fn changes_are_read_by_name(item: Seq<char>)
    ensures
        member_in(item, "uri"@) is None ==> change_in(item) is None,
        forall|j: Seq<char>| member_in(item, "uri"@) == Some(j) ==> {
            &&& #[trigger] string_in(j) is None ==> change_in(item) is None
            &&& string_in(j) is Some ==> change_in(item) is Some && (change_in(item)->0).0 == string_in(j)->0
        },
        change_in(item) is Some && member_in(item, "type"@) is None ==> (change_in(item)->0).1 == 2,
        change_in(item) is Some ==> forall|j: Seq<char>| member_in(item, "type"@) == Some(j) ==> (change_in(item)->0).1 == (
        match #[trigger] integer_in(j) {
            Some(n) => n,
            None => 2,
        }),
{
}

/// Changes are told in the order in which they are listed: of a list in two parts, those of the
/// first and then those of the second.
pub proof fn changes_keep_their_order(a: Seq<Seq<char>>, b: Seq<Seq<char>>)
    ensures
        changes_in(a + b) == changes_in(a) + changes_in(b),
        uris_in(a + b) == uris_in(a) + uris_in(b),
    decreases b.len(),
{
    if b.len() == 0 {
        assert(a + b =~= a);
    } else {
        changes_keep_their_order(a, b.drop_last());
        assert((a + b).drop_last() =~= a + b.drop_last());
        assert((a + b).last() == b.last());
        assert(changes_in(a + b) =~= changes_in(a) + changes_in(b));
        assert(uris_in(a + b) =~= uris_in(a) + uris_in(b));
    }
}

/// A change is told exactly where some item is about it, and a folder's URI exactly where some
/// item gives it.
pub proof fn every_item_is_told(items: Seq<Seq<char>>, c: (Seq<char>, i64), u: Seq<char>)
    ensures
        changes_in(items).contains(c) <==> exists|i: int| 0 <= i < items.len() && change_in(#[trigger] items[i]) == Some(c),
        uris_in(items).contains(u) <==> exists|i: int|
            0 <= i < items.len() && gives_uri(#[trigger] items[i], u),
    decreases items.len(),
{
    if items.len() > 0 {
        let rest = items.drop_last();
        let last = items.last();
        every_item_is_told(rest, c, u);
        assert(items[items.len() - 1] == last);
        assert forall|i: int| 0 <= i < rest.len() implies #[trigger] rest[i] == items[i] by {}
        let (x, y) = (changes_in(rest), changes_in(items));
        if x.contains(c) {
            let i = choose|i: int| 0 <= i < x.len() && x[i] == c;
            assert(y[i] == c);
            let j = choose|i: int| 0 <= i < rest.len() && change_in(#[trigger] rest[i]) == Some(c);
            assert(change_in(items[j]) == Some(c));
        }
        if change_in(last) == Some(c) {
            assert(y[y.len() - 1] == c);
        }
        if y.contains(c) {
            let i = choose|i: int| 0 <= i < y.len() && y[i] == c;
            if i < x.len() {
                assert(x[i] == c);
            }
        }
        if exists|i: int| 0 <= i < items.len() && change_in(#[trigger] items[i]) == Some(c) {
            let i = choose|i: int| 0 <= i < items.len() && change_in(#[trigger] items[i]) == Some(c);
            if i < rest.len() {
                assert(change_in(rest[i]) == Some(c));
            }
        }
        let (v, w) = (uris_in(rest), uris_in(items));
        if v.contains(u) {
            let i = choose|i: int| 0 <= i < v.len() && v[i] == u;
            assert(w[i] == u);
            let j = choose|i: int| 0 <= i < rest.len() && gives_uri(#[trigger] rest[i], u);
            assert(gives_uri(items[j], u));
        }
        if gives_uri(last, u) {
            assert(w[w.len() - 1] == u);
        }
        if w.contains(u) {
            let i = choose|i: int| 0 <= i < w.len() && w[i] == u;
            if i < v.len() {
                assert(v[i] == u);
            }
        }
        if exists|i: int| 0 <= i < items.len() && gives_uri(#[trigger] items[i], u) {
            let i = choose|i: int| 0 <= i < items.len() && gives_uri(#[trigger] items[i], u);
            if i < rest.len() {
                assert(gives_uri(rest[i], u));
            }
        }
    }
}

/// An item gives this URI.
pub open spec fn gives_uri(item: Seq<char>, u: Seq<char>) -> bool {
    match member_in(item, "uri"@) {
        Some(j) => string_in(j) == Some(u),
        None => false,
    }
}

/// A client that lists its folders starts with those, and one that does not starts with its root.
pub proof fn the_list_comes_before_the_root(params: Seq<char>, j: Seq<char>)
    ensures
        member_in(params, "workspaceFolders"@) == Some(j) && items_in(j) is Some ==> first_folders(params) == uris_in(
            items_in(j)->0,
        ),
        member_in(params, "workspaceFolders"@) is None && member_in(params, "rootUri"@) == Some(j) && string_in(j) is Some
            ==> first_folders(params) == seq![string_in(j)->0],
        member_in(params, "workspaceFolders"@) is None && member_in(params, "rootUri"@) is None ==> first_folders(params).len()
            == 0,
        items_in(j) is Some ==> folders_in(Some(j)) == uris_in(items_in(j)->0),
        items_in(j) is None ==> folders_in(Some(j)).len() == 0,
        folders_in(None).len() == 0,
{
}

/// All paths stay but one.
pub proof fn only_that_path_goes(paths: Seq<Seq<char>>, path: Seq<char>, q: Seq<char>)
    ensures
        other_paths(paths, path).contains(q) <==> paths.contains(q) && q != path,
    decreases paths.len(),
{
    reveal(Seq::filter);
    if paths.len() > 0 {
        let rest = paths.drop_last();
        only_that_path_goes(rest, path, q);
        let (x, y) = (other_paths(rest, path), other_paths(paths, path));
        if x.contains(q) {
            assert(y[x.index_of(q)] == q);
        }
        if rest.contains(q) {
            assert(paths[rest.index_of(q)] == q);
        }
        if paths.contains(q) && q != paths.last() {
            assert(rest[paths.index_of(q)] == q);
        }
        if q == paths.last() {
            assert(paths[paths.len() - 1] == q);
            if q != path {
                assert(y[y.len() - 1] == q);
            }
        }
        if y.contains(q) && y.index_of(q) < x.len() {
            assert(x[y.index_of(q)] == q);
        }
    }
}

/// A root stays exactly where it is not among those that are taken out.
pub proof fn only_removed_roots_go(paths: Seq<Seq<char>>, removed: Seq<Seq<char>>, n: int, p: Seq<char>)
    requires
        0 <= n <= removed.len(),
    ensures
        paths_without(paths, removed, n).contains(p) <==> paths.contains(p) && !removed.take(n).contains(p),
    decreases n,
{
    if n > 0 {
        only_removed_roots_go(paths, removed, n - 1, p);
        let rest = paths_without(paths, removed, n - 1);
        let gone = removed[n - 1];
        only_that_path_goes(rest, gone, p);
        assert(removed.take(n) =~= removed.take(n - 1).push(gone));
        assert(removed.take(n)[n - 1] == gone);
        if removed.take(n - 1).contains(p) {
            let i = removed.take(n - 1).index_of(p);
            assert(removed.take(n)[i] == p);
        }
        if removed.take(n).contains(p) && p != gone {
            let i = removed.take(n).index_of(p);
            assert(removed.take(n - 1)[i] == p);
        }
    }
}

/// What does not end the server lets it go on: what arrives next is taken up by the server as it is
/// by now, and what is done about it follows. What ends it is the last thing that is done.
pub proof fn what_does_not_end_goes_on(s: ServerView, i: Incoming, list: Seq<Incoming>)
    ensures
        ({
            let (t, done) = arrived(s, i);
            let (u, rest) = steps(t, list);
            let all = steps(s, seq![i] + list);
            &&& (forall|k: int| 0 <= k < done.len() ==> !(#[trigger] done[k] is Stop)) ==> all == (u, done + rest)
            &&& done.len() > 0 && done.last() is Stop ==> all == (t, done)
        }),
        steps(s, Seq::empty()) == (s, Seq::<StepView>::empty()),
{
    let all = seq![i] + list;
    assert(all.skip(1) =~= list);
    let (t, done) = arrived(s, i);
    if done.len() > 0 && done.last() is Stop {
        assert(done[done.len() - 1] is Stop);
    }
}

} // verus!
