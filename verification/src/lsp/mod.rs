//! The language server's transport: how messages are framed, which handler each goes to, and
//! which embedded files the client is asked to watch.
pub mod conversation;
pub mod json;
pub mod requests;

use vstd::prelude::*;
use vstd::string::StringExecFns;
use vstd::utf8::encode_utf8;

use crate::lsp::json::{
    as_string, fault, fault_in, flag, flag_in, member, member_in, member_of, next_member, string_of, text_of, texts,
};
use crate::text::{
    decimal, decimal_reads_back, has_at, number_in, parse_number, push_decimal, same, strip_prefix, trim, trimmed, trimmed_end,
    trimmed_start,
};

verus! {

/// What a line in front of a message says.
#[derive(Clone, Copy, Debug, PartialEq, Eq, Structural)]
pub enum Header {
    /// It is empty: the message follows.
    End,
    /// The message is so many bytes.
    Length(usize),
    /// It gives a length that is no number.
    BadLength,
    /// Something that is of no interest.
    Other,
}

/// What starts a line that gives a length.
pub open spec fn length_name() -> Seq<char> {
    "Content-Length:"@
}

/// What a line in front of a message says.
pub open spec fn header_of(line: Seq<char>) -> Header {
    let t = trimmed(line);
    if t.len() == 0 {
        Header::End
    } else if has_at(t, length_name(), 0) {
        match number_in(trimmed(t.skip(length_name().len() as int))) {
            Some(n) => Header::Length(n),
            None => Header::BadLength,
        }
    } else {
        Header::Other
    }
}

/// What a line in front of a message says.
pub fn header(line: &str) -> (h: Header)
    ensures
        h == header_of(line@),
{
    let t = trim(line);
    if same(t, "") {
        proof {
            reveal_strlit("");
        }
        return Header::End;
    }
    proof {
        reveal_strlit("");
        if t@.len() == 0 {
            assert(t@ =~= ""@);
        }
    }
    match strip_prefix(t, "Content-Length:") {
        Some(rest) => match parse_number(trim(rest)) {
            Some(n) => Header::Length(n),
            None => Header::BadLength,
        },
        None => Header::Other,
    }
}

/// What comes of a line.
#[derive(Clone, Copy, Debug, PartialEq, Eq, Structural)]
pub enum Line {
    /// Another line is to be read.
    More,
    /// A message of so many bytes is to be read.
    Body(usize),
    /// The message cannot be read.
    Bad,
}

/// The lines in front of a message, as far as they are read: the length that the last one
/// to give one gave.
#[derive(Clone, Copy, Debug, PartialEq, Eq, Structural)]
pub struct Headers {
    pub length: usize,
}

/// What comes of a line, and the length that is known after it.
pub open spec fn line_read(length: usize, line: Seq<char>) -> (usize, Line) {
    match header_of(line) {
        Header::End => (0, Line::Body(length)),
        Header::Length(n) => (n, Line::More),
        Header::BadLength => (0, Line::Bad),
        Header::Other => (length, Line::More),
    }
}

impl Headers {
    /// No line has been read.
    pub fn new() -> (h: Headers)
        ensures
            h.length == 0,
    {
        Headers { length: 0 }
    }

    /// Reads a line.
    pub fn line(&mut self, line: &str) -> (r: Line)
        ensures
            (final(self).length, r) == line_read(old(self).length, line@),
    {
        match header(line) {
            Header::End => {
                let n = self.length;
                self.length = 0;
                Line::Body(n)
            },
            Header::Length(n) => {
                self.length = n;
                Line::More
            },
            Header::BadLength => {
                self.length = 0;
                Line::Bad
            },
            Header::Other => Line::More,
        }
    }
}

/// A message behind its length.
pub open spec fn framed(content: Seq<char>) -> Seq<char> {
    "Content-Length: "@ + decimal(encode_utf8(content).len()) + "\r\n\r\n"@ + content
}

/// A message behind its length.
pub fn frame(content: &str) -> (out: String)
    ensures
        out@ == framed(content@),
{
    let mut out = String::new();
    out.append("Content-Length: ");
    push_decimal(&mut out, content.as_bytes().len() as u64);
    out.append("\r\n\r\n");
    out.append(content);
    assert(out@ =~= framed(content@));
    out
}

/// The parts of a message that say where it goes, each as JSON but for the method: a part
/// that it has not is `None`.
#[derive(Debug)]
pub struct Envelope {
    pub method: Option<String>,
    pub id: Option<String>,
    pub params: Option<String>,
    pub relative_patterns: Option<bool>,
}

/// The view of an [`Envelope`].
pub struct EnvelopeView {
    pub method: Option<Seq<char>>,
    pub id: Option<Seq<char>>,
    pub params: Option<Seq<char>>,
    pub relative_patterns: Option<bool>,
}

impl View for Envelope {
    type V = EnvelopeView;

    open spec fn view(&self) -> EnvelopeView {
        EnvelopeView {
            method: text_of(self.method),
            id: text_of(self.id),
            params: text_of(self.params),
            relative_patterns: self.relative_patterns,
        }
    }
}

/// Where a client says that it takes relative patterns.
pub open spec fn patterns_in(params: Option<Seq<char>>) -> Option<bool> {
    let watched = member_of(member_of(member_of(params, "capabilities"@), "workspace"@), "didChangeWatchedFiles"@);
    match member_of(watched, "relativePatternSupport"@) {
        Some(j) => flag_in(j),
        None => None,
    }
}

/// The parts of a message.
pub open spec fn envelope_in(content: Seq<char>) -> EnvelopeView {
    EnvelopeView {
        method: string_of(member_in(content, "method"@)),
        id: member_in(content, "id"@),
        params: member_in(content, "params"@),
        relative_patterns: patterns_in(member_in(content, "params"@)),
    }
}

/// The parts of a message, or why it is no JSON.
pub open spec fn parsed(content: Seq<char>) -> Result<EnvelopeView, Seq<char>> {
    match fault_in(content) {
        Some(why) => Err(why),
        None => Ok(envelope_in(content)),
    }
}

/// The parts of a message, or why it is no JSON.
pub fn parse(content: &str) -> (r: Result<Envelope, String>)
    ensures
        match r {
            Ok(e) => parsed(content@) == Ok::<EnvelopeView, Seq<char>>(e@),
            Err(why) => parsed(content@) == Err::<EnvelopeView, Seq<char>>(why@),
        },
{
    if let Some(why) = fault(content) {
        return Err(why);
    }
    let capabilities = next_member(member(content, "params"), "capabilities");
    let watched = next_member(next_member(capabilities, "workspace"), "didChangeWatchedFiles");
    let relative_patterns = match next_member(watched, "relativePatternSupport") {
        Some(j) => flag(j.as_str()),
        None => None,
    };
    Ok(
        Envelope {
            method: as_string(member(content, "method")),
            id: member(content, "id"),
            params: member(content, "params"),
            relative_patterns,
        },
    )
}

/// Where a message goes.
#[derive(Clone, Copy, Debug, PartialEq, Eq, Structural)]
pub enum Route {
    /// An answer to the server, which has no method.
    Answer,
    Initialize,
    Initialized,
    /// A notification that needs nothing done.
    Ignored,
    Shutdown,
    Exit,
    DidOpen,
    DidChange,
    DidClose,
    Hover,
    Completion,
    Definition,
    References,
    Rename,
    PrepareRename,
    DocumentSymbol,
    WorkspaceSymbol,
    DidChangeWorkspaceFolders,
    DidChangeWatchedFiles,
    Unknown,
}

/// Where a message with this method goes.
pub open spec fn route_of(m: Seq<char>) -> Route {
    if m == ""@ {
        Route::Answer
    } else if m == "initialize"@ {
        Route::Initialize
    } else if m == "initialized"@ {
        Route::Initialized
    } else if m == "$/setTrace"@ || m == "$/cancelRequest"@ {
        Route::Ignored
    } else if m == "shutdown"@ {
        Route::Shutdown
    } else if m == "exit"@ {
        Route::Exit
    } else if m == "textDocument/didOpen"@ {
        Route::DidOpen
    } else if m == "textDocument/didChange"@ {
        Route::DidChange
    } else if m == "textDocument/didClose"@ {
        Route::DidClose
    } else if m == "textDocument/hover"@ {
        Route::Hover
    } else if m == "textDocument/completion"@ {
        Route::Completion
    } else if m == "textDocument/definition"@ {
        Route::Definition
    } else if m == "textDocument/references"@ {
        Route::References
    } else if m == "textDocument/rename"@ {
        Route::Rename
    } else if m == "textDocument/prepareRename"@ {
        Route::PrepareRename
    } else if m == "textDocument/documentSymbol"@ {
        Route::DocumentSymbol
    } else if m == "workspace/symbol"@ {
        Route::WorkspaceSymbol
    } else if m == "workspace/didChangeWorkspaceFolders"@ {
        Route::DidChangeWorkspaceFolders
    } else if m == "workspace/didChangeWatchedFiles"@ {
        Route::DidChangeWatchedFiles
    } else {
        Route::Unknown
    }
}

/// No two methods that the server knows are the same.
proof fn methods_differ()
    ensures
        ""@.len() == 0,
        "initialize"@.len() == 10,
        "initialized"@.len() == 11,
        "shutdown"@.len() == 8,
        "exit"@.len() == 4,
        "textDocument/didOpen"@.len() == 20,
        "textDocument/didChange"@.len() == 22,
        "textDocument/didClose"@.len() == 21,
        "textDocument/hover"@.len() == 18,
        "textDocument/completion"@.len() == 23,
        "textDocument/definition"@.len() == 23,
        "textDocument/references"@.len() == 23,
        "textDocument/rename"@.len() == 19,
        "textDocument/prepareRename"@.len() == 26,
        "textDocument/documentSymbol"@.len() == 27,
        "workspace/symbol"@.len() == 16,
        "workspace/didChangeWorkspaceFolders"@.len() == 35,
        "workspace/didChangeWatchedFiles"@.len() == 31,
        "$/setTrace"@.len() == 10,
        "$/cancelRequest"@.len() == 15,
        "initialize"@ != "$/setTrace"@,
        "textDocument/completion"@ != "textDocument/definition"@,
        "textDocument/completion"@ != "textDocument/references"@,
        "textDocument/definition"@ != "textDocument/references"@,
{
    reveal_strlit("");
    reveal_strlit("initialize");
    reveal_strlit("initialized");
    reveal_strlit("shutdown");
    reveal_strlit("exit");
    reveal_strlit("textDocument/didOpen");
    reveal_strlit("textDocument/didChange");
    reveal_strlit("textDocument/didClose");
    reveal_strlit("textDocument/hover");
    reveal_strlit("textDocument/completion");
    reveal_strlit("textDocument/definition");
    reveal_strlit("textDocument/references");
    reveal_strlit("textDocument/rename");
    reveal_strlit("textDocument/prepareRename");
    reveal_strlit("textDocument/documentSymbol");
    reveal_strlit("workspace/symbol");
    reveal_strlit("workspace/didChangeWorkspaceFolders");
    reveal_strlit("workspace/didChangeWatchedFiles");
    reveal_strlit("$/setTrace");
    reveal_strlit("$/cancelRequest");
    assert("initialize"@[0] != "$/setTrace"@[0]);
    assert("textDocument/completion"@[13] != "textDocument/definition"@[13]);
    assert("textDocument/completion"@[13] != "textDocument/references"@[13]);
    assert("textDocument/definition"@[13] != "textDocument/references"@[13]);
}

/// Each handler gets the messages of one method, the one that it is for, and no others; two
/// notifications need nothing done, and what has any other method is unknown.
pub proof fn each_method_has_its_handler(m: Seq<char>)
    ensures
        route_of(m) is Answer <==> m == ""@,
        route_of(m) is Initialize <==> m == "initialize"@,
        route_of(m) is Initialized <==> m == "initialized"@,
        route_of(m) is Ignored <==> m == "$/setTrace"@ || m == "$/cancelRequest"@,
        route_of(m) is Shutdown <==> m == "shutdown"@,
        route_of(m) is Exit <==> m == "exit"@,
        route_of(m) is DidOpen <==> m == "textDocument/didOpen"@,
        route_of(m) is DidChange <==> m == "textDocument/didChange"@,
        route_of(m) is DidClose <==> m == "textDocument/didClose"@,
        route_of(m) is Hover <==> m == "textDocument/hover"@,
        route_of(m) is Completion <==> m == "textDocument/completion"@,
        route_of(m) is Definition <==> m == "textDocument/definition"@,
        route_of(m) is References <==> m == "textDocument/references"@,
        route_of(m) is Rename <==> m == "textDocument/rename"@,
        route_of(m) is PrepareRename <==> m == "textDocument/prepareRename"@,
        route_of(m) is DocumentSymbol <==> m == "textDocument/documentSymbol"@,
        route_of(m) is WorkspaceSymbol <==> m == "workspace/symbol"@,
        route_of(m) is DidChangeWorkspaceFolders <==> m == "workspace/didChangeWorkspaceFolders"@,
        route_of(m) is DidChangeWatchedFiles <==> m == "workspace/didChangeWatchedFiles"@,
{
    methods_differ();
}

/// Where a message with this method goes.
pub fn route(m: &str) -> (r: Route)
    ensures
        r == route_of(m@),
{
    if same(m, "") {
        Route::Answer
    } else if same(m, "initialize") {
        Route::Initialize
    } else if same(m, "initialized") {
        Route::Initialized
    } else if same(m, "$/setTrace") || same(m, "$/cancelRequest") {
        Route::Ignored
    } else if same(m, "shutdown") {
        Route::Shutdown
    } else if same(m, "exit") {
        Route::Exit
    } else if same(m, "textDocument/didOpen") {
        Route::DidOpen
    } else if same(m, "textDocument/didChange") {
        Route::DidChange
    } else if same(m, "textDocument/didClose") {
        Route::DidClose
    } else if same(m, "textDocument/hover") {
        Route::Hover
    } else if same(m, "textDocument/completion") {
        Route::Completion
    } else if same(m, "textDocument/definition") {
        Route::Definition
    } else if same(m, "textDocument/references") {
        Route::References
    } else if same(m, "textDocument/rename") {
        Route::Rename
    } else if same(m, "textDocument/prepareRename") {
        Route::PrepareRename
    } else if same(m, "textDocument/documentSymbol") {
        Route::DocumentSymbol
    } else if same(m, "workspace/symbol") {
        Route::WorkspaceSymbol
    } else if same(m, "workspace/didChangeWorkspaceFolders") {
        Route::DidChangeWorkspaceFolders
    } else if same(m, "workspace/didChangeWatchedFiles") {
        Route::DidChangeWatchedFiles
    } else {
        Route::Unknown
    }
}

/// The code of a method that the server has not.
pub const METHOD_NOT_FOUND: i32 = -32601;

/// What the server does about a message.
#[derive(Debug)]
pub enum Step {
    /// Says something in its log.
    Log(String),
    /// Hands the message to the handler that it goes to. `id` and `params` are JSON.
    Handle { route: Route, id: String, params: String },
    /// Answers a request with an error.
    Refuse { id: String, code: i32, message: String },
    /// Sees that the client watches the files that are embedded now. A message may have had a
    /// document looked at, and so have changed what it embeds.
    SyncWatch,
    /// Ends.
    Stop,
}

/// The view of a [`Step`].
pub enum StepView {
    Log(Seq<char>),
    Handle { route: Route, id: Seq<char>, params: Seq<char> },
    Refuse { id: Seq<char>, code: i32, message: Seq<char> },
    SyncWatch,
    Stop,
}

impl View for Step {
    type V = StepView;

    open spec fn view(&self) -> StepView {
        match *self {
            Step::Log(s) => StepView::Log(s@),
            Step::Handle { route, id, params } => StepView::Handle { route, id: id@, params: params@ },
            Step::Refuse { id, code, message } => StepView::Refuse { id: id@, code, message: message@ },
            Step::SyncWatch => StepView::SyncWatch,
            Step::Stop => StepView::Stop,
        }
    }
}

/// A part of a message, where one that it has not is null.
pub open spec fn or_null(s: Option<Seq<char>>) -> Seq<char> {
    match s {
        Some(s) => s,
        None => "null"@,
    }
}

/// The method of a message, where one that it has not is empty.
pub open spec fn method_in(e: EnvelopeView) -> Seq<char> {
    match e.method {
        Some(m) => m,
        None => ""@,
    }
}

/// What the server does about a message. A request that it does not know is answered, or the
/// client would wait for ever; a notification is not to be answered.
pub open spec fn step_for(e: EnvelopeView) -> StepView {
    let m = method_in(e);
    match route_of(m) {
        Route::Exit => StepView::Stop,
        Route::Unknown => if or_null(e.id) != "null"@ {
            StepView::Refuse { id: or_null(e.id), code: METHOD_NOT_FOUND, message: "method not found: "@ + m }
        } else {
            StepView::Log("Unknown method: "@ + m)
        },
        route => StepView::Handle { route, id: or_null(e.id), params: or_null(e.params) },
    }
}

/// All that the server does about a message.
pub open spec fn steps_for(e: EnvelopeView) -> Seq<StepView> {
    let step = step_for(e);
    let first = seq![StepView::Log("Received: "@ + method_in(e)), step];
    if step is Stop {
        first
    } else {
        first.push(StepView::SyncWatch)
    }
}

/// What arrives: a message, the end, or what could not be read, and why.
#[derive(Debug)]
pub enum Incoming {
    Eof,
    Message(String),
    Failed(String),
}

/// The language server: the embedded files that the client watches, once it has said that it
/// is ready, and whether it takes relative patterns.
#[derive(Debug)]
pub struct LspServer {
    pub embed_watch: Option<Vec<String>>,
    pub relative_patterns: bool,
}

/// The view of an [`LspServer`].
pub struct ServerView {
    pub embed_watch: Option<Seq<Seq<char>>>,
    pub relative_patterns: bool,
}

impl View for LspServer {
    type V = ServerView;

    open spec fn view(&self) -> ServerView {
        ServerView {
            embed_watch: match self.embed_watch {
                Some(v) => Some(texts(v@)),
                None => None,
            },
            relative_patterns: self.relative_patterns,
        }
    }
}

/// The server after a message: it learns what the client takes, and when it is ready.
pub open spec fn after(s: ServerView, e: EnvelopeView) -> ServerView {
    match route_of(method_in(e)) {
        Route::Initialize => ServerView {
            relative_patterns: match e.relative_patterns {
                Some(b) => b,
                None => false,
            },
            ..s
        },
        Route::Initialized => ServerView { embed_watch: Some(Seq::empty()), ..s },
        _ => s,
    }
}

/// The server after something arrived, and what it does about it.
pub open spec fn arrived(s: ServerView, i: Incoming) -> (ServerView, Seq<StepView>) {
    match i {
        Incoming::Eof => (s, seq![StepView::Stop]),
        Incoming::Failed(why) => (s, seq![StepView::Log("Failed to read message: "@ + why@)]),
        Incoming::Message(c) => if c@.len() == 0 {
            (s, Seq::empty())
        } else {
            match parsed(c@) {
                Err(why) => (s, seq![StepView::Log("Failed to parse JSON: "@ + why)]),
                Ok(e) => (after(s, e), steps_for(e)),
            }
        },
    }
}

/// What the server does about everything that arrives, up to what ends it.
pub open spec fn steps(s: ServerView, list: Seq<Incoming>) -> (ServerView, Seq<StepView>)
    decreases list.len(),
{
    if list.len() == 0 {
        (s, Seq::empty())
    } else {
        let (t, done) = arrived(s, list[0]);
        if done.len() > 0 && done.last() is Stop {
            (t, done)
        } else {
            let (u, rest) = steps(t, list.skip(1));
            (u, done + rest)
        }
    }
}

/// The views of some steps.
pub open spec fn views(v: Seq<Step>) -> Seq<StepView> {
    v.map_values(|s: Step| s@)
}

/// A log line of two parts.
fn log(what: &str, more: &str) -> (s: Step)
    ensures
        s@ == StepView::Log(what@ + more@),
{
    let mut t = String::new();
    t.append(what);
    t.append(more);
    assert(t@ =~= what@ + more@);
    Step::Log(t)
}

/// A part of a message, where one that it has not is null.
fn part(s: Option<String>) -> (r: String)
    ensures
        r@ == or_null(text_of(s)),
{
    match s {
        Some(s) => s,
        None => "null".to_owned(),
    }
}

/// A server that knows nothing yet.
pub fn new_server() -> (s: LspServer)
    ensures
        s@ == (ServerView { embed_watch: None, relative_patterns: false }),
{
    LspServer { embed_watch: None, relative_patterns: false }
}

impl LspServer {
    /// What the server does about a message that has been read.
    pub fn dispatch(&mut self, message: Envelope) -> (out: Vec<Step>)
        ensures
            final(self)@ == after(old(self)@, message@),
            views(out@) == steps_for(message@),
    {
        let method = match message.method {
            Some(m) => m,
            None => "".to_owned(),
        };
        let mut out: Vec<Step> = Vec::new();
        out.push(log("Received: ", method.as_str()));
        let to = route(method.as_str());
        match to {
            Route::Initialize => {
                self.relative_patterns = match message.relative_patterns {
                    Some(b) => b,
                    None => false,
                };
            },
            Route::Initialized => {
                self.embed_watch = Some(Vec::new());
                assert(self@.embed_watch->0 =~= Seq::<Seq<char>>::empty());
            },
            _ => {},
        }
        match to {
            Route::Exit => {
                out.push(Step::Stop);
            },
            Route::Unknown => {
                let id = part(message.id);
                if same(id.as_str(), "null") {
                    out.push(log("Unknown method: ", method.as_str()));
                } else {
                    let mut text = String::new();
                    text.append("method not found: ");
                    text.append(method.as_str());
                    assert(text@ =~= "method not found: "@ + method@);
                    out.push(Step::Refuse { id, code: METHOD_NOT_FOUND, message: text });
                }
            },
            route => {
                out.push(Step::Handle { route, id: part(message.id), params: part(message.params) });
            },
        }
        let n = out.len();
        if !matches!(out[n - 1], Step::Stop) {
            out.push(Step::SyncWatch);
        }
        assert(views(out@) =~= steps_for(message@));
        out
    }

    /// What the server does about a message.
    pub fn handle_message(&mut self, content: &str) -> (out: Vec<Step>)
        ensures
            match parsed(content@) {
                Err(why) => {
                    &&& final(self)@ == old(self)@
                    &&& views(out@) == seq![StepView::Log("Failed to parse JSON: "@ + why)]
                },
                Ok(e) => {
                    &&& final(self)@ == after(old(self)@, e)
                    &&& views(out@) == steps_for(e)
                },
            },
    {
        match parse(content) {
            Ok(e) => self.dispatch(e),
            Err(why) => {
                let out = vec![log("Failed to parse JSON: ", why.as_str())];
                assert(views(out@) =~= seq![StepView::Log("Failed to parse JSON: "@ + why@)]);
                out
            },
        }
    }

    /// What the server does about everything that arrives, up to what ends it.
    pub fn run(&mut self, incoming: &Vec<Incoming>) -> (out: Vec<Step>)
        ensures
            (final(self)@, views(out@)) == steps(old(self)@, incoming@),
    {
        let mut out: Vec<Step> = Vec::new();
        let mut k: usize = 0;
        let ghost whole = steps(self@, incoming@);
        assert(incoming@.skip(0) =~= incoming@);
        assert(views(out@) + steps(self@, incoming@).1 =~= whole.1);
        while k < incoming.len()
            invariant
                k <= incoming@.len(),
                whole == steps(old(self)@, incoming@),
                steps(self@, incoming@.skip(k as int)).0 == whole.0,
                views(out@) + steps(self@, incoming@.skip(k as int)).1 == whole.1,
            decreases incoming@.len() - k,
        {
            let ghost rest = incoming@.skip(k as int);
            let ghost before = views(out@);
            let ghost here = self@;
            assert(rest[0] == incoming@[k as int]);
            assert(rest.skip(1) =~= incoming@.skip(k + 1));
            let mut did: Vec<Step> = match &incoming[k] {
                Incoming::Eof => vec![Step::Stop],
                Incoming::Failed(why) => vec![log("Failed to read message: ", why.as_str())],
                Incoming::Message(c) => if same(c.as_str(), "") {
                    Vec::new()
                } else {
                    self.handle_message(c.as_str())
                },
            };
            proof {
                reveal_strlit("");
                if let Incoming::Message(c) = incoming@[k as int] {
                    if c@.len() == 0 {
                        assert(c@ =~= ""@);
                    }
                }
                assert(views(did@) =~= arrived(here, incoming@[k as int]).1);
                assert(self@ == arrived(here, incoming@[k as int]).0);
            }
            let n = did.len();
            let stop = n > 0 && matches!(did[n - 1], Step::Stop);
            let ghost done = views(did@);
            proof {
                if n > 0 {
                    assert(done.last() == did@[n - 1]@);
                }
            }
            out.append(&mut did);
            assert(views(out@) =~= before + done);
            if stop {
                assert(views(out@) =~= whole.1);
                return out;
            }
            k += 1;
            assert(views(out@) + steps(self@, incoming@.skip(k as int)).1 =~= whole.1);
        }
        assert(views(out@) =~= whole.1);
        out
    }
}

/// Whether the client is to stop watching the embedded files that it watches, and whether it
/// is to watch others.
#[derive(Clone, Copy, Debug, PartialEq, Eq, Structural)]
pub struct Watch {
    pub unregister: bool,
    pub register: bool,
}

/// What the client is asked: nothing before it is ready or when the files are the same, and
/// else to watch the new set in place of the old.
pub open spec fn watch_for(registered: Option<Seq<Seq<char>>>, now: Seq<Seq<char>>) -> Watch {
    match registered {
        None => Watch { unregister: false, register: false },
        Some(was) => if was == now {
            Watch { unregister: false, register: false }
        } else {
            Watch { unregister: was.len() > 0, register: now.len() > 0 }
        },
    }
}

/// Whether two lists have the same texts.
fn same_texts(a: &Vec<String>, b: &Vec<String>) -> (yes: bool)
    ensures
        yes == (texts(a@) == texts(b@)),
{
    if a.len() != b.len() {
        assert(texts(a@).len() != texts(b@).len());
        return false;
    }
    let mut k: usize = 0;
    while k < a.len()
        invariant
            k <= a@.len(),
            a@.len() == b@.len(),
            forall|i: int| 0 <= i < k ==> texts(a@)[i] == texts(b@)[i],
        decreases a@.len() - k,
    {
        if !same(a[k].as_str(), b[k].as_str()) {
            assert(texts(a@)[k as int] != texts(b@)[k as int]);
            return false;
        }
        k += 1;
    }
    assert(texts(a@) =~= texts(b@));
    true
}

impl LspServer {
    /// Keeps the client watching exactly the files that are embedded now, given in order:
    /// the watch is replaced whole when the set changes, and nothing is asked when it has
    /// not.
    pub fn sync_embed_watch(&mut self, now: Vec<String>) -> (w: Watch)
        ensures
            w == watch_for(old(self)@.embed_watch, texts(now@)),
            final(self)@.relative_patterns == old(self)@.relative_patterns,
            final(self)@.embed_watch == (match old(self)@.embed_watch {
                Some(_) => Some(texts(now@)),
                None => None,
            }),
    {
        let w = match &self.embed_watch {
            None => {
                return Watch { unregister: false, register: false };
            },
            Some(was) => {
                if same_texts(was, &now) {
                    return Watch { unregister: false, register: false };
                }
                Watch { unregister: was.len() > 0, register: now.len() > 0 }
            },
        };
        self.embed_watch = Some(now);
        w
    }
}

/// What is written in front of a message is read back as its length, and the empty line
/// after it as the end of what is in front.
pub proof fn a_frame_reads_back(n: usize)
    ensures
        header_of("Content-Length: "@ + decimal(n as nat) + "\r\n"@) == Header::Length(n),
        header_of("\r\n"@) == Header::End,
{
    reveal_strlit("Content-Length: ");
    reveal_strlit("Content-Length:");
    reveal_strlit("\r\n");
    let d = decimal(n as nat);
    decimal_reads_back(n as nat);
    let head = "Content-Length: "@;
    let line = head + d + "\r\n"@;
    assert(line[0] == 'C');
    assert(trimmed_start(line) == line);
    let l1 = line.drop_last();
    let l2 = l1.drop_last();
    assert(line.last() == '\n' && l1.last() == '\r');
    assert(l2 =~= head + d);
    assert(l2.last() == d.last());
    assert('0' <= d.last() <= '9');
    assert(trimmed_end(l2) == l2);
    assert(trimmed_end(l1) == l2);
    assert(trimmed_end(line) == l2);
    assert(trimmed(line) == head + d);
    let t = head + d;
    assert(t.subrange(0, 15) =~= length_name());
    assert(has_at(t, length_name(), 0));
    let rest = t.skip(15);
    assert(rest[0] == ' ');
    assert(rest.skip(1) =~= d);
    assert('0' <= d[0] <= '9');
    assert(trimmed_start(d) == d);
    assert(trimmed_start(rest) == d);
    assert(trimmed_end(d) == d);
    let e = "\r\n"@;
    assert(e.skip(1).skip(1) =~= Seq::<char>::empty());
    assert(e.skip(1)[0] == '\n');
    assert(trimmed_start(e.skip(1).skip(1)) == e.skip(1).skip(1));
    assert(trimmed_start(e.skip(1)) == e.skip(1).skip(1));
    assert(trimmed_start(e) == e.skip(1).skip(1));
}

/// A step that answers with an error.
pub open spec fn refuses(s: StepView) -> bool {
    s is Refuse
}

/// A request of a method that the server has not is answered, once, with its own id and the
/// code for that, and nothing else is answered with an error: not a notification, and not a
/// message that goes to a handler.
pub proof fn only_unknown_requests_are_refused(e: EnvelopeView)
    ensures
        ({
            let unknown = route_of(method_in(e)) is Unknown && or_null(e.id) != "null"@;
            let refusals = steps_for(e).filter(|s: StepView| refuses(s));
            &&& refusals == (if unknown {
                seq![
                    StepView::Refuse {
                        id: or_null(e.id),
                        code: METHOD_NOT_FOUND,
                        message: "method not found: "@ + method_in(e),
                    },
                ]
            } else {
                Seq::empty()
            })
        }),
{
    reveal(Seq::filter);
    reveal_with_fuel(Seq::filter, 4);
    let all = steps_for(e);
    let pred = |s: StepView| refuses(s);
    let log = StepView::Log("Received: "@ + method_in(e));
    let two = seq![log, step_for(e)];
    assert(two.drop_last() =~= seq![log]);
    assert(seq![log].drop_last() =~= Seq::<StepView>::empty());
    assert(Seq::<StepView>::empty().filter(pred) =~= Seq::empty());
    assert(seq![log].filter(pred) =~= Seq::empty());
    if step_for(e) is Stop {
        assert(all =~= two);
    } else {
        assert(all.drop_last() =~= two);
    }
    if route_of(method_in(e)) is Unknown && or_null(e.id) != "null"@ {
        assert(two.filter(pred) =~= seq![step_for(e)]);
        assert(all.filter(pred) =~= seq![step_for(e)]);
    } else {
        assert(two.filter(pred) =~= Seq::empty());
        assert(all.filter(pred) =~= Seq::empty());
    }
}

/// Nothing is watched before the client is ready, and from then on the client watches what is
/// embedded: it is asked nothing exactly where that is what it watches.
pub proof fn the_watch_follows_what_is_embedded(was: Option<Seq<Seq<char>>>, now: Seq<Seq<char>>)
    ensures
        was is None ==> watch_for(was, now) == (Watch { unregister: false, register: false }),
        was is Some ==> (watch_for(was, now) == (Watch { unregister: false, register: false }) <==> was->0 == now),
{
    if was is Some && was->0.len() == 0 && now.len() == 0 {
        assert(was->0 =~= now);
    }
}

/// What arrives can be taken in parts: where nothing in the first part ends the server, it does
/// about both what it does about the one and after that about the other.
pub proof fn what_arrives_is_taken_in_turn(s: ServerView, first: Seq<Incoming>, more: Seq<Incoming>)
    requires
        steps(s, first).1.len() == 0 || !(steps(s, first).1.last() is Stop),
    ensures
        ({
            let (t, done) = steps(s, first);
            let (u, rest) = steps(t, more);
            steps(s, first + more) == (u, done + rest)
        }),
    decreases first.len(),
{
    let all = first + more;
    if first.len() == 0 {
        assert(all =~= more);
        assert(steps(s, first).1 + steps(s, more).1 =~= steps(s, more).1);
    } else {
        let (t, done) = arrived(s, first[0]);
        assert(all[0] == first[0]);
        assert(all.skip(1) =~= first.skip(1) + more);
        if done.len() > 0 && done.last() is Stop {
        } else {
            let (u, rest) = steps(t, first.skip(1));
            if rest.len() > 0 {
                assert((done + rest).last() == rest.last());
            }
            what_arrives_is_taken_in_turn(t, first.skip(1), more);
            let (v, last) = steps(u, more);
            assert(done + (rest + last) =~= (done + rest) + last);
        }
    }
}

} // verus!
