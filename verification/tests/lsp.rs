use scarlet::lsp::requests::{changed, changed_folders, doc_uri, initial_folders, opened, watched, Roots};
use scarlet::lsp::{frame, header, new_server, route, Header, Headers, Incoming, Line, LspServer, Route, Step, METHOD_NOT_FOUND};

fn logged(s: &Step) -> &str {
    match s {
        Step::Log(text) => text,
        other => panic!("{other:?}"),
    }
}

fn ready() -> LspServer {
    let mut server = new_server();
    server.handle_message("{\"method\":\"initialized\"}");
    server
}

#[test]
fn headers_give_the_length() {
    assert_eq!(header("\r\n"), Header::End);
    assert_eq!(header("Content-Length: 42\r\n"), Header::Length(42));
    assert_eq!(header("Content-Length:42"), Header::Length(42));
    assert_eq!(header("Content-Length: x\r\n"), Header::BadLength);
    assert_eq!(header("Content-Length: \r\n"), Header::BadLength);
    assert_eq!(header("Content-Type: text\r\n"), Header::Other);
    let mut h = Headers::new();
    assert_eq!(h.line("Content-Length: 1\r\n"), Line::More);
    assert_eq!(h.line("Content-Type: text\r\n"), Line::More);
    assert_eq!(h.line("Content-Length: 7\r\n"), Line::More);
    assert_eq!(h.line("\r\n"), Line::Body(7));
    assert_eq!(h.line("\r\n"), Line::Body(0));
    assert_eq!(h.line("Content-Length: many\r\n"), Line::Bad);
}

#[test]
fn a_frame_counts_bytes_and_reads_back() {
    let content = "{\"é\":1}";
    let out = frame(content);
    assert_eq!(out, "Content-Length: 8\r\n\r\n{\"é\":1}");
    let mut h = Headers::new();
    let (head, rest) = out.split_once("\r\n").expect("a header");
    assert_eq!(h.line(head), Line::More);
    let (empty, body) = rest.split_once("\r\n").expect("an empty line");
    assert_eq!(h.line(empty), Line::Body(content.len()));
    assert_eq!(body, content);
}

#[test]
fn messages_go_to_their_handlers() {
    assert_eq!(route("initialize"), Route::Initialize);
    assert_eq!(route("textDocument/didOpen"), Route::DidOpen);
    assert_eq!(route("textDocument/hover"), Route::Hover);
    assert_eq!(route("$/cancelRequest"), Route::Ignored);
    assert_eq!(route(""), Route::Answer);
    let mut server = new_server();
    let steps = server.handle_message("{\"id\":3,\"method\":\"textDocument/hover\",\"params\":{\"a\":[1, 2]}}");
    assert_eq!(logged(&steps[0]), "Received: textDocument/hover");
    match &steps[1] {
        Step::Handle { route, id, params } => {
            assert_eq!(*route, Route::Hover);
            assert_eq!(id, "3");
            assert_eq!(params, "{\"a\":[1,2]}");
        },
        other => panic!("{other:?}"),
    }
}

#[test]
fn a_request_nobody_handles_is_refused() {
    let mut server = new_server();
    let steps = server.handle_message("{\"id\":\"x\",\"method\":\"no/such\"}");
    match &steps[1] {
        Step::Refuse { id, code, message } => {
            assert_eq!(id, "\"x\"");
            assert_eq!(*code, METHOD_NOT_FOUND);
            assert!(message.contains("no/such"), "{message}");
        },
        other => panic!("{other:?}"),
    }
    let steps = server.handle_message("{\"method\":\"no/such\"}");
    assert_eq!(steps.len(), 3);
    assert_eq!(logged(&steps[1]), "Unknown method: no/such");
    assert!(matches!(steps[2], Step::SyncWatch), "{steps:?}");
    let steps = server.handle_message("{\"id\":null,\"method\":\"no/such\"}");
    assert_eq!(logged(&steps[1]), "Unknown method: no/such");
}

#[test]
fn what_is_no_json_is_logged() {
    let mut server = new_server();
    let steps = server.handle_message("{");
    assert_eq!(steps.len(), 1);
    assert!(logged(&steps[0]).starts_with("Failed to parse JSON: "), "{steps:?}");
}

#[test]
fn the_server_runs_until_it_is_told_to_stop() {
    let mut server = new_server();
    let steps = server.run(&vec![
        Incoming::Message("{\"id\":1,\"method\":\"shutdown\"}".to_string()),
        Incoming::Message("{\"method\":\"exit\"}".to_string()),
        Incoming::Message("{\"id\":2,\"method\":\"textDocument/hover\"}".to_string()),
    ]);
    assert!(matches!(steps.last(), Some(Step::Stop)), "{steps:?}");
    assert!(!steps.iter().any(|s| matches!(s, Step::Handle { route: Route::Hover, .. })), "{steps:?}");
    let steps = server.run(&vec![Incoming::Eof, Incoming::Message("{\"method\":\"initialized\"}".to_string())]);
    assert!(!steps.iter().any(|s| matches!(s, Step::Handle { .. })), "{steps:?}");
}

#[test]
fn the_client_watches_the_files_that_are_embedded() {
    let files = || vec!["/a".to_string(), "/b".to_string()];
    let mut early = new_server();
    let w = early.sync_embed_watch(files());
    assert!(!w.unregister && !w.register);
    let mut server = ready();
    let w = server.sync_embed_watch(files());
    assert!(!w.unregister && w.register);
    let w = server.sync_embed_watch(files());
    assert!(!w.unregister && !w.register);
    let w = server.sync_embed_watch(vec!["/a".to_string()]);
    assert!(w.unregister && w.register);
    let w = server.sync_embed_watch(Vec::new());
    assert!(w.unregister && !w.register);
}

#[test]
fn the_client_says_whether_it_takes_relative_patterns() {
    let mut server = new_server();
    server.handle_message(
        "{\"id\":1,\"method\":\"initialize\",\"params\":{\"capabilities\":{\"workspace\":{\"didChangeWatchedFiles\":{\"relativePatternSupport\":true}}}}}",
    );
    assert!(server.relative_patterns);
}

#[test]
fn an_opened_document_is_its_uri_and_its_text() {
    let d = opened("{\"textDocument\":{\"uri\":\"file:///a\",\"text\":\"x = 1\\n\"}}").expect("a document");
    assert_eq!((d.uri.as_str(), d.text.as_str()), ("file:///a", "x = 1\n"));
    assert!(opened("{\"textDocument\":{\"uri\":\"file:///a\"}}").is_none());
    assert!(opened("null").is_none());
    assert_eq!(doc_uri("{\"textDocument\":{\"uri\":\"file:///a\"}}"), Some("file:///a".to_string()));
    assert_eq!(doc_uri("{\"textDocument\":{\"uri\":7}}"), None);
}

#[test]
fn the_last_change_is_what_a_document_is() {
    let d = changed(
        "{\"textDocument\":{\"uri\":\"u\"},\"contentChanges\":[{\"text\":\"one\"},{\"text\":\"two\"}]}",
    )
    .expect("a document");
    assert_eq!((d.uri.as_str(), d.text.as_str()), ("u", "two"));
    assert!(changed("{\"textDocument\":{\"uri\":\"u\"},\"contentChanges\":[]}").is_none());
    assert!(changed("{\"textDocument\":{\"uri\":\"u\"},\"contentChanges\":[{\"text\":\"one\"},{}]}").is_none());
    assert!(changed("{\"textDocument\":{\"uri\":\"u\"}}").is_none());
}

#[test]
fn files_that_changed_on_disk() {
    let params = "{\"changes\":[{\"uri\":\"a\",\"type\":3},{\"type\":1},{\"uri\":\"b\"},{\"uri\":\"c\",\"type\":\"x\"}]}";
    let list = watched(params, true).expect("changes");
    let got: Vec<(&str, i64)> = list.iter().map(|c| (c.uri.as_str(), c.kind)).collect();
    assert_eq!(got, vec![("a", 3), ("b", 2), ("c", 2)]);
    assert!(watched(params, false).is_none());
    assert!(watched("{\"changes\":1}", true).is_none());
    assert_eq!(watched("{\"changes\":[]}", true).expect("changes").len(), 0);
}

#[test]
fn the_folders_of_a_workspace() {
    assert_eq!(
        initial_folders("{\"rootUri\":\"r\",\"workspaceFolders\":[{\"uri\":\"a\"},{\"name\":\"x\"},{\"uri\":\"b\"}]}"),
        vec!["a", "b"]
    );
    assert_eq!(initial_folders("{\"rootUri\":\"r\",\"workspaceFolders\":null}"), vec!["r"]);
    assert_eq!(initial_folders("{\"rootUri\":\"r\",\"workspaceFolders\":[]}"), Vec::<String>::new());
    assert_eq!(initial_folders("{}"), Vec::<String>::new());
    let (removed, added) = changed_folders("{\"event\":{\"removed\":[{\"uri\":\"a\"}],\"added\":[{\"uri\":\"c\"}]}}");
    assert_eq!((removed, added), (vec!["a".to_string()], vec!["c".to_string()]));
    let paths = |list: &[&str]| list.iter().map(|p| p.to_string()).collect::<Vec<String>>();
    let mut roots = Roots::new();
    roots.start(paths(&["/a", "/b", "/a"]));
    assert_eq!(roots.change(&paths(&["/a"]), paths(&["/c"])), Vec::<String>::new());
    assert_eq!(roots.paths, vec!["/b", "/c"]);
    roots.scanned = true;
    assert_eq!(roots.change(&paths(&["/x"]), paths(&["/d"])), vec!["/d"]);
    assert_eq!(roots.paths, vec!["/b", "/c", "/d"]);
}

#[test]
fn messages_can_be_taken_one_by_one() {
    let message = |text: &str| Incoming::Message(text.to_string());
    let all = || {
        vec![
            message("{\"method\":\"initialized\"}"),
            message(""),
            message("{\"id\":7,\"method\":\"no/such\"}"),
            message("not json"),
            message("{\"method\":\"exit\"}"),
        ]
    };
    let together: Vec<String> = new_server().run(&all()).iter().map(|s| format!("{s:?}")).collect();
    let mut server = new_server();
    let mut apart = Vec::new();
    for one in all() {
        apart.extend(server.run(&vec![one]).iter().map(|s| format!("{s:?}")));
    }
    assert_eq!(apart, together);
    assert_eq!(together.iter().filter(|s| s.starts_with("Refuse")).count(), 1);
    assert_eq!(together.last().map(String::as_str), Some("Stop"));
}
