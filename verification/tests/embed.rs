use scarlet::embed::{is_too_long, read, resolve_path, EmbedAs, EmbedPathError, Embedded, Found, ReadError};

/// A hash of some bytes.
fn hash_of(bytes: &[u8]) -> u64 {
    bytes.iter().fold(0xcbf2_9ce4_8422_2325, |h, b| (h ^ *b as u64).wrapping_mul(0x0100_0000_01b3))
}

fn found(bytes: &[u8]) -> Found {
    Found::Bytes { bytes: bytes.to_vec(), hash: hash_of(bytes) }
}

#[test]
fn a_path_resolves_against_the_directory_as_text() {
    let base = Some("/proj/src");
    assert_eq!(resolve_path(base, "shaders/./world.metal", None), Ok("/proj/src/shaders/world.metal".to_string()));
    assert_eq!(resolve_path(base, "../assets/x.bin", None), Ok("/proj/assets/x.bin".to_string()));
    // Two spellings of one file are one path.
    assert_eq!(resolve_path(base, "a/../b.txt", None), resolve_path(base, "./b.txt", None));
    // `..` past the root stays at the root.
    assert_eq!(resolve_path(Some("/"), "../../x", None), Ok("/x".to_string()));
}

#[test]
fn a_path_that_names_no_file_relative_to_the_module_is_refused() {
    assert_eq!(resolve_path(Some("/p"), "/etc/passwd", None), Err(EmbedPathError::Absolute));
    assert_eq!(resolve_path(Some("/p"), "", None), Err(EmbedPathError::Empty));
    assert_eq!(resolve_path(None, "x.txt", None), Err(EmbedPathError::NoDirectory));
}

#[test]
fn a_relative_directory_is_under_the_one_that_is_here() {
    assert_eq!(resolve_path(Some("src"), "x.txt", Some("/proj")), Ok("/proj/src/x.txt".to_string()));
    assert_eq!(resolve_path(Some("src/.."), "../x.txt", Some("/a/b")), Ok("/a/x.txt".to_string()));
    assert_eq!(resolve_path(Some("src"), "x.txt", None), Err(EmbedPathError::Unresolvable));
}

#[test]
fn bytes_are_kept_as_they_are() {
    let text = "\u{feff}line one\r\nline two\r\n";
    let p = "/d/crlf.txt".to_string();
    match read(p.clone(), EmbedAs::String, 1024, found(text.as_bytes())).value {
        Ok(Embedded::String(s)) => assert_eq!(s, text),
        other => panic!("{other:?}"),
    }
    match read(p, EmbedAs::Binary, 1024, found(text.as_bytes())).value {
        Ok(Embedded::Binary(b)) => assert_eq!(b, text.as_bytes()),
        other => panic!("{other:?}"),
    }
}

#[test]
fn a_string_must_be_utf8_and_says_where_it_is_not() {
    let p = "/d/x.bin".to_string();
    let r = read(p.clone(), EmbedAs::String, 1024, found(b"abc\xffdef"));
    let err = r.value.expect_err("not UTF-8");
    assert_eq!(
        err.message(),
        "it is not UTF-8 (the first invalid byte is at offset 3); embed it as a `Binary` instead"
    );
    // The dependency is recorded all the same: the file was read.
    assert_eq!(r.file.hash, Some(hash_of(b"abc\xffdef")));
    assert!(matches!(read(p, EmbedAs::Binary, 1024, found(b"abc\xffdef")).value, Ok(Embedded::Binary(_))));
}

/// The limit is about 2 GB; the rule is the same at any size.
#[test]
fn a_file_past_the_limit_is_refused() {
    let p = "/d/big.bin".to_string();
    let r = read(p.clone(), EmbedAs::Binary, 8, found(&[0u8; 9]));
    assert_eq!(
        r.value.expect_err("too large").message(),
        "it is 9 bytes, and one `String` or `Binary` holds at most 8"
    );
    assert!(r.file.hash.is_none());
    assert!(read(p.clone(), EmbedAs::Binary, 9, found(&[0u8; 9])).value.is_ok());
    // One that is known to be too long is not read at all.
    assert!(is_too_long(9, 8));
    assert!(!is_too_long(8, 8));
    let r = read(p, EmbedAs::Binary, 8, Found::Long(9));
    assert!(matches!(r.value, Err(ReadError::TooLarge { len: 9, max: 8 })));
    assert!(r.file.hash.is_none());
}

#[test]
fn a_missing_file_is_a_recorded_dependency_with_no_hash() {
    let r = read("/d/nope.txt".to_string(), EmbedAs::String, 1024, Found::Io("no such file".to_string()));
    assert!(matches!(&r.value, Err(ReadError::Io(why)) if why == "no such file"));
    assert_eq!(r.file.path(), "/d/nope.txt");
    assert!(r.file.hash.is_none());
}

#[test]
fn the_offset_is_where_the_text_ends() {
    for (bytes, offset) in [(&b"\xff"[..], 0), (b"ab\xc3", 2), (b"\xc3\xa9\xc3(", 2), (b"\xed\xa0\x80", 0)] {
        match read("/x".to_string(), EmbedAs::String, 99, found(bytes)).value {
            Err(ReadError::NotUtf8 { offset: at }) => assert_eq!(at, offset, "{bytes:?}"),
            other => panic!("{other:?}"),
        }
    }
}

/// Going up takes back the last step down, and a slash too many is none.
#[test]
fn going_down_and_up_again_is_where_it_was() {
    for dir in ["/", "/a", "/a/b", "/a//b/./c"] {
        let plain = resolve_path(Some(dir), "x", None);
        assert_eq!(resolve_path(Some(dir), "d/../x", None), plain, "{dir}");
        assert_eq!(resolve_path(Some(dir), "d//e/../.././x", None), plain, "{dir}");
    }
}
