use trufflepig::digest;
use trufflepig::source::acquisition::{
    acquire_entry, acquire_historical, acquire_live, acquire_path, continue_at, parse_target,
    verify_blob, AcquiredSource, ByteSpan, HistoricalSource, Hit, ResultEntry, SourceSide, Target,
};
use trufflepig::source::lines::{show_text, Row, Shown};
use trufflepig::source::render::{render_owned, Page, MAX_ROWS};
use trufflepig::source::{
    check_read, check_readable, contained_parts, current_span, display_bytes, line_at, line_span,
    read_contained, Found, MAX_READ_BYTES,
};
use trufflepig::store::paths::encode_path;
use trufflepig::text::Failure;

#[test]
fn rejects_traversal_and_symlink_components() {
    // Opening a link without following it fails.
    let open = |names: Vec<Vec<u8>>| {
        if names[0] == b"outside" {
            Err(Failure::new("source_unavailable: path missing or unsafe"))
        } else {
            Ok(Found { is_file: true, length: 3 })
        }
    };
    let read = || Ok(b"abc".to_vec());
    assert!(read_contained(b"outside/passwd", 4096, open, read).is_err());
    assert!(read_contained(b"../x", 4096, open, read).is_err());
    assert_eq!(read_contained(b"inside/x", 4096, open, read).unwrap(), b"abc");
    assert!(read_contained(b"inside/x", 2, open, || panic!("not read")).is_err());
    let grown = || Ok(vec![0; 5]);
    let error = read_contained(b"inside/x", 4, open, grown).unwrap_err();
    assert_eq!(error.message, "source_excluded: file grew beyond read limit");
    let directory = |_: Vec<Vec<u8>>| Ok(Found { is_file: false, length: 0 });
    assert!(read_contained(b"inside", 4, directory, || panic!("not read")).is_err());
    assert!(contained_parts(b"../x").is_err());
    assert!(contained_parts(b"/etc/passwd").is_err());
    assert_eq!(contained_parts(b"a/b.rs").unwrap(), [b"a".to_vec(), b"b.rs".to_vec()]);
    assert!(check_readable(false, 1, 4096).is_err());
    assert!(check_readable(true, 4097, 4096).is_err());
    assert!(check_readable(true, 4096, 4096).is_ok());
    assert!(check_read(vec![0; 4097], 4096).is_err());
    assert_eq!(check_read(vec![7], MAX_READ_BYTES).unwrap(), [7]);
}

#[test]
fn original_bom_crlf_and_invalid_bytes() {
    let bytes = b"\xef\xbb\xbffirst\r\n\xffsecond\r\n";
    assert_eq!(current_span(bytes, 2, 2).unwrap(), (10, 19));
    assert_eq!(line_span(bytes, 10, 19), (2, 2));
    assert_eq!(display_bytes(&bytes[10..]).1, "byte-escaped");
}

#[test]
fn lines_that_are_not_there_are_refused() {
    assert!(current_span(b"one\n", 0, 1).is_err());
    assert!(current_span(b"one\ntwo\n", 2, 1).is_err());
    assert!(current_span(b"one\n", 9, 9).is_err());
    assert_eq!(line_at(b"one\ntwo\n", 4), 2);
    assert_eq!(display_bytes(b"ok").0, "ok");
    assert_eq!(display_bytes(b"\xff ok\n").0, "\\xff ok\\x0a");
}

fn row(line: u64, text: &str, encoding: &str) -> Row {
    Row { line, start: 0, end: 0, text: text.into(), encoding: encoding.into() }
}

fn shown(path: &str) -> Shown {
    Shown {
        path: path.into(),
        member: None,
        rows: Vec::new(),
        next: None,
        truncated: false,
        verified: Some(false),
        current_file: false,
        commit: None,
        definitions: None,
        also: Vec::new(),
    }
}

#[test]
fn show_text_prints_line_range_and_flags_byte_escaped_once() {
    let value = Shown {
        member: Some("lunatic".into()),
        verified: Some(true),
        truncated: true,
        next: Some("read:abc:1@14".into()),
        rows: vec![
            Row { start: 0, end: 6, ..row(1, "fn a()\n", "utf8") },
            Row { start: 6, end: 14, ..row(2, "\\xff ok\\x0a", "byte-escaped") },
        ],
        ..shown("src/a.rs")
    };
    assert_eq!(
        show_text(&value),
        "src/a.rs (lunatic) lines 1-2\n1\tfn a()\n2\t\\xff ok\nnext: read:abc:1@14\ntruncated: true\nverified: true\nencoding: byte-escaped\n"
    );
}

#[test]
fn show_text_omits_absent_footer_fields() {
    assert_eq!(show_text(&shown("b.txt")), "b.txt (empty)\nverified: false\n");
    let current =
        Shown { current_file: true, rows: vec![row(4, "x\n", "utf8")], ..shown("c.rs") };
    assert_eq!(show_text(&current), "c.rs lines 4-4\n4\tx\nverified: current file\n");
}

#[test]
fn show_text_lists_other_places() {
    let value = Shown { also: vec!["d.rs:1-2".into()], ..shown("c.rs") };
    assert!(show_text(&value).ends_with("also: d.rs:1-2\n"));
}

fn identity(bytes: &[u8]) -> HistoricalSource {
    HistoricalSource {
        repository: "/repo/.git".into(),
        commit: "c".repeat(40),
        blob: "b".repeat(40),
        revision: digest::blake3_hex(bytes),
        path: "lib.rs".into(),
        span: ByteSpan { start: 0, end: bytes.len() },
    }
}

#[test]
fn historical_content_revision_must_match_verified_blob() {
    let bytes = b"fn original() {}\n";
    let mut wrong = identity(bytes);
    wrong.revision = digest::blake3_hex(b"incorrect identity");
    let error = verify_blob("read:abc:1", SourceSide::After, wrong, bytes.to_vec()).unwrap_err();
    assert!(error.message.contains("historical content revision does not match"));
    let found =
        verify_blob("read:abc:1", SourceSide::After, identity(bytes), bytes.to_vec()).unwrap();
    assert!(found.verified);
    assert_eq!(found.bytes, bytes);
    assert_eq!(found.historical.unwrap().repository, "/repo/.git");
}

#[test]
fn historical_scope_and_regular_file_contract_are_checked() {
    let bytes = b"fn original() {}\n";
    let blob = || Ok(bytes.to_vec());
    let entry = |mode: &str| format!("{mode} blob {}\tlib.rs\0", "b".repeat(40)).into_bytes();
    let acquire = |common: &[u8], mode: &str| {
        let listed = entry(mode);
        acquire_historical("h", SourceSide::After, identity(bytes), common, |_| Ok(listed), blob)
    };
    let outside = HistoricalSource { path: "../lib.rs".into(), ..identity(bytes) };
    let tree = |_: Vec<u8>| -> Result<Vec<u8>, Failure> { panic!("no tree is asked") };
    let error =
        acquire_historical("h", SourceSide::After, outside, b"/repo/.git", tree, blob).unwrap_err();
    assert!(error.message.contains("scope_boundary"));
    // Below another root the path leads to nothing.
    let missing = |_: Vec<u8>| Ok(Vec::new());
    let subtree =
        acquire_historical("h", SourceSide::After, identity(bytes), b"/repo/.git", missing, blob);
    assert!(subtree.is_err());
    let error = acquire(b"/elsewhere/.git", "100644").unwrap_err();
    assert!(error.message.contains("scope_boundary"));
    assert!(acquire(b"/repo//.git/", "100644").is_ok());
    assert!(acquire(b"/repo/.git", "120000").is_err());
    let strange = |_: Vec<u8>| Ok(b"1006\xff4 blob x\tlib.rs\0".to_vec());
    let error =
        acquire_historical("h", SourceSide::After, identity(bytes), b"/repo/.git", strange, blob);
    assert_eq!(
        error.unwrap_err().message,
        "invalid utf-8 sequence of 1 bytes from index 4"
    );
    let found = acquire(b"/repo/.git", "100644").unwrap();
    assert_eq!(found.side, Some(SourceSide::After));
}

fn hit(path: &str, bytes: &[u8], start: usize, end: usize) -> Hit {
    Hit {
        path: path.into(),
        revision: Some(digest::blake3_hex(bytes)),
        start,
        end,
        start_line: 1,
        end_line: 1,
        name: "name".into(),
        kind: "function".into(),
        provenance: None,
    }
}

#[test]
fn live_sources_are_verified_against_their_revision() {
    let bytes = b"fn a() {}\nfn b() {}\n";
    let read = |_: Vec<u8>| Ok(bytes.to_vec());
    let found = acquire_live("h", hit("a.rs", bytes, 10, 20), None, read).unwrap();
    assert!(found.verified);
    assert_eq!((found.span.start, found.span.end), (10, 20));
    let stale = acquire_live("h", hit("a.rs", b"old", 0, 3), None, read);
    assert!(stale.is_err());
    let sided = acquire_live("h", hit("a.rs", bytes, 0, 3), Some(SourceSide::Before), read);
    assert!(sided.is_err());
    let gone = acquire_live("h", hit("a.rs", bytes, 0, 3), None, |_| Err(Failure::new("gone")));
    assert!(gone.is_err());
}

#[test]
fn entries_are_acquired_by_their_kind() {
    let bytes = b"fn a() {}\n";
    let read = |_: Vec<u8>| Ok(bytes.to_vec());
    let historical = |side: SourceSide, identity: HistoricalSource| {
        verify_blob("h", side, identity, bytes.to_vec())
    };
    let live = ResultEntry::LiveSource(hit("a.rs", bytes, 0, 5));
    assert!(acquire_entry("h", live, None, read, historical).is_ok());
    let change = || ResultEntry::Change { before: None, after: Some(identity(bytes)) };
    let after = acquire_entry("h", change(), Some(SourceSide::After), read, historical).unwrap();
    assert_eq!(after.side, Some(SourceSide::After));
    assert!(acquire_entry("h", change(), Some(SourceSide::Before), read, historical).is_err());
    assert!(acquire_entry("h", ResultEntry::Commit, None, read, historical).is_err());
}

#[test]
fn targets_are_told_apart() {
    assert_eq!(SourceSide::parse("before").unwrap(), SourceSide::Before);
    assert_eq!(SourceSide::After.as_str(), "after");
    assert!(SourceSide::parse("middle").is_err());
    match parse_target("src/a.rs:3-5", None, false).unwrap() {
        Target::Path { path, first, last } => {
            assert_eq!((path.as_str(), first, last), ("src/a.rs", 3, 5))
        }
        other => panic!("{other:?}"),
    }
    let handle = "00000000-0000-4000-8000-000000000000:1";
    assert!(matches!(parse_target(handle, None, false), Ok(Target::Handle { .. })));
    assert!(matches!(parse_target("short", None, true), Ok(Target::Handle { .. })));
    assert!(parse_target("src/a.rs", Some(SourceSide::After), false).is_err());
    let cursor = format!("read:{handle}@14");
    match parse_target(&cursor, None, false) {
        Ok(Target::Cursor { offset, .. }) => assert_eq!(offset, "14"),
        other => panic!("{other:?}"),
    }
    assert!(parse_target("read:no-offset", None, false).is_err());
    match parse_target("path:src/a.rs", None, false).unwrap() {
        Target::Path { path, first, last } => {
            assert_eq!((path.as_str(), first, last), ("src/a.rs", 1, usize::MAX))
        }
        other => panic!("{other:?}"),
    }
    assert!(parse_target("src/a.rs:x-5", None, false).is_err());
    assert!(ByteSpan::within(3, 2, 9).is_err());
    assert!(ByteSpan::within(2, 10, 9).is_err());
    assert_eq!(ByteSpan::within(2, 9, 9).unwrap().end, 9);
}

fn acquired(lines: usize) -> AcquiredSource {
    let bytes = "line\n".repeat(lines).into_bytes();
    acquire_path("a.rs".into(), 1, lines, bytes, |_| Ok("read:abc:1".into())).unwrap()
}

#[test]
fn pages_go_on_where_they_end() {
    let source = acquired(MAX_ROWS + 20);
    let page = render_owned(&source, Some(&Vec::new()), |_| true).unwrap();
    assert_eq!(page.rows.len(), MAX_ROWS);
    assert!(page.truncated);
    let next = page.next.unwrap();
    let offset = next.rsplit('@').next().unwrap().to_string();
    let rest = continue_at(source, &offset).unwrap();
    let page = render_owned(&rest, Some(&Vec::new()), |_| true).unwrap();
    assert_eq!(page.rows.len(), 20);
    assert_eq!(page.rows[0].line, MAX_ROWS as u64 + 1);
    assert!(!page.truncated && page.next.is_none());
    assert!(render_owned(&rest, None, |_| true).is_err());
    assert!(render_owned(&rest, Some(&vec!["path".into()]), |_| true).is_err());
}

#[test]
fn published_afterspan_bounds_show_and_immutable_continuation() {
    let text = format!(
        "fn original() {{\n{}{}{}\n}}\n",
        "    original();\n".repeat(10),
        "    changed();\n".repeat(200),
        "    original();\n".repeat(10)
    );
    let bytes = text.as_bytes();
    let line = "    changed();\n";
    let start = text.find(line).unwrap();
    let end = text.rfind(line).unwrap() + line.len();
    assert!(start > 0 && end < bytes.len());
    let handle = "00000000-0000-4000-8000-000000000000:1";
    let after = || {
        let hit = Hit { kind: "source_region".into(), ..hit("lib.rs", bytes, start, end) };
        acquire_live(handle, hit, None, |_| Ok(bytes.to_vec())).unwrap()
    };
    let fits = |page: &Page| page.rows.iter().map(|row| row.text.len() + 40).sum::<usize>() <= 600;
    let source = after();
    assert_eq!((source.span.start, source.span.end), (start, end));
    let first = render_owned(&source, Some(&Vec::new()), fits).unwrap();
    assert_eq!(first.rows[0].start, start as u64);
    assert!(first.rows.iter().all(|row| row.text == line));
    let cursor = first.next.unwrap();
    let offset = match parse_target(&cursor, None, false) {
        Ok(Target::Cursor { handle: named, offset, .. }) => {
            assert_eq!(named, handle);
            offset
        }
        other => panic!("{other:?}"),
    };
    let rest = continue_at(after(), &offset).unwrap();
    assert_eq!(rest.span.start as u64, first.rows.last().unwrap().end);
    assert_eq!(rest.span.end, end);
    let second = render_owned(&rest, Some(&Vec::new()), fits).unwrap();
    assert!(second.rows.iter().all(|row| row.text == line));
    assert!(continue_at(after(), &(end + 1).to_string()).is_err());
    assert!(render_owned(&rest, Some(&Vec::new()), |_| false).is_err());
}

const HANDLE: &str = "00000000-0000-4000-8000-000000000000:1";

fn within_600(page: &Page) -> bool {
    page.rows.iter().map(|row| row.text.len() + 40).sum::<usize>() <= 600
}

#[test]
fn historical_reads_and_continuations_verify_sha1_and_sha256() {
    let text = format!("fn original() {{\n{}\n}}\n", "    original();\n".repeat(220));
    for digits in [40, 64] {
        let past = HistoricalSource { blob: "b".repeat(digits), ..identity(text.as_bytes()) };
        let named = |identity: &HistoricalSource| HistoricalSource {
            repository: identity.repository.clone(),
            commit: identity.commit.clone(),
            blob: identity.blob.clone(),
            revision: identity.revision.clone(),
            path: identity.path.clone(),
            span: ByteSpan { start: identity.span.start, end: identity.span.end },
        };
        let acquire = |blob: Result<Vec<u8>, Failure>| {
            let tree = |path: Vec<u8>| {
                assert_eq!(path, b"lib.rs");
                Ok(format!("100644 blob {}\tlib.rs\0", past.blob).into_bytes())
            };
            acquire_historical(HANDLE, SourceSide::After, named(&past), b"/repo/.git", tree, || blob)
        };
        let found = acquire(Ok(text.clone().into_bytes())).unwrap();
        assert_eq!(found.historical.as_ref().unwrap().blob, past.blob);
        let first = render_owned(&found, Some(&Vec::new()), within_600).unwrap();
        let cursor = first.next.unwrap();
        assert!(cursor.contains(":after@"));
        let offset = match parse_target(&cursor, None, false).unwrap() {
            Target::Cursor { handle, side, offset } => {
                assert_eq!((handle.as_str(), side), (HANDLE, Some(SourceSide::After)));
                offset
            }
            other => panic!("{other:?}"),
        };
        let rest = continue_at(acquire(Ok(text.clone().into_bytes())).unwrap(), &offset).unwrap();
        assert_eq!(rest.historical.as_ref().unwrap().blob, past.blob);
        let next = render_owned(&rest, Some(&Vec::new()), within_600).unwrap();
        assert!(next.rows[0].text.contains("original"));
        let other_side = parse_target(&cursor, Some(SourceSide::Before), false).unwrap_err();
        assert!(other_side.message.contains("invalid_side"));
        let gone = acquire(Err(Failure::new("no such object"))).unwrap_err();
        assert!(gone.headline.contains("source_unavailable"));
    }
}

#[test]
fn historical_reads_decode_repository_and_non_utf8_file_paths() {
    let repository = b"/tmp/history repo % : @ \xfe /.git";
    let filename = b"literal [x] % : @ \xff.rs";
    let bytes = b"fn original_bytes() {}\n";
    let past = HistoricalSource {
        repository: encode_path(repository),
        path: encode_path(filename),
        ..identity(bytes)
    };
    assert!(past.repository.contains("%25"));
    assert!(past.repository.contains("%3A"));
    assert!(past.repository.contains("%40"));
    let (expected, path) = (past.repository.clone(), past.path.clone());
    let tree = |path: Vec<u8>| {
        assert_eq!(path, filename);
        Ok(format!("100644 blob {}\tx\0", "b".repeat(40)).into_bytes())
    };
    let found =
        acquire_historical(HANDLE, SourceSide::After, past, repository, tree, || Ok(bytes.to_vec()))
            .unwrap();
    assert_eq!(found.path, path);
    let page = render_owned(&found, Some(&Vec::new()), within_600).unwrap();
    assert_eq!(page.rows[0].text, "fn original_bytes() {}\n");
    assert_eq!(found.historical.unwrap().repository, expected);
}

#[test]
fn owned_read_survives_member_result_eviction_and_keeps_provenance() {
    let text = "// immutable source line\n".repeat(220);
    let bytes = text.as_bytes();
    let recorded = std::cell::RefCell::new(None);
    let save = |hit: &Hit| {
        let (revision, end) = (hit.revision.clone(), hit.end);
        *recorded.borrow_mut() = Some((revision, hit.start, end, hit.provenance.clone()));
        Ok("saved".to_string())
    };
    let lines = text.lines().count();
    acquire_path("lib.rs".into(), 1, lines, bytes.to_vec(), save).unwrap();
    let (revision, start, end, provenance) = recorded.take().unwrap();
    assert_eq!(provenance.as_deref(), Some("explicit_path_read"));
    let entry = || {
        let kind = "source_read".into();
        let (revision, provenance) = (revision.clone(), provenance.clone());
        let hit = Hit { kind, revision, provenance, ..hit("lib.rs", bytes, start, end) };
        ResultEntry::LiveSource(hit)
    };
    let past = |_: SourceSide, _: HistoricalSource| -> Result<AcquiredSource, Failure> {
        panic!("nothing is historical")
    };
    let found = acquire_entry(HANDLE, entry(), None, |_| Ok(bytes.to_vec()), past).unwrap();
    let keys = vec!["member".to_string(), "members".to_string()];
    let page = render_owned(&found, Some(&keys), within_600).unwrap();
    assert!(page.next.unwrap().starts_with(&format!("read:{HANDLE}@")));
    let oversized = render_owned(&found, Some(&keys), |_| false).unwrap_err();
    assert!(oversized.message.contains("budget_too_small"));
    let replaced = |_: Vec<u8>| Ok(b"// replacement\n".to_vec());
    let stale = acquire_entry(HANDLE, entry(), None, replaced, past).unwrap_err();
    assert!(stale.message.contains("stale_source"));
}

#[test]
fn owned_source_metadata_cannot_replace_verified_identity() {
    let bytes = b"fn original() {}\n".to_vec();
    let source = acquire_path("lib.rs".into(), 1, 1, bytes, |_| Ok("saved".into())).unwrap();
    let keys = vec!["path".to_string()];
    let error = render_owned(&source, Some(&keys), |_| panic!("not judged")).unwrap_err();
    assert!(error.message.contains("invalid_metadata"));
}
