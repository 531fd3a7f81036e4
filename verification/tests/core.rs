use agent_sessions::binary64::{cast_to_integer, parts};
use agent_sessions::bytes::{byte_len_of, percent_decode, truncate_on_char_boundary};
use agent_sessions::decimal::parse_integer;
use agent_sessions::files::{keep_extension, keep_named, FileEntry, FileKind, FileTable};
use agent_sessions::json::{parse_json, Json};
use agent_sessions::lines::{byte_lines_of, headline_of, lines_of, readable_lines};
use agent_sessions::model::{
    caption_of, flatten_content, make_message, reindex_messages, tool_label_of, user_caption_of, Message,
};
use agent_sessions::order::{keep_firsts, order_texts, sort};
use agent_sessions::path::{split_text, SourcePath};
use agent_sessions::pending::{order_messages, title_of, PendingMessage};
use agent_sessions::query::{assign, set_field, text_json, unset};
use agent_sessions::records::split_outside;
use agent_sessions::scan::{
    expand_leading_tilde, note_path, settle_paths, settle_roots, DiscoveredSource, ScanRoot, SourceRole, Surroundings,
};
use agent_sessions::stamp::{
    fractional_millis_of, parse_fractional_timestamp, parse_timestamp, rfc3339_millis_of, stored_text_millis_of,
};
use agent_sessions::text::{
    contains_text, is_blank, join_texts, split_once, strip_prefix, strip_suffix, take_chars, trimmed,
};

fn json(text: &str) -> Json {
    parse_json(text).unwrap()
}

fn path(text: &str) -> SourcePath {
    SourcePath::new(text)
}

fn texts(paths: &[SourcePath]) -> Vec<String> {
    paths.iter().map(|p| p.text()).collect()
}

#[test]
fn white_space_is_that_of_unicode() {
    for text in ["", " \t\r\n", "\u{85}\u{a0}\u{1680}\u{2003}\u{2028}\u{3000}"] {
        assert!(is_blank(text));
        assert_eq!(trimmed(text), text.trim());
    }
    for text in ["\u{200b}", "a", " \u{feff} ", "\u{3000}雪\u{3000}"] {
        assert!(!is_blank(text));
        assert_eq!(trimmed(text), text.trim());
    }
    for n in 0..0x11_0000_u32 {
        if let Some(c) = char::from_u32(n) {
            if n < 0x4000 {
                assert_eq!(agent_sessions::text::white(c), c.is_whitespace());
            }
        }
    }
}

#[test]
fn texts_are_searched_and_taken_apart() {
    assert!(contains_text("abcabd", "abd"));
    assert!(!contains_text("abcab", "abd"));
    assert!(contains_text("", ""));
    assert_eq!(strip_prefix("雪a", "雪").as_deref(), Some("a"));
    assert_eq!(strip_prefix("a", "ab"), None);
    assert_eq!(strip_suffix("a.blob", ".blob").as_deref(), Some("a"));
    assert_eq!(strip_suffix("blob", ".blob"), None);
    assert_eq!(split_once("a--b--c", "--"), Some(("a".to_string(), "b--c".to_string())));
    assert_eq!(split_once("abc", "-"), None);
    assert_eq!(take_chars("雪月花", 2), "雪月");
    assert_eq!(take_chars("雪", 9), "雪");
    assert_eq!(join_texts(&vec!["a".to_string(), String::new(), "b".to_string()], ", "), "a, , b");
    assert_eq!(split_text("a//b", '/'), vec!["a", "", "b"]);
}

#[test]
fn lines_are_those_of_the_standard_library() {
    for text in ["", "\n", "a", "a\n", "a\r\nb", "a\rb\n", "\r\n\r\n", "a\n\nb\r", "雪\r\n月"] {
        let wanted: Vec<&str> = text.lines().collect();
        assert_eq!(lines_of(text), wanted, "{text:?}");
    }
    assert_eq!(headline_of("first\nsecond", 3).as_deref(), Some("fir"));
    assert_eq!(headline_of("", 3), None);
    let bytes = b"one\r\n\xff\ntwo".to_vec();
    let lines = byte_lines_of(&bytes);
    assert_eq!(lines, vec![Some("one".to_string()), None, Some("two".to_string())]);
    assert_eq!(readable_lines(&lines), vec!["one".to_string()]);
}

#[test]
fn bytes_are_counted_and_cut_between_characters() {
    assert_eq!(byte_len_of("a雪é😀"), 10);
    let (cut, short) = truncate_on_char_boundary("a雪é", 5);
    assert_eq!((cut.as_str(), short), ("a雪", true));
    let (whole, short) = truncate_on_char_boundary("a雪é", 6);
    assert_eq!((whole.as_str(), short), ("a雪é", false));
    assert_eq!(percent_decode("").as_deref(), Some(""));
}

#[test]
fn integers_are_read_as_the_standard_library_reads_them() {
    for text in [
        "0", "-0", "+7", "-7", "9223372036854775807", "9223372036854775808", "-9223372036854775808",
        "-9223372036854775809", "", "+", "-", "1 ", "0x1", "1_0", "007", "٣",
    ] {
        assert_eq!(parse_integer(text), text.parse::<i64>().ok(), "{text}");
    }
}

#[test]
fn numbers_are_cast_as_the_machine_casts_them() {
    for val in [
        0.0_f64, -0.0, 0.5, -0.5, 1.999, -1.999, 1.0e15, 9.1e18, 9.3e18, -9.3e18, 1.0e308, 5.0e-324, f64::NAN,
        f64::INFINITY, f64::NEG_INFINITY,
    ] {
        assert_eq!(cast_to_integer(val.to_bits()), val as i64, "{val}");
        assert_eq!(parts(val.to_bits()).is_some(), val.is_finite());
    }
}

#[test]
fn documents_are_read_and_written() {
    let v = json(r#" {"b":[1,-2,2.5,null,true],"a":"x\ny"} "#);
    assert_eq!(v.render(), r#"{"a":"x\ny","b":[1,-2,2.5,null,true]}"#);
    assert_eq!(v.copy().render(), v.render());
    assert!(parse_json("{").is_none());
    assert!(parse_json("").is_none());
    assert!(parse_json("1 2").is_none());
    assert_eq!(json("18446744073709551615").as_u64(), Some(u64::MAX));
    assert_eq!(json("18446744073709551615").as_i64(), None);
    assert_eq!(json("-5").as_i64(), Some(-5));
    assert_eq!(json("5.0").as_i64(), None);
    assert_eq!(json(r#"{"k":1,"k":2}"#).get("k").unwrap().as_i64(), Some(2));
}

#[test]
fn members_are_set_and_taken_out() {
    let mut members = Vec::new();
    assign(&mut members, "b", text_json("1"));
    assign(&mut members, "a", text_json("2"));
    assign(&mut members, "b", text_json("3"));
    let v = Json::Object(members);
    assert_eq!(v.render(), r#"{"a":"2","b":"3"}"#);
    assert_eq!(set_field(v, "c", json("[]")).render(), r#"{"a":"2","b":"3","c":[]}"#);
    assert_eq!(set_field(json("7"), "c", json("[]")).render(), "7");
    let mut members = vec![("x".to_string(), json("1")), ("y".to_string(), json("2"))];
    unset(&mut members, "x");
    assert_eq!(Json::Object(members).render(), r#"{"y":2}"#);
}

#[test]
fn instants_are_read_from_numbers_and_texts() {
    assert_eq!(parse_timestamp(&json("1700000000")), Some(1_700_000_000_000));
    assert_eq!(parse_timestamp(&json("1700000000000")), Some(1_700_000_000_000));
    assert_eq!(parse_timestamp(&json("\"2023-11-14T22:13:20Z\"")), Some(1_700_000_000_000));
    assert_eq!(parse_timestamp(&json("\"yesterday\"")), None);
    assert_eq!(parse_timestamp(&json("null")), None);
    assert_eq!(rfc3339_millis_of("2023-11-14T23:13:20.5+01:00"), Some(1_700_000_000_500));
    assert_eq!(rfc3339_millis_of("2023-11-14 22:13"), None);
    assert_eq!(stored_text_millis_of("2023-11-14 22:13:20"), Some(1_700_000_000_000));
    assert_eq!(stored_text_millis_of(" 1700000000 "), Some(1_700_000_000_000));
    assert_eq!(parse_fractional_timestamp(&json("1772857971.158")), Some(1_772_857_971_158));
    assert_eq!(fractional_millis_of(1_700_000_000.25_f64.to_bits()), Some(1_700_000_000_250));
    assert_eq!(fractional_millis_of(f64::NAN.to_bits()), None);
}

#[test]
fn paths_are_those_of_the_standard_library() {
    let cases = ["/a/b.tar.gz", "a/./b//c/", "/", "", ".", "./a", "../x", "/a/../b", ".hidden", "dir/.env", "a.", "雪.json"];
    for text in cases {
        let own = path(text);
        let std = std::path::Path::new(text);
        assert_eq!(std::path::Path::new(&own.text()), std, "{text}");
        assert_eq!(own.file_name(), std.file_name().map(|n| n.to_str().unwrap()), "{text}");
        assert_eq!(
            own.parent().map(|p| std::path::PathBuf::from(p.text())),
            std.parent().map(|p| p.to_path_buf()),
            "{text}"
        );
        assert_eq!(own.extension().as_deref(), std.extension().map(|n| n.to_str().unwrap()), "{text}");
        assert_eq!(own.file_stem().as_deref(), std.file_stem().map(|n| n.to_str().unwrap()), "{text}");
        for other in cases {
            let joined = own.join(other).text();
            assert_eq!(std::path::Path::new(&joined), std.join(other), "{text} and {other}");
            let named = sort(vec![path(text), path(other)]);
            let mut wanted = vec![std::path::PathBuf::from(text), std::path::PathBuf::from(other)];
            wanted.sort();
            assert_eq!(std::path::PathBuf::from(named[0].text()), wanted[0], "{text} and {other}");
        }
    }
    let below = path("/a/b/c.txt").relative_to(&path("/a")).unwrap();
    assert_eq!(below.text(), "b/c.txt");
    assert!(path("/a/b").relative_to(&path("/x")).is_none());
    assert_eq!(path("/a/b.json").with_file_name("c").text(), "/a/c");
    assert_eq!(path("/a/b.json").without_extension().text(), "/a/b");
}

#[test]
fn lists_are_sorted_and_kept_once() {
    assert_eq!(texts(&sort(vec![path("/b"), path("/a/z"), path("/a")])), ["/a", "/a/z", "/b"]);
    assert_eq!(texts(&settle_paths(vec![path("/b"), path("/a"), path("/b/")])), ["/a", "/b"]);
    assert_eq!(texts(&keep_firsts(vec![path("/b"), path("/a"), path("/b")])), ["/b", "/a"]);
    let roots = settle_roots(vec![ScanRoot::local(path("/b")), ScanRoot::local(path("/a")), ScanRoot::local(path("/b"))]);
    assert_eq!(roots.iter().map(|r| r.path.text()).collect::<Vec<_>>(), ["/a", "/b"]);
    assert_eq!((order_texts("a", "b"), order_texts("b", "a"), order_texts("a", "a")), (-1, 1, 0));
    assert_eq!(order_texts("a", "ab"), -1);
    let mut seen = Vec::new();
    assert!(note_path(&mut seen, path("/a")));
    assert!(!note_path(&mut seen, path("/a/")));
    let found = |p: &str| {
        DiscoveredSource::new("x", &ScanRoot::local(path("/")), path(p), SourceRole::PrimarySessionLog, true)
    };
    let sources = sort(vec![found("/b"), found("/a")]);
    assert_eq!(sources[0].source_path.text(), "/a");
}

fn entry(p: &str, kind: FileKind, content: Option<&str>) -> FileEntry {
    FileEntry {
        path: path(p),
        kind,
        canonical: path(p),
        fresh: true,
        content: content.map(|c| c.as_bytes().to_vec()),
    }
}

#[test]
fn files_are_walked_and_listed() {
    let files = FileTable {
        entries: vec![
            entry("/r", FileKind::Directory, None),
            entry("/r/a.json", FileKind::File, Some("1")),
            entry("/r/d", FileKind::Directory, None),
            entry("/r/d/b.jsonl", FileKind::File, Some("2")),
            entry("/r/d/l.json", FileKind::LinkedFile, Some("3")),
            entry("/other/c.json", FileKind::File, None),
        ],
    };
    assert_eq!(texts(&files.walk(&path("/r"), 0, None)), ["/r/a.json", "/r/d/b.jsonl"]);
    assert_eq!(texts(&files.walk(&path("/r"), 2, None)), ["/r/d/b.jsonl"]);
    assert_eq!(texts(&files.walk(&path("/r"), 0, Some(1))), ["/r/a.json"]);
    assert_eq!(texts(&files.list(&path("/r/d"))), ["/r/d/b.jsonl", "/r/d/l.json"]);
    assert!(files.is_file(&path("/r/d/l.json")) && files.is_dir(&path("/r/d")) && !files.has(&path("/none")));
    assert_eq!(files.read_text(&path("/r/a.json")).as_deref(), Some("1"));
    assert_eq!(files.read_text(&path("/other/c.json")), None);
    let all = || files.walk(&path("/r"), 0, None);
    assert_eq!(texts(&keep_extension(all(), "json")), ["/r/a.json"]);
    assert_eq!(texts(&keep_named(all(), "b.jsonl")), ["/r/d/b.jsonl"]);
    assert_eq!(texts(&files.keep_existing(vec![path("/none"), path("/r")])), ["/r"]);
}

fn said(role: &str, content: &str, at: Option<i64>) -> Message {
    make_message(role, at, content.to_string(), json("{}"))
}

#[test]
fn messages_are_placed_and_captioned() {
    let mut messages = vec![said("assistant", "hi", None), said("user", "first\nsecond", None)];
    reindex_messages(&mut messages);
    assert_eq!(messages.iter().map(|m| m.idx).collect::<Vec<_>>(), [0, 1]);
    assert_eq!(user_caption_of(&messages, 3).as_deref(), Some("fir"));
    assert_eq!(caption_of("one\ntwo", 9), "one");
    assert_eq!(tool_label_of("Read", "a.rs"), "[Tool: Read - a.rs]");
    assert_eq!(flatten_content(&json(r#"["a",{"text":"b"},{"x":1},7]"#)), "a\nb");
    assert_eq!(flatten_content(&json(r#"{"text":"b"}"#)), "");
    assert_eq!(title_of(None, &messages).as_deref(), Some("hi"));
}

#[test]
fn pending_messages_are_put_in_the_order_of_their_times() {
    let wait = |id: &str, at: Option<i64>| PendingMessage { message_id: id.to_string(), message: said("user", id, at) };
    let ordered =
        order_messages(vec![wait("z", None), wait("b", Some(2)), wait("a", Some(2)), wait("c", Some(1))]);
    let names: Vec<&str> = ordered.iter().map(|m| m.content.as_str()).collect();
    assert_eq!(names, ["c", "a", "b", "z"]);
    assert_eq!(ordered.iter().map(|m| m.idx).collect::<Vec<_>>(), [0, 1, 2, 3]);
}

#[test]
fn surroundings_name_paths() {
    let s = Surroundings {
        home: None,
        data: None,
        local_data: None,
        config: None,
        variables: vec![("A".to_string(), "  x ".to_string()), ("B".to_string(), "  ".to_string())],
    };
    assert_eq!(s.variable("A"), Some("  x "));
    assert_eq!(s.set_variable("A").as_deref(), Some("x"));
    assert_eq!(s.set_variable("B"), None);
    assert_eq!(s.variable("C"), None);
    let home = path("/home/me");
    assert_eq!(expand_leading_tilde("~/a", Some(&home)).text(), "/home/me/a");
    assert_eq!(expand_leading_tilde("~", Some(&home)).text(), "/home/me");
    assert_eq!(expand_leading_tilde("~other/a", Some(&home)).text(), "~other/a");
    assert_eq!(expand_leading_tilde("~/a", None).text(), "~/a");
}

#[test]
fn level_items_keep_their_order_when_sorted() {
    let message = |id: &str, text: &str| PendingMessage {
        message_id: id.to_string(),
        message: make_message("user", Some(5), text.to_string(), Json::Null),
    };
    let sorted = sort(vec![message("b", "one"), message("a", "two"), message("b", "three"), message("a", "four")]);
    let said: Vec<&str> = sorted.iter().map(|m| m.message.content.as_str()).collect();
    assert_eq!(said, ["two", "four", "one", "three"]);
}

#[test]
fn pieces_are_split_outside_brackets_and_strings() {
    let split = |text: &str| split_outside(text, ',');
    assert_eq!(split(r#"1,[2,3],{"a":4,"b":5},"6,7\",8",9"#), ["1", "[2,3]", r#"{"a":4,"b":5}"#, r#""6,7\",8""#, "9"]);
    assert_eq!(split(""), [""]);
}
