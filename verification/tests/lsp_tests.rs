use editor::lsp::{CompletionItem, frame_message, offset_to_position, parse_usize, position_to_offset, read_header_line, LspConfig};
use editor::lsp::{completions_of_response, edits_of_response, hover_of_response, locations_of_response, parse_reply, quick_fix_edits, JsonValue};
use editor::edit::Range;

#[test]
fn test_offset_to_position_roundtrip() {
    let text = "hello\nworld\nfoo";
    for offset in [0, 2, 5, 6, 7, 11, 12, 15] {
        let (line, col) = offset_to_position(text, offset);
        let new_offset = position_to_offset(text, line, col);
        assert_eq!(new_offset, offset);
    }
}

#[test]
fn test_position_to_offset_edge_cases() {
    let text = "abc\n";
    assert_eq!(position_to_offset(text, 0, 0), 0);
    assert_eq!(position_to_offset(text, 0, 1), 1);
    assert_eq!(position_to_offset(text, 0, 2), 2);
    assert_eq!(position_to_offset(text, 0, 3), 3);
    assert_eq!(position_to_offset(text, 1, 0), 4);
    assert_eq!(position_to_offset(text, 2, 0), text.len());
}

#[test]
fn test_lsp_config_rust_analyzer() {
    let config = LspConfig::rust_analyzer("/home/user/project");
    assert_eq!(config.command, "rust-analyzer");
    assert_eq!(config.root_uri, "file:///home/user/project");
    assert_eq!(config.language_id, "rust");
}

#[test]
fn lsp_range_to_char_range_positions() {
    let full_text = "hello\nworld";
    assert_eq!(position_to_offset(full_text, 0, 1), 1);
    assert_eq!(position_to_offset(full_text, 0, 3), 3);
    assert_eq!(position_to_offset(full_text, 1, 2), 8);
    assert_eq!(position_to_offset(full_text, 1, 4), 10);
}

#[test]
fn positions_count_utf16_units() {
    let text = "a😀b\nc";
    assert_eq!(offset_to_position(text, 2), (0, 3));
    assert_eq!(position_to_offset(text, 0, 3), 2);
    assert_eq!(offset_to_position(text, 4), (1, 0));
}

#[test]
fn offsets_past_the_end_go_to_the_last_line() {
    let text = "ab\ncd";
    assert_eq!(offset_to_position(text, 99), (1, 2));
    assert_eq!(offset_to_position("", 3), (0, 0));
    assert_eq!(offset_to_position("x\n", 2), (1, 0));
}

#[test]
fn end_after_final_newline_is_on_the_empty_last_line() {
    let text = "abc\n";
    assert_eq!(offset_to_position(text, 4), (1, 0));
    assert_eq!(position_to_offset(text, 1, 0), 4);
    for o in 0..=4 {
        let (l, c) = offset_to_position(text, o);
        assert_eq!(position_to_offset(text, l, c), o);
    }
}

#[test]
fn line_past_the_last_gives_the_end_of_the_text() {
    assert_eq!(position_to_offset("hello", 1, 0), 5);
    assert_eq!(position_to_offset("hello", 7, 3), 5);
    assert_eq!(position_to_offset("abc\n", 0, 9), 3);
    assert_eq!(position_to_offset("", 0, 0), 0);
}

#[test]
fn crlf_lines_split_at_the_newline() {
    let text = "ab\r\ncd";
    assert_eq!(offset_to_position(text, 4), (1, 0));
    assert_eq!(offset_to_position(text, 6), (1, 2));
    assert_eq!(position_to_offset(text, 1, 0), 4);
    for o in 0..=6 {
        let (l, c) = offset_to_position(text, o);
        assert_eq!(position_to_offset(text, l, c), o);
    }
}

#[test]
fn column_past_the_line_stops_at_its_end() {
    assert_eq!(position_to_offset("abc\ndef", 0, 10), 3);
}

#[test]
fn windows_paths_become_uris() {
    let config = LspConfig::rust_analyzer("C:\\work\\proj");
    assert_eq!(config.root_uri, "file:///C:/work/proj");
    assert!(config.args.is_empty());
}

#[test]
fn messages_are_framed_with_byte_length() {
    assert_eq!(frame_message("{}"), "Content-Length: 2\r\n\r\n{}");
    assert_eq!(frame_message("é"), "Content-Length: 2\r\n\r\né");
}

#[test]
fn header_lines() {
    assert_eq!(read_header_line(0, "Content-Length: 42\r\n"), Some(42));
    assert_eq!(read_header_line(0, "content-length:7"), Some(7));
    assert_eq!(read_header_line(5, "Content-Type: application/json\r\n"), Some(5));
    assert_eq!(read_header_line(9, "CONTENT-LENGTH: 12"), Some(0));
    assert_eq!(read_header_line(9, "Content-Length: abc"), Some(0));
    assert_eq!(read_header_line(3, "\r\n"), None);
    assert_eq!(read_header_line(3, "   "), None);
}

#[test]
fn usize_parsing() {
    assert_eq!(parse_usize(&"123".chars().collect()), Some(123));
    assert_eq!(parse_usize(&"+7".chars().collect()), Some(7));
    assert_eq!(parse_usize(&"+".chars().collect()), None);
    assert_eq!(parse_usize(&"".chars().collect()), None);
    assert_eq!(parse_usize(&"-1".chars().collect()), None);
    assert_eq!(parse_usize(&"1a".chars().collect()), None);
    assert_eq!(parse_usize(&"99999999999999999999999999".chars().collect()), None);
}

#[test]
fn completion_items_from_reply_fields() {
    let c = CompletionItem::from_fields(Some(String::from("push")), Some(2), None, None);
    assert_eq!(c.label, "push");
    assert_eq!(c.kind.as_deref(), Some("2"));
    assert_eq!(c.insert_text.as_deref(), Some("push"));
    assert!(c.additional_edits.is_empty());
    let d = CompletionItem::from_fields(None, None, Some(String::from("fn")), Some(String::from("x()")));
    assert_eq!(d.label, "");
    assert_eq!(d.kind, None);
    assert_eq!(d.detail.as_deref(), Some("fn"));
    assert_eq!(d.insert_text.as_deref(), Some("x()"));
}

#[test]
fn framed_header_reads_back_as_body_length() {
    let body = "{\"id\":1,\"résumé\":true}";
    let framed = frame_message(body);
    let first_end = framed.find('\n').unwrap() + 1;
    let header = &framed[..first_end];
    let n = read_header_line(0, header).unwrap();
    assert_eq!(n, body.len());
    assert_eq!(read_header_line(n, "\r\n"), None);
    assert_eq!(&framed[first_end + 2..], body);
}

fn reply(s: &str) -> JsonValue {
    parse_reply(s.as_bytes()).expect("the reply is JSON")
}

#[test]
fn reply_that_is_not_json_is_refused() {
    assert!(parse_reply(b"{not json").is_none());
    assert!(parse_reply(b"").is_none());
}

#[test]
fn reply_members_are_read() {
    match reply(r#"{"a": [1, "x", null, true]}"#) {
        JsonValue::Object(es) => {
            assert_eq!(es.len(), 1);
            assert_eq!(es[0].0, "a");
            match &es[0].1 {
                JsonValue::Array(v) => {
                    assert_eq!(v.len(), 4);
                    assert!(matches!(&v[0], JsonValue::Num(n) if n == "1"));
                    assert!(matches!(&v[1], JsonValue::Str(s) if s == "x"));
                    assert!(matches!(&v[2], JsonValue::Null));
                    assert!(matches!(&v[3], JsonValue::Bool(true)));
                }
                _ => panic!("not an array"),
            }
        }
        _ => panic!("not an object"),
    }
}

#[test]
fn completions_from_array_result() {
    let r = reply(r#"{"result": [{"label": "foo", "kind": 3, "detail": "fn foo()"}, {"insertText": "bar()"}]}"#);
    let v = completions_of_response(&r);
    assert_eq!(v.len(), 2);
    assert_eq!(v[0].label, "foo");
    assert_eq!(v[0].kind.as_deref(), Some("3"));
    assert_eq!(v[0].detail.as_deref(), Some("fn foo()"));
    assert_eq!(v[0].insert_text.as_deref(), Some("foo"));
    assert_eq!(v[1].label, "");
    assert_eq!(v[1].kind, None);
    assert_eq!(v[1].insert_text.as_deref(), Some("bar()"));
}

#[test]
fn completions_from_list_result() {
    let r = reply(r#"{"result": {"isIncomplete": false, "items": [{"label": "x"}]}}"#);
    let v = completions_of_response(&r);
    assert_eq!(v.len(), 1);
    assert_eq!(v[0].label, "x");
    assert!(completions_of_response(&reply(r#"{"result": null}"#)).is_empty());
    assert!(completions_of_response(&reply(r#"{"id": 1}"#)).is_empty());
}

#[test]
fn hover_reads_contents_and_range() {
    let text = "fn main() {}\nlet x = 1;";
    let r = reply(r#"{"result": {"contents": {"kind": "markdown", "value": "main"}, "range": {"start": {"line": 1, "character": 4}, "end": {"line": 1, "character": 5}}}}"#);
    let h = hover_of_response(&r, text).expect("a hover");
    assert_eq!(h.contents, "main");
    assert_eq!(h.range, Some(Range::new(17, 18)));
    let r2 = reply(r#"{"result": {"contents": "plain"}}"#);
    let h2 = hover_of_response(&r2, text).expect("a hover");
    assert_eq!(h2.contents, "plain");
    assert_eq!(h2.range, None);
    assert!(hover_of_response(&reply(r#"{"result": null}"#), text).is_none());
    assert!(hover_of_response(&reply(r#"{}"#), text).is_none());
}

#[test]
fn format_edits_need_a_range() {
    let text = "abc\ndef";
    let r = reply(r#"{"result": [{"range": {"start": {"line": 0, "character": 1}, "end": {"line": 1, "character": 1}}, "newText": "Z"}, {"newText": "lost"}, {"range": {"start": {"line": 0, "character": 0}, "end": {"line": 0, "character": 0}}}]}"#);
    let e = edits_of_response(&r, text);
    assert_eq!(e, vec![(Range::new(1, 5), "Z".to_string()), (Range::new(0, 0), String::new())]);
}

#[test]
fn quick_fix_collects_change_edits() {
    let text = "let x = 1;";
    let r = reply(r#"{"result": [
        {"title": "a", "edit": {"changes": {"file:///a.rs": [{"range": {"start": {"line": 0, "character": 4}, "end": {"line": 0, "character": 5}}, "newText": "_x"}]}}},
        {"title": "no edit"},
        {"title": "b", "edit": {"changes": {"file:///a.rs": [{"range": {"start": {"line": 0, "character": 9}, "end": {"line": 0, "character": 9}}, "newText": ";"}]}}}
    ]}"#);
    let e = quick_fix_edits(&r, text);
    assert_eq!(e, vec![(Range::new(4, 5), "_x".to_string()), (Range::new(9, 9), ";".to_string())]);
    assert!(quick_fix_edits(&reply(r#"{"result": null}"#), text).is_empty());
}

#[test]
fn locations_from_array_or_single() {
    let text = "ab\ncd";
    let r = reply(r#"{"result": [{"uri": "file:///x", "range": {"start": {"line": 1, "character": 0}, "end": {"line": 1, "character": 2}}}, {"uri": "file:///y"}]}"#);
    let l = locations_of_response(&r, text);
    assert_eq!(l.len(), 1);
    assert_eq!(l[0].uri, "file:///x");
    assert_eq!(l[0].range, Range::new(3, 5));
    let single = reply(r#"{"result": {"range": {"start": {"line": 0, "character": 1}, "end": {"line": 0, "character": 2}}}}"#);
    let l2 = locations_of_response(&single, text);
    assert_eq!(l2.len(), 1);
    assert_eq!(l2[0].uri, "");
    assert_eq!(l2[0].range, Range::new(1, 2));
    assert!(locations_of_response(&reply(r#"{"result": null}"#), text).is_empty());
}
