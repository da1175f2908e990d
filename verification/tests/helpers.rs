use ast_grep_ffi::boundary::{
    decode_request_text, null_request_response, panic_response, request_decode_failure,
    response_encode_failure_json,
};
use ast_grep_ffi::capture_map::CaptureMap;
use ast_grep_ffi::captures::{record_captures, Capture};
use ast_grep_ffi::order::{text_order, TextOrder};
use ast_grep_ffi::records::{
    fatal_response, ByteOffsetRecord, CaptureRecord, MatchRecord, MetaVariablesRecord,
    PointRecord, RangeRecord,
};
use ast_grep_ffi::scan::{parse_failure_diagnostic, read_failure_diagnostic};
use ast_grep_ffi::sorting::sort_matches;
use ast_grep_ffi::text::{escape_json_string, is_blank, is_white_space, normalize_output_path};

fn range(start: usize) -> RangeRecord {
    RangeRecord {
        start: PointRecord { line: 0, column: start },
        end_position: PointRecord { line: 0, column: start + 1 },
        byte_offset: ByteOffsetRecord { start, end_offset: start + 1 },
    }
}

fn record(file: &str, start: usize, rule: &str, text: &str) -> MatchRecord {
    MatchRecord {
        rule_id: rule.to_string(),
        file: file.to_string(),
        range: range(start),
        text: text.to_string(),
        lines: text.to_string(),
        node_kind: "k".to_string(),
        message: String::new(),
        metadata: serde_json::Map::new(),
        meta_variables: MetaVariablesRecord::new(),
    }
}

#[test]
fn escapes_json_special_characters() {
    assert_eq!(escape_json_string("a\"b\\c\nd\re\tf"), "a\\\"b\\\\c\\nd\\re\\tf");
    assert_eq!(escape_json_string("plain"), "plain");
    assert_eq!(escape_json_string(""), "");
    assert_eq!(escape_json_string("é\u{1}"), "é\u{1}");
}

#[test]
fn escaped_text_reads_back() {
    let text = "say \"hi\"\\\n\tnow";
    let escaped = escape_json_string(text);
    let decoded: String = serde_json::from_str(&format!("\"{escaped}\"")).unwrap();
    assert_eq!(decoded, text);
}

#[test]
fn normalized_path_keeps_its_identity() {
    assert_eq!(normalize_output_path("src/a.lua"), "src/a.lua");
    assert_eq!(normalize_output_path("C:\\x\\y.rs"), "C:\\x\\y.rs");
    assert_eq!(normalize_output_path(""), "");
}

#[test]
fn blank_detection_uses_unicode_white_space() {
    assert!(is_blank(""));
    assert!(is_blank(" \t\n\u{3000}"));
    assert!(!is_blank(" x "));
}

#[test]
fn white_space_is_what_std_calls_white_space() {
    for code in 0u32..=0x10FFFF {
        if let Some(c) = char::from_u32(code) {
            assert_eq!(is_white_space(c), c.is_whitespace(), "U+{code:04X}");
        }
    }
    assert!(is_white_space('\u{205F}'));
    assert!(!is_white_space('\u{200B}'));
}

#[test]
fn text_order_is_byte_order() {
    assert_eq!(text_order("a", "b"), TextOrder::Less);
    assert_eq!(text_order("b", "a"), TextOrder::Greater);
    assert_eq!(text_order("ab", "ab"), TextOrder::Equal);
    assert_eq!(text_order("ab", "abc"), TextOrder::Less);
    assert_eq!(text_order("Z", "a"), TextOrder::Less);
    assert_eq!(text_order("é", "z"), TextOrder::Greater);
}

#[test]
fn sort_orders_by_file_start_and_rule_and_is_stable() {
    let matches = vec![
        record("b.rs", 0, "r", "first"),
        record("a.rs", 5, "r", "second"),
        record("a.rs", 5, "q", "third"),
        record("a.rs", 1, "z", "fourth"),
        record("b.rs", 0, "r", "fifth"),
    ];
    let sorted = sort_matches(matches);
    let texts: Vec<&str> = sorted.iter().map(|m| m.text.as_str()).collect();
    assert_eq!(texts, vec!["fourth", "third", "second", "first", "fifth"]);
}

#[test]
fn sort_of_nothing_is_nothing() {
    assert!(sort_matches(Vec::new()).is_empty());
}

#[test]
fn capture_map_keeps_names_once_in_order() {
    let mut map: CaptureMap<u32> = CaptureMap::new();
    map.insert("b".to_string(), 1);
    map.insert("a".to_string(), 2);
    map.insert("b".to_string(), 3);
    assert!(map.contains_key("a"));
    assert!(!map.contains_key("c"));
    assert_eq!(map.get("b"), Some(&3));
    assert_eq!(map.get("a"), Some(&2));
    assert_eq!(map.get("z"), None);
    let entries = map.into_entries();
    assert_eq!(entries, vec![("a".to_string(), 2), ("b".to_string(), 3)]);
}

#[test]
fn captures_do_not_depend_on_visit_order() {
    let make = |order: &[usize]| {
        let all = [
            Capture::Single("X".to_string(), CaptureRecord { text: "x".to_string(), range: range(1) }),
            Capture::Multiple("L".to_string(), vec![CaptureRecord { text: "l".to_string(), range: range(2) }]),
            Capture::Single("A".to_string(), CaptureRecord { text: "a".to_string(), range: range(3) }),
        ];
        let mut out = Vec::new();
        for &i in order {
            out.push(match &all[i] {
                Capture::Single(n, c) => Capture::Single(n.clone(), CaptureRecord { text: c.text.clone(), range: c.range }),
                Capture::Multiple(n, cs) => Capture::Multiple(
                    n.clone(),
                    cs.iter().map(|c| CaptureRecord { text: c.text.clone(), range: c.range }).collect(),
                ),
            });
        }
        record_captures(out)
    };
    let one = make(&[0, 1, 2]);
    let two = make(&[2, 1, 0]);
    for record in [one, two] {
        let singles: Vec<(String, String)> = record
            .single
            .into_entries()
            .into_iter()
            .map(|(n, c)| (n, c.text))
            .collect();
        assert_eq!(singles, vec![("A".to_string(), "a".to_string()), ("X".to_string(), "x".to_string())]);
        let multi = record.multi.into_entries();
        assert_eq!(multi.len(), 1);
        assert_eq!(multi[0].0, "L");
    }
}

#[test]
fn later_capture_under_one_name_wins() {
    let record = record_captures(vec![
        Capture::Single("X".to_string(), CaptureRecord { text: "old".to_string(), range: range(1) }),
        Capture::Single("X".to_string(), CaptureRecord { text: "new".to_string(), range: range(2) }),
    ]);
    assert_eq!(record.single.get("X").map(|c| c.text.as_str()), Some("new"));
}

#[test]
fn fatal_response_carries_code_and_message_only() {
    let response = fatal_response("code", "message");
    assert!(!response.ok);
    assert!(response.matches.is_empty());
    assert!(response.diagnostics.is_empty());
    assert_eq!(response.error.as_deref(), Some("code"));
    assert_eq!(response.message.as_deref(), Some("message"));
}

#[test]
fn boundary_responses() {
    let r = null_request_response();
    assert_eq!(r.error.as_deref(), Some("null_request"));
    assert_eq!(r.message.as_deref(), Some("request_json must not be null"));
    let r = panic_response();
    assert_eq!(r.error.as_deref(), Some("panic"));
    assert_eq!(r.message.as_deref(), Some("ast-grep FFI scan panicked"));
    let r = request_decode_failure("EOF");
    assert_eq!(r.error.as_deref(), Some("invalid_request_json"));
    assert_eq!(r.message.as_deref(), Some("failed to decode ast-grep FFI request JSON: EOF"));
}

#[test]
fn request_bytes_must_be_utf8() {
    assert_eq!(decode_request_text("{}".as_bytes()).ok(), Some("{}".to_string()));
    match decode_request_text(&[0x7b, 0xff]) {
        Err(r) => {
            assert_eq!(r.error.as_deref(), Some("invalid_request_utf8"));
            assert_eq!(
                r.message.as_deref(),
                Some("request_json is not valid UTF-8: invalid utf-8 sequence of 1 bytes from index 1")
            );
        }
        Ok(_) => panic!("expected an error"),
    }
}

#[test]
fn encode_failure_json_escapes_the_error() {
    assert_eq!(
        response_encode_failure_json("bad \"x\""),
        "{\"ok\":false,\"matches\":[],\"diagnostics\":[],\"error\":\"response_encode_failed\",\"message\":\"bad \\\"x\\\"\"}"
    );
    let parsed: serde_json::Value = serde_json::from_str(&response_encode_failure_json("a\nb")).unwrap();
    assert_eq!(parsed["message"], "a\nb");
}

#[test]
fn diagnostics_name_file_and_error() {
    assert_eq!(read_failure_diagnostic("a.lua", "gone"), "file_read_failed:a.lua:gone");
    assert_eq!(parse_failure_diagnostic("a.lua", "bad"), "file_parse_failed:a.lua:bad");
}
