//! Tests of the metadata document codec: the exact text written, parsing
//! it back, escaping, and the lenient handling of ill-formed documents.

use rustdrive::codec::{parse_index, parse_index_lenient, render_index};
use rustdrive::meta::FileMeta;

fn rec(name: &str, size: u64) -> FileMeta {
    FileMeta { filename: name.to_string(), size }
}

#[test]
fn render_empty_index() {
    let text = render_index(&Vec::new());
    assert_eq!(text, "[]");
}

#[test]
fn render_two_records_exact_text() {
    let text = render_index(&vec![rec("a.txt", 5), rec("b.bin", 1024)]);
    let expected = "[\n  {\n    \"filename\": \"a.txt\",\n    \"size\": 5\n  },\n  {\n    \"filename\": \"b.bin\",\n    \"size\": 1024\n  }\n]";
    assert_eq!(text, expected);
}

#[test]
fn parse_rendered_documents() {
    let cases: Vec<Vec<FileMeta>> = vec![
        vec![],
        vec![rec("one", 0)],
        vec![rec("a.txt", 5), rec("b.bin", 1024), rec("file.txt", 42)],
    ];
    for records in cases {
        let text = render_index(&records);
        let back = parse_index(text.as_str()).unwrap();
        assert_eq!(back.len(), records.len());
        for (got, want) in back.iter().zip(records.iter()) {
            assert_eq!(got.filename, want.filename);
            assert_eq!(got.size, want.size);
        }
    }
}

#[test]
fn parse_handwritten_document() {
    let text = "[\n  {\n    \"filename\": \"x\",\n    \"size\": 7\n  }\n]";
    let back = parse_index(text).unwrap();
    assert_eq!(back.len(), 1);
    assert_eq!(back[0].filename, "x");
    assert_eq!(back[0].size, 7);
}

#[test]
fn parse_rejects_ill_formed_text() {
    assert!(parse_index("").is_none());
    assert!(parse_index("not json").is_none());
    assert!(parse_index("[").is_none());
    assert!(parse_index("[]x").is_none());
    assert!(parse_index("[\n  {\n    \"filename\": \"x\",\n    \"size\": \n  }\n]").is_none());
}

#[test]
fn lenient_parse_gives_empty_index() {
    assert_eq!(parse_index_lenient("garbage").len(), 0);
    assert_eq!(parse_index_lenient("").len(), 0);
    let good = render_index(&vec![rec("a", 1)]);
    assert_eq!(parse_index_lenient(good.as_str()).len(), 1);
}

#[test]
fn escaping_round_trips_special_characters() {
    let tricky = "a\"b\\c\nd\te\u{1}f";
    let text = render_index(&vec![rec(tricky, 9)]);
    assert!(text.contains("\\\""));
    assert!(text.contains("\\\\"));
    assert!(text.contains("\\u000a"));
    assert!(text.contains("\\u0009"));
    assert!(text.contains("\\u0001"));
    let back = parse_index(text.as_str()).unwrap();
    assert_eq!(back[0].filename, tricky);
}

#[test]
fn non_ascii_names_round_trip() {
    let name = "datei-\u{00e9}\u{4e16}\u{754c}.txt";
    let text = render_index(&vec![rec(name, 3)]);
    let back = parse_index(text.as_str()).unwrap();
    assert_eq!(back[0].filename, name);
}

#[test]
fn size_extremes_round_trip() {
    let text = render_index(&vec![rec("zero", 0), rec("max", u64::MAX)]);
    assert!(text.contains("\"size\": 0"));
    assert!(text.contains("\"size\": 18446744073709551615"));
    let back = parse_index(text.as_str()).unwrap();
    assert_eq!(back[0].size, 0);
    assert_eq!(back[1].size, u64::MAX);
}

#[test]
fn size_overflow_is_rejected() {
    let text = "[\n  {\n    \"filename\": \"x\",\n    \"size\": 18446744073709551616\n  }\n]";
    assert!(parse_index(text).is_none());
    assert_eq!(parse_index_lenient(text).len(), 0);
}
