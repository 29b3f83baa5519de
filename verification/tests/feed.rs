use base64::engine::general_purpose::STANDARD;
use base64::Engine;
use gfwlist_smartdns::feed::{assemble, convert, decode_feed, FeedError};
use publicsuffix::List;

fn suffixes() -> List {
    List::from_str("// ===BEGIN ICANN DOMAINS===\ncom\n// ===END ICANN DOMAINS===\n").unwrap()
}

fn encoded(text: &str, width: usize) -> String {
    let all = STANDARD.encode(text);
    let mut lines: Vec<String> = Vec::new();
    let mut rest = all.as_str();
    while rest.len() > width {
        let (head, tail) = rest.split_at(width);
        lines.push(String::from(head));
        rest = tail;
    }
    lines.push(String::from(rest));
    lines.join("\n")
}

#[test]
fn decode_feed_decodes_one_line() {
    assert_eq!(decode_feed("aGVsbG8="), Ok(String::from("hello")));
    assert_eq!(decode_feed("aGVsbG8=\n"), Ok(String::from("hello")));
}

#[test]
fn decode_feed_joins_the_bytes_of_all_lines() {
    assert_eq!(decode_feed("fHxh\nLmNv\nbQph\n"), Ok(String::from("||a.com\na")));
    assert_eq!(decode_feed("aGk=\naGk=\r\naGk="), Ok(String::from("hihihi")));
}

#[test]
fn decode_feed_of_nothing_is_empty() {
    assert_eq!(decode_feed(""), Ok(String::new()));
    assert_eq!(decode_feed("\n\n"), Ok(String::new()));
}

#[test]
fn decode_feed_joins_characters_split_over_lines() {
    // "é" is C3 A9; "w6k=" holds both bytes, "ww==" and "qQ==" one each.
    assert_eq!(decode_feed("w6k="), Ok(String::from("é")));
    assert_eq!(decode_feed("ww==\nqQ=="), Ok(String::from("é")));
}

#[test]
fn decode_feed_reports_the_first_bad_line() {
    assert_eq!(decode_feed("aGk=\n!!!!\naGk=\n????"), Err(FeedError::InvalidBase64 { line: 1 }));
    assert_eq!(decode_feed("aGk"), Err(FeedError::InvalidBase64 { line: 0 }));
    assert_eq!(decode_feed("aGk=\n aGk="), Err(FeedError::InvalidBase64 { line: 1 }));
    assert_eq!(decode_feed("aGk=\naGl="), Err(FeedError::InvalidBase64 { line: 1 }));
}

#[test]
fn decode_feed_reports_bytes_that_are_no_text() {
    assert_eq!(decode_feed("ww=="), Err(FeedError::InvalidUtf8));
    assert_eq!(decode_feed("/w=="), Err(FeedError::InvalidUtf8));
    assert_eq!(decode_feed("aGk=\n/w==\naGk="), Err(FeedError::InvalidUtf8));
}

#[test]
fn bad_line_comes_before_bad_text() {
    assert_eq!(decode_feed("/w==\n*"), Err(FeedError::InvalidBase64 { line: 1 }));
}

#[test]
fn assemble_concatenates_the_chunks() {
    let chunks = vec![Some(vec![b'a', b'b']), Some(vec![]), Some(vec![b'c'])];
    assert_eq!(assemble(chunks), Ok(String::from("abc")));
    assert_eq!(assemble(Vec::new()), Ok(String::new()));
}

#[test]
fn assemble_reports_the_first_missing_chunk() {
    let chunks = vec![Some(vec![b'a']), None, Some(vec![0xff]), None];
    assert_eq!(assemble(chunks), Err(FeedError::InvalidBase64 { line: 1 }));
    assert_eq!(assemble(vec![None]), Err(FeedError::InvalidBase64 { line: 0 }));
}

#[test]
fn assemble_reports_invalid_utf8() {
    assert_eq!(assemble(vec![Some(vec![b'a', 0xff])]), Err(FeedError::InvalidUtf8));
    assert_eq!(assemble(vec![Some(vec![0xc3]), Some(vec![0x28])]), Err(FeedError::InvalidUtf8));
    assert_eq!(assemble(vec![Some(vec![0xed, 0xa0, 0x80])]), Err(FeedError::InvalidUtf8));
}

#[test]
fn assemble_decodes_utf8() {
    let chunks = vec![Some(vec![0xe4, 0xb8]), Some(vec![0xad, 0xf0, 0x9f, 0x98, 0x80])];
    assert_eq!(assemble(chunks), Ok(String::from("中\u{1F600}")));
}

#[test]
fn convert_runs_from_feed_to_lines() {
    let text = "[AutoProxy 0.2.9]\n! comment\n||a.com\na.com\n||b.com\n192.0.2.1\n@@exempt.com\n";
    let body = encoded(text, 16);
    let out = convert(&suffixes(), &body, "g").unwrap();
    assert_eq!(out.lines, vec!["nameserver /a.com/g", "nameserver /b.com/g"]);
    assert_eq!(out.duplicates_removed, 1);
    assert_eq!(out.error_count(), 1);
    assert_eq!(out.payload(), "nameserver /a.com/g\nnameserver /b.com/g");
}

#[test]
fn convert_stops_at_a_bad_feed() {
    let r = convert(&suffixes(), "fHxhLmNvbQ==\n%%%", "g");
    assert_eq!(r.unwrap_err(), FeedError::InvalidBase64 { line: 1 });
    let r = convert(&suffixes(), "/w==", "g");
    assert_eq!(r.unwrap_err(), FeedError::InvalidUtf8);
}

#[test]
fn decode_feed_agrees_with_the_engine_line_by_line() {
    let text = "||example.com\n|http://example.org/x\n!note é中\n";
    for width in [4, 8, 64] {
        assert_eq!(decode_feed(&encoded(text, width)), Ok(String::from(text)));
    }
}
