use gfwlist_smartdns::text::{chars_of, contains, split_lines, trim, whitespace};

fn chars(s: &str) -> Vec<char> {
    s.chars().collect()
}

fn text(v: &Vec<char>) -> String {
    v.iter().collect()
}

fn lines(s: &str) -> Vec<String> {
    split_lines(&chars(s)).iter().map(text).collect()
}

fn std_lines(s: &str) -> Vec<String> {
    s.lines().map(String::from).collect()
}

#[test]
fn chars_of_gives_the_characters_in_order() {
    assert_eq!(chars_of(""), Vec::<char>::new());
    assert_eq!(chars_of("a|b"), vec!['a', '|', 'b']);
    assert_eq!(chars_of("é中\u{1F600}"), vec!['é', '中', '\u{1F600}']);
}

#[test]
fn whitespace_is_the_unicode_property() {
    let mut c: u32 = 0;
    while c <= 0x10FFFF {
        if let Some(ch) = char::from_u32(c) {
            assert_eq!(whitespace(ch), ch.is_whitespace(), "U+{:04X}", c);
        }
        c += 1;
    }
}

#[test]
fn whitespace_examples() {
    assert!(whitespace(' '));
    assert!(whitespace('\t'));
    assert!(whitespace('\n'));
    assert!(whitespace('\r'));
    assert!(whitespace('\u{3000}'));
    assert!(!whitespace('a'));
    assert!(!whitespace('\u{200B}'));
    assert!(!whitespace('\u{0}'));
}

#[test]
fn trim_removes_whitespace_at_both_ends_only() {
    assert_eq!(text(&trim(&chars("  a b \t\r\n"))), "a b");
    assert_eq!(text(&trim(&chars("a"))), "a");
    assert_eq!(text(&trim(&chars(""))), "");
    assert_eq!(text(&trim(&chars(" \u{a0}\u{2003} "))), "");
    assert_eq!(text(&trim(&chars("\u{3000}x\u{85}"))), "x");
    assert_eq!(text(&trim(&chars("\u{200B}x"))), "\u{200B}x");
}

#[test]
fn trim_agrees_with_str_trim() {
    for s in ["", " ", "x", " x", "x ", "  x  y  ", "\n\tx\r\n", "\u{1680}é\u{205F}", "a\u{0}"] {
        assert_eq!(text(&trim(&chars(s))), s.trim(), "{:?}", s);
    }
}

#[test]
fn trim_is_idempotent() {
    for s in ["", "  ", " a ", "a  b", "\t\u{3000}a\u{2028}"] {
        let once = trim(&chars(s));
        assert_eq!(trim(&once), once);
    }
}

#[test]
fn contains_finds_a_run_anywhere() {
    assert!(contains(&chars("example.*.com"), ".*"));
    assert!(contains(&chars(".*"), ".*"));
    assert!(contains(&chars("a.*"), ".*"));
    assert!(!contains(&chars("a.b*"), ".*"));
    assert!(!contains(&chars("*."), ".*"));
    assert!(!contains(&chars("."), ".*"));
    assert!(!contains(&chars(""), ".*"));
    assert!(contains(&chars(""), ""));
    assert!(contains(&chars("abc"), ""));
    assert!(contains(&chars("..*"), ".*"));
    assert!(contains(&chars("||http://x"), "http://"));
    assert!(!contains(&chars("||http://x"), "https://"));
    assert!(contains(&chars("abc"), "abc"));
    assert!(!contains(&chars("abc"), "abcd"));
}

#[test]
fn split_lines_splits_at_line_feeds() {
    assert_eq!(lines("a\nb\nc"), vec!["a", "b", "c"]);
    assert_eq!(lines("a\nb\n"), vec!["a", "b"]);
    assert_eq!(lines(""), Vec::<String>::new());
    assert_eq!(lines("\n"), vec![""]);
    assert_eq!(lines("\n\n"), vec!["", ""]);
    assert_eq!(lines("a"), vec!["a"]);
    assert_eq!(lines("a\n\nb"), vec!["a", "", "b"]);
}

#[test]
fn split_lines_takes_a_carriage_return_with_its_line_feed() {
    assert_eq!(lines("a\r\nb\r\n"), vec!["a", "b"]);
    assert_eq!(lines("a\r\r\nb"), vec!["a\r", "b"]);
    assert_eq!(lines("a\rb\nc"), vec!["a\rb", "c"]);
    assert_eq!(lines("\r\n"), vec![""]);
    assert_eq!(lines("a\nb\r"), vec!["a", "b\r"]);
    assert_eq!(lines("\r"), vec!["\r"]);
}

#[test]
fn split_lines_agrees_with_str_lines() {
    for s in [
        "",
        "\n",
        "\r\n",
        "\r",
        "a",
        "a\n",
        "a\r\n",
        "a\r",
        "a\n\r",
        "\na",
        "a\n\nb\r\n\r\nc",
        "||a.com\n!x\r\n@@y\n",
        "é\n中\r\n",
        "\r\r\n\n\r",
    ] {
        assert_eq!(lines(s), std_lines(s), "{:?}", s);
    }
}
