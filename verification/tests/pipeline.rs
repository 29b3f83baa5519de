use gfwlist_smartdns::pipeline::{join_lines, process, render_line};
use publicsuffix::List;

fn suffixes() -> List {
    List::from_str("// ===BEGIN ICANN DOMAINS===\ncom\nnet\nuk\nco.uk\n// ===END ICANN DOMAINS===\n")
        .unwrap()
}

fn strings(items: &[&str]) -> Vec<String> {
    items.iter().map(|s| String::from(*s)).collect()
}

#[test]
fn end_to_end_scenario() {
    let feed = ["||a.com", "a.com", "||b.com", "!comment", "192.0.2.1", "@@exempt.com"].join("\n");
    let out = process(&suffixes(), &feed, "g");
    assert_eq!(out.lines, strings(&["nameserver /a.com/g", "nameserver /b.com/g"]));
    assert_eq!(out.domains, strings(&["a.com", "b.com"]));
    assert_eq!(out.duplicates_removed, 1);
    assert_eq!(out.error_count(), 1);
    assert_eq!(out.errors, strings(&["192.0.2.1 is a IP."]));
    assert_eq!(out.total(), 2);
    assert_eq!(out.payload(), "nameserver /a.com/g\nnameserver /b.com/g");
}

#[test]
fn filtered_lines_leave_no_trace() {
    let feed = "! comment\n@@allow.com\n[Adblock]\nexample.*.com\n\n   \n";
    let out = process(&suffixes(), feed, "g");
    assert!(out.domains.is_empty());
    assert!(out.lines.is_empty());
    assert!(out.errors.is_empty());
    assert_eq!(out.duplicates_removed, 0);
    assert_eq!(out.payload(), "");
}

#[test]
fn filtered_lines_between_rules_change_nothing() {
    let list = suffixes();
    let with = process(&list, "||b.com\n! comment\n@@allow.com\nbad host\n[Adblock]\na.com\nexample.*.com\n\n", "g");
    let without = process(&list, "||b.com\nbad host\na.com", "g");
    assert_eq!(with.lines, without.lines);
    assert_eq!(with.errors, without.errors);
    assert_eq!(with.duplicates_removed, without.duplicates_removed);
    assert_eq!(with.lines, strings(&["nameserver /a.com/g", "nameserver /b.com/g"]));
    assert_eq!(with.errors.len(), 1);
}

#[test]
fn domains_are_sorted_and_distinct() {
    let feed = "||z.com\n|http://m.net/path\nz.com\n.a.co.uk\n*.m.net\nhttps://z.com\n";
    let out = process(&suffixes(), feed, "grp");
    assert_eq!(out.domains, strings(&["a.co.uk", "m.net", "z.com"]));
    assert_eq!(out.duplicates_removed, 3);
    assert_eq!(out.total(), 3);
    for i in 1..out.domains.len() {
        assert!(out.domains[i - 1] < out.domains[i]);
    }
}

#[test]
fn domains_are_ordered_not_their_lines() {
    let out = process(&suffixes(), "a.com.uk\na.com\n", "g");
    assert_eq!(out.domains, strings(&["a.com", "a.com.uk"]));
    assert_eq!(out.lines, strings(&["nameserver /a.com/g", "nameserver /a.com.uk/g"]));
}

#[test]
fn errors_keep_the_order_of_the_lines() {
    let feed = "10.0.0.1\nlocalhost\n||ok.com\n*\nhttp://[::1]\n[::1]\n";
    let out = process(&suffixes(), feed, "g");
    assert_eq!(
        out.errors,
        strings(&["10.0.0.1 is a IP.", "localhost is invalid.", "empty host in ", "::1 is a IP."])
    );
    assert_eq!(out.error_count(), 4);
    assert_eq!(out.domains, strings(&["ok.com"]));
}

#[test]
fn lines_are_trimmed_before_they_are_read() {
    let out = process(&suffixes(), "  ||a.com  \r\n\t!comment\r\n b.com\r\n", "g");
    assert_eq!(out.domains, strings(&["a.com", "b.com"]));
    assert!(out.errors.is_empty());
}

#[test]
fn empty_feed_gives_empty_output() {
    let out = process(&suffixes(), "", "g");
    assert_eq!(out.total(), 0);
    assert_eq!(out.error_count(), 0);
    assert_eq!(out.duplicates_removed, 0);
    assert_eq!(out.payload(), "");
}

#[test]
fn group_is_inserted_as_it_is() {
    let out = process(&suffixes(), "a.com", "over seas/1");
    assert_eq!(out.lines, strings(&["nameserver /a.com/over seas/1"]));
    let out = process(&suffixes(), "a.com", "");
    assert_eq!(out.lines, strings(&["nameserver /a.com/"]));
}

#[test]
fn render_line_writes_domain_and_group() {
    assert_eq!(render_line("example.com", "g"), "nameserver /example.com/g");
    assert_eq!(render_line("", ""), "nameserver //");
}

#[test]
fn join_lines_puts_line_feeds_between() {
    assert_eq!(join_lines(&strings(&[])), "");
    assert_eq!(join_lines(&strings(&["a"])), "a");
    assert_eq!(join_lines(&strings(&["a", "b"])), "a\nb");
    assert_eq!(join_lines(&strings(&["a", "", "b"])), "a\n\nb");
    assert_eq!(join_lines(&strings(&["", ""])), "\n");
}

#[test]
fn payload_has_no_trailing_line_feed() {
    let out = process(&suffixes(), "a.com\nb.com\nc.com\n", "g");
    assert_eq!(out.payload(), "nameserver /a.com/g\nnameserver /b.com/g\nnameserver /c.com/g");
}

#[test]
fn many_lines_are_processed() {
    let mut feed = String::new();
    let mut i: u32 = 0;
    while i < 3000 {
        feed.push_str(&format!("||host{}.com\n", (i * 7919) % 1500));
        i += 1;
    }
    let out = process(&suffixes(), &feed, "g");
    assert_eq!(out.total(), 1500);
    assert_eq!(out.duplicates_removed, 1500);
    let mut expected: Vec<String> = (0..1500).map(|k| format!("host{}.com", k)).collect();
    expected.sort();
    assert_eq!(out.domains, expected);
}
