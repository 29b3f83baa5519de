use gfwlist_smartdns::order::{dedup, less, same, sort, sorted_distinct};

fn chars(s: &str) -> Vec<char> {
    s.chars().collect()
}

fn names(items: &[&str]) -> Vec<Vec<char>> {
    items.iter().map(|s| chars(s)).collect()
}

fn texts(items: &Vec<Vec<char>>) -> Vec<String> {
    items.iter().map(|v| v.iter().collect()).collect()
}

#[test]
fn less_orders_by_first_difference() {
    assert!(less(&chars("a.com"), &chars("b.com")));
    assert!(!less(&chars("b.com"), &chars("a.com")));
    assert!(less(&chars("a.com"), &chars("a.con")));
    assert!(less(&chars("A.com"), &chars("a.com")));
    assert!(less(&chars("a-b.com"), &chars("a.com")));
}

#[test]
fn less_puts_a_prefix_first() {
    assert!(less(&chars("a.co"), &chars("a.com")));
    assert!(!less(&chars("a.com"), &chars("a.co")));
    assert!(less(&chars(""), &chars("a")));
    assert!(!less(&chars("a"), &chars("")));
}

#[test]
fn less_is_irreflexive() {
    assert!(!less(&chars(""), &chars("")));
    assert!(!less(&chars("a.com"), &chars("a.com")));
}

#[test]
fn less_agrees_with_string_order() {
    let samples = ["", "a", "b", "ab", "a.com", "a.com.cn", "a/com", "A", "é", "z", "中", "\u{1F600}", "\u{FFFF}"];
    for x in samples {
        for y in samples {
            assert_eq!(less(&chars(x), &chars(y)), x < y, "{:?} {:?}", x, y);
        }
    }
}

#[test]
fn same_compares_all_characters() {
    assert!(same(&chars(""), &chars("")));
    assert!(same(&chars("a.com"), &chars("a.com")));
    assert!(!same(&chars("a.com"), &chars("a.co")));
    assert!(!same(&chars("a.com"), &chars("A.com")));
    assert!(!same(&chars("a.com"), &chars("a.con")));
}

#[test]
fn sort_orders_and_keeps_every_item() {
    let out = sort(names(&["b.com", "a.com", "c.com", "a.com", "b.com"]));
    assert_eq!(texts(&out), vec!["a.com", "a.com", "b.com", "b.com", "c.com"]);
}

#[test]
fn sort_of_nothing_and_of_one() {
    assert_eq!(sort(Vec::new()), Vec::<Vec<char>>::new());
    assert_eq!(texts(&sort(names(&["x"]))), vec!["x"]);
}

#[test]
fn sort_agrees_with_the_standard_sort() {
    let items = ["zeta.org", "alpha.com", "Alpha.com", "alpha.co", "m.net", "alpha.com", "", "a", "é.fr", "10.com", "-", "m.net"];
    let mut expected: Vec<String> = items.iter().map(|s| String::from(*s)).collect();
    expected.sort();
    assert_eq!(texts(&sort(names(&items))), expected);
}

#[test]
fn dedup_removes_what_repeats_its_neighbour() {
    let out = dedup(names(&["a", "a", "b", "b", "b", "c"]));
    assert_eq!(texts(&out), vec!["a", "b", "c"]);
    let out = dedup(names(&["a", "b", "a", "a", "b"]));
    assert_eq!(texts(&out), vec!["a", "b", "a", "b"]);
    assert_eq!(dedup(Vec::new()), Vec::<Vec<char>>::new());
    assert_eq!(texts(&dedup(names(&["x"]))), vec!["x"]);
}

#[test]
fn dedup_agrees_with_the_standard_dedup() {
    let items = ["a", "a", "A", "a", "b", "b", "", "", "c"];
    let mut expected: Vec<String> = items.iter().map(|s| String::from(*s)).collect();
    expected.dedup();
    assert_eq!(texts(&dedup(names(&items))), expected);
}

#[test]
fn sorted_distinct_is_strictly_ascending() {
    let out = sorted_distinct(names(&["b.com", "a.com", "b.com", "c.com", "a.com", "a.com"]));
    assert_eq!(texts(&out), vec!["a.com", "b.com", "c.com"]);
    for i in 1..out.len() {
        assert!(less(&out[i - 1], &out[i]));
    }
}

#[test]
fn sorted_distinct_does_not_merge_different_case() {
    let out = sorted_distinct(names(&["a.com", "A.com", "a.com"]));
    assert_eq!(texts(&out), vec!["A.com", "a.com"]);
}
