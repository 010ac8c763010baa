use worldtree::serial::{generate_serial, next_serial_str, serial_lt};
use worldtree::types::WTLine;

fn line(id: i64, sn: &str, project_id: i64) -> WTLine {
    WTLine { id, sn: sn.to_string(), project_id, content: String::new(), position: None, node_id: 1 }
}

#[test]
fn next_serial_increments_last_digit() {
    assert_eq!(next_serial_str("aaaa"), "aaab");
}

#[test]
fn next_serial_rolls_lower_to_upper() {
    assert_eq!(next_serial_str("aaaz"), "aaaA");
}

#[test]
fn next_serial_rolls_upper_to_number() {
    assert_eq!(next_serial_str("aaaZ"), "aaa0");
}

#[test]
fn next_serial_full_rollover_grows() {
    assert_eq!(next_serial_str("9999"), "aaaaa");
}

#[test]
fn next_serial_carries_left() {
    assert_eq!(next_serial_str("aa99"), "abaa");
    assert_eq!(next_serial_str("az99"), "aAaa");
}

#[test]
fn next_serial_has_minimum_width_four() {
    assert_eq!(next_serial_str(""), "aaaa");
    assert_eq!(next_serial_str("9"), "aaaa");
    assert_eq!(next_serial_str("999"), "aaaa");
}

#[test]
fn next_serial_grows_long_serials() {
    assert_eq!(next_serial_str("99999999"), "aaaaaaaaa");
}

#[test]
fn next_serial_skips_other_characters() {
    assert_eq!(next_serial_str("a-9"), "b-a");
    assert_eq!(next_serial_str("ab-"), "ac-");
}

#[test]
fn serial_order_is_length_then_value() {
    let a: Vec<char> = "zzzz".chars().collect();
    let b: Vec<char> = "aaaaa".chars().collect();
    let c: Vec<char> = "aaab".chars().collect();
    let d: Vec<char> = "aaaA".chars().collect();
    assert!(serial_lt(&a, &b));
    assert!(!serial_lt(&b, &a));
    assert!(serial_lt(&c, &a));
    assert!(serial_lt(&c, &d));
    assert!(!serial_lt(&d, &c));
    assert!(!serial_lt(&a, &a));
}

#[test]
fn serial_order_follows_the_alphabet() {
    let chars = |s: &str| s.chars().collect::<Vec<char>>();
    assert!(serial_lt(&chars("aaaz"), &chars("aaaA")));
    assert!(serial_lt(&chars("aaaZ"), &chars("aaa0")));
    assert!(serial_lt(&chars("aaa9"), &chars("aaba")));
    assert!(serial_lt(&chars("aaa9"), &chars("aaa-")));
    assert!(serial_lt(&chars("aaa-"), &chars("aaa~")));
}

#[test]
fn each_serial_comes_before_its_successor() {
    let mut sn = String::new();
    for _ in 0..200 {
        let next = next_serial_str(&sn);
        let (a, b): (Vec<char>, Vec<char>) = (sn.chars().collect(), next.chars().collect());
        assert!(serial_lt(&a, &b));
        sn = next;
    }
    assert_eq!(sn, "aadn");
}

#[test]
fn generate_serial_never_repeats_a_serial() {
    let mut lines: Vec<WTLine> = Vec::new();
    for id in 1..=130 {
        let sn = generate_serial(&lines, 1);
        assert!(lines.iter().all(|l| l.sn != sn));
        lines.push(line(id, &sn, 1));
    }
    assert_eq!(lines[26].sn, "aaaA");
    assert_eq!(lines[52].sn, "aaa0");
    assert_eq!(lines[62].sn, "aaba");
    assert_eq!(lines[129].sn, "aacf");
}

#[test]
fn generate_serial_starts_at_aaaa() {
    let lines: Vec<WTLine> = Vec::new();
    assert_eq!(generate_serial(&lines, 1), "aaaa");
}

#[test]
fn generate_serial_follows_the_greatest_of_the_project() {
    let lines = vec![line(1, "aaab", 1), line(2, "aaaz", 1), line(3, "zzzz", 2), line(4, "aaac", 1)];
    assert_eq!(generate_serial(&lines, 1), "aaaA");
    assert_eq!(generate_serial(&lines, 2), "zzzA");
    assert_eq!(generate_serial(&lines, 3), "aaaa");
}

#[test]
fn generate_serial_reads_the_greatest_by_the_alphabet() {
    let lines = vec![line(1, "aaaz", 1), line(2, "aaaA", 1)];
    assert_eq!(generate_serial(&lines, 1), "aaaB");
    let lines = vec![line(1, "aaa9", 1), line(2, "aaaZ", 1)];
    assert_eq!(generate_serial(&lines, 1), "aaba");
}

#[test]
fn generate_serial_prefers_longer_serials() {
    let lines = vec![line(1, "9999", 1), line(2, "aaaaa", 1)];
    assert_eq!(generate_serial(&lines, 1), "aaaab");
}
