use worldtree::logger::is_enabled;
use worldtree::text::{join_words, parse_number, split_lines, starts_with, text_eq};
use worldtree::types::{parse_action, parse_level, Action, ChangeRow, Level, WTNodeChange};

#[test]
fn split_lines_of_empty_text_is_empty() {
    assert_eq!(split_lines(""), Vec::<String>::new());
}

#[test]
fn split_lines_keeps_empty_pieces() {
    assert_eq!(split_lines("a"), vec!["a".to_string()]);
    assert_eq!(split_lines("a\nb"), vec!["a".to_string(), "b".to_string()]);
    assert_eq!(split_lines("a\n"), vec!["a".to_string(), String::new()]);
    assert_eq!(split_lines("\n"), vec![String::new(), String::new()]);
    assert_eq!(split_lines("a\n\nb"), vec!["a".to_string(), String::new(), "b".to_string()]);
}

#[test]
fn split_lines_handles_wide_characters() {
    assert_eq!(split_lines("héllo\n世界"), vec!["héllo".to_string(), "世界".to_string()]);
}

#[test]
fn parse_number_reads_signed_decimals() {
    assert_eq!(parse_number("0"), Some(0));
    assert_eq!(parse_number("42"), Some(42));
    assert_eq!(parse_number("+7"), Some(7));
    assert_eq!(parse_number("-7"), Some(-7));
    assert_eq!(parse_number("007"), Some(7));
    assert_eq!(parse_number("9223372036854775807"), Some(i64::MAX));
    assert_eq!(parse_number("-9223372036854775808"), Some(i64::MIN));
}

#[test]
fn parse_number_refuses_other_texts() {
    assert_eq!(parse_number(""), None);
    assert_eq!(parse_number("-"), None);
    assert_eq!(parse_number("+"), None);
    assert_eq!(parse_number(" 1"), None);
    assert_eq!(parse_number("1 "), None);
    assert_eq!(parse_number("1a"), None);
    assert_eq!(parse_number("--1"), None);
    assert_eq!(parse_number("9223372036854775808"), None);
    assert_eq!(parse_number("-9223372036854775809"), None);
    assert_eq!(parse_number("99999999999999999999999999"), None);
}

#[test]
fn parse_number_agrees_with_std() {
    for text in ["12", "-0", "+0", "1_0", "0x10", "٣", "18446744073709551616"] {
        assert_eq!(parse_number(text), text.parse::<i64>().ok());
    }
}

#[test]
fn join_words_puts_the_separator_between() {
    assert_eq!(join_words(&vec![], '@'), "");
    assert_eq!(join_words(&vec!["a".to_string()], '@'), "a");
    assert_eq!(join_words(&vec!["a".to_string(), "b".to_string(), String::new()], '@'), "a@b@");
}

#[test]
fn text_eq_and_prefix() {
    assert!(text_eq("abc", "abc"));
    assert!(!text_eq("abc", "abd"));
    assert!(!text_eq("abc", "ab"));
    assert!(starts_with("SYS_PRE", "SYS_"));
    assert!(!starts_with("SYS", "SYS_"));
    assert!(!starts_with("sys_pre", "SYS_"));
    assert!(starts_with("x", ""));
}

#[test]
fn tags_are_decoded() {
    assert_eq!(parse_action("add"), Action::Add);
    assert_eq!(parse_action("del"), Action::Del);
    assert_eq!(parse_action("delete"), Action::Unknown);
    assert_eq!(parse_level("folder"), Level::Folder);
    assert_eq!(parse_level("card"), Level::Card);
    assert_eq!(parse_level("block"), Level::Block);
    assert_eq!(parse_level("line"), Level::Line);
    assert_eq!(parse_level("node"), Level::Unknown);
}

#[test]
fn change_records_convert_both_ways() {
    let record = WTNodeChange {
        id: 5,
        action: "del".to_string(),
        level: "line".to_string(),
        node_id: 2,
        target: Some(3),
        detail_folder: None,
        detail_card: None,
        detail_block: None,
        detail_line: None,
    };
    let row: ChangeRow = record.to_row();
    assert_eq!(row.action, Action::Del);
    assert_eq!(row.level, Level::Line);
    assert_eq!(row.target, Some(3));
    assert_eq!(row.to_change(), record);
}

#[test]
fn logging_needs_d_and_no_b() {
    let args = |v: &[&str]| v.iter().map(|s| s.to_string()).collect::<Vec<String>>();
    assert!(is_enabled(&args(&["app", "-d"])));
    assert!(!is_enabled(&args(&["app"])));
    assert!(!is_enabled(&args(&["app", "-d", "-b"])));
    assert!(!is_enabled(&args(&["app", "-b"])));
    assert!(!is_enabled(&args(&["app", "-debug"])));
}
