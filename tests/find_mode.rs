use rfind::find_mode::FindMode;

#[test]
fn summary_of_no_match_is_empty() {
    assert_eq!(FindMode::summary(0), "");
}

#[test]
fn summary_counts_matches() {
    assert_eq!(FindMode::summary(1), "found 1");
    assert_eq!(FindMode::summary(12), "found 12");
    assert_eq!(FindMode::summary(1000), "found 1000");
    assert_eq!(FindMode::summary(u64::MAX), "found 18446744073709551615");
}

#[test]
fn leaving_commands() {
    assert_eq!(FindMode::command("q\n"), None);
    assert_eq!(FindMode::command("quit\n"), None);
    assert_eq!(FindMode::command("exit\n"), None);
}

#[test]
fn pattern_command_is_trimmed() {
    assert_eq!(FindMode::command("  main.rs \n"), Some("main.rs".to_string()));
    assert_eq!(FindMode::command("\n"), Some(String::new()));
    assert_eq!(FindMode::command("\u{3000}a b\t"), Some("a b".to_string()));
}
