use rfind::regex_helper::{translate_glob, RegexHelper};

fn lines(ls: &[&str]) -> Vec<String> {
    ls.iter().map(|l| l.to_string()).collect()
}

#[test]
fn check_gitignore() {
    let ignore = RegexHelper::from_gitignore(&lines(&["/target", "local_data"]));

    assert!(ignore.check("haha/target"));
    assert!(ignore.check("hihi/target"));
    assert!(ignore.check("/local_data"));
    assert!(ignore.check("123/local_data"));
    assert!(ignore.check("123/local_data/1234"));
    assert!(!ignore.check("123/1234"));
}

#[test]
fn check_from_string() {
    let ignore = match RegexHelper::from_string(".*some") {
        Ok(i) => i,
        Err(err) => {
            assert_eq!(err, "");
            return;
        }
    };

    assert!(ignore.check("haha/some"));
    assert!(ignore.check("asdgoasogaosomesome"));
    assert!(!ignore.check("soahasme"));
}

#[test]
fn bad_pattern_is_refused_with_a_message() {
    let r = RegexHelper::from_string("foo(bar");
    match r {
        Ok(_) => panic!("an unclosed group must be refused"),
        Err(msg) => assert!(msg.contains("unclosed group")),
    }
}

#[test]
fn glob_translation() {
    assert_eq!(translate_glob("*.rs"), "[^/]*\\.rs");
    assert_eq!(translate_glob("**/x"), ".*/x");
    assert_eq!(translate_glob("a?c"), "a.c");
    assert_eq!(translate_glob("***"), ".*[^/]*");
    assert_eq!(translate_glob("plain"), "plain");
    assert_eq!(translate_glob(""), "");
}

#[test]
fn glob_star_stops_at_separator() {
    let ignore = RegexHelper::from_gitignore(&lines(&["^a*b$"]));
    assert!(ignore.check("axxb"));
    assert!(!ignore.check("ax/xb"));
    let deep = RegexHelper::from_gitignore(&lines(&["^a**b$"]));
    assert!(deep.check("ax/xb"));
}

#[test]
fn glob_dot_is_literal() {
    let ignore = RegexHelper::from_gitignore(&lines(&["x.txt"]));
    assert!(ignore.check("./a/x.txt"));
    assert!(!ignore.check("./a/xatxt"));
}

#[test]
fn empty_and_broken_lines_give_no_rule() {
    let ignore = RegexHelper::from_gitignore(&lines(&["", "foo("]));
    assert!(!ignore.check("anything"));
    assert!(!ignore.check("foo("));
    assert!(!ignore.is_empty());
    assert!(ignore.check("./a/.git"));
}

#[test]
fn version_control_directory_is_always_hidden() {
    let ignore = RegexHelper::from_gitignore(&Vec::new());
    assert!(ignore.check("./a/.git"));
    assert!(ignore.check("./a/.git/HEAD"));
    assert!(ignore.check(".git"));
    assert!(!ignore.is_empty());
    assert!(!ignore.check("./a/digit"));
    assert!(!ignore.check("./a/.gitignore"));
}

#[test]
fn empty_matcher_matches_nothing() {
    let m = RegexHelper::new();
    assert!(m.is_empty());
    assert!(!m.check(""));
    assert!(!m.check("abc"));
}

#[test]
fn matcher_finds_anywhere() {
    let m = RegexHelper::from_string("main.rs").unwrap();
    assert!(!m.is_empty());
    assert!(m.check("./src/main.rs"));
    assert!(!m.check("./src/lib.rs"));
}
