use rfind::envs::Envs;

fn get_env_1() -> Vec<String> {
    vec![
        r".\projects\file\file\target\release\file.exe".to_string(),
        r"'some pattern .*".to_string(),
        r"--path=.\some\dir".to_string(),
        r"--line=11".to_string(),
    ]
}

#[test]
fn parsing_envs() {
    let words = get_env_1();

    let env = Envs::new(&words, "/home/user");

    assert_eq!(env.pattern, "'some pattern .*".to_string());
    assert_eq!(env.start_path, r".\some\dir".to_string());
    assert!(!env.interactive);
    assert_eq!(env.max_output_lines, 11);
}

fn words(ws: &[&str]) -> Vec<String> {
    ws.iter().map(|w| w.to_string()).collect()
}

#[test]
fn defaults_without_arguments() {
    let env = Envs::new(&words(&["prog"]), r"C:\work\dir");
    assert_eq!(env.pattern, "");
    assert!(env.interactive);
    assert_eq!(env.max_output_lines, 10);
    assert_eq!(env.start_path, "C:/work/dir");
}

#[test]
fn no_words_at_all() {
    let env = Envs::new(&Vec::new(), "/x");
    assert!(env.interactive);
    assert_eq!(env.start_path, "/x");
}

#[test]
fn pattern_words_are_joined() {
    let env = Envs::new(&words(&["prog", "a", "b", "-p=dir", "c"]), "/x");
    assert_eq!(env.pattern, "a b c");
    assert_eq!(env.start_path, "dir");
    assert!(!env.interactive);
}

#[test]
fn unreadable_line_count_falls_back() {
    let env = Envs::new(&words(&["prog", "x", "--line=abc"]), "/x");
    assert_eq!(env.max_output_lines, 10);
    let env = Envs::new(&words(&["prog", "x", "--line=99999999999"]), "/x");
    assert_eq!(env.max_output_lines, 10);
    let env = Envs::new(&words(&["prog", "x", "--line="]), "/x");
    assert_eq!(env.max_output_lines, 10);
}

#[test]
fn signed_line_counts() {
    let env = Envs::new(&words(&["prog", "x", "--line=-1"]), "/x");
    assert_eq!(env.max_output_lines, -1);
    let env = Envs::new(&words(&["prog", "x", "--line=+7"]), "/x");
    assert_eq!(env.max_output_lines, 7);
    let env = Envs::new(&words(&["prog", "x", "--line=-2147483648"]), "/x");
    assert_eq!(env.max_output_lines, i32::MIN);
    let env = Envs::new(&words(&["prog", "x", "--line=2147483647"]), "/x");
    assert_eq!(env.max_output_lines, i32::MAX);
    let env = Envs::new(&words(&["prog", "x", "--line=2147483648"]), "/x");
    assert_eq!(env.max_output_lines, 10);
}

#[test]
fn other_short_flags_are_passed_over() {
    let env = Envs::new(&words(&["prog", "-pz", "x"]), "/x");
    assert_eq!(env.pattern, "x");
    assert_eq!(env.start_path, "/x");
}
