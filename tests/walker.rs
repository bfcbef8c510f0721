use std::collections::HashMap;

use rfind::envs::Envs;
use rfind::regex_helper::RegexHelper;
use rfind::walker::{DirEntry, EntryKind, WalkStep, Walker};

/// A directory tree held in memory: each directory path maps to its entries.
struct Tree {
    dirs: HashMap<String, Vec<(String, EntryKind)>>,
    ignore_files: HashMap<String, Vec<String>>,
}

impl Tree {
    fn new() -> Tree {
        Tree { dirs: HashMap::new(), ignore_files: HashMap::new() }
    }

    fn dir(mut self, path: &str, entries: &[(&str, EntryKind)]) -> Tree {
        self.dirs.insert(
            path.to_string(),
            entries.iter().map(|(n, k)| (n.to_string(), *k)).collect(),
        );
        self
    }

    fn listing(&self, path: &str) -> Option<Vec<DirEntry>> {
        self.dirs.get(path).map(|es| {
            es.iter().map(|(n, k)| DirEntry { name: n.clone(), kind: *k }).collect()
        })
    }
}

/// Runs a walk over `tree`; returns the entries handed out and the
/// directories listed, in order.
fn walk(tree: &Tree, root: &str, ignore: RegexHelper) -> (Vec<(String, bool)>, Vec<String>) {
    let mut w = Walker::start(root, ignore);
    let mut found = Vec::new();
    let mut listed = Vec::new();
    loop {
        match w.next() {
            WalkStep::LoadIgnore(p) => w.ignore_loaded(tree.ignore_files.get(&p).cloned()),
            WalkStep::List(d) => {
                listed.push(d.clone());
                w.listed(tree.listing(&d));
            }
            WalkStep::Found(p, is_dir) => found.push((p, is_dir)),
            WalkStep::Done => break,
        }
    }
    (found, listed)
}

fn project() -> Tree {
    Tree::new()
        .dir(".", &[("src", EntryKind::Directory), ("Cargo.toml", EntryKind::File)])
        .dir("./src", &[("main.rs", EntryKind::File), ("lib.rs", EntryKind::File)])
}

#[test]
fn simple_walk() {
    let tree = Tree::new()
        .dir("..", &[("file", EntryKind::Directory)])
        .dir("../file", &[("src", EntryKind::Directory)])
        .dir("../file/src", &[("main.rs", EntryKind::File)]);
    let ignore = RegexHelper::new();
    let search = RegexHelper::from_string("main.rs").unwrap();
    let (found, _) = walk(&tree, "..", ignore);
    let has_been_found = found.iter().any(|(name, _)| search.check(name));
    assert!(has_been_found);
}

#[test]
fn search_pattern() {
    let words = vec![
        r".\projects\file\file\target\release\file.exe".to_string(),
        r"main.rs".to_string(),
        r"--path=.".to_string(),
    ];
    let env = Envs::new(&words, "/somewhere");
    let checker = RegexHelper::from_string(&env.pattern).unwrap();
    let ignore = RegexHelper::default();
    let (found, _) = walk(&project(), &env.start_path, ignore);
    let mut has_been_found = false;
    for (file, _) in found {
        if checker.check(&file) {
            assert_eq!(file, r"./src/main.rs".to_string());
            has_been_found = true;
        }
    }
    assert!(has_been_found);
}

#[test]
fn ignored_directory_is_never_entered() {
    let tree = Tree::new()
        .dir(".", &[("a", EntryKind::Directory)])
        .dir("./a", &[("b", EntryKind::Directory), (".git", EntryKind::Directory)])
        .dir("./a/b", &[("x.txt", EntryKind::File)])
        .dir("./a/.git", &[("HEAD", EntryKind::File)]);
    let ignore = RegexHelper::from_string(".git").unwrap();
    let pattern = RegexHelper::from_string("x.txt").unwrap();
    let (found, listed) = walk(&tree, ".", ignore);
    let matched: Vec<String> =
        found.iter().filter(|(p, _)| pattern.check(p)).map(|(p, _)| p.clone()).collect();
    assert_eq!(matched, vec!["./a/b/x.txt".to_string()]);
    assert!(!listed.iter().any(|d| d.contains(".git")));
    assert!(!found.iter().any(|(p, _)| p.contains(".git")));
}

#[test]
fn walk_is_depth_first_and_hands_out_every_entry() {
    let (found, listed) = walk(&project(), ".", RegexHelper::from_string("^$").unwrap());
    assert_eq!(
        found,
        vec![
            ("./src".to_string(), true),
            ("./src/main.rs".to_string(), false),
            ("./src/lib.rs".to_string(), false),
            ("./Cargo.toml".to_string(), false),
        ]
    );
    assert_eq!(listed, vec![".".to_string(), "./src".to_string()]);
}

#[test]
fn empty_root_gives_nothing() {
    let tree = Tree::new().dir("/empty", &[]);
    let (found, listed) = walk(&tree, "/empty", RegexHelper::from_string("x").unwrap());
    assert!(found.is_empty());
    assert_eq!(listed, vec!["/empty".to_string()]);
}

#[test]
fn unreadable_directory_is_skipped() {
    let tree = Tree::new()
        .dir(".", &[("locked", EntryKind::Directory), ("open", EntryKind::Directory)])
        .dir("./open", &[("f", EntryKind::File)]);
    let (found, _) = walk(&tree, ".", RegexHelper::from_string("^$").unwrap());
    assert_eq!(
        found,
        vec![
            ("./locked".to_string(), true),
            ("./open".to_string(), true),
            ("./open/f".to_string(), false),
        ]
    );
}

#[test]
fn other_entries_are_not_handed_out() {
    let tree = Tree::new().dir(".", &[("link", EntryKind::Other), ("f", EntryKind::File)]);
    let (found, listed) = walk(&tree, ".", RegexHelper::from_string("^$").unwrap());
    assert_eq!(found, vec![("./f".to_string(), false)]);
    assert_eq!(listed, vec![".".to_string()]);
}

#[test]
fn empty_rules_load_the_root_ignore_file() {
    let mut tree = Tree::new()
        .dir(".", &[("target", EntryKind::Directory), ("src", EntryKind::Directory), (".git", EntryKind::Directory)])
        .dir("./target", &[("out", EntryKind::File)])
        .dir("./src", &[("main.rs", EntryKind::File)])
        .dir("./.git", &[("HEAD", EntryKind::File)]);
    tree.ignore_files.insert("./.gitignore".to_string(), vec!["target".to_string()]);
    let (found, listed) = walk(&tree, ".", RegexHelper::new());
    assert_eq!(
        found,
        vec![("./src".to_string(), true), ("./src/main.rs".to_string(), false)]
    );
    assert_eq!(listed, vec![".".to_string(), "./src".to_string()]);
}

#[test]
fn missing_ignore_file_hides_nothing() {
    let tree = Tree::new().dir(".", &[(".git", EntryKind::Directory)]).dir("./.git", &[]);
    let (found, _) = walk(&tree, ".", RegexHelper::new());
    assert_eq!(found, vec![("./.git".to_string(), true)]);
}

#[test]
fn first_step_asks_for_the_ignore_file() {
    let mut w = Walker::start(".", RegexHelper::new());
    match w.next() {
        WalkStep::LoadIgnore(p) => assert_eq!(p, "./.gitignore"),
        _ => panic!("the ignore file comes first"),
    }
    w.ignore_loaded(None);
    match w.next() {
        WalkStep::List(d) => assert_eq!(d, "."),
        _ => panic!("the root is listed next"),
    }
}

#[test]
fn new_walker_is_done() {
    let mut w = Walker::new();
    assert!(matches!(w.next(), WalkStep::Done));
}

#[test]
fn temp_file_find() {
    let words = vec![r".\target\release\file.exe".to_string(), r"main.rs".to_string()];
    let env = Envs::new(&words, ".");
    let tree = Tree::new()
        .dir(
            ".",
            &[
                ("src", EntryKind::Directory),
                ("Cargo.toml", EntryKind::File),
                ("Cargo.lock", EntryKind::File),
            ],
        )
        .dir("./src", &[("main.rs", EntryKind::File)]);
    // The snapshot holds one path per line, as the interactive mode writes it.
    let (found, _) = walk(&tree, &env.start_path, RegexHelper::new());
    let mut snapshot = Vec::new();
    for (path, _) in &found {
        snapshot.extend_from_slice(&rfind::temp_file::snapshot_record(path));
    }
    let mut file = rfind::temp_file::Query::new("Cargo.lock", env.max_output_lines, 8).unwrap();
    let mut has_been_found = false;
    while let Some((offset, len)) = file.next_read() {
        let start = (offset as usize).min(snapshot.len());
        let end = (start + len).min(snapshot.len());
        let (find_result, hits) = file.find(&snapshot[start..end]);
        if !hits.is_empty() {
            has_been_found = true;
        }
        match find_result {
            rfind::temp_file::FindResult::Error(err) => assert_eq!(err, "".to_string()),
            rfind::temp_file::FindResult::Read => {}
            rfind::temp_file::FindResult::Eof => break,
        }
    }
    assert!(has_been_found)
}

#[test]
fn empty_root_steps_to_done() {
    let mut w = Walker::start("/empty", RegexHelper::from_string("x").unwrap());
    match w.next() {
        WalkStep::List(d) => assert_eq!(d, "/empty"),
        _ => panic!("the root is listed first"),
    }
    w.listed(Some(Vec::new()));
    assert!(matches!(w.next(), WalkStep::Done));
    assert!(matches!(w.next(), WalkStep::Done));
}

#[test]
fn nested_ignore_files_are_not_read() {
    let mut tree = Tree::new()
        .dir(".", &[("s", EntryKind::Directory)])
        .dir("./s", &[("target", EntryKind::File)]);
    tree.ignore_files.insert("./s/.gitignore".to_string(), vec!["target".to_string()]);
    let (found, _) = walk(&tree, ".", RegexHelper::new());
    assert_eq!(found, vec![("./s".to_string(), true), ("./s/target".to_string(), false)]);
}
