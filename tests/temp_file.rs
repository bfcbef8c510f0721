use rfind::temp_file::{snapshot_record, FindResult, Query, CHUNK_SIZE};

/// Runs a query to its end over `content`, answering each read from it.
/// Returns the matches and whether an error ended the query.
fn run(q: &mut Query, content: &[u8]) -> (Vec<String>, bool) {
    let mut all = Vec::new();
    let mut failed = false;
    while let Some((offset, len)) = q.next_read() {
        let start = (offset as usize).min(content.len());
        let end = (start + len).min(content.len());
        let (result, found) = q.find(&content[start..end]);
        all.extend(found);
        if let FindResult::Error(_) = result {
            failed = true;
        }
    }
    (all, failed)
}

fn query(pattern: &str, max: i32, chunk: usize) -> Query {
    Query::new(pattern, max, chunk).unwrap()
}

#[test]
fn record_split_across_reads_is_reported_once() {
    let content = b"apple\nbanana\ncherry";
    // The first read of ten bytes ends inside "banana".
    let mut q = query("an", -1, 10);
    let (found, failed) = run(&mut q, content);
    assert_eq!(found, vec!["banana".to_string()]);
    assert!(!failed);
    assert_eq!(q.found(), 1);
}

#[test]
fn split_record_steps() {
    let content = b"apple\nbanana\ncherry";
    let mut q = query("an", -1, 10);
    assert_eq!(q.next_read(), Some((0, 10)));
    let (r, found) = q.find(&content[0..10]);
    assert!(matches!(r, FindResult::Read));
    assert!(found.is_empty());
    // The cursor moved back to the start of "banana".
    assert_eq!(q.next_read(), Some((6, 10)));
    let (r, found) = q.find(&content[6..16]);
    assert!(matches!(r, FindResult::Read));
    assert_eq!(found, vec!["banana".to_string()]);
    assert_eq!(q.next_read(), Some((13, 10)));
    let (_, found) = q.find(&content[13..19]);
    assert!(found.is_empty());
    assert_eq!(q.next_read(), Some((19, 10)));
    let (r, found) = q.find(&content[19..19]);
    assert!(matches!(r, FindResult::Eof));
    assert!(found.is_empty());
    assert_eq!(q.next_read(), None);
}

#[test]
fn chunk_size_does_not_change_the_report() {
    let content = b"./a/main.rs\n./b\n./b/main.rs\n./c/lib.rs\n./main.rs";
    let expected = vec![
        "./a/main.rs".to_string(),
        "./b/main.rs".to_string(),
        "./main.rs".to_string(),
    ];
    for chunk in [1usize, 2, 3, 5, 7, 11, 64, CHUNK_SIZE] {
        let mut q = query("main", -1, chunk);
        let (found, failed) = run(&mut q, content);
        assert_eq!(found, expected, "chunk size {}", chunk);
        assert!(!failed);
    }
}

#[test]
fn refresh_repeats_the_same_report() {
    let content = b"x1\ny\nx2\nx3\n";
    let mut q = query("x", -1, 4);
    let first = run(&mut q, content);
    q.refresh();
    assert_eq!(q.found(), 0);
    let second = run(&mut q, content);
    assert_eq!(first, second);
    assert_eq!(first.0, vec!["x1".to_string(), "x2".to_string(), "x3".to_string()]);
}

#[test]
fn cap_bounds_the_report() {
    let content = b"a1\na2\na3\na4\na5\n";
    let mut q = query("a", 2, 4);
    let (found, _) = run(&mut q, content);
    assert_eq!(found, vec!["a1".to_string(), "a2".to_string()]);
    assert_eq!(q.found(), 2);

    let mut q = query("a", 0, 4);
    assert_eq!(q.next_read(), None);
    let (found, _) = run(&mut q, content);
    assert!(found.is_empty());

    let mut q = query("a", -1, 4);
    let (found, _) = run(&mut q, content);
    assert_eq!(found.len(), 5);

    let mut q = query("a", 5, CHUNK_SIZE);
    let (found, _) = run(&mut q, content);
    assert_eq!(found.len(), 5);
}

#[test]
fn empty_snapshot_ends_at_once() {
    let mut q = query("anything", 10, CHUNK_SIZE);
    assert_eq!(q.next_read(), Some((0, CHUNK_SIZE)));
    let (r, found) = q.find(&[]);
    assert!(matches!(r, FindResult::Eof));
    assert!(found.is_empty());
    assert_eq!(q.found(), 0);
    assert_eq!(q.next_read(), None);
}

#[test]
fn record_longer_than_a_chunk() {
    let content = b"abcdefgh\nxyz\n";
    let mut q = query("def", -1, 2);
    let (found, failed) = run(&mut q, content);
    assert_eq!(found, vec!["abcdefgh".to_string()]);
    assert!(!failed);
}

#[test]
fn record_that_is_not_text_stops_the_query() {
    let content: &[u8] = &[b'a', b'\n', 0xff, 0xfe, b'\n', b'a', b'b', b'\n'];
    let mut q = query("a", -1, 64);
    let (found, failed) = run(&mut q, content);
    assert!(found.is_empty());
    assert!(failed);
}

#[test]
fn bad_record_in_a_later_read_keeps_earlier_matches() {
    let content: &[u8] = &[b'a', b'\n', b'b', b'\n', 0xff, b'\n', b'a', b'\n'];
    let mut q = query("a", -1, 4);
    let (found, failed) = run(&mut q, content);
    assert_eq!(found, vec!["a".to_string()]);
    assert!(failed);
}

#[test]
fn end_of_data_is_repeated() {
    let mut q = query("a", -1, 8);
    let (r, found) = q.find(b"a\n");
    assert!(matches!(r, FindResult::Read));
    assert_eq!(found, vec!["a".to_string()]);
    let (r, found) = q.find(&[]);
    assert!(matches!(r, FindResult::Eof));
    assert!(found.is_empty());
    let (r, found) = q.find(&[]);
    assert!(matches!(r, FindResult::Eof));
    assert!(found.is_empty());
    assert_eq!(q.found(), 1);
    assert_eq!(q.next_read(), None);
}

#[test]
fn multibyte_character_cut_by_a_read_is_read_whole() {
    let content = "ünï\nçödé\n".as_bytes();
    for chunk in 1..=content.len() {
        let mut q = query("ö", -1, chunk);
        let (found, failed) = run(&mut q, content);
        assert_eq!(found, vec!["çödé".to_string()]);
        assert!(!failed);
    }
}

#[test]
fn empty_lines_are_records() {
    let content = b"\n\nx\n";
    let mut q = query("^$", -1, 3);
    let (found, _) = run(&mut q, content);
    assert_eq!(found, vec![String::new(), String::new()]);
}

#[test]
fn refused_pattern_gives_no_query() {
    assert!(Query::new("(", 10, CHUNK_SIZE).is_err());
}

#[test]
fn stop_ends_the_query() {
    let mut q = query("a", -1, 4);
    q.stop();
    assert_eq!(q.next_read(), None);
}

#[test]
fn snapshot_record_ends_with_newline() {
    assert_eq!(snapshot_record("./a/b"), b"./a/b\n".to_vec());
    assert_eq!(snapshot_record(""), b"\n".to_vec());
    assert_eq!(snapshot_record("ä"), vec![0xc3, 0xa4, b'\n']);
}

#[test]
fn query_over_written_snapshot_reports_matching_paths() {
    let paths = ["./src", "./src/main.rs", "./src/lib.rs", "./Cargo.toml", "./main.rs.bak"];
    let mut snapshot = Vec::new();
    for p in paths {
        snapshot.extend_from_slice(&snapshot_record(p));
    }
    for chunk in [1usize, 4, 9, CHUNK_SIZE] {
        let mut q = query("main\\.rs", -1, chunk);
        let (found, failed) = run(&mut q, &snapshot);
        assert_eq!(found, vec!["./src/main.rs".to_string(), "./main.rs.bak".to_string()]);
        assert!(!failed);
    }
}
