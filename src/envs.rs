//! The configuration of a run, read from the command-line words.
use vstd::prelude::*;
use vstd::string::StringExecFns;
use crate::text::{
    chars_of, i32_of, is_prefix, parse_i32, push_char, starts_with, string_of, trim, trimmed,
};

verus! {

/// The bound on reported matches when none is given or it cannot be read.
pub const DEFAULT_MAX_OUTPUT_LINES: i32 = 10;

/// `--line=`: sets the bound on reported matches.
pub open spec fn line_flag() -> Seq<char> {
    seq!['-', '-', 'l', 'i', 'n', 'e', '=']
}

/// `--path=`: sets the start path.
pub open spec fn path_flag() -> Seq<char> {
    seq!['-', '-', 'p', 'a', 't', 'h', '=']
}

/// `-p`: the start of the short path flag.
pub open spec fn short_flag() -> Seq<char> {
    seq!['-', 'p']
}

/// `-p=`: sets the start path.
pub open spec fn short_path_flag() -> Seq<char> {
    seq!['-', 'p', '=']
}

/// `s` with each backslash turned into a slash.
pub open spec fn forward_slashes(s: Seq<char>) -> Seq<char> {
    s.map_values(|c: char| if c == '\\' { '/' } else { c })
}

/// What the words `ws` set, read in order: the pattern words, each followed
/// by a space; the bound on reported matches; and the start path.
/// `--line=N` sets the bound (the default when `N` is not an `i32`),
/// `--path=P` and `-p=P` set the start path, other words starting with `-p`
/// are passed over, and any other word is part of the pattern.
pub open spec fn options(ws: Seq<Seq<char>>, cwd: Seq<char>) -> (Seq<char>, int, Seq<char>)
    decreases ws.len(),
{
    if ws.len() == 0 {
        (seq![], DEFAULT_MAX_OUTPUT_LINES as int, forward_slashes(cwd))
    } else {
        let st = options(ws.drop_last(), cwd);
        let w = ws.last();
        if is_prefix(line_flag(), w) {
            (
                st.0,
                match i32_of(w.skip(7)) {
                    Some(x) => x,
                    None => DEFAULT_MAX_OUTPUT_LINES as int,
                },
                st.2,
            )
        } else if is_prefix(path_flag(), w) {
            (st.0, st.1, w.skip(7))
        } else if is_prefix(short_flag(), w) {
            if is_prefix(short_path_flag(), w) {
                (st.0, st.1, w.skip(3))
            } else {
                st
            }
        } else {
            (st.0 + w + seq![' '], st.1, st.2)
        }
    }
}

/// The words after the program's name.
pub open spec fn arguments(ws: Seq<Seq<char>>) -> Seq<Seq<char>> {
    if ws.len() == 0 {
        ws
    } else {
        ws.skip(1)
    }
}

/// The configuration: the pattern, the bound on reported matches (negative
/// for none), whether to run interactively, and the directory to walk.
pub struct Envs {
    pub pattern: String,
    pub max_output_lines: i32,
    pub interactive: bool,
    pub start_path: String,
}

/// The path with each backslash turned into a slash.
fn with_forward_slashes(s: &str) -> (r: String)
    ensures
        r@ == forward_slashes(s@),
{
    let v = chars_of(s);
    let mut r = String::new();
    let mut i: usize = 0;
    while i < v.len()
        invariant
            i <= v@.len(),
            v@ == s@,
            r@ == forward_slashes(s@).take(i as int),
        decreases v.len() - i,
    {
        let c = if v[i] == '\\' {
            '/'
        } else {
            v[i]
        };
        push_char(&mut r, c);
        assert(r@ == forward_slashes(s@).take(i + 1));
        i = i + 1;
    }
    assert(forward_slashes(s@).take(v.len() as int) == forward_slashes(s@));
    r
}

impl Envs {
    /// Reads the words of a command line; the first word, the program's name,
    /// is passed over. The start path defaults to `current_dir`; the run is
    /// interactive when the pattern is empty.
    pub fn new(words: &Vec<String>, current_dir: &str) -> (r: Envs)
        ensures
            ({
                let ws = words@.map_values(|w: String| w@);
                let st = options(arguments(ws), current_dir@);
                &&& r.pattern@ == trim(st.0)
                &&& r.max_output_lines as int == st.1
                &&& r.start_path@ == st.2
                &&& r.interactive == (trim(st.0).len() == 0)
            }),
    {
        let ghost ws = words@.map_values(|w: String| w@);
        let mut joined = String::new();
        let mut max_output_lines: i32 = DEFAULT_MAX_OUTPUT_LINES;
        let mut start_path = with_forward_slashes(current_dir);
        let first: usize = if words.len() == 0 {
            0
        } else {
            1
        };
        let mut i: usize = first;
        assert(ws.subrange(first as int, i as int) =~= Seq::<Seq<char>>::empty());
        while i < words.len()
            invariant
                first <= i <= words@.len(),
                first == 0 ==> words@.len() == 0,
                first <= 1,
                ws == words@.map_values(|w: String| w@),
                ({
                    let st = options(ws.subrange(first as int, i as int), current_dir@);
                    &&& joined@ == st.0
                    &&& max_output_lines as int == st.1
                    &&& start_path@ == st.2
                }),
            decreases words.len() - i,
        {
            proof {
                reveal_strlit("--line=");
                reveal_strlit("--path=");
                reveal_strlit("-p");
                reveal_strlit("-p=");
                reveal_strlit(" ");
            }
            assert("--line="@ == line_flag());
            assert("--path="@ == path_flag());
            assert("-p"@ == short_flag());
            assert("-p="@ == short_path_flag());
            assert(" "@ == seq![' ']);
            assert(ws.subrange(first as int, i + 1).drop_last() == ws.subrange(first as int, i as int));
            assert(ws.subrange(first as int, i + 1).last() == words@[i as int]@);
            let w = chars_of(words[i].as_str());
            if starts_with(&w, "--line=") {
                max_output_lines = match parse_i32(&w, 7) {
                    Some(x) => x,
                    None => DEFAULT_MAX_OUTPUT_LINES,
                };
            } else if starts_with(&w, "--path=") {
                start_path = string_of(&w, 7, w.len());
                assert(w@.subrange(7, w@.len() as int) == w@.skip(7));
            } else if starts_with(&w, "-p") {
                if starts_with(&w, "-p=") {
                    start_path = string_of(&w, 3, w.len());
                    assert(w@.subrange(3, w@.len() as int) == w@.skip(3));
                }
            } else {
                joined.append(words[i].as_str());
                joined.append(" ");
            }
            i = i + 1;
        }
        assert(ws.subrange(first as int, words.len() as int) == arguments(ws));
        let jc = chars_of(joined.as_str());
        let pattern = trimmed(&jc);
        let interactive = pattern.as_str().is_empty();
        Envs { pattern, max_output_lines, interactive, start_path }
    }
}

} // verus!
