//! The incremental scanner over a snapshot: a file that holds one path per
//! line. A query reads the snapshot in chunks from a cursor, reports each
//! complete record that matches, and moves the cursor back to the start of a
//! record that a chunk cut in two, so that it is read whole next time.
//! Records are decoded as UTF-8 one at a time, once complete, so a character
//! that a read cuts in two is never taken for bad text.
use vstd::prelude::*;
use vstd::string::StringExecFns;
use vstd::utf8::{decode_utf8, encode_utf8, valid_utf8};
use crate::regex_helper::{any_finds, RegexHelper};
use crate::text::decode_bytes;

verus! {

/// The byte that ends a record.
pub const NEWLINE: u8 = 10;

/// The size of one chunk read from the snapshot.
pub const CHUNK_SIZE: usize = 131072;

/// The length of the first line of `s`: the index of its first newline, or
/// the length of `s` when it holds none.
pub open spec fn line_len(s: Seq<u8>) -> nat
    decreases s.len(),
{
    if s.len() == 0 {
        0
    } else if s[0] == NEWLINE {
        0
    } else {
        1 + line_len(s.drop_first())
    }
}

/// The records of a snapshot: each line ended by a newline, then what follows
/// the last newline when that is not empty.
pub open spec fn records(s: Seq<u8>) -> Seq<Seq<u8>>
    decreases s.len(),
{
    if s.len() == 0 {
        seq![]
    } else {
        let e = line_len(s);
        if e >= s.len() {
            seq![s]
        } else {
            seq![s.take(e as int)] + records(s.skip(e + 1int))
        }
    }
}

/// The length of the longest prefix of `d` that ends with a newline (zero when
/// `d` holds none).
pub open spec fn complete_len(d: Seq<u8>) -> nat
    decreases d.len(),
{
    if d.len() == 0 {
        0
    } else if d.last() == NEWLINE {
        d.len()
    } else {
        complete_len(d.drop_last())
    }
}

/// How many matches a query may still report: a negative value is no bound.
pub open spec fn remaining_cap(max: int, found: nat) -> int {
    if max < 0 {
        -1
    } else {
        max - found
    }
}

/// The bound left after `n` more matches.
pub open spec fn cap_after(rem: int, n: nat) -> int {
    if rem < 0 {
        rem
    } else {
        rem - n
    }
}

/// Whether every record of `rs` is UTF-8 text.
pub open spec fn all_text(rs: Seq<Seq<u8>>) -> bool {
    forall|i: int| 0 <= i < rs.len() ==> valid_utf8(#[trigger] rs[i])
}

/// The decoded text of each record.
pub open spec fn texts_of(rs: Seq<Seq<u8>>) -> Seq<Seq<char>> {
    rs.map_values(|r: Seq<u8>| decode_utf8(r))
}

/// What a query reports from the lines `ts`, reporting at most `rem` matches
/// (no bound when `rem` is negative): each line that a pattern of `pats`
/// matches, in order.
pub open spec fn scan(ts: Seq<Seq<char>>, pats: Seq<Seq<char>>, rem: int) -> Seq<Seq<char>>
    decreases ts.len(),
{
    if ts.len() == 0 || rem == 0 {
        seq![]
    } else if any_finds(pats, ts[0]) {
        seq![ts[0]] + scan(ts.drop_first(), pats, cap_after(rem, 1))
    } else {
        scan(ts.drop_first(), pats, rem)
    }
}

proof fn lemma_line_len_is(s: Seq<u8>, m: int)
    requires
        0 <= m <= s.len(),
        forall|j: int| 0 <= j < m ==> s[j] != NEWLINE,
        m == s.len() || s[m] == NEWLINE,
    ensures
        line_len(s) == m,
    decreases m,
{
    if m > 0 {
        lemma_line_len_is(s.drop_first(), m - 1);
    }
}

proof fn lemma_line_len_bounds(s: Seq<u8>)
    ensures
        line_len(s) <= s.len(),
        forall|j: int| 0 <= j < line_len(s) ==> s[j] != NEWLINE,
        line_len(s) < s.len() ==> s[line_len(s) as int] == NEWLINE,
    decreases s.len(),
{
    if s.len() > 0 && s[0] != NEWLINE {
        lemma_line_len_bounds(s.drop_first());
        assert forall|j: int| 0 <= j < line_len(s) implies s[j] != NEWLINE by {
            if j > 0 {
                assert(s[j] == s.drop_first()[j - 1]);
            }
        }
    }
}

proof fn lemma_complete_len(d: Seq<u8>)
    ensures
        complete_len(d) <= d.len(),
        complete_len(d) == 0 || d[complete_len(d) - 1] == NEWLINE,
        forall|j: int| complete_len(d) <= j < d.len() ==> d[j] != NEWLINE,
    decreases d.len(),
{
    if d.len() > 0 && d.last() != NEWLINE {
        lemma_complete_len(d.drop_last());
        assert forall|j: int| complete_len(d) <= j < d.len() implies d[j] != NEWLINE by {
            if j < d.len() - 1 {
                assert(d[j] == d.drop_last()[j]);
            }
        }
    }
}

/// Records of a concatenation split where the first part ends a line.
proof fn lemma_records_concat(a: Seq<u8>, b: Seq<u8>)
    requires
        a.len() == 0 || a.last() == NEWLINE,
    ensures
        records(a + b) == records(a) + records(b),
    decreases a.len(),
{
    if a.len() == 0 {
        assert(a + b == b);
        assert(records(a) + records(b) == records(b));
    } else {
        lemma_line_len_bounds(a);
        let e = line_len(a);
        if e >= a.len() {
            assert(a[a.len() - 1] == NEWLINE);
            assert(false);
        }
        let ab = a + b;
        lemma_line_len_is(ab, e as int);
        assert(ab.take(e as int) == a.take(e as int));
        let a2 = a.skip(e + 1int);
        assert(ab.skip(e + 1int) == a2 + b);
        lemma_records_concat(a2, b);
        assert(records(a) == seq![a.take(e as int)] + records(a2));
        assert(records(ab) == seq![a.take(e as int)] + records(a2 + b));
        assert(records(ab) == records(a) + records(b));
    }
}

/// A scan over a concatenation is the scan of the first part, then the scan
/// of the second with the bound left.
proof fn lemma_scan_concat(a: Seq<Seq<char>>, b: Seq<Seq<char>>, pats: Seq<Seq<char>>, rem: int)
    ensures
        scan(a + b, pats, rem) == scan(a, pats, rem) + scan(
            b,
            pats,
            cap_after(rem, scan(a, pats, rem).len()),
        ),
    decreases a.len(),
{
    let r1 = scan(a, pats, rem);
    if a.len() == 0 {
        assert(a + b == b);
        assert(cap_after(rem, 0) == rem);
        assert(r1 + scan(b, pats, rem) == scan(b, pats, rem));
    } else if rem == 0 {
        assert(cap_after(rem, 0) == 0);
        if b.len() > 0 {
            assert((a + b).len() > 0);
        }
        assert(r1 + seq![] == r1);
    } else {
        assert((a + b)[0] == a[0]);
        assert((a + b).drop_first() == a.drop_first() + b);
        if any_finds(pats, a[0]) {
            lemma_scan_concat(a.drop_first(), b, pats, cap_after(rem, 1));
            let r = scan(a.drop_first(), pats, cap_after(rem, 1));
            assert(cap_after(cap_after(rem, 1), r.len()) == cap_after(rem, r1.len()));
            assert(seq![a[0]] + (r + scan(b, pats, cap_after(rem, r1.len()))) == (seq![a[0]] + r)
                + scan(b, pats, cap_after(rem, r1.len())));
        } else {
            lemma_scan_concat(a.drop_first(), b, pats, rem);
        }
    }
}

/// A scan bounded by `rem >= 0` reports at most `rem` matches, and never more
/// than there are lines.
proof fn lemma_scan_bound(ts: Seq<Seq<char>>, pats: Seq<Seq<char>>, rem: int)
    ensures
        scan(ts, pats, rem).len() <= ts.len(),
        rem >= 0 ==> scan(ts, pats, rem).len() <= rem,
    decreases ts.len(),
{
    if ts.len() > 0 && rem != 0 {
        if any_finds(pats, ts[0]) {
            lemma_scan_bound(ts.drop_first(), pats, cap_after(rem, 1));
        } else {
            lemma_scan_bound(ts.drop_first(), pats, rem);
        }
    }
}

/// Text and decoding split over a concatenation of records.
proof fn lemma_text_concat(a: Seq<Seq<u8>>, b: Seq<Seq<u8>>)
    ensures
        all_text(a + b) <==> all_text(a) && all_text(b),
        texts_of(a + b) == texts_of(a) + texts_of(b),
{
    assert(texts_of(a + b) =~= texts_of(a) + texts_of(b));
    if all_text(a + b) {
        assert forall|i: int| 0 <= i < a.len() implies valid_utf8(#[trigger] a[i]) by {
            assert((a + b)[i] == a[i]);
        }
        assert forall|i: int| 0 <= i < b.len() implies valid_utf8(#[trigger] b[i]) by {
            assert((a + b)[a.len() + i] == b[i]);
        }
    }
    if all_text(a) && all_text(b) {
        assert forall|i: int| 0 <= i < (a + b).len() implies valid_utf8(#[trigger] (a + b)[i]) by {
            if i < a.len() {
                assert((a + b)[i] == a[i]);
            } else {
                assert((a + b)[i] == b[i - a.len()]);
            }
        }
    }
}

/// A snapshot of `n` bytes holds at most `n` records.
proof fn lemma_records_count(s: Seq<u8>)
    ensures
        records(s).len() <= s.len(),
    decreases s.len(),
{
    if s.len() > 0 {
        lemma_line_len_bounds(s);
        let e = line_len(s);
        if e < s.len() {
            lemma_records_count(s.skip(e + 1int));
        }
    }
}

/// The outcome of one chunk read by a query.
pub enum FindResult {
    /// The chunk could not be used; the query stops.
    Error(String),
    /// A chunk was read; more data may follow.
    Read,
    /// Nothing was left to read at the cursor.
    Eof,
}

/// The abstract state of a query.
pub struct QueryView {
    /// The patterns that a record must match.
    pub pats: Seq<Seq<char>>,
    /// The largest number of matches to report; negative means no bound.
    pub max: int,
    /// The size of a read.
    pub chunk: nat,
    /// The offset of the next read: always the start of a record.
    pub cursor: nat,
    /// The length of the next read: one chunk, more while one record is
    /// longer than what was read.
    pub want: nat,
    /// The matches reported since the last refresh.
    pub found: nat,
    /// Whether the query is over.
    pub finished: bool,
}

/// The state of a query that has not read anything yet.
pub open spec fn query_start(pats: Seq<Seq<char>>, max: int, chunk: nat) -> QueryView {
    QueryView { pats, max, chunk, cursor: 0, want: chunk, found: 0, finished: max == 0 }
}

/// How far the cursor moves over a chunk `d` read with length `want`: to the
/// end of its last complete line, or to its end when it is shorter than
/// asked, which means the snapshot ends there.
pub open spec fn consumed(d: Seq<u8>, want: nat) -> nat {
    if d.len() < want {
        d.len()
    } else {
        complete_len(d)
    }
}

/// One step of a query that reads `d` at its cursor: the new state, the
/// matches it reports, and whether it stops on an error. Once the query is
/// over a step changes nothing. A chunk whose complete records are not all
/// UTF-8 text reports no match and ends the query.
pub open spec fn query_step(v: QueryView, d: Seq<u8>) -> (QueryView, Seq<Seq<char>>, bool) {
    if v.finished {
        (v, seq![], false)
    } else if d.len() == 0 {
        (QueryView { finished: true, ..v }, seq![], false)
    } else {
        let k = consumed(d, v.want);
        let rs = records(d.take(k as int));
        let bad = !all_text(rs);
        let out = if bad {
            seq![]
        } else {
            scan(texts_of(rs), v.pats, remaining_cap(v.max, v.found))
        };
        let found = v.found + out.len();
        let too_long = k == 0 && v.want + v.chunk > usize::MAX;
        (
            QueryView {
                cursor: v.cursor + k,
                want: if k == 0 && !too_long {
                    v.want + v.chunk
                } else if k == 0 {
                    v.want
                } else {
                    v.chunk
                },
                found,
                finished: bad || too_long || (v.max >= 0 && found >= v.max),
                ..v
            },
            out,
            bad || too_long,
        )
    }
}

/// The texts of a list of strings.
pub open spec fn texts(v: Seq<String>) -> Seq<Seq<char>> {
    v.map_values(|s: String| s@)
}

/// A query over a snapshot: the patterns, the bound on reported matches, and
/// the cursor into the snapshot. The caller reads the snapshot where
/// `next_read` says and hands the bytes to `find`.
pub struct Query {
    matcher: RegexHelper,
    max_output_lines: i32,
    chunk: usize,
    cursor: u64,
    want: usize,
    found: u64,
    finished: bool,
}

impl View for Query {
    type V = QueryView;

    closed spec fn view(&self) -> QueryView {
        QueryView {
            pats: self.matcher@.patterns,
            max: self.max_output_lines as int,
            chunk: self.chunk as nat,
            cursor: self.cursor as nat,
            want: self.want as nat,
            found: self.found as nat,
            finished: self.finished,
        }
    }
}

/// The index just past the last newline of `d`, or zero when it holds none.
fn complete_prefix_len(d: &[u8]) -> (k: usize)
    ensures
        k == complete_len(d@),
{
    let mut j: usize = d.len();
    assert(d@.take(j as int) == d@);
    while j > 0 && d[j - 1] != NEWLINE
        invariant
            j <= d@.len(),
            complete_len(d@) == complete_len(d@.take(j as int)),
        decreases j,
    {
        assert(d@.take(j as int).drop_last() == d@.take(j - 1));
        j = j - 1;
    }
    if j == d.len() {
        assert(d@.take(j as int) == d@);
    }
    j
}

impl Query {
    /// The invariant of a query.
    pub closed spec fn wf(&self) -> bool {
        &&& !self.matcher@.vcs
        &&& self@.chunk >= 1
        &&& self@.want >= 1
        &&& self@.found <= self@.cursor
        &&& self@.max >= 0 ==> self@.found <= self@.max
    }

    /// A query for `pattern` that reports at most `max_output_lines` matches
    /// (no bound when it is negative) and reads `chunk_size` bytes at a time;
    /// the compiler's message when the pattern is refused.
    pub fn new(pattern: &str, max_output_lines: i32, chunk_size: usize) -> (r: Result<Query, String>)
        requires
            chunk_size >= 1,
        ensures
            r is Ok <==> crate::regex_helper::regex_accepts(pattern@),
            r is Err ==> crate::regex_helper::regex_refusal(pattern@) == Some(r->Err_0@),
            r is Ok ==> r->Ok_0.wf() && r->Ok_0@ == query_start(
                seq![pattern@],
                max_output_lines as int,
                chunk_size as nat,
            ),
    {
        match RegexHelper::from_string(pattern) {
            Ok(matcher) => Ok(
                Query {
                    matcher,
                    max_output_lines,
                    chunk: chunk_size,
                    cursor: 0,
                    want: chunk_size,
                    found: 0,
                    finished: max_output_lines == 0,
                },
            ),
            Err(e) => Err(e),
        }
    }

    /// Moves the cursor back to the start of the snapshot and forgets what was
    /// reported, so that the query runs again from the beginning.
    pub fn refresh(&mut self)
        requires
            old(self).wf(),
        ensures
            final(self).wf(),
            final(self)@ == query_start(old(self)@.pats, old(self)@.max, old(self)@.chunk),
    {
        self.cursor = 0;
        self.want = self.chunk;
        self.found = 0;
        self.finished = self.max_output_lines == 0;
    }

    /// Where to read next: the offset and the length, or nothing once the
    /// query is over.
    pub fn next_read(&self) -> (r: Option<(u64, usize)>)
        ensures
            r is None <==> self@.finished,
            r is Some ==> r->Some_0.0 == self@.cursor && r->Some_0.1 == self@.want,
    {
        if self.finished {
            None
        } else {
            Some((self.cursor, self.want))
        }
    }

    /// The number of matches reported since the last refresh.
    pub fn found(&self) -> (r: u64)
        ensures
            r == self@.found,
    {
        self.found
    }

    /// Ends the query, as after a failed read.
    pub fn stop(&mut self)
        requires
            old(self).wf(),
        ensures
            final(self).wf(),
            final(self)@ == (QueryView { finished: true, ..old(self)@ }),
    {
        self.finished = true;
    }

    /// Takes the bytes read at the cursor (at most the length that
    /// `next_read` gave; fewer only where the snapshot ends) and returns the
    /// matches among the complete records in them. Once the query is over it
    /// returns `Eof` and changes nothing.
    pub fn find(&mut self, data: &[u8]) -> (r: (FindResult, Vec<String>))
        requires
            old(self).wf(),
            !old(self)@.finished ==> data@.len() <= old(self)@.want,
            !old(self)@.finished ==> old(self)@.cursor + data@.len() <= u64::MAX,
        ensures
            final(self).wf(),
            query_step(old(self)@, data@) == (final(self)@, texts(r.1@), r.0 is Error),
            r.0 is Eof <==> (old(self)@.finished || data@.len() == 0),
    {
        if self.finished {
            let none: Vec<String> = Vec::new();
            assert(texts(none@) =~= seq![]);
            return (FindResult::Eof, none);
        }
        let n = data.len();
        if n == 0 {
            self.finished = true;
            let none: Vec<String> = Vec::new();
            assert(texts(none@) =~= seq![]);
            return (FindResult::Eof, none);
        }
        let k: usize = if n < self.want {
            n
        } else {
            complete_prefix_len(data)
        };
        proof {
            lemma_complete_len(data@);
        }
        let ghost whole = data@.take(k as int);
        let ghost pats = self.matcher@.patterns;
        let ghost max = self.max_output_lines as int;
        proof {
            lemma_records_count(whole);
            assert(data@.subrange(0, k as int) == whole);
            assert(seq![] + records(whole) == records(whole));
        }
        // Split the complete records and decode each of them.
        let mut lines: Vec<String> = Vec::new();
        let ghost mut done: Seq<Seq<u8>> = seq![];
        let mut p: usize = 0;
        let mut bad = false;
        while p < k
            invariant
                k <= n,
                p <= k,
                n == data@.len(),
                whole == data@.take(k as int),
                records(whole).len() <= k,
                bad ==> p == k && !all_text(records(whole)),
                !bad ==> records(whole) == done + records(data@.subrange(p as int, k as int)),
                !bad ==> all_text(done),
                !bad ==> texts(lines@) == texts_of(done),
                lines@.len() == done.len(),
            decreases k - p,
        {
            let ghost x = data@.subrange(p as int, k as int);
            let mut q: usize = p;
            while q < k && data[q] != NEWLINE
                invariant
                    p <= q <= k,
                    k <= n,
                    n == data@.len(),
                    forall|j: int| p <= j < q ==> data@[j] != NEWLINE,
                decreases k - q,
            {
                q = q + 1;
            }
            let mut rec: Vec<u8> = Vec::new();
            let mut j: usize = p;
            while j < q
                invariant
                    p <= j <= q,
                    q <= k,
                    k <= n,
                    n == data@.len(),
                    rec@ == data@.subrange(p as int, j as int),
                decreases q - j,
            {
                rec.push(data[j]);
                assert(rec@ == data@.subrange(p as int, j + 1));
                j = j + 1;
            }
            let next_p: usize = if q < k {
                q + 1
            } else {
                k
            };
            let ghost x2 = data@.subrange(next_p as int, k as int);
            let ghost r = rec@;
            proof {
                lemma_line_len_is(x, q - p);
                if q < k {
                    assert(x.take(q - p) == rec@);
                    assert(x.skip(q - p + 1) == x2);
                } else {
                    assert(x == rec@);
                    assert(x2.len() == 0);
                }
                assert(records(x) == seq![rec@] + records(x2));
            }
            match decode_bytes(rec) {
                None => {
                    proof {
                        let i = done.len() as int;
                        assert(records(whole) == (done + seq![r]) + records(x2));
                        assert(records(whole)[i] == r);
                    }
                    bad = true;
                    p = k;
                },
                Some(t) => {
                    let ghost old_done = done;
                    let ghost old_lines = lines@;
                    proof {
                        assert(records(whole) == (done + seq![r]) + records(x2));
                        assert forall|i: int| 0 <= i < done.len() + 1 implies valid_utf8(#[trigger] (done + seq![r])[i]) by {
                            if i < done.len() {
                                assert((done + seq![r])[i] == done[i]);
                            }
                        }
                        done = done + seq![r];
                    }
                    assert(t@ == decode_utf8(r));
                    lines.push(t);
                    assert(lines@ == old_lines.push(t));
                    assert forall|i: int| 0 <= i < lines@.len() implies texts(lines@)[i] == texts_of(done)[i] by {
                        if i < old_lines.len() {
                            assert(texts(old_lines)[i] == texts_of(old_done)[i]);
                            assert(done[i] == old_done[i]);
                        }
                    }
                    assert(texts(lines@) =~= texts_of(done));
                    p = next_p;
                },
            }
        }
        let mut out: Vec<String> = Vec::new();
        let mut found: u64 = self.found;
        if !bad {
            proof {
                assert(data@.subrange(k as int, k as int).len() == 0);
                assert(done + seq![] == done);
            }
            let ghost ts = texts(lines@);
            let ghost target = scan(ts, pats, remaining_cap(max, self.found as nat));
            proof {
                lemma_scan_bound(ts, pats, remaining_cap(max, self.found as nat));
                assert(ts.skip(0) == ts);
                assert(seq![] + target == target);
            }
            let mut i: usize = 0;
            while i < lines.len() && (self.max_output_lines < 0 || found < self.max_output_lines as u64)
                invariant
                    i <= lines@.len(),
                    ts == texts(lines@),
                    lines@.len() <= k,
                    pats == self.matcher@.patterns,
                    !self.matcher@.vcs,
                    max == self.max_output_lines as int,
                    self.cursor + k <= u64::MAX,
                    found == self.found + out@.len(),
                    found <= self.cursor + i,
                    target == texts(out@) + scan(ts.skip(i as int), pats, remaining_cap(max, found as nat)),
                decreases lines@.len() - i,
            {
                let ghost rest = ts.skip(i as int);
                assert(rest[0] == ts[i as int]);
                assert(rest.drop_first() == ts.skip(i + 1));
                let ghost before = texts(out@);
                if self.matcher.check(lines[i].as_str()) {
                    out.push(lines[i].clone());
                    found = found + 1;
                    assert(texts(out@) == before.push(ts[i as int]));
                    assert(before + (seq![ts[i as int]] + scan(ts.skip(i + 1), pats, remaining_cap(max, found as nat)))
                        == texts(out@) + scan(ts.skip(i + 1), pats, remaining_cap(max, found as nat)));
                }
                i = i + 1;
            }
            proof {
                if i == lines.len() {
                    assert(ts.skip(i as int).len() == 0);
                }
                assert(texts(out@) + seq![] == texts(out@));
                assert(target == texts(out@));
            }
        }
        self.cursor = self.cursor + k as u64;
        self.found = found;
        let mut too_long = false;
        if k == 0 {
            if self.want > usize::MAX - self.chunk {
                too_long = true;
            } else {
                self.want = self.want + self.chunk;
            }
        } else {
            self.want = self.chunk;
        }
        self.finished = bad || too_long || (self.max_output_lines >= 0 && found
            >= self.max_output_lines as u64);
        proof {
            if bad {
                assert(texts(out@) =~= seq![]);
            }
        }
        assert(self@ == query_step(old(self)@, data@).0);
        if bad {
            (FindResult::Error(String::from_str("a snapshot record is not UTF-8")), out)
        } else if too_long {
            (FindResult::Error(String::from_str("a snapshot record is longer than a read can hold")), out)
        } else {
            (FindResult::Read, out)
        }
    }
}

/// What a read of length `want` at `cursor` gives on the snapshot `c`.
pub open spec fn read_at(c: Seq<u8>, cursor: nat, want: nat) -> Seq<u8> {
    if cursor >= c.len() {
        seq![]
    } else if cursor + want >= c.len() {
        c.skip(cursor as int)
    } else {
        c.subrange(cursor as int, (cursor + want) as int)
    }
}

/// How much longer the next read can grow before it reaches past the end of
/// the snapshot.
pub open spec fn read_room(len: nat, v: QueryView) -> nat {
    if v.cursor + v.want <= len {
        (len - v.cursor - v.want + 1) as nat
    } else {
        0
    }
}

/// What a query in state `v` reports when each of its reads is answered from
/// the snapshot `c`, until the query is over; and whether it ended on an
/// error.
pub open spec fn run(c: Seq<u8>, v: QueryView) -> (Seq<Seq<char>>, bool)
    decreases c.len() - v.cursor, read_room(c.len(), v),
    via run_decreases
{
    if v.finished || v.cursor > c.len() || v.want == 0 || v.chunk == 0 {
        (seq![], false)
    } else {
        let step = query_step(v, read_at(c, v.cursor, v.want));
        if step.0.finished {
            (step.1, step.2)
        } else {
            let r = run(c, step.0);
            (step.1 + r.0, r.1)
        }
    }
}

#[via_fn]
proof fn run_decreases(c: Seq<u8>, v: QueryView) {
    if !(v.finished || v.cursor > c.len() || v.want == 0 || v.chunk == 0) {
        let d = read_at(c, v.cursor, v.want);
        lemma_complete_len(d);
    }
}

/// Facts on one step of a query over a snapshot: the records of what is left
/// split at the new cursor, and the new cursor stays within the snapshot.
proof fn lemma_step_split(c: Seq<u8>, v: QueryView)
    requires
        v.cursor < c.len(),
        v.want >= 1,
    ensures
        ({
            let d = read_at(c, v.cursor, v.want);
            let k = consumed(d, v.want);
            let r = c.skip(v.cursor as int);
            &&& d.len() >= 1
            &&& k <= d.len()
            &&& v.cursor + k <= c.len()
            &&& k == 0 ==> d.len() == v.want && v.cursor + v.want <= c.len()
            &&& records(r) == records(d.take(k as int)) + records(c.skip((v.cursor + k) as int))
        }),
{
    let d = read_at(c, v.cursor, v.want);
    let k = consumed(d, v.want);
    let r = c.skip(v.cursor as int);
    lemma_complete_len(d);
    if d.len() < v.want {
        assert(d == r);
        assert(d.take(k as int) == d);
        assert(c.skip((v.cursor + k) as int).len() == 0);
        assert(records(c.skip((v.cursor + k) as int)) == Seq::<Seq<u8>>::empty());
        assert(records(r) == records(d.take(k as int)) + records(c.skip((v.cursor + k) as int)));
    } else {
        assert(d == r.take(d.len() as int));
        assert(r == d.take(k as int) + c.skip((v.cursor + k) as int));
        lemma_records_concat(d.take(k as int), c.skip((v.cursor + k) as int));
    }
}

/// A query run over a snapshot whose records are all text reports what a
/// scan of the records left after its cursor gives.
proof fn lemma_run_is_scan(c: Seq<u8>, v: QueryView)
    requires
        v.chunk >= 1,
        v.want >= 1,
        v.cursor <= c.len(),
        !v.finished,
        v.max >= 0 ==> v.found <= v.max,
        c.len() + v.chunk <= usize::MAX,
        all_text(records(c.skip(v.cursor as int))),
    ensures
        run(c, v) == (
            scan(texts_of(records(c.skip(v.cursor as int))), v.pats, remaining_cap(v.max, v.found)),
            false,
        ),
    decreases c.len() - v.cursor, read_room(c.len(), v),
{
    let rem = remaining_cap(v.max, v.found);
    let r = c.skip(v.cursor as int);
    if v.cursor == c.len() {
        assert(r.len() == 0);
        assert(read_at(c, v.cursor, v.want).len() == 0);
        assert(texts_of(records(r)) =~= Seq::<Seq<char>>::empty());
    } else {
        lemma_step_split(c, v);
        let d = read_at(c, v.cursor, v.want);
        let k = consumed(d, v.want);
        let a = records(d.take(k as int));
        let b = records(c.skip((v.cursor + k) as int));
        lemma_text_concat(a, b);
        let step = query_step(v, d);
        let ta = texts_of(a);
        let r1 = scan(ta, v.pats, rem);
        lemma_scan_concat(ta, texts_of(b), v.pats, rem);
        lemma_scan_bound(ta, v.pats, rem);
        assert(remaining_cap(v.max, step.0.found) == cap_after(rem, r1.len()));
        if step.0.finished {
            assert(cap_after(rem, r1.len()) == 0);
            assert(r1 + seq![] == r1);
        } else {
            lemma_run_is_scan(c, step.0);
            assert(step.0.cursor == v.cursor + k);
        }
    }
}

/// The number of matches a query run reports stays within its bound.
proof fn lemma_run_bound(c: Seq<u8>, v: QueryView)
    requires
        v.max >= 0 ==> v.found <= v.max,
    ensures
        v.max >= 0 ==> v.found + run(c, v).0.len() <= v.max,
    decreases c.len() - v.cursor, read_room(c.len(), v),
{
    if !(v.finished || v.cursor > c.len() || v.want == 0 || v.chunk == 0) {
        let d = read_at(c, v.cursor, v.want);
        let step = query_step(v, d);
        if d.len() > 0 {
            let k = consumed(d, v.want);
            lemma_scan_bound(
                texts_of(records(d.take(k as int))),
                v.pats,
                remaining_cap(v.max, v.found),
            );
        }
        if !step.0.finished {
            lemma_complete_len(d);
            lemma_run_bound(c, step.0);
        }
    }
}

/// However a snapshot whose records are all text is cut into reads, a query
/// started afresh reports exactly the matching records of the whole
/// snapshot, each once and in order: a record that two reads cut apart is
/// reported whole, once. In particular two chunk sizes give the same report.
pub proof fn lemma_chunking_is_invisible(
    c: Seq<u8>,
    pats: Seq<Seq<char>>,
    max: int,
    chunk: nat,
    other_chunk: nat,
)
    requires
        chunk >= 1,
        other_chunk >= 1,
        c.len() + chunk <= usize::MAX,
        c.len() + other_chunk <= usize::MAX,
        all_text(records(c)),
    ensures
        run(c, query_start(pats, max, chunk)) == (
            scan(texts_of(records(c)), pats, remaining_cap(max, 0)),
            false,
        ),
        run(c, query_start(pats, max, chunk)) == run(c, query_start(pats, max, other_chunk)),
{
    assert(c.skip(0) == c);
    if max != 0 {
        lemma_run_is_scan(c, query_start(pats, max, chunk));
        lemma_run_is_scan(c, query_start(pats, max, other_chunk));
    } else {
        if texts_of(records(c)).len() > 0 {
            assert(remaining_cap(max, 0) == 0);
        }
    }
}

/// A query that is refreshed and run again over an unchanged snapshot
/// reports the same matches in the same order as its first run: whatever
/// state two queries with the same pattern, bound and chunk size were left
/// in, after a refresh they report alike. When the snapshot's records are
/// all text, that report is the matching records of the snapshot.
pub proof fn lemma_refresh_repeats(c: Seq<u8>, first: QueryView, second: QueryView)
    requires
        first.pats == second.pats,
        first.max == second.max,
        first.chunk == second.chunk,
    ensures
        run(c, query_start(first.pats, first.max, first.chunk)) == run(
            c,
            query_start(second.pats, second.max, second.chunk),
        ),
        first.chunk >= 1 && c.len() + first.chunk <= usize::MAX && all_text(records(c)) ==> run(
            c,
            query_start(first.pats, first.max, first.chunk),
        ) == (scan(texts_of(records(c)), first.pats, remaining_cap(first.max, 0)), false),
{
    if first.chunk >= 1 && c.len() + first.chunk <= usize::MAX && all_text(records(c)) {
        lemma_chunking_is_invisible(c, first.pats, first.max, first.chunk, first.chunk);
    }
}

/// A query with a bound `max >= 0` never reports more than `max` matches, on
/// any snapshot and with any chunk size.
pub proof fn lemma_match_cap(c: Seq<u8>, pats: Seq<Seq<char>>, max: int, chunk: nat)
    requires
        max >= 0,
    ensures
        run(c, query_start(pats, max, chunk)).0.len() <= max,
{
    lemma_run_bound(c, query_start(pats, max, chunk));
}

/// The snapshot that holds the lines `ls` in order, each ended by a newline.
pub open spec fn snapshot_of(ls: Seq<Seq<u8>>) -> Seq<u8>
    decreases ls.len(),
{
    if ls.len() == 0 {
        seq![]
    } else {
        ls[0].push(NEWLINE) + snapshot_of(ls.drop_first())
    }
}

/// The paths `ps` as snapshot lines: their UTF-8 bytes.
pub open spec fn encoded(ps: Seq<Seq<char>>) -> Seq<Seq<u8>> {
    ps.map_values(|p: Seq<char>| encode_utf8(p))
}

/// The line that the snapshot holds for `path`: its UTF-8 bytes and a newline.
pub fn snapshot_record(path: &str) -> (r: Vec<u8>)
    ensures
        r@ == encode_utf8(path@).push(NEWLINE),
{
    let mut v = vstd::slice::slice_to_vec(path.as_bytes());
    v.push(NEWLINE);
    v
}

/// The records of a snapshot written line by line are those lines, when no
/// line holds a newline.
proof fn lemma_records_of_snapshot(ls: Seq<Seq<u8>>)
    requires
        forall|i: int| 0 <= i < ls.len() ==> !(#[trigger] ls[i]).contains(NEWLINE),
    ensures
        records(snapshot_of(ls)) == ls,
    decreases ls.len(),
{
    if ls.len() > 0 {
        let l = ls[0];
        let s = snapshot_of(ls);
        let rest = snapshot_of(ls.drop_first());
        assert forall|j: int| 0 <= j < l.len() implies s[j] != NEWLINE by {
            assert(s[j] == l[j]);
            if l[j] == NEWLINE {
                assert(l.contains(NEWLINE));
            }
        }
        assert(s[l.len() as int] == NEWLINE);
        lemma_line_len_is(s, l.len() as int);
        assert(s.take(l.len() as int) == l);
        assert(s.skip(l.len() + 1int) == rest);
        assert forall|i: int| 0 <= i < ls.drop_first().len() implies !(#[trigger] ls.drop_first()[i]).contains(NEWLINE) by {
            assert(ls.drop_first()[i] == ls[i + 1]);
        }
        lemma_records_of_snapshot(ls.drop_first());
        assert(records(s) == seq![l] + ls.drop_first());
        assert(seq![l] + ls.drop_first() == ls);
    }
}

/// The encoded paths are text, their decoding gives the paths back, and an
/// unbounded scan of them reports the paths that a pattern matches, in order.
proof fn lemma_scan_encoded(ps: Seq<Seq<char>>, pats: Seq<Seq<char>>)
    ensures
        all_text(encoded(ps)),
        texts_of(encoded(ps)) == ps,
        scan(ps, pats, -1) == ps.filter(|p: Seq<char>| any_finds(pats, p)),
    decreases ps.len(),
{
    broadcast use vstd::utf8::encode_utf8_valid_utf8, vstd::utf8::encode_utf8_decode_utf8;

    let pred = |p: Seq<char>| any_finds(pats, p);
    assert(texts_of(encoded(ps)) =~= ps);
    if ps.len() > 0 {
        let rest = ps.drop_first();
        lemma_scan_encoded(rest, pats);
        rest.lemma_filter_prepend(ps[0], pred);
        assert(seq![ps[0]] + rest == ps);
    }
}

/// A query with no bound over a snapshot of paths, whatever its chunk size,
/// reports exactly the paths that its pattern matches, each once and in the
/// order of the snapshot, and ends without error.
pub proof fn lemma_snapshot_query(ps: Seq<Seq<char>>, pats: Seq<Seq<char>>, chunk: nat)
    requires
        chunk >= 1,
        forall|i: int| 0 <= i < ps.len() ==> !encode_utf8(#[trigger] ps[i]).contains(NEWLINE),
        snapshot_of(encoded(ps)).len() + chunk <= usize::MAX,
    ensures
        run(snapshot_of(encoded(ps)), query_start(pats, -1, chunk)) == (
            ps.filter(|p: Seq<char>| any_finds(pats, p)),
            false,
        ),
{
    let ls = encoded(ps);
    assert forall|i: int| 0 <= i < ls.len() implies !(#[trigger] ls[i]).contains(NEWLINE) by {
        assert(ls[i] == encode_utf8(ps[i]));
    }
    lemma_records_of_snapshot(ls);
    lemma_scan_encoded(ps, pats);
    lemma_chunking_is_invisible(snapshot_of(ls), pats, -1, chunk, chunk);
}

} // verus!
