//! The directory walker, as a state machine: it says which directory to read
//! next, takes its listing, and hands out every entry that no ignore rule
//! hides, depth first. Once a directory is hidden nothing beneath it is
//! listed or handed out.
use vstd::prelude::*;
use vstd::string::StringExecFns;
use crate::regex_helper::{any_finds, hides, RegexHelper, RuleSet};

verus! {

/// What a directory entry is.
#[derive(PartialEq, Eq, Structural, Clone, Copy, Debug)]
pub enum EntryKind {
    File,
    Directory,
    /// Anything else (a link, a device): neither handed out nor entered.
    Other,
}

/// One entry of a directory listing: its name and kind.
pub struct DirEntry {
    pub name: String,
    pub kind: EntryKind,
}

/// What the walker asks of its caller, or hands to it.
pub enum WalkStep {
    /// Read the lines of the ignore file at this path and hand them to
    /// `ignore_loaded` (nothing when it cannot be read).
    LoadIgnore(String),
    /// List the directory at this path and hand the entries to `listed`
    /// (nothing when it cannot be listed).
    List(String),
    /// An entry that no rule hides: its full path, and whether it is a
    /// directory.
    Found(String, bool),
    /// The walk is over.
    Done,
}

/// The path of the entry reached from `root` through the names `chain`:
/// the names joined by `/`.
pub open spec fn join(root: Seq<char>, chain: Seq<Seq<char>>) -> Seq<char>
    decreases chain.len(),
{
    if chain.len() == 0 {
        root
    } else {
        join(root, chain.drop_last()) + seq!['/'] + chain.last()
    }
}

/// Whether no rule hides the entry at `chain` nor any directory above it.
pub open spec fn admitted(rules: RuleSet, root: Seq<char>, chain: Seq<Seq<char>>) -> bool {
    forall|k: int| 1 <= k <= chain.len() ==> !hides(rules, #[trigger] join(root, chain.take(k)))
}

/// An entry of a listing, as a name and a kind.
pub type EntryView = (Seq<char>, EntryKind);

/// The abstract state of a walk.
pub struct WalkView {
    /// The path the walk started from.
    pub root: Seq<char>,
    /// The ignore rules in force.
    pub rules: RuleSet,
    /// Each listing received so far: the directory (as names from the root)
    /// and its entries.
    pub listings: Seq<(Seq<Seq<char>>, Seq<EntryView>)>,
    /// The entries handed out so far, as names from the root, in order.
    pub visited: Seq<Seq<Seq<char>>>,
}

/// Whether entry `j` of listing `li` was dealt with: handed out, unless it is
/// neither file nor directory or a rule hides it.
pub open spec fn entry_done(w: WalkView, li: int, j: int) -> bool {
    let (dir, entries) = w.listings[li];
    let child = dir.push(entries[j].0);
    entries[j].1 != EntryKind::Other && !hides(w.rules, join(w.root, child))
        ==> w.visited.contains(child)
}

/// Whether `chain` names entry `j` of listing `li`, which is a file or a
/// directory and is not hidden.
pub open spec fn comes_from(w: WalkView, chain: Seq<Seq<char>>, li: int, j: int) -> bool {
    &&& 0 <= li < w.listings.len()
    &&& 0 <= j < w.listings[li].1.len()
    &&& chain == w.listings[li].0.push(w.listings[li].1[j].0)
    &&& w.listings[li].1[j].1 != EntryKind::Other
    &&& admitted(w.rules, w.root, chain)
}

/// Whether `chain` names a file or directory of some listing received that
/// is not hidden.
pub open spec fn from_listing(w: WalkView, chain: Seq<Seq<char>>) -> bool {
    exists|li: int, j: int| #[trigger] comes_from(w, chain, li, j)
}

/// Every entry handed out is an entry of a listing received, a file or a
/// directory, and neither it nor a directory above it is hidden.
pub open spec fn walk_sound(w: WalkView) -> bool {
    &&& forall|t: int| 0 <= t < w.visited.len() ==> admitted(w.rules, w.root, #[trigger] w.visited[t])
    &&& forall|t: int| 0 <= t < w.visited.len() ==> from_listing(w, #[trigger] w.visited[t])
    &&& forall|li: int| 0 <= li < w.listings.len() ==> admitted(w.rules, w.root, #[trigger] w.listings[li].0)
    &&& listings_distinct(w.listings) ==> w.visited.no_duplicates()
}

/// Whether no two entries of a listing share a name, as in any directory.
pub open spec fn names_distinct(es: Seq<EntryView>) -> bool {
    forall|a: int, b: int| 0 <= a < b < es.len() ==> (#[trigger] es[a]).0 != (#[trigger] es[b]).0
}

/// Whether every listing received has distinct names.
#[verifier::opaque]
pub open spec fn listings_distinct(ls: Seq<(Seq<Seq<char>>, Seq<EntryView>)>) -> bool {
    forall|li: int| 0 <= li < ls.len() ==> names_distinct(#[trigger] ls[li].1)
}

/// The entry handed out at index `t`, or the root for a negative index.
pub open spec fn chain_at(visited: Seq<Seq<Seq<char>>>, t: int) -> Seq<Seq<char>> {
    if t < 0 {
        Seq::empty()
    } else {
        visited[t]
    }
}

/// Every file or directory of every listing received that no rule hides was
/// handed out.
pub open spec fn walk_complete(w: WalkView) -> bool {
    forall|li: int, j: int| 0 <= li < w.listings.len() && 0 <= j < w.listings[li].1.len() ==> #[trigger] entry_done(w, li, j)
}

/// The name of the ignore file looked for at the root of a walk.
pub open spec fn ignore_file_name() -> Seq<char> {
    seq!['.', 'g', 'i', 't', 'i', 'g', 'n', 'o', 'r', 'e']
}

/// Whether entry `j` of listing `li` is handed out: it is a file or a
/// directory and no rule matches its path.
pub open spec fn entry_shown(w: WalkView, li: int, j: int) -> bool {
    let (dir, entries) = w.listings[li];
    entries[j].1 != EntryKind::Other && !hides(w.rules, join(w.root, dir.push(entries[j].0)))
}

/// The entries a frame has not dealt with yet.
spec fn frame_left(f: Frame) -> nat {
    (f.entries@.len() - f.next) as nat
}

/// The entries that the frames of a stack have not dealt with yet.
spec fn frames_left(st: Seq<Frame>) -> nat
    decreases st.len(),
{
    if st.len() == 0 {
        0
    } else {
        frames_left(st.drop_last()) + frame_left(st.last())
    }
}

/// A stack whose frames all have nothing left counts nothing left, and a
/// prefix of a stack counts no more than the stack.
proof fn lemma_frames_left(st: Seq<Frame>, n: int)
    requires
        0 <= n <= st.len(),
    ensures
        frames_left(st.take(n)) <= frames_left(st),
        n < st.len() ==> frames_left(st.take(n + 1)) == frames_left(st.take(n)) + frame_left(st[n]),
        frames_left(st) == 0 ==> forall|i: int| 0 <= i < st.len() ==> frame_left(#[trigger] st[i]) == 0,
    decreases st.len(),
{
    if st.len() > 0 {
        let init = st.drop_last();
        if n < st.len() {
            lemma_frames_left(init, n);
            assert(init.take(n) == st.take(n));
            if n + 1 < st.len() {
                assert(init.take(n + 1) == st.take(n + 1));
            } else {
                assert(st.take(n + 1) == st);
                assert(st.take(n + 1).drop_last() == st.take(n));
            }
        } else {
            assert(st.take(n) == st);
            lemma_frames_left(init, 0);
        }
        if frames_left(st) == 0 {
            assert forall|i: int| 0 <= i < st.len() implies frame_left(#[trigger] st[i]) == 0 by {
                if i < init.len() {
                    assert(init[i] == st[i]);
                }
            }
        }
    }
}

/// Whether entries `from..to` of listing `li` are all passed over.
#[verifier::opaque]
pub open spec fn all_hidden(w: WalkView, li: int, from: int, to: int) -> bool {
    forall|x: int| from <= x < to ==> !#[trigger] entry_shown(w, li, x)
}

/// Whether a step of the walk from the open listings `ol` to `fl` handed out
/// entry `j` of the deepest open listing `ol[m]` that had an entry to show:
/// the entries it passed over on the way are all hidden, the listings deeper
/// than `ol[m]` are closed, and `ol[m]` moves on past `j`.
pub open spec fn depth_first_step(ol: Seq<(int, nat)>, fl: Seq<(int, nat)>, w: WalkView, m: int, j: int) -> bool {
    let li = ol[m].0;
    &&& 0 <= m < ol.len()
    &&& ol[m].1 <= j
    &&& fl == ol.take(m).push((li, (j + 1) as nat))
    &&& comes_from(w, w.visited.last(), li, j)
    &&& all_hidden(w, li, ol[m].1 as int, j)
    &&& forall|k: int| m < k < ol.len() ==> all_hidden(
        w,
        (#[trigger] ol[k]).0,
        ol[k].1 as int,
        w.listings[ol[k].0].1.len() as int,
    )
}

/// No entry lies in an empty range, and a hidden entry extends a hidden
/// range.
proof fn lemma_hidden_extend(w: WalkView, li: int, from: int, to: int)
    ensures
        all_hidden(w, li, from, from),
        all_hidden(w, li, from, to) && !entry_shown(w, li, to) ==> all_hidden(w, li, from, to + 1),
{
    reveal(all_hidden);
}

/// The open listings of a stack of frames.
spec fn listings_of(st: Seq<Frame>) -> Seq<(int, nat)> {
    st.map_values(|f: Frame| (f.listing@, f.next as nat))
}

/// A step that hands out entry `j` of the top frame `st[m]`, having passed
/// over hidden entries only, is a depth-first step.
proof fn lemma_found_step(os: Seq<Frame>, st: Seq<Frame>, w0: WalkView, w: WalkView, j: int)
    requires
        st.len() >= 1,
        st.len() <= os.len(),
        forall|i: int| 0 <= i < st.len() - 1 ==> st[i] == os[i],
        st.last().listing@ == os[st.len() - 1].listing@,
        st.last().next == j + 1,
        os[st.len() - 1].next <= j,
        all_hidden(w0, os[st.len() - 1].listing@, os[st.len() - 1].next as int, j),
        forall|k: int| st.len() <= k < os.len() ==> all_hidden(
            w0,
            (#[trigger] os[k]).listing@,
            os[k].next as int,
            os[k].entries@.len() as int,
        ),
        forall|i: int| 0 <= i < os.len() ==> (#[trigger] os[i]).ok(w0),
        w.root == w0.root,
        w.rules == w0.rules,
        w.listings == w0.listings,
        comes_from(w, w.visited.last(), os[st.len() - 1].listing@, j),
    ensures
        depth_first_step(listings_of(os), listings_of(st), w, st.len() - 1, j),
{
    reveal(all_hidden);
    let m = st.len() - 1;
    let ol = listings_of(os);
    assert(listings_of(st) =~= ol.take(m).push((ol[m].0, (j + 1) as nat)));
    assert(all_hidden(w, ol[m].0, ol[m].1 as int, j)) by {
        assert forall|x: int| ol[m].1 <= x < j implies !#[trigger] entry_shown(w, ol[m].0, x) by {
            assert(!entry_shown(w0, os[m].listing@, x));
        }
    }
    assert forall|k: int| m < k < ol.len() implies all_hidden(
        w,
        (#[trigger] ol[k]).0,
        ol[k].1 as int,
        w.listings[ol[k].0].1.len() as int,
    ) by {
        assert(os[k].ok(w0));
        assert forall|x: int| ol[k].1 <= x < w.listings[ol[k].0].1.len() implies !#[trigger] entry_shown(w, ol[k].0, x) by {
            assert(!entry_shown(w0, os[k].listing@, x));
        }
    }
}

/// The entries left in the top frame.
spec fn left_in_top(st: Seq<Frame>) -> nat {
    if st.len() == 0 {
        0
    } else {
        (st.last().entries@.len() - st.last().next) as nat
    }
}

/// A directory being walked: its path, its entries, and the next entry to
/// deal with; in ghost, its names from the root and its listing's index.
struct Frame {
    dir: String,
    entries: Vec<DirEntry>,
    next: usize,
    chain: Ghost<Seq<Seq<char>>>,
    listing: Ghost<int>,
}

/// What the walker waits for.
enum Phase {
    LoadIgnore,
    IgnoreAsked,
    List(String),
    ListAsked(String),
    Walking,
}

/// A depth-first walk from a root directory.
pub struct Walker {
    root: String,
    ignore: RegexHelper,
    stack: Vec<Frame>,
    phase: Phase,
    pending: Ghost<Seq<Seq<char>>>,
    listings: Ghost<Seq<(Seq<Seq<char>>, Seq<EntryView>)>>,
    visited: Ghost<Seq<Seq<Seq<char>>>>,
    origin: Ghost<Seq<(int, int)>>,
    listed_from: Ghost<Seq<int>>,
}

/// A listing as names and kinds.
pub open spec fn entries_view(es: Seq<DirEntry>) -> Seq<EntryView> {
    es.map_values(|e: DirEntry| (e.name@, e.kind))
}

impl View for Walker {
    type V = WalkView;

    closed spec fn view(&self) -> WalkView {
        WalkView {
            root: self.root@,
            rules: self.ignore@,
            listings: self.listings@,
            visited: self.visited@,
        }
    }
}

/// Appending an element that is not yet in a sequence without duplicates
/// keeps it without duplicates.
proof fn lemma_push_new<T>(v: Seq<T>, x: T)
    requires
        v.no_duplicates(),
        forall|t: int| 0 <= t < v.len() ==> v[t] != x,
    ensures
        v.push(x).no_duplicates(),
{
    let w = v.push(x);
    assert forall|t: int, u: int| 0 <= t < w.len() && 0 <= u < w.len() && t != u implies w[t] != w[u] by {
        if t < v.len() && u < v.len() {
            assert(v[t] != v[u]);
        } else if t < v.len() {
            assert(v[t] != x);
        } else {
            assert(v[u] != x);
        }
    }
}

/// Hiding is inherited: a child is admitted when its parent is and no rule
/// hides the child's own path.
proof fn lemma_admitted_push(rules: RuleSet, root: Seq<char>, c: Seq<Seq<char>>, name: Seq<char>)
    requires
        admitted(rules, root, c),
        !hides(rules, join(root, c.push(name))),
    ensures
        admitted(rules, root, c.push(name)),
{
    let child = c.push(name);
    assert forall|k: int| 1 <= k <= child.len() implies !hides(rules, #[trigger] join(root, child.take(k))) by {
        if k < child.len() {
            assert(child.take(k) == c.take(k));
        } else {
            assert(child.take(k) == child);
        }
    }
}

/// The path of a child is the parent's path, a slash, and the child's name.
proof fn lemma_join_push(root: Seq<char>, c: Seq<Seq<char>>, name: Seq<char>)
    ensures
        join(root, c.push(name)) == join(root, c) + seq!['/'] + name,
{
    assert(c.push(name).drop_last() == c);
}

/// The full path of `name` inside the directory `dir`.
fn child_path(dir: &str, name: &str) -> (r: String)
    ensures
        r@ == dir@ + seq!['/'] + name@,
{
    let mut p = String::from_str(dir);
    proof {
        reveal_strlit("/");
    }
    p.append("/");
    p.append(name);
    p
}

impl Frame {
    spec fn ok(&self, w: WalkView) -> bool {
        &&& 0 <= self.listing@ < w.listings.len()
        &&& w.listings[self.listing@].0 == self.chain@
        &&& w.listings[self.listing@].1 == entries_view(self.entries@)
        &&& self.next <= self.entries@.len()
        &&& self.dir@ == join(w.root, self.chain@)
    }
}

impl Walker {
    /// Whether entry `j` of listing `li` is still to be dealt with: its
    /// directory is being walked and has not reached it yet.
    #[verifier::opaque]
    spec fn open_entry(&self, li: int, j: int) -> bool {
        exists|i: int| 0 <= i < self.stack@.len() && (#[trigger] self.stack@[i]).listing@ == li && j
            >= self.stack@[i].next
    }

    /// The path of the directory that the walker is about to list, as names
    /// from the root.
    pub closed spec fn pending(&self) -> Seq<Seq<char>> {
        self.pending@
    }

    /// Whether the walker's next step asks for the ignore file.
    pub closed spec fn wants_ignore_file(&self) -> bool {
        self.phase is LoadIgnore || self.phase is IgnoreAsked
    }

    /// Whether the walker's next step asks for the listing of `pending()`.
    pub closed spec fn lists_next(&self) -> bool {
        self.phase is List || self.phase is ListAsked
    }

    /// Whether the walker is walking: it neither waits for the ignore file nor
    /// has a directory to list.
    pub closed spec fn walking(&self) -> bool {
        self.phase is Walking
    }

    /// The number of entries of the listings received that are not dealt
    /// with yet.
    pub closed spec fn entries_left(&self) -> nat {
        frames_left(self.stack@)
    }

    /// The listings being walked, oldest first: for each, its index among the
    /// listings received and the index of its next entry to deal with.
    pub closed spec fn open_listings(&self) -> Seq<(int, nat)> {
        listings_of(self.stack@)
    }

    /// Whether nothing is left to walk: the next step is `Done`.
    pub closed spec fn is_over(&self) -> bool {
        self.phase is Walking && self.stack@.len() == 0
    }

    /// Whether the walker waits for the lines of the ignore file.
    pub closed spec fn awaits_ignore(&self) -> bool {
        self.phase is IgnoreAsked
    }

    /// Whether the walker waits for the listing of `pending()`.
    pub closed spec fn awaits_listing(&self) -> bool {
        self.phase is ListAsked
    }

    /// The invariant of a walk, but for the phase.
    #[verifier::opaque]
    spec fn core_inv(&self) -> bool {
        let w = self@;
        &&& walk_sound(w)
        &&& self.origin@.len() == w.visited.len()
        &&& forall|t: int| 0 <= t < w.visited.len() ==> comes_from(w, #[trigger] w.visited[t], self.origin@[t].0, self.origin@[t].1)
        &&& forall|i: int| 0 <= i < self.stack@.len() ==> (#[trigger] self.stack@[i]).ok(w)
        &&& forall|i: int, k: int| 0 <= i < k < self.stack@.len() ==> (#[trigger] self.stack@[i]).listing@ < (#[trigger] self.stack@[k]).listing@
        &&& forall|li: int, j: int| 0 <= li < w.listings.len() && 0 <= j < w.listings[li].1.len() && !self.open_entry(li, j) ==> #[trigger] entry_done(w, li, j)
        &&& self.listed_from@.len() == w.listings.len()
        &&& forall|li: int| 0 <= li < w.listings.len() ==> -1 <= #[trigger] self.listed_from@[li] < w.visited.len()
        &&& forall|li: int| 0 <= li < w.listings.len() ==> (#[trigger] w.listings[li]).0 == chain_at(w.visited, self.listed_from@[li])
        &&& forall|li: int, lk: int| 0 <= li < lk < w.listings.len() ==> #[trigger] self.listed_from@[li] < #[trigger] self.listed_from@[lk]
        &&& forall|t: int| 0 <= t < w.visited.len() ==> !self.open_entry(#[trigger] self.origin@[t].0, self.origin@[t].1)
        &&& forall|t: int, u: int| 0 <= t < u < w.visited.len() ==> #[trigger] self.origin@[t] != #[trigger] self.origin@[u]
    }

    /// When the listings have distinct names, so do the directories listed.
    proof fn lemma_listed_chains_distinct(&self)
        requires
            self.core_inv(),
            listings_distinct(self@.listings),
        ensures
            forall|li: int, lk: int| 0 <= li < lk < self@.listings.len() ==> (#[trigger] self@.listings[li]).0 != (#[trigger] self@.listings[lk]).0,
    {
        reveal(Walker::core_inv);
        let w = self@;
        reveal(listings_distinct);
        assert forall|li: int, lk: int| 0 <= li < lk < w.listings.len() implies (#[trigger] w.listings[li]).0 != (#[trigger] w.listings[lk]).0 by {
            let a = self.listed_from@[li];
            let b = self.listed_from@[lk];
            assert(a < b);
            assert(w.listings[lk].0 == w.visited[b]);
            assert(comes_from(w, w.visited[b], self.origin@[b].0, self.origin@[b].1));
            if a >= 0 {
                assert(w.visited[a] != w.visited[b]);
            } else {
                assert(w.visited[b].len() >= 1);
            }
        }
    }

    /// The invariant of a walk.
    pub closed spec fn inv(&self) -> bool {
        let w = self@;
        &&& self.core_inv()
        &&& match self.phase {
            Phase::LoadIgnore | Phase::IgnoreAsked => w.listings.len() == 0 && w.visited.len() == 0 && self.stack@.len() == 0,
            Phase::List(d) | Phase::ListAsked(d) => {
                &&& d@ == join(w.root, self.pending@)
                &&& admitted(w.rules, w.root, self.pending@)
                &&& (self.pending@.len() == 0 && w.listings.len() == 0) || (w.visited.len() >= 1
                    && self.pending@ == w.visited.last() && forall|li: int| 0 <= li < w.listings.len()
                    ==> #[trigger] self.listed_from@[li] < w.visited.len() - 1)
            },
            Phase::Walking => true,
        }
    }

    /// When the listings have distinct names, an entry not yet dealt with was
    /// not handed out before.
    proof fn lemma_child_is_new(&self, lid: int, j: int)
        requires
            self.core_inv(),
            listings_distinct(self@.listings),
            0 <= lid < self@.listings.len(),
            0 <= j < self@.listings[lid].1.len(),
            self.open_entry(lid, j),
        ensures
            forall|t: int| 0 <= t < self@.visited.len() ==> self@.visited[t] != self@.listings[lid].0.push(self@.listings[lid].1[j].0),
    {
        reveal(Walker::core_inv);
        let b = self@;
        let child = b.listings[lid].0.push(b.listings[lid].1[j].0);
        self.lemma_listed_chains_distinct();
        reveal(listings_distinct);
        assert forall|t: int| 0 <= t < b.visited.len() implies b.visited[t] != child by {
            let (li, jj) = self.origin@[t];
            assert(comes_from(b, b.visited[t], li, jj));
            assert(!self.open_entry(li, jj));
            if li == lid {
                assert(jj != j);
                assert(names_distinct(b.listings[lid].1));
                if jj < j {
                    assert(b.listings[lid].1[jj].0 != b.listings[lid].1[j].0);
                } else {
                    assert(b.listings[lid].1[j].0 != b.listings[lid].1[jj].0);
                }
                assert(b.visited[t].last() != child.last());
            } else {
                assert(b.listings[li].0 != b.listings[lid].0);
                assert(b.visited[t].drop_last() == b.listings[li].0);
                assert(child.drop_last() == b.listings[lid].0);
            }
        }
    }

    /// What the invariant gives of the frames and of what was handed out.
    proof fn lemma_frames_ok(&self)
        requires
            self.core_inv(),
        ensures
            forall|i: int| 0 <= i < self.stack@.len() ==> (#[trigger] self.stack@[i]).ok(self@),
            walk_sound(self@),
    {
        reveal(Walker::core_inv);
    }

    /// With nothing left on the stack, every entry of every listing was dealt
    /// with.
    proof fn lemma_done(&self)
        requires
            self.core_inv(),
            self.stack@.len() == 0,
        ensures
            walk_complete(self@),
    {
        reveal(Walker::core_inv);
        let w = self@;
        assert forall|li: int, j: int| 0 <= li < w.listings.len() && 0 <= j < w.listings[li].1.len() implies #[trigger] entry_done(w, li, j) by {
            reveal(Walker::open_entry);
            assert(!self.open_entry(li, j));
        }
    }

    /// A walker whose stack, view and ghost records are those of a walker
    /// that keeps the invariant keeps it too.
    proof fn lemma_same_walk(&self, before: Walker)
        requires
            before.core_inv(),
            self.stack@ == before.stack@,
            self@ == before@,
            self.origin@ == before.origin@,
            self.listed_from@ == before.listed_from@,
        ensures
            self.core_inv(),
    {
        reveal(Walker::core_inv);
        assert forall|li: int, j: int| self.open_entry(li, j) == before.open_entry(li, j) by {
            reveal(Walker::open_entry);
        }
    }

    /// Dropping a finished frame from the top of the stack keeps the
    /// invariant.
    proof fn lemma_drop(&self, before: Walker)
        requires
            before.core_inv(),
            before.stack@.len() >= 1,
            before.stack@.last().next >= before.stack@.last().entries@.len(),
            self.stack@ == before.stack@.drop_last(),
            self@ == before@,
            self.origin@ == before.origin@,
            self.listed_from@ == before.listed_from@,
        ensures
            self.core_inv(),
    {
        reveal(Walker::core_inv);
        let w = self@;
        let top = before.stack@.len() - 1;
        assert forall|li: int, j: int| self.open_entry(li, j) implies before.open_entry(li, j) by {
            reveal(Walker::open_entry);
            let i = choose|i: int| 0 <= i < self.stack@.len() && (#[trigger] self.stack@[i]).listing@ == li && j >= self.stack@[i].next;
            assert(before.stack@[i] == self.stack@[i]);
        }
        assert forall|t: int| 0 <= t < w.visited.len() implies !self.open_entry(#[trigger] self.origin@[t].0, self.origin@[t].1) by {
            reveal(Walker::open_entry);
            assert(!before.open_entry(before.origin@[t].0, before.origin@[t].1));
        }
        assert forall|i: int| 0 <= i < self.stack@.len() implies (#[trigger] self.stack@[i]).ok(w) by {
            assert(before.stack@[i].ok(w));
        }
        assert forall|i: int, k: int| 0 <= i < k < self.stack@.len() implies (#[trigger] self.stack@[i]).listing@ < (#[trigger] self.stack@[k]).listing@ by {
            assert(before.stack@[i].listing@ < before.stack@[k].listing@);
        }
        assert forall|li: int, j: int| 0 <= li < w.listings.len() && 0 <= j < w.listings[li].1.len() && !self.open_entry(li, j) implies #[trigger] entry_done(w, li, j) by {
            reveal(Walker::open_entry);
            if before.open_entry(li, j) {
                let i = choose|i: int| 0 <= i < before.stack@.len() && (#[trigger] before.stack@[i]).listing@ == li && j >= before.stack@[i].next;
                if i < top {
                    assert(self.stack@[i] == before.stack@[i]);
                    assert(self.open_entry(li, j));
                } else {
                    assert(before.stack@[top].ok(w));
                    assert(false);
                }
            }
        }
    }

    /// Which entries are still to be dealt with once the top frame moves past
    /// entry `j`: the same as before, but for that entry.
    proof fn lemma_advance_open(&self, before: Walker, lid: int, j: int)
        requires
            forall|i: int, k: int| 0 <= i < k < before.stack@.len() ==> (#[trigger] before.stack@[i]).listing@ < (#[trigger] before.stack@[k]).listing@,
            before.stack@.len() >= 1,
            before.stack@.last().listing@ == lid,
            before.stack@.last().next == j,
            j < before.stack@.last().entries@.len(),
            self.stack@.len() == before.stack@.len(),
            forall|i: int| 0 <= i < self.stack@.len() - 1 ==> self.stack@[i] == before.stack@[i],
            self.stack@.last().listing@ == lid,
            self.stack@.last().next == j + 1,
        ensures
            before.open_entry(lid, j),
            !self.open_entry(lid, j),
            forall|li: int, jj: int| #[trigger] self.open_entry(li, jj) ==> before.open_entry(li, jj),
            forall|li: int, jj: int| !(li == lid && jj == j) && #[trigger] before.open_entry(li, jj) ==> self.open_entry(li, jj),
    {
        reveal(Walker::open_entry);
        let top = before.stack@.len() - 1;
        assert(before.stack@[top].listing@ == lid);
        assert forall|li: int, jj: int| #[trigger] self.open_entry(li, jj) implies before.open_entry(li, jj) by {
            let i = choose|i: int| 0 <= i < self.stack@.len() && (#[trigger] self.stack@[i]).listing@ == li && jj >= self.stack@[i].next;
            if i < top {
                assert(before.stack@[i] == self.stack@[i]);
            } else {
                assert(before.stack@[top].listing@ == li && jj >= before.stack@[top].next);
            }
        }
        if self.open_entry(lid, j) {
            let i = choose|i: int| 0 <= i < self.stack@.len() && (#[trigger] self.stack@[i]).listing@ == lid && j >= self.stack@[i].next;
            if i < top {
                assert(before.stack@[i].listing@ < before.stack@[top].listing@);
            }
        }
        assert forall|li: int, jj: int| !(li == lid && jj == j) && #[trigger] before.open_entry(li, jj) implies self.open_entry(li, jj) by {
            let i = choose|i: int| 0 <= i < before.stack@.len() && (#[trigger] before.stack@[i]).listing@ == li && jj >= before.stack@[i].next;
            if i < top {
                assert(self.stack@[i] == before.stack@[i]);
                assert(before.stack@[i].listing@ < before.stack@[top].listing@);
            }
        }
    }

    /// Moving the top frame past entry `j`, and handing the entry out when it
    /// is shown, keeps the invariant.
    #[verifier::rlimit(80)]
    proof fn lemma_advance(&self, before: Walker, lid: int, j: int, shown: bool)
        requires
            before.core_inv(),
            before.stack@.len() >= 1,
            before.stack@.last().listing@ == lid,
            before.stack@.last().next == j,
            j < before.stack@.last().entries@.len(),
            self.stack@.len() == before.stack@.len(),
            forall|i: int| 0 <= i < self.stack@.len() - 1 ==> self.stack@[i] == before.stack@[i],
            self.stack@.last().listing@ == lid,
            self.stack@.last().next == j + 1,
            self.stack@.last().entries@ == before.stack@.last().entries@,
            self.stack@.last().chain@ == before.stack@.last().chain@,
            self.stack@.last().dir@ == before.stack@.last().dir@,
            self@.root == before@.root,
            self@.rules == before@.rules,
            self@.listings == before@.listings,
            shown == entry_shown(before@, lid, j),
            shown ==> self@.visited == before@.visited.push(
                before.stack@.last().chain@.push(before.stack@.last().entries@[j].name@),
            ) && self.origin@ == before.origin@.push((lid, j)),
            !shown ==> self@.visited == before@.visited && self.origin@ == before.origin@,
            self.listed_from@ == before.listed_from@,
        ensures
            self.core_inv(),
            shown ==> comes_from(self@, self@.visited.last(), lid, j),
            shown ==> admitted(self@.rules, self@.root, self@.visited.last()),
            shown ==> forall|li: int| 0 <= li < self@.listings.len() ==> #[trigger] self.listed_from@[li] < self@.visited.len() - 1,
    {
        reveal(Walker::core_inv);
        let w = self@;
        let b = before@;
        let top = before.stack@.len() - 1;
        let f = before.stack@[top];
        assert(f.ok(b));
        let child = f.chain@.push(f.entries@[j].name@);
        assert(b.listings[lid].1[j] == (f.entries@[j].name@, f.entries@[j].kind));
        assert(b.listings[lid].0 == f.chain@);
        self.lemma_advance_open(before, lid, j);
        assert forall|t: int| 0 <= t < w.visited.len() implies !self.open_entry(#[trigger] self.origin@[t].0, self.origin@[t].1) by {
            if t < b.visited.len() {
                assert(!before.open_entry(before.origin@[t].0, before.origin@[t].1));
            }
        }
        assert forall|t: int, u: int| 0 <= t < u < w.visited.len() implies #[trigger] self.origin@[t] != #[trigger] self.origin@[u] by {
            if u < b.visited.len() {
                assert(before.origin@[t] != before.origin@[u]);
            } else {
                assert(!before.open_entry(before.origin@[t].0, before.origin@[t].1));
            }
        }
        assert forall|li: int| 0 <= li < w.listings.len() implies (#[trigger] w.listings[li]).0 == chain_at(w.visited, self.listed_from@[li]) by {
            assert(b.listings[li].0 == chain_at(b.visited, before.listed_from@[li]));
            if before.listed_from@[li] >= 0 {
                assert(w.visited[before.listed_from@[li]] == b.visited[before.listed_from@[li]]);
            }
        }
        if shown && listings_distinct(w.listings) {
            before.lemma_child_is_new(lid, j);
            lemma_push_new(b.visited, child);
        }
        assert forall|x: Seq<Seq<char>>| b.visited.contains(x) implies w.visited.contains(x) by {
            let t = choose|t: int| 0 <= t < b.visited.len() && b.visited[t] == x;
            assert(w.visited[t] == x);
        }
        if shown {
            assert(admitted(b.rules, b.root, b.listings[lid].0));
            lemma_admitted_push(b.rules, b.root, f.chain@, f.entries@[j].name@);
            assert(comes_from(w, child, lid, j));
            assert(w.visited[w.visited.len() - 1] == child);
        }
        assert forall|t: int| 0 <= t < w.visited.len() implies comes_from(w, #[trigger] w.visited[t], self.origin@[t].0, self.origin@[t].1) by {
            if t < b.visited.len() {
                assert(comes_from(b, b.visited[t], before.origin@[t].0, before.origin@[t].1));
            }
        }
        assert forall|t: int| 0 <= t < w.visited.len() implies admitted(w.rules, w.root, #[trigger] w.visited[t]) && from_listing(w, w.visited[t]) by {
            assert(comes_from(w, w.visited[t], self.origin@[t].0, self.origin@[t].1));
        }
        assert forall|i: int| 0 <= i < self.stack@.len() implies (#[trigger] self.stack@[i]).ok(w) by {
            assert(before.stack@[i].ok(b));
        }
        assert forall|i: int, k: int| 0 <= i < k < self.stack@.len() implies (#[trigger] self.stack@[i]).listing@ < (#[trigger] self.stack@[k]).listing@ by {
            assert(before.stack@[i].listing@ < before.stack@[k].listing@);
        }
        assert forall|li: int, jj: int| 0 <= li < w.listings.len() && 0 <= jj < w.listings[li].1.len() && !self.open_entry(li, jj) implies #[trigger] entry_done(w, li, jj) by {
            if li == lid && jj == j {
                if shown {
                    assert(w.visited[w.visited.len() - 1] == child);
                }
            } else {
                assert(!before.open_entry(li, jj));
                assert(entry_done(b, li, jj));
            }
        }
    }

    /// A walker with nothing to walk: its first step is `Done`.
    pub fn new() -> (r: Walker)
        ensures
            r.inv(),
            r@.listings.len() == 0,
            r@.visited.len() == 0,
            r.is_over(),
            r.walking(),
            r.entries_left() == 0,
    {
        let r = Walker {
            root: String::new(),
            ignore: RegexHelper::new(),
            stack: Vec::new(),
            phase: Phase::Walking,
            pending: Ghost(Seq::empty()),
            listings: Ghost(Seq::empty()),
            visited: Ghost(Seq::empty()),
            origin: Ghost(Seq::empty()),
            listed_from: Ghost(Seq::empty()),
        };
        proof {
            reveal(Walker::core_inv);
        }
        r
    }

    /// A walk from `root` under the rules `ignore`. When `ignore` holds no
    /// rule, the walk first asks for the ignore file at the root.
    pub fn start(root: &str, ignore: RegexHelper) -> (r: Walker)
        ensures
            r.inv(),
            r@.root == root@,
            r@.rules == ignore@,
            r@.listings.len() == 0,
            r@.visited.len() == 0,
            r.wants_ignore_file() <==> (ignore@.patterns.len() == 0 && !ignore@.vcs),
            r.entries_left() == 0,
            r.open_listings().len() == 0,
            !(ignore@.patterns.len() == 0 && !ignore@.vcs) ==> r.lists_next() && r.pending() == Seq::<Seq<char>>::empty(),
    {
        let phase = if ignore.is_empty() {
            Phase::LoadIgnore
        } else {
            Phase::List(String::from_str(root))
        };
        let r = Walker {
            root: String::from_str(root),
            ignore,
            stack: Vec::new(),
            phase,
            pending: Ghost(Seq::empty()),
            listings: Ghost(Seq::empty()),
            visited: Ghost(Seq::empty()),
            origin: Ghost(Seq::empty()),
            listed_from: Ghost(Seq::empty()),
        };
        proof {
            reveal(Walker::core_inv);
            assert(join(root@, Seq::empty()) == root@);
        }
        r
    }

    /// Takes the lines of the ignore file asked for by `LoadIgnore` (nothing
    /// when it could not be read): the walk then runs under the rules they
    /// give, or under none. Outside that moment it changes nothing.
    pub fn ignore_loaded(&mut self, lines: Option<Vec<String>>)
        requires
            old(self).inv(),
        ensures
            final(self).inv(),
            old(self).awaits_ignore() ==> {
                &&& final(self)@.root == old(self)@.root
                &&& final(self)@.listings == old(self)@.listings
                &&& final(self)@.visited == old(self)@.visited
                &&& final(self).pending() == Seq::<Seq<char>>::empty()
                &&& final(self).lists_next()
                &&& !final(self).wants_ignore_file()
                &&& final(self).entries_left() == old(self).entries_left()
                &&& lines is None ==> final(self)@.rules == (RuleSet { patterns: Seq::empty(), vcs: false })
                &&& lines is Some ==> final(self)@.rules == (RuleSet {
                    patterns: crate::regex_helper::rules_of_lines(
                        lines->Some_0@.map_values(|l: String| l@),
                    ),
                    vcs: true,
                })
            },
            !old(self).awaits_ignore() ==> final(self)@ == old(self)@ && final(self).lists_next()
                == old(self).lists_next() && final(self).wants_ignore_file()
                == old(self).wants_ignore_file() && final(self).pending() == old(self).pending(),
    {
        proof {
            reveal(Walker::core_inv);
        }
        if let Phase::IgnoreAsked = self.phase {
            self.ignore = match lines {
                Some(l) => RegexHelper::from_gitignore(&l),
                None => RegexHelper::new(),
            };
            self.phase = Phase::List(String::from_str(self.root.as_str()));
            self.pending = Ghost(Seq::empty());
            assert(join(self.root@, Seq::empty()) == self.root@);
        }
    }

    /// Takes the listing of the directory asked for by `List` (nothing when
    /// it could not be listed); its entries are walked next, in order.
    /// Outside that moment it changes nothing.
    pub fn listed(&mut self, listing: Option<Vec<DirEntry>>)
        requires
            old(self).inv(),
        ensures
            final(self).inv(),
            final(self)@.root == old(self)@.root,
            final(self)@.rules == old(self)@.rules,
            final(self)@.visited == old(self)@.visited,
            old(self).awaits_listing() && listing is Some ==> final(self)@.listings
                == old(self)@.listings.push((old(self).pending(), entries_view(listing->Some_0@))),
            !(old(self).awaits_listing() && listing is Some) ==> final(self)@.listings == old(
                self,
            )@.listings,
            old(self).awaits_listing() ==> !final(self).lists_next() && !final(self).wants_ignore_file()
                && final(self).walking(),
            old(self).awaits_listing() && listing is Some ==> final(self).entries_left()
                == old(self).entries_left() + listing->Some_0@.len() && final(self).open_listings()
                == old(self).open_listings().push((old(self)@.listings.len() as int, 0nat)),
            !(old(self).awaits_listing() && listing is Some) ==> final(self).entries_left()
                == old(self).entries_left() && final(self).open_listings() == old(self).open_listings(),
            !old(self).awaits_listing() ==> final(self).lists_next() == old(self).lists_next()
                && final(self).wants_ignore_file() == old(self).wants_ignore_file()
                && final(self).pending() == old(self).pending(),
    {
        proof {
            reveal(Walker::core_inv);
        }
        let dir = match &self.phase {
            Phase::ListAsked(d) => d.clone(),
            _ => {
                return;
            },
        };
        let ghost before = *self;
        self.phase = Phase::Walking;
        match listing {
            None => {
                proof {
                    self.lemma_same_walk(before);
                }
            },
            Some(entries) => {
                let ghost old_w = self@;
                let ghost lid = self.listings@.len() as int;
                let ghost chain = self.pending@;
                let frame = Frame {
                    dir,
                    entries,
                    next: 0,
                    chain: Ghost(chain),
                    listing: Ghost(lid),
                };
                self.listings = Ghost(self.listings@.push((chain, entries_view(frame.entries@))));
                let ghost from: int = if chain.len() == 0 {
                    -1
                } else {
                    self.visited@.len() - 1
                };
                self.listed_from = Ghost(self.listed_from@.push(from));
                let ghost old_stack = self.stack@;
                self.stack.push(frame);
                proof {
                    let w = self@;
                    assert(self.stack@.drop_last() == old_stack);
                    assert(self.open_listings() =~= listings_of(old_stack).push((lid, 0nat)));
                    assert forall|li: int, j: int| li != lid implies self.open_entry(li, j) == before.open_entry(li, j) by {
                        reveal(Walker::open_entry);
                        if before.open_entry(li, j) {
                            let i = choose|i: int| 0 <= i < old_stack.len() && (#[trigger] old_stack[i]).listing@ == li && j >= old_stack[i].next;
                            assert(self.stack@[i] == old_stack[i]);
                        }
                    }
                    assert forall|t: int| 0 <= t < w.visited.len() implies !self.open_entry(#[trigger] self.origin@[t].0, self.origin@[t].1) by {
                        assert(comes_from(old_w, w.visited[t], self.origin@[t].0, self.origin@[t].1));
                        assert(!before.open_entry(self.origin@[t].0, self.origin@[t].1));
                    }
                    assert forall|li: int| 0 <= li < w.listings.len() implies (#[trigger] w.listings[li]).0 == chain_at(w.visited, self.listed_from@[li]) by {
                        if li < lid {
                            assert(old_w.listings[li].0 == chain_at(old_w.visited, before.listed_from@[li]));
                        }
                    }
                    assert forall|li: int, lk: int| 0 <= li < lk < w.listings.len() implies #[trigger] self.listed_from@[li] < #[trigger] self.listed_from@[lk] by {
                        if lk < lid {
                            assert(before.listed_from@[li] < before.listed_from@[lk]);
                        } else {
                            assert(before.listed_from@[li] < old_w.visited.len() - 1);
                        }
                    }
                    assert forall|i: int| 0 <= i < self.stack@.len() implies (#[trigger] self.stack@[i]).ok(w) by {
                        if i < old_stack.len() {
                            assert(old_stack[i].ok(old_w));
                        }
                    }
                    assert forall|t: int| 0 <= t < w.visited.len() implies comes_from(w, #[trigger] w.visited[t], self.origin@[t].0, self.origin@[t].1) by {
                        assert(comes_from(old_w, w.visited[t], self.origin@[t].0, self.origin@[t].1));
                    }
                    assert forall|t: int| 0 <= t < w.visited.len() implies from_listing(w, #[trigger] w.visited[t]) by {
                        assert(comes_from(w, w.visited[t], self.origin@[t].0, self.origin@[t].1));
                    }
                    assert forall|li: int| 0 <= li < w.listings.len() implies admitted(w.rules, w.root, #[trigger] w.listings[li].0) by {
                        if li < lid {
                            assert(old_w.listings[li] == w.listings[li]);
                        }
                    }
                    assert forall|li: int, j: int| 0 <= li < w.listings.len() && 0 <= j < w.listings[li].1.len() && !self.open_entry(li, j) implies #[trigger] entry_done(w, li, j) by {
                        reveal(Walker::open_entry);
                        if li == lid {
                            let top = self.stack@.len() - 1;
                            assert(self.stack@[top].listing@ == li);
                            assert(self.open_entry(li, j)) by {
                                reveal(Walker::open_entry);
                            }
                        } else {
                            assert(old_w.listings[li] == w.listings[li]);
                            if exists|i: int| 0 <= i < old_stack.len() && (#[trigger] old_stack[i]).listing@ == li && j >= old_stack[i].next {
                                let i = choose|i: int| 0 <= i < old_stack.len() && (#[trigger] old_stack[i]).listing@ == li && j >= old_stack[i].next;
                                assert(self.stack@[i] == old_stack[i]);
                                assert(self.open_entry(li, j));
                            }
                            assert(entry_done(old_w, li, j));
                        }
                    }
                    assert forall|t: int| 0 <= t < w.visited.len() implies admitted(w.rules, w.root, #[trigger] w.visited[t]) by {
                        assert(admitted(old_w.rules, old_w.root, old_w.visited[t]));
                    }
                    assert(listings_distinct(w.listings) ==> listings_distinct(old_w.listings)) by {
                        reveal(listings_distinct);
                        if listings_distinct(w.listings) {
                            assert forall|li: int| 0 <= li < old_w.listings.len() implies names_distinct(#[trigger] old_w.listings[li].1) by {
                                assert(w.listings[li] == old_w.listings[li]);
                            }
                        }
                    }
                    assert forall|li: int| 0 <= li < w.listings.len() implies -1 <= #[trigger] self.listed_from@[li] < w.visited.len() by {
                        if li < lid {
                            assert(-1 <= before.listed_from@[li] < old_w.visited.len());
                        }
                    }
                    assert(self.core_inv());
                }
            },
        }
    }

    /// The next step of the walk: ask for the ignore file, ask for a
    /// directory's listing, hand out an entry, or say that the walk is over.
    /// An entry that is neither file nor directory, or that a rule hides, is
    /// passed over, and a hidden directory is never entered. A directory
    /// handed out is listed at the next step.
    #[verifier::rlimit(100)]
    pub fn next(&mut self) -> (r: WalkStep)
        requires
            old(self).inv(),
        ensures
            final(self).inv(),
            walk_sound(final(self)@),
            final(self)@.root == old(self)@.root,
            final(self)@.rules == old(self)@.rules,
            final(self)@.listings == old(self)@.listings,
            r is Found ==> {
                let w = final(self)@;
                &&& w.visited.len() == old(self)@.visited.len() + 1
                &&& w.visited.drop_last() == old(self)@.visited
                &&& r->Found_0@ == join(w.root, w.visited.last())
                &&& exists|li: int, j: int| #[trigger]
                    comes_from(w, w.visited.last(), li, j) && (r->Found_1 <==> w.listings[li].1[j].1
                        == EntryKind::Directory)
            },
            !(r is Found) ==> final(self)@.visited == old(self)@.visited,
            r is List ==> {
                &&& final(self).awaits_listing()
                &&& r->List_0@ == join(final(self)@.root, final(self).pending())
                &&& admitted(final(self)@.rules, final(self)@.root, final(self).pending())
            },
            r is LoadIgnore ==> final(self).awaits_ignore() && r->LoadIgnore_0@ == old(self)@.root
                + seq!['/'] + ignore_file_name(),
            r is Done ==> walk_complete(final(self)@),
            old(self).wants_ignore_file() ==> r is LoadIgnore,
            old(self).lists_next() ==> r is List && r->List_0@ == join(old(self)@.root, old(self).pending())
                && final(self).pending() == old(self).pending(),
            r is Found && r->Found_1 ==> final(self).lists_next() && final(self).pending()
                == final(self)@.visited.last(),
            r is Found && !r->Found_1 ==> !final(self).lists_next() && !final(self).wants_ignore_file(),
            r is Done ==> final(self).is_over(),
            old(self).is_over() ==> r is Done,
            old(self).walking() ==> r is Found || r is Done,
            old(self).walking() && old(self).entries_left() == 0 ==> r is Done,
            old(self).walking() && r is Found ==> final(self).entries_left() < old(self).entries_left(),
            r is Done ==> final(self).entries_left() == 0,
            old(self).walking() && r is Found ==> exists|m: int, j: int|
                #[trigger] depth_first_step(old(self).open_listings(), final(self).open_listings(), final(self)@, m, j),
            old(self).walking() && r is Done ==> forall|k: int| 0 <= k < old(self).open_listings().len() ==> all_hidden(
                final(self)@,
                (#[trigger] old(self).open_listings()[k]).0,
                old(self).open_listings()[k].1 as int,
                final(self)@.listings[old(self).open_listings()[k].0].1.len() as int,
            ),
    {
        let name = ".gitignore";
        proof {
            reveal_strlit(".gitignore");
            old(self).lemma_frames_ok();
        }
        assert(name@ == ignore_file_name());
        if let Phase::LoadIgnore = self.phase {
            let ghost before = *self;
            self.phase = Phase::IgnoreAsked;
            proof {
                self.lemma_same_walk(before);
            }
            return WalkStep::LoadIgnore(child_path(self.root.as_str(), name));
        }
        if let Phase::IgnoreAsked = self.phase {
            return WalkStep::LoadIgnore(child_path(self.root.as_str(), name));
        }
        let asked = match &self.phase {
            Phase::List(d) => Some(d.clone()),
            Phase::ListAsked(d) => Some(d.clone()),
            _ => None,
        };
        if let Some(d) = asked {
            let ghost before = *self;
            self.phase = Phase::ListAsked(d.clone());
            proof {
                self.lemma_same_walk(before);
            }
            return WalkStep::List(d);
        }
        let ghost start = self@;
        proof {
            lemma_frames_left(self.stack@, 0);
            if self.stack@.len() > 0 {
                let o = self.stack@.last();
                lemma_hidden_extend(start, o.listing@, o.next as int, 0);
            }
        }
        loop
            invariant
                self.inv(),
                self.phase is Walking,
                self@ == start,
                start == old(self)@,
                old(self).phase is Walking,
                old(self).is_over() ==> self.stack@.len() == 0,
                self.stack@.len() <= old(self).stack@.len(),
                forall|i: int| 0 <= i < self.stack@.len() - 1 ==> self.stack@[i] == old(self).stack@[i],
                self.stack@.len() > 0 ==> {
                    let t = self.stack@.last();
                    let o = old(self).stack@[self.stack@.len() - 1];
                    &&& t.listing@ == o.listing@
                    &&& t.entries@ == o.entries@
                    &&& t.next >= o.next
                    &&& all_hidden(start, o.listing@, o.next as int, t.next as int)
                },
                forall|k: int| self.stack@.len() <= k < old(self).stack@.len() ==> all_hidden(
                    start,
                    (#[trigger] old(self).stack@[k]).listing@,
                    old(self).stack@[k].next as int,
                    old(self).stack@[k].entries@.len() as int,
                ),
                forall|i: int| 0 <= i < old(self).stack@.len() ==> (#[trigger] old(self).stack@[i]).ok(start),
                frames_left(old(self).stack@) == 0 ==> forall|i: int| 0 <= i < old(self).stack@.len() ==> frame_left(#[trigger] old(self).stack@[i]) == 0,
            decreases self.stack@.len(), left_in_top(self.stack@),
        {
            let ghost before = *self;
            let ghost w = self@;
            match self.stack.pop() {
                None => {
                    proof {
                        self.lemma_same_walk(before);
                        self.lemma_done();
                        self.lemma_frames_ok();
                    }
                    assert forall|k: int| 0 <= k < old(self).open_listings().len() implies all_hidden(
                        self@,
                        (#[trigger] old(self).open_listings()[k]).0,
                        old(self).open_listings()[k].1 as int,
                        self@.listings[old(self).open_listings()[k].0].1.len() as int,
                    ) by {
                        assert(old(self).stack@[k].ok(start));
                        assert(old(self).open_listings()[k] == (old(self).stack@[k].listing@, old(self).stack@[k].next as nat));
                    }
                    return WalkStep::Done;
                },
                Some(mut f) => {
                    let ghost top = before.stack@.len() - 1;
                    proof {
                        before.lemma_frames_ok();
                    }
                    assert(before.stack@[top] == f);
                    assert(f.ok(w));
                    if f.next < f.entries.len() {
                        let j = f.next;
                        f.next = j + 1;
                        let path = child_path(f.dir.as_str(), f.entries[j].name.as_str());
                        let kind = f.entries[j].kind;
                        let ghost lid = f.listing@;
                        let ghost child = f.chain@.push(f.entries@[j as int].name@);
                        assert(w.listings[lid].1[j as int] == (f.entries@[j as int].name@, kind));
                        proof {
                            lemma_join_push(w.root, f.chain@, f.entries@[j as int].name@);
                        }
                        self.stack.push(f);
                        let shown = match kind {
                            EntryKind::Other => false,
                            _ => !self.ignore.check(path.as_str()),
                        };
                        assert(shown <==> entry_shown(w, lid, j as int));
                        if shown {
                            self.visited = Ghost(self.visited@.push(child));
                            self.origin = Ghost(self.origin@.push((lid, j as int)));
                            proof {
                                lemma_admitted_push(w.rules, w.root, f.chain@, f.entries@[j as int].name@);
                            }
                            let is_dir = match kind {
                                EntryKind::Directory => true,
                                _ => false,
                            };
                            if is_dir {
                                self.phase = Phase::List(path.clone());
                                self.pending = Ghost(child);
                            }
                            proof {
                                self.lemma_advance(before, lid, j as int, true);
                                self.lemma_frames_ok();
                            }
                            assert(comes_from(self@, self@.visited.last(), lid, j as int));
                            proof {
                                let os = old(self).stack@;
                                assert(self.stack@.drop_last() =~= os.take(top));
                                lemma_frames_left(os, top);
                                lemma_frames_left(os, top + 1);
                                assert(frame_left(self.stack@.last()) < frame_left(os[top]));
                                assert(frames_left(self.stack@) == frames_left(self.stack@.drop_last()) + frame_left(self.stack@.last()));
                                lemma_found_step(os, self.stack@, start, self@, j as int);
                                assert(depth_first_step(old(self).open_listings(), self.open_listings(), self@, top, j as int));
                            }
                            return WalkStep::Found(path, is_dir);
                        }
                        proof {
                            self.lemma_advance(before, lid, j as int, false);
                            let o = old(self).stack@[top];
                            lemma_hidden_extend(start, lid, o.next as int, j as int);
                        }
                    } else {
                        proof {
                            self.lemma_drop(before);
                            if self.stack@.len() > 0 {
                                let o = old(self).stack@[self.stack@.len() - 1];
                                lemma_hidden_extend(start, o.listing@, o.next as int, 0);
                            }
                        }
                    }
                },
            }
        }
    }
}

/// Hiding is inherited: when a rule hides the directory at `d`, no entry at
/// or beneath `d` is handed out, and no directory at or beneath `d` is
/// listed.
pub proof fn lemma_nothing_beneath_hidden(w: WalkView, d: Seq<Seq<char>>)
    requires
        walk_sound(w),
        d.len() >= 1,
        hides(w.rules, join(w.root, d)),
    ensures
        forall|c: Seq<Seq<char>>| #[trigger] w.visited.contains(c) ==> !(d.len() <= c.len() && c.take(d.len() as int) == d),
        forall|li: int| 0 <= li < w.listings.len() ==> !(d.len() <= (#[trigger] w.listings[li]).0.len() && w.listings[li].0.take(d.len() as int) == d),
{
    assert forall|c: Seq<Seq<char>>| #[trigger] w.visited.contains(c) implies !(d.len() <= c.len() && c.take(d.len() as int) == d) by {
        let t = choose|t: int| 0 <= t < w.visited.len() && w.visited[t] == c;
        assert(admitted(w.rules, w.root, w.visited[t]));
        if d.len() <= c.len() && c.take(d.len() as int) == d {
            assert(!hides(w.rules, join(w.root, c.take(d.len() as int))));
        }
    }
    assert forall|li: int| 0 <= li < w.listings.len() implies !(d.len() <= (#[trigger] w.listings[li]).0.len() && w.listings[li].0.take(d.len() as int) == d) by {
        let c = w.listings[li].0;
        assert(admitted(w.rules, w.root, c));
        if d.len() <= c.len() && c.take(d.len() as int) == d {
            assert(!hides(w.rules, join(w.root, c.take(d.len() as int))));
        }
    }
}

/// A finished walk handed out exactly the files and directories of the
/// listings it received that no rule hides, each once when no listing
/// repeats a name; so the paths among them that a pattern `pats` matches are
/// exactly the matching paths of those entries.
pub proof fn lemma_walk_is_exact(w: WalkView, pats: Seq<Seq<char>>)
    requires
        walk_sound(w),
        walk_complete(w),
    ensures
        forall|c: Seq<Seq<char>>| #[trigger] w.visited.contains(c) <==> exists|li: int, j: int|
            0 <= li < w.listings.len() && 0 <= j < w.listings[li].1.len() && c == w.listings[li].0.push(
                w.listings[li].1[j].0,
            ) && #[trigger] entry_shown(w, li, j),
        forall|c: Seq<Seq<char>>| (#[trigger] w.visited.contains(c) && any_finds(pats, join(w.root, c)))
            <==> exists|li: int, j: int|
            0 <= li < w.listings.len() && 0 <= j < w.listings[li].1.len() && c == w.listings[li].0.push(
                w.listings[li].1[j].0,
            ) && #[trigger] entry_shown(w, li, j) && any_finds(pats, join(w.root, c)),
        listings_distinct(w.listings) ==> w.visited.no_duplicates(),
{
    assert forall|c: Seq<Seq<char>>| #[trigger] w.visited.contains(c) implies exists|li: int, j: int|
        0 <= li < w.listings.len() && 0 <= j < w.listings[li].1.len() && c == w.listings[li].0.push(
            w.listings[li].1[j].0,
        ) && #[trigger] entry_shown(w, li, j) by {
        let t = choose|t: int| 0 <= t < w.visited.len() && w.visited[t] == c;
        assert(from_listing(w, w.visited[t]));
        let (li, j) = choose|li: int, j: int| #[trigger] comes_from(w, c, li, j);
        assert(admitted(w.rules, w.root, c));
        assert(c.take(c.len() as int) == c);
        assert(entry_shown(w, li, j));
    }
    assert forall|li: int, j: int|
        0 <= li < w.listings.len() && 0 <= j < w.listings[li].1.len() && #[trigger] entry_shown(w, li, j)
        implies w.visited.contains(w.listings[li].0.push(w.listings[li].1[j].0)) by {
        assert(entry_done(w, li, j));
    }
}

} // verus!
