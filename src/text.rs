//! Character-level helpers on strings and bytes.
use vstd::prelude::*;

verus! {

/// Relies on `String::push`: appends one character to the end of the string.
#[verifier::external_body]
pub(crate) fn push_char(s: &mut String, c: char)
    ensures
        final(s)@ == old(s)@.push(c),
{
    s.push(c)
}

/// Relies on `String::from_utf8`: the bytes are taken as the text when they are
/// well-formed UTF-8, and refused otherwise.
#[verifier::external_body]
pub(crate) fn decode_bytes(b: Vec<u8>) -> (r: Option<String>)
    ensures
        r is Some <==> vstd::utf8::valid_utf8(b@),
        r is Some ==> r->Some_0@ == vstd::utf8::decode_utf8(b@),
{
    match String::from_utf8(b) {
        Ok(s) => Some(s),
        Err(_) => None,
    }
}

/// The characters of a string, one by one.
pub fn chars_of(s: &str) -> (v: Vec<char>)
    ensures
        v@ == s@,
{
    let mut v: Vec<char> = Vec::new();
    for c in it: s.chars()
        invariant
            v@ == it.seq().take(it.index() as int),
            it.seq() == s@,
    {
        v.push(c);
    }
    v
}

/// The string of the characters `v[lo..hi]`.
pub fn string_of(v: &Vec<char>, lo: usize, hi: usize) -> (r: String)
    requires
        lo <= hi <= v@.len(),
    ensures
        r@ == v@.subrange(lo as int, hi as int),
{
    let mut r = String::new();
    let mut i: usize = lo;
    while i < hi
        invariant
            lo <= i <= hi,
            hi <= v@.len(),
            r@ == v@.subrange(lo as int, i as int),
        decreases hi - i,
    {
        push_char(&mut r, v[i]);
        assert(r@ == v@.subrange(lo as int, i + 1));
        i = i + 1;
    }
    r
}

/// Whether `p` is a prefix of `s`.
pub open spec fn is_prefix(p: Seq<char>, s: Seq<char>) -> bool {
    p.len() <= s.len() && s.take(p.len() as int) == p
}

/// Whether the characters `v` start with those of `p`.
pub fn starts_with(v: &Vec<char>, p: &str) -> (r: bool)
    ensures
        r == is_prefix(p@, v@),
{
    let pc = chars_of(p);
    if pc.len() > v.len() {
        return false;
    }
    let mut i: usize = 0;
    while i < pc.len()
        invariant
            pc@ == p@,
            pc@.len() <= v@.len(),
            i <= pc@.len(),
            v@.take(i as int) == pc@.take(i as int),
        decreases pc.len() - i,
    {
        if v[i] != pc[i] {
            assert(v@.take(pc@.len() as int)[i as int] != pc@[i as int]);
            return false;
        }
        assert(v@.take(i + 1) == pc@.take(i + 1));
        i = i + 1;
    }
    assert(pc@.take(pc@.len() as int) == pc@);
    true
}

/// Whether `c` is white space in the sense of Unicode's `White_Space` property.
pub open spec fn is_white(c: char) -> bool {
    ('\u{9}' <= c <= '\u{d}') || c == ' ' || c == '\u{85}' || c == '\u{a0}' || c == '\u{1680}' || (
    '\u{2000}' <= c <= '\u{200a}') || c == '\u{2028}' || c == '\u{2029}' || c == '\u{202f}' || c
        == '\u{205f}' || c == '\u{3000}'
}

fn char_is_white(c: char) -> (r: bool)
    ensures
        r == is_white(c),
{
    ('\u{9}' <= c && c <= '\u{d}') || c == ' ' || c == '\u{85}' || c == '\u{a0}' || c == '\u{1680}'
        || ('\u{2000}' <= c && c <= '\u{200a}') || c == '\u{2028}' || c == '\u{2029}' || c
        == '\u{202f}' || c == '\u{205f}' || c == '\u{3000}'
}

/// `s` without its leading white space.
pub open spec fn trim_start(s: Seq<char>) -> Seq<char>
    decreases s.len(),
{
    if s.len() > 0 && is_white(s[0]) {
        trim_start(s.drop_first())
    } else {
        s
    }
}

/// `s` without its trailing white space.
pub open spec fn trim_end(s: Seq<char>) -> Seq<char>
    decreases s.len(),
{
    if s.len() > 0 && is_white(s.last()) {
        trim_end(s.drop_last())
    } else {
        s
    }
}

/// `s` without leading and trailing white space.
pub open spec fn trim(s: Seq<char>) -> Seq<char> {
    trim_end(trim_start(s))
}

/// The characters `v` without leading and trailing white space.
pub fn trimmed(v: &Vec<char>) -> (r: String)
    ensures
        r@ == trim(v@),
{
    let n = v.len();
    let mut i: usize = 0;
    assert(v@.skip(0) == v@);
    while i < n && char_is_white(v[i])
        invariant
            i <= n == v@.len(),
            trim_start(v@) == trim_start(v@.skip(i as int)),
        decreases n - i,
    {
        assert(v@.skip(i as int).drop_first() == v@.skip(i + 1));
        i = i + 1;
    }
    assert(trim_start(v@) == v@.subrange(i as int, n as int));
    let mut j: usize = n;
    while j > i && char_is_white(v[j - 1])
        invariant
            i <= j <= n == v@.len(),
            trim(v@) == trim_end(v@.subrange(i as int, j as int)),
        decreases j - i,
    {
        assert(v@.subrange(i as int, j as int).drop_last() == v@.subrange(i as int, j - 1));
        j = j - 1;
    }
    string_of(v, i, j)
}

/// The value of a run of decimal digits.
pub open spec fn digits_value(s: Seq<char>) -> int
    decreases s.len(),
{
    if s.len() == 0 {
        0
    } else {
        10 * digits_value(s.drop_last()) + (s.last() as int - '0' as int)
    }
}

/// Whether `s` is one or more ASCII decimal digits.
pub open spec fn all_digits(s: Seq<char>) -> bool {
    s.len() >= 1 && forall|i: int| 0 <= i < s.len() ==> '0' <= #[trigger] s[i] <= '9'
}

/// The `i32` that `s` writes in decimal, with an optional sign, when there
/// is one; the reading of `str::parse::<i32>`.
pub open spec fn i32_of(s: Seq<char>) -> Option<int> {
    if s.len() >= 1 && s[0] == '-' {
        if all_digits(s.skip(1)) && digits_value(s.skip(1)) <= 0x8000_0000 {
            Some(-digits_value(s.skip(1)))
        } else {
            None
        }
    } else {
        let d = if s.len() >= 1 && s[0] == '+' {
            s.skip(1)
        } else {
            s
        };
        if all_digits(d) && digits_value(d) <= 0x7fff_ffff {
            Some(digits_value(d))
        } else {
            None
        }
    }
}

proof fn lemma_digits_grow(s: Seq<char>)
    requires
        forall|i: int| 0 <= i < s.len() ==> '0' <= #[trigger] s[i] <= '9',
    ensures
        digits_value(s) >= 0,
        s.len() >= 1 ==> digits_value(s) >= digits_value(s.drop_last()),
    decreases s.len(),
{
    if s.len() > 0 {
        lemma_digits_grow(s.drop_last());
    }
}

/// Reads a decimal `i32` from `v[lo..]`, as `str::parse::<i32>` does.
pub fn parse_i32(v: &Vec<char>, lo: usize) -> (r: Option<i32>)
    requires
        lo <= v@.len(),
    ensures
        r is Some <==> i32_of(v@.skip(lo as int)) is Some,
        r is Some ==> r->Some_0 as int == i32_of(v@.skip(lo as int))->Some_0,
{
    let ghost s = v@.skip(lo as int);
    let n = v.len();
    assert(lo < n ==> s[0] == v@[lo as int]);
    let mut start = lo;
    let mut negative = false;
    if lo < n && v[lo] == '-' {
        negative = true;
        start = lo + 1;
    } else if lo < n && v[lo] == '+' {
        start = lo + 1;
    }
    let ghost d = v@.skip(start as int);
    assert(start > lo ==> s.skip(1) == d);
    assert(start == lo ==> s == d);
    if start >= n {
        return None;
    }
    let bound: u64 = if negative {
        0x8000_0000
    } else {
        0x7fff_ffff
    };
    let mut acc: u64 = 0;
    let mut big = false;
    let mut i: usize = start;
    while i < n
        invariant
            lo <= start <= i <= n == v@.len(),
            d == v@.skip(start as int),
            forall|k: int| 0 <= k < i - start ==> '0' <= #[trigger] d[k] <= '9',
            !big ==> acc == digits_value(d.take(i - start)) && acc <= bound,
            big ==> digits_value(d.take(i - start)) > bound,
            bound <= 0x8000_0000,
            s == v@.skip(lo as int),
            negative ==> start == lo + 1 && s[0] == '-' && bound == 0x8000_0000,
            !negative ==> bound == 0x7fff_ffff,
            !negative && start > lo ==> start == lo + 1 && s[0] == '+',
            start == lo ==> s.len() >= 1 && s[0] != '-' && s[0] != '+',
            start > lo ==> s.skip(1) == d,
            start == lo ==> s == d,
        decreases n - i,
    {
        let c = v[i];
        if !('0' <= c && c <= '9') {
            assert(d[i - start] == c);
            assert(!all_digits(d));
            if negative {
                assert(s[0] == '-');
            } else if start > lo {
                assert(s[0] == '+');
            } else {
                assert(s.len() >= 1 && s[0] != '-' && s[0] != '+');
            }
            assert(i32_of(s) is None);
            return None;
        }
        let ghost t = d.take(i - start + 1);
        assert(t.drop_last() == d.take(i - start));
        assert(d[i - start] == c);
        proof {
            lemma_digits_grow(t);
        }
        if !big {
            let next = acc * 10 + (c as u64 - '0' as u64);
            if next > bound {
                big = true;
            } else {
                acc = next;
            }
        }
        i = i + 1;
    }
    assert(d.take(n - start) == d);
    if big {
        None
    } else if negative {
        Some((0 - acc as i64) as i32)
    } else {
        Some(acc as i32)
    }
}

} // verus!
