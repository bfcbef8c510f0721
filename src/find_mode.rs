//! The two ways of running a search: straight (walk and report matching
//! paths at once) and interactive (walk once into a snapshot, then answer
//! queries against it). The caller runs the loops; the decisions are here.
use vstd::prelude::*;
use vstd::string::StringExecFns;
use crate::text::{chars_of, is_prefix, push_char, starts_with, trim, trimmed};

verus! {

/// The decimal digits of `n`.
pub open spec fn decimal(n: nat) -> Seq<char>
    decreases n,
{
    if n < 10 {
        seq![digit_char(n)]
    } else {
        decimal(n / 10).push(digit_char(n % 10))
    }
}

/// The character of the decimal digit `d`.
pub open spec fn digit_char(d: nat) -> char {
    (('0' as nat) + d) as char
}

/// Appends the decimal digits of `n` to `s`.
fn push_decimal(s: &mut String, n: u64)
    ensures
        final(s)@ == old(s)@ + decimal(n as nat),
    decreases n,
{
    if n >= 10 {
        push_decimal(s, n / 10);
    }
    let d = (n % 10) as u32;
    let c = char_from_digit(d);
    push_char(s, c);
    if n < 10 {
        assert(old(s)@ + decimal(n as nat) == old(s)@.push(c));
    } else {
        assert(old(s)@ + decimal(n as nat) == (old(s)@ + decimal((n / 10) as nat)).push(c));
    }
}

fn char_from_digit(d: u32) -> (c: char)
    requires
        d < 10,
    ensures
        c == digit_char(d as nat),
{
    if d == 0 {
        '0'
    } else if d == 1 {
        '1'
    } else if d == 2 {
        '2'
    } else if d == 3 {
        '3'
    } else if d == 4 {
        '4'
    } else if d == 5 {
        '5'
    } else if d == 6 {
        '6'
    } else if d == 7 {
        '7'
    } else if d == 8 {
        '8'
    } else {
        '9'
    }
}

/// The start of a summary line.
pub open spec fn found_prefix() -> Seq<char> {
    seq!['f', 'o', 'u', 'n', 'd', ' ']
}

/// A word that ends the interactive loop.
pub open spec fn exit_word() -> Seq<char> {
    seq!['e', 'x', 'i', 't']
}

/// The modes of a search.
pub struct FindMode {}

impl FindMode {
    /// The line that ends a query: empty when nothing matched, otherwise
    /// `found N`.
    pub fn summary(found: u64) -> (r: String)
        ensures
            found == 0 ==> r@ == Seq::<char>::empty(),
            found > 0 ==> r@ == found_prefix() + decimal(found as nat),
    {
        if found == 0 {
            return String::new();
        }
        proof {
            reveal_strlit("found ");
        }
        let mut r = String::from_str("found ");
        push_decimal(&mut r, found);
        r
    }

    /// Reads one line typed at the prompt: nothing when it asks to leave (it
    /// starts with `q` or `exit`), else the pattern, without surrounding white
    /// space.
    pub fn command(line: &str) -> (r: Option<String>)
        ensures
            (is_prefix(seq!['q'], line@) || is_prefix(exit_word(), line@)) ==> r is None,
            !(is_prefix(seq!['q'], line@) || is_prefix(exit_word(), line@)) ==> r is Some
                && r->Some_0@ == trim(line@),
    {
        proof {
            reveal_strlit("q");
            reveal_strlit("exit");
        }
        assert("q"@ == seq!['q']);
        assert("exit"@ == exit_word());
        let v = chars_of(line);
        if starts_with(&v, "q") || starts_with(&v, "exit") {
            None
        } else {
            Some(trimmed(&v))
        }
    }
}

} // verus!
