//! The pattern matcher: a list of compiled regular expressions, any of which
//! may match a string.
use vstd::prelude::*;
use crate::text::{chars_of, push_char};

verus! {

#[verifier::external_type_specification]
#[verifier::external_body]
pub struct ExRegex(regex::Regex);

/// What the regex crate says when it refuses the pattern `p` (a syntax error,
/// or a compiled program over the default size limit): the text of its
/// error, or nothing when it compiles `p`.
pub uninterp spec fn regex_refusal(p: Seq<char>) -> Option<Seq<char>>;

/// Whether the regex crate compiles the pattern `p`.
pub open spec fn regex_accepts(p: Seq<char>) -> bool {
    regex_refusal(p) is None
}

/// Whether the regular expression `p` matches somewhere inside `text`.
pub uninterp spec fn regex_finds(p: Seq<char>, text: Seq<char>) -> bool;

/// One compiled regular expression together with the text it was compiled from.
/// Only `compile_rule` builds one, so `regex` is always the compilation of
/// `source`.
pub struct Rule {
    regex: regex::Regex,
    source: Ghost<Seq<char>>,
}

/// Relies on `regex::Regex::new`: compiles the pattern, or returns the text of
/// the error when the pattern is refused.
#[verifier::external_body]
fn compile_rule(p: &str) -> (r: Result<Rule, String>)
    ensures
        r is Ok <==> regex_accepts(p@),
        r is Ok ==> r->Ok_0.source() == p@,
        r is Err ==> regex_refusal(p@) == Some(r->Err_0@),
{
    match regex::Regex::new(p) {
        Ok(re) => Ok(Rule { regex: re, source: Ghost(p@) }),
        Err(e) => Err(e.to_string()),
    }
}

/// Relies on `regex::Regex::is_match`: true when the rule's regular expression
/// matches anywhere in the haystack. The regex of a `Rule` is compiled from its
/// source.
#[verifier::external_body]
fn rule_is_match(rule: &Rule, haystack: &str) -> (r: bool)
    ensures
        r == regex_finds(rule.source@, haystack@),
{
    rule.regex.is_match(haystack)
}

impl Rule {
    /// The text the rule was compiled from.
    pub closed spec fn source(&self) -> Seq<char> {
        self.source@
    }

    /// Compiles `p`, or returns the compiler's message when it is refused.
    pub fn compile(p: &str) -> (r: Result<Rule, String>)
        ensures
            r is Ok <==> regex_accepts(p@),
            r is Ok ==> r->Ok_0.source() == p@,
            r is Err ==> regex_refusal(p@) == Some(r->Err_0@),
    {
        compile_rule(p)
    }

    /// Whether the rule matches somewhere inside `s`.
    pub fn is_match(&self, s: &str) -> (r: bool)
        ensures
            r == regex_finds(self.source(), s@),
    {
        rule_is_match(self, s)
    }
}

/// True when some pattern of `pats` matches somewhere inside `s`.
pub open spec fn any_finds(pats: Seq<Seq<char>>, s: Seq<char>) -> bool {
    exists|i: int| 0 <= i < pats.len() && regex_finds(#[trigger] pats[i], s)
}

/// The regular expression that stands for one character of a glob.
pub open spec fn glob_char(c: char) -> Seq<char> {
    if c == '*' {
        seq!['[', '^', '/', ']', '*']
    } else if c == '.' {
        seq!['\\', '.']
    } else if c == '?' {
        seq!['.']
    } else {
        seq![c]
    }
}

/// The regular expression for a glob: `**` is any run of characters, `*` any run
/// of characters other than `/`, `?` any one character, and `.` is literal.
pub open spec fn glob_to_regex(g: Seq<char>) -> Seq<char>
    decreases g.len(),
{
    if g.len() == 0 {
        seq![]
    } else if g.len() >= 2 && g[0] == '*' && g[1] == '*' {
        seq!['.', '*'] + glob_to_regex(g.skip(2))
    } else {
        glob_char(g[0]) + glob_to_regex(g.skip(1))
    }
}

/// The name of a version-control metadata directory.
pub open spec fn vcs_name() -> Seq<char> {
    seq!['.', 'g', 'i', 't']
}

/// Whether a path component of `s` that is exactly `.git` starts at index `i`.
pub open spec fn vcs_component_at(s: Seq<char>, i: int) -> bool {
    &&& 0 <= i
    &&& i + 4 <= s.len()
    &&& s.subrange(i, i + 4) == vcs_name()
    &&& (i == 0 || s[i - 1] == '/')
    &&& (i + 4 == s.len() || s[i + 4] == '/')
}

/// Whether some path component of `s` is `.git`.
pub open spec fn has_vcs_component(s: Seq<char>) -> bool {
    exists|i: int| vcs_component_at(s, i)
}

/// A set of rules: regular expressions, and whether paths through a
/// version-control metadata directory are hidden too.
pub struct RuleSet {
    pub patterns: Seq<Seq<char>>,
    pub vcs: bool,
}

/// Whether the rule set `r` matches `s`.
pub open spec fn hides(r: RuleSet, s: Seq<char>) -> bool {
    any_finds(r.patterns, s) || (r.vcs && has_vcs_component(s))
}

/// Whether some path component of `v` is `.git`.
fn vcs_component(v: &Vec<char>) -> (r: bool)
    ensures
        r == has_vcs_component(v@),
{
    let n = v.len();
    if n < 4 {
        return false;
    }
    let mut i: usize = 0;
    while i <= n - 4
        invariant
            n == v@.len(),
            n >= 4,
            i <= n - 3,
            forall|k: int| 0 <= k < i ==> !vcs_component_at(v@, k),
        decreases n - i,
    {
        let starts = i == 0 || v[i - 1] == '/';
        let ends = i + 4 == n || v[i + 4] == '/';
        if starts && ends && v[i] == '.' && v[i + 1] == 'g' && v[i + 2] == 'i' && v[i + 3] == 't' {
            assert(v@.subrange(i as int, i + 4) =~= vcs_name());
            assert(vcs_component_at(v@, i as int));
            return true;
        }
        assert(!vcs_component_at(v@, i as int)) by {
            if vcs_component_at(v@, i as int) {
                assert(v@.subrange(i as int, i + 4)[0] == v@[i as int]);
                assert(v@.subrange(i as int, i + 4)[1] == v@[i + 1]);
                assert(v@.subrange(i as int, i + 4)[2] == v@[i + 2]);
                assert(v@.subrange(i as int, i + 4)[3] == v@[i + 3]);
            }
        }
        i = i + 1;
    }
    assert forall|k: int| !vcs_component_at(v@, k) by {
        if 0 <= k < i {
        }
    }
    false
}

/// The rules that the lines of an ignore file give: one for each non-empty
/// line whose translation compiles, in order.
pub open spec fn rules_of_lines(lines: Seq<Seq<char>>) -> Seq<Seq<char>>
    decreases lines.len(),
{
    if lines.len() == 0 {
        seq![]
    } else {
        let rest = rules_of_lines(lines.drop_last());
        let g = lines.last();
        if g.len() > 0 && regex_accepts(glob_to_regex(g)) {
            rest.push(glob_to_regex(g))
        } else {
            rest
        }
    }
}

/// Translates one glob into the text of a regular expression.
pub fn translate_glob(g: &str) -> (r: String)
    ensures
        r@ == glob_to_regex(g@),
{
    let v = chars_of(g);
    let n = v.len();
    let mut r = String::new();
    let mut i: usize = 0;
    assert(g@.skip(0) == g@);
    assert(seq![] + g@ == g@);
    while i < n
        invariant
            n == v@.len(),
            v@ == g@,
            i <= n,
            glob_to_regex(g@) == r@ + glob_to_regex(g@.skip(i as int)),
        decreases n - i,
    {
        let ghost rest = g@.skip(i as int);
        if i + 1 < n && v[i] == '*' && v[i + 1] == '*' {
            assert(rest.skip(2) == g@.skip(i + 2));
            push_char(&mut r, '.');
            push_char(&mut r, '*');
            i = i + 2;
        } else {
            let c = v[i];
            assert(rest.skip(1) == g@.skip(i + 1));
            if c == '*' {
                push_char(&mut r, '[');
                push_char(&mut r, '^');
                push_char(&mut r, '/');
                push_char(&mut r, ']');
                push_char(&mut r, '*');
            } else if c == '.' {
                push_char(&mut r, '\\');
                push_char(&mut r, '.');
            } else if c == '?' {
                push_char(&mut r, '.');
            } else {
                push_char(&mut r, c);
            }
            i = i + 1;
        }
        assert(glob_to_regex(g@) == r@ + glob_to_regex(g@.skip(i as int)));
    }
    assert(g@.skip(n as int).len() == 0);
    assert(r@ + seq![] == r@);
    r
}

/// A set of rules; a string is matched when any rule finds a match in it.
pub struct RegexHelper {
    rules: Vec<Rule>,
    vcs: bool,
}

impl View for RegexHelper {
    type V = RuleSet;

    /// The source texts of the rules, in order, and whether version-control
    /// metadata directories are hidden.
    closed spec fn view(&self) -> RuleSet {
        RuleSet { patterns: self.rules@.map_values(|r: Rule| r.source()), vcs: self.vcs }
    }
}

impl Default for RegexHelper {
    /// The matcher without rules.
    fn default() -> (r: RegexHelper)
        ensures
            r@ == (RuleSet { patterns: Seq::empty(), vcs: false }),
    {
        RegexHelper::new()
    }
}

impl RegexHelper {
    /// The matcher without rules: it matches nothing.
    pub fn new() -> (r: RegexHelper)
        ensures
            r@ == (RuleSet { patterns: Seq::empty(), vcs: false }),
    {
        let r = RegexHelper { rules: Vec::new(), vcs: false };
        assert(r@.patterns =~= Seq::<Seq<char>>::empty());
        r
    }

    /// The matcher of one pattern, or the compiler's message when the pattern
    /// is refused.
    pub fn from_string(pattern: &str) -> (r: Result<RegexHelper, String>)
        ensures
            r is Ok <==> regex_accepts(pattern@),
            r is Ok ==> r->Ok_0@ == (RuleSet { patterns: seq![pattern@], vcs: false }),
            r is Err ==> regex_refusal(pattern@) == Some(r->Err_0@),
    {
        match Rule::compile(pattern) {
            Ok(rule) => {
                let mut rules: Vec<Rule> = Vec::new();
                rules.push(rule);
                let h = RegexHelper { rules, vcs: false };
                assert(h@.patterns =~= seq![pattern@]);
                Ok(h)
            },
            Err(e) => Err(e),
        }
    }

    /// The matcher of an ignore file's lines: each non-empty line is read as a
    /// glob, a line whose translation does not compile is dropped, and any
    /// path through a version-control metadata directory is hidden as well.
    pub fn from_gitignore(lines: &Vec<String>) -> (r: RegexHelper)
        ensures
            r@ == (RuleSet { patterns: rules_of_lines(lines@.map_values(|l: String| l@)), vcs: true }),
    {
        let ghost ls = lines@.map_values(|l: String| l@);
        let mut rules: Vec<Rule> = Vec::new();
        let mut i: usize = 0;
        while i < lines.len()
            invariant
                i <= lines.len(),
                ls == lines@.map_values(|l: String| l@),
                rules@.map_values(|r: Rule| r.source()) == rules_of_lines(ls.take(i as int)),
            decreases lines.len() - i,
        {
            let line = &lines[i];
            assert(ls.take(i + 1).drop_last() == ls.take(i as int));
            assert(ls.take(i + 1).last() == line@);
            if !line.as_str().is_empty() {
                let pattern = translate_glob(line.as_str());
                match Rule::compile(pattern.as_str()) {
                    Ok(rule) => {
                        rules.push(rule);
                        assert(rules@.map_values(|r: Rule| r.source()) =~= rules_of_lines(
                            ls.take(i + 1),
                        ));
                    },
                    Err(_) => {},
                }
            }
            i = i + 1;
        }
        assert(ls.take(lines.len() as int) == ls);
        let h = RegexHelper { rules, vcs: true };
        h
    }

    /// Whether any rule finds a match inside `s`, or, when version-control
    /// metadata directories are hidden, some path component of `s` is `.git`.
    pub fn check(&self, s: &str) -> (r: bool)
        ensures
            r == hides(self@, s@),
    {
        if self.vcs && vcs_component(&chars_of(s)) {
            return true;
        }
        let mut i: usize = 0;
        while i < self.rules.len()
            invariant
                i <= self.rules.len(),
                !(self.vcs && has_vcs_component(s@)),
                forall|j: int| 0 <= j < i ==> !regex_finds(#[trigger] self@.patterns[j], s@),
            decreases self.rules.len() - i,
        {
            if self.rules[i].is_match(s) {
                assert(regex_finds(self@.patterns[i as int], s@));
                return true;
            }
            i = i + 1;
        }
        false
    }

    /// Whether the matcher holds no rule: it matches nothing.
    pub fn is_empty(&self) -> (r: bool)
        ensures
            r <==> self@.patterns.len() == 0 && !self@.vcs,
    {
        self.rules.len() == 0 && !self.vcs
    }
}

} // verus!
