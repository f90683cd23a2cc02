//! Regular expressions, matched by the `regex` crate.

use vstd::prelude::*;

use crate::text::from_chars;

verus! {

#[verifier::external_type_specification]
#[verifier::external_body]
pub struct ExRegex(regex::Regex);

/// Whether `regex::Regex::new` accepts the pattern.
pub uninterp spec fn regex_compiles(pattern: Seq<char>) -> bool;

/// What `regex::Regex::is_match` answers for a regex built from `pattern`.
pub uninterp spec fn regex_is_match(pattern: Seq<char>, text: Seq<char>) -> bool;

/// What `regex::Regex::captures` finds for a regex built from `pattern`:
/// the text of each capture group (`None` where a group took no part).
pub uninterp spec fn regex_captures(pattern: Seq<char>, text: Seq<char>) -> Option<
    Seq<Option<Seq<char>>>,
>;

/// A compiled regular expression, viewed as its source pattern.
pub struct Pattern {
    re: regex::Regex,
    source: Ghost<Seq<char>>,
}

impl View for Pattern {
    type V = Seq<char>;

    closed spec fn view(&self) -> Seq<char> {
        self.source@
    }
}

impl Pattern {
    /// A pattern was compiled from its source.
    #[verifier::type_invariant]
    spec fn compiled(&self) -> bool {
        regex_compiles(self.source@)
    }

    /// The source of a pattern compiles (it was compiled from it).
    pub fn source_compiles(&self)
        ensures
            regex_compiles(self@),
    {
        proof {
            use_type_invariant(self);
        }
    }

    /// Compiles `pattern` with `regex::Regex::new`; `None` where the crate
    /// refuses the pattern.
    #[verifier::external_body]
    pub(crate) fn new(pattern: &str) -> (r: Option<Pattern>)
        ensures
            r is Some <==> regex_compiles(pattern@),
            r matches Some(p) ==> p@ == pattern@,
    {
        match regex::Regex::new(pattern) {
            Ok(re) => Some(Pattern { re, source: Ghost(pattern@) }),
            Err(_) => None,
        }
    }

    /// `regex::Regex::is_match`: whether the regex matches somewhere in `text`.
    #[verifier::external_body]
    pub(crate) fn is_match(&self, text: &str) -> (r: bool)
        ensures
            r == regex_is_match(self@, text@),
    {
        self.re.is_match(text)
    }

    /// `regex::Regex::captures`: the capture groups of the first match in
    /// `text`; `Some` exactly when the regex matches (as the crate documents).
    #[verifier::external_body]
    pub(crate) fn captures(&self, text: &str) -> (r: Option<Vec<Option<String>>>)
        ensures
            r.deep_view() == regex_captures(self@, text@),
            r is Some <==> regex_is_match(self@, text@),
    {
        match self.re.captures(text) {
            Some(caps) => Some(caps.iter().map(|m| m.map(|m| m.as_str().to_string())).collect()),
            None => None,
        }
    }
}

/// `text` matches the regular expression `pattern` (a pattern that does not
/// compile matches nothing).
pub open spec fn matches_pattern(pattern: Seq<char>, text: Seq<char>) -> bool {
    regex_compiles(pattern) && regex_is_match(pattern, text)
}

/// The capture groups of `pattern` in `text` (none for a pattern that does
/// not compile).
pub open spec fn captures_pattern(pattern: Seq<char>, text: Seq<char>) -> Option<
    Seq<Option<Seq<char>>>,
> {
    if regex_compiles(pattern) {
        regex_captures(pattern, text)
    } else {
        None
    }
}

/// The text of group `i` of `caps`, empty where the group took no part.
pub open spec fn group(caps: Seq<Option<Seq<char>>>, i: int) -> Seq<char> {
    if 0 <= i < caps.len() && caps[i] is Some {
        caps[i]->0
    } else {
        seq![]
    }
}

/// Whether `p` (when present) matches the characters `text`.
pub fn pattern_matches(p: &Option<Pattern>, pattern: Ghost<Seq<char>>, text: &[char]) -> (r: bool)
    requires
        p is Some <==> regex_compiles(pattern@),
        p matches Some(q) ==> q@ == pattern@,
    ensures
        r == matches_pattern(pattern@, text@),
{
    match p {
        Some(q) => {
            let s = from_chars(text);
            q.is_match(s.as_str())
        },
        None => false,
    }
}

/// The capture groups of `p` (when present) in the characters `text`.
pub fn pattern_captures(p: &Option<Pattern>, pattern: Ghost<Seq<char>>, text: &[char]) -> (r:
    Option<Vec<Option<String>>>)
    requires
        p is Some <==> regex_compiles(pattern@),
        p matches Some(q) ==> q@ == pattern@,
    ensures
        r.deep_view() == captures_pattern(pattern@, text@),
{
    match p {
        Some(q) => {
            let s = from_chars(text);
            q.captures(s.as_str())
        },
        None => None,
    }
}

/// The text of group `i` of `caps` (empty where the group took no part).
pub fn group_chars(caps: &Vec<Option<String>>, i: usize) -> (r: Vec<char>)
    ensures
        r@ == group(caps.deep_view(), i as int),
{
    if i < caps.len() {
        match &caps[i] {
            Some(g) => {
                let r = crate::text::to_chars(g.as_str());
                assert(caps.deep_view()[i as int] == Some(g@));
                r
            },
            None => Vec::new(),
        }
    } else {
        Vec::new()
    }
}

} // verus!
