//! Formats Android resource files (XML): one attribute per line when an
//! element is wide, nested indentation, and blank lines around comments
//! according to whether they describe what follows or what precedes.

use vstd::prelude::*;

use super::action::{ActionTrait, ActionTraitInternal, EnabledSetting, RunPlan, enabled_in,
    entries_after_selection};
use crate::error::HookError;
use crate::pattern::{Pattern, matches_pattern, pattern_matches};
use crate::repo::config::GitConfig;
use crate::repo::Item;
use crate::text::{
    blank, byte_len, char_utf8_len, contains, contains_char, contains_seq, cviews, ends_with,
    lemma_contains_left, lemma_contains_right, lemma_contains_self,
    extend_chars, from_chars, has_suffix, is_ws, is_whitespace, join, join_chars,
    lemma_utf8_len_bound, lines, slice_chars, split_lines, sviews, to_chars, trim, trim_chars,
    utf8_len,
};
use crate::xml::{XmlAttribute, XmlDocument, XmlElement, XmlNamespace, XmlNode, doc_described,
    lemma_children_depth, lemma_node_depth_size, lemma_seq_size_prefix, node_depth, parse_counted,
    parsed_xml, records_well_formed, seq_size};

verus! {

/// One level of indentation.
pub const INDENT: &'static str = "    ";

/// Indentation of attributes written one per line.
pub const WRAP_INDENT: &'static str = "    ";

/// Width above which an element's attributes go one per line.
pub const LINE_LIMIT: usize = 100;

/// Comments matching this describe what precedes them.
pub const SUFFIX_COMMENT_PATTERN: &'static str = "LINT\\.ThenChange";

/// Display name of the formatter.
pub const RESOURCE_ACTION_NAME: &'static str = "Android resource files (xml) formatter";

/// Formats the Android resource files of a commit.
pub struct AndroidResourceFormatterAction<C> {
    setting: EnabledSetting<C>,
}

/// Where a comment belongs.
#[derive(Debug, Clone, Copy, PartialEq, Eq, Structural)]
pub enum CommentType {
    /// Describes what follows: adjacent to the next element.
    PrefixComment,
    /// Describes what precedes: adjacent to the previous element, followed
    /// by an empty line.
    SuffixComment,
}

// ---------------------------------------------------------------------------
// Specification: text helpers

/// `n` spaces.
pub open spec fn spaces(n: nat) -> Seq<char> {
    Seq::new(n, |i: int| ' ')
}

/// The indentation of nesting level `indent`.
pub open spec fn pad(indent: nat) -> Seq<char> {
    spaces(4 * indent)
}

/// A comment that describes what precedes it.
pub open spec fn is_suffix_comment(text: Seq<char>) -> bool {
    matches_pattern(SUFFIX_COMMENT_PATTERN@, text)
}

/// The escape of one character of element text.
pub open spec fn escape_text_char(c: char) -> Seq<char> {
    if c == '&' {
        seq!['&', 'a', 'm', 'p', ';']
    } else if c == '<' {
        seq!['&', 'l', 't', ';']
    } else if c == '>' {
        seq!['&', 'g', 't', ';']
    } else {
        seq![c]
    }
}

/// The escape of one character of an attribute value.
pub open spec fn escape_attr_char(c: char) -> Seq<char> {
    if c == '"' {
        seq!['&', 'q', 'u', 'o', 't', ';']
    } else {
        escape_text_char(c)
    }
}

/// Element text with `&`, `<` and `>` escaped.
pub open spec fn escaped_text(s: Seq<char>) -> Seq<char>
    decreases s.len(),
{
    if s.len() == 0 {
        seq![]
    } else {
        escaped_text(s.drop_last()) + escape_text_char(s.last())
    }
}

/// An attribute value with `&`, `<`, `>` and `"` escaped.
pub open spec fn escaped_attr(s: Seq<char>) -> Seq<char>
    decreases s.len(),
{
    if s.len() == 0 {
        seq![]
    } else {
        escaped_attr(s.drop_last()) + escape_attr_char(s.last())
    }
}

/// Position of the first non-white-space character of `l`.
pub open spec fn first_non_ws(l: Seq<char>) -> Option<nat>
    decreases l.len(),
{
    if l.len() == 0 {
        None
    } else if !is_ws(l[0]) {
        Some(0)
    } else {
        match first_non_ws(l.drop_first()) {
            Some(i) => Some(i + 1),
            None => None,
        }
    }
}

/// The least indentation among the lines `ls` that are not blank.
pub open spec fn min_indent(ls: Seq<Seq<char>>) -> Option<nat>
    decreases ls.len(),
{
    if ls.len() == 0 {
        None
    } else {
        match (min_indent(ls.drop_last()), first_non_ws(ls.last())) {
            (Some(a), Some(b)) => Some(if a <= b {
                a
            } else {
                b
            }),
            (Some(a), None) => Some(a),
            (None, b) => b,
        }
    }
}

/// The minimum indentation of `input`, its first line excepted (it may
/// follow the comment markup directly); 0 when there is none.
pub open spec fn computed_indent(input: Seq<char>) -> nat {
    let ls = lines(input);
    if ls.len() == 0 {
        0
    } else {
        match min_indent(ls.drop_first()) {
            Some(m) => m,
            None => 0,
        }
    }
}

/// Number of characters of `l` that make up its first `k` bytes, where `k`
/// falls on a character boundary within `l`.
pub open spec fn chars_in_bytes(l: Seq<char>, k: nat) -> Option<nat>
    decreases l.len(),
{
    if k == 0 {
        Some(0)
    } else if l.len() == 0 {
        None
    } else if char_utf8_len(l[0]) <= k {
        match chars_in_bytes(l.drop_first(), (k - char_utf8_len(l[0])) as nat) {
            Some(j) => Some(j + 1),
            None => None,
        }
    } else {
        None
    }
}

/// `l` without its first `k` bytes: empty where `l` is no longer than that
/// (a blank line shorter than the indentation), else `&l[k..]`; `None` where
/// `k` falls inside a character.
pub open spec fn drop_bytes(l: Seq<char>, k: nat) -> Option<Seq<char>> {
    if utf8_len(l) <= k {
        Some(seq![])
    } else {
        match chars_in_bytes(l, k) {
            Some(j) => Some(l.skip(j as int)),
            None => None,
        }
    }
}

/// Each line without its first `k` bytes.
pub open spec fn drop_bytes_all(ls: Seq<Seq<char>>, k: nat) -> Option<Seq<Seq<char>>>
    decreases ls.len(),
{
    if ls.len() == 0 {
        Some(seq![])
    } else {
        match (drop_bytes_all(ls.drop_last(), k), drop_bytes(ls.last(), k)) {
            (Some(a), Some(b)) => Some(a.push(b)),
            _ => None,
        }
    }
}

/// `input` with its first line trimmed and `indent` bytes removed from each
/// other line (a line no longer than that becomes empty); `None` where the
/// indentation would cut a character.
pub open spec fn dedented(input: Seq<char>, indent: nat) -> Option<Seq<char>> {
    let ls = lines(input);
    if ls.len() == 0 {
        Some(seq![])
    } else {
        match drop_bytes_all(ls.drop_first(), indent) {
            Some(rest) => Some(trim(ls[0]) + seq!['\n'] + join(rest, seq!['\n'])),
            None => None,
        }
    }
}

/// `input` with `indent` spaces before each line.
pub open spec fn indented(input: Seq<char>, indent: nat) -> Seq<char> {
    join(lines(input).map_values(|l: Seq<char>| spaces(indent) + l), seq!['\n'])
}

/// A multi-line comment re-indented: its common indentation removed, then
/// `target_indent` spaces added to each line.
pub open spec fn processed_comment(input: Seq<char>, target_indent: nat) -> Option<Seq<char>> {
    match dedented(input, computed_indent(input)) {
        Some(d) => Some(indented(d, target_indent)),
        None => None,
    }
}

// ---------------------------------------------------------------------------
// Implementation: text helpers

/// Whether a comment describes what precedes or what follows it.
pub fn classify_comment(text: &str) -> (r: CommentType)
    ensures
        r == (if is_suffix_comment(text@) {
            CommentType::SuffixComment
        } else {
            CommentType::PrefixComment
        }),
{
    let p = Pattern::new(SUFFIX_COMMENT_PATTERN);
    let cs = to_chars(text);
    if pattern_matches(&p, Ghost(SUFFIX_COMMENT_PATTERN@), cs.as_slice()) {
        CommentType::SuffixComment
    } else {
        CommentType::PrefixComment
    }
}

/// Appends `n` spaces.
fn push_spaces(out: &mut Vec<char>, n: usize)
    ensures
        final(out)@ == old(out)@ + spaces(n as nat),
{
    let mut i: usize = 0;
    while i < n
        invariant
            i <= n,
            out@ == old(out)@ + spaces(i as nat),
        decreases n - i,
    {
        out.push(' ');
        i = i + 1;
        assert(out@ =~= old(out)@ + spaces(i as nat));
    }
}

/// Appends the indentation of level `indent`.
fn push_pad(out: &mut Vec<char>, indent: usize)
    ensures
        final(out)@ == old(out)@ + pad(indent as nat),
{
    let mut i: usize = 0;
    while i < indent
        invariant
            i <= indent,
            out@ == old(out)@ + spaces(4 * i as nat),
        decreases indent - i,
    {
        out.push(' ');
        out.push(' ');
        out.push(' ');
        out.push(' ');
        i = i + 1;
        assert(out@ =~= old(out)@ + spaces(4 * i as nat));
    }
}

/// Appends `s` escaped as element text.
fn push_escaped_text(out: &mut Vec<char>, s: &[char])
    ensures
        final(out)@ == old(out)@ + escaped_text(s@),
{
    let mut i: usize = 0;
    while i < s.len()
        invariant
            i <= s.len(),
            out@ == old(out)@ + escaped_text(s@.take(i as int)),
        decreases s.len() - i,
    {
        let c = s[i];
        assert(s@.take(i + 1).drop_last() =~= s@.take(i as int));
        assert(s@.take(i + 1).last() == c);
        if c == '&' {
            out.push('&');
            out.push('a');
            out.push('m');
            out.push('p');
            out.push(';');
        } else if c == '<' {
            out.push('&');
            out.push('l');
            out.push('t');
            out.push(';');
        } else if c == '>' {
            out.push('&');
            out.push('g');
            out.push('t');
            out.push(';');
        } else {
            out.push(c);
        }
        assert(out@ =~= old(out)@ + escaped_text(s@.take(i + 1)));
        i = i + 1;
    }
    assert(s@.take(i as int) =~= s@);
}

/// Appends `s` escaped as an attribute value.
fn push_escaped_attr(out: &mut Vec<char>, s: &[char])
    ensures
        final(out)@ == old(out)@ + escaped_attr(s@),
{
    let mut i: usize = 0;
    while i < s.len()
        invariant
            i <= s.len(),
            out@ == old(out)@ + escaped_attr(s@.take(i as int)),
        decreases s.len() - i,
    {
        let c = s[i];
        assert(s@.take(i + 1).drop_last() =~= s@.take(i as int));
        assert(s@.take(i + 1).last() == c);
        if c == '"' {
            out.push('&');
            out.push('q');
            out.push('u');
            out.push('o');
            out.push('t');
            out.push(';');
        } else if c == '&' {
            out.push('&');
            out.push('a');
            out.push('m');
            out.push('p');
            out.push(';');
        } else if c == '<' {
            out.push('&');
            out.push('l');
            out.push('t');
            out.push(';');
        } else if c == '>' {
            out.push('&');
            out.push('g');
            out.push('t');
            out.push(';');
        } else {
            out.push(c);
        }
        assert(out@ =~= old(out)@ + escaped_attr(s@.take(i + 1)));
        i = i + 1;
    }
    assert(s@.take(i as int) =~= s@);
}

/// Position of the first non-white-space character of `l`.
fn find_non_ws(l: &[char]) -> (r: Option<usize>)
    ensures
        r matches Some(i) ==> first_non_ws(l@) == Some(i as nat) && i < l@.len(),
        r is None ==> first_non_ws(l@) is None,
{
    let mut i: usize = 0;
    assert(l@.skip(0) =~= l@);
    while i < l.len()
        invariant
            i <= l@.len(),
            first_non_ws(l@) == match first_non_ws(l@.skip(i as int)) {
                Some(j) => Some((j + i) as nat),
                None => None,
            },
        decreases l@.len() - i,
    {
        assert(l@.skip(i as int)[0] == l@[i as int]);
        assert(l@.skip(i as int).drop_first() =~= l@.skip(i + 1));
        if !is_whitespace(l[i]) {
            return Some(i);
        }
        i = i + 1;
    }
    assert(l@.skip(i as int) =~= Seq::<char>::empty());
    None
}

/// The minimum indentation of `input`'s lines after the first (see
/// [`computed_indent`]).
fn compute_indent(ls: &Vec<Vec<char>>) -> (r: usize)
    ensures
        ls@.len() > 0 ==> r == match min_indent(cviews(ls@).drop_first()) {
            Some(m) => m,
            None => 0,
        },
        ls@.len() == 0 ==> r == 0,
{
    if ls.len() == 0 {
        return 0;
    }
    let ghost rest = cviews(ls@).drop_first();
    let mut best: Option<usize> = None;
    let mut i: usize = 1;
    while i < ls.len()
        invariant
            1 <= i <= ls@.len(),
            rest == cviews(ls@).drop_first(),
            match best {
                Some(b) => min_indent(rest.take(i - 1)) == Some(b as nat),
                None => min_indent(rest.take(i - 1)) is None,
            },
        decreases ls@.len() - i,
    {
        assert(rest.take(i as int).drop_last() =~= rest.take(i - 1));
        assert(rest.take(i as int).last() == ls@[i as int]@);
        match find_non_ws(ls[i].as_slice()) {
            Some(p) => {
                best = match best {
                    Some(b) => Some(if b <= p { b } else { p }),
                    None => Some(p),
                };
            },
            None => {},
        }
        i = i + 1;
    }
    assert(rest.take(i - 1) =~= rest);
    match best {
        Some(b) => b,
        None => 0,
    }
}

/// `&l[k..]`: `l` without its first `k` bytes, where that is a character
/// boundary within `l`.
fn drop_leading_bytes(l: &[char], k: usize) -> (r: Option<Vec<char>>)
    ensures
        r matches Some(v) ==> drop_bytes(l@, k as nat) == Some(v@),
        r is None ==> drop_bytes(l@, k as nat) is None,
{
    if byte_len(l) <= k as u128 {
        return Some(Vec::new());
    }
    let mut i: usize = 0;
    let mut used: u128 = 0;
    assert(l@.skip(0) =~= l@);
    while used < k as u128 && i < l.len()
        invariant
            i <= l@.len(),
            used <= k,
            utf8_len(l@) > k,
            chars_in_bytes(l@, k as nat) == match chars_in_bytes(l@.skip(i as int), (k - used) as nat) {
                Some(j) => Some((j + i) as nat),
                None => None,
            },
        decreases l@.len() - i,
    {
        let c = len_of(l[i]);
        assert(l@.skip(i as int)[0] == l@[i as int]);
        assert(l@.skip(i as int).drop_first() =~= l@.skip(i + 1));
        if c > k as u128 - used {
            return None;
        }
        used = used + c;
        i = i + 1;
    }
    if used < k as u128 {
        assert(l@.skip(i as int) =~= Seq::<char>::empty());
        return None;
    }
    Some(slice_chars(l, i, l.len()))
}

fn len_of(c: char) -> (r: u128)
    ensures
        r == char_utf8_len(c),
{
    crate::text::len_utf8(c)
}

/// Re-indents a multi-line comment (see [`processed_comment`]).
fn process_comment(input: &[char], target_indent: usize) -> (r: Option<Vec<char>>)
    ensures
        r matches Some(v) ==> processed_comment(input@, target_indent as nat) == Some(v@),
        r is None ==> processed_comment(input@, target_indent as nat) is None,
{
    let ls = split_lines(input);
    let def_indent = compute_indent(&ls);
    assert(def_indent == computed_indent(input@));
    // dedent
    let mut d: Vec<char> = Vec::new();
    if ls.len() > 0 {
        let ghost rest = cviews(ls@).drop_first();
        let mut dropped: Vec<Vec<char>> = Vec::new();
        let mut i: usize = 1;
        while i < ls.len()
            invariant
                1 <= i <= ls@.len(),
                rest == cviews(ls@).drop_first(),
                cviews(ls@) == lines(input@),
                def_indent == computed_indent(input@),
                drop_bytes_all(rest.take(i - 1), def_indent as nat) == Some(cviews(dropped@)),
            decreases ls@.len() - i,
        {
            assert(rest.take(i as int).drop_last() =~= rest.take(i - 1));
            assert(rest.take(i as int).last() == ls@[i as int]@);
            match drop_leading_bytes(ls[i].as_slice(), def_indent) {
                Some(v) => {
                    let ghost before = dropped@;
                    dropped.push(v);
                    assert(cviews(dropped@) =~= cviews(before).push(v@));
                },
                None => {
                    proof {
                        assert(drop_bytes_all(rest.take(i as int), def_indent as nat) is None);
                        lemma_drop_all_prefix_none(rest, i as int, def_indent as nat);
                        assert(lines(input@) == cviews(ls@));
                        assert(dedented(input@, def_indent as nat) is None);
                    }
                    return None;
                },
            }
            i = i + 1;
        }
        assert(rest.take(i - 1) =~= rest);
        d = trim_chars(ls[0].as_slice());
        d.push('\n');
        let nl: [char; 1] = ['\n'];
        assert(nl@ =~= seq!['\n']);
        let joined = join_chars(&dropped, &nl);
        extend_chars(&mut d, joined.as_slice());
    }
    assert(dedented(input@, def_indent as nat) == Some(d@));
    // indent
    let dl = split_lines(d.as_slice());
    let ghost dv = cviews(dl@);
    let mut shifted: Vec<Vec<char>> = Vec::new();
    let mut j: usize = 0;
    while j < dl.len()
        invariant
            j <= dl@.len(),
            dv == cviews(dl@),
            cviews(shifted@) == dv.take(j as int).map_values(|l: Seq<char>| spaces(target_indent as nat) + l),
        decreases dl@.len() - j,
    {
        let mut v: Vec<char> = Vec::new();
        push_spaces(&mut v, target_indent);
        extend_chars(&mut v, dl[j].as_slice());
        let ghost before = shifted@;
        shifted.push(v);
        assert(cviews(shifted@) =~= cviews(before).push(v@));
        assert(dv.take(j + 1).map_values(|l: Seq<char>| spaces(target_indent as nat) + l) =~= dv.take(
            j as int,
        ).map_values(|l: Seq<char>| spaces(target_indent as nat) + l).push(spaces(target_indent as nat) + dv[j as int]));
        j = j + 1;
    }
    assert(dv.take(j as int) =~= dv);
    let nl: [char; 1] = ['\n'];
    assert(nl@ =~= seq!['\n']);
    Some(join_chars(&shifted, &nl))
}

proof fn lemma_drop_all_prefix_none(ls: Seq<Seq<char>>, i: int, k: nat)
    requires
        0 <= i <= ls.len(),
        drop_bytes_all(ls.take(i), k) is None,
    ensures
        drop_bytes_all(ls, k) is None,
    decreases ls.len() - i,
{
    if i < ls.len() {
        assert(ls.take(i + 1).drop_last() =~= ls.take(i));
        lemma_drop_all_prefix_none(ls, i + 1, k);
    } else {
        assert(ls.take(i) =~= ls);
    }
}

// ---------------------------------------------------------------------------
// Specification: the formatter

/// The first line of every formatted file.
pub const XML_DECLARATION: &'static str = "<?xml version=\"1.0\" encoding=\"utf-8\"?>\n";

/// Scopes viewed as the namespace lists they refer to.
pub open spec fn scope_seq(s: Seq<&Vec<XmlNamespace>>) -> Seq<Seq<XmlNamespace>> {
    s.map_values(|v: &Vec<XmlNamespace>| v@)
}

/// The prefix of the first namespace of `nss` whose URI is `uri`.
pub open spec fn find_in(nss: Seq<XmlNamespace>, uri: Seq<char>) -> Option<Option<String>>
    decreases nss.len(),
{
    if nss.len() == 0 {
        None
    } else if nss[0].uri@ == uri {
        Some(nss[0].name)
    } else {
        find_in(nss.drop_first(), uri)
    }
}

/// The prefix bound to `uri`, looked up from the innermost scope (the last)
/// outwards.
pub open spec fn find_prefix(scopes: Seq<Seq<XmlNamespace>>, uri: Seq<char>) -> Option<
    Option<String>,
>
    decreases scopes.len(),
{
    if scopes.len() == 0 {
        None
    } else {
        match find_in(scopes.last(), uri) {
            Some(n) => Some(n),
            None => find_prefix(scopes.drop_last(), uri),
        }
    }
}

/// `prefix:name` where the namespace has a prefix in scope, else `name`.
pub open spec fn qualified(name: Seq<char>, ns: Option<String>, scopes: Seq<Seq<XmlNamespace>>) -> Seq<
    char,
> {
    match ns {
        Some(u) => match find_prefix(scopes, u@) {
            Some(Some(p)) => p@ + seq![':'] + name,
            _ => name,
        },
        None => name,
    }
}

/// `="value"`.
pub open spec fn quoted(s: Seq<char>) -> Seq<char> {
    seq!['=', '"'] + s + seq!['"']
}

/// `xmlns:prefix="uri"` (an empty prefix for the default namespace).
pub open spec fn ns_pair(ns: XmlNamespace) -> Seq<char> {
    seq!['x', 'm', 'l', 'n', 's', ':'] + (match ns.name {
        Some(n) => n@,
        None => seq![],
    }) + quoted(ns.uri@)
}

/// `name="escaped value"`.
pub open spec fn attr_pair(a: XmlAttribute, scopes: Seq<Seq<XmlNamespace>>) -> Seq<char> {
    qualified(a.name@, a.namespace, scopes) + quoted(escaped_attr(a.value@))
}

/// The attributes written on an element's opening tag: the namespace
/// declarations (top level only), then its attributes.
pub open spec fn element_pairs(e: XmlElement, indent: nat, scopes: Seq<Seq<XmlNamespace>>) -> Seq<
    Seq<char>,
> {
    (if indent == 0 {
        e.namespaces@.map_values(|ns: XmlNamespace| ns_pair(ns))
    } else {
        seq![]
    }) + e.attributes@.map_values(|a: XmlAttribute| attr_pair(a, scopes))
}

/// Bytes the pairs take on one line, a space before each.
pub open spec fn pairs_len(ps: Seq<Seq<char>>) -> int
    decreases ps.len(),
{
    if ps.len() == 0 {
        0
    } else {
        pairs_len(ps.drop_last()) + 1 + utf8_len(ps.last())
    }
}

/// The pairs after the tag: one per line (indented) or on the tag's line.
pub open spec fn attrs_text(ps: Seq<Seq<char>>, p: Seq<char>, multiline: bool) -> Seq<char>
    decreases ps.len(),
{
    if ps.len() == 0 {
        seq![]
    } else {
        attrs_text(ps.drop_last(), p, multiline) + (if multiline {
            seq!['\n'] + p + spaces(4) + ps.last()
        } else {
            seq![' '] + ps.last()
        })
    }
}

/// The element's text: its first child when that is text, trimmed.
pub open spec fn first_text(e: XmlElement) -> Seq<char> {
    if e.children@.len() > 0 {
        match e.children@[0] {
            XmlNode::Text(t) => trim(t@),
            _ => seq![],
        }
    } else {
        seq![]
    }
}

/// A child that is an element or a comment.
pub open spec fn is_tag_or_comment(n: XmlNode) -> bool {
    n is Element || n is Comment
}

/// Some child is an element or a comment.
pub open spec fn has_tags_or_comments(cs: Seq<XmlNode>) -> bool {
    exists|i: int| 0 <= i < cs.len() && is_tag_or_comment(#[trigger] cs[i])
}

/// A formatted comment at level `indent`, and whether an empty line follows
/// it; `None` where its lines cannot be re-indented.
pub open spec fn comment_spec(raw: Seq<char>, indent: nat, add_linebreak: bool) -> Option<
    (Seq<char>, bool),
> {
    let text = trim(raw);
    let lb: Seq<char> = if add_linebreak {
        seq!['\n']
    } else {
        seq![]
    };
    let p = pad(indent);
    if text.contains('\n') {
        match processed_comment(p + text, 4 * indent) {
            Some(pt) => Some(
                (
                    lb + p + seq!['<', '!', '-', '-', '\n'] + pt + seq!['\n'] + p + seq![
                        '-',
                        '-',
                        '>',
                        '\n',
                    ],
                    is_suffix_comment(text),
                ),
            ),
            None => None,
        }
    } else {
        Some(
            (
                lb + p + seq!['<', '!', '-', '-', ' '] + text + seq![' ', '-', '-', '>', '\n'],
                is_suffix_comment(text),
            ),
        )
    }
}

/// A formatted node at level `indent` (after an empty line if
/// `add_linebreak`), and whether an empty line should follow it.
pub open spec fn node_spec(
    n: XmlNode,
    indent: nat,
    add_linebreak: bool,
    scopes: Seq<Seq<XmlNamespace>>,
) -> Option<(Seq<char>, bool)>
    decreases n, 0nat,
{
    let lb: Seq<char> = if add_linebreak {
        seq!['\n']
    } else {
        seq![]
    };
    match n {
        XmlNode::Comment(t) => comment_spec(t@, indent, add_linebreak),
        XmlNode::Element(e) => match element_spec(e, indent, scopes) {
            Some((s, r)) => Some((lb + s, r)),
            None => None,
        },
        _ => Some((lb, false)),
    }
}

/// The first `k` children of `e` formatted at level `indent + 1`, with
/// whether an empty line should follow and whether no element was written
/// yet.
pub open spec fn children_spec(
    e: XmlElement,
    k: nat,
    indent: nat,
    scopes: Seq<Seq<XmlNamespace>>,
    first_newline: bool,
) -> Option<(Seq<char>, bool, bool)>
    decreases e, k,
{
    if k == 0 || k > e.children@.len() {
        Some((seq![], first_newline, true))
    } else {
        match children_spec(e, (k - 1) as nat, indent, scopes, first_newline) {
            Some((s, add_newline, is_first)) => {
                let child = e.children@[k - 1];
                match child {
                    XmlNode::Comment(t) => {
                        let slb = if is_suffix_comment(trim(t@)) {
                            false
                        } else {
                            !is_first
                        };
                        match node_spec(child, indent + 1, slb, scopes) {
                            Some((cs, r)) => Some((s + cs, r, is_first)),
                            None => None,
                        }
                    },
                    XmlNode::Element(_) => match node_spec(child, indent + 1, add_newline, scopes) {
                        Some((cs, r)) => Some((s + cs, r, false)),
                        None => None,
                    },
                    _ => Some((s, add_newline, is_first)),
                }
            },
            None => None,
        }
    }
}

/// The qualified name of `e` with the scopes `sc` (its own included).
pub open spec fn element_tag(e: XmlElement, sc: Seq<Seq<XmlNamespace>>) -> Seq<char> {
    qualified(e.name@, e.namespace, sc)
}

/// The length of the opening tag written on one line, without the indentation.
pub open spec fn inline_len(e: XmlElement, indent: nat, sc: Seq<Seq<XmlNamespace>>) -> int {
    utf8_len(element_tag(e, sc)) + 2 + pairs_len(element_pairs(e, indent, sc))
}

/// Whether the attributes of `e` go one per line: more than three of them, or
/// a tag line longer than [`LINE_LIMIT`].
pub open spec fn multiline_attrs(e: XmlElement, indent: nat, sc: Seq<Seq<XmlNamespace>>) -> bool {
    element_pairs(e, indent, sc).len() > 3 || inline_len(e, indent, sc) > LINE_LIMIT
}

/// The opening tag of `e` up to, not including, its closing `>`.
pub open spec fn open_tag(e: XmlElement, indent: nat, sc: Seq<Seq<XmlNamespace>>) -> Seq<char> {
    pad(indent) + seq!['<'] + element_tag(e, sc) + attrs_text(
        element_pairs(e, indent, sc),
        pad(indent),
        multiline_attrs(e, indent, sc),
    )
}

/// `</tag>` and a line break.
pub open spec fn close_tag(tag: Seq<char>) -> Seq<char> {
    seq!['<', '/'] + tag + seq!['>', '\n']
}

/// Whether `e` is written on one line with its text.
pub open spec fn is_inline_leaf(e: XmlElement, indent: nat, sc: Seq<Seq<XmlNamespace>>) -> bool {
    let text = first_text(e);
    &&& !has_tags_or_comments(e.children@)
    &&& text.len() > 0
    &&& !text.contains('\n')
    &&& utf8_len(pad(indent)) + utf8_len(text) + inline_len(e, indent, sc) + 3 < LINE_LIMIT
}

/// The opening tag of an element with content, and its text on a line of
/// its own when it has any.
pub open spec fn block_head(e: XmlElement, indent: nat, sc: Seq<Seq<XmlNamespace>>) -> Seq<char> {
    let text = first_text(e);
    open_tag(e, indent, sc) + seq!['>', '\n'] + (if text.len() > 0 {
        pad(indent) + spaces(4) + escaped_text(text) + seq!['\n']
    } else {
        seq![]
    })
}

/// A formatted element at level `indent`, and whether an empty line should
/// follow it: attributes on the tag's line unless there are more than three
/// or the line would pass [`LINE_LIMIT`]; short text inline; empty elements
/// self-closed; children one level deeper.
#[verifier::opaque]
pub open spec fn element_spec(e: XmlElement, indent: nat, scopes: Seq<Seq<XmlNamespace>>) -> Option<
    (Seq<char>, bool),
>
    decreases e, e.children@.len() + 1,
{
    let sc = scopes.push(e.namespaces@);
    let ml = multiline_attrs(e, indent, sc);
    let text = first_text(e);
    let eoc = has_tags_or_comments(e.children@);
    let close = close_tag(element_tag(e, sc));
    if is_inline_leaf(e, indent, sc) {
        Some((open_tag(e, indent, sc) + seq!['>'] + escaped_text(text) + close, ml))
    } else if !eoc && text.len() == 0 {
        Some((open_tag(e, indent, sc) + seq!['/', '>', '\n'], ml))
    } else {
        match children_spec(e, e.children@.len(), indent, sc, ml) {
            Some((cs, _, _)) => Some(
                (
                    block_head(e, indent, sc) + cs + (if ml {
                        seq!['\n']
                    } else {
                        seq![]
                    }) + pad(indent) + close,
                    ml || eoc,
                ),
            ),
            None => None,
        }
    }
}

/// The top-level nodes formatted one after the other.
pub open spec fn top_level_spec(nodes: Seq<XmlNode>) -> Option<Seq<char>>
    decreases nodes.len(),
{
    if nodes.len() == 0 {
        Some(seq![])
    } else {
        match (top_level_spec(nodes.drop_last()), node_spec(nodes.last(), 0, false, seq![])) {
            (Some(a), Some((b, _))) => Some(a + b),
            _ => None,
        }
    }
}

/// The formatted document: the XML declaration, then each top-level node;
/// `None` where a comment's lines cannot be re-indented.
pub open spec fn formatted_doc(doc: XmlDocument) -> Option<Seq<char>> {
    match top_level_spec(doc.children@) {
        Some(s) => Some(XML_DECLARATION@ + s),
        None => None,
    }
}

/// Depth of the deepest top-level node.
pub open spec fn doc_depth(nodes: Seq<XmlNode>) -> nat
    decreases nodes.len(),
{
    if nodes.len() == 0 {
        0
    } else {
        let a = doc_depth(nodes.drop_last());
        let b = node_depth(nodes.last());
        if a >= b {
            a
        } else {
            b
        }
    }
}

// ---------------------------------------------------------------------------
// Implementation: the formatter

/// Cap on the computed inline length: every length past it compares the same.
const INLINE_CAP: u128 = 1000;

/// The prefix of the first namespace of `nss` bound to `uri`.
fn find_in_list(nss: &Vec<XmlNamespace>, uri: &[char]) -> (r: Option<Option<String>>)
    ensures
        r == find_in(nss@, uri@),
{
    let mut i: usize = 0;
    assert(nss@.skip(0) =~= nss@);
    while i < nss.len()
        invariant
            i <= nss@.len(),
            find_in(nss@, uri@) == find_in(nss@.skip(i as int), uri@),
        decreases nss@.len() - i,
    {
        assert(nss@.skip(i as int)[0] == nss@[i as int]);
        assert(nss@.skip(i as int).drop_first() =~= nss@.skip(i + 1));
        let u = to_chars(nss[i].uri.as_str());
        if crate::text::chars_eq(u.as_slice(), uri) {
            return match &nss[i].name {
                Some(n) => Some(Some(n.clone())),
                None => Some(None),
            };
        }
        i = i + 1;
    }
    assert(nss@.skip(i as int) =~= Seq::<XmlNamespace>::empty());
    None
}

/// The prefix bound to `uri` in `scopes`, innermost first.
fn lookup_prefix(scopes: &Vec<&Vec<XmlNamespace>>, uri: &[char]) -> (r: Option<Option<String>>)
    ensures
        r == find_prefix(scope_seq(scopes@), uri@),
{
    let ghost sv = scope_seq(scopes@);
    let mut i: usize = scopes.len();
    assert(sv.take(i as int) =~= sv);
    while i > 0
        invariant
            i <= scopes@.len(),
            sv == scope_seq(scopes@),
            find_prefix(sv, uri@) == find_prefix(sv.take(i as int), uri@),
        decreases i,
    {
        assert(sv.take(i as int).drop_last() =~= sv.take(i - 1));
        assert(sv.take(i as int).last() == scopes@[i - 1]@);
        let found = find_in_list(scopes[i - 1], uri);
        if found.is_some() {
            return found;
        }
        i = i - 1;
    }
    None
}

/// `prefix:name` where the namespace has a prefix in scope, else `name`.
fn qualified_name(name: &String, ns: &Option<String>, scopes: &Vec<&Vec<XmlNamespace>>) -> (r: Vec<
    char,
>)
    ensures
        r@ == qualified(name@, *ns, scope_seq(scopes@)),
{
    let n = to_chars(name.as_str());
    match ns {
        Some(u) => {
            let uc = to_chars(u.as_str());
            match lookup_prefix(scopes, uc.as_slice()) {
                Some(Some(p)) => {
                    let mut v = to_chars(p.as_str());
                    v.push(':');
                    extend_chars(&mut v, n.as_slice());
                    v
                },
                _ => n,
            }
        },
        None => n,
    }
}

/// Appends `="value"`.
fn push_quoted(out: &mut Vec<char>, v: &[char])
    ensures
        final(out)@ == old(out)@ + quoted(v@),
{
    out.push('=');
    out.push('"');
    extend_chars(out, v);
    out.push('"');
    assert(final(out)@ =~= old(out)@ + quoted(v@));
}

/// The pairs written on the opening tag of `e`.
fn element_pair_list(e: &XmlElement, indent: usize, scopes: &Vec<&Vec<XmlNamespace>>) -> (r: Vec<
    Vec<char>,
>)
    ensures
        cviews(r@) == element_pairs(*e, indent as nat, scope_seq(scopes@)),
{
    let mut out: Vec<Vec<char>> = Vec::new();
    let ghost nsv = e.namespaces@.map_values(|ns: XmlNamespace| ns_pair(ns));
    if indent == 0 {
        let mut i: usize = 0;
        while i < e.namespaces.len()
            invariant
                i <= e.namespaces@.len(),
                nsv == e.namespaces@.map_values(|ns: XmlNamespace| ns_pair(ns)),
                cviews(out@) == nsv.take(i as int),
            decreases e.namespaces@.len() - i,
        {
            let ns = &e.namespaces[i];
            let mut v: Vec<char> = Vec::new();
            v.push('x');
            v.push('m');
            v.push('l');
            v.push('n');
            v.push('s');
            v.push(':');
            match &ns.name {
                Some(n) => extend_chars(&mut v, to_chars(n.as_str()).as_slice()),
                None => {},
            }
            let uc = to_chars(ns.uri.as_str());
            push_quoted(&mut v, uc.as_slice());
            assert(v@ =~= ns_pair(*ns));
            let ghost before = out@;
            out.push(v);
            assert(cviews(out@) =~= cviews(before).push(ns_pair(*ns)));
            assert(nsv.take(i + 1) =~= nsv.take(i as int).push(ns_pair(*ns)));
            i = i + 1;
        }
        assert(nsv.take(i as int) =~= nsv);
    }
    let ghost base = cviews(out@);
    let ghost av = e.attributes@.map_values(|a: XmlAttribute| attr_pair(a, scope_seq(scopes@)));
    assert(base == (if indent == 0 {
        nsv
    } else {
        Seq::<Seq<char>>::empty()
    }));
    let mut j: usize = 0;
    while j < e.attributes.len()
        invariant
            j <= e.attributes@.len(),
            av == e.attributes@.map_values(|a: XmlAttribute| attr_pair(a, scope_seq(scopes@))),
            cviews(out@) == base + av.take(j as int),
        decreases e.attributes@.len() - j,
    {
        let a = &e.attributes[j];
        let mut v = qualified_name(&a.name, &a.namespace, scopes);
        let mut esc: Vec<char> = Vec::new();
        let vc = to_chars(a.value.as_str());
        push_escaped_attr(&mut esc, vc.as_slice());
        assert(esc@ =~= escaped_attr(a.value@));
        push_quoted(&mut v, esc.as_slice());
        let ghost before = out@;
        out.push(v);
        assert(cviews(out@) =~= cviews(before).push(attr_pair(*a, scope_seq(scopes@))));
        assert(av.take(j + 1) =~= av.take(j as int).push(attr_pair(*a, scope_seq(scopes@))));
        j = j + 1;
    }
    assert(av.take(j as int) =~= av);
    out
}

/// The inline length of a tag and its pairs, capped at [`INLINE_CAP`].
fn capped_inline_len(tag: &[char], pairs: &Vec<Vec<char>>) -> (r: u128)
    ensures
        r == (if utf8_len(tag@) + 2 + pairs_len(cviews(pairs@)) < INLINE_CAP {
            utf8_len(tag@) + 2 + pairs_len(cviews(pairs@))
        } else {
            INLINE_CAP as int
        }),
{
    let ghost pv = cviews(pairs@);
    let tl = byte_len(tag);
    proof {
        lemma_utf8_len_bound(tag@);
    }
    let mut total: u128 = if tl + 2 < INLINE_CAP {
        tl + 2
    } else {
        INLINE_CAP
    };
    proof {
        lemma_utf8_len_bound(tag@);
    }
    let mut i: usize = 0;
    while i < pairs.len()
        invariant
            i <= pairs@.len(),
            pv == cviews(pairs@),
            tl == utf8_len(tag@),
            total == (if utf8_len(tag@) + 2 + pairs_len(pv.take(i as int)) < INLINE_CAP {
                utf8_len(tag@) + 2 + pairs_len(pv.take(i as int))
            } else {
                INLINE_CAP as int
            }),
        decreases pairs@.len() - i,
    {
        assert(pv.take(i + 1).drop_last() =~= pv.take(i as int));
        assert(pv.take(i + 1).last() == pairs@[i as int]@);
        let pl = byte_len(pairs[i].as_slice());
        proof {
            lemma_utf8_len_bound(pairs@[i as int]@);
            lemma_pairs_len_nonneg(pv.take(i as int));
        }
        if total + 1 + pl < INLINE_CAP {
            total = total + 1 + pl;
        } else {
            total = INLINE_CAP;
        }
        i = i + 1;
    }
    assert(pv.take(i as int) =~= pv);
    total
}

proof fn lemma_pairs_len_nonneg(ps: Seq<Seq<char>>)
    ensures
        pairs_len(ps) >= 0,
    decreases ps.len(),
{
    if ps.len() > 0 {
        lemma_pairs_len_nonneg(ps.drop_last());
    }
}

/// Appends the pairs after the tag (see [`attrs_text`]).
fn push_attrs(out: &mut Vec<char>, pairs: &Vec<Vec<char>>, indent: usize, multiline: bool)
    ensures
        final(out)@ == old(out)@ + attrs_text(cviews(pairs@), pad(indent as nat), multiline),
{
    let ghost pv = cviews(pairs@);
    let mut i: usize = 0;
    assert(old(out)@ + attrs_text(pv.take(0), pad(indent as nat), multiline) =~= old(out)@);
    while i < pairs.len()
        invariant
            i <= pairs@.len(),
            pv == cviews(pairs@),
            out@ == old(out)@ + attrs_text(pv.take(i as int), pad(indent as nat), multiline),
        decreases pairs@.len() - i,
    {
        assert(pv.take(i + 1).drop_last() =~= pv.take(i as int));
        assert(pv.take(i + 1).last() == pairs@[i as int]@);
        let ghost before = out@;
        if multiline {
            out.push('\n');
            push_pad(out, indent);
            push_spaces(out, 4);
        } else {
            out.push(' ');
        }
        extend_chars(out, pairs[i].as_slice());
        assert(out@ =~= old(out)@ + attrs_text(pv.take(i + 1), pad(indent as nat), multiline));
        i = i + 1;
    }
    assert(pv.take(i as int) =~= pv);
}

/// The element's text (see [`first_text`]).
fn element_text(e: &XmlElement) -> (r: Vec<char>)
    ensures
        r@ == first_text(*e),
{
    if e.children.len() > 0 {
        match &e.children[0] {
            XmlNode::Text(t) => {
                let tc = to_chars(t.as_str());
                trim_chars(tc.as_slice())
            },
            _ => Vec::new(),
        }
    } else {
        Vec::new()
    }
}

/// Whether some child is an element or a comment.
fn any_tag_or_comment(cs: &Vec<XmlNode>) -> (r: bool)
    ensures
        r == has_tags_or_comments(cs@),
{
    let mut i: usize = 0;
    while i < cs.len()
        invariant
            i <= cs@.len(),
            forall|j: int| 0 <= j < i ==> !is_tag_or_comment(#[trigger] cs@[j]),
        decreases cs@.len() - i,
    {
        match &cs[i] {
            XmlNode::Element(_) => {
                assert(is_tag_or_comment(cs@[i as int]));
                return true;
            },
            XmlNode::Comment(_) => {
                assert(is_tag_or_comment(cs@[i as int]));
                return true;
            },
            _ => {},
        }
        i = i + 1;
    }
    false
}

/// Appends the opening of a comment: `<!--` and a line break or a space.
fn push_comment_open(out: &mut Vec<char>, multiline: bool)
    ensures
        final(out)@ == old(out)@ + seq!['<', '!', '-', '-', if multiline { '\n' } else { ' ' }],
{
    out.push('<');
    out.push('!');
    out.push('-');
    out.push('-');
    if multiline {
        out.push('\n');
    } else {
        out.push(' ');
    }
    assert(final(out)@ =~= old(out)@ + seq!['<', '!', '-', '-', if multiline { '\n' } else { ' ' }]);
}

/// Appends `-->` and a line break.
fn push_comment_close(out: &mut Vec<char>)
    ensures
        final(out)@ == old(out)@ + seq!['-', '-', '>', '\n'],
{
    out.push('-');
    out.push('-');
    out.push('>');
    out.push('\n');
    assert(final(out)@ =~= old(out)@ + seq!['-', '-', '>', '\n']);
}

/// Appends a formatted comment (see [`comment_spec`]).
fn format_comment(raw: &String, indent: usize, add_linebreak: bool, out: &mut Vec<char>) -> (r:
    Option<bool>)
    requires
        indent < usize::MAX / 4,
    ensures
        match comment_spec(raw@, indent as nat, add_linebreak) {
            Some((s, b)) => r == Some(b) && final(out)@ == old(out)@ + s,
            None => r is None,
        },
{
    let rc = to_chars(raw.as_str());
    let text = trim_chars(rc.as_slice());
    let ts = from_chars(text.as_slice());
    let suffix = classify_comment(ts.as_str()) == CommentType::SuffixComment;
    let ghost p = pad(indent as nat);
    let ghost lb: Seq<char> = if add_linebreak {
        seq!['\n']
    } else {
        seq![]
    };
    let mut s: Vec<char> = Vec::new();
    if add_linebreak {
        s.push('\n');
    }
    assert(s@ =~= lb);
    if contains_char(text.as_slice(), '\n') {
        let mut full: Vec<char> = Vec::new();
        push_pad(&mut full, indent);
        extend_chars(&mut full, text.as_slice());
        match process_comment(full.as_slice(), 4 * indent) {
            Some(pt) => {
                push_pad(&mut s, indent);
                push_comment_open(&mut s, true);
                extend_chars(&mut s, pt.as_slice());
                s.push('\n');
                push_pad(&mut s, indent);
                push_comment_close(&mut s);
                assert(s@ =~= lb + p + seq!['<', '!', '-', '-', '\n'] + pt@ + seq!['\n'] + p
                    + seq!['-', '-', '>', '\n']);
                extend_chars(out, s.as_slice());
                Some(suffix)
            },
            None => None,
        }
    } else {
        push_pad(&mut s, indent);
        push_comment_open(&mut s, false);
        extend_chars(&mut s, text.as_slice());
        s.push(' ');
        push_comment_close(&mut s);
        assert(s@ =~= lb + p + seq!['<', '!', '-', '-', ' '] + text@ + seq![' ', '-', '-', '>', '\n']);
        extend_chars(out, s.as_slice());
        Some(suffix)
    }
}

proof fn lemma_utf8_len_spaces(n: nat)
    ensures
        utf8_len(spaces(n)) == n,
    decreases n,
{
    if n > 0 {
        assert(spaces(n).drop_last() =~= spaces((n - 1) as nat));
        lemma_utf8_len_spaces((n - 1) as nat);
    }
}

/// Once a child cannot be formatted, the element cannot be either.
proof fn lemma_children_none(
    e: XmlElement,
    k: nat,
    k2: nat,
    indent: nat,
    scopes: Seq<Seq<XmlNamespace>>,
    first_newline: bool,
)
    requires
        0 < k <= k2 <= e.children@.len(),
        children_spec(e, k, indent, scopes, first_newline) is None,
    ensures
        children_spec(e, k2, indent, scopes, first_newline) is None,
    decreases k2 - k,
{
    if k < k2 {
        lemma_children_none(e, k, (k2 - 1) as nat, indent, scopes, first_newline);
    }
}

/// Appends `</tag>` and a line break.
fn push_close_tag(out: &mut Vec<char>, tag: &[char])
    ensures
        final(out)@ == old(out)@ + close_tag(tag@),
{
    out.push('<');
    out.push('/');
    extend_chars(out, tag);
    out.push('>');
    out.push('\n');
    assert(final(out)@ =~= old(out)@ + close_tag(tag@));
}

/// Whether a comment describes what precedes it.
fn comment_is_suffix(raw: &String) -> (r: bool)
    ensures
        r == is_suffix_comment(trim(raw@)),
{
    let rc = to_chars(raw.as_str());
    let text = trim_chars(rc.as_slice());
    let ts = from_chars(text.as_slice());
    classify_comment(ts.as_str()) == CommentType::SuffixComment
}

/// Appends the formatted node (see [`node_spec`]).
#[verifier::spinoff_prover]
fn format_node<'a>(
    n: &'a XmlNode,
    indent: usize,
    add_linebreak: bool,
    scopes: &mut Vec<&'a Vec<XmlNamespace>>,
    out: &mut Vec<char>,
) -> (r: Option<bool>)
    requires
        indent + node_depth(*n) < usize::MAX / 4,
    ensures
        final(scopes)@ == old(scopes)@,
        match node_spec(*n, indent as nat, add_linebreak, scope_seq(old(scopes)@)) {
            Some((s, b)) => r == Some(b) && final(out)@ == old(out)@ + s,
            None => r is None,
        },
    decreases n, 0nat,
{
    match n {
        XmlNode::Element(e) => {
            if add_linebreak {
                out.push('\n');
            }
            let ghost mid = out@;
            let res = format_element(e, indent, scopes, out);
            proof {
                if add_linebreak {
                    assert(mid =~= old(out)@ + seq!['\n']);
                } else {
                    assert(mid =~= old(out)@ + Seq::<char>::empty());
                }
                match element_spec(*e, indent as nat, scope_seq(old(scopes)@)) {
                    Some((s, b)) => {
                        assert(final(out)@ =~= old(out)@ + (if add_linebreak {
                            seq!['\n']
                        } else {
                            Seq::<char>::empty()
                        } + s));
                    },
                    None => {},
                }
            }
            res
        },
        XmlNode::Comment(t) => format_comment(t, indent, add_linebreak, out),
        _ => {
            if add_linebreak {
                out.push('\n');
            }
            proof {
                let lb: Seq<char> = if add_linebreak {
                    seq!['\n']
                } else {
                    seq![]
                };
                assert(out@ =~= old(out)@ + lb);
                assert(node_spec(*n, indent as nat, add_linebreak, scope_seq(old(scopes)@)) == Some(
                    (lb, false),
                ));
            }
            Some(false)
        },
    }
}

/// Appends the opening tag of `e` without its closing `>` (see
/// [`open_tag`]); returns the tag's name, whether the attributes went one per
/// line, and the one-line length of the tag (capped).
fn write_open_tag(
    e: &XmlElement,
    indent: usize,
    scopes: &Vec<&Vec<XmlNamespace>>,
    out: &mut Vec<char>,
) -> (r: (Vec<char>, bool, u128))
    ensures
        final(out)@ == old(out)@ + open_tag(*e, indent as nat, scope_seq(scopes@)),
        r.0@ == element_tag(*e, scope_seq(scopes@)),
        r.1 == multiline_attrs(*e, indent as nat, scope_seq(scopes@)),
        r.2 == (if inline_len(*e, indent as nat, scope_seq(scopes@)) < INLINE_CAP {
            inline_len(*e, indent as nat, scope_seq(scopes@))
        } else {
            INLINE_CAP as int
        }),
{
    let tag = qualified_name(&e.name, &e.namespace, scopes);
    let pairs = element_pair_list(e, indent, scopes);
    let il = capped_inline_len(tag.as_slice(), &pairs);
    let ml = pairs.len() > 3 || il > LINE_LIMIT as u128;
    push_pad(out, indent);
    out.push('<');
    extend_chars(out, tag.as_slice());
    push_attrs(out, &pairs, indent, ml);
    assert(final(out)@ =~= old(out)@ + open_tag(*e, indent as nat, scope_seq(scopes@)));
    (tag, ml, il)
}

/// Appends the formatted element (see [`element_spec`]).
#[verifier::spinoff_prover]
#[verifier::rlimit(50)]
fn format_element<'a>(
    e: &'a XmlElement,
    indent: usize,
    scopes: &mut Vec<&'a Vec<XmlNamespace>>,
    out: &mut Vec<char>,
) -> (r: Option<bool>)
    requires
        indent + node_depth(XmlNode::Element(*e)) < usize::MAX / 4,
    ensures
        final(scopes)@ == old(scopes)@,
        match element_spec(*e, indent as nat, scope_seq(old(scopes)@)) {
            Some((s, b)) => r == Some(b) && final(out)@ == old(out)@ + s,
            None => r is None,
        },
    decreases e, e.children@.len() + 2,
{
    let ghost sc = scope_seq(old(scopes)@).push(e.namespaces@);
    scopes.push(&e.namespaces);
    assert(scope_seq(scopes@) =~= sc);
    let (tag, ml, il) = write_open_tag(e, indent, scopes, out);
    let ghost open = open_tag(*e, indent as nat, sc);
    let text = element_text(e);
    let eoc = any_tag_or_comment(&e.children);
    let tl = byte_len(text.as_slice());
    proof {
        lemma_utf8_len_spaces(4 * indent as nat);
        lemma_pairs_len_nonneg(element_pairs(*e, indent as nat, sc));
        lemma_utf8_len_bound(tag@);
    }
    let inline = !eoc && text.len() > 0 && !contains_char(text.as_slice(), '\n') && (4
        * indent as u128) + tl + il + 3 < LINE_LIMIT as u128;
    assert(inline == is_inline_leaf(*e, indent as nat, sc));
    if inline {
        out.push('>');
        push_escaped_text(out, text.as_slice());
        push_close_tag(out, tag.as_slice());
        assert(out@ =~= old(out)@ + (open + seq!['>'] + escaped_text(text@) + close_tag(tag@)));
        proof {
            lemma_element_inline(*e, indent as nat, scope_seq(old(scopes)@));
        }
        scopes.pop();
        return Some(ml);
    }
    if !eoc && text.len() == 0 {
        out.push('/');
        out.push('>');
        out.push('\n');
        assert(out@ =~= old(out)@ + (open + seq!['/', '>', '\n']));
        proof {
            lemma_element_empty(*e, indent as nat, scope_seq(old(scopes)@));
        }
        scopes.pop();
        return Some(ml);
    }
    let ghost mid = out@;
    let r = format_block(e, indent, &tag, ml, &text, eoc, scopes, out);
    proof {
        lemma_element_block(*e, indent as nat, scope_seq(old(scopes)@));
        match children_spec(*e, e.children@.len(), indent as nat, sc, ml) {
            Some((cs, _, _)) => {
                let tl: Seq<char> = if text@.len() > 0 {
                    pad(indent as nat) + spaces(4) + escaped_text(text@) + seq!['\n']
                } else {
                    seq![]
                };
                let nl: Seq<char> = if ml {
                    seq!['\n']
                } else {
                    seq![]
                };
                assert(block_head(*e, indent as nat, sc) =~= open + seq!['>', '\n'] + tl);
                assert(out@ =~= old(out)@ + (block_head(*e, indent as nat, sc) + cs + nl + pad(
                    indent as nat,
                ) + close_tag(tag@)));
            },
            None => {},
        }
    }
    scopes.pop();
    r
}

/// Appends an element with content (see [`lemma_element_block`]): the
/// opening tag's `>`, its text, its children one level deeper and the
/// closing tag.
#[verifier::rlimit(50)]
fn format_block<'a>(
    e: &'a XmlElement,
    indent: usize,
    tag: &Vec<char>,
    ml: bool,
    text: &Vec<char>,
    eoc: bool,
    scopes: &mut Vec<&'a Vec<XmlNamespace>>,
    out: &mut Vec<char>,
) -> (r: Option<bool>)
    requires
        indent + node_depth(XmlNode::Element(*e)) < usize::MAX / 4,
        tag@ == element_tag(*e, scope_seq(old(scopes)@)),
        ml == multiline_attrs(*e, indent as nat, scope_seq(old(scopes)@)),
        text@ == first_text(*e),
        eoc == has_tags_or_comments(e.children@),
    ensures
        final(scopes)@ == old(scopes)@,
        match children_spec(
            *e,
            e.children@.len(),
            indent as nat,
            scope_seq(old(scopes)@),
            ml,
        ) {
            Some((cs, _, _)) => r == Some(ml || eoc) && final(out)@ == old(out)@ + (seq!['>', '\n']
                + (if text@.len() > 0 {
                pad(indent as nat) + spaces(4) + escaped_text(text@) + seq!['\n']
            } else {
                seq![]
            }) + cs + (if ml {
                seq!['\n']
            } else {
                seq![]
            }) + pad(indent as nat) + close_tag(tag@)),
            None => r is None,
        },
    decreases e, e.children@.len() + 1,
{
    let ghost sc = scope_seq(old(scopes)@);
    out.push('>');
    out.push('\n');
    if text.len() > 0 {
        push_pad(out, indent);
        push_spaces(out, 4);
        push_escaped_text(out, text.as_slice());
        out.push('\n');
    }
    let ghost head = out@;
    match format_children(e, indent, ml, scopes, out) {
        Some(()) => {},
        None => {
            return None;
        },
    }
    let ghost acc = children_spec(*e, e.children@.len(), indent as nat, sc, ml).unwrap().0;
    assert(out@ =~= head + acc);
    let ghost nl: Seq<char> = if ml {
        seq!['\n']
    } else {
        Seq::<char>::empty()
    };
    if ml {
        out.push('\n');
    }
    assert(out@ =~= head + acc + nl);
    push_pad(out, indent);
    push_close_tag(out, tag.as_slice());
    assert(out@ =~= head + acc + nl + pad(indent as nat) + close_tag(tag@));
    Some(ml || eoc)
}

/// What [`element_spec`] is for an element with content.
proof fn lemma_element_block(e: XmlElement, indent: nat, scopes: Seq<Seq<XmlNamespace>>)
    requires
        !is_inline_leaf(e, indent, scopes.push(e.namespaces@)),
        has_tags_or_comments(e.children@) || first_text(e).len() > 0,
    ensures
        element_spec(e, indent, scopes) == (match children_spec(
            e,
            e.children@.len(),
            indent,
            scopes.push(e.namespaces@),
            multiline_attrs(e, indent, scopes.push(e.namespaces@)),
        ) {
            Some((cs, _, _)) => Some(
                (
                    block_head(e, indent, scopes.push(e.namespaces@)) + cs + (if multiline_attrs(
                        e,
                        indent,
                        scopes.push(e.namespaces@),
                    ) {
                        seq!['\n']
                    } else {
                        seq![]
                    }) + pad(indent) + close_tag(element_tag(e, scopes.push(e.namespaces@))),
                    multiline_attrs(e, indent, scopes.push(e.namespaces@)) || has_tags_or_comments(
                        e.children@,
                    ),
                ),
            ),
            None => None,
        }),
{
    reveal(element_spec);
}

/// What [`element_spec`] is for an element written on one line with its
/// text.
proof fn lemma_element_inline(e: XmlElement, indent: nat, scopes: Seq<Seq<XmlNamespace>>)
    requires
        is_inline_leaf(e, indent, scopes.push(e.namespaces@)),
    ensures
        element_spec(e, indent, scopes) == Some(
            (
                open_tag(e, indent, scopes.push(e.namespaces@)) + seq!['>'] + escaped_text(
                    first_text(e),
                ) + close_tag(element_tag(e, scopes.push(e.namespaces@))),
                multiline_attrs(e, indent, scopes.push(e.namespaces@)),
            ),
        ),
{
    reveal(element_spec);
}

/// What [`element_spec`] is for an element without content.
proof fn lemma_element_empty(e: XmlElement, indent: nat, scopes: Seq<Seq<XmlNamespace>>)
    requires
        !has_tags_or_comments(e.children@),
        first_text(e).len() == 0,
    ensures
        element_spec(e, indent, scopes) == Some(
            (
                open_tag(e, indent, scopes.push(e.namespaces@)) + seq!['/', '>', '\n'],
                multiline_attrs(e, indent, scopes.push(e.namespaces@)),
            ),
        ),
{
    reveal(element_spec);
}

/// Appends the children of `e` formatted one level deeper (see
/// [`children_spec`]).
#[verifier::rlimit(100)]
fn format_children<'a>(
    e: &'a XmlElement,
    indent: usize,
    ml: bool,
    scopes: &mut Vec<&'a Vec<XmlNamespace>>,
    out: &mut Vec<char>,
) -> (r: Option<()>)
    requires
        indent + node_depth(XmlNode::Element(*e)) < usize::MAX / 4,
    ensures
        final(scopes)@ == old(scopes)@,
        match children_spec(*e, e.children@.len(), indent as nat, scope_seq(old(scopes)@), ml) {
            Some((s, _, _)) => r is Some && final(out)@ == old(out)@ + s,
            None => r is None,
        },
    decreases e, e.children@.len(),
{
    let ghost sc = scope_seq(old(scopes)@);
    let ghost base = out@;
    let mut add_newline = ml;
    let mut is_first = true;
    let mut i: usize = 0;
    let ghost mut acc: Seq<char> = Seq::empty();
    proof {
        lemma_children_depth_all(*e);
        assert(out@ =~= base + acc);
    }
    while i < e.children.len()
        invariant
            i <= e.children@.len(),
            scopes@ == old(scopes)@,
            sc == scope_seq(old(scopes)@),
            indent + node_depth(XmlNode::Element(*e)) < usize::MAX / 4,
            forall|j: int|
                0 <= j < e.children@.len() ==> node_depth(#[trigger] e.children@[j]) < node_depth(
                    XmlNode::Element(*e),
                ),
            base == old(out)@,
            out@ == base + acc,
            children_spec(*e, i as nat, indent as nat, sc, ml) == Some((acc, add_newline, is_first)),
        decreases e.children@.len() - i,
    {
        let child: &'a XmlNode = &e.children[i];
        let ghost prev = out@;
        match child {
            XmlNode::Comment(t) => {
                let slb = if comment_is_suffix(t) {
                    false
                } else {
                    !is_first
                };
                match format_node(child, indent + 1, slb, scopes, out) {
                    Some(b) => {
                        add_newline = b;
                    },
                    None => {
                        proof {
                            lemma_children_none(*e, (i + 1) as nat, e.children@.len(), indent as nat, sc, ml);
                        }
                        return None;
                    },
                }
            },
            XmlNode::Element(_) => {
                match format_node(child, indent + 1, add_newline, scopes, out) {
                    Some(b) => {
                        add_newline = b;
                        is_first = false;
                    },
                    None => {
                        proof {
                            lemma_children_none(*e, (i + 1) as nat, e.children@.len(), indent as nat, sc, ml);
                        }
                        return None;
                    },
                }
            },
            _ => {},
        }
        proof {
            acc = out@.skip(base.len() as int);
            assert(out@ =~= base + acc);
        }
        i = i + 1;
    }
    Some(())
}

proof fn lemma_children_depth_all(e: XmlElement)
    ensures
        forall|j: int|
            0 <= j < e.children@.len() ==> node_depth(#[trigger] e.children@[j]) < node_depth(
                XmlNode::Element(e),
            ),
{
    assert forall|j: int| 0 <= j < e.children@.len() implies node_depth(#[trigger] e.children@[j])
        < node_depth(XmlNode::Element(e)) by {
        lemma_children_depth(e, e.children@.len(), j);
    }
}

/// Formats `doc`: the XML declaration, then each top-level node; `None`
/// where a multi-line comment's lines cannot be re-indented (they are less
/// indented than their first line, or the indentation would cut a
/// character).
pub fn try_format_doc(doc: &XmlDocument) -> (r: Option<String>)
    requires
        doc_depth(doc.children@) < usize::MAX / 4,
    ensures
        match formatted_doc(*doc) {
            Some(s) => r matches Some(t) && t@ == s,
            None => r is None,
        },
{
    let mut out: Vec<char> = to_chars(XML_DECLARATION);
    let mut scopes: Vec<&Vec<XmlNamespace>> = Vec::new();
    let mut i: usize = 0;
    let ghost mut acc: Seq<char> = seq![];
    while i < doc.children.len()
        invariant
            i <= doc.children@.len(),
            doc_depth(doc.children@) < usize::MAX / 4,
            scopes@ == Seq::<&Vec<XmlNamespace>>::empty(),
            out@ == XML_DECLARATION@ + acc,
            top_level_spec(doc.children@.take(i as int)) == Some(acc),
        decreases doc.children@.len() - i,
    {
        proof {
            lemma_doc_depth(doc.children@, i as int);
            assert(doc.children@.take(i + 1).drop_last() =~= doc.children@.take(i as int));
            assert(doc.children@.take(i + 1).last() == doc.children@[i as int]);
            assert(scope_seq(scopes@) =~= Seq::<Seq<XmlNamespace>>::empty());
        }
        match format_node(&doc.children[i], 0, false, &mut scopes, &mut out) {
            Some(_) => {},
            None => {
                proof {
                    lemma_top_level_none(doc.children@, i + 1);
                }
                return None;
            },
        }
        proof {
            acc = out@.skip(XML_DECLARATION@.len() as int);
            assert(out@ =~= XML_DECLARATION@ + acc);
        }
        i = i + 1;
    }
    assert(doc.children@.take(i as int) =~= doc.children@);
    Some(from_chars(out.as_slice()))
}

/// Formats `doc` (see [`formatted_doc`]).
pub fn format_doc(doc: &XmlDocument) -> (r: String)
    requires
        doc_depth(doc.children@) < usize::MAX / 4,
        formatted_doc(*doc) is Some,
    ensures
        r@ == formatted_doc(*doc)->0,
{
    match try_format_doc(doc) {
        Some(s) => s,
        None => String::new(),
    }
}

/// Formats the text of a resource file: `Err(InvalidXml)` where it is not
/// one well-formed XML document, `Err(XmlTooLarge)` where it has more nodes
/// than the formatter's indentation can count, else the formatted document
/// (`Err(UnformattableComment)` where a comment cannot be re-indented).
pub fn format_resource_text(text: &str) -> (r: Result<String, HookError>)
    ensures
        match parsed_xml(text@) {
            Some(rs) => if !records_well_formed(rs) {
                r == Err::<String, HookError>(HookError::InvalidXml)
            } else if rs.len() >= usize::MAX / 4 {
                r == Err::<String, HookError>(HookError::XmlTooLarge)
            } else {
                exists|doc: XmlDocument|
                    #[trigger] doc_described(rs, doc) && match formatted_doc(doc) {
                        Some(s) => r matches Ok(t) && t@ == s,
                        None => r == Err::<String, HookError>(HookError::UnformattableComment),
                    }
            },
            None => r == Err::<String, HookError>(HookError::InvalidXml),
        },
{
    let (doc, n) = match parse_counted(text) {
        Ok(p) => p,
        Err(e) => {
            return Err(e);
        },
    };
    if n >= usize::MAX / 4 {
        return Err(HookError::XmlTooLarge);
    }
    proof {
        lemma_doc_depth_size(doc.children@);
    }
    let ghost rs = parsed_xml(text@)->0;
    assert(doc_described(rs, doc));
    match try_format_doc(&doc) {
        Some(s) => Ok(s),
        None => Err(HookError::UnformattableComment),
    }
}

proof fn lemma_doc_depth_size(nodes: Seq<XmlNode>)
    ensures
        doc_depth(nodes) <= seq_size(nodes, nodes.len()),
    decreases nodes.len(),
{
    if nodes.len() > 0 {
        lemma_doc_depth_size(nodes.drop_last());
        lemma_seq_size_prefix(nodes.drop_last(), nodes, (nodes.len() - 1) as nat);
        lemma_node_depth_size(nodes.last());
    }
}

proof fn lemma_doc_depth(nodes: Seq<XmlNode>, i: int)
    requires
        0 <= i < nodes.len(),
    ensures
        node_depth(nodes[i]) <= doc_depth(nodes),
    decreases nodes.len(),
{
    if i < nodes.len() - 1 {
        lemma_doc_depth(nodes.drop_last(), i);
    }
}

proof fn lemma_top_level_none(nodes: Seq<XmlNode>, k: int)
    requires
        0 < k <= nodes.len(),
        top_level_spec(nodes.take(k)) is None,
    ensures
        top_level_spec(nodes) is None,
    decreases nodes.len() - k,
{
    if k < nodes.len() {
        assert(nodes.take(k + 1).drop_last() =~= nodes.take(k));
        lemma_top_level_none(nodes, k + 1);
    } else {
        assert(nodes.take(k) =~= nodes);
    }
}

/// `s` with `&`, `<` and `>` escaped, as element text.
pub fn escape_text(s: &str) -> (r: String)
    ensures
        r@ == escaped_text(s@),
{
    let cs = to_chars(s);
    let mut out: Vec<char> = Vec::new();
    push_escaped_text(&mut out, cs.as_slice());
    assert(out@ =~= escaped_text(s@));
    from_chars(out.as_slice())
}

/// `s` with `&`, `<`, `>` and `"` escaped, as an attribute value.
pub fn escape_attr(s: &str) -> (r: String)
    ensures
        r@ == escaped_attr(s@),
{
    let cs = to_chars(s);
    let mut out: Vec<char> = Vec::new();
    push_escaped_attr(&mut out, cs.as_slice());
    assert(out@ =~= escaped_attr(s@));
    from_chars(out.as_slice())
}

/// Escaped text holds no markup: no `<` and no `>`.
pub proof fn law_escaped_text_has_no_markup(s: Seq<char>)
    ensures
        !escaped_text(s).contains('<'),
        !escaped_text(s).contains('>'),
    decreases s.len(),
{
    if s.len() > 0 {
        law_escaped_text_has_no_markup(s.drop_last());
        let a = escaped_text(s.drop_last());
        let b = escape_text_char(s.last());
        assert(escaped_text(s) == a + b);
        assert forall|c: char| (a + b).contains(c) implies a.contains(c) || b.contains(c) by {
            let i = choose|i: int| 0 <= i < (a + b).len() && (a + b)[i] == c;
            if i < a.len() {
                assert(a[i] == c);
            } else {
                assert(b[i - a.len()] == c);
            }
        }
    }
}

/// An escaped attribute value holds no markup and no `"`: it cannot end the
/// value early.
pub proof fn law_escaped_attr_is_closed(s: Seq<char>)
    ensures
        !escaped_attr(s).contains('<'),
        !escaped_attr(s).contains('>'),
        !escaped_attr(s).contains('"'),
    decreases s.len(),
{
    if s.len() > 0 {
        law_escaped_attr_is_closed(s.drop_last());
        let a = escaped_attr(s.drop_last());
        let b = escape_attr_char(s.last());
        assert(escaped_attr(s) == a + b);
        assert forall|c: char| (a + b).contains(c) implies a.contains(c) || b.contains(c) by {
            let i = choose|i: int| 0 <= i < (a + b).len() && (a + b)[i] == c;
            if i < a.len() {
                assert(a[i] == c);
            } else {
                assert(b[i - a.len()] == c);
            }
        }
    }
}

/// Text without `&`, `<` and `>` is left as it is.
pub proof fn law_plain_text_unchanged(s: Seq<char>)
    requires
        !s.contains('&'),
        !s.contains('<'),
        !s.contains('>'),
    ensures
        escaped_text(s) == s,
    decreases s.len(),
{
    if s.len() > 0 {
        assert(!s.drop_last().contains('&') && !s.drop_last().contains('<') && !s.drop_last().contains('>')) by {
            assert forall|c: char| s.drop_last().contains(c) implies s.contains(c) by {
                let i = choose|i: int| 0 <= i < s.drop_last().len() && s.drop_last()[i] == c;
                assert(s[i] == c);
            }
        }
        law_plain_text_unchanged(s.drop_last());
        assert(s[s.len() - 1] == s.last());
        assert(s =~= s.drop_last() + seq![s.last()]);
    }
}

// ---------------------------------------------------------------------------
// The action

/// A resource file: one under a `/java/res/` directory, ending in `.xml`.
pub open spec fn is_resource_file(path: Seq<char>) -> bool {
    contains_seq(path, "/java/res/"@) && ends_with(path, ".xml"@)
}

/// The paths of the resource files among `items`, in order.
pub open spec fn resource_files(items: Seq<Item>) -> Seq<Seq<char>>
    decreases items.len(),
{
    if items.len() == 0 {
        seq![]
    } else {
        let rest = resource_files(items.drop_last());
        match items.last() {
            Item::File(p) => if is_resource_file(p@) {
                rest.push(p@)
            } else {
                rest
            },
            _ => rest,
        }
    }
}

/// Whether `path` is a resource file.
fn resource_file(path: &str) -> (r: bool)
    ensures
        r == is_resource_file(path@),
{
    let cs = to_chars(path);
    let dir = to_chars("/java/res/");
    let ext = to_chars(".xml");
    contains(cs.as_slice(), dir.as_slice()) && has_suffix(cs.as_slice(), ext.as_slice())
}

/// The resource files among `items`.
pub fn resources_to_format(items: &[Item]) -> (r: Vec<String>)
    ensures
        sviews(r@) == resource_files(items@),
{
    let mut out: Vec<String> = Vec::new();
    let mut i: usize = 0;
    while i < items.len()
        invariant
            i <= items@.len(),
            sviews(out@) == resource_files(items@.take(i as int)),
        decreases items@.len() - i,
    {
        assert(items@.take(i + 1).drop_last() =~= items@.take(i as int));
        assert(items@.take(i + 1).last() == items@[i as int]);
        match &items[i] {
            Item::File(p) => {
                if resource_file(p.as_str()) {
                    let ghost before = out@;
                    out.push(p.clone());
                    assert(sviews(out@) =~= sviews(before).push(p@));
                }
            },
            _ => {},
        }
        i = i + 1;
    }
    assert(items@.take(i as int) =~= items@);
    out
}

impl<C: GitConfig> AndroidResourceFormatterAction<C> {
    /// A disabled formatter without configuration.
    pub fn new() -> (r: Self)
        ensures
            !r.enabled(),
            !r.has_config(),
    {
        AndroidResourceFormatterAction { setting: EnabledSetting::new() }
    }

    pub closed spec fn enabled(&self) -> bool {
        self.setting.enabled()
    }

    pub closed spec fn has_config(&self) -> bool {
        self.setting.has_config()
    }

    pub closed spec fn entries(&self) -> Map<Seq<char>, Seq<char>> {
        self.setting.entries()
    }

    /// Whether the attached store takes every write.
    pub closed spec fn accepts_writes(&self) -> bool {
        self.setting.accepts_writes()
    }

    /// What persisting the choice `want` answers (see
    /// [`EnabledSetting::selection_result`]).
    pub closed spec fn selection_result(&self, want: bool) -> Result<(), HookError> {
        self.setting.selection_result(want)
    }
}

impl<C: GitConfig> ActionTraitInternal<C> for AndroidResourceFormatterAction<C> {
    fn check_valid(&self) -> (r: Result<(), HookError>)
        ensures
            r is Ok,
    {
        Ok(())
    }

    fn set_config(&mut self, cfg: C) -> (r: Result<(), HookError>)
        ensures
            r is Ok,
            final(self).enabled() == enabled_in(cfg.entries()),
            final(self).has_config(),
            final(self).entries() == cfg.entries(),
    {
        self.setting.set_config(cfg);
        Ok(())
    }
}

impl<C: GitConfig> ActionTrait<C> for AndroidResourceFormatterAction<C> {
    open spec fn run_requires(&self, items: Seq<Item>, args: Seq<String>) -> bool {
        true
    }

    fn name(&self) -> (r: &str)
        ensures
            r@ == RESOURCE_ACTION_NAME@,
    {
        RESOURCE_ACTION_NAME
    }

    fn priority(&self) -> (r: i32)
        ensures
            r == 100,
    {
        100
    }

    fn is_available(&self) -> (r: bool)
        ensures
            r,
    {
        true
    }

    fn is_selected(&self) -> (r: bool)
        ensures
            r == self.enabled(),
    {
        self.setting.is_enabled()
    }

    fn set_selected(&mut self, want_selected: bool) -> (r: Result<(), HookError>)
        ensures
            r == old(self).selection_result(want_selected),
            !old(self).has_config() ==> r is Ok && final(self).enabled() == old(self).enabled()
                && !final(self).has_config(),
            old(self).has_config() ==> final(self).has_config(),
            old(self).has_config() && r is Ok ==> final(self).enabled() == want_selected
                && final(self).entries() == entries_after_selection(
                old(self).entries(),
                want_selected,
            ),
            r is Err ==> final(self).enabled() == old(self).enabled() && final(self).entries()
                == old(self).entries(),
            old(self).has_config() && old(self).accepts_writes() ==> r is Ok,
            final(self).accepts_writes() == old(self).accepts_writes(),
    {
        self.setting.set_selected(want_selected)
    }

    /// Asks to format every changed resource file.
    fn run(&self, items: &[Item], args: &Vec<String>) -> (r: Result<RunPlan, HookError>)
        ensures
            r matches Ok(RunPlan::FormatResources(files)) && sviews(files@) == resource_files(
                items@,
            ),
    {
        Ok(RunPlan::FormatResources(resources_to_format(items)))
    }
}


// ---------------------------------------------------------------------------
// Laws: namespace declarations

proof fn lemma_attrs_text_contains(ps: Seq<Seq<char>>, p: Seq<char>, multiline: bool, k: int)
    requires
        0 <= k < ps.len(),
    ensures
        contains_seq(attrs_text(ps, p, multiline), ps[k]),
    decreases ps.len(),
{
    let chunk = if multiline {
        seq!['\n'] + p + spaces(4) + ps.last()
    } else {
        seq![' '] + ps.last()
    };
    assert(attrs_text(ps, p, multiline) == attrs_text(ps.drop_last(), p, multiline) + chunk);
    if k == ps.len() - 1 {
        lemma_contains_self(ps.last());
        if multiline {
            lemma_contains_right(seq!['\n'] + p + spaces(4), ps.last(), ps.last());
        } else {
            lemma_contains_right(seq![' '], ps.last(), ps.last());
        }
        lemma_contains_right(attrs_text(ps.drop_last(), p, multiline), chunk, ps[k]);
    } else {
        lemma_attrs_text_contains(ps.drop_last(), p, multiline, k);
        assert(ps.drop_last()[k] == ps[k]);
        lemma_contains_left(attrs_text(ps.drop_last(), p, multiline), chunk, ps[k]);
    }
}

/// A top-level element keeps its namespace declarations: its formatted text
/// holds `xmlns:prefix="uri"` for every namespace it declares.
pub proof fn law_top_element_keeps_namespaces(
    e: XmlElement,
    scopes: Seq<Seq<XmlNamespace>>,
    j: int,
)
    requires
        0 <= j < e.namespaces@.len(),
        element_spec(e, 0, scopes) is Some,
    ensures
        contains_seq((element_spec(e, 0, scopes)->0).0, ns_pair(e.namespaces@[j])),
{
    reveal(element_spec);
    let sc = scopes.push(e.namespaces@);
    let ps = element_pairs(e, 0, sc);
    assert(ps[j] == ns_pair(e.namespaces@[j]));
    lemma_attrs_text_contains(ps, pad(0), multiline_attrs(e, 0, sc), j);
    let head = pad(0) + seq!['<'] + element_tag(e, sc);
    let ot = open_tag(e, 0, sc);
    lemma_contains_right(head, attrs_text(ps, pad(0), multiline_attrs(e, 0, sc)), ps[j]);
    let out = (element_spec(e, 0, scopes)->0).0;
    assert(contains_seq(ot, ps[j]));
    if is_inline_leaf(e, 0, sc) {
        let text = first_text(e);
        let close = close_tag(element_tag(e, sc));
        lemma_contains_left(ot, seq!['>'], ps[j]);
        lemma_contains_left(ot + seq!['>'], escaped_text(text), ps[j]);
        lemma_contains_left(ot + seq!['>'] + escaped_text(text), close, ps[j]);
        assert(out == ot + seq!['>'] + escaped_text(text) + close);
    } else if !has_tags_or_comments(e.children@) && first_text(e).len() == 0 {
        lemma_contains_left(ot, seq!['/', '>', '\n'], ps[j]);
    } else {
        let ml = multiline_attrs(e, 0, sc);
        let cs = (children_spec(e, e.children@.len(), 0, sc, ml)->0).0;
        let text = first_text(e);
        let t2: Seq<char> = if text.len() > 0 {
            pad(0) + spaces(4) + escaped_text(text) + seq!['\n']
        } else {
            seq![]
        };
        let bh = block_head(e, 0, sc);
        lemma_contains_left(ot, seq!['>', '\n'], ps[j]);
        lemma_contains_left(ot + seq!['>', '\n'], t2, ps[j]);
        assert(bh == ot + seq!['>', '\n'] + t2);
        let tail = cs + (if ml {
            seq!['\n']
        } else {
            seq![]
        }) + pad(0) + close_tag(element_tag(e, sc));
        lemma_contains_left(bh, tail, ps[j]);
        assert(out =~= bh + tail);
    }
}

proof fn lemma_top_level_contains(nodes: Seq<XmlNode>, i: int, p: Seq<char>)
    requires
        0 <= i < nodes.len(),
        top_level_spec(nodes) is Some,
        node_spec(nodes[i], 0, false, seq![]) matches Some((s, _)) && contains_seq(s, p),
    ensures
        contains_seq(top_level_spec(nodes)->0, p),
    decreases nodes.len(),
{
    let a = top_level_spec(nodes.drop_last())->0;
    let b = (node_spec(nodes.last(), 0, false, seq![])->0).0;
    assert(top_level_spec(nodes)->0 == a + b);
    if i == nodes.len() - 1 {
        lemma_contains_right(a, b, p);
    } else {
        assert(nodes.drop_last()[i] == nodes[i]);
        lemma_top_level_contains(nodes.drop_last(), i, p);
        lemma_contains_left(a, b, p);
    }
}

/// Formatting keeps the namespace declarations of every top-level element:
/// the formatted document holds `xmlns:prefix="uri"` for each of them.
pub proof fn law_formatted_doc_keeps_namespaces(doc: XmlDocument, i: int, j: int)
    requires
        0 <= i < doc.children@.len(),
        doc.children@[i] matches XmlNode::Element(e) && 0 <= j < e.namespaces@.len(),
        formatted_doc(doc) is Some,
    ensures
        doc.children@[i] matches XmlNode::Element(e) ==> contains_seq(
            formatted_doc(doc)->0,
            ns_pair(e.namespaces@[j]),
        ),
{
    if let XmlNode::Element(e) = doc.children@[i] {
        let nodes = doc.children@;
        let t = top_level_spec(nodes)->0;
        reveal(element_spec);
        assert(nodes[i] == XmlNode::Element(e));
        let es = element_spec(e, 0, seq![]);
        let lb: Seq<char> = seq![];
        assert(node_spec(XmlNode::Element(e), 0, false, seq![]) == match es {
            Some((s, r)) => Some((lb + s, r)),
            None => None,
        });
        if element_spec(e, 0, seq![]) is None {
            // the document would not format
            lemma_top_level_none_at(nodes, i);
        } else {
            law_top_element_keeps_namespaces(e, seq![], j);
            let s = (element_spec(e, 0, seq![])->0).0;
            assert(lb + s =~= s);
            assert(node_spec(nodes[i], 0, false, seq![]) == Some((lb + s, (element_spec(e, 0, seq![])->0).1)));
            lemma_top_level_contains(nodes, i, ns_pair(e.namespaces@[j]));
            lemma_contains_right(XML_DECLARATION@, t, ns_pair(e.namespaces@[j]));
        }
    }
}

proof fn lemma_top_level_none_at(nodes: Seq<XmlNode>, i: int)
    requires
        0 <= i < nodes.len(),
        node_spec(nodes[i], 0, false, seq![]) is None,
    ensures
        top_level_spec(nodes) is None,
    decreases nodes.len(),
{
    if i < nodes.len() - 1 {
        assert(nodes.drop_last()[i] == nodes[i]);
        lemma_top_level_none_at(nodes.drop_last(), i);
    }
}

} // verus!
