//! Reflows the body of a commit message to a fixed width, keeping the
//! summary line, bullet points and trailers as they are.

use vstd::prelude::*;

use super::action::{ActionTrait, ActionTraitInternal, EnabledSetting, RunPlan, enabled_in,
    entries_after_selection};
use crate::error::HookError;
use crate::pattern::{
    Pattern, captures_pattern, group, group_chars, matches_pattern, pattern_captures,
    pattern_matches,
};
use crate::repo::config::GitConfig;
use crate::repo::Item;
use crate::text::{
    blank, char_to_uppercase, copy_chars, copy_range, chars_of_strs, cviews, extend_chars,
    from_chars, has_prefix, is_blank, join, join_chars, lemma_prefix_len, lemma_suffix_start,
    lemma_utf8_len_add, lemma_utf8_len_bound, lines, lowercase, prefix_len, slice_chars,
    split_lines, split_whitespace, starts_with, strviews, suffix_start, sviews, to_chars,
    to_lowercase, to_strings, trim, trim_chars, trim_start, trim_start_chars, uppercase_char,
    utf8_len, words, words_acc, is_ws, byte_len, char_utf8_len,
};

verus! {

/// Width that the body of a commit message is reflowed to.
pub const LINE_LIMIT: usize = 70;

/// A well-formed trailer, e.g. `Change-Id: I1234` or `Signed-off-by: Name`.
pub const TRAILER_PATTERN: &'static str = "^[A-Za-z0-9-]+:\\s*.*$";

/// A trailer-shaped line using `=` instead of `: `, e.g. `Change-Id=I1234`.
pub const INVALID_TRAILER_PATTERN: &'static str = "^([A-Za-z][A-Za-z0-9_-]*)\\s*=\\s*(.*)$";

/// A bullet-point line: `-`, `*`, `+` or a number followed by `.` or `)`.
pub const BULLET_PATTERN: &'static str = "^\\s*([-*+]|\\d+[.)])\\s";

/// Display name of the reflow action.
pub const REFLOW_ACTION_NAME: &'static str = "Commit message reflow (built-in)";

/// Reflows the commit message of the commit being made.
pub struct CommitMessageReflowAction<C> {
    setting: EnabledSetting<C>,
}

// ---------------------------------------------------------------------------
// Specification

/// `s` with each `_` turned into `-`.
pub open spec fn dashed(s: Seq<char>) -> Seq<char> {
    s.map_values(|c: char| if c == '_' { '-' } else { c })
}

/// `key` in the conventional `Word-word-word` casing: lower case, words
/// joined by `-` (an `_` becomes `-`), first character upper case.
pub open spec fn normalized_key(key: Seq<char>) -> Seq<char> {
    let lower = dashed(lowercase(key));
    if lower.len() == 0 {
        lower
    } else {
        uppercase_char(lower[0]) + lower.drop_first()
    }
}

/// `cur`, a space and `w` fit in `width` bytes.
pub open spec fn fits(cur: Seq<char>, w: Seq<char>, width: int) -> bool {
    utf8_len(cur) + 1 + utf8_len(w) <= width
}

/// Lines completed and line being filled after placing the words `ws`
/// greedily.
pub open spec fn wrap_state(ws: Seq<Seq<char>>, width: int) -> (Seq<Seq<char>>, Seq<char>)
    decreases ws.len(),
{
    if ws.len() == 0 {
        (seq![], seq![])
    } else {
        let (done, cur) = wrap_state(ws.drop_last(), width);
        let w = ws.last();
        if cur.len() == 0 {
            (done, w)
        } else if fits(cur, w, width) {
            (done, cur + seq![' '] + w)
        } else {
            (done.push(cur), w)
        }
    }
}

/// The words `ws` filled greedily into lines of at most `width` bytes; a
/// word is never split.
pub open spec fn wrap_words(ws: Seq<Seq<char>>, width: int) -> Seq<Seq<char>> {
    let (done, cur) = wrap_state(ws, width);
    if cur.len() > 0 {
        done.push(cur)
    } else {
        done
    }
}

/// The words of `text` filled into lines of at most `width` bytes.
pub open spec fn wrapped(text: Seq<char>, width: int) -> Seq<Seq<char>> {
    wrap_words(words(text), width)
}

/// A bullet-point line.
pub open spec fn is_bullet(line: Seq<char>) -> bool {
    matches_pattern(BULLET_PATTERN@, line)
}

/// `out` followed by the reflowed paragraph `para` (if any).
pub open spec fn flush(out: Seq<Seq<char>>, para: Seq<Seq<char>>, width: int) -> Seq<Seq<char>> {
    if para.len() > 0 {
        out + wrapped(join(para, seq![' ']), width)
    } else {
        out
    }
}

/// Output so far and the paragraph being collected after reading `ls`.
pub open spec fn reflow_state(ls: Seq<Seq<char>>, width: int) -> (Seq<Seq<char>>, Seq<Seq<char>>)
    decreases ls.len(),
{
    if ls.len() == 0 {
        (seq![], seq![])
    } else {
        let (out, para) = reflow_state(ls.drop_last(), width);
        let line = ls.last();
        if is_blank(line) || is_bullet(line) {
            (
                flush(out, para, width).push(
                    if is_blank(line) {
                        seq![]
                    } else {
                        line
                    },
                ),
                seq![],
            )
        } else {
            (out, para.push(trim(line)))
        }
    }
}

/// The lines `ls` with each paragraph reflowed to `width`; bullet lines are
/// kept as they are, blank lines become empty, and paragraphs separated by a
/// blank line are never merged.
pub open spec fn reflowed(ls: Seq<Seq<char>>, width: int) -> Seq<Seq<char>> {
    let (out, para) = reflow_state(ls, width);
    flush(out, para, width)
}

/// A comment line (first non-blank character `#`).
pub open spec fn is_comment(l: Seq<char>) -> bool {
    starts_with(trim_start(l), seq!['#'])
}

/// `ls` without its comment lines.
pub open spec fn without_comments(ls: Seq<Seq<char>>) -> Seq<Seq<char>>
    decreases ls.len(),
{
    if ls.len() == 0 {
        ls
    } else if is_comment(ls.last()) {
        without_comments(ls.drop_last())
    } else {
        without_comments(ls.drop_last()).push(ls.last())
    }
}

/// A well-formed trailer line.
pub open spec fn is_trailer(l: Seq<char>) -> bool {
    matches_pattern(TRAILER_PATTERN@, l)
}

/// `Key: value` for a `Key=value` line.
pub open spec fn fixed_trailer(l: Seq<char>) -> Option<Seq<char>> {
    match captures_pattern(INVALID_TRAILER_PATTERN@, l) {
        Some(c) => Some(normalized_key(group(c, 1)) + seq![':', ' '] + trim(group(c, 2))),
        None => None,
    }
}

/// A line of the final trailer block.
pub open spec fn is_trailer_like(l: Seq<char>) -> bool {
    is_trailer(l) || fixed_trailer(l) is Some
}

/// A trailer line as it is written out: verbatim, or fixed up.
pub open spec fn trailer_line(l: Seq<char>) -> Seq<char> {
    if is_trailer(l) {
        l
    } else {
        fixed_trailer(l)->0
    }
}

/// `ls` without leading and trailing blank lines.
pub open spec fn strip_blank_lines(ls: Seq<Seq<char>>) -> Seq<Seq<char>> {
    let t = ls.skip(prefix_len(ls, |l: Seq<char>| is_blank(l)) as int);
    t.take(suffix_start(t, |l: Seq<char>| is_blank(l)) as int)
}

/// `xs` joined by newlines after an empty line, or nothing when `xs` is
/// empty.
pub open spec fn section(xs: Seq<Seq<char>>) -> Seq<char> {
    if xs.len() > 0 {
        seq!['\n', '\n'] + join(xs, seq!['\n'])
    } else {
        seq![]
    }
}

/// The reflowed commit message: comment lines dropped, summary line kept,
/// body reflowed to [`LINE_LIMIT`], trailers kept (or fixed up) in a final
/// block, and a final newline. A message without lines is returned as it is.
pub open spec fn reflow_message(content: Seq<char>) -> Seq<char> {
    let ls = without_comments(lines(content));
    if ls.len() == 0 {
        content
    } else {
        let body = strip_blank_lines(ls.drop_first());
        let k = suffix_start(body, |l: Seq<char>| is_trailer_like(l));
        let trailers = body.skip(k as int).map_values(|l: Seq<char>| trailer_line(l));
        let head = body.take(k as int);
        let rest = head.take(suffix_start(head, |l: Seq<char>| is_blank(l)) as int);
        ls[0] + section(reflowed(rest, LINE_LIMIT as int)) + section(trailers) + seq!['\n']
    }
}

// ---------------------------------------------------------------------------
// Implementation

/// Normalizes a trailer key to `Word-word-word` casing, e.g. `SIGNED-OFF-BY`
/// or `signed_off_by` to `Signed-off-by`.
pub fn normalize_trailer_key(key: &str) -> (r: String)
    ensures
        r@ == normalized_key(key@),
{
    let lower = to_lowercase(key);
    let low = to_chars(lower.as_str());
    let mut lc: Vec<char> = Vec::new();
    let mut i: usize = 0;
    while i < low.len()
        invariant
            i <= low@.len(),
            lc@ == dashed(low@.take(i as int)),
        decreases low@.len() - i,
    {
        let c = low[i];
        lc.push(if c == '_' { '-' } else { c });
        assert(dashed(low@.take(i + 1)) =~= dashed(low@.take(i as int)).push(if c == '_' { '-' } else { c }));
        i = i + 1;
    }
    assert(low@.take(i as int) =~= low@);
    if lc.len() == 0 {
        return from_chars(lc.as_slice());
    }
    let up = char_to_uppercase(lc[0]);
    let mut v = to_chars(up.as_str());
    let rest = slice_chars(lc.as_slice(), 1, lc.len());
    extend_chars(&mut v, rest.as_slice());
    assert(v@ =~= normalized_key(key@));
    from_chars(v.as_slice())
}

/// Fills the words `ws` greedily into lines of at most `width` bytes.
fn wrap_word_list(ws: &Vec<Vec<char>>, width: usize) -> (r: Vec<Vec<char>>)
    ensures
        cviews(r@) == wrap_words(cviews(ws@), width as int),
{
    let ghost wv = cviews(ws@);
    let mut done: Vec<Vec<char>> = Vec::new();
    let mut cur: Vec<char> = Vec::new();
    let mut cur_len: u128 = 0;
    let mut i: usize = 0;
    while i < ws.len()
        invariant
            i <= ws@.len(),
            wv == cviews(ws@),
            (cviews(done@), cur@) == wrap_state(wv.take(i as int), width as int),
            cur_len == utf8_len(cur@),
        decreases ws@.len() - i,
    {
        assert(wv.take(i + 1).drop_last() =~= wv.take(i as int));
        assert(wv.take(i + 1).last() == ws@[i as int]@);
        let w = &ws[i];
        let wl = byte_len(w.as_slice());
        let cl = cur.len();
        let wn = w.len();
        proof {
            lemma_utf8_len_bound(cur@);
            lemma_utf8_len_bound(w@);
            assert(cur_len <= 4 * (cl as int));
            assert(wl <= 4 * (wn as int));
        }
        if cur.len() == 0 {
            cur = copy_chars(w.as_slice());
            cur_len = wl;
        } else if cur_len + 1 + wl <= width as u128 {
            proof {
                lemma_utf8_len_add(cur@, seq![' ']);
                lemma_utf8_len_add(cur@ + seq![' '], w@);
                assert(utf8_len(seq![' ']) == 1) by {
                    assert(seq![' '].drop_last() =~= Seq::<char>::empty());
                    assert(seq![' '].last() == ' ');
                    assert((' ' as u32) == 32u32);
                    assert(char_utf8_len(' ') == 1);
                    assert(utf8_len(Seq::<char>::empty()) == 0);
                }
            }
            cur.push(' ');
            extend_chars(&mut cur, w.as_slice());
            cur_len = cur_len + 1 + wl;
        } else {
            let ghost prev = done@;
            let full = cur;
            done.push(full);
            assert(cviews(done@) =~= cviews(prev).push(full@));
            cur = copy_chars(w.as_slice());
            cur_len = wl;
        }
        i = i + 1;
    }
    assert(wv.take(i as int) =~= wv);
    if cur.len() > 0 {
        let ghost prev = done@;
        let full = cur;
        done.push(full);
        assert(cviews(done@) =~= cviews(prev).push(full@));
    }
    done
}

/// Fills the words of `text` greedily into lines of at most `width` bytes.
fn wrap_chars(text: &[char], width: usize) -> (r: Vec<Vec<char>>)
    ensures
        cviews(r@) == wrapped(text@, width as int),
{
    let ws = split_whitespace(text);
    wrap_word_list(&ws, width)
}

/// Reflows the lines `ls` (see [`reflowed`]) given the compiled bullet
/// pattern.
fn reflow_lines(ls: &Vec<Vec<char>>, width: usize, bullet: &Option<Pattern>) -> (r: Vec<Vec<char>>)
    requires
        bullet is Some <==> crate::pattern::regex_compiles(BULLET_PATTERN@),
        bullet matches Some(q) ==> q@ == BULLET_PATTERN@,
    ensures
        cviews(r@) == reflowed(cviews(ls@), width as int),
{
    let ghost lv = cviews(ls@);
    let mut out: Vec<Vec<char>> = Vec::new();
    let mut para: Vec<Vec<char>> = Vec::new();
    let mut i: usize = 0;
    while i < ls.len()
        invariant
            i <= ls@.len(),
            lv == cviews(ls@),
            bullet is Some <==> crate::pattern::regex_compiles(BULLET_PATTERN@),
            bullet matches Some(q) ==> q@ == BULLET_PATTERN@,
            (cviews(out@), cviews(para@)) == reflow_state(lv.take(i as int), width as int),
        decreases ls@.len() - i,
    {
        assert(lv.take(i + 1).drop_last() =~= lv.take(i as int));
        assert(lv.take(i + 1).last() == ls@[i as int]@);
        let line = &ls[i];
        let is_blank_line = blank(line.as_slice());
        let is_bullet_line = pattern_matches(bullet, Ghost(BULLET_PATTERN@), line.as_slice());
        if is_blank_line || is_bullet_line {
            if para.len() > 0 {
                let joined = join_chars(&para, &[' ']);
                assert(seq![' '] =~= [' ']@);
                let wrapped_lines = wrap_chars(joined.as_slice(), width);
                let ghost prev = cviews(out@);
                let mut k: usize = 0;
                while k < wrapped_lines.len()
                    invariant
                        k <= wrapped_lines@.len(),
                        cviews(out@) == prev + cviews(wrapped_lines@).take(k as int),
                    decreases wrapped_lines@.len() - k,
                {
                    let c = copy_chars(wrapped_lines[k].as_slice());
                    let ghost before = out@;
                    out.push(c);
                    assert(cviews(out@) =~= cviews(before).push(c@));
                    assert(cviews(wrapped_lines@).take(k + 1) =~= cviews(wrapped_lines@).take(
                        k as int,
                    ).push(c@));
                    k = k + 1;
                }
                assert(cviews(wrapped_lines@).take(k as int) =~= cviews(wrapped_lines@));
                para = Vec::new();
            }
            let ghost before = out@;
            if is_blank_line {
                out.push(Vec::new());
                assert(cviews(out@) =~= cviews(before).push(seq![]));
            } else {
                let c = copy_chars(line.as_slice());
                out.push(c);
                assert(cviews(out@) =~= cviews(before).push(line@));
            }
            assert(cviews(para@) =~= Seq::<Seq<char>>::empty());
        } else {
            let t = trim_chars(line.as_slice());
            let ghost before = para@;
            para.push(t);
            assert(cviews(para@) =~= cviews(before).push(trim(line@)));
        }
        i = i + 1;
    }
    assert(lv.take(i as int) =~= lv);
    if para.len() > 0 {
        let joined = join_chars(&para, &[' ']);
        assert(seq![' '] =~= [' ']@);
        let wrapped_lines = wrap_chars(joined.as_slice(), width);
        let ghost prev = cviews(out@);
        let mut k: usize = 0;
        while k < wrapped_lines.len()
            invariant
                k <= wrapped_lines@.len(),
                cviews(out@) == prev + cviews(wrapped_lines@).take(k as int),
            decreases wrapped_lines@.len() - k,
        {
            let c = copy_chars(wrapped_lines[k].as_slice());
            let ghost before = out@;
            out.push(c);
            assert(cviews(out@) =~= cviews(before).push(c@));
            assert(cviews(wrapped_lines@).take(k + 1) =~= cviews(wrapped_lines@).take(
                k as int,
            ).push(c@));
            k = k + 1;
        }
        assert(cviews(wrapped_lines@).take(k as int) =~= cviews(wrapped_lines@));
    }
    out
}

/// Drops comment lines.
fn drop_comments(ls: &Vec<Vec<char>>) -> (r: Vec<Vec<char>>)
    ensures
        cviews(r@) == without_comments(cviews(ls@)),
{
    let ghost lv = cviews(ls@);
    let mut out: Vec<Vec<char>> = Vec::new();
    let mut i: usize = 0;
    let hash: [char; 1] = ['#'];
    assert(hash@ =~= seq!['#']);
    while i < ls.len()
        invariant
            i <= ls@.len(),
            lv == cviews(ls@),
            hash@ == seq!['#'],
            cviews(out@) == without_comments(lv.take(i as int)),
        decreases ls@.len() - i,
    {
        assert(lv.take(i + 1).drop_last() =~= lv.take(i as int));
        assert(lv.take(i + 1).last() == ls@[i as int]@);
        let t = trim_start_chars(ls[i].as_slice());
        if !has_prefix(t.as_slice(), &hash) {
            let c = copy_chars(ls[i].as_slice());
            let ghost before = out@;
            out.push(c);
            assert(cviews(out@) =~= cviews(before).push(c@));
        }
        i = i + 1;
    }
    assert(lv.take(i as int) =~= lv);
    out
}

/// Whether `line` is a trailer, and the line to write for it.
fn classify_trailer(line: &[char], trailer: &Option<Pattern>, invalid: &Option<Pattern>) -> (r: Option<
    Vec<char>,
>)
    requires
        trailer is Some <==> crate::pattern::regex_compiles(TRAILER_PATTERN@),
        trailer matches Some(q) ==> q@ == TRAILER_PATTERN@,
        invalid is Some <==> crate::pattern::regex_compiles(INVALID_TRAILER_PATTERN@),
        invalid matches Some(q) ==> q@ == INVALID_TRAILER_PATTERN@,
    ensures
        r is Some <==> is_trailer_like(line@),
        r matches Some(t) ==> t@ == trailer_line(line@),
{
    if pattern_matches(trailer, Ghost(TRAILER_PATTERN@), line) {
        return Some(copy_chars(line));
    }
    match pattern_captures(invalid, Ghost(INVALID_TRAILER_PATTERN@), line) {
        Some(caps) => {
            let key_chars = group_chars(&caps, 1);
            let value_chars = group_chars(&caps, 2);
            let key = from_chars(key_chars.as_slice());
            let norm = normalize_trailer_key(key.as_str());
            let mut v = to_chars(norm.as_str());
            v.push(':');
            v.push(' ');
            let value = trim_chars(value_chars.as_slice());
            extend_chars(&mut v, value.as_slice());
            assert(v@ =~= trailer_line(line@));
            Some(v)
        },
        None => None,
    }
}

/// Appends `\n\n` and the lines joined by newlines, when there are lines.
fn push_section(out: &mut Vec<char>, xs: &Vec<Vec<char>>)
    ensures
        final(out)@ == old(out)@ + section(cviews(xs@)),
{
    if xs.len() > 0 {
        out.push('\n');
        out.push('\n');
        let nl: [char; 1] = ['\n'];
        assert(nl@ =~= seq!['\n']);
        let joined = join_chars(xs, &nl);
        extend_chars(out, joined.as_slice());
        assert(final(out)@ =~= old(out)@ + section(cviews(xs@)));
    } else {
        assert(old(out)@ + section(cviews(xs@)) =~= old(out)@);
    }
}

impl<C: GitConfig> CommitMessageReflowAction<C> {
    /// A disabled action without configuration.
    pub fn new() -> (r: Self)
        ensures
            !r.enabled(),
            !r.has_config(),
    {
        CommitMessageReflowAction { setting: EnabledSetting::new() }
    }

    /// Whether the action is enabled.
    pub closed spec fn enabled(&self) -> bool {
        self.setting.enabled()
    }

    /// Whether a configuration is attached.
    pub closed spec fn has_config(&self) -> bool {
        self.setting.has_config()
    }

    /// The attached configuration's entries.
    pub closed spec fn entries(&self) -> Map<Seq<char>, Seq<char>> {
        self.setting.entries()
    }

    /// Whether the attached store takes every write.
    pub closed spec fn accepts_writes(&self) -> bool {
        self.setting.accepts_writes()
    }

    /// What persisting the choice `want` answers (see
    /// [`EnabledSetting::selection_result`]).
    pub closed spec fn selection_result(&self, want: bool) -> Result<(), HookError> {
        self.setting.selection_result(want)
    }

    /// Greedily fills lines up to `width` bytes, never splitting a word.
    pub fn wrap_paragraph(text: &str, width: usize) -> (r: Vec<String>)
        ensures
            sviews(r@) == wrapped(text@, width as int),
    {
        let cs = to_chars(text);
        let ls = wrap_chars(cs.as_slice(), width);
        to_strings(&ls)
    }

    /// Reflows prose paragraphs, but passes bullet-point lines through
    /// untouched and never merges two paragraphs separated by a blank line.
    pub fn reflow_paragraphs(lines: &[&str], width: usize) -> (r: Vec<String>)
        ensures
            sviews(r@) == reflowed(strviews(lines@), width as int),
    {
        let ls = chars_of_strs(lines);
        let bullet = Pattern::new(BULLET_PATTERN);
        let out = reflow_lines(&ls, width, &bullet);
        to_strings(&out)
    }

    /// Reflows a whole commit message (see [`reflow_message`]).
    pub fn reflow_commit_message(content: &str) -> (r: String)
        ensures
            r@ == reflow_message(content@),
    {
        let cs = to_chars(content);
        let all = split_lines(cs.as_slice());
        let ls = drop_comments(&all);
        let ghost lv = cviews(ls@);
        if ls.len() == 0 {
            return content.to_owned();
        }
        let ghost blank_p = |l: Seq<char>| is_blank(l);
        let ghost trailer_p = |l: Seq<char>| is_trailer_like(l);
        // leading blank lines of the body
        let mut lo: usize = 1;
        while lo < ls.len() && blank(ls[lo].as_slice())
            invariant
                1 <= lo <= ls@.len(),
                lv == cviews(ls@),
                forall|j: int| 1 <= j < lo ==> is_blank(#[trigger] lv[j]),
            decreases ls@.len() - lo,
        {
            lo = lo + 1;
        }
        let ghost b0 = lv.drop_first();
        proof {
            lemma_prefix_len(b0, blank_p, lo - 1);
        }
        // trailing blank lines of the body
        let mut hi: usize = ls.len();
        while hi > lo && blank(ls[hi - 1].as_slice())
            invariant
                lo <= hi <= ls@.len(),
                lv == cviews(ls@),
                forall|j: int| hi <= j < ls@.len() ==> is_blank(#[trigger] lv[j]),
            decreases hi,
        {
            hi = hi - 1;
        }
        let ghost t = b0.skip(lo - 1);
        let ghost body = lv.subrange(lo as int, hi as int);
        proof {
            assert(t =~= lv.subrange(lo as int, lv.len() as int));
            lemma_suffix_start(t, blank_p, hi - lo);
            assert(t.take(hi - lo) =~= body);
            assert(strip_blank_lines(lv.drop_first()) == body);
        }
        // the trailer block
        let trailer = Pattern::new(TRAILER_PATTERN);
        let invalid = Pattern::new(INVALID_TRAILER_PATTERN);
        let mut k: usize = hi;
        while k > lo && classify_trailer(ls[k - 1].as_slice(), &trailer, &invalid).is_some()
            invariant
                lo <= k <= hi,
                hi <= ls@.len(),
                lv == cviews(ls@),
                forall|j: int| k <= j < hi ==> is_trailer_like(#[trigger] lv[j]),
                trailer is Some <==> crate::pattern::regex_compiles(TRAILER_PATTERN@),
                trailer matches Some(q) ==> q@ == TRAILER_PATTERN@,
                invalid is Some <==> crate::pattern::regex_compiles(INVALID_TRAILER_PATTERN@),
                invalid matches Some(q) ==> q@ == INVALID_TRAILER_PATTERN@,
            decreases k,
        {
            k = k - 1;
        }
        proof {
            assert forall|j: int| k - lo <= j < body.len() implies trailer_p(
                #[trigger] body[j],
            ) by {
                assert(body[j] == lv[lo + j]);
            }
            if k > lo {
                assert(body[k - lo - 1] == lv[k - 1]);
            }
            lemma_suffix_start(body, trailer_p, k - lo);
        }
        let mut trailers: Vec<Vec<char>> = Vec::new();
        let mut j: usize = k;
        while j < hi
            invariant
                lo <= k <= j <= hi,
                hi <= ls@.len(),
                lv == cviews(ls@),
                body == lv.subrange(lo as int, hi as int),
                forall|m: int| k <= m < hi ==> is_trailer_like(#[trigger] lv[m]),
                cviews(trailers@) == body.subrange(k - lo, j - lo).map_values(
                    |l: Seq<char>| trailer_line(l),
                ),
                trailer is Some <==> crate::pattern::regex_compiles(TRAILER_PATTERN@),
                trailer matches Some(q) ==> q@ == TRAILER_PATTERN@,
                invalid is Some <==> crate::pattern::regex_compiles(INVALID_TRAILER_PATTERN@),
                invalid matches Some(q) ==> q@ == INVALID_TRAILER_PATTERN@,
            decreases hi - j,
        {
            let ghost l = lv[j as int];
            assert(is_trailer_like(l));
            match classify_trailer(ls[j].as_slice(), &trailer, &invalid) {
                Some(tl) => {
                    let ghost before = trailers@;
                    trailers.push(tl);
                    assert(cviews(trailers@) =~= cviews(before).push(trailer_line(l)));
                    assert(body.subrange(k - lo, j + 1 - lo) =~= body.subrange(k - lo, j - lo).push(l));
                    assert(body.subrange(k - lo, j + 1 - lo).map_values(
                        |l: Seq<char>| trailer_line(l),
                    ) =~= body.subrange(k - lo, j - lo).map_values(|l: Seq<char>| trailer_line(l)).push(
                        trailer_line(l),
                    ));
                },
                None => {},
            }
            j = j + 1;
        }
        proof {
            assert(body.subrange(k - lo, j - lo) =~= body.skip(k - lo));
        }
        // blank lines between the body and the trailers
        let mut h2: usize = k;
        while h2 > lo && blank(ls[h2 - 1].as_slice())
            invariant
                lo <= h2 <= k,
                k <= ls@.len(),
                lv == cviews(ls@),
                forall|m: int| h2 <= m < k ==> is_blank(#[trigger] lv[m]),
            decreases h2,
        {
            h2 = h2 - 1;
        }
        let ghost head = body.take(k - lo);
        proof {
            assert forall|m: int| h2 - lo <= m < head.len() implies blank_p(#[trigger] head[m]) by {
                assert(head[m] == lv[lo + m]);
            }
            if h2 > lo {
                assert(head[h2 - lo - 1] == lv[h2 - 1]);
            }
            lemma_suffix_start(head, blank_p, h2 - lo);
        }
        let rest = copy_range(&ls, lo, h2);
        proof {
            assert(cviews(rest@) =~= head.take(h2 - lo));
        }
        let bullet = Pattern::new(BULLET_PATTERN);
        let re = reflow_lines(&rest, LINE_LIMIT, &bullet);
        let mut result = copy_chars(ls[0].as_slice());
        push_section(&mut result, &re);
        push_section(&mut result, &trailers);
        result.push('\n');
        proof {
            assert(result@ =~= reflow_message(content@));
        }
        from_chars(result.as_slice())
    }
}

impl<C: GitConfig> ActionTraitInternal<C> for CommitMessageReflowAction<C> {
    fn check_valid(&self) -> (r: Result<(), HookError>)
        ensures
            r is Ok,
    {
        Ok(())
    }

    fn set_config(&mut self, cfg: C) -> (r: Result<(), HookError>)
        ensures
            r is Ok,
            final(self).enabled() == enabled_in(cfg.entries()),
            final(self).has_config(),
            final(self).entries() == cfg.entries(),
    {
        self.setting.set_config(cfg);
        Ok(())
    }
}

impl<C: GitConfig> ActionTrait<C> for CommitMessageReflowAction<C> {
    open spec fn run_requires(&self, items: Seq<Item>, args: Seq<String>) -> bool {
        true
    }

    fn is_available(&self) -> (r: bool)
        ensures
            r,
    {
        true
    }

    fn set_selected(&mut self, want_selected: bool) -> (r: Result<(), HookError>)
        ensures
            r == old(self).selection_result(want_selected),
            !old(self).has_config() ==> r is Ok && final(self).enabled() == old(self).enabled()
                && !final(self).has_config(),
            old(self).has_config() ==> final(self).has_config(),
            old(self).has_config() && r is Ok ==> final(self).enabled() == want_selected
                && final(self).entries() == entries_after_selection(
                old(self).entries(),
                want_selected,
            ),
            r is Err ==> final(self).enabled() == old(self).enabled() && final(self).entries()
                == old(self).entries(),
            old(self).has_config() && old(self).accepts_writes() ==> r is Ok,
            final(self).accepts_writes() == old(self).accepts_writes(),
    {
        self.setting.set_selected(want_selected)
    }

    fn is_selected(&self) -> (r: bool)
        ensures
            r == self.enabled(),
    {
        self.setting.is_enabled()
    }

    fn name(&self) -> (r: &str)
        ensures
            r@ == REFLOW_ACTION_NAME@,
    {
        REFLOW_ACTION_NAME
    }

    fn priority(&self) -> (r: i32)
        ensures
            r == 10,
    {
        10
    }

    /// Asks to reflow the message file named by the first argument.
    fn run(&self, items: &[Item], args: &Vec<String>) -> (r: Result<RunPlan, HookError>)
        ensures
            !self.enabled() ==> r == Ok::<RunPlan, HookError>(RunPlan::Nothing),
            self.enabled() && args@.len() == 0 ==> r == Err::<RunPlan, HookError>(
                HookError::MissingMessagePath,
            ),
            self.enabled() && args@.len() > 0 ==> (r matches Ok(RunPlan::ReflowMessage(p)) && p@
                == args@[0]@),
    {
        if !self.setting.is_enabled() {
            return Ok(RunPlan::Nothing);
        }
        if args.len() == 0 {
            return Err(HookError::MissingMessagePath);
        }
        Ok(RunPlan::ReflowMessage(args[0].clone()))
    }
}

/// The lines that filling `ws` leaves, the line being filled included.
pub open spec fn state_lines(st: (Seq<Seq<char>>, Seq<char>)) -> Seq<Seq<char>> {
    if st.1.len() > 0 {
        st.0.push(st.1)
    } else {
        st.0
    }
}

proof fn lemma_join_push(s: Seq<Seq<char>>, y: Seq<char>, sep: Seq<char>)
    ensures
        join(s.push(y), sep) == (if s.len() == 0 {
            y
        } else {
            join(s, sep) + sep + y
        }),
{
    assert(s.push(y).drop_last() =~= s);
    if s.len() == 0 {
        assert(s.push(y)[0] == y);
    }
}

proof fn lemma_wrap_state(ws: Seq<Seq<char>>, width: int)
    requires
        forall|i: int| 0 <= i < ws.len() ==> (#[trigger] ws[i]).len() > 0,
    ensures
        join(state_lines(wrap_state(ws, width)), seq![' ']) == join(ws, seq![' ']),
        ws.len() > 0 <==> wrap_state(ws, width).1.len() > 0,
        ws.len() == 0 ==> wrap_state(ws, width).0.len() == 0,
        forall|j: int|
            0 <= j < state_lines(wrap_state(ws, width)).len() ==> utf8_len(
                #[trigger] state_lines(wrap_state(ws, width))[j],
            ) <= width || ws.contains(state_lines(wrap_state(ws, width))[j]),
        forall|j: int|
            0 <= j < state_lines(wrap_state(ws, width)).len() ==> (#[trigger] state_lines(
                wrap_state(ws, width),
            )[j]).len() > 0,
    decreases ws.len(),
{
    if ws.len() > 0 {
        let ws0 = ws.drop_last();
        let w = ws.last();
        assert forall|i: int| 0 <= i < ws0.len() implies (#[trigger] ws0[i]).len() > 0 by {
            assert(ws0[i] == ws[i]);
        }
        lemma_wrap_state(ws0, width);
        let (done, cur) = wrap_state(ws0, width);
        let sp = seq![' '];
        assert(w == ws[ws.len() - 1]);
        assert(ws.contains(w));
        assert forall|x: Seq<char>| ws0.contains(x) implies ws.contains(x) by {
            let i = choose|i: int| 0 <= i < ws0.len() && ws0[i] == x;
            assert(ws[i] == x);
        }
        lemma_join_push(ws0, w, sp);
        assert(ws0.push(w) =~= ws);
        if cur.len() == 0 {
            assert(ws0.len() == 0);
            assert(state_lines(wrap_state(ws, width)) =~= seq![w]);
            assert(ws =~= seq![w]);
        } else if fits(cur, w, width) {
            let c2 = cur + sp + w;
            lemma_join_push(done, cur, sp);
            lemma_join_push(done, c2, sp);
            assert(state_lines(wrap_state(ws, width)) == done.push(c2));
            if done.len() > 0 {
                assert(join(done.push(c2), sp) =~= join(done.push(cur), sp) + sp + w);
            } else {
                assert(join(done.push(c2), sp) =~= join(done.push(cur), sp) + sp + w);
            }
            lemma_utf8_len_add(cur, sp);
            lemma_utf8_len_add(cur + sp, w);
            assert(sp.drop_last() =~= Seq::<char>::empty());
            assert(sp.last() == ' ');
            assert((' ' as u32) < 0x80);
            assert(char_utf8_len(' ') == 1);
            assert(utf8_len(Seq::<char>::empty()) == 0);
            assert(utf8_len(sp) == 1);
            assert(utf8_len(c2) <= width);
            assert(state_lines(wrap_state(ws0, width)) == done.push(cur));
            assert forall|j: int| 0 <= j < done.push(c2).len() implies utf8_len(
                #[trigger] done.push(c2)[j],
            ) <= width || ws.contains(done.push(c2)[j]) by {
                if j < done.len() {
                    assert(done.push(c2)[j] == done.push(cur)[j]);
                    assert(state_lines(wrap_state(ws0, width))[j] == done[j]);
                } else {
                    assert(done.push(c2)[j] == c2);
                }
            }
            assert forall|j: int| 0 <= j < done.push(c2).len() implies (#[trigger] done.push(
                c2,
            )[j]).len() > 0 by {
                if j < done.len() {
                    assert(state_lines(wrap_state(ws0, width))[j] == done[j]);
                }
            }
        } else {
            let d2 = done.push(cur);
            lemma_join_push(d2, w, sp);
            assert(state_lines(wrap_state(ws, width)) == d2.push(w));
            assert forall|j: int| 0 <= j < d2.push(w).len() implies utf8_len(
                #[trigger] d2.push(w)[j],
            ) <= width || ws.contains(d2.push(w)[j]) by {
                if j < d2.len() {
                    assert(d2.push(w)[j] == state_lines(wrap_state(ws0, width))[j]);
                }
            }
            assert forall|j: int| 0 <= j < d2.push(w).len() implies (#[trigger] d2.push(
                w,
            )[j]).len() > 0 by {
                if j < d2.len() {
                    assert(d2.push(w)[j] == state_lines(wrap_state(ws0, width))[j]);
                }
            }
        }
    }
}

/// Wrapping never splits, drops, reorders or merges words: the lines joined
/// by single spaces give the words joined by single spaces.
pub proof fn law_wrap_keeps_words(ws: Seq<Seq<char>>, width: int)
    requires
        forall|i: int| 0 <= i < ws.len() ==> (#[trigger] ws[i]).len() > 0,
    ensures
        join(wrap_words(ws, width), seq![' ']) == join(ws, seq![' ']),
{
    lemma_wrap_state(ws, width);
}

/// Every wrapped line fits in `width` bytes, unless it is a single word too
/// long to fit anywhere.
pub proof fn law_wrap_lines_fit(ws: Seq<Seq<char>>, width: int)
    requires
        forall|i: int| 0 <= i < ws.len() ==> (#[trigger] ws[i]).len() > 0,
    ensures
        forall|j: int|
            0 <= j < wrap_words(ws, width).len() ==> utf8_len(#[trigger] wrap_words(ws, width)[j])
                <= width || ws.contains(wrap_words(ws, width)[j]),
{
    lemma_wrap_state(ws, width);
}

/// The number of blank lines among `ls`.
pub open spec fn count_blank(ls: Seq<Seq<char>>) -> nat
    decreases ls.len(),
{
    if ls.len() == 0 {
        0
    } else {
        count_blank(ls.drop_last()) + if is_blank(ls.last()) {
            1nat
        } else {
            0nat
        }
    }
}

/// The number of empty lines among `ls`.
pub open spec fn count_empty(ls: Seq<Seq<char>>) -> nat
    decreases ls.len(),
{
    if ls.len() == 0 {
        0
    } else {
        count_empty(ls.drop_last()) + if ls.last().len() == 0 {
            1nat
        } else {
            0nat
        }
    }
}

proof fn lemma_count_empty_append(a: Seq<Seq<char>>, b: Seq<Seq<char>>)
    ensures
        count_empty(a + b) == count_empty(a) + count_empty(b),
    decreases b.len(),
{
    if b.len() == 0 {
        assert(a + b =~= a);
    } else {
        lemma_count_empty_append(a, b.drop_last());
        assert((a + b).drop_last() =~= a + b.drop_last());
    }
}

proof fn lemma_count_empty_none(a: Seq<Seq<char>>)
    requires
        forall|j: int| 0 <= j < a.len() ==> (#[trigger] a[j]).len() > 0,
    ensures
        count_empty(a) == 0,
    decreases a.len(),
{
    if a.len() > 0 {
        assert forall|j: int| 0 <= j < a.drop_last().len() implies (#[trigger] a.drop_last()[j]).len()
            > 0 by {
            assert(a.drop_last()[j] == a[j]);
        }
        lemma_count_empty_none(a.drop_last());
        assert(a.last() == a[a.len() - 1]);
    }
}

proof fn lemma_words_acc_nonempty(s: Seq<char>, cur: Seq<char>)
    ensures
        forall|i: int| 0 <= i < words_acc(s, cur).len() ==> (#[trigger] words_acc(s, cur)[i]).len() > 0,
    decreases s.len(),
{
    if s.len() == 0 {
        if cur.len() > 0 {
            assert(words_acc(s, cur) == seq![cur]);
        } else {
            assert(words_acc(s, cur) == Seq::<Seq<char>>::empty());
        }
    } else {
        if is_ws(s[0]) {
            lemma_words_acc_nonempty(s.drop_first(), seq![]);
            if cur.len() == 0 {
                assert(words_acc(s, cur) == words_acc(s.drop_first(), seq![]));
            }
            if cur.len() > 0 {
                assert(words_acc(s, cur) == seq![cur] + words_acc(s.drop_first(), seq![]));
                let r = words_acc(s.drop_first(), seq![]);
                assert forall|i: int| 0 <= i < (seq![cur] + r).len() implies (#[trigger] (seq![cur]
                    + r)[i]).len() > 0 by {
                    if i > 0 {
                        assert((seq![cur] + r)[i] == r[i - 1]);
                    }
                }
            }
        } else {
            lemma_words_acc_nonempty(s.drop_first(), cur.push(s[0]));
            assert(words_acc(s, cur) == words_acc(s.drop_first(), cur.push(s[0])));
        }
    }
}

/// Wrapped prose lines are never empty.
proof fn lemma_wrapped_nonempty(text: Seq<char>, width: int)
    ensures
        count_empty(wrapped(text, width)) == 0,
{
    lemma_words_acc_nonempty(text, seq![]);
    let ws = words(text);
    assert forall|i: int| 0 <= i < ws.len() implies (#[trigger] ws[i]).len() > 0 by {}
    lemma_wrap_state(ws, width);
    assert(wrap_words(ws, width) == state_lines(wrap_state(ws, width)));
    lemma_count_empty_none(wrap_words(ws, width));
}

proof fn lemma_reflow_state_count(ls: Seq<Seq<char>>, width: int)
    ensures
        count_empty(reflow_state(ls, width).0) == count_blank(ls),
    decreases ls.len(),
{
    if ls.len() > 0 {
        lemma_reflow_state_count(ls.drop_last(), width);
        let (out, para) = reflow_state(ls.drop_last(), width);
        let line = ls.last();
        if is_blank(line) || is_bullet(line) {
            let f = flush(out, para, width);
            if para.len() > 0 {
                lemma_wrapped_nonempty(join(para, seq![' ']), width);
                lemma_count_empty_append(out, wrapped(join(para, seq![' ']), width));
            }
            let pushed: Seq<char> = if is_blank(line) {
                seq![]
            } else {
                line
            };
            assert(f.push(pushed).drop_last() =~= f);
            if !is_blank(line) {
                assert(line.len() > 0) by {
                    if line.len() == 0 {
                        assert(is_blank(line));
                    }
                }
            }
        }
    }
}

/// Paragraphs separated by a blank line are never merged: the reflowed
/// lines hold exactly as many empty lines as the input holds blank lines
/// (prose lines and bullet lines are never empty).
pub proof fn law_reflow_keeps_paragraph_breaks(ls: Seq<Seq<char>>, width: int)
    ensures
        count_empty(reflowed(ls, width)) == count_blank(ls),
{
    lemma_reflow_state_count(ls, width);
    let (out, para) = reflow_state(ls, width);
    if para.len() > 0 {
        lemma_wrapped_nonempty(join(para, seq![' ']), width);
        lemma_count_empty_append(out, wrapped(join(para, seq![' ']), width));
    }
}

/// Bullet lines pass through untouched: each one is a line of the output.
pub proof fn law_reflow_keeps_bullets(ls: Seq<Seq<char>>, width: int, i: int)
    requires
        0 <= i < ls.len(),
        is_bullet(ls[i]),
        !is_blank(ls[i]),
    ensures
        reflowed(ls, width).contains(ls[i]),
{
    lemma_reflow_out_grows(ls, width, i + 1);
    let st = reflow_state(ls.take(i + 1), width);
    assert(ls.take(i + 1).drop_last() =~= ls.take(i));
    assert(ls.take(i + 1).last() == ls[i]);
    let k = st.0.len() - 1;
    assert(st.0[k] == ls[i]);
    let (out, para) = reflow_state(ls, width);
    assert(reflowed(ls, width)[k] == out[k]) by {
        if para.len() > 0 {
            assert((out + wrapped(join(para, seq![' ']), width))[k] == out[k]);
        }
    }
    assert(out[k] == ls[i]);
}

/// Reading more lines only adds to the output so far.
proof fn lemma_reflow_out_grows(ls: Seq<Seq<char>>, width: int, n: int)
    requires
        0 <= n <= ls.len(),
    ensures
        reflow_state(ls.take(n), width).0.len() <= reflow_state(ls, width).0.len(),
        forall|j: int|
            0 <= j < reflow_state(ls.take(n), width).0.len() ==> #[trigger] reflow_state(
                ls.take(n),
                width,
            ).0[j] == reflow_state(ls, width).0[j],
    decreases ls.len() - n,
{
    if n == ls.len() {
        assert(ls.take(n) =~= ls);
    } else {
        lemma_reflow_out_grows(ls, width, n + 1);
        let t1 = ls.take(n + 1);
        assert(t1.drop_last() =~= ls.take(n));
        let (out, para) = reflow_state(ls.take(n), width);
        let line = t1.last();
        assert(reflow_state(t1, width).0.len() >= out.len());
        if !(is_blank(line) || is_bullet(line)) {
            assert(reflow_state(t1, width).0 == out);
        }
        if is_blank(line) || is_bullet(line) {
            let f = flush(out, para, width);
            let pushed: Seq<char> = if is_blank(line) {
                seq![]
            } else {
                line
            };
            assert(reflow_state(t1, width).0 == f.push(pushed));
            assert forall|j: int| 0 <= j < out.len() implies #[trigger] f.push(pushed)[j]
                == out[j] by {
                if para.len() > 0 {
                    assert(f[j] == out[j]);
                }
            }
            assert forall|j: int| 0 <= j < out.len() implies #[trigger] reflow_state(t1, width).0[j]
                == out[j] by {
                assert(f.push(pushed)[j] == out[j]);
            }
        }
        assert forall|j: int| 0 <= j < out.len() implies #[trigger] reflow_state(ls.take(n), width).0[j]
            == reflow_state(ls, width).0[j] by {
            assert(reflow_state(t1, width).0[j] == out[j]);
            assert(reflow_state(ls.take(n + 1), width).0[j] == reflow_state(ls, width).0[j]);
        }
    }
}

/// The summary line (the first line that is not a comment) is kept as it
/// is, and the reflowed message ends with a line break.
pub proof fn law_reflow_keeps_summary(content: Seq<char>)
    requires
        without_comments(lines(content)).len() > 0,
    ensures
        reflow_message(content).take(without_comments(lines(content))[0].len() as int)
            == without_comments(lines(content))[0],
        reflow_message(content).last() == '\n',
{
    let ls = without_comments(lines(content));
    let body = strip_blank_lines(ls.drop_first());
    let k = suffix_start(body, |l: Seq<char>| is_trailer_like(l));
    let trailers = body.skip(k as int).map_values(|l: Seq<char>| trailer_line(l));
    let head = body.take(k as int);
    let rest = head.take(suffix_start(head, |l: Seq<char>| is_blank(l)) as int);
    let tail = section(reflowed(rest, LINE_LIMIT as int)) + section(trailers) + seq!['\n'];
    assert(reflow_message(content) == ls[0] + tail);
    assert((ls[0] + tail).take(ls[0].len() as int) =~= ls[0]);
}

/// Well-formed trailers of the final block are kept verbatim, in order.
pub proof fn law_reflow_keeps_trailers(body: Seq<Seq<char>>, i: int)
    requires
        suffix_start(body, |l: Seq<char>| is_trailer_like(l)) <= i < body.len(),
        is_trailer(body[i]),
    ensures
        body.skip(suffix_start(body, |l: Seq<char>| is_trailer_like(l)) as int).map_values(
            |l: Seq<char>| trailer_line(l),
        )[i - suffix_start(body, |l: Seq<char>| is_trailer_like(l))] == body[i],
{
}

} // verus!
