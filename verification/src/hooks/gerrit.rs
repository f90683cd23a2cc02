//! Gerrit Change-Id trailers for commit messages.

use vstd::prelude::*;

use super::action::{ActionTrait, ActionTraitInternal, EnabledSetting, RunPlan, enabled_in,
    entries_after_selection};
use super::commit_message_reflow_action::{is_comment, without_comments};
use super::trailer_map::{TrailerMap, is_listing, lemma_lt_irreflexive, sorted_keys};
use crate::assoc::{assoc_lookup, assoc_map, lemma_lookup_last, lemma_lookup_none, lemma_map_push};
use crate::error::HookError;
use crate::pattern::{
    Pattern, captures_pattern, group, group_chars, matches_pattern, pattern_captures,
    pattern_matches,
};
use crate::repo::config::GitConfig;
use crate::repo::Item;
use crate::text::{
    chars_eq, copy_chars, cviews, extend_str, from_chars, has_prefix, is_ws, join,
    join_chars, lemma_join_lines, lemma_lines_append, lemma_lines_cons, lemma_prefix_len, lines,
    prefix_len, split_lines, starts_with, strip_cr, to_chars, trim_start, trim_start_chars,
};

verus! {

/// The trailer that carries the Change-Id.
pub const TAG_CHANGE_ID: &'static str = "Change-Id";

/// First lines of squash/fixup commits, which get no Change-Id.
pub const SKIP_CHANGE_ID_REGEX: &'static str = "(^[a-z]+!|fixup[^a-zA-Z0-9_]?)";

/// A trailer line: key, colon, value.
pub const TRAILER_REGEX: &'static str = "^([a-zA-Z0-9-]+):\\s*(.*)\\s*$";

/// Display name of the Change-Id action.
pub const GERRIT_ACTION_NAME: &'static str = "Gerrit ChangeId generator (built-in)";

/// Adds a Gerrit Change-Id to commit messages.
pub struct GerritChangeIdAction<C> {
    setting: EnabledSetting<C>,
}

// ---------------------------------------------------------------------------
// Specification

/// The first line of `msg` (empty when it has none).
pub open spec fn first_line(msg: Seq<char>) -> Seq<char> {
    if lines(msg).len() > 0 {
        lines(msg)[0]
    } else {
        seq![]
    }
}

/// Whether a Change-Id is to be created, given the `gerrit.createChangeId`
/// setting: never for `false`, always for `always`, and otherwise unless the
/// message is a squash/fixup commit or already has a Change-Id.
pub open spec fn wants_change_id(
    requested_type: Seq<char>,
    msg: Seq<char>,
    trailers: Map<Seq<char>, Seq<char>>,
) -> bool {
    if requested_type == "false"@ {
        false
    } else if requested_type == "always"@ {
        true
    } else {
        !(matches_pattern(SKIP_CHANGE_ID_REGEX@, first_line(msg)) || trailers.contains_key(
            TAG_CHANGE_ID@,
        ))
    }
}

/// The scissors line, below which git drops the message.
pub open spec fn is_scissors(l: Seq<char>) -> bool {
    starts_with(l, seq!['>', '8'])
}

/// `ls` without trailing empty lines (but never its first line).
pub open spec fn drop_empty_tail(ls: Seq<Seq<char>>) -> Seq<Seq<char>>
    decreases ls.len(),
{
    if ls.len() > 1 && ls.last().len() == 0 {
        drop_empty_tail(ls.drop_last())
    } else {
        ls
    }
}

/// The capture groups of the trailer pattern in `l`.
pub open spec fn trailer_caps(l: Seq<char>) -> Option<Seq<Option<Seq<char>>>> {
    captures_pattern(TRAILER_REGEX@, l)
}

/// The key and value of a trailer line.
pub open spec fn trailer_pair(l: Seq<char>) -> (Seq<char>, Seq<char>) {
    (group(trailer_caps(l)->0, 1), group(trailer_caps(l)->0, 2))
}

/// The lines before the final trailer block (the first line always stays),
/// and the trailers from the last line upwards.
pub open spec fn split_trailers(ls: Seq<Seq<char>>) -> (Seq<Seq<char>>, Seq<(Seq<char>, Seq<char>)>)
    decreases ls.len(),
{
    if ls.len() > 1 && trailer_caps(ls.last()) is Some {
        let (rest, pairs) = split_trailers(ls.drop_last());
        (rest, seq![trailer_pair(ls.last())] + pairs)
    } else {
        (ls, seq![])
    }
}

/// The lines of a commit message that matter: those above the scissors
/// line, without comments.
pub open spec fn message_lines(message: Seq<char>) -> Seq<Seq<char>> {
    let ls = lines(message);
    without_comments(ls.take(prefix_len(ls, |l: Seq<char>| !is_scissors(l)) as int))
}

/// A message whose second line is not empty is not a commit message.
pub open spec fn is_valid_message(message: Seq<char>) -> bool {
    let ls = message_lines(message);
    !(ls.len() > 1 && ls[1].len() > 0)
}

/// The message without trailing empty lines and trailers.
pub open spec fn parsed_text(message: Seq<char>) -> Seq<char> {
    let (rest, pairs) = split_trailers(drop_empty_tail(message_lines(message)));
    join(drop_empty_tail(rest), seq!['\n'])
}

/// The trailers of the message; the upper of two equal keys wins.
pub open spec fn parsed_trailers(message: Seq<char>) -> Map<Seq<char>, Seq<char>> {
    let (rest, pairs) = split_trailers(drop_empty_tail(message_lines(message)));
    assoc_map(pairs)
}

/// `key: value` lines, each ended by a newline.
pub open spec fn trailer_text(ps: Seq<(Seq<char>, Seq<char>)>) -> Seq<char>
    decreases ps.len(),
{
    if ps.len() == 0 {
        seq![]
    } else {
        trailer_text(ps.drop_last()) + ps.last().0 + seq![':', ' '] + ps.last().1 + seq!['\n']
    }
}

/// The message, an empty line, then the trailers in key order.
pub open spec fn compiled_message(message: Seq<char>, ordered: Seq<(Seq<char>, Seq<char>)>) -> Seq<
    char,
> {
    message + seq!['\n', '\n'] + trailer_text(ordered)
}

/// The object id, in hex, that git gives a blob holding `data`.
pub uninterp spec fn git_blob_hash(data: Seq<char>) -> Seq<char>;

/// Whether libgit2 hashes a blob holding `data` (it refuses data on which
/// its SHA-1 collision detection trips).
pub uninterp spec fn git_blob_hash_ok(data: Seq<char>) -> bool;

/// Forty lowercase hex digits: an object id as git writes it.
pub open spec fn is_hex_id(h: Seq<char>) -> bool {
    h.len() == 40 && forall|i: int| 0 <= i < h.len() ==> ('0' <= #[trigger] h[i] <= '9' || 'a' <= h[i] <= 'f')
}

/// What the Change-Id hash is computed from: the committer's name and
/// e-mail, the commit HEAD points at and the current time, one after the
/// other.
pub open spec fn hash_input(
    user_name: Seq<char>,
    user_email: Seq<char>,
    head: Seq<char>,
    now: Seq<char>,
) -> Seq<char> {
    user_name + user_email + head + now
}

/// The message with a Change-Id added, when one is wanted: `None` where the
/// setting or the message asks for none.
pub open spec fn change_id_wanted(content: Seq<char>, create_setting: Seq<char>) -> bool {
    wants_change_id(create_setting, parsed_text(content), parsed_trailers(content))
}

/// The trailers once the Change-Id `I<hash>` is set.
pub open spec fn trailers_with_id(content: Seq<char>, hash: Seq<char>) -> Map<Seq<char>, Seq<char>> {
    parsed_trailers(content).insert(TAG_CHANGE_ID@, seq!['I'] + hash)
}

// ---------------------------------------------------------------------------
// Implementation

/// Hashes `data` as a git blob (`git2::Oid::hash_object` with
/// `ObjectType::Blob`) and writes the id in hex (`Oid`'s `Display`, which
/// libgit2 formats as forty lowercase hex digits); `None` where libgit2
/// reports an error, which depends on the data alone. The id and the success
/// are the names [`git_blob_hash`] and [`git_blob_hash_ok`].
#[verifier::external_body]
fn blob_hash(data: &str) -> (r: Option<String>)
    ensures
        r is Some <==> git_blob_hash_ok(data@),
        r matches Some(h) ==> h@ == git_blob_hash(data@) && is_hex_id(h@),
{
    match git2::Oid::hash_object(git2::ObjectType::Blob, data.as_bytes()) {
        Ok(oid) => Some(oid.to_string()),
        Err(_) => None,
    }
}

proof fn lemma_drop_empty_tail(ls: Seq<Seq<char>>, k: int)
    requires
        1 <= k <= ls.len(),
        forall|j: int| k <= j < ls.len() ==> (#[trigger] ls[j]).len() == 0,
        k == 1 || ls[k - 1].len() > 0,
    ensures
        drop_empty_tail(ls) == ls.take(k),
    decreases ls.len(),
{
    if k < ls.len() {
        lemma_drop_empty_tail(ls.drop_last(), k);
    } else {
        assert(ls.take(k) =~= ls);
    }
}

/// Drops trailing empty lines, keeping the first line.
fn drop_empty_lines(ls: &Vec<Vec<char>>) -> (r: Vec<Vec<char>>)
    requires
        ls@.len() > 0,
    ensures
        cviews(r@) == drop_empty_tail(cviews(ls@)),
        r@.len() >= 1,
{
    let mut k: usize = ls.len();
    while k > 1 && ls[k - 1].len() == 0
        invariant
            1 <= k <= ls@.len(),
            forall|j: int| k <= j < ls@.len() ==> (#[trigger] cviews(ls@)[j]).len() == 0,
        decreases k,
    {
        k = k - 1;
    }
    proof {
        lemma_drop_empty_tail(cviews(ls@), k as int);
    }
    let r = crate::text::copy_range(ls, 0, k);
    assert(cviews(ls@).subrange(0, k as int) =~= cviews(ls@).take(k as int));
    assert(cviews(r@).len() == k);
    r
}

/// The lines of `message` above the scissors line, without comments.
fn relevant_lines(message: &str) -> (r: Vec<Vec<char>>)
    ensures
        cviews(r@) == message_lines(message@),
{
    let cs = to_chars(message);
    let all = split_lines(cs.as_slice());
    let ghost av = cviews(all@);
    let scissors: [char; 2] = ['>', '8'];
    assert(scissors@ =~= seq!['>', '8']);
    let mut n: usize = 0;
    while n < all.len() && !has_prefix(all[n].as_slice(), &scissors)
        invariant
            n <= all@.len(),
            av == cviews(all@),
            scissors@ == seq!['>', '8'],
            forall|j: int| 0 <= j < n ==> !is_scissors(#[trigger] av[j]),
        decreases all@.len() - n,
    {
        n = n + 1;
    }
    proof {
        let p = |l: Seq<char>| !is_scissors(l);
        lemma_prefix_len(av, p, n as int);
    }
    let top = crate::text::copy_range(&all, 0, n);
    assert(av.subrange(0, n as int) =~= av.take(n as int));
    let hash: [char; 1] = ['#'];
    assert(hash@ =~= seq!['#']);
    let ghost tv = cviews(top@);
    let mut out: Vec<Vec<char>> = Vec::new();
    let mut i: usize = 0;
    while i < top.len()
        invariant
            i <= top@.len(),
            tv == cviews(top@),
            hash@ == seq!['#'],
            cviews(out@) == without_comments(tv.take(i as int)),
        decreases top@.len() - i,
    {
        assert(tv.take(i + 1).drop_last() =~= tv.take(i as int));
        assert(tv.take(i + 1).last() == top@[i as int]@);
        let t = trim_start_chars(top[i].as_slice());
        if !has_prefix(t.as_slice(), &hash) {
            let c = copy_chars(top[i].as_slice());
            let ghost before = out@;
            out.push(c);
            assert(cviews(out@) =~= cviews(before).push(c@));
        }
        i = i + 1;
    }
    assert(tv.take(i as int) =~= tv);
    out
}

impl<C: GitConfig> GerritChangeIdAction<C> {
    /// A disabled action without configuration.
    pub fn new() -> (r: Self)
        ensures
            !r.enabled(),
            !r.has_config(),
    {
        GerritChangeIdAction { setting: EnabledSetting::new() }
    }

    pub closed spec fn enabled(&self) -> bool {
        self.setting.enabled()
    }

    pub closed spec fn has_config(&self) -> bool {
        self.setting.has_config()
    }

    pub closed spec fn entries(&self) -> Map<Seq<char>, Seq<char>> {
        self.setting.entries()
    }

    /// Whether the attached store takes every write.
    pub closed spec fn accepts_writes(&self) -> bool {
        self.setting.accepts_writes()
    }

    /// What persisting the choice `want` answers (see
    /// [`EnabledSetting::selection_result`]).
    pub closed spec fn selection_result(&self, want: bool) -> Result<(), HookError> {
        self.setting.selection_result(want)
    }

    /// Whether a Change-Id should be added (see [`wants_change_id`]).
    pub fn should_generate_change_id(
        requested_type: &str,
        commit_msg: &str,
        trailers: &TrailerMap,
    ) -> (r: bool)
        ensures
            r == wants_change_id(requested_type@, commit_msg@, trailers@),
    {
        let rt = to_chars(requested_type);
        let never = to_chars("false");
        let always = to_chars("always");
        if chars_eq(rt.as_slice(), never.as_slice()) {
            return false;
        }
        if chars_eq(rt.as_slice(), always.as_slice()) {
            return true;
        }
        // Do not create a change id for squash/fixup commits.
        let cs = to_chars(commit_msg);
        let ls = split_lines(cs.as_slice());
        let first: Vec<char> = if ls.len() > 0 {
            copy_chars(ls[0].as_slice())
        } else {
            Vec::new()
        };
        assert(first@ == first_line(commit_msg@));
        let skip_re = Pattern::new(SKIP_CHANGE_ID_REGEX);
        let skip_tag_creation = pattern_matches(&skip_re, Ghost(SKIP_CHANGE_ID_REGEX@), first.as_slice());
        !(skip_tag_creation || trailers.contains_key(TAG_CHANGE_ID))
    }

    /// Splits a commit message into its text and its trailers; fails on a
    /// message whose second line is not empty.
    pub fn parse_commit_message(message: &str) -> (r: Result<(String, TrailerMap), HookError>)
        ensures
            !is_valid_message(message@) ==> r == Err::<(String, TrailerMap), HookError>(
                HookError::InvalidCommitMessage,
            ),
            is_valid_message(message@) ==> (r matches Ok((text, trailers)) && text@ == parsed_text(
                message@,
            ) && trailers@ == parsed_trailers(message@)),
    {
        let ls = relevant_lines(message);
        // Confirm that the second line is empty
        if ls.len() > 1 && ls[1].len() > 0 {
            return Err(HookError::InvalidCommitMessage);
        }
        if ls.len() == 0 {
            proof {
                assert(drop_empty_tail(cviews(ls@)) =~= cviews(ls@));
                assert(split_trailers(cviews(ls@)) == (cviews(ls@), Seq::<(Seq<char>, Seq<char>)>::empty()));
                assert(join(cviews(ls@), seq!['\n']) =~= Seq::<char>::empty());
                assert(assoc_map(Seq::<(Seq<char>, Seq<char>)>::empty()) =~= Map::<Seq<char>, Seq<char>>::empty());
            }
            return Ok((String::new(), TrailerMap::new()));
        }
        // Skip empty lines at end...
        let body = drop_empty_lines(&ls);
        let ghost bv = cviews(body@);
        // ... then, process trailers...
        let re = Pattern::new(TRAILER_REGEX);
        let mut trailers = TrailerMap::new();
        let ghost mut popped: Seq<(Seq<char>, Seq<char>)> = seq![];
        let mut k: usize = body.len();
        proof {
            assert(bv.take(k as int) =~= bv);
        }
        loop
            invariant
                1 <= k <= body@.len(),
                bv == cviews(body@),
                re is Some <==> crate::pattern::regex_compiles(TRAILER_REGEX@),
                re matches Some(q) ==> q@ == TRAILER_REGEX@,
                split_trailers(bv) == (split_trailers(bv.take(k as int)).0, popped + split_trailers(
                    bv.take(k as int),
                ).1),
                trailers@ == assoc_map(popped),
            ensures
                1 <= k <= body@.len(),
                split_trailers(bv) == (bv.take(k as int), popped),
                trailers@ == assoc_map(popped),
            decreases k,
        {
            let ghost t = bv.take(k as int);
            if k <= 1 {
                assert(split_trailers(t) == (t, Seq::<(Seq<char>, Seq<char>)>::empty()));
                assert(popped + Seq::<(Seq<char>, Seq<char>)>::empty() =~= popped);
                break ;
            }
            assert(t.last() == body@[k - 1]@);
            match pattern_captures(&re, Ghost(TRAILER_REGEX@), body[k - 1].as_slice()) {
                Some(caps) => {
                    let key_chars = group_chars(&caps, 1);
                    let value_chars = group_chars(&caps, 2);
                    let key = from_chars(key_chars.as_slice());
                    let value = from_chars(value_chars.as_slice());
                    proof {
                        assert(t.drop_last() =~= bv.take(k - 1));
                        assert(trailer_pair(t.last()) == (key@, value@));
                        lemma_map_push(popped, key@, value@);
                        assert(popped.push((key@, value@)) + split_trailers(bv.take(k - 1)).1 =~= popped
                            + (seq![(key@, value@)] + split_trailers(bv.take(k - 1)).1));
                        popped = popped.push((key@, value@));
                    }
                    trailers.insert(key, value);
                    k = k - 1;
                },
                None => {
                    assert(split_trailers(t) == (t, Seq::<(Seq<char>, Seq<char>)>::empty()));
                    assert(popped + Seq::<(Seq<char>, Seq<char>)>::empty() =~= popped);
                    break ;
                },
            }
        }
        // ... then, skip empty lines at end.
        let rest = crate::text::copy_range(&body, 0, k);
        assert(bv.subrange(0, k as int) =~= bv.take(k as int));
        let kept = drop_empty_lines(&rest);
        let nl: [char; 1] = ['\n'];
        assert(nl@ =~= seq!['\n']);
        let text = join_chars(&kept, &nl);
        Ok((from_chars(text.as_slice()), trailers))
    }

    /// The message, an empty line and the trailers as `key: value` lines in
    /// key order.
    pub fn compile_commit_message(message: &str, trailers: &TrailerMap) -> (r: String)
        ensures
            r@ == compiled_message(message@, trailers.ordered()),
    {
        let mut res = to_chars(message);
        res.push('\n');
        res.push('\n');
        let ghost base = message@ + seq!['\n', '\n'];
        assert(res@ =~= base);
        let mut i: usize = 0;
        while i < trailers.len()
            invariant
                i <= trailers.ordered().len(),
                res@ == base + trailer_text(trailers.ordered().take(i as int)),
            decreases trailers.ordered().len() - i,
        {
            let (key, val) = trailers.entry(i);
            let ghost before = res@;
            extend_str(&mut res, key.as_str());
            res.push(':');
            res.push(' ');
            extend_str(&mut res, val.as_str());
            res.push('\n');
            proof {
                let o = trailers.ordered();
                assert(o.take(i + 1).drop_last() =~= o.take(i as int));
                assert(o.take(i + 1).last() == o[i as int]);
                assert(res@ =~= base + trailer_text(o.take(i + 1)));
            }
            i = i + 1;
        }
        assert(trailers.ordered().take(i as int) =~= trailers.ordered());
        from_chars(res.as_slice())
    }

    /// The hash a new Change-Id is made of: the git blob id of the
    /// committer's name and e-mail, the HEAD commit and the time, one after
    /// the other; `None` where git cannot hash.
    pub fn generate_hash(user_name: &str, user_email: &str, head: &str, now: &str) -> (r: Option<
        String,
    >)
        ensures
            r is Some <==> git_blob_hash_ok(hash_input(user_name@, user_email@, head@, now@)),
            r matches Some(h) ==> h@ == git_blob_hash(
                hash_input(user_name@, user_email@, head@, now@),
            ) && is_hex_id(h@),
    {
        let mut data: Vec<char> = Vec::new();
        extend_str(&mut data, user_name);
        extend_str(&mut data, user_email);
        extend_str(&mut data, head);
        extend_str(&mut data, now);
        let d = from_chars(data.as_slice());
        assert(d@ =~= hash_input(user_name@, user_email@, head@, now@));
        blob_hash(d.as_str())
    }

    /// The commit message file's new content: the message with the trailer
    /// `Change-Id: I<hash>` added and the trailers in key order; `None` where
    /// no Change-Id is wanted (see [`wants_change_id`]); an error for a
    /// message whose second line is not empty.
    pub fn change_id_message(content: &str, create_setting: &str, hash: &str) -> (r: Result<
        Option<String>,
        HookError,
    >)
        ensures
            !is_valid_message(content@) ==> r == Err::<Option<String>, HookError>(
                HookError::InvalidCommitMessage,
            ),
            is_valid_message(content@) && !change_id_wanted(content@, create_setting@) ==> r
                == Ok::<Option<String>, HookError>(None),
            is_valid_message(content@) && change_id_wanted(content@, create_setting@) ==> (r matches Ok(
                Some(m),
            ) && exists|o: Seq<(Seq<char>, Seq<char>)>|
                is_listing(o, trailers_with_id(content@, hash@)) && m@ == compiled_message(
                    parsed_text(content@),
                    o,
                )),
    {
        match Self::parse_commit_message(content) {
            Err(e) => Err(e),
            Ok((commit_msg, mut trailers)) => {
                if !Self::should_generate_change_id(create_setting, commit_msg.as_str(), &trailers) {
                    return Ok(None);
                }
                Self::set_change_id(&mut trailers, hash);
                trailers.sorted_invariant();
                let m = Self::compile_commit_message(commit_msg.as_str(), &trailers);
                Ok(Some(m))
            },
        }
    }

    /// Sets the trailer `Change-Id: I<hash>`.
    pub fn set_change_id(trailers: &mut TrailerMap, hash: &str)
        ensures
            final(trailers)@ == old(trailers)@.insert(TAG_CHANGE_ID@, seq!['I'] + hash@),
    {
        let mut id: Vec<char> = Vec::new();
        id.push('I');
        extend_str(&mut id, hash);
        let value = from_chars(id.as_slice());
        assert(value@ =~= seq!['I'] + hash@);
        trailers.insert(TAG_CHANGE_ID.to_owned(), value);
    }
}

impl<C: GitConfig> ActionTraitInternal<C> for GerritChangeIdAction<C> {
    fn check_valid(&self) -> (r: Result<(), HookError>)
        ensures
            r is Ok,
    {
        Ok(())
    }

    fn set_config(&mut self, cfg: C) -> (r: Result<(), HookError>)
        ensures
            r is Ok,
            final(self).enabled() == enabled_in(cfg.entries()),
            final(self).has_config(),
            final(self).entries() == cfg.entries(),
    {
        self.setting.set_config(cfg);
        Ok(())
    }
}

impl<C: GitConfig> ActionTrait<C> for GerritChangeIdAction<C> {
    /// The message file is the first argument.
    open spec fn run_requires(&self, items: Seq<Item>, args: Seq<String>) -> bool {
        args.len() > 0
    }

    fn is_available(&self) -> (r: bool)
        ensures
            r,
    {
        true
    }

    fn set_selected(&mut self, want_selected: bool) -> (r: Result<(), HookError>)
        ensures
            r == old(self).selection_result(want_selected),
            !old(self).has_config() ==> r is Ok && final(self).enabled() == old(self).enabled()
                && !final(self).has_config(),
            old(self).has_config() ==> final(self).has_config(),
            old(self).has_config() && r is Ok ==> final(self).enabled() == want_selected
                && final(self).entries() == entries_after_selection(
                old(self).entries(),
                want_selected,
            ),
            r is Err ==> final(self).enabled() == old(self).enabled() && final(self).entries()
                == old(self).entries(),
            old(self).has_config() && old(self).accepts_writes() ==> r is Ok,
            final(self).accepts_writes() == old(self).accepts_writes(),
    {
        self.setting.set_selected(want_selected)
    }

    fn is_selected(&self) -> (r: bool)
        ensures
            r == self.enabled(),
    {
        self.setting.is_enabled()
    }

    fn name(&self) -> (r: &str)
        ensures
            r@ == GERRIT_ACTION_NAME@,
    {
        GERRIT_ACTION_NAME
    }

    fn priority(&self) -> (r: i32)
        ensures
            r == 0,
    {
        0
    }

    /// Asks to add a Change-Id to the message file named by the first
    /// argument (whether or not the action is enabled).
    fn run(&self, items: &[Item], args: &Vec<String>) -> (r: Result<RunPlan, HookError>)
        ensures
            r matches Ok(RunPlan::GenerateChangeId(p)) && p@ == args@[0]@,
    {
        Ok(RunPlan::GenerateChangeId(args[0].clone()))
    }
}


// ---------------------------------------------------------------------------
// Parsing a compiled message

/// A character of a trailer key: an ASCII letter, a digit or `-`.
pub open spec fn is_key_char(c: char) -> bool {
    ('a' <= c <= 'z') || ('A' <= c <= 'Z') || ('0' <= c <= '9') || c == '-'
}

/// A trailer key: one or more key characters.
pub open spec fn is_trailer_key(k: Seq<char>) -> bool {
    k.len() > 0 && forall|i: int| 0 <= i < k.len() ==> is_key_char(#[trigger] k[i])
}

/// `s` holds neither `\n` nor `\r`.
pub open spec fn no_line_break(s: Seq<char>) -> bool {
    forall|i: int| 0 <= i < s.len() ==> #[trigger] s[i] != '\n' && s[i] != '\r'
}

/// The line that writes a trailer: `key: value`.
pub open spec fn trailer_line(p: (Seq<char>, Seq<char>)) -> Seq<char> {
    p.0 + seq![':', ' '] + p.1
}

proof fn lemma_trailer_text_cons(ps: Seq<(Seq<char>, Seq<char>)>)
    requires
        ps.len() > 0,
    ensures
        trailer_text(ps) == trailer_line(ps[0]) + seq!['\n'] + trailer_text(ps.drop_first()),
    decreases ps.len(),
{
    if ps.len() == 1 {
        assert(ps.drop_first() =~= Seq::<(Seq<char>, Seq<char>)>::empty());
        assert(ps.drop_last() =~= Seq::<(Seq<char>, Seq<char>)>::empty());
        assert(trailer_text(ps.drop_last()) =~= Seq::<char>::empty());
        assert(ps.last() == ps[0]);
        assert(trailer_text(ps) =~= trailer_line(ps[0]) + seq!['\n']);
    } else {
        lemma_trailer_text_cons(ps.drop_last());
        assert(ps.drop_last().drop_first() =~= ps.drop_first().drop_last());
        assert(ps.drop_last()[0] == ps[0]);
        assert(ps.drop_first().last() == ps.last());
        assert(trailer_text(ps) =~= trailer_line(ps[0]) + seq!['\n'] + trailer_text(
            ps.drop_first(),
        ));
    }
}

/// The trailer lines of valid keys and values are the lines of the trailer
/// text.
proof fn lemma_trailer_lines(ps: Seq<(Seq<char>, Seq<char>)>)
    requires
        forall|i: int| 0 <= i < ps.len() ==> is_trailer_key(#[trigger] ps[i].0) && no_line_break(
            ps[i].1,
        ),
    ensures
        lines(trailer_text(ps)) == ps.map_values(|p: (Seq<char>, Seq<char>)| trailer_line(p)),
    decreases ps.len(),
{
    if ps.len() == 0 {
        assert(ps.map_values(|p: (Seq<char>, Seq<char>)| trailer_line(p)) =~= Seq::<
            Seq<char>,
        >::empty());
    } else {
        let l = trailer_line(ps[0]);
        assert(is_trailer_key(ps[0].0) && no_line_break(ps[0].1));
        assert forall|j: int| 0 <= j < l.len() implies l[j] != '\n' && l[j] != '\r' by {
            if j < ps[0].0.len() {
                assert(is_key_char(ps[0].0[j]));
            } else if j >= ps[0].0.len() + 2 {
                assert(l[j] == ps[0].1[j - ps[0].0.len() - 2]);
            }
        }
        assert(l.last() != '\r');
        assert(strip_cr(l) == l);
        assert forall|i: int| 0 <= i < ps.drop_first().len() implies is_trailer_key(
            #[trigger] ps.drop_first()[i].0,
        ) && no_line_break(ps.drop_first()[i].1) by {
            assert(ps.drop_first()[i] == ps[i + 1]);
        }
        lemma_trailer_lines(ps.drop_first());
        lemma_trailer_text_cons(ps);
        lemma_lines_cons(l, trailer_text(ps.drop_first()));
        assert(ps.map_values(|p: (Seq<char>, Seq<char>)| trailer_line(p)) =~= seq![l]
            + ps.drop_first().map_values(|p: (Seq<char>, Seq<char>)| trailer_line(p)));
    }
}

/// Reading trailers off the end of `xs + tl`, where the pattern reads every
/// line of `tl` and not the last of `xs`: the lines `xs` remain and the
/// pairs of `tl` come out last one first.
proof fn lemma_split_trailers(xs: Seq<Seq<char>>, tl: Seq<Seq<char>>)
    requires
        xs.len() > 0,
        xs.len() > 1 ==> trailer_caps(xs.last()) is None,
        forall|i: int| 0 <= i < tl.len() ==> trailer_caps(#[trigger] tl[i]) is Some,
    ensures
        split_trailers(xs + tl).0 == xs,
        split_trailers(xs + tl).1.len() == tl.len(),
        forall|i: int|
            0 <= i < tl.len() ==> #[trigger] split_trailers(xs + tl).1[i] == trailer_pair(
                tl[tl.len() - 1 - i],
            ),
    decreases tl.len(),
{
    if tl.len() == 0 {
        assert(xs + tl =~= xs);
    } else {
        let all = xs + tl;
        assert(all.drop_last() =~= xs + tl.drop_last());
        assert(all.last() == tl.last());
        lemma_split_trailers(xs, tl.drop_last());
        let (rest, pairs) = split_trailers(all.drop_last());
        assert(split_trailers(all) == (rest, seq![trailer_pair(tl.last())] + pairs));
        assert forall|i: int| 0 <= i < tl.len() implies #[trigger] split_trailers(all).1[i]
            == trailer_pair(tl[tl.len() - 1 - i]) by {
            if i > 0 {
                assert(split_trailers(all).1[i] == pairs[i - 1]);
                assert(tl.drop_last()[tl.drop_last().len() - 1 - (i - 1)] == tl[tl.len() - 1 - i]);
            }
        }
    }
}

/// Pairs with distinct keys give the same map in reverse order.
proof fn lemma_map_reversed(o: Seq<(Seq<char>, Seq<char>)>, r: Seq<(Seq<char>, Seq<char>)>)
    requires
        sorted_keys(o),
        r.len() == o.len(),
        forall|i: int| 0 <= i < o.len() ==> #[trigger] r[i] == o[o.len() - 1 - i],
    ensures
        assoc_map(r) == assoc_map(o),
{
    let n = o.len() as int;
    assert forall|i: int, j: int| 0 <= i < n && 0 <= j < n && i != j implies o[i].0 != o[j].0 by {
        if i < j {
            assert(sorted_keys(o));
            assert(crate::hooks::trailer_map::seq_lt(o[i].0, o[j].0));
            lemma_lt_irreflexive(o[i].0);
        } else {
            assert(crate::hooks::trailer_map::seq_lt(o[j].0, o[i].0));
            lemma_lt_irreflexive(o[j].0);
        }
    }
    assert forall|q: Seq<char>| #[trigger] assoc_lookup(r, q) == assoc_lookup(o, q) by {
        if exists|i: int| 0 <= i < n && o[i].0 == q {
            let i = choose|i: int| 0 <= i < n && o[i].0 == q;
            lemma_lookup_last(o, q, i);
            assert(r[n - 1 - i] == o[i]);
            assert forall|j: int| n - 1 - i < j < n implies r[j].0 != q by {
                assert(r[j] == o[n - 1 - j]);
            }
            lemma_lookup_last(r, q, n - 1 - i);
        } else {
            lemma_lookup_none(o, q);
            assert forall|j: int| 0 <= j < n implies r[j].0 != q by {
                assert(r[j] == o[n - 1 - j]);
            }
            lemma_lookup_none(r, q);
        }
    }
    assert(assoc_map(r) =~= assoc_map(o));
}

proof fn lemma_without_comments_none(ls: Seq<Seq<char>>)
    requires
        forall|i: int| 0 <= i < ls.len() ==> !is_comment(#[trigger] ls[i]),
    ensures
        without_comments(ls) == ls,
    decreases ls.len(),
{
    if ls.len() > 0 {
        assert(!is_comment(ls[ls.len() - 1]));
        lemma_without_comments_none(ls.drop_last());
        assert(ls.drop_last().push(ls.last()) =~= ls);
    }
}

/// Parsing a compiled message gives back its text and its trailers. The
/// text `m` holds no `\r`, does not end with a line break and has no
/// scissors or comment line; if it has more than one line, its second line
/// is empty and the trailer pattern does not read its last line. The
/// trailers are listed in key order, with keys of ASCII letters, digits and
/// `-` and values without line breaks or leading white space; the trailer
/// pattern reads each trailer line back as its key and value, and does not
/// read an empty line.
pub proof fn law_parse_compiled_message(m: Seq<char>, o: Seq<(Seq<char>, Seq<char>)>)
    requires
        forall|j: int| 0 <= j < m.len() ==> m[j] != '\r',
        m.len() == 0 || m.last() != '\n',
        forall|i: int|
            0 <= i < lines(m).len() ==> !is_scissors(#[trigger] lines(m)[i]) && !is_comment(
                lines(m)[i],
            ),
        lines(m).len() > 1 ==> lines(m)[1].len() == 0 && trailer_caps(lines(m).last()) is None,
        sorted_keys(o),
        forall|i: int|
            0 <= i < o.len() ==> is_trailer_key(#[trigger] o[i].0) && no_line_break(o[i].1) && (
            o[i].1.len() == 0 || !is_ws(o[i].1[0])),
        forall|i: int|
            0 <= i < o.len() ==> trailer_caps(#[trigger] trailer_line(o[i])) is Some
                && trailer_pair(trailer_line(o[i])) == o[i],
        trailer_caps(seq![]) is None,
    ensures
        is_valid_message(compiled_message(m, o)),
        parsed_text(compiled_message(m, o)) == m,
        parsed_trailers(compiled_message(m, o)) == assoc_map(o),
{
    let s = compiled_message(m, o);
    let t = trailer_text(o);
    let tl = o.map_values(|p: (Seq<char>, Seq<char>)| trailer_line(p));
    let e: Seq<char> = seq![];
    lemma_trailer_lines(o);
    // The lines of the compiled message: those of the text (one empty line
    // for an empty text), an empty line, then the trailer lines.
    lemma_lines_cons(e, t);
    assert(e + seq!['\n'] + t =~= seq!['\n'] + t);
    assert(strip_cr(e) == e);
    let p: Seq<Seq<char>> = if m.len() == 0 {
        seq![e]
    } else {
        lines(m)
    };
    if m.len() == 0 {
        lemma_lines_cons(e, seq!['\n'] + t);
        assert(s =~= e + seq!['\n'] + (seq!['\n'] + t));
    } else {
        lemma_lines_append(m, seq!['\n'] + t);
        assert(s =~= m + seq!['\n'] + (seq!['\n'] + t));
    }
    let ls = p + seq![e] + tl;
    assert(lines(s) =~= ls);
    // No line is a scissors line or a comment.
    assert forall|i: int| 0 <= i < ls.len() implies !is_scissors(#[trigger] ls[i]) && !is_comment(
        ls[i],
    ) by {
        if i < p.len() {
            if m.len() > 0 {
                assert(ls[i] == lines(m)[i]);
            } else {
                assert(ls[i] == e);
                assert(trim_start(e) == e);
            }
        } else if i == p.len() {
            assert(ls[i] == e);
            assert(trim_start(e) == e);
        } else {
            let k = i - p.len() - 1;
            assert(ls[i] == trailer_line(o[k]));
            assert(is_trailer_key(o[k].0));
            let c = o[k].0[0];
            assert(is_key_char(c));
            assert(ls[i][0] == c);
            assert(!is_ws(c));
            assert(trim_start(ls[i]) == ls[i]);
            if is_scissors(ls[i]) {
                assert(ls[i].take(2)[0] == c);
                assert(seq!['>', '8'][0] == '>');
            }
            if is_comment(ls[i]) {
                assert(ls[i].take(1)[0] == c);
                assert(seq!['#'][0] == '#');
            }
        }
    }
    let notsc = |l: Seq<char>| !is_scissors(l);
    lemma_prefix_len(ls, notsc, ls.len() as int);
    assert(ls.take(ls.len() as int) =~= ls);
    lemma_without_comments_none(ls);
    assert(message_lines(s) == ls);
    // The second line is empty.
    if p.len() > 1 {
        assert(ls[1] == lines(m)[1]);
    } else {
        assert(ls[1] == e);
    }
    // The text's last line is not empty.
    assert(p.last().len() > 0 || p.len() == 1);
    assert forall|i: int| 0 <= i < tl.len() implies trailer_caps(#[trigger] tl[i]) is Some by {
        assert(tl[i] == trailer_line(o[i]));
    }
    if o.len() > 0 {
        assert(ls.last() == trailer_line(o.last()));
        assert(is_trailer_key(o[o.len() - 1].0));
        assert(ls.last().len() > 0);
        assert(drop_empty_tail(ls) == ls);
        let xs = p + seq![e];
        assert(ls =~= xs + tl);
        lemma_split_trailers(xs, tl);
        let (rest, pairs) = split_trailers(ls);
        assert(rest == xs);
        assert(xs.drop_last() =~= p);
        assert(drop_empty_tail(xs) == drop_empty_tail(p));
        assert forall|i: int| 0 <= i < o.len() implies #[trigger] pairs[i] == o[o.len() - 1 - i] by {
            assert(tl[tl.len() - 1 - i] == trailer_line(o[o.len() - 1 - i]));
        }
        lemma_map_reversed(o, pairs);
    } else {
        assert(tl =~= Seq::<Seq<char>>::empty());
        assert(ls =~= p + seq![e]);
        assert(ls.drop_last() =~= p);
        assert(drop_empty_tail(ls) == drop_empty_tail(p));
        assert(drop_empty_tail(p) == p);
        assert(split_trailers(p) == (p, Seq::<(Seq<char>, Seq<char>)>::empty()));
        assert(o =~= Seq::<(Seq<char>, Seq<char>)>::empty());
    }
    assert(drop_empty_tail(p) == p);
    if m.len() > 0 {
        lemma_join_lines(m);
    } else {
        assert(join(p, seq!['\n']) == e);
    }
}


// ---------------------------------------------------------------------------
// Laws: squash and fixup commits

/// A squash or fixup commit gets no Change-Id unless the setting is
/// `always`: where the message's first line matches the skip pattern, no
/// Change-Id is wanted, whatever lines and trailers follow.
pub proof fn law_squash_fixup_gets_no_change_id(
    requested_type: Seq<char>,
    msg: Seq<char>,
    trailers: Map<Seq<char>, Seq<char>>,
)
    requires
        requested_type != "always"@,
        lines(msg).len() > 0,
        matches_pattern(SKIP_CHANGE_ID_REGEX@, lines(msg)[0]),
    ensures
        !wants_change_id(requested_type, msg, trailers),
{
}

/// Whether a Change-Id is wanted depends on the message's first line
/// alone (and on the setting and the trailers): two messages that begin
/// with the same line get the same answer.
pub proof fn law_change_id_depends_on_first_line(
    requested_type: Seq<char>,
    a: Seq<char>,
    b: Seq<char>,
    trailers: Map<Seq<char>, Seq<char>>,
)
    requires
        lines(a).len() > 0,
        lines(b).len() > 0,
        lines(a)[0] == lines(b)[0],
    ensures
        wants_change_id(requested_type, a, trailers) == wants_change_id(requested_type, b, trailers),
{
}

/// An existing Change-Id trailer is kept: no new one is wanted unless the
/// setting is `always`.
pub proof fn law_existing_change_id_kept(
    requested_type: Seq<char>,
    msg: Seq<char>,
    trailers: Map<Seq<char>, Seq<char>>,
)
    requires
        requested_type != "always"@,
        trailers.contains_key(TAG_CHANGE_ID@),
    ensures
        !wants_change_id(requested_type, msg, trailers),
{
}


/// The setting `false` never asks for a Change-Id, and `always` always
/// does, whatever the message and its trailers.
pub proof fn law_change_id_setting_decides(
    msg: Seq<char>,
    trailers: Map<Seq<char>, Seq<char>>,
)
    ensures
        !wants_change_id("false"@, msg, trailers),
        wants_change_id("always"@, msg, trailers),
{
    reveal_strlit("false");
    reveal_strlit("always");
    assert("always"@ != "false"@) by {
        assert("always"@.len() != "false"@.len());
    }
}

} // verus!
