//! A user-defined action that runs a shell command, once per matching file
//! or once per commit.

use vstd::prelude::*;

use super::action::{ActionTrait, ActionTraitInternal, KEY_ENABLED, RunPlan, VALUE_TRUE,
    enabled_in, entries_after_selection};
use super::shell_utils::{Substitution, Substitutions, substitute_command_line, substituted,
    expansion};
use crate::assoc::{assoc_lookup, keyed};
use crate::error::{ActionProblem, HookError};
use crate::path::{file_name, path_file_name};
use crate::pattern::{Pattern, matches_pattern, regex_compiles};
use crate::repo::config::{config_value, GitConfig};
use crate::repo::Item;
use crate::text::{chars_eq, from_chars, sviews, to_chars};

verus! {

/// Configuration key of the command that replaces the configured one.
pub const KEY_COMMAND: &'static str = "cmd";

/// Placeholder for the file a per-file command runs on.
pub const PLACEHOLDER_SINGLE_FILE: &'static str = "<file>";

/// Placeholder for the arguments the hook was called with.
pub const PLACEHOLDER_GIT_ARGS: &'static str = "<args>";

/// Run type: once per matching file.
pub const RUN_TYPE_PER_FILE: &'static str = "perFile";

/// Run type: once per commit.
pub const RUN_TYPE_PER_COMMIT: &'static str = "perCommit";

/// A shell command run by a hook.
pub struct ShellAction<C> {
    name: String,
    priority: i32,
    file_pattern: Pattern,
    shell_cmd: Vec<String>,
    run_type: String,
    selected: bool,
    available: bool,
    config: Option<C>,
}

/// The arguments that `arg` stands for, given the hook's arguments and the
/// file (for a per-file command).
pub open spec fn expand_arg(arg: Seq<char>, args: Seq<Seq<char>>, file: Option<Seq<char>>) -> Seq<
    Seq<char>,
> {
    if file is Some && arg == PLACEHOLDER_SINGLE_FILE@ {
        seq![file->0]
    } else if arg == PLACEHOLDER_GIT_ARGS@ {
        args
    } else {
        seq![arg]
    }
}

/// The command line `cmd` with its placeholders replaced.
pub open spec fn command_for(cmd: Seq<Seq<char>>, args: Seq<Seq<char>>, file: Option<Seq<char>>) -> Seq<
    Seq<char>,
>
    decreases cmd.len(),
{
    if cmd.len() == 0 {
        seq![]
    } else {
        command_for(cmd.drop_last(), args, file) + expand_arg(cmd.last(), args, file)
    }
}

/// The paths of the files among `items` whose file name matches `pattern`.
pub open spec fn matching_files(items: Seq<Item>, pattern: Seq<char>) -> Seq<Seq<char>>
    decreases items.len(),
{
    if items.len() == 0 {
        seq![]
    } else {
        let rest = matching_files(items.drop_last(), pattern);
        match items.last() {
            Item::File(name) => if file_name(name@) is Some && matches_pattern(
                pattern,
                file_name(name@)->0,
            ) {
                rest.push(name@)
            } else {
                rest
            },
            _ => rest,
        }
    }
}

/// Every file among `items` has a file name.
pub open spec fn files_have_names(items: Seq<Item>) -> bool {
    forall|i: int| 0 <= i < items.len() ==> (#[trigger] items[i] matches Item::File(n) ==> file_name(n@) is Some)
}

/// Whether every file among `items` has a file name (what running a shell
/// action asks of the items).
pub fn items_have_file_names(items: &[Item]) -> (r: bool)
    ensures
        r == files_have_names(items@),
{
    let mut i: usize = 0;
    while i < items.len()
        invariant
            i <= items@.len(),
            forall|j: int| 0 <= j < i ==> (#[trigger] items@[j] matches Item::File(n) ==> file_name(n@) is Some),
        decreases items@.len() - i,
    {
        match &items[i] {
            Item::File(n) => {
                let nc = to_chars(n.as_str());
                if path_file_name(nc.as_slice()).is_none() {
                    return false;
                }
            },
            _ => {},
        }
        i = i + 1;
    }
    true
}

proof fn lemma_expansion_two(
    subs: Seq<(Seq<char>, Substitution)>,
    args: &Vec<String>,
    file: Seq<char>,
    f: String,
    arg: Seq<char>,
)
    requires
        f@ == file,
        subs =~= seq![
            (PLACEHOLDER_GIT_ARGS@, Substitution::Array(args)),
            (PLACEHOLDER_SINGLE_FILE@, Substitution::Scalar(f)),
        ],
        PLACEHOLDER_GIT_ARGS@ != PLACEHOLDER_SINGLE_FILE@,
    ensures
        expansion(arg, subs) == expand_arg(arg, sviews(args@), Some(file)),
{
    let s1 = subs.drop_last();
    assert(subs.last() == (PLACEHOLDER_SINGLE_FILE@, Substitution::Scalar(f)));
    assert(s1.last() == (PLACEHOLDER_GIT_ARGS@, Substitution::Array(args)));
    assert(s1.drop_last() =~= Seq::<(Seq<char>, Substitution)>::empty());
    assert(assoc_lookup(s1.drop_last(), arg) is None);
    if arg == PLACEHOLDER_SINGLE_FILE@ {
        assert(assoc_lookup(subs, arg) == Some(Substitution::Scalar(f)));
        assert(expansion(arg, subs) =~= seq![file]);
    } else {
        assert(assoc_lookup(subs, arg) == assoc_lookup(s1, arg));
        if arg == PLACEHOLDER_GIT_ARGS@ {
            assert(assoc_lookup(s1, arg) == Some(Substitution::Array(args)));
        } else {
            assert(assoc_lookup(s1, arg) is None);
        }
    }
}

proof fn lemma_expansion_one(subs: Seq<(Seq<char>, Substitution)>, args: &Vec<String>, arg: Seq<char>)
    requires
        subs =~= seq![(PLACEHOLDER_GIT_ARGS@, Substitution::Array(args))],
    ensures
        expansion(arg, subs) == expand_arg(arg, sviews(args@), None),
{
    assert(subs.last() == (PLACEHOLDER_GIT_ARGS@, Substitution::Array(args)));
    assert(subs.drop_last() =~= Seq::<(Seq<char>, Substitution)>::empty());
    assert(assoc_lookup(subs.drop_last(), arg) is None);
}

proof fn lemma_substituted(
    cmd: Seq<Seq<char>>,
    subs: Seq<(Seq<char>, Substitution)>,
    args: Seq<Seq<char>>,
    file: Option<Seq<char>>,
)
    requires
        forall|a: Seq<char>| expansion(a, subs) == #[trigger] expand_arg(a, args, file),
    ensures
        substituted(cmd, subs) == command_for(cmd, args, file),
    decreases cmd.len(),
{
    if cmd.len() > 0 {
        lemma_substituted(cmd.drop_last(), subs, args, file);
        assert(expansion(cmd.last(), subs) == expand_arg(cmd.last(), args, file));
    }
}

proof fn lemma_placeholders_differ()
    ensures
        PLACEHOLDER_GIT_ARGS@ != PLACEHOLDER_SINGLE_FILE@,
{
    reveal_strlit("<args>");
    reveal_strlit("<file>");
    assert(PLACEHOLDER_GIT_ARGS@[1] != PLACEHOLDER_SINGLE_FILE@[1]);
}

impl<C: GitConfig> ShellAction<C> {
    /// An unselected, unavailable action without configuration; `None` where
    /// `file_pattern` is not a valid regular expression.
    pub fn new(
        name: String,
        priority: i32,
        file_pattern: &str,
        shell_cmd: Vec<String>,
        run_type: String,
    ) -> (r: Option<Self>)
        ensures
            r is Some <==> regex_compiles(file_pattern@),
            r matches Some(a) ==> {
                &&& a.spec_name() == name@
                &&& a.spec_priority() == priority
                &&& a.pattern() == file_pattern@
                &&& a.command() == sviews(shell_cmd@)
                &&& a.run_type() == run_type@
                &&& !a.selected()
                &&& !a.available()
                &&& !a.has_config()
            },
    {
        match Pattern::new(file_pattern) {
            Some(p) => Some(
                ShellAction {
                    name,
                    priority,
                    file_pattern: p,
                    shell_cmd,
                    run_type,
                    selected: false,
                    available: false,
                    config: None,
                },
            ),
            None => None,
        }
    }

    pub closed spec fn spec_name(&self) -> Seq<char> {
        self.name@
    }

    pub closed spec fn spec_priority(&self) -> i32 {
        self.priority
    }

    /// The regular expression that file names must match.
    pub closed spec fn pattern(&self) -> Seq<char> {
        self.file_pattern@
    }

    /// The command line template.
    pub closed spec fn command(&self) -> Seq<Seq<char>> {
        sviews(self.shell_cmd@)
    }

    pub closed spec fn run_type(&self) -> Seq<char> {
        self.run_type@
    }

    pub closed spec fn selected(&self) -> bool {
        self.selected
    }

    pub closed spec fn available(&self) -> bool {
        self.available
    }

    pub closed spec fn has_config(&self) -> bool {
        self.config is Some
    }

    /// The attached configuration's entries.
    pub closed spec fn entries(&self) -> Map<Seq<char>, Seq<char>> {
        match self.config {
            Some(c) => c.entries(),
            None => Map::empty(),
        }
    }

    /// Whether the attached configuration takes every write.
    pub closed spec fn accepts_writes(&self) -> bool {
        match self.config {
            Some(c) => c.accepts_writes(),
            None => false,
        }
    }

    /// What persisting the choice `want` answers: the store's answer to
    /// writing or removing `enabled`; `ConfigStoreUnavailable` without a
    /// store.
    pub closed spec fn selection_result(&self, want: bool) -> Result<(), HookError> {
        match self.config {
            Some(c) => if want {
                c.set_result(KEY_ENABLED@, VALUE_TRUE@)
            } else {
                c.remove_result(KEY_ENABLED@)
            },
            None => Err(HookError::ConfigStoreUnavailable),
        }
    }

    /// Records where the command was found: its absolute path replaces the
    /// program name and makes the action available; `None` (not found)
    /// changes nothing.
    pub fn set_shell_cmd(&mut self, resolved: Option<String>)
        requires
            old(self).command().len() > 0,
        ensures
            resolved matches Some(p) ==> final(self).command() == old(self).command().update(
                0,
                p@,
            ) && final(self).available(),
            resolved is None ==> final(self).command() == old(self).command()
                && final(self).available() == old(self).available(),
            final(self).spec_name() == old(self).spec_name(),
            final(self).pattern() == old(self).pattern(),
            final(self).run_type() == old(self).run_type(),
            final(self).selected() == old(self).selected(),
            final(self).has_config() == old(self).has_config(),
            final(self).entries() == old(self).entries(),
    {
        if let Some(p) = resolved {
            let ghost before = self.shell_cmd@;
            self.shell_cmd.set(0, p);
            assert(sviews(self.shell_cmd@) =~= sviews(before).update(0, p@));
            self.available = true;
        }
    }

    /// The attached configuration.
    pub fn config(&self) -> (r: Option<&C>)
        ensures
            r is Some == self.has_config(),
            r matches Some(c) ==> c.entries() == self.entries(),
    {
        match &self.config {
            Some(c) => Some(c),
            None => None,
        }
    }

    /// The command line template.
    pub fn shell_cmd(&self) -> (r: &Vec<String>)
        ensures
            sviews(r@) == self.command(),
    {
        &self.shell_cmd
    }

    /// The program to look up: the configured `cmd` value, or the first word
    /// of the command line.
    pub fn configured_command(&self) -> (r: String)
        requires
            self.command().len() > 0,
        ensures
            r@ == (if self.has_config() {
                config_value(self.entries(), KEY_COMMAND@, self.command()[0])
            } else {
                self.command()[0]
            }),
    {
        match &self.config {
            Some(cfg) => cfg.get_or_default(KEY_COMMAND, self.shell_cmd[0].as_str()),
            None => self.shell_cmd[0].clone(),
        }
    }

    /// Runs the command template once per file.
    fn commands_per_file(&self, files: &Vec<String>, args: &Vec<String>) -> (r: Vec<Vec<String>>)
        ensures
            r@.len() == files@.len(),
            forall|i: int| 0 <= i < files@.len() ==> sviews(#[trigger] r@[i]@) == command_for(
                self.command(),
                sviews(args@),
                Some(files@[i]@),
            ),
    {
        let mut out: Vec<Vec<String>> = Vec::new();
        let mut i: usize = 0;
        while i < files.len()
            invariant
                i <= files@.len(),
                out@.len() == i,
                forall|j: int| 0 <= j < i ==> sviews(#[trigger] out@[j]@) == command_for(
                    self.command(),
                    sviews(args@),
                    Some(files@[j]@),
                ),
            decreases files@.len() - i,
        {
            let f = files[i].clone();
            let mut subs: Substitutions = Vec::new();
            subs.push((PLACEHOLDER_GIT_ARGS.to_owned(), Substitution::Array(args)));
            subs.push((PLACEHOLDER_SINGLE_FILE.to_owned(), Substitution::Scalar(f)));
            let cmd = substitute_command_line(self.shell_cmd.as_slice(), &subs);
            proof {
                lemma_placeholders_differ();
                assert forall|a: Seq<char>| expansion(a, keyed(subs@)) == #[trigger] expand_arg(
                    a,
                    sviews(args@),
                    Some(files@[i as int]@),
                ) by {
                    lemma_expansion_two(keyed(subs@), args, files@[i as int]@, f, a);
                }
                lemma_substituted(self.command(), keyed(subs@), sviews(args@), Some(files@[i as int]@));
            }
            out.push(cmd);
            i = i + 1;
        }
        out
    }

    /// Runs the command template once.
    fn command_per_commit(&self, args: &Vec<String>) -> (r: Vec<String>)
        ensures
            sviews(r@) == command_for(self.command(), sviews(args@), None),
    {
        let mut subs: Substitutions = Vec::new();
        subs.push((PLACEHOLDER_GIT_ARGS.to_owned(), Substitution::Array(args)));
        let cmd = substitute_command_line(self.shell_cmd.as_slice(), &subs);
        proof {
            assert forall|a: Seq<char>| expansion(a, keyed(subs@)) == #[trigger] expand_arg(
                a,
                sviews(args@),
                None,
            ) by {
                lemma_expansion_one(keyed(subs@), args, a);
            }
            lemma_substituted(self.command(), keyed(subs@), sviews(args@), None);
        }
        cmd
    }

    /// The files among `items` whose file name matches the pattern.
    fn select_files(&self, items: &[Item]) -> (r: Vec<String>)
        requires
            files_have_names(items@),
        ensures
            sviews(r@) == matching_files(items@, self.pattern()),
    {
        let mut out: Vec<String> = Vec::new();
        let mut i: usize = 0;
        self.file_pattern.source_compiles();
        while i < items.len()
            invariant
                i <= items@.len(),
                regex_compiles(self.pattern()),
                files_have_names(items@),
                sviews(out@) == matching_files(items@.take(i as int), self.pattern()),
            decreases items@.len() - i,
        {
            assert(items@.take(i + 1).drop_last() =~= items@.take(i as int));
            assert(items@.take(i + 1).last() == items@[i as int]);
            match &items[i] {
                Item::File(name) => {
                    let nc = to_chars(name.as_str());
                    match path_file_name(nc.as_slice()) {
                        Some(fname) => {
                            let fs = from_chars(fname.as_slice());
                            if self.file_pattern.is_match(fs.as_str()) {
                                let ghost before = out@;
                                out.push(name.clone());
                                assert(sviews(out@) =~= sviews(before).push(name@));
                            }
                        },
                        None => {
                            assert(items@[i as int] matches Item::File(n) ==> file_name(n@) is Some);
                        },
                    }
                },
                _ => {},
            }
            i = i + 1;
        }
        assert(items@.take(i as int) =~= items@);
        out
    }
}

impl<C: GitConfig> ActionTraitInternal<C> for ShellAction<C> {
    /// Reads whether the action is selected and attaches the configuration;
    /// looking up the configured command is left to
    /// [`ShellAction::configured_command`] and [`ShellAction::set_shell_cmd`].
    fn set_config(&mut self, cfg: C) -> (r: Result<(), HookError>)
        ensures
            r is Ok,
            final(self).selected() == enabled_in(cfg.entries()),
            final(self).has_config(),
            final(self).entries() == cfg.entries(),
            final(self).command() == old(self).command(),
            final(self).available() == old(self).available(),
            final(self).spec_name() == old(self).spec_name(),
            final(self).spec_priority() == old(self).spec_priority(),
            final(self).pattern() == old(self).pattern(),
            final(self).run_type() == old(self).run_type(),
    {
        let value = cfg.get_or_default(KEY_ENABLED, "");
        proof {
            reveal_strlit("");
            assert(""@ =~= Seq::<char>::empty());
        }
        let v = to_chars(value.as_str());
        let t = to_chars(VALUE_TRUE);
        self.selected = chars_eq(v.as_slice(), t.as_slice());
        self.config = Some(cfg);
        Ok(())
    }

    fn check_valid(&self) -> (r: Result<(), HookError>)
        ensures
            self.spec_name().len() == 0 ==> (r matches Err(HookError::InvalidAction { reason, .. })
                && reason == ActionProblem::NameNotSet),
            self.spec_name().len() > 0 && self.command().len() == 0 ==> (r matches Err(
                HookError::InvalidAction { reason, .. },
            ) && reason == ActionProblem::ShellCommandNotSet),
            self.spec_name().len() > 0 && self.command().len() > 0 ==> r is Ok,
    {
        if self.name.as_str().is_empty() {
            return Err(
                HookError::InvalidAction {
                    category: String::new(),
                    action: String::new(),
                    reason: ActionProblem::NameNotSet,
                },
            );
        }
        if self.shell_cmd.len() == 0 {
            return Err(
                HookError::InvalidAction {
                    category: String::new(),
                    action: String::new(),
                    reason: ActionProblem::ShellCommandNotSet,
                },
            );
        }
        Ok(())
    }
}

impl<C: GitConfig> ActionTrait<C> for ShellAction<C> {
    open spec fn run_requires(&self, items: Seq<Item>, args: Seq<String>) -> bool {
        self.selected() && self.available() ==> files_have_names(items)
    }

    fn name(&self) -> (r: &str)
        ensures
            r@ == self.spec_name(),
    {
        self.name.as_str()
    }

    fn priority(&self) -> (r: i32)
        ensures
            r == self.spec_priority(),
    {
        self.priority
    }

    fn is_selected(&self) -> (r: bool)
        ensures
            r == self.selected(),
    {
        self.selected
    }

    fn is_available(&self) -> (r: bool)
        ensures
            r == self.available(),
    {
        self.available
    }

    /// Records the choice, then persists it; fails without a configuration.
    fn set_selected(&mut self, want_selected: bool) -> (r: Result<(), HookError>)
        ensures
            r == old(self).selection_result(want_selected),
            final(self).selected() == want_selected,
            !old(self).has_config() ==> r == Err::<(), HookError>(
                HookError::ConfigStoreUnavailable,
            ) && !final(self).has_config(),
            old(self).has_config() ==> final(self).has_config(),
            old(self).has_config() && r is Ok ==> final(self).entries() == entries_after_selection(
                old(self).entries(),
                want_selected,
            ),
            r is Err ==> final(self).entries() == old(self).entries(),
            old(self).has_config() && old(self).accepts_writes() ==> r is Ok,
            final(self).accepts_writes() == old(self).accepts_writes(),
            final(self).command() == old(self).command(),
            final(self).available() == old(self).available(),
            final(self).spec_name() == old(self).spec_name(),
            final(self).spec_priority() == old(self).spec_priority(),
            final(self).pattern() == old(self).pattern(),
            final(self).run_type() == old(self).run_type(),
    {
        self.selected = want_selected;
        match self.config.take() {
            None => Err(HookError::ConfigStoreUnavailable),
            Some(mut cfg) => {
                let r = if want_selected {
                    cfg.set(KEY_ENABLED, VALUE_TRUE)
                } else {
                    cfg.remove(KEY_ENABLED)
                };
                self.config = Some(cfg);
                r
            },
        }
    }

    /// Decides which command lines to run: none unless the action is
    /// selected and available and some file matches; then one per matching
    /// file (`perFile`) or one in all (`perCommit`).
    fn run(&self, items: &[Item], args: &Vec<String>) -> (r: Result<RunPlan, HookError>)
        ensures
            !self.selected() || !self.available() || matching_files(items@, self.pattern()).len()
                == 0 ==> r == Ok::<RunPlan, HookError>(RunPlan::Nothing),
            self.selected() && self.available() && matching_files(items@, self.pattern()).len()
                > 0 ==> {
                let files = matching_files(items@, self.pattern());
                if self.run_type() == RUN_TYPE_PER_FILE@ {
                    (r matches Ok(RunPlan::Commands(cmds)) && cmds@.len() == files.len() && forall|
                        i: int,
                    |
                        0 <= i < files.len() ==> sviews(#[trigger] cmds@[i]@) == command_for(
                            self.command(),
                            sviews(args@),
                            Some(files[i]),
                        ))
                } else if self.run_type() == RUN_TYPE_PER_COMMIT@ {
                    (r matches Ok(RunPlan::Commands(cmds)) && cmds@.len() == 1 && sviews(cmds@[0]@)
                        == command_for(self.command(), sviews(args@), None))
                } else {
                    (r matches Err(HookError::InvalidRunType { run_type, action })
                        && run_type@ == self.run_type() && action@ == self.spec_name())
                }
            },
    {
        if !self.selected {
            return Ok(RunPlan::Nothing);
        }
        if !self.available {
            return Ok(RunPlan::Nothing);
        }
        let files = self.select_files(items);
        if files.len() == 0 {
            return Ok(RunPlan::Nothing);
        }
        let rt = to_chars(self.run_type.as_str());
        let per_file = to_chars(RUN_TYPE_PER_FILE);
        let per_commit = to_chars(RUN_TYPE_PER_COMMIT);
        if chars_eq(rt.as_slice(), per_file.as_slice()) {
            let cmds = self.commands_per_file(&files, args);
            Ok(RunPlan::Commands(cmds))
        } else if chars_eq(rt.as_slice(), per_commit.as_slice()) {
            let cmd = self.command_per_commit(args);
            let mut cmds: Vec<Vec<String>> = Vec::new();
            cmds.push(cmd);
            Ok(RunPlan::Commands(cmds))
        } else {
            Err(
                HookError::InvalidRunType {
                    run_type: self.run_type.clone(),
                    action: self.name.clone(),
                },
            )
        }
    }
}


// ---------------------------------------------------------------------------
// Laws: which files a shell action runs on

/// A shell action selects a changed file exactly when the file's name (its
/// last path segment) matches the action's pattern: every such file is
/// selected, and everything selected is the path of such a file.
pub proof fn law_files_selected_by_file_name(items: Seq<Item>, pattern: Seq<char>)
    ensures
        forall|i: int|
            0 <= i < items.len() ==> match #[trigger] items[i] {
                Item::File(n) => (file_name(n@) matches Some(f) && matches_pattern(pattern, f))
                    ==> matching_files(items, pattern).contains(n@),
                _ => true,
            },
        forall|p: Seq<char>|
            #[trigger] matching_files(items, pattern).contains(p) ==> (file_name(p) matches Some(f)
                && matches_pattern(pattern, f)) && exists|i: int|
                0 <= i < items.len() && (#[trigger] items[i] matches Item::File(n) && n@ == p),
    decreases items.len(),
{
    if items.len() > 0 {
        let init = items.drop_last();
        law_files_selected_by_file_name(init, pattern);
        let rest = matching_files(init, pattern);
        let m = matching_files(items, pattern);
        assert forall|i: int|
            0 <= i < items.len() implies match #[trigger] items[i] {
                Item::File(n) => (file_name(n@) matches Some(f) && matches_pattern(pattern, f))
                    ==> m.contains(n@),
                _ => true,
            } by {
            if i < items.len() - 1 {
                assert(init[i] == items[i]);
                if let Item::File(n) = items[i] {
                    if file_name(n@) matches Some(f) && matches_pattern(pattern, f) {
                        assert(rest.contains(n@));
                        let k = choose|k: int| 0 <= k < rest.len() && rest[k] == n@;
                        assert(m[k] == n@);
                    }
                }
            } else {
                if let Item::File(n) = items[i] {
                    if file_name(n@) matches Some(f) && matches_pattern(pattern, f) {
                        assert(m == rest.push(n@));
                        assert(m[rest.len() as int] == n@);
                    }
                }
            }
        }
        assert forall|p: Seq<char>| #[trigger] m.contains(p) implies (file_name(p) matches Some(f)
            && matches_pattern(pattern, f)) && exists|i: int|
            0 <= i < items.len() && (#[trigger] items[i] matches Item::File(n) && n@ == p) by {
            let k = choose|k: int| 0 <= k < m.len() && m[k] == p;
            if k < rest.len() {
                assert(m[k] == rest[k]) by {
                    match items.last() {
                        Item::File(name) => {
                            if file_name(name@) is Some && matches_pattern(pattern, file_name(name@)->0) {
                                assert(m == rest.push(name@));
                            }
                        },
                        _ => {},
                    }
                }
                assert(rest.contains(p));
                let i = choose|i: int| 0 <= i < init.len() && (#[trigger] init[i] matches Item::File(n) && n@ == p);
                assert(init[i] == items[i]);
            } else {
                assert(items[items.len() - 1] == items.last());
            }
        }
    }
}

/// Files with the same name are selected alike, whatever directory they
/// are in.
pub proof fn law_same_file_name_selected_alike(
    items: Seq<Item>,
    pattern: Seq<char>,
    i: int,
    j: int,
    a: Seq<char>,
    b: Seq<char>,
)
    requires
        0 <= i < items.len(),
        0 <= j < items.len(),
        items[i] matches Item::File(n) && n@ == a,
        items[j] matches Item::File(n) && n@ == b,
        file_name(a) is Some,
        file_name(a) == file_name(b),
    ensures
        matching_files(items, pattern).contains(a) == matching_files(items, pattern).contains(b),
{
    law_files_selected_by_file_name(items, pattern);
    assert(match items[i] {
        Item::File(n) => (file_name(n@) matches Some(f) && matches_pattern(pattern, f))
            ==> matching_files(items, pattern).contains(n@),
        _ => true,
    });
    assert(match items[j] {
        Item::File(n) => (file_name(n@) matches Some(f) && matches_pattern(pattern, f))
            ==> matching_files(items, pattern).contains(n@),
        _ => true,
    });
}

} // verus!
