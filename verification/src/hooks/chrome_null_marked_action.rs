//! Requires Chromium Java sources to be annotated `@NullMarked`.

use vstd::prelude::*;

use super::action::{ActionTrait, ActionTraitInternal, EnabledSetting, RunPlan, enabled_in,
    entries_after_selection};
use crate::error::HookError;
use crate::path::{extension, file_name, path_extension, path_file_name};
use crate::repo::config::GitConfig;
use crate::repo::Item;
use crate::text::{
    chars_eq, contains, contains_seq, ends_with, has_prefix, has_suffix, starts_with, sviews,
    to_chars, trim, trim_chars,
};

verus! {

/// The import that a null-marked source needs.
pub const NULL_MARKED_IMPORT: &'static str = "import org.chromium.build.annotations.NullMarked;";

/// The annotation that a null-marked source needs.
pub const NULL_MARKED_ANNOTATION: &'static str = "@NullMarked";

/// Display name of the check.
pub const NULL_MARKED_ACTION_NAME: &'static str = "Chrome @NullMarked check";

/// Checks that changed Java sources (tests excepted) are null-marked.
pub struct ChromeNullMarkedAction<C> {
    setting: EnabledSetting<C>,
}

/// A file whose null-marking is checked: a `.java` file whose name does not
/// end in `Test.java`.
pub open spec fn is_checked_source(path: Seq<char>) -> bool {
    &&& extension(path) == Some("java"@)
    &&& !(file_name(path) is Some && ends_with(file_name(path)->0, "Test.java"@))
}

/// The paths of the checked sources among `items`, in order.
pub open spec fn checked_sources(items: Seq<Item>) -> Seq<Seq<char>>
    decreases items.len(),
{
    if items.len() == 0 {
        seq![]
    } else {
        let rest = checked_sources(items.drop_last());
        match items.last() {
            Item::File(p) => if is_checked_source(p@) {
                rest.push(p@)
            } else {
                rest
            },
            _ => rest,
        }
    }
}

/// A line that carries the import.
pub open spec fn has_import_line(line: Seq<char>) -> bool {
    contains_seq(line, NULL_MARKED_IMPORT@)
}

/// A line that carries the annotation.
pub open spec fn has_annotation_line(line: Seq<char>) -> bool {
    starts_with(trim(line), NULL_MARKED_ANNOTATION@)
}

/// Whether the lines `ls` hold the import, and whether they hold the
/// annotation.
pub open spec fn scan_lines(ls: Seq<Seq<char>>) -> (bool, bool) {
    (
        exists|i: int| 0 <= i < ls.len() && has_import_line(#[trigger] ls[i]),
        exists|i: int| 0 <= i < ls.len() && has_annotation_line(#[trigger] ls[i]),
    )
}

/// What has been seen of one file so far.
pub struct NullMarkedScan {
    has_import: bool,
    has_annotation: bool,
    seen: Ghost<Seq<Seq<char>>>,
}

impl NullMarkedScan {
    /// Nothing seen yet.
    pub fn new() -> (r: Self)
        ensures
            r.seen() == Seq::<Seq<char>>::empty(),
    {
        NullMarkedScan { has_import: false, has_annotation: false, seen: Ghost(Seq::empty()) }
    }

    /// The lines seen so far.
    pub closed spec fn seen(&self) -> Seq<Seq<char>> {
        self.seen@
    }

    #[verifier::type_invariant]
    spec fn consistent(&self) -> bool {
        (self.has_import, self.has_annotation) == scan_lines(self.seen@)
    }

    /// Takes one more line of the file into account.
    pub fn observe(&mut self, line: &str)
        ensures
            final(self).seen() == old(self).seen().push(line@),
    {
        proof {
            use_type_invariant(&*self);
        }
        let cs = to_chars(line);
        let imp = to_chars(NULL_MARKED_IMPORT);
        let ann = to_chars(NULL_MARKED_ANNOTATION);
        let found_import = contains(cs.as_slice(), imp.as_slice());
        let t = trim_chars(cs.as_slice());
        let found_annotation = has_prefix(t.as_slice(), ann.as_slice());
        let ghost s = self.seen@.push(line@);
        proof {
            let old_s = self.seen@;
            assert(s[s.len() - 1] == line@);
            if self.has_import {
                let i = choose|i: int| 0 <= i < old_s.len() && has_import_line(#[trigger] old_s[i]);
                assert(s[i] == old_s[i]);
            }
            if self.has_annotation {
                let i = choose|i: int| 0 <= i < old_s.len() && has_annotation_line(#[trigger] old_s[i]);
                assert(s[i] == old_s[i]);
            }
            assert forall|i: int| 0 <= i < old_s.len() implies s[i] == old_s[i] by {}
            assert(found_import ==> has_import_line(s[s.len() - 1]));
            assert(found_annotation ==> has_annotation_line(s[s.len() - 1]));
        }
        let hi = self.has_import || found_import;
        let ha = self.has_annotation || found_annotation;
        proof {
            assert(scan_lines(s).0 == hi);
            assert(scan_lines(s).1 == ha);
        }
        *self = NullMarkedScan { has_import: hi, has_annotation: ha, seen: Ghost(s) };
    }

    /// Both the import and the annotation have been seen: reading further
    /// lines cannot change the outcome.
    pub fn is_complete(&self) -> (r: bool)
        ensures
            r == (scan_lines(self.seen()).0 && scan_lines(self.seen()).1),
    {
        proof {
            use_type_invariant(self);
        }
        self.has_import && self.has_annotation
    }

    /// The verdict for the file at `path`, once its lines (or enough of
    /// them) have been seen.
    pub fn verdict(&self, path: &str) -> (r: Result<(), HookError>)
        ensures
            scan_lines(self.seen()).0 && scan_lines(self.seen()).1 ==> r is Ok,
            !(scan_lines(self.seen()).0 && scan_lines(self.seen()).1) ==> (r matches Err(
                HookError::MissingNullMarked(p),
            ) && p@ == path@),
    {
        if self.is_complete() {
            Ok(())
        } else {
            Err(HookError::MissingNullMarked(path.to_owned()))
        }
    }
}

/// Once both the import and the annotation have been seen, more lines keep
/// them seen: stopping early gives the verdict that reading the whole file
/// gives.
pub proof fn law_scan_monotone(ls: Seq<Seq<char>>, more: Seq<Seq<char>>)
    ensures
        scan_lines(ls).0 ==> scan_lines(ls + more).0,
        scan_lines(ls).1 ==> scan_lines(ls + more).1,
{
    if scan_lines(ls).0 {
        let i = choose|i: int| 0 <= i < ls.len() && has_import_line(#[trigger] ls[i]);
        assert((ls + more)[i] == ls[i]);
    }
    if scan_lines(ls).1 {
        let i = choose|i: int| 0 <= i < ls.len() && has_annotation_line(#[trigger] ls[i]);
        assert((ls + more)[i] == ls[i]);
    }
}

/// Whether `path` is a checked source.
fn checked_source(path: &str) -> (r: bool)
    ensures
        r == is_checked_source(path@),
{
    let cs = to_chars(path);
    let java = to_chars("java");
    let is_java = match path_extension(cs.as_slice()) {
        Some(e) => chars_eq(e.as_slice(), java.as_slice()),
        None => false,
    };
    if !is_java {
        return false;
    }
    let suffix = to_chars("Test.java");
    match path_file_name(cs.as_slice()) {
        Some(n) => !has_suffix(n.as_slice(), suffix.as_slice()),
        None => true,
    }
}

impl<C: GitConfig> ChromeNullMarkedAction<C> {
    /// A disabled action without configuration.
    pub fn new() -> (r: Self)
        ensures
            !r.enabled(),
            !r.has_config(),
    {
        ChromeNullMarkedAction { setting: EnabledSetting::new() }
    }

    pub closed spec fn enabled(&self) -> bool {
        self.setting.enabled()
    }

    pub closed spec fn has_config(&self) -> bool {
        self.setting.has_config()
    }

    pub closed spec fn entries(&self) -> Map<Seq<char>, Seq<char>> {
        self.setting.entries()
    }

    /// Whether the attached store takes every write.
    pub closed spec fn accepts_writes(&self) -> bool {
        self.setting.accepts_writes()
    }

    /// What persisting the choice `want` answers (see
    /// [`EnabledSetting::selection_result`]).
    pub closed spec fn selection_result(&self, want: bool) -> Result<(), HookError> {
        self.setting.selection_result(want)
    }
}

/// The checked sources among `items`.
pub fn sources_to_check(items: &[Item]) -> (r: Vec<String>)
    ensures
        sviews(r@) == checked_sources(items@),
{
    let mut out: Vec<String> = Vec::new();
    let mut i: usize = 0;
    while i < items.len()
        invariant
            i <= items@.len(),
            sviews(out@) == checked_sources(items@.take(i as int)),
        decreases items@.len() - i,
    {
        assert(items@.take(i + 1).drop_last() =~= items@.take(i as int));
        assert(items@.take(i + 1).last() == items@[i as int]);
        match &items[i] {
            Item::File(p) => {
                if checked_source(p.as_str()) {
                    let ghost before = out@;
                    out.push(p.clone());
                    assert(sviews(out@) =~= sviews(before).push(p@));
                }
            },
            _ => {},
        }
        i = i + 1;
    }
    assert(items@.take(i as int) =~= items@);
    out
}

impl<C: GitConfig> ActionTraitInternal<C> for ChromeNullMarkedAction<C> {
    fn check_valid(&self) -> (r: Result<(), HookError>)
        ensures
            r is Ok,
    {
        Ok(())
    }

    fn set_config(&mut self, cfg: C) -> (r: Result<(), HookError>)
        ensures
            r is Ok,
            final(self).enabled() == enabled_in(cfg.entries()),
            final(self).has_config(),
            final(self).entries() == cfg.entries(),
    {
        self.setting.set_config(cfg);
        Ok(())
    }
}

impl<C: GitConfig> ActionTrait<C> for ChromeNullMarkedAction<C> {
    open spec fn run_requires(&self, items: Seq<Item>, args: Seq<String>) -> bool {
        true
    }

    fn name(&self) -> (r: &str)
        ensures
            r@ == NULL_MARKED_ACTION_NAME@,
    {
        NULL_MARKED_ACTION_NAME
    }

    fn priority(&self) -> (r: i32)
        ensures
            r == 0,
    {
        0
    }

    fn is_available(&self) -> (r: bool)
        ensures
            r,
    {
        true
    }

    fn is_selected(&self) -> (r: bool)
        ensures
            r == self.enabled(),
    {
        self.setting.is_enabled()
    }

    fn set_selected(&mut self, want_selected: bool) -> (r: Result<(), HookError>)
        ensures
            r == old(self).selection_result(want_selected),
            !old(self).has_config() ==> r is Ok && final(self).enabled() == old(self).enabled()
                && !final(self).has_config(),
            old(self).has_config() ==> final(self).has_config(),
            old(self).has_config() && r is Ok ==> final(self).enabled() == want_selected
                && final(self).entries() == entries_after_selection(
                old(self).entries(),
                want_selected,
            ),
            r is Err ==> final(self).enabled() == old(self).enabled() && final(self).entries()
                == old(self).entries(),
            old(self).has_config() && old(self).accepts_writes() ==> r is Ok,
            final(self).accepts_writes() == old(self).accepts_writes(),
    {
        self.setting.set_selected(want_selected)
    }

    /// Asks to check every changed Java source that is not a test (whether
    /// or not the action is enabled).
    fn run(&self, items: &[Item], args: &Vec<String>) -> (r: Result<RunPlan, HookError>)
        ensures
            r matches Ok(RunPlan::CheckNullMarked(files)) && sviews(files@) == checked_sources(
                items@,
            ),
    {
        Ok(RunPlan::CheckNullMarked(sources_to_check(items)))
    }
}


// ---------------------------------------------------------------------------
// Laws: which sources are checked

/// Every changed Java source that is not a test is checked, and only those:
/// each file item whose path is such a source is in the list, and each
/// path in the list is such a source among the items.
pub proof fn law_every_source_checked(items: Seq<Item>)
    ensures
        forall|i: int|
            0 <= i < items.len() ==> match #[trigger] items[i] {
                Item::File(p) => is_checked_source(p@) ==> checked_sources(items).contains(p@),
                _ => true,
            },
        forall|p: Seq<char>|
            #[trigger] checked_sources(items).contains(p) ==> is_checked_source(p) && exists|i: int|
                0 <= i < items.len() && (#[trigger] items[i] matches Item::File(n) && n@ == p),
    decreases items.len(),
{
    if items.len() > 0 {
        let init = items.drop_last();
        law_every_source_checked(init);
        let rest = checked_sources(init);
        let m = checked_sources(items);
        assert forall|i: int|
            0 <= i < items.len() implies match #[trigger] items[i] {
                Item::File(p) => is_checked_source(p@) ==> m.contains(p@),
                _ => true,
            } by {
            if i < items.len() - 1 {
                assert(init[i] == items[i]);
                if let Item::File(p) = items[i] {
                    if is_checked_source(p@) {
                        assert(rest.contains(p@));
                        let k = choose|k: int| 0 <= k < rest.len() && rest[k] == p@;
                        assert(m[k] == p@);
                    }
                }
            } else {
                if let Item::File(p) = items[i] {
                    if is_checked_source(p@) {
                        assert(m == rest.push(p@));
                        assert(m[rest.len() as int] == p@);
                    }
                }
            }
        }
        assert forall|p: Seq<char>| #[trigger] m.contains(p) implies is_checked_source(p)
            && exists|i: int| 0 <= i < items.len() && (#[trigger] items[i] matches Item::File(n)
            && n@ == p) by {
            let k = choose|k: int| 0 <= k < m.len() && m[k] == p;
            if k < rest.len() {
                assert(m[k] == rest[k]) by {
                    match items.last() {
                        Item::File(q) => {
                            if is_checked_source(q@) {
                                assert(m == rest.push(q@));
                            }
                        },
                        _ => {},
                    }
                }
                assert(rest.contains(p));
                let i = choose|i: int| 0 <= i < init.len() && (#[trigger] init[i] matches Item::File(n) && n@ == p);
                assert(init[i] == items[i]);
            } else {
                assert(items[items.len() - 1] == items.last());
            }
        }
    }
}

} // verus!
