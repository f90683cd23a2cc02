//! The interface every hook action offers, and the on/off setting that the
//! built-in actions persist in their configuration.

use vstd::prelude::*;

use crate::error::HookError;
use crate::repo::config::{config_value, GitConfig};
use crate::repo::Item;
use crate::text::{chars_eq, to_chars};

verus! {

/// Configuration key under which an action records that it is enabled.
pub const KEY_ENABLED: &'static str = "enabled";

/// Configuration value that marks an action enabled.
pub const VALUE_TRUE: &'static str = "true";

/// The outside work that running an action asks for; the library decides
/// it, the caller performs it.
#[derive(Debug, PartialEq, Eq)]
pub enum RunPlan {
    /// Nothing to do.
    Nothing,
    /// Run these command lines one after the other, stopping at the first
    /// one that cannot be started.
    Commands(Vec<Vec<String>>),
    /// Reflow the commit message stored in this file.
    ReflowMessage(String),
    /// Check these Java files for the `@NullMarked` annotation and import.
    CheckNullMarked(Vec<String>),
    /// Format these Android resource files.
    FormatResources(Vec<String>),
    /// Add a Gerrit Change-Id to the commit message stored in this file.
    GenerateChangeId(String),
}

/// Configuration and validation of an action whose settings live in a
/// configuration of type `C`.
pub trait ActionTraitInternal<C> {
    /// Attaches the configuration of the action and reads its settings.
    fn set_config(&mut self, cfg: C) -> (r: Result<(), HookError>);

    /// Whether the action's definition is usable.
    fn check_valid(&self) -> (r: Result<(), HookError>);
}

/// A hook action.
pub trait ActionTrait<C>: ActionTraitInternal<C> {
    /// What `run` needs of its arguments.
    spec fn run_requires(&self, items: Seq<Item>, args: Seq<String>) -> bool;

    /// Display name.
    fn name(&self) -> &str;

    /// Ordering priority.
    fn priority(&self) -> i32;

    /// Decides what running the action over the changed `items` with the
    /// hook's `args` takes.
    fn run(&self, items: &[Item], args: &Vec<String>) -> (r: Result<RunPlan, HookError>)
        requires
            self.run_requires(items@, args@),
    ;

    /// Whether the user selected the action.
    fn is_selected(&self) -> bool;

    /// Whether the action can run here.
    fn is_available(&self) -> bool;

    /// Selects or deselects the action and persists the choice.
    fn set_selected(&mut self, want_selected: bool) -> (r: Result<(), HookError>);
}

/// Whether the value stored under `enabled` in `entries` turns an action on.
pub open spec fn enabled_in(entries: Map<Seq<char>, Seq<char>>) -> bool {
    config_value(entries, KEY_ENABLED@, seq![]) == VALUE_TRUE@
}

/// The entries after persisting the choice `want`.
pub open spec fn entries_after_selection(
    entries: Map<Seq<char>, Seq<char>>,
    want: bool,
) -> Map<Seq<char>, Seq<char>> {
    if want {
        entries.insert(KEY_ENABLED@, VALUE_TRUE@)
    } else {
        entries.remove(KEY_ENABLED@)
    }
}

/// The on/off state of a built-in action and the store that persists it.
pub struct EnabledSetting<C> {
    enabled: bool,
    config: Option<C>,
}

impl<C: GitConfig> EnabledSetting<C> {
    /// Disabled, without a store.
    pub fn new() -> (r: Self)
        ensures
            !r.enabled(),
            !r.has_config(),
    {
        EnabledSetting { enabled: false, config: None }
    }

    /// Whether the action is enabled.
    pub closed spec fn enabled(&self) -> bool {
        self.enabled
    }

    /// Whether a store is attached.
    pub closed spec fn has_config(&self) -> bool {
        self.config is Some
    }

    /// The entries of the attached store.
    pub closed spec fn entries(&self) -> Map<Seq<char>, Seq<char>> {
        match self.config {
            Some(c) => c.entries(),
            None => Map::empty(),
        }
    }

    /// Whether the attached store takes every write.
    pub closed spec fn accepts_writes(&self) -> bool {
        match self.config {
            Some(c) => c.accepts_writes(),
            None => false,
        }
    }

    /// What persisting the choice `want` answers: the store's answer to
    /// writing or removing `enabled`; success without a store.
    pub closed spec fn selection_result(&self, want: bool) -> Result<(), HookError> {
        match self.config {
            Some(c) => if want {
                c.set_result(KEY_ENABLED@, VALUE_TRUE@)
            } else {
                c.remove_result(KEY_ENABLED@)
            },
            None => Ok(()),
        }
    }

    /// Whether the action is enabled.
    pub fn is_enabled(&self) -> (r: bool)
        ensures
            r == self.enabled(),
    {
        self.enabled
    }

    /// Attaches `cfg` and reads the `enabled` setting from it.
    pub fn set_config(&mut self, cfg: C)
        ensures
            final(self).enabled() == enabled_in(cfg.entries()),
            final(self).has_config(),
            final(self).entries() == cfg.entries(),
    {
        let ghost e = cfg.entries();
        let value = cfg.get_or_default(KEY_ENABLED, "");
        proof {
            reveal_strlit("");
            assert(""@ =~= Seq::<char>::empty());
        }
        assert(value@ == config_value(e, KEY_ENABLED@, seq![]));
        let v = to_chars(value.as_str());
        let t = to_chars(VALUE_TRUE);
        self.enabled = chars_eq(v.as_slice(), t.as_slice());
        assert(self.enabled == enabled_in(e));
        self.config = Some(cfg);

    }

    /// Persists the choice `want_selected`, then records it; without a
    /// store nothing changes.
    pub fn set_selected(&mut self, want_selected: bool) -> (r: Result<(), HookError>)
        ensures
            r == old(self).selection_result(want_selected),
            !old(self).has_config() ==> r is Ok && final(self).enabled() == old(self).enabled()
                && !final(self).has_config(),
            old(self).has_config() ==> final(self).has_config(),
            old(self).has_config() && r is Ok ==> final(self).enabled() == want_selected
                && final(self).entries() == entries_after_selection(
                old(self).entries(),
                want_selected,
            ),
            r is Err ==> final(self).enabled() == old(self).enabled() && final(self).entries()
                == old(self).entries(),
            old(self).has_config() && old(self).accepts_writes() ==> r is Ok,
            final(self).accepts_writes() == old(self).accepts_writes(),
    {
        match self.config.take() {
            None => Ok(()),
            Some(mut cfg) => {
                let ghost e0 = cfg.entries();
                assert(e0 == old(self).entries());
                let r = if want_selected {
                    cfg.set(KEY_ENABLED, VALUE_TRUE)
                } else {
                    cfg.remove(KEY_ENABLED)
                };
                assert(r is Ok ==> cfg.entries() == entries_after_selection(e0, want_selected));
                self.config = Some(cfg);
                if r.is_ok() {
                    self.enabled = want_selected;
                }
                r
            },
        }
    }
}

/// The value stored under `enabled` is what `set_selected` persisted: after
/// a successful selection the entries turn the action on exactly when it was
/// selected.
pub proof fn law_selection_persists(entries: Map<Seq<char>, Seq<char>>, want: bool)
    ensures
        enabled_in(entries_after_selection(entries, want)) == want,
{
    if !want {
        assert(!entries.remove(KEY_ENABLED@).contains_key(KEY_ENABLED@));
        assert(Seq::<char>::empty() != VALUE_TRUE@) by {
            reveal_strlit("true");
            assert(VALUE_TRUE@.len() == 4);
        }
    }
}

} // verus!
