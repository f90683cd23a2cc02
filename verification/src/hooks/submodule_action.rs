//! Stops a commit that includes a submodule.

use vstd::prelude::*;

use super::action::{ActionTrait, ActionTraitInternal, EnabledSetting, RunPlan, enabled_in,
    entries_after_selection};
use crate::error::HookError;
use crate::repo::config::GitConfig;
use crate::repo::Item;

verus! {

/// Display name of the submodule check.
pub const SUBMODULE_ACTION_NAME: &'static str = "Detect and Stop if Submodules are changed";

/// Refuses commits that include a submodule (a commit item).
pub struct SubmoduleAction<C> {
    setting: EnabledSetting<C>,
}

/// The path of the first submodule among `items`.
pub open spec fn first_submodule(items: Seq<Item>) -> Option<Seq<char>>
    decreases items.len(),
{
    if items.len() == 0 {
        None
    } else {
        match items[0] {
            Item::Commit(name) => Some(name@),
            _ => first_submodule(items.drop_first()),
        }
    }
}

impl<C: GitConfig> SubmoduleAction<C> {
    /// A disabled action without configuration.
    pub fn new() -> (r: Self)
        ensures
            !r.enabled(),
            !r.has_config(),
    {
        SubmoduleAction { setting: EnabledSetting::new() }
    }

    /// Whether the action is enabled.
    pub closed spec fn enabled(&self) -> bool {
        self.setting.enabled()
    }

    /// Whether a configuration is attached.
    pub closed spec fn has_config(&self) -> bool {
        self.setting.has_config()
    }

    /// The attached configuration's entries.
    pub closed spec fn entries(&self) -> Map<Seq<char>, Seq<char>> {
        self.setting.entries()
    }

    /// Whether the attached store takes every write.
    pub closed spec fn accepts_writes(&self) -> bool {
        self.setting.accepts_writes()
    }

    /// What persisting the choice `want` answers (see
    /// [`EnabledSetting::selection_result`]).
    pub closed spec fn selection_result(&self, want: bool) -> Result<(), HookError> {
        self.setting.selection_result(want)
    }
}

/// Finds the first submodule among `items`.
fn find_submodule(items: &[Item]) -> (r: Option<String>)
    ensures
        r matches Some(n) ==> first_submodule(items@) == Some(n@),
        r is None ==> first_submodule(items@) is None,
{
    let mut i: usize = 0;
    assert(items@.skip(0) =~= items@);
    while i < items.len()
        invariant
            i <= items@.len(),
            first_submodule(items@) == first_submodule(items@.skip(i as int)),
        decreases items@.len() - i,
    {
        assert(items@.skip(i as int).drop_first() =~= items@.skip(i + 1));
        assert(items@.skip(i as int)[0] == items@[i as int]);
        match &items[i] {
            Item::Commit(name) => {
                return Some(name.clone());
            },
            _ => {},
        }
        i = i + 1;
    }
    None
}

impl<C: GitConfig> ActionTraitInternal<C> for SubmoduleAction<C> {
    fn check_valid(&self) -> (r: Result<(), HookError>)
        ensures
            r is Ok,
    {
        Ok(())
    }

    fn set_config(&mut self, cfg: C) -> (r: Result<(), HookError>)
        ensures
            r is Ok,
            final(self).enabled() == enabled_in(cfg.entries()),
            final(self).has_config(),
            final(self).entries() == cfg.entries(),
    {
        self.setting.set_config(cfg);
        Ok(())
    }
}

impl<C: GitConfig> ActionTrait<C> for SubmoduleAction<C> {
    open spec fn run_requires(&self, items: Seq<Item>, args: Seq<String>) -> bool {
        true
    }

    fn is_available(&self) -> (r: bool)
        ensures
            r,
    {
        true
    }

    fn set_selected(&mut self, want_selected: bool) -> (r: Result<(), HookError>)
        ensures
            r == old(self).selection_result(want_selected),
            !old(self).has_config() ==> r is Ok && final(self).enabled() == old(self).enabled()
                && !final(self).has_config(),
            old(self).has_config() ==> final(self).has_config(),
            old(self).has_config() && r is Ok ==> final(self).enabled() == want_selected
                && final(self).entries() == entries_after_selection(
                old(self).entries(),
                want_selected,
            ),
            r is Err ==> final(self).enabled() == old(self).enabled() && final(self).entries()
                == old(self).entries(),
            old(self).has_config() && old(self).accepts_writes() ==> r is Ok,
            final(self).accepts_writes() == old(self).accepts_writes(),
    {
        self.setting.set_selected(want_selected)
    }

    fn is_selected(&self) -> (r: bool)
        ensures
            r == self.enabled(),
    {
        self.setting.is_enabled()
    }

    fn name(&self) -> (r: &str)
        ensures
            r@ == SUBMODULE_ACTION_NAME@,
    {
        SUBMODULE_ACTION_NAME
    }

    fn priority(&self) -> (r: i32)
        ensures
            r == 100,
    {
        100
    }

    fn run(&self, items: &[Item], args: &Vec<String>) -> (r: Result<RunPlan, HookError>)
        ensures
            !self.enabled() ==> r == Ok::<RunPlan, HookError>(RunPlan::Nothing),
            self.enabled() ==> match first_submodule(items@) {
                Some(n) => (r matches Err(HookError::SubmoduleIncluded(m)) && m@ == n),
                None => r == Ok::<RunPlan, HookError>(RunPlan::Nothing),
            },
    {
        if !self.setting.is_enabled() {
            return Ok(RunPlan::Nothing);
        }
        match find_submodule(items) {
            Some(name) => Err(HookError::SubmoduleIncluded(name)),
            None => Ok(RunPlan::Nothing),
        }
    }
}

} // verus!
