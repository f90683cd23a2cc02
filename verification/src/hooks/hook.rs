//! A hook category: an identifier, a display name and its shell actions.

use vstd::prelude::*;

use super::action::{ActionTrait, ActionTraitInternal, enabled_in};
use super::shell_action::ShellAction;
use crate::error::HookError;
use crate::named::NamedMap;
use crate::repo::config::{GitConfig, GitConfigManager};

verus! {

/// The actions of a hook, by identifier.
pub type Actions<C> = NamedMap<ShellAction<C>>;

/// A hook category and its actions.
pub struct Hook<C> {
    id: String,
    name: String,
    actions: Actions<C>,
}

/// `after` is `before` with the configuration holding `entries` attached:
/// selected exactly when the entries enable it, everything else kept.
pub open spec fn configured_from<C: GitConfig>(
    before: ShellAction<C>,
    after: ShellAction<C>,
    entries: Map<Seq<char>, Seq<char>>,
) -> bool {
    &&& after.selected() == enabled_in(entries)
    &&& after.has_config()
    &&& after.entries() == entries
    &&& after.command() == before.command()
    &&& after.available() == before.available()
    &&& after.spec_name() == before.spec_name()
    &&& after.spec_priority() == before.spec_priority()
    &&& after.pattern() == before.pattern()
    &&& after.run_type() == before.run_type()
}

impl<C: GitConfig> Hook<C> {
    /// A hook with the given identifier, name and actions.
    pub fn new(id: String, name: String, actions: Actions<C>) -> (r: Self)
        ensures
            r.spec_id() == id@,
            r.spec_name() == name@,
            r.spec_actions() == actions,
    {
        Hook { id, name, actions }
    }

    pub closed spec fn spec_id(&self) -> Seq<char> {
        self.id@
    }

    pub closed spec fn spec_name(&self) -> Seq<char> {
        self.name@
    }

    pub closed spec fn spec_actions(&self) -> Actions<C> {
        self.actions
    }

    /// The identifier.
    pub fn id(&self) -> (r: &str)
        ensures
            r@ == self.spec_id(),
    {
        self.id.as_str()
    }

    /// The display name.
    pub fn name(&self) -> (r: &str)
        ensures
            r@ == self.spec_name(),
    {
        self.name.as_str()
    }

    /// The actions.
    pub fn actions(&self) -> (r: &Actions<C>)
        ensures
            *r == self.spec_actions(),
    {
        &self.actions
    }

    /// Attaches to every action its configuration from `store`, found under
    /// the hook's identifier and the action's identifier.
    pub fn set_config_store<M: GitConfigManager<Config = C>>(&mut self, store: &M) -> (r: Result<
        (),
        HookError,
    >)
        ensures
            r is Ok,
            final(self).spec_id() == old(self).spec_id(),
            final(self).spec_name() == old(self).spec_name(),
            final(self).spec_actions().names() == old(self).spec_actions().names(),
            final(self).spec_actions().pairs().len() == old(self).spec_actions().pairs().len(),
            forall|i: int|
                0 <= i < old(self).spec_actions().pairs().len() ==> configured_from(
                    #[trigger] old(self).spec_actions().pairs()[i].1,
                    final(self).spec_actions().pairs()[i].1,
                    store.entries_for(old(self).spec_id(), old(self).spec_actions().pairs()[i].0),
                ),
    {
        let ghost before = self.actions.pairs();
        let n = self.actions.len();
        let mut i: usize = 0;
        while i < n
            invariant
                i <= n,
                n == before.len(),
                self.id@ == old(self).spec_id(),
                self.name@ == old(self).spec_name(),
                before == old(self).spec_actions().pairs(),
                self.actions.pairs().len() == n,
                forall|j: int| 0 <= j < n ==> #[trigger] self.actions.pairs()[j].0 == before[j].0,
                forall|j: int|
                    0 <= j < i ==> configured_from(
                        #[trigger] before[j].1,
                        self.actions.pairs()[j].1,
                        store.entries_for(self.id@, before[j].0),
                    ),
                forall|j: int| i <= j < n ==> #[trigger] self.actions.pairs()[j] == before[j],
            decreases n - i,
        {
            self.actions.distinct_names();
            let ghost cur = self.actions.pairs();
            let (aname, mut action) = self.actions.take_at(i);
            let cfg = store.get_config_for(self.id.as_str(), aname.as_str());
            let _ = action.set_config(cfg);
            proof {
                let rest = cur.remove(i as int);
                assert(cur[i as int].0 == aname@);
                assert forall|j: int| 0 <= j < rest.len() implies #[trigger] rest[j].0 != aname@ by {
                    if j < i {
                        assert(rest[j] == cur[j]);
                        assert(cur[j].0 != cur[i as int].0);
                    } else {
                        assert(rest[j] == cur[j + 1]);
                        assert(cur[i as int].0 != cur[j + 1].0);
                    }
                }
                assert(!self.actions.names().contains(aname@)) by {
                    if self.actions.names().contains(aname@) {
                        let j = choose|j: int| 0 <= j < self.actions.names().len()
                            && self.actions.names()[j] == aname@;
                        assert(rest[j].0 == aname@);
                    }
                }
            }
            self.actions.put_at(i, aname, action);
            proof {
                assert(self.actions.pairs() =~= cur.update(i as int, self.actions.pairs()[i as int]));
            }
            i = i + 1;
        }
        assert(self.actions.names() =~= old(self).spec_actions().names());
        Ok(())
    }

    /// Records where the command of action `i` was found (see
    /// [`ShellAction::set_shell_cmd`]).
    pub fn set_action_command(&mut self, i: usize, resolved: Option<String>)
        requires
            i < old(self).spec_actions().pairs().len(),
            old(self).spec_actions().pairs()[i as int].1.command().len() > 0,
        ensures
            final(self).spec_id() == old(self).spec_id(),
            final(self).spec_name() == old(self).spec_name(),
            final(self).spec_actions().pairs().len() == old(self).spec_actions().pairs().len(),
            forall|j: int|
                0 <= j < old(self).spec_actions().pairs().len() && j != i
                    ==> #[trigger] final(self).spec_actions().pairs()[j] == old(
                    self,
                ).spec_actions().pairs()[j],
            final(self).spec_actions().pairs()[i as int].0 == old(self).spec_actions().pairs()[i as int].0,
            ({
                let a = old(self).spec_actions().pairs()[i as int].1;
                let b = final(self).spec_actions().pairs()[i as int].1;
                &&& (resolved matches Some(p) ==> b.command() == a.command().update(0, p@)
                    && b.available())
                &&& (resolved is None ==> b.command() == a.command() && b.available()
                    == a.available())
                &&& b.spec_name() == a.spec_name()
                &&& b.selected() == a.selected()
                &&& b.entries() == a.entries()
            }),
    {
        self.actions.distinct_names();
        let ghost cur = self.actions.pairs();
        let (aname, mut action) = self.actions.take_at(i);
        action.set_shell_cmd(resolved);
        proof {
            let rest = cur.remove(i as int);
            assert(cur[i as int].0 == aname@);
            assert forall|j: int| 0 <= j < rest.len() implies #[trigger] rest[j].0 != aname@ by {
                if j < i {
                    assert(rest[j] == cur[j]);
                    assert(cur[j].0 != cur[i as int].0);
                } else {
                    assert(rest[j] == cur[j + 1]);
                    assert(cur[i as int].0 != cur[j + 1].0);
                }
            }
            assert(!self.actions.names().contains(aname@)) by {
                if self.actions.names().contains(aname@) {
                    let j = choose|j: int| 0 <= j < self.actions.names().len()
                        && self.actions.names()[j] == aname@;
                    assert(rest[j].0 == aname@);
                }
            }
        }
        self.actions.put_at(i, aname, action);
        proof {
            assert(self.actions.pairs() =~= cur.update(i as int, self.actions.pairs()[i as int]));
        }
    }

    /// Selects or deselects action `i` (see [`ShellAction::set_selected`]).
    pub fn set_action_selected(&mut self, i: usize, want: bool) -> (r: Result<(), HookError>)
        requires
            i < old(self).spec_actions().pairs().len(),
        ensures
            final(self).spec_id() == old(self).spec_id(),
            final(self).spec_name() == old(self).spec_name(),
            final(self).spec_actions().pairs().len() == old(self).spec_actions().pairs().len(),
            forall|j: int|
                0 <= j < old(self).spec_actions().pairs().len() && j != i
                    ==> #[trigger] final(self).spec_actions().pairs()[j] == old(
                    self,
                ).spec_actions().pairs()[j],
            final(self).spec_actions().pairs()[i as int].0 == old(self).spec_actions().pairs()[i as int].0,
            ({
                let a = old(self).spec_actions().pairs()[i as int].1;
                let b = final(self).spec_actions().pairs()[i as int].1;
                &&& r == a.selection_result(want)
                &&& b.selected() == want
                &&& b.spec_name() == a.spec_name()
                &&& b.available() == a.available()
                &&& b.command() == a.command()
                &&& b.has_config() == a.has_config()
                &&& (!a.has_config() ==> r == Err::<(), HookError>(
                    HookError::ConfigStoreUnavailable,
                ))
                &&& (a.has_config() && r is Ok ==> b.entries() == crate::hooks::action::entries_after_selection(
                    a.entries(),
                    want,
                ))
                &&& (r is Err ==> b.entries() == a.entries())
                &&& (a.has_config() && a.accepts_writes() ==> r is Ok)
            }),
    {
        self.actions.distinct_names();
        let ghost cur = self.actions.pairs();
        let (aname, mut action) = self.actions.take_at(i);
        let r = action.set_selected(want);
        proof {
            let rest = cur.remove(i as int);
            assert(cur[i as int].0 == aname@);
            assert forall|j: int| 0 <= j < rest.len() implies #[trigger] rest[j].0 != aname@ by {
                if j < i {
                    assert(rest[j] == cur[j]);
                    assert(cur[j].0 != cur[i as int].0);
                } else {
                    assert(rest[j] == cur[j + 1]);
                    assert(cur[i as int].0 != cur[j + 1].0);
                }
            }
            assert(!self.actions.names().contains(aname@)) by {
                if self.actions.names().contains(aname@) {
                    let j = choose|j: int| 0 <= j < self.actions.names().len()
                        && self.actions.names()[j] == aname@;
                    assert(rest[j].0 == aname@);
                }
            }
        }
        self.actions.put_at(i, aname, action);
        proof {
            assert(self.actions.pairs() =~= cur.update(i as int, self.actions.pairs()[i as int]));
        }
        r
    }
}

} // verus!
