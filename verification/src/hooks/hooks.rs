//! All known hooks, by identifier, and the attachment of their configuration.

use vstd::prelude::*;

use super::hook::{Hook, configured_from};
use crate::error::HookError;
use crate::named::NamedMap;
use crate::repo::config::{GitConfig, GitConfigManager};

verus! {

/// The hooks, by identifier.
pub type Hooks<C> = NamedMap<Hook<C>>;

/// Specifies the configuration store that persists the actions'
/// configuration in the current context (typically the current git
/// repository).
pub trait HooksExt<C> {
    /// Attaches to every action of every hook its configuration from `s`.
    fn set_config_store<M: GitConfigManager<Config = C>>(&mut self, s: &M) -> (r: Result<
        (),
        HookError,
    >);
}

impl<C: GitConfig> HooksExt<C> for NamedMap<Hook<C>> {
    fn set_config_store<M: GitConfigManager<Config = C>>(&mut self, s: &M) -> (r: Result<
        (),
        HookError,
    >)
        ensures
            r is Ok,
            final(self).names() == old(self).names(),
            final(self).pairs().len() == old(self).pairs().len(),
            forall|i: int|
                0 <= i < old(self).pairs().len() ==> {
                    let a = #[trigger] old(self).pairs()[i].1;
                    let b = final(self).pairs()[i].1;
                    &&& b.spec_id() == a.spec_id()
                    &&& b.spec_name() == a.spec_name()
                    &&& b.spec_actions().names() == a.spec_actions().names()
                    &&& b.spec_actions().pairs().len() == a.spec_actions().pairs().len()
                    &&& forall|j: int|
                        0 <= j < a.spec_actions().pairs().len() ==> configured_from(
                            #[trigger] a.spec_actions().pairs()[j].1,
                            b.spec_actions().pairs()[j].1,
                            s.entries_for(a.spec_id(), a.spec_actions().pairs()[j].0),
                        )
                },
    {
        let ghost before = self.pairs();
        let n = self.len();
        let mut i: usize = 0;
        while i < n
            invariant
                i <= n,
                n == before.len(),
                before == old(self).pairs(),
                self.pairs().len() == n,
                forall|j: int| 0 <= j < n ==> #[trigger] self.pairs()[j].0 == before[j].0,
                forall|j: int|
                    0 <= j < i ==> {
                        let a = #[trigger] before[j].1;
                        let b = self.pairs()[j].1;
                        &&& b.spec_id() == a.spec_id()
                        &&& b.spec_name() == a.spec_name()
                        &&& b.spec_actions().names() == a.spec_actions().names()
                        &&& b.spec_actions().pairs().len() == a.spec_actions().pairs().len()
                        &&& forall|k: int|
                            0 <= k < a.spec_actions().pairs().len() ==> configured_from(
                                #[trigger] a.spec_actions().pairs()[k].1,
                                b.spec_actions().pairs()[k].1,
                                s.entries_for(a.spec_id(), a.spec_actions().pairs()[k].0),
                            )
                    },
                forall|j: int| i <= j < n ==> #[trigger] self.pairs()[j] == before[j],
            decreases n - i,
        {
            self.distinct_names();
            let ghost cur = self.pairs();
            let (hname, mut hook) = self.take_at(i);
            let _ = hook.set_config_store(s);
            proof {
                let rest = cur.remove(i as int);
                assert(cur[i as int].0 == hname@);
                assert forall|j: int| 0 <= j < rest.len() implies #[trigger] rest[j].0 != hname@ by {
                    if j < i {
                        assert(rest[j] == cur[j]);
                        assert(cur[j].0 != cur[i as int].0);
                    } else {
                        assert(rest[j] == cur[j + 1]);
                        assert(cur[i as int].0 != cur[j + 1].0);
                    }
                }
                assert(!self.names().contains(hname@)) by {
                    if self.names().contains(hname@) {
                        let j = choose|j: int| 0 <= j < self.names().len() && self.names()[j]
                            == hname@;
                        assert(rest[j].0 == hname@);
                    }
                }
            }
            self.put_at(i, hname, hook);
            proof {
                assert(self.pairs() =~= cur.update(i as int, self.pairs()[i as int]));
            }
            i = i + 1;
        }
        assert(self.names() =~= old(self).names());
        Ok(())
    }
}

} // verus!
