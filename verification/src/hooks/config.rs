//! The user's hook definitions (version 1 of the configuration file), checked
//! and turned into hooks.

use vstd::prelude::*;

use super::action::ActionTraitInternal;
use super::hook::Hook;
use super::hooks::Hooks;
use super::shell_action::ShellAction;
use crate::assoc::{assoc_lookup, assoc_map, keyed, lemma_lookup_push};
use crate::error::{ActionProblem, HookError};
use crate::named::{NamedMap, inserted_names, names_of};
use crate::repo::config::GitConfig;

verus! {

/// One hook category of the configuration file: its name and its actions by
/// identifier.
pub struct V1HookConfig<C> {
    pub name: String,
    pub actions: Vec<(String, ShellAction<C>)>,
}

/// Version 1 of the configuration file: the hook categories by identifier.
pub struct V1Config<C> {
    pub hooks: Vec<(String, V1HookConfig<C>)>,
}

/// A usable action definition: an identifier, a name and a command.
pub open spec fn action_ok<C: GitConfig>(id: Seq<char>, a: ShellAction<C>) -> bool {
    id.len() > 0 && a.spec_name().len() > 0 && a.command().len() > 0
}

/// A usable category: an identifier, a name and usable actions.
pub open spec fn category_ok<C: GitConfig>(id: Seq<char>, c: V1HookConfig<C>) -> bool {
    &&& id.len() > 0
    &&& c.name@.len() > 0
    &&& forall|j: int| 0 <= j < c.actions@.len() ==> action_ok(#[trigger] c.actions@[j].0@, c.actions@[j].1)
}

/// Every category is usable.
pub open spec fn config_ok<C: GitConfig>(cfg: Seq<(String, V1HookConfig<C>)>) -> bool {
    forall|i: int| 0 <= i < cfg.len() ==> category_ok(#[trigger] cfg[i].0@, cfg[i].1)
}

/// `e` reports the unusable action `id` of category `ck`.
pub open spec fn action_error_is<C: GitConfig>(
    ck: Seq<char>,
    id: Seq<char>,
    a: ShellAction<C>,
    e: HookError,
) -> bool {
    if id.len() == 0 {
        e matches HookError::InvalidActionId(c) && c@ == ck
    } else {
        e matches HookError::InvalidAction { category, action, reason } && category@ == ck
            && action@ == id && reason == (if a.spec_name().len() == 0 {
            ActionProblem::NameNotSet
        } else {
            ActionProblem::ShellCommandNotSet
        })
    }
}

/// `e` reports what makes category `ck` unusable: its identifier, its name,
/// or its first unusable action.
pub open spec fn category_error_is<C: GitConfig>(
    ck: Seq<char>,
    c: V1HookConfig<C>,
    e: HookError,
) -> bool {
    if ck.len() == 0 {
        e == HookError::InvalidCategoryId
    } else if c.name@.len() == 0 {
        e matches HookError::InvalidCategoryName(n) && n@ == ck
    } else {
        exists|j: int|
            0 <= j < c.actions@.len() && !action_ok(#[trigger] c.actions@[j].0@, c.actions@[j].1) && (
            forall|k: int| 0 <= k < j ==> action_ok(#[trigger] c.actions@[k].0@, c.actions@[k].1))
                && action_error_is(ck, c.actions@[j].0@, c.actions@[j].1, e)
    }
}

/// `h` is the hook made from the category `ck`: same identifier and name,
/// and its actions by identifier (a later definition replacing an earlier
/// one).
pub open spec fn hook_from<C: GitConfig>(h: Hook<C>, ck: Seq<char>, c: V1HookConfig<C>) -> bool {
    &&& h.spec_id() == ck
    &&& h.spec_name() == c.name@
    &&& h.spec_actions().as_map() == assoc_map(keyed(c.actions@))
    &&& h.spec_actions().names() == inserted_names(names_of(keyed(c.actions@)))
}

/// `hooks` holds one hook per category identifier of `cfg`, made from the
/// last category with that identifier.
pub open spec fn hooks_from<C: GitConfig>(hooks: Hooks<C>, cfg: Seq<(String, V1HookConfig<C>)>) -> bool {
    &&& hooks.names() == inserted_names(names_of(keyed(cfg)))
    &&& forall|k: Seq<char>|
        #![trigger hooks.as_map().contains_key(k)]
        hooks.as_map().contains_key(k) <==> assoc_lookup(keyed(cfg), k) is Some
    &&& forall|k: Seq<char>|
        #![trigger hooks.as_map()[k]]
        hooks.as_map().contains_key(k) ==> hook_from(
            hooks.as_map()[k],
            k,
            assoc_lookup(keyed(cfg), k)->0,
        )
}

/// Checks each category of `config` (a non-empty identifier, a non-empty
/// name, usable actions) and makes the hooks out of them; the error names
/// the first category (and action) that is not usable.
pub fn from_v1_config<C: GitConfig>(config: V1Config<C>) -> (r: Result<Hooks<C>, HookError>)
    ensures
        r is Ok <==> config_ok(config.hooks@),
        r matches Ok(h) ==> hooks_from(h, config.hooks@),
        r matches Err(e) ==> exists|i: int|
            0 <= i < config.hooks@.len() && !category_ok(#[trigger] config.hooks@[i].0@, config.hooks@[i].1) && (
            forall|k: int| 0 <= k < i ==> category_ok(#[trigger] config.hooks@[k].0@, config.hooks@[k].1))
                && category_error_is(config.hooks@[i].0@, config.hooks@[i].1, e),
{
    let ghost all = config.hooks@;
    assert(all.len() == config.hooks.len());
    let mut rest = config.hooks;
    let mut result: Hooks<C> = NamedMap::new();
    let mut i: usize = 0;
    proof {
        assert(rest@ =~= all.skip(0));
        assert(keyed(all.take(0)) =~= Seq::<(Seq<char>, V1HookConfig<C>)>::empty());
        assert(names_of(keyed(all.take(0))) =~= Seq::<Seq<char>>::empty());
        assert(result.names() =~= Seq::<Seq<char>>::empty());
    }
    while rest.len() > 0
        invariant
            i <= all.len(),
            all.len() <= usize::MAX,
            all == config.hooks@,
            rest@ == all.skip(i as int),
            forall|k: int| 0 <= k < i ==> category_ok(#[trigger] all[k].0@, all[k].1),
            hooks_from(result, all.take(i as int)),
        decreases rest.len(),
    {
        let ghost before_rest = rest@;
        let (ck, cv) = rest.remove(0);
        proof {
            assert(before_rest[0] == all.skip(i as int)[0]);
            assert(all[i as int] == (ck, cv));
            assert(rest@ =~= all.skip(i + 1));
        }
        match check_category(&ck, &cv) {
            Ok(()) => {},
            Err(e) => {
                assert(!category_ok(all[i as int].0@, all[i as int].1));
                assert(category_error_is(all[i as int].0@, all[i as int].1, e));
                return Err(e);
            },
        }
        let ghost k = ck@;
        let ghost c = cv;
        let V1HookConfig { name, actions } = cv;
        let acts = NamedMap::from_pairs(actions);
        let hook = Hook::new(ck.clone(), name, acts);
        let ghost prev = result;
        result.insert(ck, hook);
        proof {
            let cfg0 = all.take(i as int);
            let cfg1 = all.take(i + 1);
            assert(cfg1 =~= cfg0.push((all[i as int].0, all[i as int].1)));
            assert(keyed(cfg1) =~= keyed(cfg0).push((k, c)));
            assert(names_of(keyed(cfg1)).drop_last() =~= names_of(keyed(cfg0)));
            assert(names_of(keyed(cfg1)).last() == k);
            assert forall|q: Seq<char>| #[trigger] result.as_map().contains_key(q) <==> assoc_lookup(
                keyed(cfg1),
                q,
            ) is Some by {
                lemma_lookup_push(keyed(cfg0), k, c, q);
            }
            assert forall|q: Seq<char>| #[trigger] result.as_map().contains_key(q) implies hook_from(
                result.as_map()[q],
                q,
                assoc_lookup(keyed(cfg1), q)->0,
            ) by {
                lemma_lookup_push(keyed(cfg0), k, c, q);
            }
        }
        i = i + 1;
    }
    proof {
        assert(all.take(i as int) =~= all);
    }
    Ok(result)
}

/// Checks one category: `Err` with what [`category_error_is`] describes.
fn check_category<C: GitConfig>(ck: &String, cv: &V1HookConfig<C>) -> (r: Result<(), HookError>)
    ensures
        r is Ok <==> category_ok(ck@, *cv),
        r matches Err(e) ==> category_error_is(ck@, *cv, e),
{
    if ck.as_str().is_empty() {
        return Err(HookError::InvalidCategoryId);
    }
    if cv.name.as_str().is_empty() {
        return Err(HookError::InvalidCategoryName(ck.clone()));
    }
    let mut j: usize = 0;
    while j < cv.actions.len()
        invariant
            j <= cv.actions@.len(),
            ck@.len() > 0,
            cv.name@.len() > 0,
            forall|k: int| 0 <= k < j ==> action_ok(#[trigger] cv.actions@[k].0@, cv.actions@[k].1),
        decreases cv.actions@.len() - j,
    {
        let (hk, hv) = (&cv.actions[j].0, &cv.actions[j].1);
        if hk.as_str().is_empty() {
            proof {
                assert(!action_ok(cv.actions@[j as int].0@, cv.actions@[j as int].1));
            }
            return Err(HookError::InvalidActionId(ck.clone()));
        }
        match hv.check_valid() {
            Ok(()) => {},
            Err(e) => {
                let reason = match e {
                    HookError::InvalidAction { reason, .. } => reason,
                    _ => ActionProblem::NameNotSet,
                };
                proof {
                    assert(!action_ok(cv.actions@[j as int].0@, cv.actions@[j as int].1));
                }
                return Err(
                    HookError::InvalidAction { category: ck.clone(), action: hk.clone(), reason },
                );
            },
        }
        j = j + 1;
    }
    Ok(())
}

} // verus!
