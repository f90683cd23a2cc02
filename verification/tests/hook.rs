use githooks::hooks::hook::{Actions, Hook};
use githooks::hooks::hooks::{Hooks, HooksExt};
use githooks::hooks::shell_action::ShellAction;
use githooks::hooks::ActionTrait;
use githooks::repo::{ConfigTrait, GitConfigImpl, GitConfigManagerImpl, MemoryConfig};

type Cfg = GitConfigImpl<MemoryConfig>;

fn action(name: &str) -> ShellAction<Cfg> {
    ShellAction::new(
        name.to_string(),
        0,
        ".*",
        vec!["true".to_string()],
        "perCommit".to_string(),
    )
    .unwrap()
}

#[test]
fn test_new_hook() {
    let actions: Actions<Cfg> = Actions::new();
    let hook = Hook::new("test_id".to_string(), "test_name".to_string(), actions);
    assert_eq!(hook.id(), "test_id");
    assert_eq!(hook.name(), "test_name");
    assert!(hook.actions().is_empty());
}

#[test]
fn test_set_config_store() {
    let mut store = MemoryConfig::new();
    store.set_key("test_id.action1.enabled", "true").unwrap();
    let manager = GitConfigManagerImpl::from_config(store);

    let mut actions: Actions<Cfg> = Actions::new();
    actions.insert("action1".to_string(), action("Action 1"));
    actions.insert("action2".to_string(), action("Action 2"));
    let mut hook = Hook::new("test_id".to_string(), "test_name".to_string(), actions);
    assert!(hook.set_config_store(&manager).is_ok());

    assert!(hook.actions().get("action1").unwrap().is_selected());
    assert!(!hook.actions().get("action2").unwrap().is_selected());
}

#[test]
fn hooks_set_config_store_reaches_every_hook() {
    let mut store = MemoryConfig::new();
    store.set_key("b.x.enabled", "true").unwrap();
    let manager = GitConfigManagerImpl::from_config(store);

    let mut hooks: Hooks<Cfg> = Hooks::new();
    for id in ["a", "b"] {
        let mut actions: Actions<Cfg> = Actions::new();
        actions.insert("x".to_string(), action("X"));
        hooks.insert(id.to_string(), Hook::new(id.to_string(), id.to_string(), actions));
    }
    assert!(hooks.set_config_store(&manager).is_ok());
    assert!(!hooks.get("a").unwrap().actions().get("x").unwrap().is_selected());
    assert!(hooks.get("b").unwrap().actions().get("x").unwrap().is_selected());
}

#[test]
fn selection_without_store_fails_but_flips() {
    let mut actions: Actions<Cfg> = Actions::new();
    actions.insert("x".to_string(), action("X"));
    let mut hook = Hook::new("h".to_string(), "H".to_string(), actions);
    assert!(hook.set_action_selected(0, true).is_err());
    assert!(hook.actions().value_at(0).is_selected());
}

#[test]
fn selection_is_persisted() {
    let manager = GitConfigManagerImpl::from_config(MemoryConfig::new());
    let mut actions: Actions<Cfg> = Actions::new();
    actions.insert("x".to_string(), action("X"));
    let mut hook = Hook::new("h".to_string(), "H".to_string(), actions);
    hook.set_config_store(&manager).unwrap();
    assert!(hook.set_action_selected(0, true).is_ok());
    assert!(hook.actions().value_at(0).is_selected());
}

#[test]
fn named_map_keeps_order_and_replaces() {
    let mut m: githooks::named::NamedMap<i32> = githooks::named::NamedMap::new();
    m.insert("b".to_string(), 1);
    m.insert("a".to_string(), 2);
    m.insert("b".to_string(), 3);
    assert_eq!(m.len(), 2);
    assert_eq!(m.name_at(0), "b");
    assert_eq!(*m.value_at(0), 3);
    assert_eq!(m.name_at(1), "a");
    assert_eq!(m.get("a"), Some(&2));
    assert!(m.contains_key("b"));
    assert!(!m.contains_key("c"));
    let m2 = githooks::named::NamedMap::from_pairs(vec![
        ("x".to_string(), 1),
        ("y".to_string(), 2),
        ("x".to_string(), 5),
    ]);
    assert_eq!(m2.len(), 2);
    assert_eq!(m2.get("x"), Some(&5));
    assert_eq!(m2.name_at(0), "x");
}
