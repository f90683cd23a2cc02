use githooks::hooks::hook::{Actions, Hook};
use githooks::hooks::hooks::Hooks;
use githooks::hooks::shell_action::ShellAction;
use githooks::repo::{ConfigTrait, GitConfigImpl, GitConfigManagerImpl, MemoryConfig};
use githooks::hooks::hooks::HooksExt;
use githooks::ui::HooksTreeView;

type Cfg = GitConfigImpl<MemoryConfig>;

fn action(name: &str) -> ShellAction<Cfg> {
    ShellAction::new(
        name.to_string(),
        0,
        ".*",
        vec!["true".to_string()],
        "perCommit".to_string(),
    )
    .unwrap()
}

fn create_mock_hooks() -> Hooks<Cfg> {
    let mut actions1: Actions<Cfg> = Actions::new();
    actions1.insert("action1".into(), action("Action 1"));

    let mut actions2: Actions<Cfg> = Actions::new();
    actions2.insert("action2".into(), action("Action 2"));

    let hook1 = Hook::new("1".into(), "Hook 1".into(), actions1);
    let hook2 = Hook::new("2".into(), "Hook 2".into(), actions2);

    let mut hooks: Hooks<Cfg> = Hooks::new();

    hooks.insert(hook1.id().into(), hook1);
    hooks.insert(hook2.id().into(), hook2);

    hooks
}

#[test]
fn test_new() {
    let hooks = create_mock_hooks();
    let tree_view = HooksTreeView::new(hooks);

    assert_eq!(tree_view.selected(), 0);
    assert_eq!(tree_view.len(), 6); // 2 spaces, 2 categories, 2 actions
}

#[test]
fn test_select_next_item() {
    let hooks = create_mock_hooks();
    let mut tree_view = HooksTreeView::new(hooks);

    tree_view.select_next_item();
    assert_eq!(tree_view.selected(), 1);

    tree_view.select_next_item();
    assert_eq!(tree_view.selected(), 2);
}

#[test]
fn test_select_prev_item() {
    let hooks = create_mock_hooks();
    let mut tree_view = HooksTreeView::new(hooks);

    tree_view.select_item(3);
    tree_view.select_prev_item();
    assert_eq!(tree_view.selected(), 2);

    tree_view.select_prev_item();
    assert_eq!(tree_view.selected(), 1); // Should not go below 1
}

#[test]
fn labels_show_categories_and_sorted_actions() {
    let mut actions: Actions<Cfg> = Actions::new();
    actions.insert("z".into(), action("Zulu"));
    actions.insert("a".into(), action("Alpha"));
    actions.insert("m".into(), action("Mike"));
    let mut hooks: Hooks<Cfg> = Hooks::new();
    hooks.insert("pre-commit".into(), Hook::new("pre-commit".into(), "Before commit".into(), actions));
    let view = HooksTreeView::new(hooks);
    assert_eq!(view.len(), 5);
    assert_eq!(view.label(0), " ");
    assert_eq!(view.label(1), "pre-commit - Before commit");
    assert_eq!(view.label(2), "    [ ] Alpha");
    assert_eq!(view.label(3), "    [ ] Mike");
    assert_eq!(view.label(4), "    [ ] Zulu");
}

#[test]
fn next_then_prev_returns() {
    let mut view = HooksTreeView::new(create_mock_hooks());
    view.select_item(2);
    view.select_next_item();
    assert_eq!(view.selected(), 4);
    view.select_prev_item();
    assert_eq!(view.selected(), 2);
}

#[test]
fn cursor_stays_at_the_ends() {
    let mut view = HooksTreeView::new(create_mock_hooks());
    view.select_item(5);
    view.select_next_item();
    assert_eq!(view.selected(), 5);
    view.select_item(1);
    view.select_prev_item();
    assert_eq!(view.selected(), 1);
}

#[test]
fn toggle_marks_action() {
    let mut hooks = create_mock_hooks();
    let manager = GitConfigManagerImpl::from_config(MemoryConfig::new());
    hooks.set_config_store(&manager).unwrap();
    let mut view = HooksTreeView::new(hooks);
    view.select_item(2);
    assert!(view.toggle_selected().is_ok());
    // The command was never looked up, so the action is not available.
    assert_eq!(view.label(2), "    [\u{2718}] Action 1");
    assert!(view.toggle_selected().is_ok());
    assert_eq!(view.label(2), "    [ ] Action 1");
}

#[test]
fn toggle_without_store_keeps_label() {
    let mut view = HooksTreeView::new(create_mock_hooks());
    view.select_item(2);
    assert!(view.toggle_selected().is_err());
    assert_eq!(view.label(2), "    [ ] Action 1");
}

#[test]
fn toggle_on_category_does_nothing() {
    let mut store = MemoryConfig::new();
    store.set_key("1.action1.enabled", "true").unwrap();
    let mut hooks = create_mock_hooks();
    hooks.set_config_store(&GitConfigManagerImpl::from_config(store)).unwrap();
    let mut view = HooksTreeView::new(hooks);
    assert_eq!(view.label(2), "    [\u{2718}] Action 1");
    view.select_item(1);
    assert!(view.toggle_selected().is_ok());
    assert_eq!(view.label(2), "    [\u{2718}] Action 1");
}
