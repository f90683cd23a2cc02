use githooks::cli::{choose_command, Command};
use githooks::error::{ActionProblem, HookError};
use githooks::hooks::chrome_null_marked_action::{sources_to_check, NullMarkedScan};
use githooks::hooks::config::{from_v1_config, V1Config, V1HookConfig};
use githooks::hooks::hook::{Actions, Hook};
use githooks::hooks::hooks::Hooks;
use githooks::hooks::shell_action::{items_have_file_names, ShellAction};
use githooks::hooks::shell_utils::{substitute_command_line, Substitution};
use githooks::hooks::{ActionTrait, ActionTraitInternal, RunPlan, SubmoduleAction};
use githooks::repo::changes::{
    changed_items, join_path, tree_item, ChangeStatus, EntryMode, ObjectKind,
};
use githooks::repo::{ConfigTrait, GitConfigImpl, GitConfigManagerImpl, Item, MemoryConfig};

type Cfg = GitConfigImpl<MemoryConfig>;

fn s(x: &str) -> String {
    x.to_string()
}

fn action(name: &str, pattern: &str, cmd: &[&str], run_type: &str) -> ShellAction<Cfg> {
    ShellAction::new(s(name), 0, pattern, cmd.iter().map(|c| s(c)).collect(), s(run_type)).unwrap()
}

fn selected_available(mut a: ShellAction<Cfg>) -> ShellAction<Cfg> {
    let mut store = MemoryConfig::new();
    store.set_key("h.a.enabled", "true").unwrap();
    let manager = GitConfigManagerImpl::from_config(store);
    a.set_config(manager.config_for("h", "a")).unwrap();
    let program = a.configured_command();
    a.set_shell_cmd(Some(format!("/usr/bin/{}", program)));
    a
}

#[test]
fn substitution_replaces_placeholders() {
    let args = vec![s("x"), s("y")];
    let subs = vec![
        (s("<args>"), Substitution::Array(&args)),
        (s("<file>"), Substitution::Scalar(s("f.txt"))),
    ];
    let out = substitute_command_line(&[s("cmd"), s("<file>"), s("<args>"), s("-v")], &subs);
    assert_eq!(out, vec![s("cmd"), s("f.txt"), s("x"), s("y"), s("-v")]);
}

#[test]
fn substitution_later_entry_wins() {
    let subs = vec![
        (s("<a>"), Substitution::Scalar(s("1"))),
        (s("<a>"), Substitution::Scalar(s("2"))),
    ];
    let out = substitute_command_line(&[s("<a>")], &subs);
    assert_eq!(out, vec![s("2")]);
}

#[test]
fn invalid_pattern_is_refused() {
    assert!(ShellAction::<Cfg>::new(s("n"), 0, "(", vec![s("c")], s("perFile")).is_none());
}

#[test]
fn shell_action_runs_per_file() {
    let a = selected_available(action("Lint", r"\.rs$", &["lint", "<file>", "<args>"], "perFile"));
    let items = vec![
        Item::File(s("src/a.rs")),
        Item::File(s("README.md")),
        Item::Dir(s("src")),
        Item::File(s("b.rs")),
    ];
    assert!(items_have_file_names(&items));
    let plan = a.run(&items, &vec![s("--fix")]).unwrap();
    assert_eq!(
        plan,
        RunPlan::Commands(vec![
            vec![s("/usr/bin/lint"), s("src/a.rs"), s("--fix")],
            vec![s("/usr/bin/lint"), s("b.rs"), s("--fix")],
        ])
    );
}

#[test]
fn shell_action_runs_per_commit() {
    let a = selected_available(action("Check", ".*", &["check", "<args>"], "perCommit"));
    let plan = a.run(&[Item::File(s("x"))], &vec![s("a"), s("b")]).unwrap();
    assert_eq!(plan, RunPlan::Commands(vec![vec![s("/usr/bin/check"), s("a"), s("b")]]));
}

#[test]
fn shell_action_rejects_unknown_run_type() {
    let a = selected_available(action("Odd", ".*", &["odd"], "sometimes"));
    let r = a.run(&[Item::File(s("x"))], &vec![]);
    assert_eq!(
        r,
        Err(HookError::InvalidRunType { run_type: s("sometimes"), action: s("Odd") })
    );
}

#[test]
fn unselected_shell_action_does_nothing() {
    let a = action("Lint", ".*", &["lint"], "perFile");
    assert_eq!(a.run(&[Item::File(s("x"))], &vec![]).unwrap(), RunPlan::Nothing);
}

#[test]
fn configured_command_comes_from_store() {
    let mut store = MemoryConfig::new();
    store.set_key("h.a.cmd", "other-lint").unwrap();
    let manager = GitConfigManagerImpl::from_config(store);
    let mut a = action("Lint", ".*", &["lint"], "perFile");
    a.set_config(manager.config_for("h", "a")).unwrap();
    assert_eq!(a.configured_command(), "other-lint");
    assert!(!a.is_available());
    a.set_shell_cmd(None);
    assert!(!a.is_available());
}

#[test]
fn check_valid_reports_problems() {
    let no_name = action("", ".*", &["c"], "perFile");
    assert!(matches!(
        no_name.check_valid(),
        Err(HookError::InvalidAction { reason: ActionProblem::NameNotSet, .. })
    ));
    let no_cmd = action("n", ".*", &[], "perFile");
    assert!(matches!(
        no_cmd.check_valid(),
        Err(HookError::InvalidAction { reason: ActionProblem::ShellCommandNotSet, .. })
    ));
}

fn category(name: &str, actions: Vec<(String, ShellAction<Cfg>)>) -> V1HookConfig<Cfg> {
    V1HookConfig { name: s(name), actions }
}

#[test]
fn v1_config_builds_hooks() {
    let cfg = V1Config {
        hooks: vec![
            (s("pre-commit"), category("Before", vec![(s("lint"), action("Lint", ".*", &["l"], "perFile"))])),
            (s("commit-msg"), category("Message", vec![])),
        ],
    };
    let hooks = from_v1_config(cfg).unwrap();
    assert_eq!(hooks.len(), 2);
    let h = hooks.get("pre-commit").unwrap();
    assert_eq!(h.id(), "pre-commit");
    assert_eq!(h.name(), "Before");
    assert!(h.actions().contains_key("lint"));
}

#[test]
fn v1_config_errors() {
    let empty_id = V1Config { hooks: vec![(s(""), category("X", vec![]))] };
    assert_eq!(from_v1_config(empty_id).err(), Some(HookError::InvalidCategoryId));

    let empty_name = V1Config { hooks: vec![(s("c"), category("", vec![]))] };
    assert_eq!(from_v1_config(empty_name).err(), Some(HookError::InvalidCategoryName(s("c"))));

    let empty_action_id = V1Config {
        hooks: vec![(s("c"), category("C", vec![(s(""), action("A", ".*", &["a"], "perFile"))]))],
    };
    assert_eq!(from_v1_config(empty_action_id).err(), Some(HookError::InvalidActionId(s("c"))));

    let bad_action = V1Config {
        hooks: vec![(s("c"), category("C", vec![(s("a"), action("A", ".*", &[], "perFile"))]))],
    };
    assert_eq!(
        from_v1_config(bad_action).err(),
        Some(HookError::InvalidAction {
            category: s("c"),
            action: s("a"),
            reason: ActionProblem::ShellCommandNotSet
        })
    );
}

fn hooks_named(names: &[&str]) -> Hooks<Cfg> {
    let mut hooks: Hooks<Cfg> = Hooks::new();
    for n in names {
        let actions: Actions<Cfg> = Actions::new();
        hooks.insert(s(n), Hook::new(s(n), s(n), actions));
    }
    hooks
}

#[test]
fn command_line_dispatch() {
    let hooks = hooks_named(&["pre-commit"]);
    match choose_command(&vec![s("/repo/.git/hooks/pre-commit"), s("a")], &hooks).unwrap() {
        Command::RunHook { hook, args } => {
            assert_eq!(hook, "pre-commit");
            assert_eq!(args, vec![s("a")]);
        }
        _ => panic!("expected a hook run"),
    }
    assert!(matches!(choose_command(&vec![s("/bin/githooks")], &hooks), Ok(Command::ShowConfig)));
    match choose_command(&vec![s("githooks"), s("pre-commit"), s("x"), s("y")], &hooks).unwrap() {
        Command::RunHook { hook, args } => {
            assert_eq!(hook, "pre-commit");
            assert_eq!(args, vec![s("x"), s("y")]);
        }
        _ => panic!("expected a hook run"),
    }
    assert!(matches!(
        choose_command(&vec![s("githooks"), s("install")], &hooks),
        Ok(Command::Install)
    ));
    assert_eq!(
        choose_command(&vec![s("githooks"), s("bogus")], &hooks).err(),
        Some(HookError::UnknownHook(s("bogus")))
    );
}

#[test]
fn changes_seen_by_hooks() {
    let items = changed_items(vec![
        (ChangeStatus::Added, EntryMode::Blob, s("a")),
        (ChangeStatus::Deleted, EntryMode::Blob, s("b")),
        (ChangeStatus::Modified, EntryMode::Commit, s("sub")),
        (ChangeStatus::Renamed, EntryMode::Blob, s("c")),
        (ChangeStatus::Modified, EntryMode::Link, s("l")),
        (ChangeStatus::Added, EntryMode::Tree, s("d")),
        (ChangeStatus::Added, EntryMode::Unreadable, s("u")),
        (ChangeStatus::Added, EntryMode::BlobExecutable, s("x")),
    ]);
    assert_eq!(
        items,
        vec![
            Item::File(s("a")),
            Item::Commit(s("sub")),
            Item::Link(s("l")),
            Item::Dir(s("d")),
            Item::Unknown(s("u")),
            Item::File(s("x")),
        ]
    );
}

#[test]
fn tree_entries_become_items() {
    assert_eq!(join_path("", "a"), "a");
    assert_eq!(join_path("dir/", "a"), "dir/a");
    assert_eq!(join_path("dir", "a"), "dir/a");
    assert_eq!(join_path("dir", "/abs"), "/abs");
    assert_eq!(tree_item("src/", "lib.rs", ObjectKind::Blob), Item::File(s("src/lib.rs")));
    assert_eq!(tree_item("", "v", ObjectKind::Tag), Item::Commit(s("v")));
    assert_eq!(tree_item("", "x", ObjectKind::Any), Item::Unknown(s("x")));
}

#[test]
fn submodule_commit_is_refused_when_enabled() {
    let mut store = MemoryConfig::new();
    store.set_key("h.sub.enabled", "true").unwrap();
    let manager = GitConfigManagerImpl::from_config(store);
    let mut a: SubmoduleAction<Cfg> = SubmoduleAction::new();
    let items = vec![Item::File(s("a")), Item::Commit(s("third_party/x"))];
    assert_eq!(a.run(&items, &vec![]).unwrap(), RunPlan::Nothing);
    a.set_config(manager.config_for("h", "sub")).unwrap();
    assert_eq!(a.run(&items, &vec![]), Err(HookError::SubmoduleIncluded(s("third_party/x"))));
}

#[test]
fn null_marked_scan() {
    let items = vec![
        Item::File(s("a/Foo.java")),
        Item::File(s("a/FooTest.java")),
        Item::File(s("a/foo.kt")),
        Item::Dir(s("a/Bar.java")),
    ];
    assert_eq!(sources_to_check(&items), vec![s("a/Foo.java")]);

    let mut scan = NullMarkedScan::new();
    scan.observe("package a;");
    scan.observe("import org.chromium.build.annotations.NullMarked;");
    assert!(!scan.is_complete());
    assert_eq!(scan.verdict("a/Foo.java"), Err(HookError::MissingNullMarked(s("a/Foo.java"))));
    scan.observe("  @NullMarked");
    assert!(scan.is_complete());
    assert_eq!(scan.verdict("a/Foo.java"), Ok(()));
}
