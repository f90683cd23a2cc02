use githooks::repo::{ConfigTrait, GitConfig, GitConfigManager, GitConfigManagerImpl, MemoryConfig};

fn store_with(key: &str, value: &str) -> MemoryConfig {
    let mut store = MemoryConfig::new();
    store.set_key(key, value).unwrap();
    store
}

#[test]
fn test_get_or_default() {
    let config_manager = GitConfigManagerImpl::from_config(store_with("test.hook.key", "value"));
    let git_config = config_manager.get_config_for("test", "hook");

    assert_eq!(git_config.get_or_default("key", "default"), "value");
}

#[test]
fn test_get_or_default_with_default() {
    let config_manager = GitConfigManagerImpl::from_config(MemoryConfig::new());
    let git_config = config_manager.get_config_for("test", "hook");

    assert_eq!(git_config.get_or_default("key", "default"), "default");
}

#[test]
fn test_set() {
    let config_manager = GitConfigManagerImpl::from_config(MemoryConfig::new());
    let mut git_config = config_manager.get_config_for("test", "hook");

    assert!(git_config.set("key", "value").is_ok());
    assert_eq!(git_config.get_or_default("key", "default"), "value");
}

#[test]
fn test_remove_existing() {
    let config_manager = GitConfigManagerImpl::from_config(store_with("test.hook.key", "value"));
    let mut git_config = config_manager.get_config_for("test", "hook");

    assert!(git_config.remove("key").is_ok());
    assert_eq!(git_config.get_or_default("key", "default"), "default");
}

#[test]
fn test_remove_non_existing() {
    let config_manager = GitConfigManagerImpl::from_config(MemoryConfig::new());
    let mut git_config = config_manager.get_config_for("test", "hook");

    assert!(git_config.remove("key").is_ok());
    // Nothing reached the store.
    assert!(git_config.config_store().journal().is_empty());
    assert!(!git_config.config_store().has_key("test.hook.key"));
}

#[test]
fn sections_do_not_mix() {
    let config_manager = GitConfigManagerImpl::from_config(store_with("cat.a.key", "value"));
    let other = config_manager.get_config_for("cat", "b");
    assert_eq!(other.get_or_default("key", "none"), "none");
    let same = config_manager.get_config_for("cat", "a");
    assert_eq!(same.get_or_default("key", "none"), "value");
}

#[test]
fn memory_store_reads_back_writes() {
    let mut store = MemoryConfig::new();
    assert!(!store.has_key("a.b.c"));
    assert!(store.get_key("a.b.c").is_err());
    store.set_key("a.b.c", "1").unwrap();
    store.set_key("a.b.c", "2").unwrap();
    assert_eq!(store.get_key("a.b.c").unwrap(), "2");
    store.remove_key("a.b.c").unwrap();
    assert!(!store.has_key("a.b.c"));
    assert!(store.remove_key("a.b.c").is_err());
}
