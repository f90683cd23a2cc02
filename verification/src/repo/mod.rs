//! The git repository side: configuration store and changed items.

pub mod changes;
pub mod config;
pub mod item;

pub use config::ConfigTrait;
pub use config::GitConfig;
pub use config::GitConfigImpl;
pub use config::GitConfigManager;
pub use config::GitConfigManagerImpl;
pub use config::MemoryConfig;
pub use item::Item;
