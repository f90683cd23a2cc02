//! Hook categories and their actions.

pub mod action;
pub mod android_resource_action;
pub mod chrome_null_marked_action;
pub mod commit_message_reflow_action;
pub mod config;
pub mod gerrit;
pub mod hook;
pub mod hooks;
pub mod shell_action;
pub mod shell_utils;
pub mod submodule_action;
pub mod trailer_map;

pub use action::ActionTrait;
pub use action::ActionTraitInternal;
pub use action::RunPlan;
pub use commit_message_reflow_action::CommitMessageReflowAction;
pub use submodule_action::SubmoduleAction;
