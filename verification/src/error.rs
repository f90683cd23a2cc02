//! Errors reported by the hook library.

use vstd::prelude::*;

verus! {

/// Everything that can go wrong while configuring or running hooks.
#[derive(Debug, Clone, PartialEq, Eq)]
pub enum HookError {
    /// The configuration store failed; the message comes from the store.
    Config(String),
    /// An action was asked to persist its selection without a config store.
    ConfigStoreUnavailable,
    /// A shell action names a run type other than `perFile` or `perCommit`.
    InvalidRunType { run_type: String, action: String },
    /// The changed items include a submodule commit.
    SubmoduleIncluded(String),
    /// A Java file lacks the `@NullMarked` annotation or its import.
    MissingNullMarked(String),
    /// The commit message reflow action was run without a message file.
    MissingMessagePath,
    /// A commit message whose second line is not empty.
    InvalidCommitMessage,
    /// A hook category with an empty identifier.
    InvalidCategoryId,
    /// A hook category (named by its identifier) with an empty name.
    InvalidCategoryName(String),
    /// An action with an empty identifier, in the named category.
    InvalidActionId(String),
    /// An invalid action: category, action identifier and the reason.
    InvalidAction { category: String, action: String, reason: ActionProblem },
    /// No hook with the given name.
    UnknownHook(String),
    /// A resource file that is not well-formed XML.
    InvalidXml,
    /// A resource file with more nodes than its formatting can count.
    XmlTooLarge,
    /// A resource file with a multi-line comment whose lines cannot be
    /// re-indented.
    UnformattableComment,
}

/// Why an action definition is invalid.
#[derive(Debug, Clone, Copy, PartialEq, Eq)]
pub enum ActionProblem {
    /// The action has an empty name.
    NameNotSet,
    /// The action has no shell command.
    ShellCommandNotSet,
}

} // verus!
