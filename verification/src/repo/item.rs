//! Items that a commit touches.

use vstd::prelude::*;

verus! {

/// A changed entry of the repository, by kind, with its path.
#[derive(Debug, Clone, PartialEq, Eq)]
pub enum Item {
    File(String),
    Commit(String),
    Link(String),
    Dir(String),
    Unknown(String),
}

} // verus!
