//! Git hook manager: configurable hook actions, commit message tooling and an
//! Android resource formatter, with their logic specified and verified.

pub mod assoc;
pub mod cli;
pub mod error;
pub mod hooks;
pub mod named;
pub mod path;
pub mod pattern;
pub mod repo;
pub mod text;
pub mod ui;
pub mod xml;
