//! Store and restore Unix file permissions across git operations.
pub mod config;
pub mod error;
pub mod git;
pub mod hooks;
pub mod path;
pub mod perms;
pub mod text;
pub mod laws;
