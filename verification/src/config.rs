//! The choices of the command line that the library knows of.
use vstd::prelude::*;

verus! {

/// What to do with the git hooks.
#[derive(Debug, Clone, Copy, PartialEq, Eq, Structural)]
pub enum HookSubcommand {
    /// Install git hooks (post-checkout, post-merge, post-rewrite, pre-commit)
    Install,
    /// Remove git hooks installed by git-perms
    Uninstall,
}

} // verus!
