//! The git hooks that git-perms installs, and when it may write or remove one.
use vstd::prelude::*;

use crate::error::Error;
use crate::text::contains_text;
use crate::text::contains_str;

verus! {

/// The line that marks a hook as installed by git-perms.
pub const MARKER: &'static str = "# Installed by git-perms";

/// The hook run after checkout, merge and rewrite: restores permissions.
pub const RESTORE_HOOK: &'static str = "#!/usr/bin/env sh
# Installed by git-perms
if command -v git-perms >/dev/null 2>&1; then
    git-perms restore
fi
";

/// The hook run before a commit: saves, warns or blocks, as
/// `perms.preCommit` says.
pub const PRE_COMMIT_HOOK: &'static str = "#!/usr/bin/env sh
# Installed by git-perms
if command -v git-perms >/dev/null 2>&1; then
    MODE=$(git config --get perms.preCommit || echo \"auto\")
    case \"$MODE\" in
        auto)
            git-perms save
            git add .gitperms
            ;;
        warn)
            if ! git-perms diff --quiet 2>/dev/null; then
                echo \"git-perms: permissions differ from .gitperms (run 'git perms save')\"
            fi
            ;;
        block)
            if ! git-perms diff --quiet 2>/dev/null; then
                echo \"git-perms: permissions differ from .gitperms (run 'git perms save')\" >&2
                exit 1
            fi
            ;;
    esac
fi
";

/// The number of hooks that git-perms installs.
pub const HOOK_COUNT: usize = 4;

/// The name of the hook at `index`.
pub open spec fn hook_name_of(index: int) -> Seq<char> {
    if index == 0 {
        "post-checkout"@
    } else if index == 1 {
        "post-merge"@
    } else if index == 2 {
        "post-rewrite"@
    } else {
        "pre-commit"@
    }
}

/// The name of the hook at `index`: `post-checkout`, `post-merge`,
/// `post-rewrite`, `pre-commit`.
pub fn hook_name(index: usize) -> (name: &'static str)
    requires
        index < HOOK_COUNT,
    ensures
        name@ == hook_name_of(index as int),
{
    if index == 0 {
        "post-checkout"
    } else if index == 1 {
        "post-merge"
    } else if index == 2 {
        "post-rewrite"
    } else {
        "pre-commit"
    }
}

/// The script of the hook at `index`.
pub open spec fn hook_script_of(index: int) -> Seq<char> {
    if index == 3 {
        PRE_COMMIT_HOOK@
    } else {
        RESTORE_HOOK@
    }
}

/// The script of the hook at `index`: the pre-commit hook for `pre-commit`,
/// the restore hook for the others. Every script carries the marker line, so
/// a hook that git-perms wrote is recognised as its own.
pub fn hook_script(index: usize) -> (script: &'static str)
    requires
        index < HOOK_COUNT,
    ensures
        script@ == hook_script_of(index as int),
        contains_text(script@, MARKER@),
{
    proof {
        lemma_scripts_carry_marker();
    }
    if index == 3 {
        PRE_COMMIT_HOOK
    } else {
        RESTORE_HOOK
    }
}

/// Every hook script carries the marker line, just after its first line.
pub proof fn lemma_scripts_carry_marker()
    ensures
        contains_text(RESTORE_HOOK@, MARKER@),
        contains_text(PRE_COMMIT_HOOK@, MARKER@),
{
    reveal_strlit("# Installed by git-perms");
    reveal_strlit("#!/usr/bin/env sh
# Installed by git-perms
if command -v git-perms >/dev/null 2>&1; then
    git-perms restore
fi
");
    reveal_strlit("#!/usr/bin/env sh
# Installed by git-perms
if command -v git-perms >/dev/null 2>&1; then
    MODE=$(git config --get perms.preCommit || echo \"auto\")
    case \"$MODE\" in
        auto)
            git-perms save
            git add .gitperms
            ;;
        warn)
            if ! git-perms diff --quiet 2>/dev/null; then
                echo \"git-perms: permissions differ from .gitperms (run 'git perms save')\"
            fi
            ;;
        block)
            if ! git-perms diff --quiet 2>/dev/null; then
                echo \"git-perms: permissions differ from .gitperms (run 'git perms save')\" >&2
                exit 1
            fi
            ;;
    esac
fi
");
    assert(RESTORE_HOOK@.subrange(18int, 18int + MARKER@.len()) =~= MARKER@);
    assert(PRE_COMMIT_HOOK@.subrange(18int, 18int + MARKER@.len()) =~= MARKER@);
}

/// The views of a sequence of names.
pub open spec fn name_views(v: Seq<&'static str>) -> Seq<Seq<char>> {
    Seq::new(v.len(), |i: int| v[i]@)
}

/// Result of installing hooks.
pub struct InstallResult {
    pub installed: Vec<&'static str>,
}

/// Result of uninstalling hooks.
pub struct UninstallResult {
    pub removed: Vec<&'static str>,
    pub skipped: Vec<&'static str>,
}

/// Whether a hook file with the text `content` was installed by git-perms:
/// it holds the marker line.
pub fn installed_by_git_perms(content: &str) -> (r: bool)
    ensures
        r == contains_text(content@, MARKER@),
{
    contains_str(content, MARKER)
}

/// One step of installing: the hook at `index`, whose file holds `existing`
/// (`None` when there is no such file).
///
/// When there is no file, or one that git-perms installed, the caller writes
/// the hook's script there (executable) and the hook is recorded as
/// installed. A file that git-perms did not install is never overwritten:
/// the error names the hook and nothing is recorded.
pub fn install_step(result: &mut InstallResult, index: usize, existing: Option<&str>) -> (r: Result<
    (),
    Error,
>)
    requires
        index < HOOK_COUNT,
    ensures
        match existing {
            Some(content) if !contains_text(content@, MARKER@) => {
                &&& r matches Err(Error::HookExists(name)) && name@ == hook_name_of(index as int)
                &&& name_views(final(result).installed@) == name_views(old(result).installed@)
            },
            _ => {
                &&& r is Ok
                &&& name_views(final(result).installed@) == name_views(old(result).installed@).push(
                    hook_name_of(index as int),
                )
            },
        },
{
    let name = hook_name(index);
    if let Some(content) = existing {
        if !installed_by_git_perms(content) {
            return Err(Error::HookExists(name.to_owned()));
        }
    }
    let ghost prev = name_views(result.installed@);
    result.installed.push(name);
    assert(name_views(result.installed@) =~= prev.push(hook_name_of(index as int)));
    Ok(())
}

/// One step of uninstalling: the hook at `index`, whose file holds
/// `existing` (`None` when there is no such file).
///
/// Returns whether the caller removes the file: only a hook that git-perms
/// installed is removed (and recorded as removed); a foreign one is recorded
/// as skipped; a missing one is not recorded.
pub fn uninstall_step(result: &mut UninstallResult, index: usize, existing: Option<&str>) -> (remove: bool)
    requires
        index < HOOK_COUNT,
    ensures
        match existing {
            None => {
                &&& !remove
                &&& name_views(final(result).removed@) == name_views(old(result).removed@)
                &&& name_views(final(result).skipped@) == name_views(old(result).skipped@)
            },
            Some(content) => if contains_text(content@, MARKER@) {
                &&& remove
                &&& name_views(final(result).removed@) == name_views(old(result).removed@).push(
                    hook_name_of(index as int),
                )
                &&& name_views(final(result).skipped@) == name_views(old(result).skipped@)
            } else {
                &&& !remove
                &&& name_views(final(result).removed@) == name_views(old(result).removed@)
                &&& name_views(final(result).skipped@) == name_views(old(result).skipped@).push(
                    hook_name_of(index as int),
                )
            },
        },
{
    let name = hook_name(index);
    match existing {
        None => false,
        Some(content) => {
            if installed_by_git_perms(content) {
                let ghost prev = name_views(result.removed@);
                result.removed.push(name);
                assert(name_views(result.removed@) =~= prev.push(hook_name_of(index as int)));
                true
            } else {
                let ghost prev = name_views(result.skipped@);
                result.skipped.push(name);
                assert(name_views(result.skipped@) =~= prev.push(hook_name_of(index as int)));
                false
            }
        },
    }
}

/// Installing again, and uninstalling, after an install: a hook file that
/// holds the script git-perms wrote there is recognised as installed by
/// git-perms, so `install_step` on it succeeds (and the same script is
/// written again) and `uninstall_step` removes it.
pub proof fn law_installed_hooks_are_recognised(index: int)
    requires
        0 <= index < HOOK_COUNT,
    ensures
        contains_text(hook_script_of(index), MARKER@),
{
    lemma_scripts_carry_marker();
}

/// Only the pre-commit hook saves: the hook named `pre-commit` runs the
/// pre-commit script, and every other hook (post-checkout, post-merge,
/// post-rewrite) runs the restore script, which is a different script.
pub proof fn law_only_pre_commit_saves(index: int)
    requires
        0 <= index < HOOK_COUNT,
    ensures
        (hook_name_of(index) == "pre-commit"@) == (hook_script_of(index) == PRE_COMMIT_HOOK@),
        hook_name_of(index) != "pre-commit"@ ==> hook_script_of(index) == RESTORE_HOOK@,
        PRE_COMMIT_HOOK@ != RESTORE_HOOK@,
{
    reveal_strlit("post-checkout");
    reveal_strlit("post-merge");
    reveal_strlit("post-rewrite");
    reveal_strlit("pre-commit");
    reveal_strlit("#!/usr/bin/env sh
# Installed by git-perms
if command -v git-perms >/dev/null 2>&1; then
    git-perms restore
fi
");
    reveal_strlit("#!/usr/bin/env sh
# Installed by git-perms
if command -v git-perms >/dev/null 2>&1; then
    MODE=$(git config --get perms.preCommit || echo \"auto\")
    case \"$MODE\" in
        auto)
            git-perms save
            git add .gitperms
            ;;
        warn)
            if ! git-perms diff --quiet 2>/dev/null; then
                echo \"git-perms: permissions differ from .gitperms (run 'git perms save')\"
            fi
            ;;
        block)
            if ! git-perms diff --quiet 2>/dev/null; then
                echo \"git-perms: permissions differ from .gitperms (run 'git perms save')\" >&2
                exit 1
            fi
            ;;
    esac
fi
");
    assert(PRE_COMMIT_HOOK@.len() != RESTORE_HOOK@.len());
    if index < 3 {
        assert(hook_name_of(index).len() != "pre-commit"@.len() || hook_name_of(index)[1] != "pre-commit"@[1]);
    }
}

} // verus!
