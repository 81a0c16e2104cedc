use git_perms::config::HookSubcommand;
use git_perms::error::Error;
use git_perms::git::{
    hook_dir_from_output, pre_commit_mode_from_output, repo_root_from_output, stage_result,
    tracked_files_from_output, PreCommitMode,
};
use git_perms::hooks::{
    hook_name, hook_script, install_step, installed_by_git_perms, uninstall_step, InstallResult,
    UninstallResult, HOOK_COUNT, MARKER, PRE_COMMIT_HOOK, RESTORE_HOOK,
};

fn parse(s: &str) -> PreCommitMode {
    s.parse().unwrap()
}

#[test]
fn test_pre_commit_mode_auto() {
    assert_eq!(parse("auto"), PreCommitMode::Auto);
}

#[test]
fn test_pre_commit_mode_warn() {
    assert_eq!(parse("warn"), PreCommitMode::Warn);
}

#[test]
fn test_pre_commit_mode_block() {
    assert_eq!(parse("block"), PreCommitMode::Block);
}

#[test]
fn test_pre_commit_mode_unknown_defaults_to_auto() {
    assert_eq!(parse("unknown"), PreCommitMode::Auto);
}

#[test]
fn test_pre_commit_mode_empty_defaults_to_auto() {
    assert_eq!(parse(""), PreCommitMode::Auto);
}

#[test]
fn test_pre_commit_mode_with_whitespace() {
    assert_eq!(parse("  warn  "), PreCommitMode::Warn);
}

#[test]
fn pre_commit_mode_trims_unicode_white_space_only() {
    assert_eq!(parse("\u{3000}block\t\n"), PreCommitMode::Block);
    assert_eq!(parse("Warn"), PreCommitMode::Auto);
    assert_eq!(parse("w arn"), PreCommitMode::Auto);
    assert_eq!(PreCommitMode::default(), PreCommitMode::Auto);
}

#[test]
fn pre_commit_mode_from_git_config() {
    assert_eq!(pre_commit_mode_from_output(true, "block\n"), PreCommitMode::Block);
    assert_eq!(pre_commit_mode_from_output(false, "block\n"), PreCommitMode::Auto);
}

#[test]
fn repo_root_is_trimmed_output() {
    assert_eq!(repo_root_from_output(true, " /home/me/repo\n").unwrap(), "/home/me/repo");
    assert!(matches!(repo_root_from_output(false, "x"), Err(Error::NotAGitRepo)));
}

#[test]
fn tracked_files_are_non_empty_lines_sorted_as_paths() {
    let files = tracked_files_from_output(true, "c.txt\nc/d.rs\n\nb\r\na\n", "").unwrap();
    assert_eq!(files, vec!["a", "b", "c/d.rs", "c.txt"]);
    match tracked_files_from_output(false, "", "fatal: no repo") {
        Err(Error::GitCommandFailed(msg)) => assert_eq!(msg, "fatal: no repo"),
        other => panic!("unexpected {other:?}"),
    }
}

#[test]
fn hook_dir_joins_hooks() {
    assert_eq!(hook_dir_from_output(true, ".git\n").unwrap(), ".git/hooks");
    assert_eq!(hook_dir_from_output(true, "/r/.git/\n").unwrap(), "/r/.git/hooks");
    assert_eq!(hook_dir_from_output(true, "  \n").unwrap(), "hooks");
    assert!(matches!(hook_dir_from_output(false, ".git"), Err(Error::NotAGitRepo)));
}

#[test]
fn stage_reports_git_errors() {
    assert!(stage_result(true, "").is_ok());
    match stage_result(false, "bad path") {
        Err(Error::GitCommandFailed(msg)) => assert_eq!(msg, "bad path"),
        other => panic!("unexpected {other:?}"),
    }
}

#[test]
fn hooks_are_the_four_named_scripts() {
    let names: Vec<&str> = (0..HOOK_COUNT).map(hook_name).collect();
    assert_eq!(names, vec!["post-checkout", "post-merge", "post-rewrite", "pre-commit"]);
    assert_eq!(hook_script(0), RESTORE_HOOK);
    assert_eq!(hook_script(3), PRE_COMMIT_HOOK);
    for i in 0..HOOK_COUNT {
        let mut again = InstallResult { installed: Vec::new() };
        assert!(install_step(&mut again, i, Some(hook_script(i))).is_ok());
        let mut gone = UninstallResult { removed: Vec::new(), skipped: Vec::new() };
        assert!(uninstall_step(&mut gone, i, Some(hook_script(i))));
        assert!(installed_by_git_perms(hook_script(i)));
        assert!(hook_script(i).contains(MARKER));
    }
}

#[test]
fn install_never_overwrites_a_foreign_hook() {
    let mut result = InstallResult { installed: Vec::new() };
    assert!(install_step(&mut result, 0, None).is_ok());
    assert!(install_step(&mut result, 1, Some(RESTORE_HOOK)).is_ok());
    match install_step(&mut result, 2, Some("#!/bin/sh\necho custom\n")) {
        Err(Error::HookExists(name)) => assert_eq!(name, "post-rewrite"),
        other => panic!("unexpected {other:?}"),
    }
    assert_eq!(result.installed, vec!["post-checkout", "post-merge"]);
}

#[test]
fn uninstall_removes_only_own_hooks() {
    let mut result = UninstallResult { removed: Vec::new(), skipped: Vec::new() };
    assert!(uninstall_step(&mut result, 0, Some(RESTORE_HOOK)));
    assert!(!uninstall_step(&mut result, 1, None));
    assert!(!uninstall_step(&mut result, 3, Some("#!/bin/sh\n")));
    assert_eq!(result.removed, vec!["post-checkout"]);
    assert_eq!(result.skipped, vec!["pre-commit"]);
}

#[test]
fn hook_subcommands_are_distinct() {
    assert_ne!(HookSubcommand::Install, HookSubcommand::Uninstall);
}
