//! What git reports, turned into the values the tool works with: the
//! repository root, the tracked files, the pre-commit mode, the hooks
//! directory.
use vstd::prelude::*;

use crate::error::Error;
use crate::perms::{entry_views, sort_by_path, sort_entries, EntryView, PermsEntry};
use crate::text::{
    chars_of, copy_range, lines_of, range_equals, string_from_chars, string_views, text_lines, trim_bounds, trimmed,
    views,
};

verus! {

/// Mode for the pre-commit hook behavior.
#[derive(Debug, Clone, Copy, PartialEq, Eq, Structural)]
pub enum PreCommitMode {
    Auto,
    Warn,
    Block,
}

impl Default for PreCommitMode {
    fn default() -> (m: PreCommitMode)
        ensures
            m == PreCommitMode::Auto,
    {
        PreCommitMode::Auto
    }
}

/// The mode named by `s`: `warn` or `block` once surrounding white space is
/// trimmed, anything else is `auto`.
pub open spec fn pre_commit_mode_of(s: Seq<char>) -> PreCommitMode {
    let t = trimmed(s);
    if t == "warn"@ {
        PreCommitMode::Warn
    } else if t == "block"@ {
        PreCommitMode::Block
    } else {
        PreCommitMode::Auto
    }
}

/// Reads a pre-commit mode: `warn` and `block` (with any surrounding white
/// space) name those modes, anything else is `auto`.
pub fn parse_pre_commit_mode(s: &str) -> (m: PreCommitMode)
    ensures
        m == pre_commit_mode_of(s@),
{
    let cs = chars_of(s);
    let (a, b) = trim_bounds(cs.as_slice());
    if range_equals(cs.as_slice(), a, b, "warn") {
        PreCommitMode::Warn
    } else if range_equals(cs.as_slice(), a, b, "block") {
        PreCommitMode::Block
    } else {
        PreCommitMode::Auto
    }
}

impl std::str::FromStr for PreCommitMode {
    type Err = std::convert::Infallible;

    fn from_str(s: &str) -> (r: Result<PreCommitMode, std::convert::Infallible>)
        ensures
            r == Ok::<PreCommitMode, std::convert::Infallible>(pre_commit_mode_of(s@)),
    {
        Ok(parse_pre_commit_mode(s))
    }
}

/// `s` without its white space at either end, as a `String`.
pub fn trim_to_string(s: &str) -> (t: String)
    ensures
        t@ == trimmed(s@),
{
    let cs = chars_of(s);
    let (a, b) = trim_bounds(cs.as_slice());
    let part = copy_range(cs.as_slice(), a, b);
    string_from_chars(part.as_slice())
}

/// The repository root that `git rev-parse --show-toplevel` reports: its
/// output, trimmed, when it succeeded; not a repository when it failed.
pub fn repo_root_from_output(success: bool, stdout: &str) -> (r: Result<String, Error>)
    ensures
        success ==> (r matches Ok(root) && root@ == trimmed(stdout@)),
        !success ==> (r matches Err(Error::NotAGitRepo)),
{
    if !success {
        return Err(Error::NotAGitRepo);
    }
    Ok(trim_to_string(stdout))
}

/// The lines that are not empty, in order.
pub open spec fn nonempty_lines(ls: Seq<Seq<char>>) -> Seq<Seq<char>>
    decreases ls.len(),
{
    if ls.len() == 0 {
        Seq::empty()
    } else {
        let rest = nonempty_lines(ls.drop_last());
        if ls.last().len() > 0 {
            rest.push(ls.last())
        } else {
            rest
        }
    }
}

/// The stable sort of the paths `ps` by the path order.
pub open spec fn sort_paths(ps: Seq<Seq<char>>) -> Seq<Seq<char>> {
    sort_entries(ps.map_values(|p: Seq<char>| (p, 0u32))).map_values(|e: EntryView| e.0)
}

/// The tracked files that `git ls-files` reports: its non-empty output lines,
/// sorted by path, when it succeeded; its error output when it failed.
pub fn tracked_files_from_output(success: bool, stdout: &str, stderr: &str) -> (r: Result<
    Vec<String>,
    Error,
>)
    ensures
        success ==> (r matches Ok(files) && string_views(files@) == sort_paths(
            nonempty_lines(text_lines(stdout@)),
        )),
        !success ==> (r matches Err(Error::GitCommandFailed(msg)) && msg@ == stderr@),
{
    if !success {
        return Err(Error::GitCommandFailed(stderr.to_owned()));
    }
    let cs = chars_of(stdout);
    let lines = lines_of(cs.as_slice());
    let ghost ls = views(lines@);
    let mut entries: Vec<PermsEntry> = Vec::new();
    let mut i: usize = 0;
    proof {
        assert(ls.take(0) =~= Seq::<Seq<char>>::empty());
        assert(entry_views(entries@) =~= Seq::<EntryView>::empty());
        assert(nonempty_lines(Seq::<Seq<char>>::empty()).map_values(|p: Seq<char>| (p, 0u32))
            =~= Seq::<EntryView>::empty());
    }
    while i < lines.len()
        invariant
            ls == views(lines@),
            i <= lines.len(),
            entry_views(entries@) == nonempty_lines(ls.take(i as int)).map_values(
                |p: Seq<char>| (p, 0u32),
            ),
        decreases lines.len() - i,
    {
        proof {
            assert(ls.take(i + 1).drop_last() =~= ls.take(i as int));
            assert(ls.take(i + 1).last() == lines@[i as int]@);
        }
        if lines[i].len() > 0 {
            let ghost prev = entry_views(entries@);
            entries.push(PermsEntry { path: string_from_chars(lines[i].as_slice()), mode: 0 });
            proof {
                assert(entry_views(entries@) =~= prev.push((lines@[i as int]@, 0u32)));
                assert(nonempty_lines(ls.take(i + 1)) == nonempty_lines(ls.take(i as int)).push(
                    lines@[i as int]@,
                ));
                assert(nonempty_lines(ls.take(i + 1)).map_values(|p: Seq<char>| (p, 0u32))
                    =~= nonempty_lines(ls.take(i as int)).map_values(|p: Seq<char>| (p, 0u32)).push(
                    (lines@[i as int]@, 0u32),
                ));
            }
        }
        i = i + 1;
    }
    proof {
        assert(ls.take(i as int) =~= ls);
    }
    let sorted = sort_by_path(&entries);
    let ghost sv = entry_views(sorted@);
    let mut files: Vec<String> = Vec::new();
    let mut k: usize = 0;
    while k < sorted.len()
        invariant
            sv == entry_views(sorted@),
            k <= sorted.len(),
            string_views(files@) == sv.take(k as int).map_values(|e: EntryView| e.0),
        decreases sorted.len() - k,
    {
        let ghost prev = string_views(files@);
        files.push(sorted[k].path.clone());
        assert(sv[k as int].0 == sorted@[k as int].path@);
        assert(string_views(files@) =~= prev.push(sv[k as int].0));
        k = k + 1;
        assert(string_views(files@) =~= sv.take(k as int).map_values(|e: EntryView| e.0));
    }
    assert(sv.take(k as int) =~= sv);
    Ok(files)
}

/// The pre-commit mode that `git config --get perms.preCommit` reports: the
/// mode its trimmed output names when it succeeded, `auto` otherwise.
pub fn pre_commit_mode_from_output(success: bool, stdout: &str) -> (m: PreCommitMode)
    ensures
        m == if success {
            pre_commit_mode_of(trimmed(stdout@))
        } else {
            PreCommitMode::Auto
        },
{
    if success {
        let value = trim_to_string(stdout);
        parse_pre_commit_mode(value.as_str())
    } else {
        PreCommitMode::Auto
    }
}

/// The outcome of `git add`: done when it succeeded, its error output when
/// it failed.
pub fn stage_result(success: bool, stderr: &str) -> (r: Result<(), Error>)
    ensures
        success ==> r is Ok,
        !success ==> (r matches Err(Error::GitCommandFailed(msg)) && msg@ == stderr@),
{
    if success {
        Ok(())
    } else {
        Err(Error::GitCommandFailed(stderr.to_owned()))
    }
}

/// `base` joined with the relative path `hooks` (`Path::join`): a separator
/// is put between them unless `base` is empty or already ends with one.
pub open spec fn hooks_under(base: Seq<char>) -> Seq<char> {
    if base.len() == 0 {
        "hooks"@
    } else if base.last() == '/' {
        base + "hooks"@
    } else {
        base + "/hooks"@
    }
}

/// The hooks directory under the git directory that `git rev-parse
/// --git-dir` reports, when it succeeded; not a repository when it failed.
pub fn hook_dir_from_output(success: bool, stdout: &str) -> (r: Result<String, Error>)
    ensures
        success ==> (r matches Ok(dir) && dir@ == hooks_under(trimmed(stdout@))),
        !success ==> (r matches Err(Error::NotAGitRepo)),
{
    if !success {
        return Err(Error::NotAGitRepo);
    }
    let cs = chars_of(stdout);
    let (a, b) = trim_bounds(cs.as_slice());
    let mut dir = string_from_chars(copy_range(cs.as_slice(), a, b).as_slice());
    if a == b {
        return Ok("hooks".to_owned());
    }
    if cs[b - 1] == '/' {
        dir.append("hooks");
    } else {
        dir.append("/hooks");
    }
    proof {
        assert(cs@.subrange(a as int, b as int).last() == cs@[b - 1]);
    }
    Ok(dir)
}

} // verus!
