use git_perms::error::Error;
use git_perms::path::{compare_paths, Order};
use git_perms::perms::{
    apply, diff, diff_line, diff_report, parse, scan, serialize, DiffEntry, PermsEntry,
};

fn entry(path: &str, mode: u32) -> PermsEntry {
    PermsEntry {
        path: String::from(path),
        mode,
    }
}

fn parse_error(content: &str) -> (usize, String) {
    match parse(content) {
        Err(Error::ParseError { line, reason }) => (line, reason),
        other => panic!("expected a parse error, got {other:?}"),
    }
}

#[test]
fn test_parse_valid() {
    let content = "0644 src/main.rs\n0755 scripts/build.sh\n";
    let entries = parse(content).unwrap();
    assert_eq!(entries.len(), 2);
    // sorted by path
    assert_eq!(entries[0].path, String::from("scripts/build.sh"));
    assert_eq!(entries[0].mode, 0o755);
    assert_eq!(entries[1].path, String::from("src/main.rs"));
    assert_eq!(entries[1].mode, 0o644);
}

#[test]
fn test_parse_empty() {
    let entries = parse("").unwrap();
    assert!(entries.is_empty());
}

#[test]
fn test_parse_malformed_mode() {
    let content = "09xx src/main.rs\n";
    let result = parse(content);
    assert!(result.is_err());
    let err = result.unwrap_err();
    assert!(matches!(err, Error::ParseError { line: 1, .. }));
}

#[test]
fn test_parse_missing_path() {
    let content = "0644\n";
    let result = parse(content);
    assert!(result.is_err());
    let err = result.unwrap_err();
    assert!(matches!(err, Error::ParseError { line: 1, .. }));
}

#[test]
fn test_serialize() {
    let entries = vec![
        PermsEntry {
            path: String::from("build.sh"),
            mode: 0o755,
        },
        PermsEntry {
            path: String::from("src/main.rs"),
            mode: 0o644,
        },
    ];
    let output = serialize(&entries);
    assert_eq!(output, "0755 build.sh\n0644 src/main.rs\n");
}

#[test]
fn test_serialize_empty() {
    let output = serialize(&[]);
    assert_eq!(output, "");
}

#[test]
fn test_round_trip() {
    let entries = vec![
        PermsEntry {
            path: String::from("a.txt"),
            mode: 0o644,
        },
        PermsEntry {
            path: String::from("b.sh"),
            mode: 0o755,
        },
        PermsEntry {
            path: String::from("c/d.rs"),
            mode: 0o600,
        },
    ];
    let serialized = serialize(&entries);
    let parsed = parse(&serialized).unwrap();
    assert_eq!(entries, parsed);
}

#[test]
fn test_diff_no_changes() {
    let entries = vec![
        PermsEntry {
            path: String::from("a.txt"),
            mode: 0o644,
        },
        PermsEntry {
            path: String::from("b.sh"),
            mode: 0o755,
        },
    ];
    let diffs = diff(&entries, &entries);
    assert!(diffs.is_empty());
}

#[test]
fn test_diff_modified() {
    let stored = vec![PermsEntry {
        path: String::from("a.txt"),
        mode: 0o644,
    }];
    let actual = vec![PermsEntry {
        path: String::from("a.txt"),
        mode: 0o755,
    }];
    let diffs = diff(&stored, &actual);
    assert_eq!(diffs.len(), 1);
    assert_eq!(
        diffs[0],
        DiffEntry::Modified {
            path: String::from("a.txt"),
            stored: 0o644,
            actual: 0o755,
        }
    );
}

#[test]
fn test_diff_added() {
    let stored = vec![];
    let actual = vec![PermsEntry {
        path: String::from("new.txt"),
        mode: 0o644,
    }];
    let diffs = diff(&stored, &actual);
    assert_eq!(diffs.len(), 1);
    assert_eq!(
        diffs[0],
        DiffEntry::Added {
            path: String::from("new.txt"),
            mode: 0o644,
        }
    );
}

#[test]
fn test_diff_removed() {
    let stored = vec![PermsEntry {
        path: String::from("old.txt"),
        mode: 0o644,
    }];
    let actual = vec![];
    let diffs = diff(&stored, &actual);
    assert_eq!(diffs.len(), 1);
    assert_eq!(
        diffs[0],
        DiffEntry::Removed {
            path: String::from("old.txt"),
            mode: 0o644,
        }
    );
}

#[test]
fn test_diff_mixed() {
    let stored = vec![
        PermsEntry {
            path: String::from("a.txt"),
            mode: 0o644,
        },
        PermsEntry {
            path: String::from("b.txt"),
            mode: 0o644,
        },
        PermsEntry {
            path: String::from("c.txt"),
            mode: 0o600,
        },
    ];
    let actual = vec![
        PermsEntry {
            path: String::from("b.txt"),
            mode: 0o755,
        },
        PermsEntry {
            path: String::from("c.txt"),
            mode: 0o600,
        },
        PermsEntry {
            path: String::from("d.txt"),
            mode: 0o644,
        },
    ];
    let diffs = diff(&stored, &actual);
    assert_eq!(diffs.len(), 3);
    assert_eq!(
        diffs[0],
        DiffEntry::Removed {
            path: String::from("a.txt"),
            mode: 0o644,
        }
    );
    assert_eq!(
        diffs[1],
        DiffEntry::Modified {
            path: String::from("b.txt"),
            stored: 0o644,
            actual: 0o755,
        }
    );
    assert_eq!(
        diffs[2],
        DiffEntry::Added {
            path: String::from("d.txt"),
            mode: 0o644,
        }
    );
}

#[test]
fn parse_reports_each_reason() {
    assert_eq!(
        parse_error("0644\n"),
        (1, String::from("expected '<mode> <path>'"))
    );
    assert_eq!(
        parse_error("644 a\n"),
        (1, String::from("mode must be exactly 4 octal digits, got '644'"))
    );
    assert_eq!(
        parse_error("09xx src/main.rs\n"),
        (1, String::from("invalid octal mode '09xx'"))
    );
    assert_eq!(parse_error("0644 \n"), (1, String::from("path is empty")));
}

#[test]
fn parse_counts_empty_lines_and_stops_at_first_bad_line() {
    assert_eq!(
        parse_error("0644 a\n\n0755 b\n0999 c\n0644\n"),
        (4, String::from("invalid octal mode '0999'"))
    );
}

#[test]
fn parse_mode_length_is_in_bytes() {
    // "é1" is three bytes, "é12" four: the second fails as octal, not as length.
    assert_eq!(
        parse_error("é1 a\n"),
        (1, String::from("mode must be exactly 4 octal digits, got 'é1'"))
    );
    assert_eq!(
        parse_error("é12 a\n"),
        (1, String::from("invalid octal mode 'é12'"))
    );
}

#[test]
fn parse_accepts_plus_sign_crlf_and_spaces_in_paths() {
    let entries = parse("+644 a b\r\n0600  lead\n0755 last").unwrap();
    assert_eq!(entries, vec![entry(" lead", 0o600), entry("a b", 0o644), entry("last", 0o755)]);
}

#[test]
fn parse_sorts_by_path_components_then_mode() {
    // As paths, "c" comes before "c.txt", so "c/d.rs" comes first; equal paths
    // are ordered by mode and otherwise keep their order.
    let entries = parse("0644 c.txt\n0600 c/d.rs\n0755 x\n0700 x\n0644 a/b\n0644 a//b\n").unwrap();
    let listed: Vec<(&str, u32)> = entries.iter().map(|e| (e.path.as_str(), e.mode)).collect();
    assert_eq!(
        listed,
        vec![
            ("a/b", 0o644),
            ("a//b", 0o644),
            ("c/d.rs", 0o600),
            ("c.txt", 0o644),
            ("x", 0o700),
            ("x", 0o755),
        ]
    );
}

#[test]
fn entries_compare_as_paths_then_modes() {
    assert_eq!(entry("a//b/", 0o644), entry("a/b", 0o644));
    assert_ne!(entry("a/b", 0o644), entry("a/b", 0o600));
    assert_ne!(entry("./a", 0o644), entry("a", 0o644));
    assert!(entry("c/d.rs", 0o644) < entry("c.txt", 0o600));
    assert!(entry("x", 0o600) < entry("x", 0o644));
    assert!(entry("/z", 0o644) < entry("a", 0o644));
    assert!(entry("../a", 0o644) < entry(".a", 0o644));
    assert_eq!(
        entry("a", 0o644).partial_cmp(&entry("./a/", 0o644)),
        Some(std::cmp::Ordering::Greater)
    );
}

#[test]
fn serialize_pads_and_widens_modes() {
    let out = serialize(&[entry("a", 0), entry("b", 0o7), entry("c", 0o100644)]);
    assert_eq!(out, "0000 a\n0007 b\n100644 c\n");
}

#[test]
fn serialize_then_parse_gives_back_sorted_entries() {
    let entries = vec![entry("bin/run", 0o755), entry("notes.txt", 0o600), entry("x y", 0o1777)];
    assert_eq!(parse(&serialize(&entries)).unwrap(), entries);
}

#[test]
fn diff_with_itself_is_empty() {
    let entries = vec![entry("b", 0o644), entry("a", 0o600), entry("b", 0o755)];
    assert!(diff(&entries, &entries).is_empty());
}

#[test]
fn diff_compares_paths_as_paths() {
    let stored = vec![entry("a//b/", 0o644)];
    let actual = vec![entry("a/b", 0o644)];
    assert!(diff(&stored, &actual).is_empty());
    let actual = vec![entry("a/./b", 0o600)];
    assert_eq!(
        diff(&stored, &actual),
        vec![DiffEntry::Modified {
            path: String::from("a//b/"),
            stored: 0o644,
            actual: 0o600
        }]
    );
}

#[test]
fn scan_keeps_existing_files_and_their_permission_bits() {
    let files = vec![
        (String::from("run.sh"), Some(0o100755)),
        (String::from("gone.txt"), None),
        (String::from("a.txt"), Some(0o104644)),
    ];
    let entries = scan(&files).unwrap();
    assert_eq!(entries, vec![entry("a.txt", 0o4644), entry("run.sh", 0o755)]);
}

#[test]
fn apply_counts_applied_and_lists_skipped() {
    let entries = vec![entry("a", 0o644), entry("b", 0o600), entry("c", 0o755)];
    let result = apply(&entries, &[true, false, true]);
    assert_eq!(result.applied, 2);
    assert_eq!(result.skipped, vec![String::from("b")]);
}

#[test]
fn paths_compare_by_components() {
    assert_eq!(compare_paths("c/d.rs", "c.txt"), Order::Less);
    assert_eq!(compare_paths("a/b/", "a//b"), Order::Equal);
    assert_eq!(compare_paths("a/./b", "a/b"), Order::Equal);
    assert_eq!(compare_paths("./a", "a"), Order::Less);
    assert_eq!(compare_paths("a", "/a"), Order::Greater);
    assert_eq!(compare_paths("b", "a/z"), Order::Greater);
}

#[test]
fn diff_report_lines_and_status() {
    let stored = vec![entry("a.txt", 0o644), entry("b.txt", 0o644)];
    let actual = vec![entry("b.txt", 0o755), entry("d.txt", 0o4755)];
    let diffs = diff(&stored, &actual);
    let report = diff_report(&diffs, false);
    assert_eq!(report.exit_code, 1);
    assert_eq!(
        report.lines,
        vec!["R 0644 a.txt", "M 0644 -> 0755 b.txt", "A 4755 d.txt"]
    );
    let quiet = diff_report(&diffs, true);
    assert_eq!(quiet.exit_code, 1);
    assert!(quiet.lines.is_empty());
    let clean = diff_report(&[], false);
    assert_eq!(clean.exit_code, 0);
    assert_eq!(clean.lines, vec!["no permission differences"]);
    assert!(diff_report(&[], true).lines.is_empty());
    assert_eq!(
        diff_line(&DiffEntry::Added { path: String::from("x"), mode: 0o7 }),
        "A 0007 x"
    );
}

#[test]
fn swapping_stored_and_actual_mirrors_the_diff() {
    let stored = vec![entry("a.txt", 0o644), entry("b.txt", 0o644), entry("c//x", 0o600)];
    let actual = vec![entry("b.txt", 0o755), entry("c/x", 0o700), entry("d.txt", 0o644)];
    let forward = diff(&stored, &actual);
    let backward = diff(&actual, &stored);
    let mirrored: Vec<DiffEntry> = forward
        .into_iter()
        .map(|d| match d {
            DiffEntry::Removed { path, mode } => DiffEntry::Added { path, mode },
            DiffEntry::Added { path, mode } => DiffEntry::Removed { path, mode },
            DiffEntry::Modified { path, stored, actual } => DiffEntry::Modified {
                path,
                stored: actual,
                actual: stored,
            },
        })
        .collect();
    assert_eq!(backward, mirrored);
}

#[test]
fn scan_of_restored_modes_gives_back_the_entries() {
    let entries = vec![entry("a.sh", 0o755), entry("b/c.txt", 0o600)];
    let files: Vec<(String, Option<u32>)> = entries
        .iter()
        .map(|e| (e.path.clone(), Some(0o100000 | e.mode)))
        .collect();
    assert_eq!(scan(&files).unwrap(), entries);
    let saved = serialize(&entries);
    assert!(diff(&parse(&saved).unwrap(), &entries).is_empty());
}
