use lsnote::git::{classify_status, git_status_priority, resolve_statuses, GitStatus, StatusMap};

fn get(m: &StatusMap, key: &str) -> Option<GitStatus> {
    m.get(&String::from(key))
}

#[test]
fn classify_untracked() {
    assert_eq!(classify_status('?', '?'), GitStatus::Untracked);
}

#[test]
fn classify_ignored() {
    assert_eq!(classify_status('!', '!'), GitStatus::Ignored);
}

#[test]
fn classify_worktree_side_wins() {
    assert_eq!(classify_status(' ', 'M'), GitStatus::Modified);
    assert_eq!(classify_status(' ', 'D'), GitStatus::Modified);
    assert_eq!(classify_status(' ', 'A'), GitStatus::Modified);
    assert_eq!(classify_status('A', 'M'), GitStatus::Modified);
}

#[test]
fn classify_index_side() {
    assert_eq!(classify_status('M', ' '), GitStatus::Staged);
    assert_eq!(classify_status('A', ' '), GitStatus::Staged);
    assert_eq!(classify_status('D', ' '), GitStatus::Staged);
    assert_eq!(classify_status('R', ' '), GitStatus::Staged);
    assert_eq!(classify_status('C', ' '), GitStatus::Staged);
}

#[test]
fn classify_unknown_degrades_to_clean() {
    assert_eq!(classify_status(' ', ' '), GitStatus::Clean);
    assert_eq!(classify_status('X', 'Z'), GitStatus::Clean);
    assert_eq!(classify_status('?', '!'), GitStatus::Clean);
}

#[test]
fn classify_total_over_many_pairs() {
    let chars = [' ', 'M', 'A', 'D', 'R', 'C', '?', '!', 'X', 'q', '0'];
    for &x in chars.iter() {
        for &y in chars.iter() {
            // every pair classifies without panicking, to exactly one kind
            let k = classify_status(x, y);
            let p = git_status_priority(&k);
            assert!(p <= 3);
        }
    }
}

#[test]
fn priorities() {
    assert_eq!(git_status_priority(&GitStatus::Modified), 3);
    assert_eq!(git_status_priority(&GitStatus::Staged), 2);
    assert_eq!(git_status_priority(&GitStatus::Untracked), 1);
    assert_eq!(git_status_priority(&GitStatus::Ignored), 0);
    assert_eq!(git_status_priority(&GitStatus::Clean), 0);
}

#[test]
fn resolve_staged_and_modified_propagates_max() {
    // a.txt staged, b/c.txt modified: b and the root resolve to Modified,
    // priority 3 beating 2, though neither has a direct status line.
    let m = resolve_statuses("A  a.txt\n M b/c.txt\n");
    assert_eq!(get(&m, "a.txt"), Some(GitStatus::Staged));
    assert_eq!(get(&m, "b/c.txt"), Some(GitStatus::Modified));
    assert_eq!(get(&m, "b"), Some(GitStatus::Modified));
    assert_eq!(get(&m, ""), Some(GitStatus::Modified));
    assert_eq!(get(&m, "c.txt"), None);
    assert_eq!(get(&m, "unrelated"), None);
}

#[test]
fn resolve_deep_ancestors() {
    let m = resolve_statuses("?? a/b/c/d.txt\n");
    assert_eq!(get(&m, "a/b/c/d.txt"), Some(GitStatus::Untracked));
    assert_eq!(get(&m, "a/b/c"), Some(GitStatus::Untracked));
    assert_eq!(get(&m, "a/b"), Some(GitStatus::Untracked));
    assert_eq!(get(&m, "a"), Some(GitStatus::Untracked));
    assert_eq!(get(&m, ""), Some(GitStatus::Untracked));
    assert_eq!(get(&m, "a/b/c/d"), None);
}

#[test]
fn resolve_tie_keeps_first_assignment() {
    // Ignored and Clean share the lowest priority: the root keeps the
    // first-assigned kind on a tie.
    let m = resolve_statuses("!! a\nXX b\n");
    assert_eq!(get(&m, "a"), Some(GitStatus::Ignored));
    assert_eq!(get(&m, "b"), Some(GitStatus::Clean));
    assert_eq!(get(&m, ""), Some(GitStatus::Ignored));
}

#[test]
fn resolve_higher_priority_overwrites() {
    let m = resolve_statuses("!! a\n?? b\n");
    assert_eq!(get(&m, ""), Some(GitStatus::Untracked));
}

#[test]
fn resolve_skips_short_lines() {
    let m = resolve_statuses("ab\n\nM\n");
    assert_eq!(get(&m, ""), None);
    assert_eq!(get(&m, "ab"), None);
}

#[test]
fn resolve_empty_report() {
    let m = resolve_statuses("");
    assert_eq!(get(&m, ""), None);
}

#[test]
fn resolve_trims_path_whitespace() {
    let m = resolve_statuses(" M  spaced.txt \n");
    assert_eq!(get(&m, "spaced.txt"), Some(GitStatus::Modified));
    assert_eq!(get(&m, " spaced.txt"), None);
}

#[test]
fn resolve_idempotent() {
    // Re-resolving an unchanged report yields an identical status map.
    let report = "A  a.txt\n M b/c.txt\n?? d/e\n!! f\n";
    let m1 = resolve_statuses(report);
    let m2 = resolve_statuses(report);
    for key in ["a.txt", "b/c.txt", "b", "", "d", "d/e", "f", "zzz", "b/c"] {
        assert_eq!(get(&m1, key), get(&m2, key));
    }
}
