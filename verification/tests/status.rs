use repo_status::crawler::RepoPath;
use repo_status::git::{
    assemble_changeset, branch_changesets, branch_ignored, changes_of_observation,
    count_qualifying, AheadBehind, BranchEval, BranchObservation, BranchOutcome, Change,
    EntryStatus, IgnorePattern, RemoteState,
};

fn seg(s: &str) -> Vec<u8> {
    s.as_bytes().to_vec()
}

fn path(segments: &[&str]) -> RepoPath {
    RepoPath { segments: segments.iter().map(|s| seg(s)).collect() }
}

fn clean_entry() -> EntryStatus {
    EntryStatus {
        index_new: false,
        index_modified: false,
        index_deleted: false,
        index_renamed: false,
        index_typechange: false,
        wt_new: false,
        wt_modified: false,
        wt_renamed: false,
        wt_typechange: false,
    }
}

fn wt_modified() -> EntryStatus {
    EntryStatus { wt_modified: true, ..clean_entry() }
}

fn untracked_file() -> EntryStatus {
    EntryStatus { wt_new: true, ..clean_entry() }
}

fn remote(name: &str, resolved: Option<(usize, usize)>) -> RemoteState {
    RemoteState {
        name: name.to_string(),
        resolved: resolved.map(|(ahead, behind)| AheadBehind { ahead, behind }),
    }
}

#[test]
fn counts_each_staged_and_working_tree_state() {
    let entries = vec![
        EntryStatus { index_new: true, ..clean_entry() },
        EntryStatus { index_modified: true, ..clean_entry() },
        EntryStatus { index_deleted: true, ..clean_entry() },
        EntryStatus { index_renamed: true, ..clean_entry() },
        EntryStatus { index_typechange: true, ..clean_entry() },
        EntryStatus { wt_modified: true, ..clean_entry() },
        EntryStatus { wt_renamed: true, ..clean_entry() },
        EntryStatus { wt_typechange: true, ..clean_entry() },
        clean_entry(),
    ];
    assert_eq!(count_qualifying(&entries, false), 8);
}

#[test]
fn untracked_files_count_only_when_enabled() {
    let entries = vec![wt_modified(), untracked_file(), untracked_file()];
    assert_eq!(count_qualifying(&entries, false), 1);
    assert_eq!(count_qualifying(&entries, true), 3);
}

#[test]
fn two_modified_files_yield_local_changes_of_two() {
    // Two modified tracked files, untracked disabled.
    let entries = vec![wt_modified(), wt_modified()];
    let count = count_qualifying(&entries, false);
    let obs = BranchObservation { local_count: Some(count), remotes: vec![] };
    let changes = changes_of_observation(obs);
    assert_eq!(changes.len(), 1);
    match &changes[0] {
        Change::Local(lc) => assert_eq!(lc.modified, 2),
        Change::Remote(_) => panic!("expected a local change"),
    }
}

#[test]
fn zero_qualifying_entries_yield_no_local_changes() {
    let entries = vec![clean_entry(), untracked_file()];
    let count = count_qualifying(&entries, false);
    assert_eq!(count, 0);
    let obs = BranchObservation { local_count: Some(count), remotes: vec![] };
    assert!(changes_of_observation(obs).is_empty());
}

#[test]
fn failed_status_query_drops_only_the_local_part() {
    let obs = BranchObservation {
        local_count: None,
        remotes: vec![remote("origin", Some((1, 0)))],
    };
    let changes = changes_of_observation(obs);
    assert_eq!(changes.len(), 1);
    assert!(matches!(&changes[0], Change::Remote(rc) if rc.remote == "origin"));
}

#[test]
fn remote_changes_present_iff_ahead_or_behind() {
    // Three commits ahead of origin/main, none behind.
    let obs = BranchObservation {
        local_count: Some(0),
        remotes: vec![remote("origin", Some((3, 0)))],
    };
    let changes = changes_of_observation(obs);
    assert_eq!(changes.len(), 1);
    match &changes[0] {
        Change::Remote(rc) => {
            assert_eq!(rc.remote, "origin");
            assert_eq!(rc.ahead, 3);
            assert_eq!(rc.behind, 0);
        }
        Change::Local(_) => panic!("expected a remote change"),
    }

    // In sync: no entry at all.
    let in_sync = BranchObservation {
        local_count: Some(0),
        remotes: vec![remote("origin", Some((0, 0)))],
    };
    assert!(changes_of_observation(in_sync).is_empty());

    // Unresolvable upstream: that remote is skipped, not an error.
    let unresolved = BranchObservation { local_count: Some(0), remotes: vec![remote("origin", None)] };
    assert!(changes_of_observation(unresolved).is_empty());
}

#[test]
fn local_change_comes_first_then_remotes_in_order() {
    let obs = BranchObservation {
        local_count: Some(4),
        remotes: vec![
            remote("origin", Some((1, 0))),
            remote("mirror", Some((0, 0))),
            remote("backup", Some((0, 2))),
        ],
    };
    let changes = changes_of_observation(obs);
    assert_eq!(changes.len(), 3);
    assert!(matches!(&changes[0], Change::Local(lc) if lc.modified == 4));
    assert!(matches!(&changes[1], Change::Remote(rc) if rc.remote == "origin" && rc.ahead == 1));
    assert!(matches!(&changes[2], Change::Remote(rc) if rc.remote == "backup" && rc.behind == 2));
}

#[test]
fn changeset_exposes_path_branch_and_changes() {
    let obs = BranchObservation { local_count: Some(1), remotes: vec![] };
    let cs = assemble_changeset(path(&["work", "repo"]), "main".to_string(), obs);
    assert!(cs.path().path_eq(&path(&["work", "repo"])));
    assert_eq!(cs.branch(), "main");
    assert!(cs.has_changes());
    assert_eq!(cs.changes().len(), 1);

    let clean = BranchObservation { local_count: Some(0), remotes: vec![] };
    let cs = assemble_changeset(path(&["work", "repo"]), "main".to_string(), clean);
    assert!(!cs.has_changes());
    assert!(cs.changes().is_empty());
}

#[test]
fn ignored_branch_produces_no_changeset_at_all() {
    let evals = vec![
        BranchEval {
            name: "main".to_string(),
            outcome: BranchOutcome::Checked(BranchObservation {
                local_count: Some(1),
                remotes: vec![],
            }),
        },
        BranchEval { name: "wip".to_string(), outcome: BranchOutcome::Ignored },
        BranchEval {
            name: "release".to_string(),
            outcome: BranchOutcome::Checked(BranchObservation {
                local_count: Some(0),
                remotes: vec![],
            }),
        },
    ];
    let out = branch_changesets(&path(&["r"]), evals);
    assert_eq!(out.len(), 2);
    assert_eq!(out[0].branch(), "main");
    assert_eq!(out[1].branch(), "release");
    // The clean branch still yields a (renderable) changeset; the ignored
    // one yields none, not even an empty one.
    assert!(!out[1].has_changes());
}

#[test]
fn unavailable_branch_produces_no_changeset() {
    let evals = vec![BranchEval { name: "main".to_string(), outcome: BranchOutcome::Unavailable }];
    let out = branch_changesets(&path(&["r"]), evals);
    assert!(out.is_empty());
}

#[test]
fn branch_is_ignored_exactly_when_the_pattern_matches() {
    let pattern = IgnorePattern::new("^wip").expect("a valid pattern compiles");
    assert!(branch_ignored(Some(&pattern), "wip-parser"));
    assert!(!branch_ignored(Some(&pattern), "main"));
    assert!(!branch_ignored(None, "wip-parser"));
}

#[test]
fn a_malformed_ignore_pattern_does_not_compile() {
    assert!(IgnorePattern::new("(unclosed").is_none());
}

#[test]
fn identical_observations_report_identically() {
    let make = || BranchObservation {
        local_count: Some(2),
        remotes: vec![remote("origin", Some((3, 1))), remote("backup", None)],
    };
    let first = changes_of_observation(make());
    let second = changes_of_observation(make());
    assert_eq!(first, second);
}
