use repo_status::crawler::RepoPath;
use repo_status::git::{assemble_changeset, BranchObservation};
use repo_status::report::{display_path, should_render};

fn seg(s: &str) -> Vec<u8> {
    s.as_bytes().to_vec()
}

fn path(segments: &[&str]) -> RepoPath {
    RepoPath { segments: segments.iter().map(|s| seg(s)).collect() }
}

#[test]
fn quiet_mode_suppresses_only_clean_reports() {
    let clean = assemble_changeset(
        path(&["r"]),
        "main".to_string(),
        BranchObservation { local_count: Some(0), remotes: vec![] },
    );
    let dirty = assemble_changeset(
        path(&["r"]),
        "main".to_string(),
        BranchObservation { local_count: Some(1), remotes: vec![] },
    );
    assert!(!should_render(true, &clean));
    assert!(should_render(true, &dirty));
    assert!(should_render(false, &clean));
    assert!(should_render(false, &dirty));
}

#[test]
fn path_under_the_scan_root_is_shown_relative() {
    let p = display_path(&path(&["home", "work", "repo"]), &path(&["home", "work"]));
    assert!(p.path_eq(&path(&["repo"])));
}

#[test]
fn the_scan_root_itself_is_shown_by_its_last_segment() {
    let p = display_path(&path(&["home", "work"]), &path(&["home", "work"]));
    assert!(p.path_eq(&path(&["work"])));
}

#[test]
fn path_outside_the_scan_root_is_shown_in_full() {
    let p = display_path(&path(&["elsewhere", "repo"]), &path(&["home", "work"]));
    assert!(p.path_eq(&path(&["elsewhere", "repo"])));
}

#[test]
fn shorter_path_than_the_root_is_shown_in_full() {
    let p = display_path(&path(&["home"]), &path(&["home", "work"]));
    assert!(p.path_eq(&path(&["home"])));
}
