use repo_status::crawler::{
    bytes_eq, crawl_tree, filter_path, is_git, ChildEntry, CrawlRoot, Crawler, DirTree, RepoPath,
    TreeNode,
};

fn seg(s: &str) -> Vec<u8> {
    s.as_bytes().to_vec()
}

fn path(segments: &[&str]) -> RepoPath {
    RepoPath { segments: segments.iter().map(|s| seg(s)).collect() }
}

fn node(name: &str, is_dir: bool, children: Vec<usize>) -> TreeNode {
    TreeNode { name: seg(name), is_dir, children }
}

fn sorted_paths(out: Vec<RepoPath>) -> Vec<Vec<Vec<u8>>> {
    let mut v: Vec<Vec<Vec<u8>>> = out.into_iter().map(|p| p.segments).collect();
    v.sort();
    v
}

fn expected(paths: &[&[&str]]) -> Vec<Vec<Vec<u8>>> {
    let mut v: Vec<Vec<Vec<u8>>> = paths
        .iter()
        .map(|p| p.iter().map(|s| seg(s)).collect())
        .collect();
    v.sort();
    v
}

/// The tree of the hidden-directory scenario:
/// `root/repoA/.git`, `root/repoA/sub/repoB/.git`, `root/.hidden/repoC/.git`.
fn scenario_tree() -> DirTree {
    DirTree {
        nodes: vec![
            node("root", true, vec![1, 5]),
            node("repoA", true, vec![2, 3]),
            node(".git", true, vec![]),
            node("sub", true, vec![4]),
            node("repoB", true, vec![7]),
            node(".hidden", true, vec![6]),
            node("repoC", true, vec![8]),
            node(".git", true, vec![]),
            node(".git", true, vec![]),
        ],
    }
}

#[test]
fn emits_each_repo_exactly_once_unbounded() {
    // root/a, root/b/c and root/d each directly contain .git.
    let tree = DirTree {
        nodes: vec![
            node("root", true, vec![1, 3, 6]),
            node("a", true, vec![2]),
            node(".git", true, vec![]),
            node("b", true, vec![4]),
            node("c", true, vec![5]),
            node(".git", true, vec![]),
            node("d", true, vec![7]),
            node(".git", true, vec![]),
        ],
    };
    let roots = vec![CrawlRoot { node: 0, path: path(&["root"]) }];
    let out = crawl_tree(&tree, roots, usize::MAX);
    assert_eq!(out.len(), 3);
    assert_eq!(
        sorted_paths(out),
        expected(&[&["root", "a"], &["root", "b", "c"], &["root", "d"]])
    );
}

#[test]
fn hidden_directory_is_never_descended_into() {
    let tree = scenario_tree();
    let roots = vec![CrawlRoot { node: 0, path: path(&["root"]) }];
    let out = crawl_tree(&tree, roots, 3);
    assert_eq!(
        sorted_paths(out),
        expected(&[&["root", "repoA"], &["root", "repoA", "sub", "repoB"]])
    );
}

#[test]
fn depth_one_emits_only_the_shallow_repo() {
    let tree = scenario_tree();
    let roots = vec![CrawlRoot { node: 0, path: path(&["root"]) }];
    let out = crawl_tree(&tree, roots, 1);
    assert_eq!(sorted_paths(out), expected(&[&["root", "repoA"]]));
}

#[test]
fn no_emitted_path_exceeds_the_depth_bound() {
    let tree = scenario_tree();
    for d in 0..5usize {
        let roots = vec![CrawlRoot { node: 0, path: path(&["root"]) }];
        let out = crawl_tree(&tree, roots, d);
        for p in out {
            // "root" is the starting point; at most d levels below it.
            assert!(p.segments.len() <= 1 + d);
        }
    }
}

#[test]
fn overlapping_roots_are_deduplicated() {
    let tree = scenario_tree();
    let roots = vec![
        CrawlRoot { node: 0, path: path(&["root"]) },
        CrawlRoot { node: 1, path: path(&["root", "repoA"]) },
    ];
    let out = crawl_tree(&tree, roots, usize::MAX);
    assert_eq!(
        sorted_paths(out),
        expected(&[&["root", "repoA"], &["root", "repoA", "sub", "repoB"]])
    );
}

#[test]
fn a_git_file_marks_no_repository() {
    // .git is a plain file here, not a directory.
    let tree = DirTree {
        nodes: vec![node("root", true, vec![1]), node(".git", false, vec![])],
    };
    let roots = vec![CrawlRoot { node: 0, path: path(&["root"]) }];
    let out = crawl_tree(&tree, roots, usize::MAX);
    assert!(out.is_empty());
}

#[test]
fn empty_roots_empty_result() {
    let tree = scenario_tree();
    let out = crawl_tree(&tree, vec![], usize::MAX);
    assert!(out.is_empty());
}

#[test]
fn out_of_range_root_is_skipped() {
    let tree = scenario_tree();
    let roots = vec![CrawlRoot { node: 99, path: path(&["gone"]) }];
    let out = crawl_tree(&tree, roots, usize::MAX);
    assert!(out.is_empty());
}

#[test]
fn crawl_is_idempotent_on_an_unchanged_tree() {
    let tree = scenario_tree();
    let run = || {
        let roots = vec![CrawlRoot { node: 0, path: path(&["root"]) }];
        sorted_paths(crawl_tree(&tree, roots, usize::MAX))
    };
    assert_eq!(run(), run());
}

#[test]
fn filter_keeps_plain_and_git_directories_only() {
    let plain = ChildEntry { token: (), name: seg("src"), is_dir: true };
    let git = ChildEntry { token: (), name: seg(".git"), is_dir: true };
    let hidden = ChildEntry { token: (), name: seg(".hidden"), is_dir: true };
    let file = ChildEntry { token: (), name: seg("README"), is_dir: false };
    let dot = ChildEntry { token: (), name: seg("."), is_dir: true };
    assert!(filter_path(&plain));
    assert!(filter_path(&git));
    assert!(!filter_path(&hidden));
    assert!(!filter_path(&file));
    assert!(!filter_path(&dot));
}

#[test]
fn git_name_is_matched_exactly() {
    assert!(is_git(&seg(".git")));
    assert!(!is_git(&seg(".gitt")));
    assert!(!is_git(&seg(".gi")));
    assert!(!is_git(&seg("git")));
    assert!(!is_git(&seg("")));
}

#[test]
fn byte_and_path_comparisons() {
    assert!(bytes_eq(&seg("abc"), &seg("abc")));
    assert!(!bytes_eq(&seg("abc"), &seg("abd")));
    assert!(!bytes_eq(&seg("abc"), &seg("ab")));
    assert!(path(&["a", "b"]).path_eq(&path(&["a", "b"])));
    assert!(!path(&["a", "b"]).path_eq(&path(&["a"])));
    assert!(!path(&["a", "b"]).path_eq(&path(&["a", "c"])));
}

#[test]
fn incremental_crawler_emits_and_deduplicates() {
    let mut crawler: Crawler<()> = Crawler::new(usize::MAX);
    crawler.push_root((), path(&["top"]));
    let dir = crawler.take_next().expect("one pending root");
    assert_eq!(dir.depth, 0);

    let entries = vec![
        ChildEntry { token: (), name: seg(".git"), is_dir: true },
        ChildEntry { token: (), name: seg("sub"), is_dir: true },
        ChildEntry { token: (), name: seg(".hidden"), is_dir: true },
        ChildEntry { token: (), name: seg("notes.txt"), is_dir: false },
    ];
    let emitted = crawler.handle_listing(&dir.path, dir.depth, &entries);
    assert!(emitted);
    // Only `sub` was queued: .git and .hidden are never descended into.
    assert_eq!(crawler.pending.len(), 1);
    assert!(crawler.pending[0].path.path_eq(&path(&["top", "sub"])));
    assert_eq!(crawler.pending[0].depth, 1);

    // The same directory listed again is not emitted twice.
    let again = crawler.handle_listing(&dir.path, dir.depth, &entries);
    assert!(!again);
    assert_eq!(crawler.emitted.len(), 1);
    assert!(crawler.emitted[0].path_eq(&path(&["top"])));
}

#[test]
fn incremental_crawler_respects_the_depth_bound() {
    let mut crawler: Crawler<()> = Crawler::new(1);
    crawler.push_root((), path(&["top"]));
    let dir = crawler.take_next().expect("one pending root");
    let entries = vec![ChildEntry { token: (), name: seg("sub"), is_dir: true }];
    crawler.handle_listing(&dir.path, dir.depth, &entries);
    assert_eq!(crawler.pending.len(), 1);

    let sub = crawler.take_next().expect("sub is pending");
    assert_eq!(sub.depth, 1);
    let deeper = vec![ChildEntry { token: (), name: seg("subsub"), is_dir: true }];
    crawler.handle_listing(&sub.path, sub.depth, &deeper);
    // At the depth bound nothing more is queued.
    assert!(crawler.pending.is_empty());
    assert!(crawler.take_next().is_none());
}
