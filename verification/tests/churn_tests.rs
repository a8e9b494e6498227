use hotspot::churn::{churn_from_commits, ChurnMap};
use hotspot::repo::{churn_from_repo, HotspotError};

fn count(m: &ChurnMap, path: &str) -> u32 {
    m.count_of(&path.to_string())
}

#[test]
fn test_single_commit_counts_once() {
    let commits = vec![vec!["a.rs".to_string()]];
    let m = churn_from_commits(&commits);
    assert_eq!(m.entries.len(), 1);
    assert_eq!(count(&m, "a.rs"), 1);
    assert_eq!(count(&m, "b.rs"), 0);
}

#[test]
fn test_second_commit_accumulates() {
    let commits = vec![
        vec!["a.rs".to_string()],
        vec!["a.rs".to_string(), "b.rs".to_string()],
    ];
    let m = churn_from_commits(&commits);
    assert_eq!(m.entries.len(), 2);
    assert_eq!(count(&m, "a.rs"), 2);
    assert_eq!(count(&m, "b.rs"), 1);
}

fn commit_files(
    repo: &git2::Repository,
    parent: Option<&git2::Commit>,
    files: &[(&str, &str)],
) -> git2::Oid {
    let parent_tree = parent.map(|p| p.tree().unwrap());
    let mut builder = repo.treebuilder(parent_tree.as_ref()).unwrap();
    for (name, content) in files {
        let oid = repo.blob(content.as_bytes()).unwrap();
        builder.insert(*name, oid, 0o100644).unwrap();
    }
    let tree_oid = builder.write().unwrap();
    let tree = repo.find_tree(tree_oid).unwrap();
    let sig = git2::Signature::now("tester", "tester@example.com").unwrap();
    let parents: Vec<&git2::Commit> = parent.into_iter().collect();
    repo.commit(Some("HEAD"), &sig, &sig, "step", &tree, &parents)
        .unwrap()
}

#[test]
fn test_churn_from_real_repository() {
    let dir = tempfile::tempdir().unwrap();
    let repo = git2::Repository::init(dir.path()).unwrap();
    let first = commit_files(&repo, None, &[("a.rs", "fn a() {}\n")]);
    let first_commit = repo.find_commit(first).unwrap();
    commit_files(
        &repo,
        Some(&first_commit),
        &[("a.rs", "fn a() { loop {} }\n"), ("b.rs", "fn b() {}\n")],
    );
    let m = churn_from_repo(&repo).unwrap();
    assert_eq!(m.entries.len(), 2);
    assert_eq!(count(&m, "a.rs"), 2);
    assert_eq!(count(&m, "b.rs"), 1);
}

#[test]
fn test_history_walk_fails_without_head() {
    let dir = tempfile::tempdir().unwrap();
    let repo = git2::Repository::init(dir.path()).unwrap();
    // No commit was ever made, so HEAD resolves to nothing.
    let r = churn_from_repo(&repo);
    assert_eq!(r.unwrap_err(), HotspotError::HistoryTraversalFailure);
}
