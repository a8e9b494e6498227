//! The churn aggregator's walk over repository history: every commit
//! reachable from HEAD is diffed against its first parent, and each path on
//! the new side of a diff entry counts one touch. The repository calls go
//! through the git2 library; the counting itself is verified.

use vstd::prelude::*;
use crate::churn::{churn_from_commits, ChurnMap};

verus! {

/// The git2 types the history walk passes around, declared so they can stand
/// in signatures; the walk never looks inside them.
#[verifier::external_type_specification]
#[verifier::external_body]
pub struct ExRepository(git2::Repository);

#[verifier::external_type_specification]
#[verifier::external_body]
pub struct ExOid(git2::Oid);

#[verifier::external_type_specification]
#[verifier::external_body]
pub struct ExGitError(git2::Error);

#[verifier::external_type_specification]
#[verifier::external_body]
pub struct ExCommit<'a>(git2::Commit<'a>);

#[verifier::external_type_specification]
#[verifier::external_body]
pub struct ExTree<'a>(git2::Tree<'a>);

#[verifier::external_type_specification]
#[verifier::external_body]
pub struct ExDiff<'a>(git2::Diff<'a>);

/// The fatal failures of a run: no repository was found, or the history walk
/// itself failed. Per-path troubles are never fatal and never reach here.
#[derive(Clone, Copy, Debug, PartialEq, Eq)]
pub enum HotspotError {
    RepositoryDiscoveryFailure,
    HistoryTraversalFailure,
}

/// Relies on git2: Repository::revwalk, Revwalk::push_head and the Revwalk
/// iterator, which yields the ids of every commit reachable from HEAD, or an
/// error. The walk happens here because nothing bounds it for a termination
/// proof outside.
#[verifier::external_body]
fn head_commit_ids(repo: &git2::Repository) -> (r: Result<Vec<git2::Oid>, git2::Error>) {
    let mut walk = repo.revwalk()?;
    walk.push_head()?;
    walk.collect()
}

/// Relies on git2::Repository::find_commit: looks the commit up by its id.
#[verifier::external_body]
fn find_commit<'r>(
    repo: &'r git2::Repository,
    id: &git2::Oid,
) -> (r: Result<git2::Commit<'r>, git2::Error>) {
    repo.find_commit(*id)
}

/// Relies on git2::Commit::tree: the tree the commit points to.
#[verifier::external_body]
fn commit_tree<'r>(commit: &git2::Commit<'r>) -> (r: Result<git2::Tree<'r>, git2::Error>) {
    commit.tree()
}

/// Relies on git2::Commit::parent_count: how many parents the commit has.
#[verifier::external_body]
fn commit_parent_count(commit: &git2::Commit<'_>) -> (r: usize) {
    commit.parent_count()
}

/// Relies on git2::Commit::parent: the parent at the given position.
#[verifier::external_body]
fn commit_parent<'r>(
    commit: &git2::Commit<'r>,
    i: usize,
) -> (r: Result<git2::Commit<'r>, git2::Error>) {
    commit.parent(i)
}

/// Relies on git2::Repository::diff_tree_to_tree with default options: the
/// diff from `old` (none for a root commit) to `new`.
#[verifier::external_body]
fn diff_trees<'r>(
    repo: &'r git2::Repository,
    old: Option<&git2::Tree<'r>>,
    new: &git2::Tree<'r>,
) -> (r: Result<git2::Diff<'r>, git2::Error>) {
    let mut opts = git2::DiffOptions::new();
    repo.diff_tree_to_tree(old, Some(new), Some(&mut opts))
}

/// Relies on git2::Diff::deltas and DiffDelta::new_file: hands out, per diff
/// entry, the path on the new side, where there is one and it is UTF-8; a
/// pure deletion has no new path and contributes nothing.
#[verifier::external_body]
fn diff_new_paths(diff: &git2::Diff<'_>) -> (r: Vec<String>) {
    diff.deltas().filter_map(
        |d| d.new_file().path().and_then(|p| p.to_str()).map(|s| s.to_string()),
    ).collect()
}

/// Walk the whole history reachable from HEAD and count, for every path, the
/// commits whose diff against their first parent touched it. Any failure of
/// the walk is fatal — a partial churn map would silently bias the ranking —
/// and the map that comes back is well-formed: unique paths, counts at least
/// one.
pub fn churn_from_repo(repo: &git2::Repository) -> (r: Result<ChurnMap, HotspotError>)
    ensures
        match r {
            Ok(m) => m.wf(),
            Err(e) => e == HotspotError::HistoryTraversalFailure,
        },
{
    let ids = match head_commit_ids(repo) {
        Ok(v) => v,
        Err(_) => { return Err(HotspotError::HistoryTraversalFailure) },
    };
    let mut commits: Vec<Vec<String>> = Vec::new();
    let mut i: usize = 0;
    while i < ids.len()
        invariant
            0 <= i <= ids@.len(),
        decreases ids@.len() - i,
    {
        let commit = match find_commit(repo, &ids[i]) {
            Ok(c) => c,
            Err(_) => { return Err(HotspotError::HistoryTraversalFailure) },
        };
        let tree = match commit_tree(&commit) {
            Ok(t) => t,
            Err(_) => { return Err(HotspotError::HistoryTraversalFailure) },
        };
        let parent_tree = if commit_parent_count(&commit) > 0 {
            let parent = match commit_parent(&commit, 0) {
                Ok(p) => p,
                Err(_) => { return Err(HotspotError::HistoryTraversalFailure) },
            };
            match commit_tree(&parent) {
                Ok(t) => Some(t),
                Err(_) => { return Err(HotspotError::HistoryTraversalFailure) },
            }
        } else {
            None
        };
        let diff = match diff_trees(repo, parent_tree.as_ref(), &tree) {
            Ok(d) => d,
            Err(_) => { return Err(HotspotError::HistoryTraversalFailure) },
        };
        let paths = diff_new_paths(&diff);
        commits.push(paths);
        i = i + 1;
    }
    Ok(churn_from_commits(&commits))
}

} // verus!
