//! Removing files from the working tree and the index.

use crate::bytemap::{built, index_of_key, lemma_built_all, lemma_built_none, lemma_built_step, selected, ByteMap};
use crate::bytes::{starts_with, to_vec};
use crate::index::{
    dir_prefix, dir_prefix_of, is_dir, is_root, lies_under, remove_directory_entries_from_index,
    remove_from_index, unstaged, unstaged_under,
};
use crate::reference::DOT;
use crate::repository::{RepoView, Repository};
use crate::worktree::{is_protected, is_protected_path};
use vstd::prelude::*;

verus! {

/// How a removal ended.
#[derive(Clone, Copy, Debug, PartialEq, Eq, Structural)]
pub enum RmOutcome {
    /// The path is a directory and the removal was not recursive. Nothing
    /// changed.
    IsDirectory,
    /// The path was staged and is staged no more.
    Unstaged,
    /// The path was not staged.
    NotStaged,
    /// Every staged path that starts with the path is staged no more.
    UnstagedDirectory,
}

/// The working tree without the files in the directory `dir` that are not
/// protected.
pub open spec fn without_dir(
    worktree: Map<Seq<u8>, Seq<u8>>,
    git_dir: Seq<u8>,
    exe: Option<Seq<u8>>,
    dir: Seq<u8>,
) -> Map<Seq<u8>, Seq<u8>> {
    selected(
        worktree,
        |p: Seq<u8>| !(lies_under(dir, p) && !is_protected(git_dir, exe, p)),
        |p: Seq<u8>| worktree[p],
    )
}

/// The working tree after the removal of `path`: without the file of that
/// path, unless it is protected, or without the files of that directory.
pub open spec fn worktree_without(repo: RepoView, path: Seq<u8>) -> Map<Seq<u8>, Seq<u8>> {
    if repo.worktree.contains_key(path) {
        if is_protected(repo.git_dir, repo.exe, path) {
            repo.worktree
        } else {
            repo.worktree.remove(path)
        }
    } else if is_dir(repo.worktree, path) {
        without_dir(repo.worktree, repo.git_dir, repo.exe, path)
    } else {
        repo.worktree
    }
}

/// What removing `path` does. A directory is removed only recursively. The
/// file or the files of the directory leave the working tree; then the path
/// leaves the index, or, recursively, every staged path that starts with it.
/// A path that is not in the working tree is still taken out of the index.
pub open spec fn removed(repo: RepoView, path: Seq<u8>, recursive: bool) -> (RmOutcome, RepoView) {
    if !repo.worktree.contains_key(path) && is_dir(repo.worktree, path) && !recursive {
        (RmOutcome::IsDirectory, repo)
    } else {
        let gone = RepoView { worktree: worktree_without(repo, path), ..repo };
        if recursive {
            (RmOutcome::UnstagedDirectory, unstaged_under(gone, path))
        } else if repo.index.contains_key(path) {
            (RmOutcome::Unstaged, unstaged(gone, path))
        } else {
            (RmOutcome::NotStaged, unstaged(gone, path))
        }
    }
}

/// Whether `path` is a directory of the working tree.
pub fn is_directory(worktree: &ByteMap, path: &[u8]) -> (r: bool)
    ensures
        r == is_dir(worktree@, path@),
{
    if path.len() == 0 {
        return true;
    }
    if path.len() == 1 && path[0] == DOT {
        assert(path@ =~= seq![DOT]);
        return true;
    }
    assert(!is_root(path@)) by {
        if path@ == seq![DOT] {
            assert(path@[0] == seq![DOT][0]);
        }
    }
    let prefix: Vec<u8> = dir_prefix_of(path);
    let n: usize = worktree.len();
    let ghost ps = worktree.pairs();
    let mut i: usize = 0;
    while i < n
        invariant
            i <= n,
            n == ps.len(),
            ps == worktree.pairs(),
            prefix@ == dir_prefix(path@),
            forall|j: int| 0 <= j < i ==> !lies_under(path@, (#[trigger] ps[j]).0),
        decreases n - i,
    {
        if starts_with(worktree.key_at(i).as_slice(), prefix.as_slice()) {
            assert(lies_under(path@, ps[i as int].0));
            return true;
        }
        i += 1;
    }
    proof {
        if is_dir(worktree@, path@) {
            let p = choose|p: Seq<u8>| worktree@.contains_key(p) && #[trigger] lies_under(path@, p);
            let j = index_of_key(ps, p);
            assert(ps[j].0 == p);
        }
    }
    false
}

/// Takes the files in the directory `dir` that are not protected out of the
/// working tree.
pub fn remove_dir(repo: &mut Repository, dir: &[u8])
    ensures
        final(repo)@ == (RepoView {
            worktree: without_dir(
                old(repo)@.worktree,
                old(repo)@.git_dir,
                old(repo)@.exe,
                dir@,
            ),
            ..old(repo)@
        }),
{
    let prefix: Vec<u8> = dir_prefix_of(dir);
    let n: usize = repo.worktree.len();
    let ghost ps = repo.worktree.pairs();
    let ghost keep = |p: Seq<u8>| !(lies_under(dir@, p) && !is_protected(repo@.git_dir, repo@.exe, p));
    let ghost val = |p: Seq<u8>| repo@.worktree[p];
    let mut out: ByteMap = ByteMap::new();
    proof {
        lemma_built_none(ps, keep, val);
    }
    let mut i: usize = 0;
    while i < n
        invariant
            i <= n,
            n == ps.len(),
            ps == repo.worktree.pairs(),
            *repo == *old(repo),
            prefix@ == dir_prefix(dir@),
            keep == (|p: Seq<u8>|
                !(lies_under(dir@, p) && !is_protected(repo@.git_dir, repo@.exe, p))),
            val == (|p: Seq<u8>| repo@.worktree[p]),
            out@ == built(ps, i as int, keep, val),
        decreases n - i,
    {
        let path: &Vec<u8> = repo.worktree.key_at(i);
        let content: &Vec<u8> = repo.worktree.value_at(i);
        proof {
            lemma_built_step(ps, i as int, keep, val);
        }
        let goes: bool = starts_with(path.as_slice(), prefix.as_slice()) && !is_protected_path(
            repo,
            path.as_slice(),
        );
        if !goes {
            out.insert(to_vec(path.as_slice()), to_vec(content.as_slice()));
        }
        i += 1;
    }
    proof {
        lemma_built_all(ps, keep, val);
        assert(out@ =~= without_dir(repo@.worktree, repo@.git_dir, repo@.exe, dir@));
    }
    repo.worktree = out;
}

/// Removes the file or, recursively, the directory `path` from the working
/// tree and from the index.
pub fn git_rm(repo: &mut Repository, path: &[u8], recursive: bool) -> (r: RmOutcome)
    ensures
        r == removed(old(repo)@, path@, recursive).0,
        final(repo)@ == removed(old(repo)@, path@, recursive).1,
{
    let is_file: bool = repo.worktree.contains_key(path);
    let is_directory: bool = !is_file && is_directory(&repo.worktree, path);
    if is_directory && !recursive {
        return RmOutcome::IsDirectory;
    }
    if is_file {
        if !is_protected_path(repo, path) {
            repo.worktree.remove(path);
        }
    } else if is_directory {
        remove_dir(repo, path);
    }
    assert(repo@ =~= (RepoView { worktree: worktree_without(old(repo)@, path@), ..old(repo)@ }));
    if recursive {
        remove_directory_entries_from_index(path, repo);
        RmOutcome::UnstagedDirectory
    } else {
        match remove_from_index(path, repo) {
            Some(_) => RmOutcome::Unstaged,
            None => RmOutcome::NotStaged,
        }
    }
}

} // verus!
