//! The working tree: clearing it and filling it from a tree, without touching
//! the repository's own directory or the running program.

use crate::bytemap::{
    built, has_key, index_of_key, lemma_built_all, lemma_built_none, lemma_built_step,
    lemma_map_of_index, selected, ByteMap,
};
use crate::bytes::{equal, has_prefix, starts_with, to_vec};
use crate::error::Error;
use crate::reference::SLASH;
use crate::repository::{RepoView, Repository};
use crate::tree::{parse_tree, read_tree_entries};
use vstd::prelude::*;

verus! {

/// A path that no operation on the working tree touches: the repository's
/// own directory, what lies in it, and the running program.
pub open spec fn is_protected(git_dir: Seq<u8>, exe: Option<Seq<u8>>, path: Seq<u8>) -> bool {
    path == git_dir || has_prefix(path, git_dir + seq![SLASH]) || exe == Some(path)
}

/// The working tree with nothing but the protected paths.
pub open spec fn cleaned(
    worktree: Map<Seq<u8>, Seq<u8>>,
    git_dir: Seq<u8>,
    exe: Option<Seq<u8>>,
) -> Map<Seq<u8>, Seq<u8>> {
    selected(worktree, |p: Seq<u8>| is_protected(git_dir, exe, p), |p: Seq<u8>| worktree[p])
}

/// Every blob that the tree names for a path that is not protected is in the
/// store.
pub open spec fn blobs_stored(
    objects: Map<Seq<u8>, Seq<u8>>,
    tree: Map<Seq<u8>, Seq<u8>>,
    git_dir: Seq<u8>,
    exe: Option<Seq<u8>>,
) -> bool {
    forall|p: Seq<u8>|
        tree.contains_key(p) && !is_protected(git_dir, exe, p) ==> objects.contains_key(
            #[trigger] tree[p],
        )
}

/// The working tree `worktree` with the files of `tree` written into it:
/// each path of the tree that is not protected holds the content of its blob.
pub open spec fn materialized(
    worktree: Map<Seq<u8>, Seq<u8>>,
    objects: Map<Seq<u8>, Seq<u8>>,
    tree: Map<Seq<u8>, Seq<u8>>,
    git_dir: Seq<u8>,
    exe: Option<Seq<u8>>,
) -> Map<Seq<u8>, Seq<u8>> {
    worktree.union_prefer_right(
        selected(
            tree,
            |p: Seq<u8>| !is_protected(git_dir, exe, p),
            |p: Seq<u8>| objects[tree[p]],
        ),
    )
}

/// The repository with a cleared working tree.
pub open spec fn cleared(repo: RepoView) -> RepoView {
    RepoView { worktree: cleaned(repo.worktree, repo.git_dir, repo.exe), ..repo }
}

/// What restoring the tree under `tree_hash` does: `NotFound` if the tree or
/// one of its blobs is not stored, else the repository whose working tree
/// holds the protected paths and the files of the tree.
pub open spec fn restored(repo: RepoView, tree_hash: Seq<u8>) -> Result<RepoView, Error> {
    if !repo.objects.contains_key(tree_hash) {
        Err(Error::NotFound)
    } else {
        filled(repo, parse_tree(repo.objects[tree_hash]))
    }
}

/// Whether `path` is protected in this repository.
pub fn is_protected_path(repo: &Repository, path: &[u8]) -> (r: bool)
    ensures
        r == is_protected(repo@.git_dir, repo@.exe, path@),
{
    if equal(path, repo.git_dir.as_slice()) {
        return true;
    }
    let mut prefix: Vec<u8> = to_vec(repo.git_dir.as_slice());
    prefix.push(SLASH);
    assert(prefix@ =~= repo@.git_dir + seq![SLASH]);
    if starts_with(path, prefix.as_slice()) {
        return true;
    }
    match &repo.exe {
        Some(exe) => equal(exe.as_slice(), path),
        None => false,
    }
}

/// Clears the working tree: every file leaves but the protected ones.
pub fn clean_working_directory(repo: &mut Repository)
    ensures
        final(repo)@ == cleared(old(repo)@),
{
    let n: usize = repo.worktree.len();
    let ghost ps = repo.worktree.pairs();
    let ghost keep = |p: Seq<u8>| is_protected(repo@.git_dir, repo@.exe, p);
    let ghost val = |p: Seq<u8>| repo@.worktree[p];
    let mut out: ByteMap = ByteMap::new();
    proof {
        lemma_built_none(ps, keep, val);
    }
    let mut i: usize = 0;
    while i < n
        invariant
            i <= n,
            n == ps.len(),
            ps == repo.worktree.pairs(),
            *repo == *old(repo),
            keep == (|p: Seq<u8>| is_protected(repo@.git_dir, repo@.exe, p)),
            val == (|p: Seq<u8>| repo@.worktree[p]),
            out@ == built(ps, i as int, keep, val),
        decreases n - i,
    {
        let path: &Vec<u8> = repo.worktree.key_at(i);
        let content: &Vec<u8> = repo.worktree.value_at(i);
        proof {
            lemma_built_step(ps, i as int, keep, val);
        }
        if is_protected_path(repo, path.as_slice()) {
            out.insert(to_vec(path.as_slice()), to_vec(content.as_slice()));
        }
        i += 1;
    }
    proof {
        lemma_built_all(ps, keep, val);
        assert(out@ =~= cleaned(repo@.worktree, repo@.git_dir, repo@.exe));
    }
    repo.worktree = out;
}

/// Whether the store holds every blob that `tree` names for a path that is
/// not protected.
pub fn check_blobs(repo: &Repository, tree: &ByteMap) -> (r: bool)
    ensures
        r == blobs_stored(repo@.objects, tree@, repo@.git_dir, repo@.exe),
{
    let n: usize = tree.len();
    let ghost ps = tree.pairs();
    let mut i: usize = 0;
    while i < n
        invariant
            i <= n,
            n == ps.len(),
            ps == tree.pairs(),
            forall|j: int|
                #![trigger ps[j]]
                0 <= j < i && !is_protected(repo@.git_dir, repo@.exe, ps[j].0)
                    ==> repo@.objects.contains_key(ps[j].1),
        decreases n - i,
    {
        let path: &Vec<u8> = tree.key_at(i);
        let hash: &Vec<u8> = tree.value_at(i);
        if !is_protected_path(repo, path.as_slice()) && !repo.objects.contains(hash.as_slice()) {
            assert(tree@.contains_key(path@) && tree@[path@] == hash@);
            return false;
        }
        i += 1;
    }
    proof {
        assert forall|p: Seq<u8>|
            tree@.contains_key(p) && !is_protected(
                repo@.git_dir,
                repo@.exe,
                p,
            ) implies repo@.objects.contains_key(#[trigger] tree@[p]) by {
            assert(has_key(ps, p));
            let j = index_of_key(ps, p);
            assert(ps[j].0 == p);
            lemma_map_of_index(ps, j);
        }
    }
    true
}

/// What writing the files of `tree` into the cleared working tree does:
/// `NotFound` if one of its blobs is not stored, else the repository whose
/// working tree holds the protected paths and the files of the tree.
pub open spec fn filled(repo: RepoView, tree: Map<Seq<u8>, Seq<u8>>) -> Result<RepoView, Error> {
    if !blobs_stored(repo.objects, tree, repo.git_dir, repo.exe) {
        Err(Error::NotFound)
    } else {
        Ok(
            RepoView {
                worktree: materialized(
                    cleaned(repo.worktree, repo.git_dir, repo.exe),
                    repo.objects,
                    tree,
                    repo.git_dir,
                    repo.exe,
                ),
                ..repo
            },
        )
    }
}

/// Clears the working tree and writes the files of `tree` into it. If one of
/// its blobs is missing, the working tree is left cleared and nothing is
/// written.
pub fn materialize(tree: &ByteMap, repo: &mut Repository) -> (r: Result<(), Error>)
    ensures
        match r {
            Ok(_) => filled(old(repo)@, tree@) == Ok::<RepoView, Error>(final(repo)@),
            Err(e) => filled(old(repo)@, tree@) == Err::<RepoView, Error>(e) && final(repo)@
                == cleared(old(repo)@),
        },
{
    clean_working_directory(repo);
    if !check_blobs(repo, tree) {
        return Err(Error::NotFound);
    }
    let n: usize = tree.len();
    let ghost ps = tree.pairs();
    let ghost start = repo@;
    let ghost keep = |p: Seq<u8>| !is_protected(start.git_dir, start.exe, p);
    let ghost val = |p: Seq<u8>| start.objects[tree@[p]];
    proof {
        lemma_built_none(ps, keep, val);
        assert(start.worktree =~= start.worktree.union_prefer_right(built(ps, 0, keep, val)));
    }
    let mut i: usize = 0;
    while i < n
        invariant
            i <= n,
            n == ps.len(),
            ps == tree.pairs(),
            start == cleared(old(repo)@),
            blobs_stored(start.objects, tree@, start.git_dir, start.exe),
            keep == (|p: Seq<u8>| !is_protected(start.git_dir, start.exe, p)),
            val == (|p: Seq<u8>| start.objects[tree@[p]]),
            repo@ == (RepoView {
                worktree: start.worktree.union_prefer_right(built(ps, i as int, keep, val)),
                ..start
            }),
        decreases n - i,
    {
        let path: &Vec<u8> = tree.key_at(i);
        let hash: &Vec<u8> = tree.value_at(i);
        proof {
            lemma_built_step(ps, i as int, keep, val);
        }
        if !is_protected_path(repo, path.as_slice()) {
            assert(start.objects.contains_key(tree@[path@]));
            let content: Vec<u8> = match repo.objects.get_object(hash.as_slice()) {
                Ok(content) => to_vec(content.as_slice()),
                Err(_) => Vec::new(),
            };
            proof {
                let so_far = built(ps, i as int, keep, val);
                assert(start.worktree.union_prefer_right(so_far).insert(path@, content@)
                    =~= start.worktree.union_prefer_right(so_far.insert(path@, content@)));
            }
            repo.worktree.insert(to_vec(path.as_slice()), content);
        }
        i += 1;
    }
    proof {
        lemma_built_all(ps, keep, val);
        assert(built(ps, n as int, keep, val) =~= selected(
            tree@,
            |p: Seq<u8>| !is_protected(start.git_dir, start.exe, p),
            |p: Seq<u8>| start.objects[tree@[p]],
        ));
        assert(repo@ =~= filled(old(repo)@, tree@)->Ok_0);
    }
    Ok(())
}

/// Clears the working tree and writes the files of the tree under
/// `tree_hash` into it. If the tree or one of its blobs is missing, the
/// working tree is left cleared and nothing is written.
pub fn restore_tree(tree_hash: &[u8], repo: &mut Repository) -> (r: Result<(), Error>)
    ensures
        match r {
            Ok(_) => restored(old(repo)@, tree_hash@) == Ok::<RepoView, Error>(final(repo)@),
            Err(e) => restored(old(repo)@, tree_hash@) == Err::<RepoView, Error>(e) && final(repo)@
                == cleared(old(repo)@),
        },
{
    match read_tree_entries(tree_hash, &repo.objects) {
        Ok(tree) => materialize(&tree, repo),
        Err(e) => {
            clean_working_directory(repo);
            Err(e)
        },
    }
}

} // verus!
