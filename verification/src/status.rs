//! The status of the working tree: what is staged, changed, gone or not
//! tracked.

use crate::bytemap::{sorted_pairs, ByteMap, Pairs};
use crate::bytes::{equal, lookup, to_vec, views};
use crate::commands::{commit_entries, tree_entries_of};
use crate::commit::MIN_ID_LEN;
use crate::hash::{sha1_hash, sha1_hex};
use crate::reference::{Head, HeadView};
use crate::repository::{RepoView, Repository};
use crate::worktree::{is_protected, is_protected_path};
use vstd::prelude::*;

verus! {

/// One of the lists of a status report.
#[derive(Clone, Copy, Debug, PartialEq, Eq, Structural)]
pub enum StatusKind {
    /// Staged paths whose blob is not the one of the last commit.
    Staged,
    /// Staged paths whose file holds another content than was staged.
    Modified,
    /// Staged paths whose file is gone.
    Deleted,
    /// Files that are neither staged nor protected.
    Untracked,
}

/// The tree of the last commit of the branch that is checked out; empty for
/// a detached HEAD, a branch without commits, or a commit that cannot be
/// read.
pub open spec fn head_tree_of(repo: RepoView) -> Map<Seq<u8>, Seq<u8>> {
    match repo.head {
        HeadView::Detached(_) => Map::empty(),
        HeadView::Symbolic(name) => if repo.branches.contains_key(name) && repo.branches[name].len()
            >= MIN_ID_LEN {
            match tree_entries_of(repo.objects, repo.branches[name]) {
                Ok(tree) => tree,
                Err(_) => Map::empty(),
            }
        } else {
            Map::empty()
        },
    }
}

/// Whether a path with its value belongs on the list `kind`. For the first
/// three lists the value is the staged blob, for the last the content of the
/// file.
pub open spec fn has_status(
    repo: RepoView,
    head_tree: Map<Seq<u8>, Seq<u8>>,
    kind: StatusKind,
    path: Seq<u8>,
    value: Seq<u8>,
) -> bool {
    match kind {
        StatusKind::Staged => lookup(head_tree, path) != Some(value),
        StatusKind::Modified => repo.worktree.contains_key(path) && sha1_hex(repo.worktree[path])
            != value,
        StatusKind::Deleted => !repo.worktree.contains_key(path),
        StatusKind::Untracked => !is_protected(repo.git_dir, repo.exe, path)
            && !repo.index.contains_key(path),
    }
}

/// The paths among `entries` that belong on the list `kind`, in their order.
pub open spec fn listed(
    repo: RepoView,
    head_tree: Map<Seq<u8>, Seq<u8>>,
    kind: StatusKind,
    entries: Pairs,
) -> Seq<Seq<u8>>
    decreases entries.len(),
{
    if entries.len() == 0 {
        Seq::empty()
    } else {
        let before = listed(repo, head_tree, kind, entries.drop_last());
        if has_status(repo, head_tree, kind, entries.last().0, entries.last().1) {
            before.push(entries.last().0)
        } else {
            before
        }
    }
}

/// The four lists of a status report, each in the order of the paths.
pub struct StatusReport {
    pub staged: Vec<Vec<u8>>,
    pub modified: Vec<Vec<u8>>,
    pub deleted: Vec<Vec<u8>>,
    pub untracked: Vec<Vec<u8>>,
}

/// The tree of the last commit of the branch that is checked out.
pub fn read_head_tree_map(repo: &Repository) -> (r: ByteMap)
    ensures
        r@ == head_tree_of(repo@),
{
    match &repo.head {
        Head::Detached(_) => ByteMap::new(),
        Head::Symbolic(name) => match repo.branches.get(name.as_slice()) {
            None => ByteMap::new(),
            Some(tip) => {
                if tip.len() < MIN_ID_LEN {
                    return ByteMap::new();
                }
                match commit_entries(&repo.objects, tip.as_slice()) {
                    Ok(tree) => tree,
                    Err(_) => ByteMap::new(),
                }
            },
        },
    }
}

/// Whether a path with its value belongs on the list `kind`.
pub fn check_status(
    repo: &Repository,
    head_tree: &ByteMap,
    kind: StatusKind,
    path: &[u8],
    value: &[u8],
) -> (r: bool)
    ensures
        r == has_status(repo@, head_tree@, kind, path@, value@),
{
    match kind {
        StatusKind::Staged => match head_tree.get(path) {
            Some(committed) => !equal(committed.as_slice(), value),
            None => true,
        },
        StatusKind::Modified => match repo.worktree.get(path) {
            Some(content) => {
                let hash: Vec<u8> = sha1_hash(content.as_slice());
                !equal(hash.as_slice(), value)
            },
            None => false,
        },
        StatusKind::Deleted => !repo.worktree.contains_key(path),
        StatusKind::Untracked => !is_protected_path(repo, path) && !repo.index.contains_key(path),
    }
}

/// The paths among the entries of `source` that belong on the list `kind`.
pub fn list_status(repo: &Repository, head_tree: &ByteMap, kind: StatusKind, source: &ByteMap) -> (r:
    Vec<Vec<u8>>)
    ensures
        views(r@) == listed(repo@, head_tree@, kind, sorted_pairs(source@)),
{
    let n: usize = source.len();
    let ghost ps = source.pairs();
    let mut out: Vec<Vec<u8>> = Vec::new();
    assert(views(out@) =~= Seq::<Seq<u8>>::empty());
    let mut i: usize = 0;
    while i < n
        invariant
            i <= n,
            n == ps.len(),
            ps == source.pairs(),
            views(out@) == listed(repo@, head_tree@, kind, ps.subrange(0, i as int)),
        decreases n - i,
    {
        proof {
            let next = ps.subrange(0, i + 1);
            assert(next.drop_last() =~= ps.subrange(0, i as int));
            assert(next.last() == ps[i as int]);
        }
        let path: &Vec<u8> = source.key_at(i);
        let value: &Vec<u8> = source.value_at(i);
        if check_status(repo, head_tree, kind, path.as_slice(), value.as_slice()) {
            let ghost before = views(out@);
            out.push(to_vec(path.as_slice()));
            assert(views(out@) =~= before.push(path@));
        }
        i += 1;
    }
    assert(ps.subrange(0, n as int) =~= ps);
    out
}

/// `report` is the status of the repository: each list holds its paths in
/// their order.
pub open spec fn is_status_of(report: StatusReport, repo: RepoView) -> bool {
    &&& views(report.staged@) == listed(
        repo,
        head_tree_of(repo),
        StatusKind::Staged,
        sorted_pairs(repo.index),
    )
    &&& views(report.modified@) == listed(
        repo,
        head_tree_of(repo),
        StatusKind::Modified,
        sorted_pairs(repo.index),
    )
    &&& views(report.deleted@) == listed(
        repo,
        head_tree_of(repo),
        StatusKind::Deleted,
        sorted_pairs(repo.index),
    )
    &&& views(report.untracked@) == listed(
        repo,
        head_tree_of(repo),
        StatusKind::Untracked,
        sorted_pairs(repo.worktree),
    )
}

/// The status of the working tree.
pub fn git_status(repo: &Repository) -> (r: StatusReport)
    ensures
        is_status_of(r, repo@),
{
    let head_tree: ByteMap = read_head_tree_map(repo);
    StatusReport {
        staged: list_status(repo, &head_tree, StatusKind::Staged, &repo.index),
        modified: list_status(repo, &head_tree, StatusKind::Modified, &repo.index),
        deleted: list_status(repo, &head_tree, StatusKind::Deleted, &repo.index),
        untracked: list_status(repo, &head_tree, StatusKind::Untracked, &repo.worktree),
    }
}

} // verus!
