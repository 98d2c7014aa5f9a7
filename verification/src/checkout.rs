//! Checking out a branch or a commit.

use crate::bytes::{has_prefix, starts_with, to_vec};
use crate::commit::{read_commit_tree, tree_of};
use crate::error::{Error, NameError};
use crate::hash::{commit_hash_form, is_commit_hash, is_hex_digit};
use crate::reference::{
    head_commit, is_forbidden, has_forbidden, name_violation, read_head_commit_hash, ref_tag,
    ref_tag_bytes, set_detached_head, set_head, valid_branch_name, validate_branch_name,
    with_branch, with_detached_head, with_symbolic_head, HeadView,
};
use crate::repository::{RepoView, Repository};
use crate::worktree::{clean_working_directory, cleared, restore_tree, restored};
use vstd::prelude::*;

verus! {

/// How a checkout ended.
#[derive(Clone, Copy, Debug, PartialEq, Eq, Structural)]
pub enum CheckoutOutcome {
    /// The target has the form `ref: ...`, which names neither a branch nor a
    /// commit. Nothing changed.
    RefSyntax,
    /// HEAD is at the commit and the working tree holds its files.
    Detached,
    /// HEAD is at the commit, but its tree could not be restored: the working
    /// tree is cleared.
    DetachedUnreadable(Error),
    /// The target is no name for a branch. Nothing changed.
    InvalidName(NameError),
    /// The branch to create is there already. Nothing changed.
    AlreadyExists,
    /// There is no such branch. Nothing changed.
    NotFound,
    /// HEAD is on the branch, which has no commits: the working tree is
    /// cleared.
    EmptyBranch,
    /// HEAD is on the branch and the working tree holds the files of its last
    /// commit.
    Switched,
    /// HEAD is on the branch, but the tree of its last commit could not be
    /// restored: the working tree is cleared.
    Unreadable(Error),
}

/// What restoring the tree of `commit` does: the working tree holds the files
/// of that tree, or is cleared where the commit, its tree or a blob cannot be
/// read.
pub open spec fn commit_restored(repo: RepoView, commit: Seq<u8>) -> (Result<(), Error>, RepoView) {
    match tree_of(repo.objects, commit) {
        Err(e) => (Err(e), cleared(repo)),
        Ok(tree) => match restored(repo, tree) {
            Ok(after) => (Ok(()), after),
            Err(e) => (Err(e), cleared(repo)),
        },
    }
}

/// What a checkout of `target` does, with `create` for a branch that is to
/// be created first.
///
/// - A target of the form `ref: ...` is refused.
/// - Forty hexadecimal digits, without `create`, are a commit: HEAD is
///   detached at it and its tree is restored.
/// - Any other target is the name of a branch and has to obey the rules for
///   names. With `create` the branch must not exist and is created at the
///   commit of HEAD; without, it must exist. HEAD is put on the branch and the
///   tree of its last commit is restored; a branch without commits leaves the
///   working tree cleared.
pub open spec fn checked_out(repo: RepoView, target: Seq<u8>, create: bool) -> (
    CheckoutOutcome,
    RepoView,
) {
    if has_prefix(target, ref_tag()) {
        (CheckoutOutcome::RefSyntax, repo)
    } else if !create && commit_hash_form(target) {
        let at = commit_restored(with_detached_head(repo, target), target);
        match at.0 {
            Ok(_) => (CheckoutOutcome::Detached, at.1),
            Err(e) => (CheckoutOutcome::DetachedUnreadable(e), at.1),
        }
    } else {
        match name_violation(target) {
            Some(e) => (CheckoutOutcome::InvalidName(e), repo),
            None => if create && repo.branches.contains_key(target) {
                (CheckoutOutcome::AlreadyExists, repo)
            } else if !create && !repo.branches.contains_key(target) {
                (CheckoutOutcome::NotFound, repo)
            } else {
                let with = if create {
                    with_branch(repo, target, head_commit(repo))
                } else {
                    repo
                };
                let on = with_symbolic_head(with, target);
                let tip = on.branches[target];
                if tip.len() == 0 {
                    (CheckoutOutcome::EmptyBranch, cleared(on))
                } else {
                    let at = commit_restored(on, tip);
                    match at.0 {
                        Ok(_) => (CheckoutOutcome::Switched, at.1),
                        Err(e) => (CheckoutOutcome::Unreadable(e), at.1),
                    }
                }
            },
        }
    }
}

/// Clears the working tree and writes the files of the tree of `commit`
/// into it.
pub fn restore_commit(commit: &[u8], repo: &mut Repository) -> (r: Result<(), Error>)
    ensures
        r == commit_restored(old(repo)@, commit@).0,
        final(repo)@ == commit_restored(old(repo)@, commit@).1,
{
    match read_commit_tree(commit, &repo.objects) {
        Err(e) => {
            clean_working_directory(repo);
            Err(e)
        },
        Ok(tree) => {
            let r: Result<(), Error> = restore_tree(tree.as_slice(), repo);
            proof {
                let want = restored(old(repo)@, tree@);
                match r {
                    Ok(u) => {
                        assert(want == Ok::<RepoView, Error>(repo@));
                        assert(u == ());
                    },
                    Err(e) => {
                        assert(want == Err::<RepoView, Error>(e));
                    },
                }
            }
            r
        },
    }
}

/// Checks out the branch or the commit `target`; with `create` the branch is
/// created first.
pub fn git_checkout(repo: &mut Repository, target: &[u8], create: bool) -> (r: CheckoutOutcome)
    ensures
        r == checked_out(old(repo)@, target@, create).0,
        final(repo)@ == checked_out(old(repo)@, target@, create).1,
{
    if starts_with(target, ref_tag_bytes()) {
        return CheckoutOutcome::RefSyntax;
    }
    if !create && is_commit_hash(target) {
        set_detached_head(repo, target);
        return match restore_commit(target, repo) {
            Ok(_) => CheckoutOutcome::Detached,
            Err(e) => CheckoutOutcome::DetachedUnreadable(e),
        };
    }
    match validate_branch_name(target) {
        Err(e) => {
            return CheckoutOutcome::InvalidName(e);
        },
        Ok(_) => {},
    }
    let exists: bool = repo.branches.contains_key(target);
    if create {
        if exists {
            return CheckoutOutcome::AlreadyExists;
        }
        let commit: Vec<u8> = match read_head_commit_hash(repo) {
            Ok(commit) => commit,
            Err(_) => Vec::new(),
        };
        repo.branches.insert(to_vec(target), commit);
    } else if !exists {
        return CheckoutOutcome::NotFound;
    }
    set_head(repo, target);
    let tip: Vec<u8> = match repo.branches.get(target) {
        Some(tip) => to_vec(tip.as_slice()),
        None => Vec::new(),
    };
    if tip.len() == 0 {
        clean_working_directory(repo);
        return CheckoutOutcome::EmptyBranch;
    }
    match restore_commit(tip.as_slice(), repo) {
        Ok(_) => CheckoutOutcome::Switched,
        Err(e) => CheckoutOutcome::Unreadable(e),
    }
}

/// A checkout of a commit puts HEAD at that commit itself, and a checkout of
/// a branch after it puts HEAD on that branch. The name of the branch must
/// not have the form of a commit identifier, which would be taken for one.
pub proof fn law_detached_round_trip(repo: RepoView, commit: Seq<u8>, branch: Seq<u8>)
    requires
        commit_hash_form(commit),
        valid_branch_name(branch),
        !commit_hash_form(branch),
        repo.branches.contains_key(branch),
    ensures
        checked_out(repo, commit, false).1.head == HeadView::Detached(commit),
        checked_out(checked_out(repo, commit, false).1, branch, false).1.head
            == HeadView::Symbolic(branch),
{
    reveal_strlit("ref: ");
    let tag = ref_tag();
    assert(tag.len() == 5);
    assert(tag[0] == 'r' as u8);
    assert(tag[3] == ':' as u8);
    if has_prefix(commit, tag) {
        assert(commit.subrange(0, 5)[0] == tag[0]);
        assert(is_hex_digit(commit[0]));
    }
    if has_prefix(branch, tag) {
        assert(branch.subrange(0, 5)[3] == tag[3]);
        assert(is_forbidden(branch[3]));
        assert(has_forbidden(branch));
    }
    let first = checked_out(repo, commit, false).1;
    assert(first.branches == repo.branches);
}

} // verus!
