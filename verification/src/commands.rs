//! The commands of the repository: what each decides and changes.

use crate::bytemap::ByteMap;
use crate::bytes::{append, ascii_bytes, equal, literal, to_vec};
use crate::commit::{
    create_commit, create_merge_commit, committed, find_common_ancestor, merge_base_of,
    merge_commit_text, next_commit_text, read_commit_tree, tree_of, MIN_ID_LEN,
};
use crate::error::Error;
use crate::hash::sha1_hex;
use crate::index::{add_to_index, added};
use crate::merge::{conflict_views, conflicts_of, find_conflicts, Conflict, ConflictView};
use crate::objects::{stored, ObjectStore};
use crate::reference::{
    branch_created, branch_deleted, create_branch, current_branch, delete_branch,
    get_current_branch_name, list_branches, HeadView,
};
use crate::repository::{init_repository, initial, option_view, RepoView, Repository};
use crate::tree::{
    merge_tree_simple, merged_tree, parse_tree, read_tree_entries, tree_text_of,
    write_tree_from_map,
};
use crate::worktree::{blobs_stored, check_blobs, cleaned, materialize, materialized};
use vstd::prelude::*;

verus! {

/// The entries of the tree of `commit`: an error where the commit cannot be
/// read, and `NotFound` where its tree is not stored.
pub open spec fn tree_entries_of(objects: Map<Seq<u8>, Seq<u8>>, commit: Seq<u8>) -> Result<
    Map<Seq<u8>, Seq<u8>>,
    Error,
> {
    match tree_of(objects, commit) {
        Err(e) => Err(e),
        Ok(tree) => if objects.contains_key(tree) {
            Ok(parse_tree(objects[tree]))
        } else {
            Err(Error::NotFound)
        },
    }
}

/// The entries of the tree of the merge base of two commits: none where the
/// histories do not meet or the tree of the base is not stored, an error
/// where the base cannot be read.
pub open spec fn base_entries_of(
    objects: Map<Seq<u8>, Seq<u8>>,
    current: Seq<u8>,
    target: Seq<u8>,
) -> Result<Map<Seq<u8>, Seq<u8>>, Error> {
    match merge_base_of(objects, current, target) {
        None => Ok(Map::empty()),
        Some(base) => match tree_of(objects, base) {
            Err(e) => Err(e),
            Ok(tree) => if objects.contains_key(tree) {
                Ok(parse_tree(objects[tree]))
            } else {
                Ok(Map::empty())
            },
        },
    }
}

/// The entries of the tree of `commit`.
pub fn commit_entries(store: &ObjectStore, commit: &[u8]) -> (r: Result<ByteMap, Error>)
    ensures
        match r {
            Ok(tree) => tree_entries_of(store@, commit@) == Ok::<Map<Seq<u8>, Seq<u8>>, Error>(
                tree@,
            ),
            Err(e) => tree_entries_of(store@, commit@) == Err::<Map<Seq<u8>, Seq<u8>>, Error>(e),
        },
{
    match read_commit_tree(commit, store) {
        Err(e) => Err(e),
        Ok(tree) => read_tree_entries(tree.as_slice(), store),
    }
}

/// The entries of the tree of the merge base of two commits.
pub fn base_entries(store: &ObjectStore, current: &[u8], target: &[u8]) -> (r: Result<
    ByteMap,
    Error,
>)
    ensures
        match r {
            Ok(tree) => base_entries_of(store@, current@, target@) == Ok::<
                Map<Seq<u8>, Seq<u8>>,
                Error,
            >(tree@),
            Err(e) => base_entries_of(store@, current@, target@) == Err::<
                Map<Seq<u8>, Seq<u8>>,
                Error,
            >(e),
        },
{
    match find_common_ancestor(current, target, store) {
        None => Ok(ByteMap::new()),
        Some(base) => match read_commit_tree(base.as_slice(), store) {
            Err(e) => Err(e),
            Ok(tree) => match read_tree_entries(tree.as_slice(), store) {
                Ok(entries) => Ok(entries),
                Err(_) => Ok(ByteMap::new()),
            },
        },
    }
}

/// The message of a merge commit: `Merge branch '<target>' into '<current>'`.
pub open spec fn merge_message(target: Seq<u8>, current: Seq<u8>) -> Seq<u8> {
    ascii_bytes("Merge branch '"@) + target + ascii_bytes("' into '"@) + current + ascii_bytes(
        "'"@,
    )
}

/// The message of a merge commit.
pub fn merge_message_bytes(target: &[u8], current: &[u8]) -> (r: Vec<u8>)
    ensures
        r@ == merge_message(target@, current@),
{
    proof {
        reveal_strlit("Merge branch '");
        reveal_strlit("' into '");
        reveal_strlit("'");
    }
    let mut out: Vec<u8> = to_vec(literal("Merge branch '"));
    append(&mut out, target);
    append(&mut out, literal("' into '"));
    append(&mut out, current);
    append(&mut out, literal("'"));
    assert(out@ =~= merge_message(target@, current@));
    out
}

/// How a merge ended.
pub enum MergeOutcome {
    /// HEAD is not on a branch. Nothing changed.
    NotOnBranch,
    /// There is no branch of that name. Nothing changed.
    TargetMissing,
    /// The two branches are at the same commit. Nothing changed.
    AlreadyUpToDate,
    /// One of the two branches has no commits. Nothing changed.
    EmptyBranch,
    /// A commit, a tree or a blob that the merge needs cannot be read.
    /// Nothing changed.
    Unreadable(Error),
    /// Both sides changed the same lines. Nothing changed.
    Conflicted(Vec<Conflict>),
    /// The merge commit was made: the current branch is at it and the working
    /// tree holds the merged files.
    Merged(Vec<u8>),
}

/// How a merge ended, over byte sequences.
pub enum MergeView {
    NotOnBranch,
    TargetMissing,
    AlreadyUpToDate,
    EmptyBranch,
    Unreadable(Error),
    Conflicted(Seq<ConflictView>),
    Merged(Seq<u8>),
}

impl View for MergeOutcome {
    type V = MergeView;

    open spec fn view(&self) -> MergeView {
        match self {
            MergeOutcome::NotOnBranch => MergeView::NotOnBranch,
            MergeOutcome::TargetMissing => MergeView::TargetMissing,
            MergeOutcome::AlreadyUpToDate => MergeView::AlreadyUpToDate,
            MergeOutcome::EmptyBranch => MergeView::EmptyBranch,
            MergeOutcome::Unreadable(e) => MergeView::Unreadable(*e),
            MergeOutcome::Conflicted(conflicts) => MergeView::Conflicted(conflict_views(conflicts@)),
            MergeOutcome::Merged(commit) => MergeView::Merged(commit@),
        }
    }
}

/// The text of the merge commit for the merged tree `tree`.
pub open spec fn merge_text(
    tree: Map<Seq<u8>, Seq<u8>>,
    mine: Seq<u8>,
    theirs: Seq<u8>,
    target: Seq<u8>,
    current: Seq<u8>,
) -> Seq<u8> {
    merge_commit_text(sha1_hex(tree_text_of(tree)), mine, theirs, merge_message(target, current))
}

/// The repository after a merge with the merged tree `tree`: the tree and
/// the merge commit are stored, the current branch is at the merge commit,
/// and the working tree holds the merged files.
pub open spec fn merge_done(
    repo: RepoView,
    tree: Map<Seq<u8>, Seq<u8>>,
    mine: Seq<u8>,
    theirs: Seq<u8>,
    target: Seq<u8>,
    current: Seq<u8>,
) -> RepoView {
    let text = merge_text(tree, mine, theirs, target, current);
    let objects = stored(
        stored(repo.objects, sha1_hex(tree_text_of(tree)), tree_text_of(tree)),
        sha1_hex(text),
        text,
    );
    RepoView {
        objects,
        branches: repo.branches.insert(current, sha1_hex(text)),
        worktree: materialized(
            cleaned(repo.worktree, repo.git_dir, repo.exe),
            objects,
            tree,
            repo.git_dir,
            repo.exe,
        ),
        ..repo
    }
}

/// What merging does once the trees of the two commits and of their merge
/// base are read: with a conflict nothing changes; without, the merge is
/// made, unless a blob of the merged tree is not stored.
#[verifier::opaque]
pub open spec fn merge_of_trees(
    repo: RepoView,
    base_tree: Map<Seq<u8>, Seq<u8>>,
    current_tree: Map<Seq<u8>, Seq<u8>>,
    target_tree: Map<Seq<u8>, Seq<u8>>,
    mine: Seq<u8>,
    theirs: Seq<u8>,
    target: Seq<u8>,
    current: Seq<u8>,
) -> (MergeView, RepoView) {
    let conflicts = conflicts_of(repo.objects, base_tree, current_tree, target_tree);
    let tree = merged_tree(base_tree, current_tree, target_tree);
    if conflicts.len() > 0 {
        (MergeView::Conflicted(conflicts), repo)
    } else if !blobs_stored(repo.objects, tree, repo.git_dir, repo.exe) {
        (MergeView::Unreadable(Error::NotFound), repo)
    } else {
        (
            MergeView::Merged(sha1_hex(merge_text(tree, mine, theirs, target, current))),
            merge_done(repo, tree, mine, theirs, target, current),
        )
    }
}

/// What merging the commit `theirs` of the branch `target` into the commit
/// `mine` of the branch `current` does: the trees of the two commits and of
/// their merge base are read, in this order, and merged.
pub open spec fn merge_of_commits(
    repo: RepoView,
    mine: Seq<u8>,
    theirs: Seq<u8>,
    target: Seq<u8>,
    current: Seq<u8>,
) -> (MergeView, RepoView) {
    match tree_entries_of(repo.objects, mine) {
        Err(e) => (MergeView::Unreadable(e), repo),
        Ok(current_tree) => match tree_entries_of(repo.objects, theirs) {
            Err(e) => (MergeView::Unreadable(e), repo),
            Ok(target_tree) => match base_entries_of(repo.objects, mine, theirs) {
                Err(e) => (MergeView::Unreadable(e), repo),
                Ok(base_tree) => merge_of_trees(
                    repo,
                    base_tree,
                    current_tree,
                    target_tree,
                    mine,
                    theirs,
                    target,
                    current,
                ),
            },
        },
    }
}

/// What merging the branch `target` into the current branch does.
///
/// The merge needs HEAD on a branch and an existing target. Two branches at
/// the same commit are up to date; else both need a commit. The trees of the
/// two commits and of their merge base are read, and the files that both
/// sides changed are compared line by line. With a conflict nothing changes.
/// Without, the merged tree and a commit with the two commits as parents
/// are stored, the current branch moves to that commit, and the working tree
/// is filled from the merged tree.
pub open spec fn merge_of(repo: RepoView, target: Seq<u8>) -> (MergeView, RepoView) {
    match repo.head {
        HeadView::Detached(_) => (MergeView::NotOnBranch, repo),
        HeadView::Symbolic(current) => if !repo.branches.contains_key(target) {
            (MergeView::TargetMissing, repo)
        } else {
            let mine = if repo.branches.contains_key(current) {
                repo.branches[current]
            } else {
                Seq::empty()
            };
            let theirs = repo.branches[target];
            if mine == theirs {
                (MergeView::AlreadyUpToDate, repo)
            } else if mine.len() < MIN_ID_LEN || theirs.len() < MIN_ID_LEN {
                (MergeView::EmptyBranch, repo)
            } else {
                merge_of_commits(repo, mine, theirs, target, current)
            }
        },
    }
}

/// Blobs that are stored stay stored when an object is put into the store.
pub proof fn lemma_blobs_stay(
    objects: Map<Seq<u8>, Seq<u8>>,
    tree: Map<Seq<u8>, Seq<u8>>,
    git_dir: Seq<u8>,
    exe: Option<Seq<u8>>,
    id: Seq<u8>,
    content: Seq<u8>,
)
    requires
        blobs_stored(objects, tree, git_dir, exe),
    ensures
        blobs_stored(stored(objects, id, content), tree, git_dir, exe),
{
}

/// Stores the merged tree and the merge commit, moves the current branch to
/// the commit and fills the working tree from the merged tree.
fn apply_merge(
    repo: &mut Repository,
    tree: &ByteMap,
    mine: &[u8],
    theirs: &[u8],
    target: &[u8],
    current: Vec<u8>,
) -> (id: Vec<u8>)
    requires
        blobs_stored(old(repo)@.objects, tree@, old(repo)@.git_dir, old(repo)@.exe),
    ensures
        id@ == sha1_hex(merge_text(tree@, mine@, theirs@, target@, current@)),
        final(repo)@ == merge_done(old(repo)@, tree@, mine@, theirs@, target@, current@),
{
    let ghost before = repo@;
    let ghost tree_text = tree_text_of(tree@);
    let ghost text = merge_text(tree@, mine@, theirs@, target@, current@);
    let tree_hash: Vec<u8> = write_tree_from_map(tree, &mut repo.objects);
    let message: Vec<u8> = merge_message_bytes(target, current.as_slice());
    let id: Vec<u8> = create_merge_commit(
        &mut repo.objects,
        tree_hash.as_slice(),
        mine,
        theirs,
        message.as_slice(),
    );
    repo.branches.insert(current, to_vec(id.as_slice()));
    proof {
        let first = stored(before.objects, sha1_hex(tree_text), tree_text);
        lemma_blobs_stay(
            before.objects,
            tree@,
            before.git_dir,
            before.exe,
            sha1_hex(tree_text),
            tree_text,
        );
        lemma_blobs_stay(first, tree@, before.git_dir, before.exe, sha1_hex(text), text);
    }
    let filled: Result<(), Error> = materialize(tree, repo);
    assert(filled is Ok);
    assert(repo@ =~= merge_done(before, tree@, mine@, theirs@, target@, current@));
    id
}

/// Merges the three trees: reports the conflicts, or makes the merge.
fn merge_trees(
    repo: &mut Repository,
    base_tree: &ByteMap,
    current_tree: &ByteMap,
    target_tree: &ByteMap,
    mine: &[u8],
    theirs: &[u8],
    target: &[u8],
    current: Vec<u8>,
) -> (r: MergeOutcome)
    ensures
        r@ == merge_of_trees(
            old(repo)@,
            base_tree@,
            current_tree@,
            target_tree@,
            mine@,
            theirs@,
            target@,
            current@,
        ).0,
        final(repo)@ == merge_of_trees(
            old(repo)@,
            base_tree@,
            current_tree@,
            target_tree@,
            mine@,
            theirs@,
            target@,
            current@,
        ).1,
{
    reveal(merge_of_trees);
    let conflicts: Vec<Conflict> = find_conflicts(
        &repo.objects,
        base_tree,
        current_tree,
        target_tree,
    );
    if conflicts.len() > 0 {
        return MergeOutcome::Conflicted(conflicts);
    }
    let tree: ByteMap = merge_tree_simple(base_tree, current_tree, target_tree);
    if !check_blobs(repo, &tree) {
        return MergeOutcome::Unreadable(Error::NotFound);
    }
    let id: Vec<u8> = apply_merge(repo, &tree, mine, theirs, target, current);
    MergeOutcome::Merged(id)
}

/// Reads the trees of the two commits and of their merge base and merges
/// them.
fn merge_commits(
    repo: &mut Repository,
    mine: &[u8],
    theirs: &[u8],
    target: &[u8],
    current: Vec<u8>,
) -> (r: MergeOutcome)
    ensures
        r@ == merge_of_commits(old(repo)@, mine@, theirs@, target@, current@).0,
        final(repo)@ == merge_of_commits(old(repo)@, mine@, theirs@, target@, current@).1,
{
    let current_tree: ByteMap = match commit_entries(&repo.objects, mine) {
        Ok(tree) => tree,
        Err(e) => {
            return MergeOutcome::Unreadable(e);
        },
    };
    let target_tree: ByteMap = match commit_entries(&repo.objects, theirs) {
        Ok(tree) => tree,
        Err(e) => {
            return MergeOutcome::Unreadable(e);
        },
    };
    let base_tree: ByteMap = match base_entries(&repo.objects, mine, theirs) {
        Ok(tree) => tree,
        Err(e) => {
            return MergeOutcome::Unreadable(e);
        },
    };
    merge_trees(repo, &base_tree, &current_tree, &target_tree, mine, theirs, target, current)
}

/// Merges the branch `target_branch` into the current branch.
pub fn git_merge(repo: &mut Repository, target_branch: &[u8]) -> (r: MergeOutcome)
    ensures
        r@ == merge_of(old(repo)@, target_branch@).0,
        final(repo)@ == merge_of(old(repo)@, target_branch@).1,
{
    let current: Vec<u8> = match get_current_branch_name(repo) {
        Some(name) => name,
        None => {
            return MergeOutcome::NotOnBranch;
        },
    };
    assert(repo@.head == HeadView::Symbolic(current@));
    let theirs: Vec<u8> = match repo.branches.get(target_branch) {
        Some(tip) => to_vec(tip.as_slice()),
        None => {
            return MergeOutcome::TargetMissing;
        },
    };
    let mine: Vec<u8> = match repo.branches.get(current.as_slice()) {
        Some(tip) => to_vec(tip.as_slice()),
        None => Vec::new(),
    };
    if equal(mine.as_slice(), theirs.as_slice()) {
        return MergeOutcome::AlreadyUpToDate;
    }
    if mine.len() < MIN_ID_LEN || theirs.len() < MIN_ID_LEN {
        return MergeOutcome::EmptyBranch;
    }
    merge_commits(repo, mine.as_slice(), theirs.as_slice(), target_branch, current)
}

/// Merging a branch into itself changes nothing and reports that the branch
/// is up to date.
pub proof fn law_merge_into_itself(repo: RepoView, branch: Seq<u8>)
    requires
        current_branch(repo) == Some(branch),
        repo.branches.contains_key(branch),
    ensures
        merge_of(repo, branch).0 == MergeView::AlreadyUpToDate,
        merge_of(repo, branch).1 == repo,
{
}

/// Makes a new repository.
pub fn git_init(git_dir: &[u8], default_branch: &[u8], exe: Option<Vec<u8>>) -> (r: Repository)
    ensures
        r@ == initial(git_dir@, default_branch@, option_view(exe)),
{
    init_repository(git_dir, default_branch, exe)
}

/// Stages the file or the directory `path`.
pub fn git_add(repo: &mut Repository, path: &[u8]) -> (r: Result<(), Error>)
    ensures
        match r {
            Ok(_) => added(old(repo)@, path@) == Ok::<RepoView, Error>(final(repo)@),
            Err(e) => added(old(repo)@, path@) == Err::<RepoView, Error>(e) && final(repo)@ == old(repo)@,
        },
{
    add_to_index(path, repo)
}

/// Commits what is staged and returns the new commit.
pub fn git_commit(repo: &mut Repository, message: &[u8]) -> (hash: Vec<u8>)
    ensures
        hash@ == sha1_hex(next_commit_text(old(repo)@, message@)),
        crate::hash::commit_hash_form(hash@),
        final(repo)@ == committed(old(repo)@, message@),
{
    create_commit(message, repo)
}

/// `names` are the names of the branches of `repo`, in the order of byte
/// strings.
pub open spec fn is_branch_list(names: Seq<Vec<u8>>, repo: RepoView) -> bool {
    &&& names.len() == crate::bytemap::sorted_pairs(repo.branches).len()
    &&& forall|i: int|
        0 <= i < names.len() ==> (#[trigger] names[i])@ == crate::bytemap::sorted_pairs(
            repo.branches,
        )[i].0
}

/// `result` is what `git_branch` returns for `name` on `before`, and
/// `after` the repository that it leaves: a new branch and an empty list, or
/// the list of the branches, or the error, with nothing changed.
pub open spec fn is_branch_result(
    result: Result<Vec<Vec<u8>>, Error>,
    before: RepoView,
    after: RepoView,
    name: Option<Seq<u8>>,
) -> bool {
    match name {
        Some(n) => match result {
            Ok(names) => names@.len() == 0 && branch_created(before, n) == Ok::<RepoView, Error>(
                after,
            ),
            Err(e) => branch_created(before, n) == Err::<RepoView, Error>(e) && after == before,
        },
        None => after == before && match result {
            Ok(names) => is_branch_list(names@, before),
            Err(_) => false,
        },
    }
}

/// The byte sequence of an optional byte string.
pub open spec fn slice_view(o: Option<&[u8]>) -> Option<Seq<u8>> {
    match o {
        Some(s) => Some(s@),
        None => None,
    }
}

/// Creates the branch `name`, or lists the names of the branches where no
/// name is given. The list is empty after a branch was created.
pub fn git_branch(repo: &mut Repository, name: Option<&[u8]>) -> (r: Result<Vec<Vec<u8>>, Error>)
    ensures
        is_branch_result(r, old(repo)@, final(repo)@, slice_view(name)),
{
    match name {
        Some(n) => match create_branch(repo, n) {
            Ok(_) => Ok(Vec::new()),
            Err(e) => Err(e),
        },
        None => Ok(list_branches(repo)),
    }
}

/// Deletes the branch `name`, unless it is checked out.
pub fn git_branch_delete(repo: &mut Repository, name: &[u8]) -> (r: Result<(), Error>)
    ensures
        match r {
            Ok(_) => branch_deleted(old(repo)@, name@) == Ok::<RepoView, Error>(final(repo)@),
            Err(e) => branch_deleted(old(repo)@, name@) == Err::<RepoView, Error>(e) && final(repo)@ == old(repo)@,
        },
{
    delete_branch(repo, name)
}

} // verus!
