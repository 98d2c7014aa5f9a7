//! Commits: the text in which they are stored, the links to their parents,
//! and the search for the common ancestor of two commits.

use crate::bytemap::ByteMap;
use crate::bytes::{
    after_first, append, ascii_bytes, has_prefix, lines, literal, skip_past, slice, split_lines,
    starts_with, to_vec, trim, trimmed, views, LF,
};
use crate::error::Error;
use crate::hash::{commit_hash_form, sha1_hex};
use crate::objects::{stored, ObjectStore};
use crate::reference::{advance_head, advanced, read_head_commit_hash, resolve_head};
use crate::repository::{option_view, RepoView, Repository};
use crate::tree::{create_tree, snapshot, tree_text_of};
use vstd::prelude::*;

verus! {

/// What stands before the tree identifier in the first line of a commit.
pub open spec fn tree_tag() -> Seq<u8> {
    ascii_bytes("tree "@)
}

/// What stands before the identifier of a parent in a line of a commit.
pub open spec fn parent_tag() -> Seq<u8> {
    ascii_bytes("parent "@)
}

/// What stands before the author in a line of a commit.
pub open spec fn author_tag() -> Seq<u8> {
    ascii_bytes("author "@)
}

/// What stands before the committer in a line of a commit.
pub open spec fn committer_tag() -> Seq<u8> {
    ascii_bytes("committer "@)
}

/// The author and committer of every commit.
pub open spec fn author() -> Seq<u8> {
    ascii_bytes("Your Name <you@example.com>"@)
}

/// The bytes of `tree `.
pub fn tree_tag_bytes() -> (r: &'static [u8])
    ensures
        r@ == tree_tag(),
        r@.len() == 5,
{
    proof {
        reveal_strlit("tree ");
    }
    literal("tree ")
}

/// The bytes of `parent `.
pub fn parent_tag_bytes() -> (r: &'static [u8])
    ensures
        r@ == parent_tag(),
        r@.len() == 7,
{
    proof {
        reveal_strlit("parent ");
    }
    literal("parent ")
}

/// The bytes of `author `.
pub fn author_tag_bytes() -> (r: &'static [u8])
    ensures
        r@ == author_tag(),
{
    proof {
        reveal_strlit("author ");
    }
    literal("author ")
}

/// The bytes of `committer `.
pub fn committer_tag_bytes() -> (r: &'static [u8])
    ensures
        r@ == committer_tag(),
{
    proof {
        reveal_strlit("committer ");
    }
    literal("committer ")
}

/// The author and committer of every commit that the commands make.
pub fn author_bytes() -> (r: &'static [u8])
    ensures
        r@ == author(),
{
    proof {
        reveal_strlit("Your Name <you@example.com>");
    }
    literal("Your Name <you@example.com>")
}

/// One line `parent <identifier>` for each parent, in their order.
pub open spec fn parent_lines(parents: Seq<Seq<u8>>) -> Seq<u8>
    decreases parents.len(),
{
    if parents.len() == 0 {
        Seq::empty()
    } else {
        parent_lines(parents.drop_last()) + parent_tag() + parents.last() + seq![LF]
    }
}

/// The text of a commit: the line of its tree, the lines of its parents, the
/// lines of author and committer, an empty line and the message.
pub open spec fn commit_text(tree: Seq<u8>, parents: Seq<Seq<u8>>, message: Seq<u8>) -> Seq<u8> {
    tree_tag() + tree + seq![LF] + parent_lines(parents) + author_tag() + author() + seq![LF]
        + committer_tag() + author() + seq![LF] + seq![LF] + message
}

/// What stands after `tag` in the first of the lines from index `from` on
/// that starts with `tag`.
pub open spec fn first_tagged(ls: Seq<Seq<u8>>, tag: Seq<u8>, from: int) -> Option<Seq<u8>>
    decreases ls.len() - from,
{
    if from < 0 || from >= ls.len() {
        None
    } else if has_prefix(ls[from], tag) {
        Some(ls[from].subrange(tag.len() as int, ls[from].len() as int))
    } else {
        first_tagged(ls, tag, from + 1)
    }
}

/// The tree that the text of a commit names: what stands after `tree ` in
/// its first line of that form, without white space at the ends.
pub open spec fn commit_tree_of(text: Seq<u8>) -> Option<Seq<u8>> {
    match first_tagged(lines(text), tree_tag(), 0) {
        Some(rest) => Some(trimmed(rest)),
        None => None,
    }
}

/// The first parent that the text of a commit names: what stands after
/// `parent ` in its first line of that form.
pub open spec fn commit_parent_of(text: Seq<u8>) -> Option<Seq<u8>> {
    first_tagged(lines(text), parent_tag(), 0)
}

/// The tree of the commit under `commit`: `NotFound` if nothing is stored
/// under it, `Corrupt` if what is stored has no line for the tree.
pub open spec fn tree_of(objects: Map<Seq<u8>, Seq<u8>>, commit: Seq<u8>) -> Result<Seq<u8>, Error> {
    if !objects.contains_key(commit) {
        Err(Error::NotFound)
    } else {
        match commit_tree_of(objects[commit]) {
            Some(tree) => Ok(tree),
            None => Err(Error::Corrupt),
        }
    }
}

/// The first parent of the commit under `commit`, if it is stored and names
/// one.
pub open spec fn first_parent(objects: Map<Seq<u8>, Seq<u8>>, commit: Seq<u8>) -> Option<Seq<u8>> {
    if objects.contains_key(commit) {
        commit_parent_of(objects[commit])
    } else {
        None
    }
}

/// The text of a commit.
pub fn commit_content(tree: &[u8], parents: &Vec<Vec<u8>>, message: &[u8]) -> (r: Vec<u8>)
    ensures
        r@ == commit_text(tree@, views(parents@), message@),
{
    let mut out: Vec<u8> = Vec::new();
    append(&mut out, tree_tag_bytes());
    append(&mut out, tree);
    out.push(LF);
    let ghost head = out@;
    let mut i: usize = 0;
    while i < parents.len()
        invariant
            i <= parents@.len(),
            out@ == head + parent_lines(views(parents@).subrange(0, i as int)),
        decreases parents@.len() - i,
    {
        let ghost before = out@;
        append(&mut out, parent_tag_bytes());
        append(&mut out, parents[i].as_slice());
        out.push(LF);
        proof {
            let next = views(parents@).subrange(0, i + 1);
            assert(next.drop_last() =~= views(parents@).subrange(0, i as int));
            assert(next.last() == parents@[i as int]@);
            assert(out@ =~= head + parent_lines(next));
        }
        i += 1;
    }
    assert(views(parents@).subrange(0, parents@.len() as int) =~= views(parents@));
    append(&mut out, author_tag_bytes());
    append(&mut out, author_bytes());
    out.push(LF);
    append(&mut out, committer_tag_bytes());
    append(&mut out, author_bytes());
    out.push(LF);
    out.push(LF);
    append(&mut out, message);
    assert(out@ =~= commit_text(tree@, views(parents@), message@));
    out
}

/// What stands after `tag` in the first line of `content` that starts with
/// `tag`.
pub fn tagged_line(content: &[u8], tag: &[u8]) -> (r: Option<Vec<u8>>)
    ensures
        option_view(r) == first_tagged(lines(content@), tag@, 0),
{
    let ls: Vec<Vec<u8>> = split_lines(content);
    let mut i: usize = 0;
    while i < ls.len()
        invariant
            i <= ls@.len(),
            views(ls@) == lines(content@),
            first_tagged(lines(content@), tag@, 0) == first_tagged(lines(content@), tag@, i as int),
        decreases ls@.len() - i,
    {
        let line: &[u8] = ls[i].as_slice();
        assert(line@ == views(ls@)[i as int]);
        if starts_with(line, tag) {
            let n: usize = line.len();
            return Some(to_vec(slice(line, tag.len(), n)));
        }
        i += 1;
    }
    None
}

/// The tree of the commit that is stored under `commit_hash`.
pub fn read_commit_tree(commit_hash: &[u8], store: &ObjectStore) -> (r: Result<Vec<u8>, Error>)
    ensures
        match r {
            Ok(tree) => tree_of(store@, commit_hash@) == Ok::<Seq<u8>, Error>(tree@),
            Err(e) => tree_of(store@, commit_hash@) == Err::<Seq<u8>, Error>(e),
        },
{
    match store.get_object(commit_hash) {
        Err(e) => Err(e),
        Ok(content) => match tagged_line(content.as_slice(), tree_tag_bytes()) {
            Some(rest) => Ok(to_vec(trim(rest.as_slice()))),
            None => Err(Error::Corrupt),
        },
    }
}

/// The first parent of the commit that is stored under `commit`.
pub fn read_commit_parent(commit: &[u8], store: &ObjectStore) -> (r: Option<Vec<u8>>)
    ensures
        option_view(r) == first_parent(store@, commit@),
{
    match store.get_object(commit) {
        Err(_) => None,
        Ok(content) => tagged_line(content.as_slice(), parent_tag_bytes()),
    }
}

/// What stands after `tag` in each of the lines from index `from` on that
/// start with `tag`, in their order.
pub open spec fn all_tagged(ls: Seq<Seq<u8>>, tag: Seq<u8>, from: int) -> Seq<Seq<u8>>
    decreases ls.len() - from,
{
    if from < 0 || from >= ls.len() {
        Seq::empty()
    } else if has_prefix(ls[from], tag) {
        seq![ls[from].subrange(tag.len() as int, ls[from].len() as int)] + all_tagged(
            ls,
            tag,
            from + 1,
        )
    } else {
        all_tagged(ls, tag, from + 1)
    }
}

/// What stands after `tag` in the first line that starts with it, or
/// nothing.
pub open spec fn tagged_or_empty(ls: Seq<Seq<u8>>, tag: Seq<u8>) -> Seq<u8> {
    match first_tagged(ls, tag, 0) {
        Some(rest) => rest,
        None => Seq::empty(),
    }
}

/// A commit: its tree, its parents, who made it, and its message.
pub struct Commit {
    /// The identifier of the tree.
    pub tree: Vec<u8>,
    /// The identifiers of the parents: none for a first commit, one for an
    /// ordinary commit, two for a merge, the current commit first.
    pub parents: Vec<Vec<u8>>,
    pub author: Vec<u8>,
    pub committer: Vec<u8>,
    pub message: Vec<u8>,
}

/// A commit over byte sequences.
#[verifier::ext_equal]
pub struct CommitView {
    pub tree: Seq<u8>,
    pub parents: Seq<Seq<u8>>,
    pub author: Seq<u8>,
    pub committer: Seq<u8>,
    pub message: Seq<u8>,
}

impl View for Commit {
    type V = CommitView;

    open spec fn view(&self) -> CommitView {
        CommitView {
            tree: self.tree@,
            parents: views(self.parents@),
            author: self.author@,
            committer: self.committer@,
            message: self.message@,
        }
    }
}

/// The text of a commit with its own author and committer.
pub open spec fn commit_fields_text(c: CommitView) -> Seq<u8> {
    tree_tag() + c.tree + seq![LF] + parent_lines(c.parents) + author_tag() + c.author + seq![LF]
        + committer_tag() + c.committer + seq![LF] + seq![LF] + c.message
}

/// The commit that a text stands for, if it names a tree: the tree, the
/// parents, the author and the committer are what stands after `tree `,
/// `parent `, `author ` and `committer ` at the start of a line, and the
/// message is what follows the first empty line.
pub open spec fn parse_commit_text(text: Seq<u8>) -> Option<CommitView> {
    match commit_tree_of(text) {
        None => None,
        Some(tree) => Some(
            CommitView {
                tree,
                parents: all_tagged(lines(text), parent_tag(), 0),
                author: tagged_or_empty(lines(text), author_tag()),
                committer: tagged_or_empty(lines(text), committer_tag()),
                message: match after_first(text, seq![LF, LF]) {
                    Some(rest) => rest,
                    None => Seq::empty(),
                },
            },
        ),
    }
}

/// The commit that is stored under `hash`: `NotFound` if nothing is stored
/// under it, `Corrupt` if what is stored names no tree.
pub open spec fn commit_of(objects: Map<Seq<u8>, Seq<u8>>, hash: Seq<u8>) -> Result<
    CommitView,
    Error,
> {
    if !objects.contains_key(hash) {
        Err(Error::NotFound)
    } else {
        match parse_commit_text(objects[hash]) {
            Some(c) => Ok(c),
            None => Err(Error::Corrupt),
        }
    }
}

/// The text of a commit with its own author and committer.
pub fn commit_fields_content(c: &Commit) -> (r: Vec<u8>)
    ensures
        r@ == commit_fields_text(c@),
{
    let mut out: Vec<u8> = Vec::new();
    append(&mut out, tree_tag_bytes());
    append(&mut out, c.tree.as_slice());
    out.push(LF);
    let ghost head = out@;
    let mut i: usize = 0;
    while i < c.parents.len()
        invariant
            i <= c.parents@.len(),
            out@ == head + parent_lines(views(c.parents@).subrange(0, i as int)),
        decreases c.parents@.len() - i,
    {
        append(&mut out, parent_tag_bytes());
        append(&mut out, c.parents[i].as_slice());
        out.push(LF);
        proof {
            let next = views(c.parents@).subrange(0, i + 1);
            assert(next.drop_last() =~= views(c.parents@).subrange(0, i as int));
            assert(next.last() == c.parents@[i as int]@);
            assert(out@ =~= head + parent_lines(next));
        }
        i += 1;
    }
    assert(views(c.parents@).subrange(0, c.parents@.len() as int) =~= views(c.parents@));
    append(&mut out, author_tag_bytes());
    append(&mut out, c.author.as_slice());
    out.push(LF);
    append(&mut out, committer_tag_bytes());
    append(&mut out, c.committer.as_slice());
    out.push(LF);
    out.push(LF);
    append(&mut out, c.message.as_slice());
    assert(out@ =~= commit_fields_text(c@));
    out
}

/// Stores a commit and returns its identifier.
pub fn put_commit(store: &mut ObjectStore, c: &Commit) -> (hash: Vec<u8>)
    ensures
        hash@ == sha1_hex(commit_fields_text(c@)),
        commit_hash_form(hash@),
        final(store)@ == stored(old(store)@, hash@, commit_fields_text(c@)),
{
    let content: Vec<u8> = commit_fields_content(c);
    store.put_object(content.as_slice())
}

/// What stands after `tag` in each line of `content` that starts with `tag`.
pub fn tagged_lines(content: &[u8], tag: &[u8]) -> (r: Vec<Vec<u8>>)
    ensures
        views(r@) == all_tagged(lines(content@), tag@, 0),
{
    let ls: Vec<Vec<u8>> = split_lines(content);
    let mut out: Vec<Vec<u8>> = Vec::new();
    let mut i: usize = 0;
    assert(views(out@) + all_tagged(lines(content@), tag@, 0) =~= all_tagged(
        lines(content@),
        tag@,
        0,
    ));
    while i < ls.len()
        invariant
            i <= ls@.len(),
            views(ls@) == lines(content@),
            views(out@) + all_tagged(lines(content@), tag@, i as int) == all_tagged(
                lines(content@),
                tag@,
                0,
            ),
        decreases ls@.len() - i,
    {
        let line: &[u8] = ls[i].as_slice();
        assert(line@ == views(ls@)[i as int]);
        if starts_with(line, tag) {
            let n: usize = line.len();
            let ghost before = views(out@);
            let rest: Vec<u8> = to_vec(slice(line, tag.len(), n));
            out.push(rest);
            proof {
                assert(views(out@) =~= before.push(rest@));
                assert(before + all_tagged(lines(content@), tag@, i as int) =~= before.push(rest@)
                    + all_tagged(lines(content@), tag@, i + 1));
            }
        }
        i += 1;
    }
    assert(views(out@) + all_tagged(lines(content@), tag@, i as int) =~= views(out@));
    out
}

/// Reads the text of a commit.
pub fn parse_commit(content: &[u8]) -> (r: Option<Commit>)
    ensures
        match r {
            Some(c) => parse_commit_text(content@) == Some(c@),
            None => parse_commit_text(content@) is None,
        },
{
    let tree: Vec<u8> = match tagged_line(content, tree_tag_bytes()) {
        Some(rest) => to_vec(trim(rest.as_slice())),
        None => {
            return None;
        },
    };
    let parents: Vec<Vec<u8>> = tagged_lines(content, parent_tag_bytes());
    let author: Vec<u8> = match tagged_line(content, author_tag_bytes()) {
        Some(rest) => rest,
        None => Vec::new(),
    };
    let committer: Vec<u8> = match tagged_line(content, committer_tag_bytes()) {
        Some(rest) => rest,
        None => Vec::new(),
    };
    let gap: Vec<u8> = vec![LF, LF];
    assert(gap@ =~= seq![LF, LF]);
    let message: Vec<u8> = match skip_past(content, gap.as_slice()) {
        Some(rest) => to_vec(rest),
        None => Vec::new(),
    };
    let c = Commit { tree, parents, author, committer, message };
    assert(c@ =~= parse_commit_text(content@)->0);
    Some(c)
}

/// The commit that is stored under `hash`.
pub fn get_commit(hash: &[u8], store: &ObjectStore) -> (r: Result<Commit, Error>)
    ensures
        match r {
            Ok(c) => commit_of(store@, hash@) == Ok::<CommitView, Error>(c@),
            Err(e) => commit_of(store@, hash@) == Err::<CommitView, Error>(e),
        },
{
    match store.get_object(hash) {
        Err(e) => Err(e),
        Ok(content) => match parse_commit(content.as_slice()) {
            Some(c) => Ok(c),
            None => Err(Error::Corrupt),
        },
    }
}

/// The parents of the next commit: the commit of HEAD, or none where HEAD
/// stands for no commit yet.
pub open spec fn next_parents(repo: RepoView) -> Seq<Seq<u8>> {
    match resolve_head(repo) {
        Ok(commit) => if commit.len() > 0 {
            seq![commit]
        } else {
            Seq::empty()
        },
        Err(_) => Seq::empty(),
    }
}

/// The text of the tree of the next commit.
pub open spec fn next_tree_text(repo: RepoView) -> Seq<u8> {
    tree_text_of(snapshot(repo.index, repo.worktree))
}

/// The text of the next commit with the message `message`.
pub open spec fn next_commit_text(repo: RepoView, message: Seq<u8>) -> Seq<u8> {
    commit_text(sha1_hex(next_tree_text(repo)), next_parents(repo), message)
}

/// The repository after a commit with the message `message`: the tree of
/// the staged files and the commit are stored, and the branch that is checked
/// out, or a detached HEAD, is at the new commit.
pub open spec fn committed(repo: RepoView, message: Seq<u8>) -> RepoView {
    let tree_text = next_tree_text(repo);
    let text = next_commit_text(repo, message);
    advanced(
        RepoView {
            objects: stored(
                stored(repo.objects, sha1_hex(tree_text), tree_text),
                sha1_hex(text),
                text,
            ),
            ..repo
        },
        sha1_hex(text),
    )
}

/// Commits what is staged: stores the tree of the staged files and a commit
/// with the commit of HEAD as its parent, and moves the branch that is
/// checked out, or a detached HEAD, to it. Returns the new commit.
pub fn create_commit(message: &[u8], repo: &mut Repository) -> (hash: Vec<u8>)
    ensures
        hash@ == sha1_hex(next_commit_text(old(repo)@, message@)),
        commit_hash_form(hash@),
        final(repo)@ == committed(old(repo)@, message@),
{
    let tree_hash: Vec<u8> = create_tree(&repo.index, &repo.worktree, &mut repo.objects);
    let mut parents: Vec<Vec<u8>> = Vec::new();
    match read_head_commit_hash(repo) {
        Ok(commit) => {
            if commit.len() > 0 {
                parents.push(commit);
            }
        },
        Err(_) => {},
    }
    assert(views(parents@) =~= next_parents(old(repo)@));
    let content: Vec<u8> = commit_content(tree_hash.as_slice(), &parents, message);
    let hash: Vec<u8> = repo.objects.put_object(content.as_slice());
    advance_head(repo, hash.as_slice());
    hash
}

/// The text of a merge commit: a commit with the two parents in this order.
pub open spec fn merge_commit_text(
    tree: Seq<u8>,
    parent1: Seq<u8>,
    parent2: Seq<u8>,
    message: Seq<u8>,
) -> Seq<u8> {
    commit_text(tree, seq![parent1, parent2], message)
}

/// Stores a commit with exactly two parents, the current commit first and the
/// commit that is merged in second, and returns its identifier.
pub fn create_merge_commit(
    store: &mut ObjectStore,
    tree_hash: &[u8],
    parent1: &[u8],
    parent2: &[u8],
    message: &[u8],
) -> (hash: Vec<u8>)
    ensures
        hash@ == sha1_hex(merge_commit_text(tree_hash@, parent1@, parent2@, message@)),
        commit_hash_form(hash@),
        final(store)@ == stored(
            old(store)@,
            hash@,
            merge_commit_text(tree_hash@, parent1@, parent2@, message@),
        ),
{
    let mut parents: Vec<Vec<u8>> = Vec::new();
    parents.push(to_vec(parent1));
    parents.push(to_vec(parent2));
    assert(views(parents@) =~= seq![parent1@, parent2@]);
    let content: Vec<u8> = commit_content(tree_hash, &parents, message);
    store.put_object(content.as_slice())
}

/// The least number of bytes of an identifier under which a commit can be
/// looked up.
pub const MIN_ID_LEN: usize = 2;

/// The commit that a link leads to, if the link holds an identifier.
pub open spec fn link(id: Option<Seq<u8>>) -> Option<Seq<u8>> {
    match id {
        Some(c) => if c.len() >= MIN_ID_LEN {
            Some(c)
        } else {
            None
        },
        None => None,
    }
}

/// The commit that is reached from `commit` by `k` steps to the first
/// parent, if the chain is that long. The chain ends at a commit that is not
/// stored or names no parent.
pub open spec fn nth_ancestor(objects: Map<Seq<u8>, Seq<u8>>, commit: Seq<u8>, k: nat) -> Option<
    Seq<u8>,
>
    decreases k,
{
    if k == 0 {
        link(Some(commit))
    } else {
        match nth_ancestor(objects, commit, (k - 1) as nat) {
            Some(c) => link(first_parent(objects, c)),
            None => None,
        }
    }
}

/// `ancestor` is `commit` itself or is reached from it over first parents.
pub open spec fn is_ancestor(
    objects: Map<Seq<u8>, Seq<u8>>,
    commit: Seq<u8>,
    ancestor: Seq<u8>,
) -> bool {
    exists|k: nat| #[trigger] nth_ancestor(objects, commit, k) == Some(ancestor)
}

/// The commit `k` steps up from `target` is an ancestor of `current`.
pub open spec fn meets(
    objects: Map<Seq<u8>, Seq<u8>>,
    current: Seq<u8>,
    target: Seq<u8>,
    k: nat,
) -> bool {
    match nth_ancestor(objects, target, k) {
        Some(c) => is_ancestor(objects, current, c),
        None => false,
    }
}

/// The least number of steps up from `target` that lead to an ancestor of
/// `current`.
pub open spec fn first_meeting(
    objects: Map<Seq<u8>, Seq<u8>>,
    current: Seq<u8>,
    target: Seq<u8>,
) -> nat {
    choose|k: nat|
        #[trigger] meets(objects, current, target, k) && forall|j: nat|
            j < k ==> !meets(objects, current, target, j)
}

/// The merge base of `current` and `target`: the first commit on the way up
/// from `target` that is an ancestor of `current`, or `None` where the two
/// histories do not meet.
#[verifier::opaque]
pub open spec fn merge_base_of(
    objects: Map<Seq<u8>, Seq<u8>>,
    current: Seq<u8>,
    target: Seq<u8>,
) -> Option<Seq<u8>> {
    if exists|k: nat| #[trigger] meets(objects, current, target, k) {
        nth_ancestor(objects, target, first_meeting(objects, current, target))
    } else {
        None
    }
}

/// Past its end a chain stays ended.
pub proof fn lemma_chain_ended(objects: Map<Seq<u8>, Seq<u8>>, commit: Seq<u8>, k: nat, m: nat)
    requires
        nth_ancestor(objects, commit, k) is None,
        k <= m,
    ensures
        nth_ancestor(objects, commit, m) is None,
    decreases m,
{
    if k < m {
        lemma_chain_ended(objects, commit, k, (m - 1) as nat);
    }
}

/// Once a chain comes back to a commit that it passed, it passes no new one.
pub proof fn lemma_chain_cycle(
    objects: Map<Seq<u8>, Seq<u8>>,
    commit: Seq<u8>,
    j: nat,
    k: nat,
    m: nat,
)
    requires
        j < k,
        nth_ancestor(objects, commit, j) == nth_ancestor(objects, commit, k),
    ensures
        exists|i: nat| i < k && #[trigger] nth_ancestor(objects, commit, i) == nth_ancestor(
            objects,
            commit,
            m,
        ),
    decreases m,
{
    if m < k {
        assert(nth_ancestor(objects, commit, m) == nth_ancestor(objects, commit, m));
    } else {
        lemma_chain_cycle(objects, commit, j, k, (m - 1) as nat);
        let i = choose|i: nat|
            i < k && #[trigger] nth_ancestor(objects, commit, i) == nth_ancestor(
                objects,
                commit,
                (m - 1) as nat,
            );
        assert(nth_ancestor(objects, commit, i + 1) == nth_ancestor(objects, commit, m));
        if i + 1 == k {
            assert(nth_ancestor(objects, commit, j) == nth_ancestor(objects, commit, m));
        }
    }
}

/// The identifier as a link, for a walk that stands at it.
pub open spec fn standing_at(current: Seq<u8>) -> Option<Seq<u8>> {
    link(Some(current))
}

/// The commit itself and every commit that is reached from it over first
/// parents, as the keys of a map. The walk ends at a commit that is not
/// stored or names no parent, and where it comes back to a commit that it
/// passed.
pub fn collect_ancestors(commit: &[u8], store: &ObjectStore) -> (r: ByteMap)
    ensures
        forall|a: Seq<u8>| r@.contains_key(a) <==> is_ancestor(store@, commit@, a),
        forall|a: Seq<u8>| r@.contains_key(a) ==> r@[a] == Seq::<u8>::empty(),
{
    let mut visited: ByteMap = ByteMap::new();
    let mut current: Vec<u8> = to_vec(commit);
    let total: usize = store.objects.len();
    let ghost mut k: nat = 0;
    let ghost mut rest: Set<Seq<u8>> = store@.dom();
    loop
        invariant_except_break
            nth_ancestor(store@, commit@, k) == standing_at(current@),
            forall|a: Seq<u8>|
                visited@.contains_key(a) <==> exists|j: nat|
                    j < k && #[trigger] nth_ancestor(store@, commit@, j) == Some(a),
            rest.finite(),
            forall|x: Seq<u8>|
                store@.contains_key(x) && !visited@.contains_key(x) ==> rest.contains(x),
        invariant
            forall|a: Seq<u8>| visited@.contains_key(a) ==> visited@[a] == Seq::<u8>::empty(),
        ensures
            forall|a: Seq<u8>| visited@.contains_key(a) <==> is_ancestor(store@, commit@, a),
        decreases rest.len(),
    {
        if current.len() < MIN_ID_LEN {
            proof {
                assert forall|a: Seq<u8>| is_ancestor(store@, commit@, a) implies visited@.contains_key(
                    a,
                ) by {
                    let m = choose|m: nat| #[trigger] nth_ancestor(store@, commit@, m) == Some(a);
                    if m >= k {
                        lemma_chain_ended(store@, commit@, k, m);
                    }
                }
            }
            break ;
        }
        if visited.contains_key(current.as_slice()) {
            proof {
                let j = choose|j: nat|
                    j < k && #[trigger] nth_ancestor(store@, commit@, j) == Some(current@);
                assert forall|a: Seq<u8>| is_ancestor(store@, commit@, a) implies visited@.contains_key(
                    a,
                ) by {
                    let m = choose|m: nat| #[trigger] nth_ancestor(store@, commit@, m) == Some(a);
                    lemma_chain_cycle(store@, commit@, j, k, m);
                }
            }
            break ;
        }
        let ghost passed = visited@;
        visited.insert(to_vec(current.as_slice()), Vec::new());
        let next: Option<Vec<u8>> = read_commit_parent(current.as_slice(), store);
        proof {
            assert forall|a: Seq<u8>| visited@.contains_key(a) <==> exists|j: nat|
                j < k + 1 && #[trigger] nth_ancestor(store@, commit@, j) == Some(a) by {
                if visited@.contains_key(a) {
                    if a == current@ {
                        assert(nth_ancestor(store@, commit@, k) == Some(a));
                    } else {
                        assert(passed.contains_key(a));
                    }
                }
                if exists|j: nat|
                    j < k + 1 && #[trigger] nth_ancestor(store@, commit@, j) == Some(a) {
                    let j = choose|j: nat|
                        j < k + 1 && #[trigger] nth_ancestor(store@, commit@, j) == Some(a);
                    if j < k {
                        assert(passed.contains_key(a));
                    }
                }
            }
        }
        match next {
            None => {
                proof {
                    assert(nth_ancestor(store@, commit@, k + 1) is None);
                    assert forall|a: Seq<u8>|
                        is_ancestor(store@, commit@, a) implies visited@.contains_key(a) by {
                        let m = choose|m: nat|
                            #[trigger] nth_ancestor(store@, commit@, m) == Some(a);
                        if m >= k + 1 {
                            lemma_chain_ended(store@, commit@, k + 1, m);
                        }
                    }
                }
                break ;
            },
            Some(parent) => {
                proof {
                    assert(nth_ancestor(store@, commit@, k + 1) == standing_at(parent@));
                    assert(rest.contains(current@));
                    rest = rest.remove(current@);
                    k = k + 1;
                }
                current = parent;
            },
        }
    }
    visited
}

/// The merge base of two commits: the first commit on the way up from
/// `target` over first parents that is `current` or an ancestor of it.
/// `None` where the histories do not meet.
pub fn find_common_ancestor(current: &[u8], target: &[u8], store: &ObjectStore) -> (r: Option<
    Vec<u8>,
>)
    ensures
        option_view(r) == merge_base_of(store@, current@, target@),
{
    reveal(merge_base_of);
    let ancestors: ByteMap = collect_ancestors(current, store);
    let mut visited: ByteMap = ByteMap::new();
    let mut at: Vec<u8> = to_vec(target);
    let mut found: Option<Vec<u8>> = None;
    let total: usize = store.objects.len();
    let ghost mut k: nat = 0;
    let ghost mut rest: Set<Seq<u8>> = store@.dom();
    loop
        invariant_except_break
            found is None,
            nth_ancestor(store@, target@, k) == standing_at(at@),
            forall|a: Seq<u8>|
                visited@.contains_key(a) <==> exists|j: nat|
                    j < k && #[trigger] nth_ancestor(store@, target@, j) == Some(a),
            forall|j: nat| j < k ==> !#[trigger] meets(store@, current@, target@, j),
            rest.finite(),
            forall|x: Seq<u8>|
                store@.contains_key(x) && !visited@.contains_key(x) ==> rest.contains(x),
        invariant
            forall|a: Seq<u8>| ancestors@.contains_key(a) <==> is_ancestor(store@, current@, a),
        ensures
            option_view(found) == merge_base_of(store@, current@, target@),
        decreases rest.len(),
    {
        proof {
            reveal(merge_base_of);
        }
        if at.len() < MIN_ID_LEN {
            proof {
                assert forall|m: nat| !#[trigger] meets(store@, current@, target@, m) by {
                    if m >= k {
                        lemma_chain_ended(store@, target@, k, m);
                    }
                }
            }
            break ;
        }
        if ancestors.contains_key(at.as_slice()) {
            proof {
                assert(meets(store@, current@, target@, k));
                let first = first_meeting(store@, current@, target@);
                assert(meets(store@, current@, target@, first) && forall|j: nat|
                    j < first ==> !meets(store@, current@, target@, j));
                assert(first == k);
            }
            found = Some(at);
            break ;
        }
        if visited.contains_key(at.as_slice()) {
            proof {
                let j = choose|j: nat|
                    j < k && #[trigger] nth_ancestor(store@, target@, j) == Some(at@);
                assert forall|m: nat| !#[trigger] meets(store@, current@, target@, m) by {
                    lemma_chain_cycle(store@, target@, j, k, m);
                    let i = choose|i: nat|
                        i < k && #[trigger] nth_ancestor(store@, target@, i) == nth_ancestor(
                            store@,
                            target@,
                            m,
                        );
                    assert(!meets(store@, current@, target@, i));
                }
            }
            break ;
        }
        let ghost passed = visited@;
        visited.insert(to_vec(at.as_slice()), Vec::new());
        let next: Option<Vec<u8>> = read_commit_parent(at.as_slice(), store);
        proof {
            assert(!meets(store@, current@, target@, k));
            assert forall|a: Seq<u8>| visited@.contains_key(a) <==> exists|j: nat|
                j < k + 1 && #[trigger] nth_ancestor(store@, target@, j) == Some(a) by {
                if visited@.contains_key(a) {
                    if a == at@ {
                        assert(nth_ancestor(store@, target@, k) == Some(a));
                    } else {
                        assert(passed.contains_key(a));
                    }
                }
                if exists|j: nat|
                    j < k + 1 && #[trigger] nth_ancestor(store@, target@, j) == Some(a) {
                    let j = choose|j: nat|
                        j < k + 1 && #[trigger] nth_ancestor(store@, target@, j) == Some(a);
                    if j < k {
                        assert(passed.contains_key(a));
                    }
                }
            }
        }
        match next {
            None => {
                proof {
                    assert(nth_ancestor(store@, target@, k + 1) is None);
                    assert forall|m: nat| !#[trigger] meets(store@, current@, target@, m) by {
                        if m >= k + 1 {
                            lemma_chain_ended(store@, target@, k + 1, m);
                        }
                    }
                }
                break ;
            },
            Some(parent) => {
                proof {
                    assert(nth_ancestor(store@, target@, k + 1) == standing_at(parent@));
                    assert(rest.contains(at@));
                    rest = rest.remove(at@);
                    k = k + 1;
                }
                at = parent;
            },
        }
    }
    found
}

/// A chain of commits: each but the first names the one before it as its
/// first parent.
pub open spec fn is_chain(objects: Map<Seq<u8>, Seq<u8>>, chain: Seq<Seq<u8>>) -> bool {
    &&& chain.len() > 0
    &&& forall|i: int| 0 <= i < chain.len() ==> (#[trigger] chain[i]).len() >= MIN_ID_LEN
    &&& forall|i: int|
        1 <= i < chain.len() ==> first_parent(objects, #[trigger] chain[i]) == Some(chain[i - 1])
}

/// From the last commit of a chain, `k` steps lead to the commit `k` places
/// before it.
pub proof fn lemma_chain_steps(objects: Map<Seq<u8>, Seq<u8>>, chain: Seq<Seq<u8>>, k: nat)
    requires
        is_chain(objects, chain),
        k < chain.len(),
    ensures
        nth_ancestor(objects, chain.last(), k) == Some(chain[chain.len() - 1 - k]),
    decreases k,
{
    if k > 0 {
        lemma_chain_steps(objects, chain, (k - 1) as nat);
        let c = chain[chain.len() - k];
        assert(first_parent(objects, c) == Some(chain[chain.len() - k - 1]));
    }
}

/// The merge base of the last and the first commit of a chain is the first.
pub proof fn law_merge_base_of_chain(objects: Map<Seq<u8>, Seq<u8>>, chain: Seq<Seq<u8>>)
    requires
        is_chain(objects, chain),
    ensures
        merge_base_of(objects, chain.last(), chain[0]) == Some(chain[0]),
{
    reveal(merge_base_of);
    lemma_chain_steps(objects, chain, (chain.len() - 1) as nat);
    assert(is_ancestor(objects, chain.last(), chain[0]));
    assert(nth_ancestor(objects, chain[0], 0) == Some(chain[0]));
    assert(meets(objects, chain.last(), chain[0], 0));
    let first = first_meeting(objects, chain.last(), chain[0]);
    assert(meets(objects, chain.last(), chain[0], first) && forall|j: nat|
        j < first ==> !meets(objects, chain.last(), chain[0], j));
    assert(first == 0);
}

} // verus!
