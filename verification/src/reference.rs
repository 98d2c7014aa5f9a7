//! HEAD and the branches: the rules for branch names, the two states of HEAD
//! and the texts in which both are kept.

use crate::bytes::{append, ascii_bytes, contains_sub, has_prefix, index_of_sub, is_space, is_space_byte, lemma_find_sub, literal, occurs_at, slice, starts_with, to_vec, trim, trimmed, LF};
use crate::error::{Error, NameError};
use crate::repository::{RepoView, Repository};
use vstd::prelude::*;

verus! {

/// The byte `.`.
pub const DOT: u8 = 46;

/// The byte `/`.
pub const SLASH: u8 = 47;

/// The greatest number of bytes of a branch name.
pub const MAX_NAME_LEN: usize = 255;

/// White space and the bytes `~ ^ : ? * [ \`, which no branch name holds.
pub open spec fn is_forbidden(b: u8) -> bool {
    is_space(b) || b == '~' as u8 || b == '^' as u8 || b == ':' as u8 || b == '?' as u8 || b
        == '*' as u8 || b == '[' as u8 || b == '\\' as u8
}

/// Whether no branch name holds `b`.
pub fn is_forbidden_byte(b: u8) -> (r: bool)
    ensures
        r == is_forbidden(b),
{
    is_space_byte(b) || b == '~' as u8 || b == '^' as u8 || b == ':' as u8 || b == '?' as u8 || b
        == '*' as u8 || b == '[' as u8 || b == '\\' as u8
}

/// Some byte of `name` is forbidden.
pub open spec fn has_forbidden(name: Seq<u8>) -> bool {
    exists|i: int| 0 <= i < name.len() && is_forbidden(#[trigger] name[i])
}

/// The first rule that `name` breaks, in the order in which the rules are
/// tried, or `None` for a name that breaks none.
pub open spec fn name_violation(name: Seq<u8>) -> Option<NameError> {
    if name.len() == 0 {
        Some(NameError::Empty)
    } else if name == seq![DOT] || name == seq![DOT, DOT] {
        Some(NameError::Dot)
    } else if name[0] == SLASH || name.last() == SLASH {
        Some(NameError::SlashAtEnd)
    } else if contains_sub(name, seq![SLASH, SLASH]) {
        Some(NameError::DoubleSlash)
    } else if contains_sub(name, seq![DOT, DOT]) {
        Some(NameError::DoubleDot)
    } else if has_forbidden(name) {
        Some(NameError::Forbidden)
    } else if name.len() > MAX_NAME_LEN {
        Some(NameError::TooLong)
    } else {
        None
    }
}

/// `name` may be the name of a branch.
pub open spec fn valid_branch_name(name: Seq<u8>) -> bool {
    name_violation(name) is None
}

/// Whether some byte of `name` is forbidden.
fn any_forbidden(name: &[u8]) -> (r: bool)
    ensures
        r == has_forbidden(name@),
{
    let mut i: usize = 0;
    while i < name.len()
        invariant
            i <= name@.len(),
            forall|j: int| 0 <= j < i ==> !is_forbidden(#[trigger] name@[j]),
        decreases name@.len() - i,
    {
        if is_forbidden_byte(name[i]) {
            return true;
        }
        i += 1;
    }
    false
}

/// Tries the rules for branch names on `name` and returns the first that it
/// breaks.
pub fn validate_branch_name(name: &[u8]) -> (r: Result<(), NameError>)
    ensures
        r == match name_violation(name@) {
            Some(e) => Err::<(), NameError>(e),
            None => Ok::<(), NameError>(()),
        },
{
    let n: usize = name.len();
    if n == 0 {
        return Err(NameError::Empty);
    }
    if (n == 1 && name[0] == DOT) || (n == 2 && name[0] == DOT && name[1] == DOT) {
        assert(name@ =~= seq![DOT] || name@ =~= seq![DOT, DOT]);
        return Err(NameError::Dot);
    }
    assert(name@ != seq![DOT] && name@ != seq![DOT, DOT]) by {
        if name@ == seq![DOT] {
            assert(name@[0] == seq![DOT][0]);
        }
        if name@ == seq![DOT, DOT] {
            assert(name@[0] == seq![DOT, DOT][0]);
            assert(name@[1] == seq![DOT, DOT][1]);
        }
    }
    if name[0] == SLASH || name[n - 1] == SLASH {
        return Err(NameError::SlashAtEnd);
    }
    let double_slash: Vec<u8> = vec![SLASH, SLASH];
    assert(double_slash@ =~= seq![SLASH, SLASH]);
    if index_of_sub(name, double_slash.as_slice(), 0).is_some() {
        return Err(NameError::DoubleSlash);
    }
    let double_dot: Vec<u8> = vec![DOT, DOT];
    assert(double_dot@ =~= seq![DOT, DOT]);
    if index_of_sub(name, double_dot.as_slice(), 0).is_some() {
        return Err(NameError::DoubleDot);
    }
    if any_forbidden(name) {
        return Err(NameError::Forbidden);
    }
    if n > MAX_NAME_LEN {
        return Err(NameError::TooLong);
    }
    Ok(())
}

/// A name is refused if it holds a space, `:`, `~`, `^`, `*`, `?`, `[` or
/// `\`, starts or ends with `/`, holds `..`, or has more than 255 bytes.
pub proof fn law_bad_names_refused(name: Seq<u8>)
    requires
        ({
            ||| exists|i: int|
                0 <= i < name.len() && (#[trigger] name[i] == ' ' as u8 || name[i] == ':' as u8
                    || name[i] == '~' as u8 || name[i] == '^' as u8 || name[i] == '*' as u8
                    || name[i] == '?' as u8 || name[i] == '[' as u8 || name[i] == '\\' as u8)
            ||| name.len() > 0 && (name[0] == SLASH || name.last() == SLASH)
            ||| exists|i: int| occurs_at(name, seq![DOT, DOT], i)
            ||| name.len() > 255
        }),
    ensures
        !valid_branch_name(name),
{
    if exists|i: int|
        0 <= i < name.len() && (#[trigger] name[i] == ' ' as u8 || name[i] == ':' as u8 || name[i]
            == '~' as u8 || name[i] == '^' as u8 || name[i] == '*' as u8 || name[i] == '?' as u8
            || name[i] == '[' as u8 || name[i] == '\\' as u8) {
        let i = choose|i: int|
            0 <= i < name.len() && (#[trigger] name[i] == ' ' as u8 || name[i] == ':' as u8
                || name[i] == '~' as u8 || name[i] == '^' as u8 || name[i] == '*' as u8 || name[i]
                == '?' as u8 || name[i] == '[' as u8 || name[i] == '\\' as u8);
        assert(is_forbidden(name[i]));
        assert(has_forbidden(name));
    }
    if exists|i: int| occurs_at(name, seq![DOT, DOT], i) {
        lemma_find_sub(name, seq![DOT, DOT], 0);
        assert(contains_sub(name, seq![DOT, DOT]));
    }
}

/// HEAD: on a branch, or at a commit.
pub enum Head {
    /// HEAD names the branch that is checked out.
    Symbolic(Vec<u8>),
    /// HEAD holds the identifier of a commit.
    Detached(Vec<u8>),
}

/// HEAD over byte sequences.
#[verifier::ext_equal]
pub enum HeadView {
    Symbolic(Seq<u8>),
    Detached(Seq<u8>),
}

impl View for Head {
    type V = HeadView;

    open spec fn view(&self) -> HeadView {
        match self {
            Head::Symbolic(name) => HeadView::Symbolic(name@),
            Head::Detached(commit) => HeadView::Detached(commit@),
        }
    }
}

impl Head {
    /// A HEAD in the same state.
    pub fn duplicate(&self) -> (r: Head)
        ensures
            r@ == self@,
    {
        match self {
            Head::Symbolic(name) => Head::Symbolic(to_vec(name.as_slice())),
            Head::Detached(commit) => Head::Detached(to_vec(commit.as_slice())),
        }
    }
}

/// What stands before a reference in the text of a symbolic HEAD.
pub open spec fn ref_tag() -> Seq<u8> {
    ascii_bytes("ref: "@)
}

/// What stands before the name of a branch in the path of its reference.
pub open spec fn heads_dir() -> Seq<u8> {
    ascii_bytes("refs/heads/"@)
}

/// The bytes of `ref: `.
pub fn ref_tag_bytes() -> (r: &'static [u8])
    ensures
        r@ == ref_tag(),
        r@.len() == 5,
{
    proof {
        reveal_strlit("ref: ");
    }
    literal("ref: ")
}

/// The bytes of `refs/heads/`.
pub fn heads_dir_bytes() -> (r: &'static [u8])
    ensures
        r@ == heads_dir(),
        r@.len() == 11,
{
    proof {
        reveal_strlit("refs/heads/");
    }
    literal("refs/heads/")
}

/// The path of the reference of a branch: `refs/heads/` and its name.
pub open spec fn branch_ref(name: Seq<u8>) -> Seq<u8> {
    heads_dir() + name
}

/// The text of HEAD: `ref: refs/heads/<name>` or the commit identifier, and
/// a line feed.
pub open spec fn head_text(head: HeadView) -> Seq<u8> {
    match head {
        HeadView::Symbolic(name) => ref_tag() + heads_dir() + name + seq![LF],
        HeadView::Detached(commit) => commit + seq![LF],
    }
}

/// The state of HEAD that a text stands for. White space at its ends does not
/// count. A reference to anything but a branch stands for no state.
pub open spec fn parse_head_text(text: Seq<u8>) -> Option<HeadView> {
    let t = trimmed(text);
    if has_prefix(t, ref_tag() + heads_dir()) {
        Some(HeadView::Symbolic(t.subrange(16, t.len() as int)))
    } else if has_prefix(t, ref_tag()) {
        None
    } else {
        Some(HeadView::Detached(t))
    }
}

/// The text of HEAD.
pub fn head_content(head: &Head) -> (r: Vec<u8>)
    ensures
        r@ == head_text(head@),
{
    let mut out: Vec<u8> = Vec::new();
    match head {
        Head::Symbolic(name) => {
            append(&mut out, ref_tag_bytes());
            append(&mut out, heads_dir_bytes());
            append(&mut out, name.as_slice());
        },
        Head::Detached(commit) => {
            append(&mut out, commit.as_slice());
        },
    }
    out.push(LF);
    assert(out@ =~= head_text(head@));
    out
}

/// Reads the text of HEAD.
pub fn parse_head(text: &[u8]) -> (r: Option<Head>)
    ensures
        match r {
            Some(head) => parse_head_text(text@) == Some(head@),
            None => parse_head_text(text@) is None,
        },
{
    let t: &[u8] = trim(text);
    let mut symbolic: Vec<u8> = Vec::new();
    append(&mut symbolic, ref_tag_bytes());
    append(&mut symbolic, heads_dir_bytes());
    assert(symbolic@ =~= ref_tag() + heads_dir());
    if starts_with(t, symbolic.as_slice()) {
        Some(Head::Symbolic(to_vec(slice(t, 16, t.len()))))
    } else if starts_with(t, ref_tag_bytes()) {
        None
    } else {
        Some(Head::Detached(to_vec(t)))
    }
}

/// The text of a branch reference: the commit identifier and a line feed.
pub open spec fn ref_text(tip: Seq<u8>) -> Seq<u8> {
    tip + seq![LF]
}

/// The text of a branch reference.
pub fn ref_content(tip: &[u8]) -> (r: Vec<u8>)
    ensures
        r@ == ref_text(tip@),
{
    let mut out: Vec<u8> = to_vec(tip);
    out.push(LF);
    assert(out@ =~= ref_text(tip@));
    out
}

/// Reads the text of a branch reference: the commit identifier is the text
/// without the white space at its ends, and empty for a branch without
/// commits.
pub fn parse_ref(text: &[u8]) -> (r: Vec<u8>)
    ensures
        r@ == trimmed(text@),
{
    to_vec(trim(text))
}

/// The branch that is checked out, if HEAD is on a branch.
pub open spec fn current_branch(repo: RepoView) -> Option<Seq<u8>> {
    match repo.head {
        HeadView::Symbolic(name) => Some(name),
        HeadView::Detached(_) => None,
    }
}

/// The commit that HEAD stands for: the last commit of the branch that is
/// checked out, empty if it has none, or the commit that HEAD holds.
pub open spec fn resolve_head(repo: RepoView) -> Result<Seq<u8>, Error> {
    match repo.head {
        HeadView::Symbolic(name) => if repo.branches.contains_key(name) {
            Ok(repo.branches[name])
        } else {
            Err(Error::NotFound)
        },
        HeadView::Detached(commit) => Ok(commit),
    }
}

/// The commit that HEAD stands for, empty where its branch is missing.
pub open spec fn head_commit(repo: RepoView) -> Seq<u8> {
    match resolve_head(repo) {
        Ok(commit) => commit,
        Err(_) => Seq::empty(),
    }
}

/// The repository with HEAD on the branch `name`.
pub open spec fn with_symbolic_head(repo: RepoView, name: Seq<u8>) -> RepoView {
    RepoView { head: HeadView::Symbolic(name), ..repo }
}

/// The repository with HEAD at the commit `commit`.
pub open spec fn with_detached_head(repo: RepoView, commit: Seq<u8>) -> RepoView {
    RepoView { head: HeadView::Detached(commit), ..repo }
}

/// The repository with the branch `name` at the commit `tip`.
pub open spec fn with_branch(repo: RepoView, name: Seq<u8>, tip: Seq<u8>) -> RepoView {
    RepoView { branches: repo.branches.insert(name, tip), ..repo }
}

/// The repository after a new commit: the branch that is checked out moves
/// to it, and so does a detached HEAD.
pub open spec fn advanced(repo: RepoView, commit: Seq<u8>) -> RepoView {
    match repo.head {
        HeadView::Symbolic(name) => with_branch(repo, name, commit),
        HeadView::Detached(_) => with_detached_head(repo, commit),
    }
}

/// What creating the branch `name` does: the error, or the repository with
/// the new branch at the commit of HEAD.
pub open spec fn branch_created(repo: RepoView, name: Seq<u8>) -> Result<RepoView, Error> {
    match name_violation(name) {
        Some(e) => Err(Error::InvalidName(e)),
        None => if repo.branches.contains_key(name) {
            Err(Error::AlreadyExists)
        } else {
            match resolve_head(repo) {
                Ok(commit) => Ok(with_branch(repo, name, commit)),
                Err(e) => Err(e),
            }
        },
    }
}

/// What deleting the branch `name` does: the error, or the repository
/// without that branch.
pub open spec fn branch_deleted(repo: RepoView, name: Seq<u8>) -> Result<RepoView, Error> {
    if current_branch(repo) == Some(name) {
        Err(Error::IsCurrentBranch)
    } else if !repo.branches.contains_key(name) {
        Err(Error::NotFound)
    } else {
        Ok(RepoView { branches: repo.branches.remove(name), ..repo })
    }
}

/// Puts HEAD on the branch `name`.
pub fn set_head(repo: &mut Repository, name: &[u8])
    ensures
        final(repo)@ == with_symbolic_head(old(repo)@, name@),
{
    repo.head = Head::Symbolic(to_vec(name));
}

/// Puts HEAD at the commit `commit`.
pub fn set_detached_head(repo: &mut Repository, commit: &[u8])
    ensures
        final(repo)@ == with_detached_head(old(repo)@, commit@),
{
    repo.head = Head::Detached(to_vec(commit));
}

/// The path of the reference that HEAD names, or `NotFound` for a detached
/// HEAD.
pub fn get_head_ref(repo: &Repository) -> (r: Result<Vec<u8>, Error>)
    ensures
        match r {
            Ok(path) => current_branch(repo@) == Some(path@.subrange(11, path@.len() as int))
                && path@ == branch_ref(current_branch(repo@)->0),
            Err(e) => current_branch(repo@) is None && e == Error::NotFound,
        },
{
    match &repo.head {
        Head::Symbolic(name) => {
            let mut path: Vec<u8> = to_vec(heads_dir_bytes());
            append(&mut path, name.as_slice());
            assert(path@.subrange(11, path@.len() as int) =~= name@);
            Ok(path)
        },
        Head::Detached(_) => Err(Error::NotFound),
    }
}

/// The name of the branch that is checked out, or `None` for a detached HEAD.
pub fn get_current_branch_name(repo: &Repository) -> (r: Option<Vec<u8>>)
    ensures
        crate::repository::option_view(r) == current_branch(repo@),
{
    match &repo.head {
        Head::Symbolic(name) => Some(to_vec(name.as_slice())),
        Head::Detached(_) => None,
    }
}

/// The commit that HEAD stands for.
pub fn read_head_commit_hash(repo: &Repository) -> (r: Result<Vec<u8>, Error>)
    ensures
        match r {
            Ok(commit) => resolve_head(repo@) == Ok::<Seq<u8>, Error>(commit@),
            Err(e) => resolve_head(repo@) == Err::<Seq<u8>, Error>(e),
        },
{
    match &repo.head {
        Head::Symbolic(name) => match repo.branches.get(name.as_slice()) {
            Some(tip) => Ok(to_vec(tip.as_slice())),
            None => Err(Error::NotFound),
        },
        Head::Detached(commit) => Ok(to_vec(commit.as_slice())),
    }
}

/// Moves the branch that is checked out, or a detached HEAD, to `commit`.
pub fn advance_head(repo: &mut Repository, commit: &[u8])
    ensures
        final(repo)@ == advanced(old(repo)@, commit@),
{
    let current: Option<Vec<u8>> = get_current_branch_name(repo);
    match current {
        Some(name) => {
            repo.branches.insert(name, to_vec(commit));
        },
        None => {
            repo.head = Head::Detached(to_vec(commit));
        },
    }
}

/// Creates the branch `name` at the commit of HEAD.
pub fn create_branch(repo: &mut Repository, name: &[u8]) -> (r: Result<(), Error>)
    ensures
        match r {
            Ok(_) => branch_created(old(repo)@, name@) == Ok::<RepoView, Error>(final(repo)@),
            Err(e) => branch_created(old(repo)@, name@) == Err::<RepoView, Error>(e) && final(repo)@ == old(repo)@,
        },
{
    match validate_branch_name(name) {
        Err(e) => {
            return Err(Error::InvalidName(e));
        },
        Ok(_) => {},
    }
    if repo.branches.contains_key(name) {
        return Err(Error::AlreadyExists);
    }
    match read_head_commit_hash(repo) {
        Err(e) => Err(e),
        Ok(commit) => {
            repo.branches.insert(to_vec(name), commit);
            Ok(())
        },
    }
}

/// Deletes the branch `name`, unless it is checked out.
pub fn delete_branch(repo: &mut Repository, name: &[u8]) -> (r: Result<(), Error>)
    ensures
        match r {
            Ok(_) => branch_deleted(old(repo)@, name@) == Ok::<RepoView, Error>(final(repo)@),
            Err(e) => branch_deleted(old(repo)@, name@) == Err::<RepoView, Error>(e) && final(repo)@ == old(repo)@,
        },
{
    let on_it: bool = match &repo.head {
        Head::Symbolic(current) => crate::bytes::equal(current.as_slice(), name),
        Head::Detached(_) => false,
    };
    if on_it {
        return Err(Error::IsCurrentBranch);
    }
    match repo.branches.remove(name) {
        Some(_) => Ok(()),
        None => Err(Error::NotFound),
    }
}

/// The names of the branches, in the order of byte strings.
pub fn list_branches(repo: &Repository) -> (r: Vec<Vec<u8>>)
    ensures
        r@.len() == crate::bytemap::sorted_pairs(repo@.branches).len(),
        forall|i: int|
            0 <= i < r@.len() ==> (#[trigger] r@[i])@ == crate::bytemap::sorted_pairs(
                repo@.branches,
            )[i].0,
{
    let n: usize = repo.branches.len();
    let mut names: Vec<Vec<u8>> = Vec::new();
    let mut i: usize = 0;
    while i < n
        invariant
            i <= n,
            n == repo.branches.pairs().len(),
            names@.len() == i,
            forall|j: int| 0 <= j < i ==> (#[trigger] names@[j])@ == repo.branches.pairs()[j].0,
        decreases n - i,
    {
        names.push(to_vec(repo.branches.key_at(i).as_slice()));
        i += 1;
    }
    names
}

/// The text of HEAD is read back as the state that it was written from,
/// for HEAD on a branch with a valid name and for HEAD at a commit
/// identifier.
pub proof fn law_head_round_trip(head: HeadView)
    requires
        match head {
            HeadView::Symbolic(name) => valid_branch_name(name),
            HeadView::Detached(commit) => crate::hash::commit_hash_form(commit),
        },
    ensures
        parse_head_text(head_text(head)) == Some(head),
{
    reveal_strlit("ref: ");
    reveal_strlit("refs/heads/");
    let tag = ref_tag();
    let dir = heads_dir();
    assert(tag.len() == 5 && dir.len() == 11);
    assert(tag[0] == 'r' as u8);
    assert(dir[10] == '/' as u8);
    match head {
        HeadView::Symbolic(name) => {
            let body = tag + dir + name;
            assert(name.len() > 0);
            assert(!is_space(name.last())) by {
                if is_space(name.last()) {
                    assert(is_forbidden(name[name.len() - 1]));
                    assert(has_forbidden(name));
                }
            }
            assert(body[0] == tag[0]);
            assert(body.last() == name.last());
            assert(head_text(head) =~= body + seq![LF]);
            crate::bytes::lemma_trimmed_tail(body, seq![LF]);
            assert(body.subrange(0, 16) =~= tag + dir);
            assert(body.subrange(16, body.len() as int) =~= name);
        },
        HeadView::Detached(commit) => {
            assert(crate::hash::is_hex_digit(commit[0]));
            assert(crate::hash::is_hex_digit(commit[39]));
            assert(commit.last() == commit[39]);
            assert(head_text(head) =~= commit + seq![LF]);
            crate::bytes::lemma_trimmed_tail(commit, seq![LF]);
            if has_prefix(commit, tag) {
                assert(commit.subrange(0, 5)[0] == tag[0]);
            }
            if has_prefix(commit, tag + dir) {
                assert(commit.subrange(0, 16)[0] == (tag + dir)[0]);
            }
        },
    }
}

} // verus!
