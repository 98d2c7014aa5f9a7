//! The repository: its objects, HEAD, its branches, the staging index and the
//! working tree, held in memory.

use crate::bytemap::ByteMap;
use crate::bytes::to_vec;
use crate::objects::ObjectStore;
use crate::reference::{Head, HeadView};
use vstd::prelude::*;

verus! {

/// A repository with its working tree.
pub struct Repository {
    /// Blobs, trees and commits by identifier.
    pub objects: ObjectStore,
    /// The branch or the commit that is checked out.
    pub head: Head,
    /// For each branch the identifier of its last commit, empty for a branch
    /// without commits.
    pub branches: ByteMap,
    /// The staging index: for each staged path the identifier of its blob.
    pub index: ByteMap,
    /// The files of the working tree: for each path its content.
    pub worktree: ByteMap,
    /// The path of the directory that holds the repository's own files.
    pub git_dir: Vec<u8>,
    /// The path of the running program, if it lies in the working tree.
    pub exe: Option<Vec<u8>>,
}

/// A repository over maps and byte sequences.
#[verifier::ext_equal]
pub struct RepoView {
    pub objects: Map<Seq<u8>, Seq<u8>>,
    pub head: HeadView,
    pub branches: Map<Seq<u8>, Seq<u8>>,
    pub index: Map<Seq<u8>, Seq<u8>>,
    pub worktree: Map<Seq<u8>, Seq<u8>>,
    pub git_dir: Seq<u8>,
    pub exe: Option<Seq<u8>>,
}

/// The byte sequence of an optional byte string.
pub open spec fn option_view(o: Option<Vec<u8>>) -> Option<Seq<u8>> {
    match o {
        Some(v) => Some(v@),
        None => None,
    }
}

impl View for Repository {
    type V = RepoView;

    open spec fn view(&self) -> RepoView {
        RepoView {
            objects: self.objects@,
            head: self.head@,
            branches: self.branches@,
            index: self.index@,
            worktree: self.worktree@,
            git_dir: self.git_dir@,
            exe: option_view(self.exe),
        }
    }
}

/// A new repository: no objects, nothing staged, an empty working tree, and
/// HEAD on the default branch, which has no commits yet.
pub open spec fn initial(git_dir: Seq<u8>, default_branch: Seq<u8>, exe: Option<Seq<u8>>) -> RepoView {
    RepoView {
        objects: Map::empty(),
        head: HeadView::Symbolic(default_branch),
        branches: Map::<Seq<u8>, Seq<u8>>::empty().insert(default_branch, Seq::<u8>::empty()),
        index: Map::empty(),
        worktree: Map::empty(),
        git_dir,
        exe,
    }
}

/// Makes a new repository.
pub fn init_repository(git_dir: &[u8], default_branch: &[u8], exe: Option<Vec<u8>>) -> (r:
    Repository)
    ensures
        r@ == initial(git_dir@, default_branch@, option_view(exe)),
{
    let mut branches: ByteMap = ByteMap::new();
    branches.insert(to_vec(default_branch), Vec::new());
    let r = Repository {
        objects: ObjectStore::new(),
        head: Head::Symbolic(to_vec(default_branch)),
        branches,
        index: ByteMap::new(),
        worktree: ByteMap::new(),
        git_dir: to_vec(git_dir),
        exe,
    };
    assert(r@ =~= initial(git_dir@, default_branch@, option_view(exe)));
    r
}

impl Repository {
    /// A repository in the same state.
    pub fn duplicate(&self) -> (r: Repository)
        ensures
            r@ == self@,
    {
        let r = Repository {
            objects: self.objects.duplicate(),
            head: self.head.duplicate(),
            branches: self.branches.duplicate(),
            index: self.index.duplicate(),
            worktree: self.worktree.duplicate(),
            git_dir: to_vec(self.git_dir.as_slice()),
            exe: match &self.exe {
                Some(path) => Some(to_vec(path.as_slice())),
                None => None,
            },
        };
        assert(r@ =~= self@);
        r
    }
}

} // verus!
