//! The settings of a repository: the name of its directory and of its
//! default branch.

use crate::bytes::{ascii_bytes, literal, to_vec};
use vstd::prelude::*;

verus! {

/// The settings of the section `core`.
pub struct CoreConfig {
    /// The name of the directory that holds the repository's own files.
    pub git_dir: Option<Vec<u8>>,
    /// The name of the branch that a new repository starts on.
    pub default_branch: Option<Vec<u8>>,
}

/// The settings, each of which may be left out.
pub struct Config {
    pub core: Option<CoreConfig>,
}

/// The name of the repository's directory where none is set: `.mygit`.
pub open spec fn default_git_dir() -> Seq<u8> {
    ascii_bytes(".mygit"@)
}

/// The name of the default branch where none is set: `master`.
pub open spec fn default_branch_name() -> Seq<u8> {
    ascii_bytes("master"@)
}

impl Config {
    /// The name of the repository's directory that the settings give.
    pub open spec fn git_dir_of(&self) -> Seq<u8> {
        match self.core {
            Some(core) => match core.git_dir {
                Some(dir) => dir@,
                None => default_git_dir(),
            },
            None => default_git_dir(),
        }
    }

    /// The name of the default branch that the settings give.
    pub open spec fn default_branch_of(&self) -> Seq<u8> {
        match self.core {
            Some(core) => match core.default_branch {
                Some(name) => name@,
                None => default_branch_name(),
            },
            None => default_branch_name(),
        }
    }

    /// The name of the repository's directory: the one that is set, else
    /// `.mygit`.
    pub fn git_dir(&self) -> (r: Vec<u8>)
        ensures
            r@ == self.git_dir_of(),
    {
        proof {
            reveal_strlit(".mygit");
        }
        match &self.core {
            Some(core) => match &core.git_dir {
                Some(dir) => to_vec(dir.as_slice()),
                None => to_vec(literal(".mygit")),
            },
            None => to_vec(literal(".mygit")),
        }
    }

    /// The name of the default branch: the one that is set, else `master`.
    pub fn default_branch(&self) -> (r: Vec<u8>)
        ensures
            r@ == self.default_branch_of(),
    {
        proof {
            reveal_strlit("master");
        }
        match &self.core {
            Some(core) => match &core.default_branch {
                Some(name) => to_vec(name.as_slice()),
                None => to_vec(literal("master")),
            },
            None => to_vec(literal("master")),
        }
    }
}

} // verus!
