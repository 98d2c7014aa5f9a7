//! The commands as values, and their dispatch.

use crate::checkout::{checked_out, git_checkout, CheckoutOutcome};
use crate::commands::{
    git_add, git_branch, git_branch_delete, git_commit, git_merge, is_branch_result, merge_of,
    MergeOutcome,
};
use crate::commit::{committed, next_commit_text};
use crate::error::Error;
use crate::hash::sha1_hex;
use crate::index::{added, normalize_path, normalized};
use crate::reference::branch_deleted;
use crate::remove::{git_rm, removed, RmOutcome};
use crate::repository::{option_view, RepoView, Repository};
use crate::status::{git_status, is_status_of, StatusReport};
use vstd::prelude::*;

verus! {

/// A command with its arguments.
pub enum Commands {
    /// Make a repository at a path.
    Init { path: Vec<u8> },
    /// Stage a file or a directory.
    Add { file: Vec<u8> },
    /// Commit what is staged.
    Commit { message: Vec<u8> },
    /// Create, list or delete branches.
    Branch { delete: bool, name: Option<Vec<u8>> },
    /// Check out a branch or a commit.
    Checkout { create: bool, branch: Vec<u8> },
    /// Merge a branch into the current one.
    Merge { branch: Vec<u8> },
    /// Remove a file or a directory.
    Rm { recursive: bool, file: Vec<u8> },
    /// Report the status of the working tree.
    Status,
}

/// A command line.
pub struct Cli {
    /// The command to run.
    pub command: Commands,
}

/// What a command did.
pub enum Report {
    /// The repository is there.
    Initialized,
    /// The path was staged, or could not be.
    Added(Result<(), Error>),
    /// The commit that was made.
    Committed(Vec<u8>),
    /// The names of the branches, none after a branch was created, or why
    /// the branch was not created.
    Branched(Result<Vec<Vec<u8>>, Error>),
    /// A branch was to be deleted, but no name was given.
    MissingBranchName,
    /// The branch was deleted, or could not be.
    BranchDeleted(Result<(), Error>),
    /// How the checkout ended.
    CheckedOut(CheckoutOutcome),
    /// How the merge ended.
    Merged(MergeOutcome),
    /// How the removal ended.
    Removed(RmOutcome),
    /// The status of the working tree.
    Status(StatusReport),
}

/// `report` is what the command reports on the repository `before`, and
/// `after` is the repository that it leaves. Paths to add or to remove are
/// brought into the form of the index first.
pub open spec fn is_execution(
    command: Commands,
    before: RepoView,
    report: Report,
    after: RepoView,
) -> bool {
    match command {
        Commands::Init { path } => report is Initialized && after == before,
        Commands::Add { file } => report matches Report::Added(r) && match r {
            Ok(_) => added(before, normalized(file@)) == Ok::<RepoView, Error>(after),
            Err(e) => added(before, normalized(file@)) == Err::<RepoView, Error>(e) && after
                == before,
        },
        Commands::Commit { message } => report matches Report::Committed(hash) && hash@
            == sha1_hex(next_commit_text(before, message@)) && after == committed(
            before,
            message@,
        ),
        Commands::Branch { delete, name } => if delete {
            match name {
                None => report is MissingBranchName && after == before,
                Some(n) => report matches Report::BranchDeleted(r) && match r {
                    Ok(_) => branch_deleted(before, n@) == Ok::<RepoView, Error>(after),
                    Err(e) => branch_deleted(before, n@) == Err::<RepoView, Error>(e) && after
                        == before,
                },
            }
        } else {
            report matches Report::Branched(r) && is_branch_result(
                r,
                before,
                after,
                option_view(name),
            )
        },
        Commands::Checkout { create, branch } => report matches Report::CheckedOut(r) && r
            == checked_out(before, branch@, create).0 && after == checked_out(
            before,
            branch@,
            create,
        ).1,
        Commands::Merge { branch } => report matches Report::Merged(r) && r@ == merge_of(
            before,
            branch@,
        ).0 && after == merge_of(before, branch@).1,
        Commands::Rm { recursive, file } => report matches Report::Removed(r) && r == removed(
            before,
            normalized(file@),
            recursive,
        ).0 && after == removed(before, normalized(file@), recursive).1,
        Commands::Status => report matches Report::Status(r) && is_status_of(r, before) && after
            == before,
    }
}

impl Cli {
    /// Runs the command on the repository and reports what it did.
    pub fn execute(&self, repo: &mut Repository) -> (r: Report)
        ensures
            is_execution(self.command, old(repo)@, r, final(repo)@),
    {
        match &self.command {
            Commands::Init { path } => Report::Initialized,
            Commands::Add { file } => {
                let path: Vec<u8> = normalize_path(file.as_slice());
                Report::Added(git_add(repo, path.as_slice()))
            },
            Commands::Commit { message } => Report::Committed(git_commit(repo, message.as_slice())),
            Commands::Branch { delete, name } => {
                if *delete {
                    match name {
                        None => Report::MissingBranchName,
                        Some(n) => Report::BranchDeleted(git_branch_delete(repo, n.as_slice())),
                    }
                } else {
                    match name {
                        None => Report::Branched(git_branch(repo, None)),
                        Some(n) => Report::Branched(git_branch(repo, Some(n.as_slice()))),
                    }
                }
            },
            Commands::Checkout { create, branch } => Report::CheckedOut(
                git_checkout(repo, branch.as_slice(), *create),
            ),
            Commands::Merge { branch } => Report::Merged(git_merge(repo, branch.as_slice())),
            Commands::Rm { recursive, file } => {
                let path: Vec<u8> = normalize_path(file.as_slice());
                Report::Removed(git_rm(repo, path.as_slice(), *recursive))
            },
            Commands::Status => Report::Status(git_status(repo)),
        }
    }
}

} // verus!
