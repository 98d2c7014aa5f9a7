//! A small version-control engine: a content-addressed object store, a staging
//! index, branch references, a commit graph and a three-way merge, all held in
//! memory and verified.

pub mod bytes;
pub mod bytemap;
pub mod checkout;
pub mod cli;
pub mod config;
pub mod commands;
pub mod commit;
pub mod error;
pub mod reference;
pub mod remove;
pub mod status;
pub mod repository;
pub mod tree;
pub mod worktree;
pub mod hash;
pub mod index;
pub mod merge;
pub mod objects;
