//! Silex: a version-control system whose history, branches and
//! productivity data live in SQLite. This crate holds the verified core:
//! text rendering, hashing and signing of commits, the status, checkout
//! and commit planners, the branch model behind the git-flow commands,
//! and the repository tree renderer.

pub mod text;
pub mod hex;
pub mod seqs;
pub mod manifest;
pub mod status;
pub mod checkout;
pub mod digest;
pub mod compression;
pub mod commit;
pub mod refs;
pub mod crypto;
pub mod sizes;
pub mod tree;
pub mod git;
pub mod diff;
pub mod console;
pub mod todo;
