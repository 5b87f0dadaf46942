//! Verified core of `precommit-check`: commit-message footer handling,
//! interpretation of `git` output, selection and digesting of the files that
//! make up the recorded repository state, and the decisions of the CLI.

pub mod footer;
pub mod git;
pub mod hash;
pub mod status;
pub mod text;
