//! The subcommands of the `cch` command line.

pub mod blame;
pub mod commits;
pub mod grep;
pub mod session;
pub mod show;
