//! Navigation of coding-assistant JSONL session transcripts: the event model,
//! transcript search, turn selection, commit attribution and the text
//! formatting that the `cch` command line prints.

pub mod text;
pub mod timebounds;
pub mod transcript;
pub mod turns;
pub mod session;
pub mod paths;
pub mod order;
pub mod term;
pub mod commands;
pub mod cli;
