//! The core of a cron-style job runner: schedule compilation, shell-like
//! command tokenizing, job-file parsing and the dispatch decisions of the
//! run loop. Apart from reading the clock, everything here computes on
//! plain values; reading files, sleeping and spawning processes are left to
//! the caller.

pub mod cli_colors;
pub mod clock;
pub mod loader;
pub mod models;
pub mod parser;
pub mod printer;
pub mod queue;
pub mod scheduler;
pub mod shell;
pub mod text;
