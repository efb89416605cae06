//! User-facing commands: the line-oriented CLI.
pub mod cli;
