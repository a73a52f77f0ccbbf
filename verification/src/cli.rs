//! Argument grammars of the command-line subcommands.

pub mod delegation;
pub mod collection;
pub mod commands;
