//! A small POSIX-style shell: tokenizer, variable expansion, pipelines,
//! builtin commands, job table and completion logic.

pub mod text;
pub mod map;
pub mod args;
pub mod jobs;
pub mod commands;
pub mod completer;
