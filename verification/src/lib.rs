//! Ranks the most-used commands of a shell's history.
//!
//! The library holds the logic of the `top_cmds` tool: telling which shell a
//! process name belongs to, reading the parent pid and name out of a process
//! status listing, locating a shell's history file, extracting the command
//! strings from that file's lines, counting how often each command occurs and
//! ranking the most frequent ones, and reading and rewriting the one
//! `nb_cmds` setting of the tool's configuration file.  Every function here
//! works on plain values (lines of text in, values out); opening files,
//! walking `/proc` and drawing the chart are left to the binary around it.

pub mod text;
pub mod shell;
pub mod history;
pub mod rank;
pub mod config;
