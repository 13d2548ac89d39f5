//! The verified core of a patch-based version-control system.
//!
//! - `change`: the file of a change, written and read back;
//! - `changes`, `memory`, `table`: changes, their dependencies, and the
//!   completion of a selection of changes by what it depends on;
//! - `channel`, `pristine`: the log of a channel, the numbers of the changes,
//!   the tree of the tracked files;
//! - `diff`: line tokens, the replacement list of a diff, and what is asked
//!   of it;
//! - `output`, `prefix`, `base32`: conflict blocks, the places of the files
//!   of changes, changes found by the beginning of their name, identifiers
//!   as text;
//! - `remotes`, `config`: what a repository knows of its remotes, and its
//!   configuration;
//! - `commands`: what the commands of the command line decide;
//! - `protocol`, `server`, `error`: the commands that a repository server
//!   takes, what it answers, and its errors;
//! - `text`, `textmap`: words, numbers and the order of strings.

pub mod base32;
pub mod change;
pub mod changes;
pub mod channel;
pub mod commands;
pub mod config;
pub mod diff;
pub mod error;
pub mod memory;
pub mod output;
pub mod prefix;
pub mod pristine;
pub mod protocol;
pub mod remotes;
pub mod server;
pub mod table;
pub mod text;
pub mod textmap;
