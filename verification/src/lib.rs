//! nv, a minimal Neovim version manager for Linux stable and nightly builds. Each channel
//! retains one previous release for rollback.
//!
//! A command never touches the machine itself. It runs in a [`host::Session`], which holds the
//! replies that the machine has given so far; where the next reply is missing, the command stops
//! and names the [`host::Action`] that is to be performed ([`run::advance`]). The contracts say
//! what a command does over a ghost [`host::World`]: the tree of files, what was printed, and
//! what only the machine decides (faults, the order of listings, what programs do, the clock).
//! They hold wherever the replies are those of such a world.
//!
//! - Values: [`text`], [`encoding`], [`path`], [`error`], [`channel`], [`cli`], [`paths`],
//!   [`release`], [`metadata`], [`transaction`].
//! - The machine: [`host`].
//! - Commands: [`layout`], [`installation`], [`pointers`], [`activation`], [`programs`],
//!   [`cleanup`], [`staging`], [`install`], [`commands`], [`run`].
//! - What places are, and which of them a step leaves alone: [`locate`], [`disk`],
//!   [`separation`], [`frames`], [`install_frames`], [`command_frames`].
//! - What holds of whole commands and of several of them: [`changes`], [`laws`], [`laws_use`],
//!   [`laws_remove`], [`laws_cleanup`], [`laws_command`], [`laws_rollback`], [`laws_change`],
//!   [`laws_install`], [`recovery`].
//! - What succeeds on a machine on which nothing fails: [`calm`], [`laws_success`],
//!   [`laws_installed`], [`laws_used`], [`laws_removed`], [`laws_locked`],
//!   [`laws_first`], [`laws_whole`], [`laws_succeed`].
//! - What the pieces mean, in plain terms: which words, texts and files are accepted and what is
//!   read from them ([`laws_words`], [`laws_text`], [`laws_accepted`], [`laws_files`],
//!   [`laws_paths`], [`laws_places`]), what other programs are asked ([`laws_offer`],
//!   [`laws_release`], [`laws_order`], [`allowed`], [`laws_run`],
//!   [`confined`], [`laws_confined`]), and what commands come to, tell and refuse
//!   ([`laws_commands`], [`laws_status`], [`laws_told`], [`laws_refused`],
//!   [`laws_resumed`]).
pub mod activation;
pub mod allowed;
pub mod calm;
pub mod changes;
pub mod channel;
pub mod cleanup;
pub mod cli;
pub mod command_frames;
pub mod commands;
pub mod confined;
pub mod disk;
pub mod encoding;
pub mod error;
pub mod frames;
pub mod host;
pub mod install;
pub mod install_frames;
pub mod installation;
pub mod laws;
pub mod laws_accepted;
pub mod laws_change;
pub mod laws_cleanup;
pub mod laws_command;
pub mod laws_commands;
pub mod laws_confined;
pub mod laws_files;
pub mod laws_first;
pub mod laws_install;
pub mod laws_installed;
pub mod laws_locked;
pub mod laws_offer;
pub mod laws_order;
pub mod laws_paths;
pub mod laws_places;
pub mod laws_refused;
pub mod laws_release;
pub mod laws_remove;
pub mod laws_removed;
pub mod laws_resumed;
pub mod laws_rollback;
pub mod laws_run;
pub mod laws_status;
pub mod laws_succeed;
pub mod laws_success;
pub mod laws_text;
pub mod laws_told;
pub mod laws_use;
pub mod laws_used;
pub mod laws_whole;
pub mod laws_words;
pub mod layout;
pub mod locate;
pub mod metadata;
pub mod path;
pub mod paths;
pub mod pointers;
pub mod programs;
pub mod recovery;
pub mod release;
pub mod run;
pub mod separation;
pub mod staging;
pub mod text;
pub mod transaction;
