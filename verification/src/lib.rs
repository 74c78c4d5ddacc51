//! Core of a terminal command launcher: a configuration document is parsed
//! into launchable entries, every entry is given a single-character mnemonic
//! key from a fixed ergonomic alphabet, and the menu text, erase sequence and
//! selected-command output are computed as plain strings for the surrounding
//! program to write to its streams.
//!
//! The configuration document is modelled as a tagged value — text, a
//! mapping's `command` and `key` fields, a list, or anything else — so the
//! surrounding program converts whatever concrete format it reads into that
//! model and hands plain values in.

pub mod assign;
pub mod config;
pub mod entry;
pub mod launch;
pub mod present;

pub use entry::LauncherEntry;
