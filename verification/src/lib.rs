//! Konserve: a verified backup-archive engine.
//!
//! The engine encodes user-selected files and folders into a flat,
//! collision-free archive namespace keyed by opaque tokens, embeds a
//! recoverable token-to-path table (the fingerprint) as the first entry
//! of every archive, rebuilds a navigable tree from that table for
//! selective restore, and resolves a selected subset of the tree back
//! into concrete archive entries with destinations adjusted for the
//! current user account.

use vstd::prelude::*;

pub mod backup;
pub mod codec;
pub mod config;
pub mod laws;
pub mod manifest;
pub mod progress;
pub mod restore;
pub mod strutil;
pub mod tarc;
pub mod tree;

verus! {

/// The greatest value the progress counter reports while work is still
/// running; the terminal sentinel lies above it.
pub const PROGRESS_MAX: u32 = 100;

/// Terminal sentinel stored by the progress counter once an operation
/// has fully completed, distinct from every in-progress percentage.
pub const PROGRESS_DONE: u32 = 101;

} // verus!
