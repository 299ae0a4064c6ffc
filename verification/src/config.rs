//! Persistent configuration model.
//!
//! `KonserveConfig` stores user preferences and feature toggles across
//! application sessions. The engine only defines the value and its
//! defaults; reading and writing the on-disk JSON file is the host
//! application's concern, which converts to its own serializable copy.

use vstd::prelude::*;

verus! {

/// Determines how name collisions are resolved during restore, when a
/// file to be restored already exists at the target path.
#[derive(PartialEq, Eq, Structural, Clone, Copy, Debug)]
pub enum ConflictResolutionMode {
    /// Ask the user for each conflict.
    Prompt,
    /// Replace the existing file.
    Overwrite,
    /// Leave the existing file unchanged.
    Skip,
    /// Write the restored file with a new name.
    Rename,
}

impl Default for ConflictResolutionMode {
    /// Conflicts are resolved by prompting unless configured otherwise.
    fn default() -> (m: ConflictResolutionMode)
        ensures
            m == ConflictResolutionMode::Prompt,
    {
        ConflictResolutionMode::Prompt
    }
}

/// Persistent configuration object: user preferences and feature
/// toggles, one field per settings toggle.
#[derive(Clone, Debug)]
pub struct KonserveConfig {
    /// Enables verbose debug logging when true.
    pub verbose_logging: bool,
    /// Enables backup compression as a post-processing step.
    pub compression_enabled: bool,
    /// Enables conflict resolution when restoring files.
    pub conflict_resolution_enabled: bool,
    /// Strategy for handling name collisions during restore.
    pub conflict_resolution_mode: ConflictResolutionMode,
    /// Optional default folder where backups will be saved.
    pub default_backup_location: Option<String>,
    /// Whether to check for updates automatically on startup.
    pub automatic_updates: bool,
    /// Show a summary of file sizes during backup and restore.
    pub file_size_summary: bool,
}

impl Default for KonserveConfig {
    /// Every toggle starts off and no default backup folder is set, so
    /// the application always starts with a valid configuration even
    /// when no saved file exists.
    fn default() -> (c: KonserveConfig)
        ensures
            !c.verbose_logging,
            !c.compression_enabled,
            !c.conflict_resolution_enabled,
            c.conflict_resolution_mode == ConflictResolutionMode::Prompt,
            c.default_backup_location is None,
            !c.automatic_updates,
            !c.file_size_summary,
    {
        KonserveConfig {
            verbose_logging: false,
            compression_enabled: false,
            conflict_resolution_enabled: false,
            conflict_resolution_mode: ConflictResolutionMode::Prompt,
            default_backup_location: None,
            automatic_updates: false,
            file_size_summary: false,
        }
    }
}

} // verus!
