use vstd::prelude::*;

verus! {

/// Fatal precondition error: the chosen output path cannot be used.
#[derive(Debug, Clone, Copy, PartialEq, Eq, Structural)]
pub enum OutputPathError {
    /// The path already exists as a regular file, not a directory.
    ExistingFile,
}

/// Decides whether an output path may serve as the output root.
///
/// The caller probes the file system and passes what it saw: whether the
/// path exists, and whether it is a regular file. A path that exists as a
/// file is rejected before any work begins; everything else is accepted
/// (a missing directory is created later, just before the index is written).
pub fn validate_output_directory(exists: bool, is_file: bool) -> (r: Result<(), OutputPathError>)
    ensures
        r is Err <==> (exists && is_file),
{
    if exists && is_file {
        Err(OutputPathError::ExistingFile)
    } else {
        Ok(())
    }
}

/// The one top-level subdirectory name that the previous on-disk
/// layout used; migration removes it and touches nothing else under
/// the output root.
pub fn legacy_subdir_name() -> (r: String)
    ensures
        r@ == "deps"@,
{
    "deps".to_owned()
}

/// Decides whether the legacy subdirectory must be removed: only when
/// it exists and is a directory. A plain file of the same name is left
/// alone.
pub fn should_remove_legacy(exists: bool, is_dir: bool) -> (r: bool)
    ensures
        r == (exists && is_dir),
{
    exists && is_dir
}

/// How one migration attempt ended. There is no error variant on
/// purpose: a failed removal is a warning for manual cleanup, never a
/// reason to abort the run.
#[derive(Debug, Clone, Copy, PartialEq, Eq, Structural)]
pub enum MigrationOutcome {
    /// No legacy subdirectory was there; nothing to do.
    NotPresent,
    /// The legacy subdirectory was removed.
    Removed,
    /// Removal was attempted and failed; the caller should name the
    /// path for manual cleanup and continue.
    RemovalFailed,
}

/// Classifies one migration attempt: `removal_attempted` is what
/// `should_remove_legacy` decided, `removal_succeeded` is what the
/// file system reported back.
pub fn classify_migration(removal_attempted: bool, removal_succeeded: bool) -> (r:
    MigrationOutcome)
    ensures
        !removal_attempted ==> r == MigrationOutcome::NotPresent,
        removal_attempted && removal_succeeded ==> r == MigrationOutcome::Removed,
        removal_attempted && !removal_succeeded ==> r == MigrationOutcome::RemovalFailed,
{
    if !removal_attempted {
        MigrationOutcome::NotPresent
    } else if removal_succeeded {
        MigrationOutcome::Removed
    } else {
        MigrationOutcome::RemovalFailed
    }
}

} // verus!
