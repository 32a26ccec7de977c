use vstd::prelude::*;

verus! {

/// What the materializer should do for one member file.
#[derive(Debug, Clone, Copy, PartialEq, Eq, Structural)]
pub enum MaterializeAction {
    Skip,
    CopyOnly,
    CopyThenDelete,
}

/// The materializer's decision for one file: a file already present at the
/// destination is left alone; otherwise the file is copied, and the source
/// deleted afterwards only when files are being moved.
pub open spec fn plan_spec(dest_exists: bool, move_files: bool) -> MaterializeAction {
    if dest_exists {
        MaterializeAction::Skip
    } else if move_files {
        MaterializeAction::CopyThenDelete
    } else {
        MaterializeAction::CopyOnly
    }
}

/// Decide what to do for one member file.
pub fn plan_materialize(dest_exists: bool, move_files: bool) -> (r: MaterializeAction)
    ensures
        r == plan_spec(dest_exists, move_files),
{
    if dest_exists {
        MaterializeAction::Skip
    } else if move_files {
        MaterializeAction::CopyThenDelete
    } else {
        MaterializeAction::CopyOnly
    }
}

/// Whether the source file should be deleted once its copy has been made:
/// only when the copy succeeded and files are being moved.
pub fn plan_delete_after_copy(copy_ok: bool, move_files: bool) -> (r: bool)
    ensures
        r == (copy_ok && move_files),
{
    copy_ok && move_files
}

/// A second materialization run over the same mapping writes nothing: every
/// destination file already exists, so every decision is to skip.
pub proof fn lemma_materialize_idempotent(move_files: bool)
    ensures
        plan_spec(true, move_files) == MaterializeAction::Skip,
{
}

} // verus!
