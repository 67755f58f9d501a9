//! Storage-action constructors and routing keys.
//!
//! Every action here is an already-validated storage mutation with one
//! unambiguous leaf application in action sequence order (see
//! [`crate::replay::apply_actions`]). Transaction intent is validated and
//! turned into these in [`crate::commit`].

use vstd::prelude::*;

use crate::pb::{Action, ActionView, AddDataFile, AddDeletionFile, ClearDeletionFile, DataFragment,
    FragmentAction, RemoveDataFile, ReplaceDataFile};
use crate::record::{DataFile, DeletionFile, Fragment};

verus! {

/// Attach `file` to fragment `frag_id` (the validated add-column case).
pub fn add_data_file(frag_id: u64, file: &DataFile) -> (r: FragmentAction)
    ensures
        r@ == Some(ActionView::AddDataFile { frag_id, file: Some(file@) }),
{
    FragmentAction {
        action: Some(Action::AddDataFile(AddDataFile { frag_id, file: Some(file.clone()) })),
    }
}

/// Drop the data file at `path` from `frag_id`.
pub fn remove_data_file(frag_id: u64, path: &str) -> (r: FragmentAction)
    ensures
        r@ == Some(ActionView::RemoveDataFile { frag_id, path: path@ }),
{
    FragmentAction {
        action: Some(
            Action::RemoveDataFile(RemoveDataFile { frag_id, path: String::from_str(path) }),
        ),
    }
}

/// Swap the data file at `expected_path` on `frag_id` for `file`. Only
/// [`crate::commit::data_replacement`] should build this, after checking the
/// fragment's current state.
pub fn replace_data_file(frag_id: u64, expected_path: &str, file: &DataFile) -> (r: FragmentAction)
    ensures
        r@ == Some(
            ActionView::ReplaceDataFile {
                frag_id,
                expected_path: expected_path@,
                path: file@.path,
                file_size_bytes: file@.file_size_bytes,
                base_id: file@.base_id,
            },
        ),
{
    FragmentAction {
        action: Some(
            Action::ReplaceDataFile(
                ReplaceDataFile {
                    frag_id,
                    expected_path: String::from_str(expected_path),
                    path: file.path.clone(),
                    file_size_bytes: file.file_size_bytes,
                    base_id: file.base_id,
                },
            ),
        ),
    }
}

/// Insert a fragment, or replace the whole record of an existing one.
pub fn add_fragment(fragment: &Fragment) -> (r: FragmentAction)
    ensures
        r@ == Some(ActionView::AddFragment(fragment@.encoded())),
{
    FragmentAction { action: Some(Action::AddFragment(DataFragment::encode(fragment))) }
}

/// Remove a whole fragment (tombstone).
pub fn remove_fragment(frag_id: u64) -> (r: FragmentAction)
    ensures
        r@ == Some(ActionView::RemoveFragment(frag_id)),
{
    FragmentAction { action: Some(Action::RemoveFragment(frag_id)) }
}

/// Attach or replace the deletion file for `frag_id`.
pub fn add_deletion_file(frag_id: u64, deletion_file: &DeletionFile) -> (r: FragmentAction)
    ensures
        r@ == Some(
            ActionView::AddDeletionFile { frag_id, deletion_file: Some(deletion_file.encoded()) },
        ),
{
    FragmentAction {
        action: Some(
            Action::AddDeletionFile(
                AddDeletionFile { frag_id, deletion_file: Some(deletion_file.encode()) },
            ),
        ),
    }
}

/// Clear the deletion file attached to `frag_id`.
pub fn clear_deletion_file(frag_id: u64) -> (r: FragmentAction)
    ensures
        r@ == Some(ActionView::ClearDeletionFile { frag_id }),
{
    FragmentAction { action: Some(Action::ClearDeletionFile(ClearDeletionFile { frag_id })) }
}

/// The fragment id an action targets, used to route it to the owning child.
pub fn target_frag_id(action: &FragmentAction) -> (r: Option<u64>)
    ensures
        r == match action@ {
            Some(a) => Some(a.target()),
            None => None::<u64>,
        },
{
    match &action.action {
        None => None,
        Some(Action::AddFragment(f)) => Some(f.id),
        Some(Action::RemoveFragment(id)) => Some(*id),
        Some(Action::AddDataFile(a)) => Some(a.frag_id),
        Some(Action::RemoveDataFile(a)) => Some(a.frag_id),
        Some(Action::ReplaceDataFile(a)) => Some(a.frag_id),
        Some(Action::AddDeletionFile(a)) => Some(a.frag_id),
        Some(Action::ClearDeletionFile(a)) => Some(a.frag_id),
    }
}

} // verus!
