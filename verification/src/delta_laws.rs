//! What a commit counts for each of its actions, and which actions it takes.

use vstd::prelude::*;

use crate::commit;
use crate::commit::TouchedView;
use crate::edit_laws;
use crate::error::{Error, Reason};
use crate::pb::{ActionView, DataFragmentView};
use crate::record::FragmentView;
use crate::replay;

verus! {

/// Whether a record has what every stored record has: an id of 32 bits, a known
/// row count and, with a deletion file, a known count of deleted rows that is
/// no larger.
pub open spec fn counts_known(fragment: FragmentView) -> bool {
    &&& fragment.id <= u32::MAX
    &&& fragment.physical_rows is Some
    &&& fragment.deletion_file matches Some(file) ==> (file.num_deleted_rows matches Some(deleted)
        && deleted <= fragment.physical_rows->0)
}

/// A record may be stored exactly where its counts are known.
pub proof fn law_only_known_counts_are_stored(fragment: FragmentView)
    ensures
        commit::unknown_counts(fragment) is None == counts_known(fragment),
        fragment.storable() == counts_known(fragment),
{
}

/// Whether some action adds a fragment under an id that was never assigned.
pub open spec fn added_by(
    actions: Seq<Option<ActionView>>,
    id: u64,
    next_fragment_id: u64,
) -> bool {
    exists|j: int|
        0 <= j < actions.len() && ((#[trigger] actions[j]) matches Some(
            ActionView::AddFragment(f),
        ) && f.id == id && f.id >= next_fragment_id)
}

proof fn lemma_created(
    actions: Seq<Option<ActionView>>,
    touched: TouchedView,
    next_fragment_id: u64,
    id: u64,
)
    requires
        commit::progressed(actions, touched, next_fragment_id) is Ok,
    ensures
        commit::progressed(actions, touched, next_fragment_id)->Ok_0.created.contains(id)
            == added_by(actions, id, next_fragment_id),
    decreases actions.len(),
{
    if actions.len() > 0 {
        let rest = actions.drop_last();
        lemma_created(rest, touched, next_fragment_id, id);
        let n = rest.len() as int;
        assert(actions[n] == actions.last());
        if added_by(rest, id, next_fragment_id) {
            let j = choose|j: int|
                0 <= j < rest.len() && ((#[trigger] rest[j]) matches Some(
                    ActionView::AddFragment(f),
                ) && f.id == id && f.id >= next_fragment_id);
            assert(actions[j] == rest[j]);
        }
        if added_by(actions, id, next_fragment_id) {
            let j = choose|j: int|
                0 <= j < actions.len() && ((#[trigger] actions[j]) matches Some(
                    ActionView::AddFragment(f),
                ) && f.id == id && f.id >= next_fragment_id);
            if j < n {
                assert(rest[j] == actions[j]);
            }
        }
    }
}

/// Each action that a commit takes is applied to what the actions before it
/// made, and counts what it changes of the fragment it names: whether it is
/// there, its rows and its rows that are not deleted. No other fragment
/// changes, what it leaves has known counts, and it names a fragment that was
/// resolved or that the commit adds.
pub proof fn law_action_counts_what_it_changes(
    actions: Seq<Option<ActionView>>,
    touched: TouchedView,
    next_fragment_id: u64,
)
    requires
        actions.len() > 0,
        commit::progressed(actions, touched, next_fragment_id) is Ok,
    ensures
        commit::progressed(actions.drop_last(), touched, next_fragment_id) is Ok,
        actions.last() is Some,
        ({
            let before = commit::progressed(actions.drop_last(), touched, next_fragment_id)->Ok_0;
            let after = commit::progressed(actions, touched, next_fragment_id)->Ok_0;
            let id = actions.last()->0.target();
            let a = edit_laws::amounts_at(after.fragments, id);
            let b = edit_laws::amounts_at(before.fragments, id);
            &&& after.deltas == before.deltas.push((a.0 - b.0, a.1 - b.1, a.2 - b.2))
            &&& edit_laws::same_but(after.fragments, before.fragments, id)
            &&& after.fragments.contains_key(id) ==> counts_known(after.fragments[id])
            &&& touched.ids.contains(id) || added_by(actions, id, next_fragment_id)
            &&& replay::replayed(
                before.fragments,
                seq![commit::untagged(actions.last(), (actions.len() - 1) as u64)],
                false,
            ) == (after.fragments, None::<Error>)
        }),
{
    let rest = actions.drop_last();
    let before = commit::progressed(rest, touched, next_fragment_id)->Ok_0;
    let n = actions.len() - 1;
    let m = commit::untagged(actions.last(), n as u64);
    let id = actions.last()->0.target();
    edit_laws::lemma_one(before.fragments, m, false);
    lemma_created(rest, touched, next_fragment_id, id);
    lemma_created(actions, touched, next_fragment_id, id);
    assert(actions[n] == actions.last());
    if before.created.contains(id) {
        let j = choose|j: int|
            0 <= j < rest.len() && ((#[trigger] rest[j]) matches Some(
                ActionView::AddFragment(f),
            ) && f.id == id && f.id >= next_fragment_id);
        assert(actions[j] == rest[j]);
    }
}

/// A commit starts from the records that were resolved, with nothing counted.
pub proof fn law_commit_starts_from_what_was_resolved(touched: TouchedView, next_fragment_id: u64)
    ensures
        commit::progressed(Seq::empty(), touched, next_fragment_id) matches Ok(start)
            && start.fragments == touched.fragments && start.deltas.len() == 0,
{
}

/// An action that names a fragment which was neither resolved nor added by the
/// commit is refused, and so is one that is missing.
pub proof fn law_unresolved_fragment_is_refused(
    actions: Seq<Option<ActionView>>,
    touched: TouchedView,
    next_fragment_id: u64,
)
    requires
        actions.len() > 0,
        commit::progressed(actions.drop_last(), touched, next_fragment_id) is Ok,
        actions.last() matches Some(action) ==> !touched.ids.contains(action.target())
            && !added_by(actions, action.target(), next_fragment_id),
    ensures
        commit::progressed(actions, touched, next_fragment_id) matches Err(
            Error::InvalidInput { reason },
        ) && match actions.last() {
            Some(action) => reason == (Reason::UnresolvedFragment { id: action.target() }),
            None => reason == Reason::EmptyAction,
        },
{
    let rest = actions.drop_last();
    if let Some(action) = actions.last() {
        let id = action.target();
        lemma_created(rest, touched, next_fragment_id, id);
        if added_by(rest, id, next_fragment_id) {
            let j = choose|j: int|
                0 <= j < rest.len() && ((#[trigger] rest[j]) matches Some(
                    ActionView::AddFragment(f),
                ) && f.id == id && f.id >= next_fragment_id);
            assert(actions[j] == rest[j]);
        }
        assert(actions[actions.len() - 1] == actions.last());
    }
}

/// A fragment that can be stored is taken under an id that was never assigned
/// or that was resolved, where the counts before and after fit a delta.
pub proof fn law_addable_fragment_is_taken(
    actions: Seq<Option<ActionView>>,
    touched: TouchedView,
    next_fragment_id: u64,
    stored: DataFragmentView,
)
    requires
        actions.len() > 0,
        commit::progressed(actions.drop_last(), touched, next_fragment_id) is Ok,
        actions.last() == Some(ActionView::AddFragment(stored)),
        stored.id >= next_fragment_id || touched.ids.contains(stored.id),
        stored.id <= u32::MAX,
        stored.physical_rows <= usize::MAX,
        stored.physical_rows <= i64::MAX,
        stored.deletion_file matches Some(file) ==> file.num_deleted_rows <= stored.physical_rows
            && (file.file_type == 0 || file.file_type == 1),
        ({
            let before = commit::progressed(
                actions.drop_last(),
                touched,
                next_fragment_id,
            )->Ok_0.fragments;
            before.contains_key(stored.id) ==> counts_known(before[stored.id])
                && before[stored.id].physical_rows->0 <= i64::MAX
        }),
    ensures
        commit::progressed(actions, touched, next_fragment_id) matches Ok(after)
            && after.fragments.contains_key(stored.id) && edit_laws::same_record(
            after.fragments[stored.id],
            stored,
        ),
{
    edit_laws::law_stored_record_is_read_as_it_is(stored);
}

} // verus!
