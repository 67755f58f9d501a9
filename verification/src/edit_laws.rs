//! What each action does to the records it is applied to, field by field.
//!
//! The laws speak of replaying one mutation over a table and of how longer
//! replays are made of such steps, so together they say what any replay gives.

use vstd::prelude::*;

use crate::error::{Error, Reason};
use crate::order;
use crate::pb::{ActionView, DataFragmentView, DeletionFile, MutationView};
use crate::record;
use crate::record::{DeletionFileType, FileView, FragmentView};
use crate::replay;
use crate::replay_laws;

verus! {

/// Whether two tables hold the same records under all ids but one.
pub open spec fn same_but(
    a: Map<u64, FragmentView>,
    b: Map<u64, FragmentView>,
    id: u64,
) -> bool {
    forall|key: u64|
        key != id ==> (#[trigger] a.contains_key(key) == b.contains_key(key)) && (a.contains_key(key)
            ==> a[key] == b[key])
}

/// Whether a deletion file in memory is a stored one, value by value.
pub open spec fn same_deletion(now: record::DeletionFile, file: DeletionFile) -> bool {
    &&& now.read_version == file.read_version
    &&& now.id == file.id
    &&& now.base_id == file.base_id
    &&& now.num_deleted_rows matches Some(count) && count == file.num_deleted_rows
    &&& file.file_type == 0 ==> now.file_type == DeletionFileType::Array
    &&& file.file_type == 1 ==> now.file_type == DeletionFileType::Bitmap
    &&& file.file_type == 0 || file.file_type == 1
}

/// Whether a record in memory is a stored one, value by value.
pub open spec fn same_record(now: FragmentView, stored: DataFragmentView) -> bool {
    &&& now.id == stored.id
    &&& now.files == stored.files
    &&& now.overlays == stored.overlays
    &&& now.row_id_meta == stored.row_id_sequence
    &&& now.physical_rows matches Some(rows) && rows == stored.physical_rows
    &&& now.last_updated_at_version_meta == stored.last_updated_at_version_sequence
    &&& now.created_at_version_meta == stored.created_at_version_sequence
    &&& match (now.deletion_file, stored.deletion_file) {
        (None, None) => true,
        (Some(now), Some(file)) => same_deletion(now, file),
        _ => false,
    }
}

/// How many fragments, rows and rows that are not deleted a table holds under
/// an id.
pub open spec fn amounts_at(state: Map<u64, FragmentView>, id: u64) -> (int, int, int) {
    if !state.contains_key(id) {
        (0, 0, 0)
    } else {
        let rows = match state[id].physical_rows {
            Some(rows) => rows as int,
            None => 0,
        };
        let visible = match state[id].deletion_file {
            None => rows,
            Some(file) => match file.num_deleted_rows {
                Some(deleted) if deleted <= rows => rows - deleted,
                _ => 0,
            },
        };
        (1, rows, visible)
    }
}

/// A stored record is read as what it holds, or refused: its id fits 32 bits,
/// it has no more deleted rows than rows, and its deletion file is an array or
/// a bitmap.
pub proof fn law_stored_record_is_read_as_it_is(stored: DataFragmentView)
    ensures
        stored.decoded() matches Ok(now) ==> same_record(now, stored),
        stored.decoded() is Ok == {
            &&& stored.id <= u32::MAX
            &&& stored.physical_rows <= usize::MAX
            &&& stored.deletion_file matches Some(file) ==> file.num_deleted_rows
                <= stored.physical_rows && (file.file_type == 0 || file.file_type == 1)
        },
{
}

/// A record is stored as what it holds; an unknown count is stored as zero.
pub proof fn law_record_is_stored_as_it_is(fragment: FragmentView)
    ensures
        ({
            let stored = fragment.encoded();
            &&& stored.id == fragment.id
            &&& stored.files == fragment.files
            &&& stored.overlays == fragment.overlays
            &&& stored.row_id_sequence == fragment.row_id_meta
            &&& stored.last_updated_at_version_sequence == fragment.last_updated_at_version_meta
            &&& stored.created_at_version_sequence == fragment.created_at_version_meta
            &&& fragment.physical_rows matches Some(rows) ==> stored.physical_rows == rows
            &&& fragment.physical_rows is None ==> stored.physical_rows == 0
            &&& stored.deletion_file is Some == fragment.deletion_file is Some
            &&& fragment.deletion_file matches Some(file) ==> {
                let out = stored.deletion_file->0;
                &&& out.read_version == file.read_version
                &&& out.id == file.id
                &&& out.base_id == file.base_id
                &&& file.num_deleted_rows matches Some(count) ==> out.num_deleted_rows == count
                &&& file.num_deleted_rows is None ==> out.num_deleted_rows == 0
                &&& file.file_type == DeletionFileType::Array ==> out.file_type == 0
                &&& file.file_type == DeletionFileType::Bitmap ==> out.file_type == 1
            }
        }),
{
}

/// An action changes the fragment it names.
pub proof fn law_action_targets_the_fragment_it_names(action: ActionView)
    ensures
        match action {
            ActionView::AddFragment(f) => action.target() == f.id,
            ActionView::RemoveFragment(id) => action.target() == id,
            ActionView::AddDataFile { frag_id, .. } => action.target() == frag_id,
            ActionView::RemoveDataFile { frag_id, .. } => action.target() == frag_id,
            ActionView::ReplaceDataFile { frag_id, .. } => action.target() == frag_id,
            ActionView::AddDeletionFile { frag_id, .. } => action.target() == frag_id,
            ActionView::ClearDeletionFile { frag_id } => action.target() == frag_id,
        },
{
}

/// Replaying one mutation.
pub proof fn lemma_one(state: Map<u64, FragmentView>, m: MutationView, check: bool)
    ensures
        ({
            let (after, error) = replay::replayed(state, seq![m], check);
            match replay::step(replay::lookup(state, m.key()), m, check) {
                Ok(record) => error is None && after == replay::stored(state, m.key(), record),
                Err(why) => error == Some(why),
            }
        }),
{
    let s = seq![m];
    let none = Seq::<MutationView>::empty();
    assert(s.drop_last() =~= none);
    assert(order::sorted(none, false) =~= none);
    assert(order::sorted(none, true) =~= none);
    assert(order::sorted(s, false) =~= s);
    assert(order::sorted(s, true) =~= s);
    assert(replay::first_fault(none) is None);
    assert(replay::first_fault(s) == m.fault());
    assert(replay::folded(state, none, check) == (state, None::<Error>));
}

/// Attaching a deletion file gives the fragment exactly that file, whatever it
/// had before, and changes nothing else. It succeeds where the file's type is
/// known.
pub proof fn law_deletion_file_is_attached_as_it_is(
    state: Map<u64, FragmentView>,
    m: MutationView,
    id: u64,
    file: DeletionFile,
)
    requires
        m.action == Some(
            Some(ActionView::AddDeletionFile { frag_id: id, deletion_file: Some(file) }),
        ),
        id <= u32::MAX,
        state.contains_key(id),
        file.num_deleted_rows <= usize::MAX,
    ensures
        ({
            let (after, error) = replay::replayed(state, seq![m], false);
            &&& error is None == (file.file_type == 0 || file.file_type == 1)
            &&& error is None ==> {
                &&& same_but(after, state, id)
                &&& after.contains_key(id)
                &&& after[id].deletion_file matches Some(now) && same_deletion(now, file)
                &&& after[id] == (FragmentView {
                    deletion_file: after[id].deletion_file,
                    ..state[id]
                })
            }
        }),
{
    lemma_one(state, m, false);
}

/// Clearing a deletion file leaves the fragment without one, and changes
/// nothing else.
pub proof fn law_deletion_file_is_cleared(
    state: Map<u64, FragmentView>,
    m: MutationView,
    id: u64,
)
    requires
        m.action == Some(Some(ActionView::ClearDeletionFile { frag_id: id })),
        id <= u32::MAX,
        state.contains_key(id),
    ensures
        ({
            let (after, error) = replay::replayed(state, seq![m], false);
            &&& error is None
            &&& same_but(after, state, id)
            &&& after.contains_key(id)
            &&& after[id] == (FragmentView { deletion_file: None, ..state[id] })
        }),
{
    lemma_one(state, m, false);
}

/// Adding a data file puts it behind the fragment's files, and changes nothing
/// else.
pub proof fn law_data_file_is_added_last(
    state: Map<u64, FragmentView>,
    m: MutationView,
    id: u64,
    file: FileView,
)
    requires
        m.action == Some(Some(ActionView::AddDataFile { frag_id: id, file: Some(file) })),
        id <= u32::MAX,
        state.contains_key(id),
    ensures
        ({
            let (after, error) = replay::replayed(state, seq![m], false);
            &&& error is None
            &&& same_but(after, state, id)
            &&& after.contains_key(id)
            &&& after[id].files.len() == state[id].files.len() + 1
            &&& after[id].files.last() == file
            &&& forall|i: int|
                0 <= i < state[id].files.len() ==> #[trigger] after[id].files[i]
                    == state[id].files[i]
            &&& after[id] == (FragmentView { files: after[id].files, ..state[id] })
        }),
{
    lemma_one(state, m, false);
}

/// Removing a data file drops every file at that path, keeps the others in
/// their order, and changes nothing else.
pub proof fn law_data_file_is_removed_by_path(
    state: Map<u64, FragmentView>,
    m: MutationView,
    id: u64,
    path: Seq<char>,
)
    requires
        m.action == Some(Some(ActionView::RemoveDataFile { frag_id: id, path })),
        id <= u32::MAX,
        state.contains_key(id),
    ensures
        ({
            let (after, error) = replay::replayed(state, seq![m], false);
            &&& error is None
            &&& same_but(after, state, id)
            &&& after.contains_key(id)
            &&& after[id] == (FragmentView { files: after[id].files, ..state[id] })
            &&& after[id].files == state[id].files.filter(|file: FileView| file.path != path)
            &&& forall|i: int|
                0 <= i < after[id].files.len() ==> (#[trigger] after[id].files[i]).path != path
            &&& forall|i: int|
                0 <= i < state[id].files.len() && (#[trigger] state[id].files[i]).path != path
                    ==> after[id].files.contains(state[id].files[i])
        }),
{
    lemma_one(state, m, false);
    let pred = |file: FileView| file.path != path;
    let files = state[id].files;
    let after = replay::replayed(state, seq![m], false).0;
    assert forall|i: int| 0 <= i < after[id].files.len() implies (
    #[trigger] after[id].files[i]).path != path by {
        files.lemma_filter_pred(pred, i);
    }
    assert forall|i: int| 0 <= i < files.len() && (
    #[trigger] files[i]).path != path implies after[id].files.contains(files[i]) by {
        files.lemma_filter_contains(pred, i);
    }
}

/// Replacing a data file gives the first file at the expected path the new
/// path, size and owner, keeps its fields, columns and version, and changes
/// nothing else. It succeeds where there is such a file.
pub proof fn law_data_file_is_replaced_in_place(
    state: Map<u64, FragmentView>,
    m: MutationView,
    id: u64,
    expected_path: Seq<char>,
    path: Seq<char>,
    file_size_bytes: u64,
    base_id: Option<u32>,
    at: int,
)
    requires
        m.action == Some(
            Some(
                ActionView::ReplaceDataFile {
                    frag_id: id,
                    expected_path,
                    path,
                    file_size_bytes,
                    base_id,
                },
            ),
        ),
        id <= u32::MAX,
        expected_path.len() > 0,
        path.len() > 0,
        state.contains_key(id),
        0 <= at < state[id].files.len(),
        state[id].files[at].path == expected_path,
        forall|i: int| 0 <= i < at ==> (#[trigger] state[id].files[i]).path != expected_path,
    ensures
        ({
            let (after, error) = replay::replayed(state, seq![m], false);
            let was = state[id].files[at];
            let now = after[id].files[at];
            &&& error is None
            &&& same_but(after, state, id)
            &&& after.contains_key(id)
            &&& after[id] == (FragmentView { files: after[id].files, ..state[id] })
            &&& after[id].files.len() == state[id].files.len()
            &&& forall|i: int|
                0 <= i < state[id].files.len() && i != at ==> #[trigger] after[id].files[i]
                    == state[id].files[i]
            &&& now.path == path
            &&& now.file_size_bytes == file_size_bytes
            &&& now.base_id == base_id
            &&& now.fields == was.fields
            &&& now.column_indices == was.column_indices
            &&& now.file_major_version == was.file_major_version
            &&& now.file_minor_version == was.file_minor_version
        }),
{
    lemma_one(state, m, false);
    replay::lemma_first_at_is(state[id].files, expected_path, at);
}

/// Adding a fragment puts exactly the given record under its id, whatever was
/// there before, and changes nothing else. It succeeds where the record can be
/// read.
pub proof fn law_fragment_is_set_as_it_is(
    state: Map<u64, FragmentView>,
    m: MutationView,
    stored: DataFragmentView,
)
    requires
        m.action == Some(Some(ActionView::AddFragment(stored))),
    ensures
        ({
            let (after, error) = replay::replayed(state, seq![m], false);
            &&& error is None == {
                &&& stored.id <= u32::MAX
                &&& stored.physical_rows <= usize::MAX
                &&& stored.deletion_file matches Some(file) ==> file.num_deleted_rows
                    <= stored.physical_rows && (file.file_type == 0 || file.file_type == 1)
            }
            &&& error is None ==> {
                &&& same_but(after, state, stored.id)
                &&& after.contains_key(stored.id)
                &&& same_record(after[stored.id], stored)
            }
        }),
{
    lemma_one(state, m, false);
    law_stored_record_is_read_as_it_is(stored);
}

/// Removing a fragment leaves nothing under its id, also where nothing was, and
/// changes nothing else.
pub proof fn law_fragment_is_removed(state: Map<u64, FragmentView>, m: MutationView, id: u64)
    requires
        m.action == Some(Some(ActionView::RemoveFragment(id))),
        id <= u32::MAX,
    ensures
        ({
            let (after, error) = replay::replayed(state, seq![m], false);
            &&& error is None
            &&& same_but(after, state, id)
            &&& !after.contains_key(id)
        }),
{
    lemma_one(state, m, false);
}

/// A mutation that is incomplete, names an id over 32 bits, or edits a fragment
/// or a file that is not there is refused, and a refused mutation changes
/// nothing.
pub proof fn law_unusable_mutation_is_refused(
    state: Map<u64, FragmentView>,
    m: MutationView,
    check: bool,
)
    ensures
        ({
            let (after, error) = replay::replayed(state, seq![m], check);
            &&& match m.action {
                None | Some(None) => error is Some,
                Some(Some(ActionView::AddFragment(f))) => f.id > u32::MAX ==> error is Some,
                Some(Some(ActionView::RemoveFragment(id))) => id > u32::MAX ==> error is Some,
                Some(Some(ActionView::AddDataFile { frag_id, file })) => {
                    frag_id > u32::MAX || file is None || !state.contains_key(frag_id) ==> error
                        is Some
                },
                Some(Some(ActionView::RemoveDataFile { frag_id, path })) => {
                    frag_id > u32::MAX || !state.contains_key(frag_id) ==> error is Some
                },
                Some(
                    Some(ActionView::ReplaceDataFile { frag_id, expected_path, path, .. }),
                ) => {
                    frag_id > u32::MAX || expected_path.len() == 0 || path.len() == 0
                        || !state.contains_key(frag_id) || (forall|i: int|
                        0 <= i < state[frag_id].files.len() ==> (
                        #[trigger] state[frag_id].files[i]).path != expected_path) ==> error
                        is Some
                },
                Some(Some(ActionView::AddDeletionFile { frag_id, deletion_file })) => {
                    frag_id > u32::MAX || deletion_file is None || !state.contains_key(frag_id)
                        ==> error is Some
                },
                Some(Some(ActionView::ClearDeletionFile { frag_id })) => {
                    frag_id > u32::MAX || !state.contains_key(frag_id) ==> error is Some
                },
            }
            &&& !check && error is Some ==> forall|key: u64| #[trigger]
                after.contains_key(key) == state.contains_key(key) && (state.contains_key(key)
                    ==> after[key] == state[key])
        }),
{
    lemma_one(state, m, check);
    let s = seq![m];
    let none = Seq::<MutationView>::empty();
    assert(s.drop_last() =~= none);
    assert(order::sorted(none, false) =~= none);
    assert(order::sorted(none, true) =~= none);
    assert(order::sorted(s, false) =~= s);
    assert(order::sorted(s, true) =~= s);
    assert(replay::first_fault(none) is None);
    assert(replay::folded(state, none, check) == (state, None::<Error>));
    if let Some(Some(ActionView::ReplaceDataFile { frag_id, expected_path, path, .. })) = m.action {
        if state.contains_key(frag_id) {
            replay::lemma_first_at(state[frag_id].files, expected_path);
        }
    }
    let record = replay::lookup(state, m.key());
    assert(replay::stored(state, m.key(), record) =~= state);
}

/// A verifying replay accepts a mutation exactly where a trusting one does and
/// the mutation's deltas are what it changes the counts of its fragment by:
/// fragments, rows, and rows that are not deleted. It leaves the same table.
pub proof fn law_verified_replay_checks_the_counts(
    state: Map<u64, FragmentView>,
    m: MutationView,
    id: u64,
)
    requires
        m.action matches Some(Some(action)) && action.target() == id,
    ensures
        ({
            let (trusted, fault) = replay::replayed(state, seq![m], false);
            let (verified, error) = replay::replayed(state, seq![m], true);
            let was = amounts_at(state, id);
            let now = amounts_at(trusted, id);
            &&& error is None == (fault is None && m.fragment_count_delta == now.0 - was.0
                && m.total_rows_delta == now.1 - was.1 && m.visible_rows_delta == now.2 - was.2)
            &&& error is None ==> verified == trusted
        }),
{
    lemma_one(state, m, false);
    lemma_one(state, m, true);
    let record = replay::lookup(state, m.key());
    assert(m.key() == id);
    if replay::step(record, m, false) is Ok {
        let after = replay::step(record, m, false)->Ok_0;
        let now = replay::stored(state, id, after);
        assert(replay::lookup(now, id) == after);
    }
}

/// A replay that uses a place in the commit order twice is refused.
pub proof fn law_place_used_twice_is_refused(
    state: Map<u64, FragmentView>,
    s: Seq<MutationView>,
    check: bool,
    i: int,
    j: int,
)
    requires
        0 <= i < j < s.len(),
        s[i].action_sequence == s[j].action_sequence,
    ensures
        replay::replayed(state, s, check).1 == Some(
            Error::CorruptFile { reason: Reason::DuplicateReplaySequence },
        ),
{
}

/// The mutations of a fragment in commit order when one more follows them.
proof fn lemma_run_push(s: Seq<MutationView>, m: MutationView, key: u64)
    requires
        forall|i: int|
            0 <= i < s.len() ==> (#[trigger] s[i]).action_sequence < m.action_sequence,
    ensures
        order::run(s.push(m), key) == if m.key() == key {
            order::run(s, key).push(m)
        } else {
            order::run(s, key)
        },
{
    broadcast use Seq::lemma_filter_push;

    let own = order::of_key(s, key);
    let before = order::sorted(own, false);
    if m.key() == key {
        assert(order::of_key(s.push(m), key) == own.push(m));
        assert(own.push(m).drop_last() =~= own);
        if before.len() > 0 {
            assert(before.contains(before.last()));
            order::lemma_sorted_contains(own, false, before.last());
            order::lemma_of_key_contains(s, key, before.last());
            let i = choose|i: int| 0 <= i < s.len() && s[i] == before.last();
            assert(s[i].action_sequence < m.action_sequence);
        }
    }
}

/// Mutations apply in commit order: one that comes after all others is applied
/// to what the others leave.
pub proof fn law_later_mutation_applies_last(
    state: Map<u64, FragmentView>,
    s: Seq<MutationView>,
    m: MutationView,
    check: bool,
)
    requires
        forall|i: int|
            0 <= i < s.len() ==> (#[trigger] s[i]).action_sequence < m.action_sequence,
    ensures
        ({
            let (middle, first) = replay::replayed(state, s, check);
            let (last, second) = replay::replayed(middle, seq![m], check);
            let (whole, error) = replay::replayed(state, s.push(m), check);
            &&& error is None == (first is None && second is None)
            &&& error is None ==> whole == last
        }),
{
    let both = s.push(m);
    let (middle, first) = replay::replayed(state, s, check);
    replay_laws::law_fragments_replay_independently(state, s, check);
    replay_laws::law_fragments_replay_independently(state, both, check);
    lemma_one(middle, m, check);
    assert(order::distinct(both) == order::distinct(s)) by {
        if order::distinct(s) {
            assert forall|i: int, j: int| 0 <= i < j < both.len() implies (
            #[trigger] both[i]).action_sequence != (#[trigger] both[j]).action_sequence by {
                assert(both[i] == s[i]);
                if j < s.len() {
                    assert(both[j] == s[j]);
                }
            }
        }
        if order::distinct(both) {
            assert forall|i: int, j: int| 0 <= i < j < s.len() implies (
            #[trigger] s[i]).action_sequence != (#[trigger] s[j]).action_sequence by {
                assert(both[i] == s[i] && both[j] == s[j]);
            }
        }
    }
    assert forall|key: u64| #[trigger]
        order::run(both, key) == if m.key() == key {
            order::run(s, key).push(m)
        } else {
            order::run(s, key)
        } by {
        lemma_run_push(s, m, key);
    }
    let whole = replay::replayed(state, both, check);
    if whole.1 is None {
        assert forall|key: u64| replay::outcome(
            replay::lookup(state, key),
            #[trigger] order::run(s, key),
            check,
        ) is Ok by {
            let longer = order::run(both, key);
            assert(replay::outcome(replay::lookup(state, key), longer, check) is Ok);
            if m.key() == key {
                assert(longer.drop_last() =~= order::run(s, key));
            }
        }
        assert(first is None);
    }
    if first is None {
        let key = m.key();
        let longer = order::run(both, key);
        assert(longer.drop_last() =~= order::run(s, key));
        let short = order::run(s, key);
        assert(replay::outcome(replay::lookup(state, key), short, check) == Ok::<
            Option<FragmentView>,
            Error,
        >(replay::lookup(middle, key)));
        if replay::replayed(middle, seq![m], check).1 is None {
            assert forall|k: u64| replay::outcome(
                replay::lookup(state, k),
                #[trigger] order::run(both, k),
                check,
            ) is Ok by {
                let own = order::run(s, k);
            }
            assert(whole.1 is None);
            let last = replay::replayed(middle, seq![m], check).0;
            assert forall|k: u64| replay::lookup(whole.0, k) == #[trigger] replay::lookup(
                last,
                k,
            ) by {
                let own = order::run(s, k);
                let more = order::run(both, k);
            }
            crate::squash_laws::lemma_lookup_decides(whole.0, last);
        }
    }
}

/// A replay does not depend on the order in which its mutations are held, where
/// no two of them share a place in the commit order.
pub proof fn law_replay_ignores_the_order_held(
    state: Map<u64, FragmentView>,
    s: Seq<MutationView>,
    t: Seq<MutationView>,
    check: bool,
)
    requires
        s.to_multiset() == t.to_multiset(),
        forall|i: int, j: int|
            0 <= i < j < s.len() ==> (#[trigger] s[i]).action_sequence != (
            #[trigger] s[j]).action_sequence,
    ensures
        replay::replayed(state, s, check) == replay::replayed(state, t, check),
{
    order::lemma_sorted_multiset(s, true);
    order::lemma_sorted_multiset(t, true);
    order::lemma_sorted_multiset(s, false);
    order::lemma_sorted_multiset(t, false);
    order::lemma_sorted_is_sorted(s, true);
    order::lemma_sorted_is_sorted(t, true);
    order::lemma_sorted_is_sorted(s, false);
    order::lemma_sorted_is_sorted(t, false);
    order::lemma_sorted_distinct(s, true);
    order::lemma_sorted_distinct(s, false);
    lemma_distinct_multiset(s, t);
    order::lemma_sorted_distinct(t, true);
    order::lemma_sorted_distinct(t, false);
    order::lemma_sorted_unique(order::sorted(s, true), order::sorted(t, true), true);
    order::lemma_sorted_unique(order::sorted(s, false), order::sorted(t, false), false);
}

/// Lists that hold the same mutations use no place twice alike.
proof fn lemma_distinct_multiset(s: Seq<MutationView>, t: Seq<MutationView>)
    requires
        s.to_multiset() == t.to_multiset(),
        order::distinct(s),
    ensures
        order::distinct(t),
{
    broadcast use vstd::seq_lib::group_to_multiset_ensures;

    assert forall|i: int, j: int| 0 <= i < j < t.len() implies (#[trigger] t[i]).action_sequence
        != (#[trigger] t[j]).action_sequence by {
        if t[i].action_sequence == t[j].action_sequence {
            assert(t.contains(t[i]) && t.contains(t[j]));
            assert(s.to_multiset().count(t[i]) > 0 && s.to_multiset().count(t[j]) > 0);
            assert(s.contains(t[i]) && s.contains(t[j]));
            let a = choose|a: int| 0 <= a < s.len() && s[a] == t[i];
            let b = choose|b: int| 0 <= b < s.len() && s[b] == t[j];
            assert(a == b) by {
                if a < b {
                    assert(s[a].action_sequence != s[b].action_sequence);
                } else if b < a {
                    assert(s[b].action_sequence != s[a].action_sequence);
                }
            }
            lemma_count_twice(t, i, j);
            lemma_count_once(s, a);
        }
    }
}

proof fn lemma_count_twice(t: Seq<MutationView>, i: int, j: int)
    requires
        0 <= i < j < t.len(),
        t[i] == t[j],
    ensures
        t.to_multiset().count(t[i]) >= 2,
{
    broadcast use vstd::seq_lib::group_to_multiset_ensures;

    let rest = t.remove(j);
    assert(rest[i] == t[i]);
    assert(rest.contains(t[i]));
    vstd::seq_lib::to_multiset_remove(t, j);
    assert(t.to_multiset().remove(t[j]) == rest.to_multiset());
    assert(rest.to_multiset().count(t[i]) > 0);
}

proof fn lemma_count_once(s: Seq<MutationView>, a: int)
    requires
        0 <= a < s.len(),
        order::distinct(s),
    ensures
        s.to_multiset().count(s[a]) == 1,
{
    broadcast use vstd::seq_lib::group_to_multiset_ensures;

    let rest = s.remove(a);
    vstd::seq_lib::to_multiset_remove(s, a);
    assert(s.contains(s[a]));
    if rest.contains(s[a]) {
        let k = choose|k: int| 0 <= k < rest.len() && rest[k] == s[a];
        if k < a {
            assert(s[k].action_sequence != s[a].action_sequence);
        } else {
            assert(s[a].action_sequence != s[k + 1].action_sequence);
        }
    }
    assert(rest.to_multiset().count(s[a]) == 0);
}

} // verus!
